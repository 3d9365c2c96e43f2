//! A static cache-oblivious search tree over sorted integer keys.
//!
//! The tree is a complete binary tree stored in one flat array in van Emde
//! Boas order. It is built once from a sorted stream of keys and then answers
//! lower-bound queries.

pub mod search_tree;
