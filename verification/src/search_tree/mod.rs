//! The search tree: a packed array in van Emde Boas order together with its
//! height, built once from a stream of keys and searched any number of
//! times.

pub mod util;
pub mod veb;
pub mod search;
pub mod create;

use vstd::prelude::*;
use vstd::arithmetic::power2::{
    lemma2_to64, lemma_pow2_pos, lemma_pow2_strictly_increases, lemma_pow2_unfold, pow2,
};
use vstd::std_specs::iter::IteratorSpec;
use crate::search_tree::create::{layout, tree_region, BuildError};
use crate::search_tree::search::{
    as_tree_index, lemma_lower_bound_rank, lemma_lower_bound_sorted, lower_bound_leaf,
    lower_bound_rank, search_for_lower_bound, SearchTreeIndex,
};
use crate::search_tree::util::{
    leaf_count, lemma_pow2_bounds, number_of_leaves_in_tree, tree_size, MAX_HEIGHT,
};
use crate::search_tree::veb::{
    first_leaf_below, index_of_leaf, is_sorted, is_veb_layout, leaf_index, leaves_of,
    lemma_leaf_index_positive, lemma_node_index_bound, lemma_root_index, node_index,
};

verus! {

/// Greatest number of leaves of a tree whose offsets fit an `i32`.
pub const MAX_LEAVES: usize = 0x4000_0000;

/// `n` is one of `1, 2, 4, 8, ...`.
pub open spec fn is_power_of_two(n: nat) -> bool {
    exists|e: nat| n == pow2(e)
}

/// The outcome that names the leaf of rank `r` of a tree of height `h`: its
/// offset in the packed array and its rank.
pub open spec fn leaf_outcome(h: nat, r: int) -> SearchTreeIndex {
    SearchTreeIndex::Leaf { index: leaf_index(h, r as nat) as i32, leaf_number: r as i32 }
}

/// A static search tree over `i64` keys.
pub struct SearchTree {
    array: Vec<i64>,
    height: u16,
}

impl View for SearchTree {
    type V = Seq<i64>;

    /// The packed array.
    closed spec fn view(&self) -> Seq<i64> {
        self.array@
    }
}

impl SearchTree {
    /// Number of levels of the tree.
    pub closed spec fn spec_height(&self) -> nat {
        self.height as nat
    }

    /// The keys at the leaves, from left to right.
    pub open spec fn leaves(&self) -> Seq<i64> {
        leaves_of(self@, self.spec_height())
    }

    /// The packed array is that of a tree of `spec_height()` levels: it has
    /// `2^height - 1` entries and every node holds the first leaf below it.
    pub open spec fn wf(&self) -> bool {
        &&& 1 <= self.spec_height() <= MAX_HEIGHT
        &&& is_veb_layout(self@, self.spec_height(), self.leaves())
    }

    #[verifier::type_invariant]
    spec fn inv(&self) -> bool {
        self.wf()
    }

    /// The lower bound of `x`: the rightmost leaf whose key does not exceed
    /// `x`, with its offset in the packed array, or `NotInTree` when every
    /// key exceeds `x`.
    pub open spec fn lower_bound(&self, x: i64) -> SearchTreeIndex {
        let r = lower_bound_rank(self.leaves(), x);
        if r < 0 {
            SearchTreeIndex::NotInTree
        } else {
            leaf_outcome(self.spec_height(), r)
        }
    }

    /// Searches the tree for the lower bound of `element`.
    ///
    /// On a tree built from sorted keys the outcome is the rightmost leaf
    /// whose key does not exceed `element`: the last leaf when `element` is
    /// not below the greatest key, and `NotInTree` when it is below the
    /// smallest. On any tree a leaf that is returned is a leaf of the tree.
    pub fn search(&self, element: i64) -> (outcome: SearchTreeIndex)
        ensures
            self.wf(),
            is_sorted(self.leaves()) ==> outcome == self.lower_bound(element),
            outcome matches SearchTreeIndex::Leaf { index, leaf_number } ==> 0 <= leaf_number
                < leaf_count(self.spec_height()) && index == leaf_index(
                self.spec_height(),
                leaf_number as nat,
            ),
    {
        proof {
            use_type_invariant(self);
            lemma_lower_bound_is_locator(self.leaves(), self.spec_height(), element);
        }
        search_for_lower_bound(element, self.height, self.array.as_slice()).to_tree_index()
    }

    /// Builds the tree over the `count` keys of `generator`.
    ///
    /// `count` may not exceed `MAX_LEAVES`, so that every offset fits an
    /// `i32`. It must be a power of two, else `CountNotPowerOfTwo` is
    /// returned. A stream that keeps the iterator protocol must hold
    /// exactly `count` keys: with fewer the outcome is `StreamTooShort`,
    /// with more it is `StreamTooLong`. The leaves of the tree built are the
    /// keys of the stream, in their order; the searches find lower bounds
    /// where those keys are sorted.
    pub fn new(generator: impl Iterator<Item = i64>, count: usize) -> (built: Result<
        SearchTree,
        BuildError,
    >)
        requires
            count <= MAX_LEAVES,
        ensures
            match built {
                Ok(tree) => {
                    &&& tree.wf()
                    &&& leaf_count(tree.spec_height()) == count
                    &&& tree@.len() == 2 * count - 1
                    &&& generator.obeys_prophetic_iter_laws() ==> generator.remaining()
                        == tree.leaves()
                },
                Err(BuildError::CountNotPowerOfTwo) => !is_power_of_two(count as nat),
                Err(BuildError::StreamTooShort) => {
                    &&& is_power_of_two(count as nat)
                    &&& generator.obeys_prophetic_iter_laws() ==> generator.remaining().len()
                        < count
                },
                Err(BuildError::StreamTooLong) => {
                    &&& is_power_of_two(count as nat)
                    &&& generator.obeys_prophetic_iter_laws() ==> generator.remaining().len()
                        > count
                },
            },
    {
        let ghost keys = generator.remaining();
        let ghost obeys = generator.obeys_prophetic_iter_laws();
        let mut height: u16 = 1;
        let mut leaves: usize = 1;
        proof {
            lemma2_to64();
        }
        while leaves < count
            invariant
                count <= MAX_LEAVES,
                1 <= height <= MAX_HEIGHT,
                1 <= leaves,
                leaves == pow2((height - 1) as nat),
                height > 1 ==> pow2((height - 2) as nat) < count,
            decreases MAX_HEIGHT - height,
        {
            proof {
                lemma2_to64();
                lemma_pow2_unfold(height as nat);
            }
            leaves = leaves * 2;
            height = height + 1;
        }
        if leaves != count {
            proof {
                lemma_between_powers(count as nat, (height - 1) as nat);
            }
            return Err(BuildError::CountNotPowerOfTwo);
        }
        proof {
            lemma_pow2_unfold(height as nat);
        }
        let size: usize = count * 2 - 1;
        let mut reserved_space: Vec<i64> = vec![0; size];
        let mut generator = generator;
        match layout(&mut reserved_space, 0, &mut generator, height) {
            Err(error) => Err(error),
            Ok(_) => {
                if generator.next().is_some() {
                    return Err(BuildError::StreamTooLong);
                }
                proof {
                    assert(tree_region(reserved_space@, 0, height as nat) =~= reserved_space@);
                    if obeys {
                        assert(keys.take(count as int) =~= keys);
                    }
                }
                Ok(SearchTree { array: reserved_space, height })
            },
        }
    }

    /// Number of levels of the tree.
    pub fn height(&self) -> (height: u16)
        ensures
            self.wf(),
            height == self.spec_height(),
            1 <= height <= MAX_HEIGHT,
    {
        proof {
            use_type_invariant(self);
        }
        self.height
    }

    /// Number of leaves of the tree.
    pub fn leaf_count(&self) -> (count: usize)
        ensures
            self.wf(),
            count == leaf_count(self.spec_height()),
            count == self.leaves().len(),
    {
        proof {
            use_type_invariant(self);
            lemma_pow2_bounds((self.height - 1) as nat);
        }
        number_of_leaves_in_tree(self.height) as usize
    }

    /// The key at the leaf with in-order rank `rank`, if the tree has such a
    /// leaf.
    pub fn leaf_at(&self, rank: usize) -> (key: Option<i64>)
        ensures
            self.wf(),
            key == (if rank < self.leaves().len() {
                Some(self.leaves()[rank as int])
            } else {
                None
            }),
    {
        proof {
            use_type_invariant(self);
            lemma_pow2_bounds((self.height - 1) as nat);
        }
        if rank < self.leaf_count() {
            let index: i32 = index_of_leaf(self.height, rank as i32);
            Some(self.array[index as usize])
        } else {
            None
        }
    }
}

/// A tree has the `2^height - 1` entries of a complete binary tree, one leaf
/// for each of its `2^(height-1)` keys, and its root holds its first key.
pub proof fn lemma_tree_shape(tree: SearchTree)
    requires
        tree.wf(),
    ensures
        tree@.len() == tree_size(tree.spec_height()),
        tree@.len() == 2 * tree.leaves().len() - 1,
        tree.leaves().len() == leaf_count(tree.spec_height()),
        tree.leaves().len() >= 1,
        tree@[0] == tree.leaves()[0],
{
    let h = tree.spec_height();
    lemma_pow2_unfold(h);
    lemma_pow2_pos((h - 1) as nat);
    lemma_root_index(h);
    lemma_pow2_pos(0);
    assert(tree@[node_index(h, 0, 0) as int] == tree.leaves()[first_leaf_below(h, 0, 0) as int]);
    assert(0 * pow2((h - 1) as nat) == 0) by (nonlinear_arith);
}

/// On a tree with sorted leaves `k_0 <= k_1 <= ... <= k_(n-1)` a query below
/// `k_0`, which the root holds, is not in the tree. Any other query is
/// answered with the greatest rank whose key does not exceed it, which is
/// the last rank when the query is not below `k_(n-1)`, and with the offset
/// of that leaf in the packed array.
pub proof fn lemma_lower_bound_correct(tree: SearchTree, x: i64)
    requires
        tree.wf(),
        is_sorted(tree.leaves()),
    ensures
        x < tree@[0] <==> tree.lower_bound(x) == SearchTreeIndex::NotInTree,
        x >= tree@[0] ==> (exists|r: int|
            {
                &&& 0 <= r < tree.leaves().len()
                &&& #[trigger] tree.leaves()[r] <= x
                &&& forall|i: int| r < i < tree.leaves().len() ==> tree.leaves()[i] > x
                &&& tree.lower_bound(x) == leaf_outcome(tree.spec_height(), r)
            }),
        x >= tree.leaves().last() ==> tree.lower_bound(x) == leaf_outcome(
            tree.spec_height(),
            tree.leaves().len() - 1,
        ),
{
    let leaves = tree.leaves();
    let r = lower_bound_rank(leaves, x);
    lemma_tree_shape(tree);
    lemma_lower_bound_rank(leaves, x);
    if x >= leaves[0] {
        assert(r >= 0);
        assert(leaves[r] <= x);
    }
    if x >= leaves.last() {
        lemma_lower_bound_sorted(leaves, x, leaves.len() - 1);
    }
}

/// The outcome of a search is a function of the packed array, the height and
/// the query: trees that hold the same answer every query alike, and so does
/// one tree that is asked twice.
pub proof fn lemma_search_is_a_function(first: SearchTree, second: SearchTree, x: i64)
    requires
        first@ == second@,
        first.spec_height() == second.spec_height(),
    ensures
        first.leaves() == second.leaves(),
        first.lower_bound(x) == second.lower_bound(x),
{
}

/// A number strictly between two neighbouring powers of two, and zero, is no
/// power of two.
proof fn lemma_between_powers(n: nat, e: nat)
    requires
        n < pow2(e),
        e > 0 ==> pow2((e - 1) as nat) < n,
    ensures
        !is_power_of_two(n),
{
    assert forall|k: nat| n != pow2(k) by {
        lemma_pow2_pos(k);
        if k < e {
            if k + 1 < e {
                lemma_pow2_strictly_increases(k, (e - 1) as nat);
            }
        } else if k > e {
            lemma_pow2_strictly_increases(e, k);
        }
    }
}

/// The two-variant form of the leaf that a search returns is the lower
/// bound as the tree states it.
proof fn lemma_lower_bound_is_locator(leaves: Seq<i64>, h: nat, x: i64)
    requires
        1 <= h <= MAX_HEIGHT,
        leaves.len() == leaf_count(h),
    ensures
        as_tree_index(lower_bound_leaf(leaves, h, x)) == (if lower_bound_rank(leaves, x) < 0 {
            SearchTreeIndex::NotInTree
        } else {
            leaf_outcome(h, lower_bound_rank(leaves, x))
        }),
{
    let r = lower_bound_rank(leaves, x);
    lemma_lower_bound_rank(leaves, x);
    lemma2_to64();
    lemma_pow2_bounds(h);
    lemma_pow2_bounds((h - 1) as nat);
    if r >= 0 {
        lemma_node_index_bound(h, (h - 1) as nat, r as nat);
        if h >= 2 {
            lemma_leaf_index_positive(h, r as nat);
        }
    }
}

} // verus!
