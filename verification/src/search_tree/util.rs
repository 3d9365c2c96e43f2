//! Arithmetic on complete binary trees: heights, node counts, leaf counts and
//! the height at which a tree is split into its top and bottom halves.

use vstd::prelude::*;
use vstd::arithmetic::power2::{
    lemma2_to64, lemma_pow2_adds, lemma_pow2_pos, lemma_pow2_strictly_increases,
    lemma_pow2_unfold, pow2,
};
use vstd::bits::lemma_u64_shl_is_mul;

verus! {

/// Greatest height whose packed array can be addressed by an `i32` offset.
pub const MAX_HEIGHT: u16 = 31;

/// Number of nodes of a complete binary tree with `h` levels: `2^h - 1`.
pub open spec fn tree_size(h: nat) -> nat {
    (pow2(h) - 1) as nat
}

/// Number of leaves of a complete binary tree with `h >= 1` levels: `2^(h-1)`.
pub open spec fn leaf_count(h: nat) -> nat {
    pow2((h - 1) as nat)
}

/// Height of the upper half when a tree of height `h` is split: the upper
/// half takes the extra level when `h` is odd.
pub open spec fn top_height(h: nat) -> nat {
    h / 2 + h % 2
}

/// Height of each lower half when a tree of height `h` is split.
pub open spec fn bottom_height(h: nat) -> nat {
    h / 2
}

/// Bounds on the powers of two up to `2^31`; `2^31 - 1` is `i32::MAX`.
pub proof fn lemma_pow2_bounds(e: nat)
    requires
        e <= 31,
    ensures
        1 <= pow2(e) <= 0x8000_0000,
        e <= 30 ==> pow2(e) <= 0x4000_0000,
{
    lemma_pow2_pos(e);
    lemma2_to64();
    if e < 30 {
        lemma_pow2_strictly_increases(e, 30);
    }
}

/// How the node and leaf counts of a tree of height `h >= 2` are made up of
/// those of its upper half and of its `2^top_height(h)` lower halves.
pub proof fn lemma_split_heights(h: nat)
    requires
        h >= 2,
    ensures
        top_height(h) + bottom_height(h) == h,
        1 <= bottom_height(h) <= top_height(h) < h,
        pow2(h) == pow2(top_height(h)) * pow2(bottom_height(h)),
        tree_size(h) == tree_size(top_height(h)) + pow2(top_height(h)) * tree_size(
            bottom_height(h),
        ),
        leaf_count(h) == pow2(top_height(h)) * leaf_count(bottom_height(h)),
        leaf_count(h) == leaf_count(top_height(h)) * pow2(bottom_height(h)),
        pow2(top_height(h)) == 2 * leaf_count(top_height(h)),
        1 <= tree_size(bottom_height(h)) <= tree_size(top_height(h)) < tree_size(h),
{
    let ht = top_height(h);
    let hb = bottom_height(h);
    lemma_pow2_adds(ht, hb);
    lemma_pow2_adds(ht, (hb - 1) as nat);
    lemma_pow2_adds((ht - 1) as nat, hb);
    lemma_pow2_unfold(ht);
    lemma_pow2_pos(ht);
    lemma_pow2_pos(hb);
    let a = pow2(ht) as int;
    let b = pow2(hb) as int;
    assert((a - 1) + a * (b - 1) == a * b - 1) by (nonlinear_arith);
    lemma_pow2_unfold(hb);
    lemma_pow2_pos((hb - 1) as nat);
    if hb < ht {
        lemma_pow2_strictly_increases(hb, ht);
    }
    assert(a * (b - 1) >= 1) by (nonlinear_arith)
        requires
            a >= 1,
            b >= 2,
    ;
}

/// Whether `height` is odd.
pub fn is_odd(height: u16) -> (odd: bool)
    ensures
        odd == (height % 2 == 1),
{
    height % 2 == 1
}

/// Height of the upper half of a tree of `height` levels.
pub fn split_top_height(height: u16) -> (top: u16)
    ensures
        top == top_height(height as nat),
{
    let half: u16 = height / 2;
    if is_odd(height) {
        half + 1
    } else {
        half
    }
}

/// Node count `2^height - 1` of a complete tree.
pub fn size_of_tree_with_height(height: u16) -> (size: i32)
    requires
        height <= MAX_HEIGHT,
    ensures
        size == tree_size(height as nat),
{
    proof {
        lemma_pow2_bounds(height as nat);
        lemma_u64_shl_is_mul(1u64, height as u64);
    }
    let nodes: u64 = (1u64 << (height as u64)) - 1;
    nodes as i32
}

/// Leaf count `2^(height-1)` of a complete tree.
pub fn number_of_leaves_in_tree(height: u16) -> (leaves: i32)
    requires
        1 <= height <= MAX_HEIGHT,
    ensures
        leaves == leaf_count(height as nat),
{
    proof {
        lemma_pow2_bounds((height - 1) as nat);
        lemma_u64_shl_is_mul(1u64, (height - 1) as u64);
    }
    let leaves: u64 = 1u64 << ((height - 1) as u64);
    leaves as i32
}

} // verus!
