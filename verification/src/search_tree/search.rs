//! Lower-bound search in a packed search tree.
//!
//! A query descends through the same split that laid the tree out: first
//! through the upper half, then into one of the two lower halves below the
//! leaf it reached there. Trees of one, two and three levels are searched
//! directly.

use vstd::prelude::*;
use vstd::arithmetic::power2::{lemma2_to64, lemma_pow2_pos, lemma_pow2_unfold, pow2};
use crate::search_tree::util::{
    bottom_height, leaf_count, lemma_pow2_bounds, lemma_split_heights, number_of_leaves_in_tree,
    size_of_tree_with_height, split_top_height, top_height, tree_size, MAX_HEIGHT,
};
use crate::search_tree::veb::{
    bottom_leaves, bottom_part, bottom_start, first_leaf_below, is_search_tree, is_sorted,
    leaf_index, leaves_of, lemma_bottom_leaf, lemma_bottom_root, lemma_bottom_start_bounds,
    lemma_leaf_index_positive, lemma_node_index_bound, lemma_search_tree_parts, node_index,
    top_leaves, top_part,
};
use vstd::slice::slice_subrange;

verus! {

/// Where a query ended: the offset of a leaf in the packed array and the
/// in-order rank of that leaf. The pair `index: 0, leaf_number: 1` stands for
/// a query below every key; no leaf has that pair.
#[derive(PartialEq, Eq, Debug, Clone, Copy, Structural)]
pub struct Leaf {
    pub index: i32,
    pub leaf_number: i32,
}

/// The outcome of a search.
#[derive(PartialEq, Eq, Debug, Clone, Copy, Structural)]
pub enum SearchTreeIndex {
    /// The query is smaller than every key of the tree.
    NotInTree,
    /// The rightmost leaf whose key does not exceed the query.
    Leaf { index: i32, leaf_number: i32 },
}

/// Rank of the rightmost key that does not exceed `x`, found by scanning
/// from the right; `-1` when every key exceeds `x`.
pub open spec fn lower_bound_rank(keys: Seq<i64>, x: i64) -> int
    decreases keys.len(),
{
    if keys.len() == 0 {
        -1
    } else if keys.last() <= x {
        keys.len() - 1
    } else {
        lower_bound_rank(keys.drop_last(), x)
    }
}

/// Rank of the leftmost key at or after rank `from` that exceeds `x`, found
/// by scanning to the right; the number of keys when there is none.
pub open spec fn first_greater_from(keys: Seq<i64>, x: i64, from: nat) -> nat
    decreases keys.len() - from,
{
    if from >= keys.len() || keys[from as int] > x {
        from
    } else {
        first_greater_from(keys, x, from + 1)
    }
}

/// Rank of the leftmost key that exceeds `x`; the number of keys when no key
/// does.
pub open spec fn first_greater(keys: Seq<i64>, x: i64) -> nat {
    first_greater_from(keys, x, 0)
}

/// The pair that stands for a query below every key.
pub open spec fn not_in_tree() -> Leaf {
    Leaf { index: 0, leaf_number: 1 }
}

/// The locator of the leaf with rank `r` in a tree of height `h`.
pub open spec fn leaf_at_rank(h: nat, r: int) -> Leaf {
    Leaf { index: leaf_index(h, r as nat) as i32, leaf_number: r as i32 }
}

/// What a lower-bound search for `x` returns on a tree of height `h` over
/// `leaves`.
pub open spec fn lower_bound_leaf(leaves: Seq<i64>, h: nat, x: i64) -> Leaf {
    let r = lower_bound_rank(leaves, x);
    if r < 0 {
        not_in_tree()
    } else {
        leaf_at_rank(h, r)
    }
}

/// What a scan of the leaves from the left returns for `x`: the leaf just
/// before the first key that exceeds `x`.
pub open spec fn left_scan_leaf(leaves: Seq<i64>, h: nat, x: i64) -> Leaf {
    let g = first_greater(leaves, x);
    if g == 0 {
        not_in_tree()
    } else {
        leaf_at_rank(h, g - 1)
    }
}

/// `found` is either the pair for "below every key" or the locator of a leaf
/// of a tree of height `h`.
pub open spec fn is_locator(found: Leaf, h: nat) -> bool {
    found == not_in_tree() || (0 <= found.leaf_number < leaf_count(h) && found.index == leaf_index(
        h,
        found.leaf_number as nat,
    ))
}

/// The two-variant form of a locator.
pub open spec fn as_tree_index(found: Leaf) -> SearchTreeIndex {
    if found == not_in_tree() {
        SearchTreeIndex::NotInTree
    } else {
        SearchTreeIndex::Leaf { index: found.index, leaf_number: found.leaf_number }
    }
}

impl Leaf {
    /// Whether this pair stands for a query below every key.
    pub fn is_not_in_tree(&self) -> (none: bool)
        ensures
            none == (*self == not_in_tree()),
    {
        self.index == 0 && self.leaf_number == 1
    }

    /// The two-variant form of this locator.
    pub fn to_tree_index(self) -> (outcome: SearchTreeIndex)
        ensures
            outcome == as_tree_index(self),
    {
        if self.is_not_in_tree() {
            SearchTreeIndex::NotInTree
        } else {
            SearchTreeIndex::Leaf { index: self.index, leaf_number: self.leaf_number }
        }
    }
}

/// The scan returns a rank whose key does not exceed `x`, and every key to
/// the right of it exceeds `x`.
pub proof fn lemma_lower_bound_rank(keys: Seq<i64>, x: i64)
    ensures
        -1 <= lower_bound_rank(keys, x) < keys.len(),
        lower_bound_rank(keys, x) >= 0 ==> keys[lower_bound_rank(keys, x)] <= x,
        forall|i: int| lower_bound_rank(keys, x) < i < keys.len() ==> keys[i] > x,
    decreases keys.len(),
{
    if keys.len() > 0 && keys.last() > x {
        lemma_lower_bound_rank(keys.drop_last(), x);
        let r = lower_bound_rank(keys.drop_last(), x);
        assert forall|i: int| r < i < keys.len() implies keys[i] > x by {
            if i < keys.len() - 1 {
                assert(keys.drop_last()[i] == keys[i]);
            }
        }
    }
}

/// Only one rank has a key that does not exceed `x` with nothing but greater
/// keys to its right.
pub proof fn lemma_lower_bound_rank_unique(keys: Seq<i64>, x: i64, r: int)
    requires
        -1 <= r < keys.len(),
        r >= 0 ==> keys[r] <= x,
        forall|i: int| r < i < keys.len() ==> keys[i] > x,
    ensures
        lower_bound_rank(keys, x) == r,
{
    lemma_lower_bound_rank(keys, x);
}

/// In sorted keys the lower bound is the rank whose key does not exceed `x`
/// while the next key, if there is one, does; a query below the first key
/// has none.
pub proof fn lemma_lower_bound_sorted(keys: Seq<i64>, x: i64, r: int)
    requires
        is_sorted(keys),
        -1 <= r < keys.len(),
        r >= 0 ==> keys[r] <= x,
        r + 1 < keys.len() ==> keys[r + 1] > x,
    ensures
        lower_bound_rank(keys, x) == r,
{
    lemma_lower_bound_rank_unique(keys, x, r);
}

/// The scan from `from` stops at the first key that exceeds `x`.
pub proof fn lemma_first_greater_from(keys: Seq<i64>, x: i64, from: nat)
    requires
        from <= keys.len(),
    ensures
        from <= first_greater_from(keys, x, from) <= keys.len(),
        forall|i: int| from <= i < first_greater_from(keys, x, from) ==> keys[i] <= x,
        first_greater_from(keys, x, from) < keys.len() ==> keys[first_greater_from(
            keys,
            x,
            from,
        ) as int] > x,
    decreases keys.len() - from,
{
    if from < keys.len() && keys[from as int] <= x {
        lemma_first_greater_from(keys, x, from + 1);
    }
}

/// Only one rank has a key that exceeds `x` with no such key to its left.
pub proof fn lemma_first_greater_unique(keys: Seq<i64>, x: i64, g: nat)
    requires
        g <= keys.len(),
        forall|i: int| 0 <= i < g ==> keys[i] <= x,
        g < keys.len() ==> keys[g as int] > x,
    ensures
        first_greater(keys, x) == g,
{
    lemma_first_greater_from(keys, x, 0);
}

/// On sorted keys the scan from the left and the scan from the right meet:
/// the lower bound is the key just before the first one that exceeds `x`.
pub proof fn lemma_scans_agree(keys: Seq<i64>, x: i64)
    requires
        is_sorted(keys),
    ensures
        lower_bound_rank(keys, x) == first_greater(keys, x) - 1,
{
    lemma_first_greater_from(keys, x, 0);
    lemma_lower_bound_sorted(keys, x, first_greater(keys, x) - 1);
}

/// On sorted leaves the direct searches of small trees, which scan the
/// leaves from the left, return what the scan for the lower bound returns.
pub proof fn lemma_direct_search_is_lower_bound(leaves: Seq<i64>, h: nat, x: i64)
    requires
        is_sorted(leaves),
    ensures
        left_scan_leaf(leaves, h, x) == lower_bound_leaf(leaves, h, x),
{
    lemma_scans_agree(leaves, x);
}

/// How the lower bound of a sorted tree is found through the split: the
/// lower bound among the leaves of the upper half names two neighbouring
/// lower halves, the first key of the right one decides between them, and
/// the lower bound within the chosen half is the lower bound of the tree.
pub proof fn lemma_lower_bound_descends(leaves: Seq<i64>, h: nat, x: i64)
    requires
        h >= 2,
        leaves.len() == leaf_count(h),
        is_sorted(leaves),
    ensures
        ({
            let t = lower_bound_rank(top_leaves(leaves, h), x);
            let lcb = leaf_count(bottom_height(h)) as int;
            &&& -1 <= t < leaf_count(top_height(h))
            &&& t < 0 ==> lower_bound_rank(leaves, x) < 0
            &&& t >= 0 ==> {
                let s = if x >= leaves[(2 * t + 1) * lcb] {
                    2 * t + 1
                } else {
                    2 * t
                };
                let b = lower_bound_rank(bottom_leaves(leaves, h, s as nat), x);
                &&& 0 <= (2 * t + 1) * lcb < leaves.len()
                &&& 0 <= b < lcb
                &&& lower_bound_rank(leaves, x) == s * lcb + b
            }
        }),
{
    let ht = top_height(h);
    let hb = bottom_height(h);
    let tl = top_leaves(leaves, h);
    let t = lower_bound_rank(tl, x);
    let lcb = leaf_count(hb) as int;
    let n = leaf_count(h) as int;
    let k = leaf_count(ht) as int;
    let q = pow2(hb) as int;
    lemma_split_heights(h);
    lemma_pow2_unfold(hb);
    lemma_pow2_pos(ht);
    lemma_pow2_pos((hb - 1) as nat);
    lemma_pow2_pos((ht - 1) as nat);
    lemma_lower_bound_rank(tl, x);
    assert(q == 2 * lcb);
    assert(n == k * q);
    if t < 0 {
        assert(tl[0] > x);
        assert(0 * q == 0) by (nonlinear_arith);
        assert(leaves[0] > x);
        lemma_lower_bound_sorted(leaves, x, -1);
    } else {
        assert(tl[t] <= x);
        assert(t * q == (2 * t) * lcb) by (nonlinear_arith)
            requires
                q == 2 * lcb,
        ;
        assert((2 * t + 1) * lcb == (2 * t) * lcb + lcb) by (nonlinear_arith);
        assert((2 * t + 2) * lcb == (2 * t) * lcb + 2 * lcb) by (nonlinear_arith);
        assert((t + 1) * q == (2 * t) * lcb + 2 * lcb) by (nonlinear_arith)
            requires
                q == 2 * lcb,
        ;
        assert((t + 1) * q <= k * q) by (nonlinear_arith)
            requires
                t + 1 <= k,
                0 <= q,
        ;
        assert(0 <= (2 * t) * lcb) by (nonlinear_arith)
            requires
                0 <= t,
                0 <= lcb,
        ;
        let s = if x >= leaves[(2 * t + 1) * lcb] {
            2 * t + 1
        } else {
            2 * t
        };
        assert(0 <= s < pow2(ht));
        lemma_bottom_start_bounds(h, s as nat);
        let bl = bottom_leaves(leaves, h, s as nat);
        let b = lower_bound_rank(bl, x);
        lemma_lower_bound_rank(bl, x);
        assert(bl.len() == lcb);
        assert(bl[0] == leaves[s * lcb]);
        assert(bl[0] <= x);
        assert(b >= 0);
        let r = s * lcb + b;
        assert(bl[b] == leaves[r]);
        if r + 1 < n {
            if b + 1 < lcb {
                assert(bl[b + 1] == leaves[r + 1]);
            } else if s == 2 * t {
                assert(r + 1 == (2 * t + 1) * lcb);
            } else {
                assert(r + 1 == (t + 1) * q);
                assert(t + 1 < k) by (nonlinear_arith)
                    requires
                        (t + 1) * q < k * q,
                        0 < q,
                ;
                assert(tl[t + 1] > x);
            }
        }
        lemma_lower_bound_sorted(leaves, x, r);
    }
}

/// Where the leaves of the trees of one, two and three levels lie.
pub proof fn lemma_small_trees()
    ensures
        tree_size(1) == 1,
        tree_size(2) == 3,
        tree_size(3) == 7,
        leaf_count(1) == 1,
        leaf_count(2) == 2,
        leaf_count(3) == 4,
        leaf_index(1, 0) == 0,
        forall|r: nat| r < 2 ==> #[trigger] leaf_index(2, r) == 1 + r,
        forall|r: nat| r < 4 ==> #[trigger] leaf_index(3, r) == 3 + r,
{
    lemma2_to64();
    assert(top_height(2) == 1 && bottom_height(2) == 1);
    assert(top_height(3) == 2 && bottom_height(3) == 1);
    assert forall|r: nat| r < 2 implies #[trigger] leaf_index(2, r) == 1 + r by {
        lemma_bottom_leaf(2, r, 0);
        assert(r * 1 == r) by (nonlinear_arith);
    }
    assert forall|r: nat| r < 4 implies #[trigger] leaf_index(3, r) == 3 + r by {
        lemma_bottom_leaf(3, r, 0);
        assert(r * 1 == r) by (nonlinear_arith);
    }
}

/// Searches a tree of one level: its only node is its only leaf.
pub fn search_single_node_tree_for_lower_bound(of: i64, array: &[i64]) -> (found: Leaf)
    requires
        array@.len() == 1,
    ensures
        found == left_scan_leaf(leaves_of(array@, 1), 1, of),
        found == lower_bound_leaf(leaves_of(array@, 1), 1, of),
        is_locator(found, 1),
{
    proof {
        lemma_small_trees();
        let leaves = leaves_of(array@, 1);
        assert(leaves[0] == array@[0]);
        lemma_first_greater_unique(leaves, of, if of >= array@[0] { 1nat } else { 0nat });
        assert(is_sorted(leaves));
        lemma_scans_agree(leaves, of);
    }
    if of >= array[0] {
        Leaf { index: 0, leaf_number: 0 }
    } else {
        Leaf { index: 0, leaf_number: 1 }
    }
}

/// Searches a tree of two levels by comparing the query with its two leaves,
/// which lie behind the root.
pub fn search_2_level_tree_for_lower_bound_simd(of: i64, array: &[i64]) -> (found: Leaf)
    requires
        array@.len() == 3,
    ensures
        found == left_scan_leaf(leaves_of(array@, 2), 2, of),
        is_sorted(leaves_of(array@, 2)) ==> found == lower_bound_leaf(leaves_of(array@, 2), 2, of),
        is_locator(found, 2),
{
    proof {
        lemma_small_trees();
        let leaves = leaves_of(array@, 2);
        assert(leaves[0] == array@[1] && leaves[1] == array@[2]) by {
            assert(leaf_index(2, 0) == 1 && leaf_index(2, 1) == 2);
        }
        let g: nat = if of < array@[1] {
            0
        } else if of < array@[2] {
            1
        } else {
            2
        };
        lemma_first_greater_unique(leaves, of, g);
        if is_sorted(leaves) {
            lemma_scans_agree(leaves, of);
        }
        assert(leaf_index(2, 0) == 1 && leaf_index(2, 1) == 2);
    }
    if of < array[1] {
        Leaf { index: 0, leaf_number: 1 }
    } else if of < array[2] {
        Leaf { index: 1, leaf_number: 0 }
    } else {
        Leaf { index: 2, leaf_number: 1 }
    }
}

/// Searches a tree of two levels and reports the outcome in its two-variant
/// form.
pub fn search_2_level_tree_for_lower_bound(of: i64, array: &[i64]) -> (outcome: SearchTreeIndex)
    requires
        array@.len() == 3,
    ensures
        outcome == as_tree_index(left_scan_leaf(leaves_of(array@, 2), 2, of)),
        is_sorted(leaves_of(array@, 2)) ==> outcome == as_tree_index(
            lower_bound_leaf(leaves_of(array@, 2), 2, of),
        ),
{
    proof {
        lemma_small_trees();
        let leaves = leaves_of(array@, 2);
        assert(leaves[0] == array@[1] && leaves[1] == array@[2]) by {
            assert(leaf_index(2, 0) == 1 && leaf_index(2, 1) == 2);
        }
        let g: nat = if of < array@[1] {
            0
        } else if of < array@[2] {
            1
        } else {
            2
        };
        lemma_first_greater_unique(leaves, of, g);
        if is_sorted(leaves) {
            lemma_scans_agree(leaves, of);
        }
        assert(leaf_index(2, 0) == 1 && leaf_index(2, 1) == 2);
    }
    if of < array[1] {
        SearchTreeIndex::NotInTree
    } else if of < array[2] {
        SearchTreeIndex::Leaf { index: 1, leaf_number: 0 }
    } else {
        SearchTreeIndex::Leaf { index: 2, leaf_number: 1 }
    }
}

/// The four leaves of a tree of three levels and the leaf that a query is
/// handed by each comparison.
proof fn lemma_three_level_scan(of: i64, a: Seq<i64>, g: nat)
    requires
        a.len() == 7,
        g <= 4,
        forall|i: int| 3 <= i < 3 + g ==> a[i] <= of,
        g < 4 ==> a[3 + g as int] > of,
    ensures
        left_scan_leaf(leaves_of(a, 3), 3, of) == (if g == 0 {
            not_in_tree()
        } else {
            Leaf { index: (2 + g) as i32, leaf_number: (g - 1) as i32 }
        }),
        is_sorted(leaves_of(a, 3)) ==> lower_bound_leaf(leaves_of(a, 3), 3, of) == left_scan_leaf(
            leaves_of(a, 3),
            3,
            of,
        ),
        is_locator(left_scan_leaf(leaves_of(a, 3), 3, of), 3),
{
    lemma_small_trees();
    let leaves = leaves_of(a, 3);
    assert forall|i: int| 0 <= i < 4 implies leaves[i] == a[3 + i] by {
        assert(leaf_index(3, i as nat) == 3 + i);
    }
    lemma_first_greater_unique(leaves, of, g);
    if is_sorted(leaves) {
        lemma_scans_agree(leaves, of);
    }
    if g > 0 {
        assert(leaf_index(3, (g - 1) as nat) == 2 + g);
    }
}

/// Searches a tree of three levels by comparing the query with its four
/// leaves, which lie behind the three inner nodes, from left to right.
pub fn search_3_level_tree_for_lower_bound(of: i64, array: &[i64]) -> (found: Leaf)
    requires
        array@.len() == 7,
    ensures
        found == left_scan_leaf(leaves_of(array@, 3), 3, of),
        is_sorted(leaves_of(array@, 3)) ==> found == lower_bound_leaf(leaves_of(array@, 3), 3, of),
        is_locator(found, 3),
{
    if of < array[3] {
        proof {
            lemma_three_level_scan(of, array@, 0);
        }
        Leaf { index: 0, leaf_number: 1 }
    } else if of < array[4] {
        proof {
            lemma_three_level_scan(of, array@, 1);
        }
        Leaf { index: 3, leaf_number: 0 }
    } else if of < array[5] {
        proof {
            lemma_three_level_scan(of, array@, 2);
        }
        Leaf { index: 4, leaf_number: 1 }
    } else if of < array[6] {
        proof {
            lemma_three_level_scan(of, array@, 3);
        }
        Leaf { index: 5, leaf_number: 2 }
    } else {
        proof {
            lemma_three_level_scan(of, array@, 4);
        }
        Leaf { index: 6, leaf_number: 3 }
    }
}

/// Four lanes that all hold `x`.
fn splat(x: i64) -> (lanes: [i64; 4])
    ensures
        forall|i: int| 0 <= i < 4 ==> lanes[i] == x,
{
    [x, x, x, x]
}

/// Lane by lane, whether the key in `a` is smaller than the key in `b`.
fn lanes_lt(a: [i64; 4], b: [i64; 4]) -> (mask: [bool; 4])
    ensures
        forall|i: int| 0 <= i < 4 ==> mask[i] == (a[i] < b[i]),
{
    [a[0] < b[0], a[1] < b[1], a[2] < b[2], a[3] < b[3]]
}

/// Lane by lane, the value of `if_set` where the mask is set and the value
/// of `if_clear` where it is not.
fn select(mask: [bool; 4], if_set: [i32; 4], if_clear: [i32; 4]) -> (picked: [i32; 4])
    ensures
        forall|i: int| 0 <= i < 4 ==> picked[i] == (if mask[i] {
            if_set[i]
        } else {
            if_clear[i]
        }),
{
    [
        if mask[0] {
            if_set[0]
        } else {
            if_clear[0]
        },
        if mask[1] {
            if_set[1]
        } else {
            if_clear[1]
        },
        if mask[2] {
            if_set[2]
        } else {
            if_clear[2]
        },
        if mask[3] {
            if_set[3]
        } else {
            if_clear[3]
        },
    ]
}

/// The smallest of the four lanes.
fn horizontal_min(lanes: [i32; 4]) -> (least: i32)
    ensures
        forall|i: int| 0 <= i < 4 ==> least <= lanes[i],
        exists|i: int| 0 <= i < 4 && lanes[i] == least,
{
    let mut least: i32 = lanes[0];
    if lanes[1] < least {
        least = lanes[1];
    }
    if lanes[2] < least {
        least = lanes[2];
    }
    if lanes[3] < least {
        least = lanes[3];
    }
    least
}

/// Searches a tree of three levels without branching on the keys: the query
/// is compared with all four leaves at once, each leaf that exceeds it
/// offers the offset of its left neighbour (the first leaf offers 0, for
/// "below every key"), the others offer the offset of the last leaf, and
/// the smallest offer is taken.
pub fn search_3_level_tree_for_lower_bound_simd(of: i64, array: &[i64]) -> (found: Leaf)
    requires
        array@.len() == 7,
    ensures
        found == left_scan_leaf(leaves_of(array@, 3), 3, of),
        is_sorted(leaves_of(array@, 3)) ==> found == lower_bound_leaf(leaves_of(array@, 3), 3, of),
        is_locator(found, 3),
{
    let null: [i32; 4] = [6, 6, 6, 6];
    let leaf: [i32; 4] = [0, 3, 4, 5];
    let of_lanes: [i64; 4] = splat(of);
    let base: [i64; 4] = [array[3], array[4], array[5], array[6]];
    let exceeds: [bool; 4] = lanes_lt(of_lanes, base);
    let selected: [i32; 4] = select(exceeds, leaf, null);
    let idx: i32 = horizontal_min(selected);
    proof {
        assert(exceeds[0] == (of < array@[3]));
        assert(exceeds[1] == (of < array@[4]));
        assert(exceeds[2] == (of < array@[5]));
        assert(exceeds[3] == (of < array@[6]));
        assert(selected[0] == (if exceeds[0] { 0i32 } else { 6i32 }));
        assert(selected[1] == (if exceeds[1] { 3i32 } else { 6i32 }));
        assert(selected[2] == (if exceeds[2] { 4i32 } else { 6i32 }));
        assert(selected[3] == (if exceeds[3] { 5i32 } else { 6i32 }));
        let g: nat = if idx == 0 {
            0
        } else {
            (idx - 2) as nat
        };
        lemma_three_level_scan(of, array@, g);
    }
    if idx == 0 {
        Leaf { index: 0, leaf_number: 1 }
    } else {
        Leaf { index: idx, leaf_number: idx - 3 }
    }
}

/// Offset at which the lower half number `subtree_number` begins, given the
/// sizes of the upper half and of one lower half.
fn subtree_root_index(top_subtree_size: i32, bottom_subtree_size: i32, subtree_number: i32) -> (start: i32)
    requires
        0 <= top_subtree_size,
        0 <= bottom_subtree_size,
        0 <= subtree_number,
        top_subtree_size + bottom_subtree_size * subtree_number <= i32::MAX,
    ensures
        start == top_subtree_size + bottom_subtree_size * subtree_number,
{
    assert(0 <= bottom_subtree_size * subtree_number) by (nonlinear_arith)
        requires
            0 <= bottom_subtree_size,
            0 <= subtree_number,
    ;
    top_subtree_size + bottom_subtree_size * subtree_number
}

/// A query that is below every leaf of the upper half is below every leaf of
/// the tree.
proof fn lemma_search_misses(a: Seq<i64>, h: nat, x: i64, top: Leaf)
    requires
        4 <= h <= 31,
        a.len() == tree_size(h),
        top == not_in_tree(),
        is_search_tree(top_part(a, h), top_height(h)) ==> top == lower_bound_leaf(
            leaves_of(top_part(a, h), top_height(h)),
            top_height(h),
            x,
        ),
    ensures
        is_locator(top, h),
        is_search_tree(a, h) ==> top == lower_bound_leaf(leaves_of(a, h), h, x),
{
    if is_search_tree(a, h) {
        let ht = top_height(h);
        lemma_split_heights(h);
        lemma_search_tree_parts(a, h);
        lemma_lower_bound_descends(leaves_of(a, h), h, x);
        let t = lower_bound_rank(top_leaves(leaves_of(a, h), h), x);
        if t >= 0 {
            lemma_leaf_index_positive(ht, t as nat);
            lemma_pow2_bounds(ht);
        }
    }
}

/// What the search of a tree of four or more levels hands back once both
/// halves have been searched: the leaf found in the lower half number `s`,
/// seen from the whole tree.
proof fn lemma_search_result(a: Seq<i64>, h: nat, x: i64, top: Leaf, s: nat, bottom: Leaf)
    requires
        4 <= h <= 31,
        a.len() == tree_size(h),
        is_locator(top, top_height(h)),
        top != not_in_tree(),
        s == 2 * top.leaf_number + (if x >= a[bottom_start(h, (2 * top.leaf_number + 1) as nat) as int] {
            1int
        } else {
            0int
        }),
        is_locator(bottom, bottom_height(h)),
        is_search_tree(top_part(a, h), top_height(h)) ==> top == lower_bound_leaf(
            leaves_of(top_part(a, h), top_height(h)),
            top_height(h),
            x,
        ),
        is_search_tree(bottom_part(a, h, s), bottom_height(h)) ==> bottom == lower_bound_leaf(
            leaves_of(bottom_part(a, h, s), bottom_height(h)),
            bottom_height(h),
            x,
        ),
    ensures
        s < pow2(top_height(h)),
        is_search_tree(a, h) ==> bottom != not_in_tree(),
        bottom != not_in_tree() ==> {
            let found = Leaf {
                index: (bottom_start(h, s) + bottom.index) as i32,
                leaf_number: (leaf_count(bottom_height(h)) * s + bottom.leaf_number) as i32,
            };
            &&& bottom_start(h, s) + bottom.index < tree_size(h)
            &&& 0 <= leaf_count(bottom_height(h)) * s
            &&& leaf_count(bottom_height(h)) * s + bottom.leaf_number < leaf_count(h)
            &&& is_locator(found, h)
            &&& is_search_tree(a, h) ==> found == lower_bound_leaf(leaves_of(a, h), h, x)
        },
{
    let ht = top_height(h);
    let hb = bottom_height(h);
    let lcb = leaf_count(hb);
    lemma_split_heights(h);
    lemma_pow2_bounds(h);
    lemma_pow2_bounds((h - 1) as nat);
    let lf = top.leaf_number as int;
    assert(0 <= lf < leaf_count(ht));
    assert(s < pow2(ht));
    lemma_bottom_start_bounds(h, s);
    if bottom != not_in_tree() {
        let b = bottom.leaf_number as nat;
        lemma_bottom_leaf(h, s, b);
        assert(lcb * s == s * lcb) by (nonlinear_arith);
    }
    if is_search_tree(a, h) {
        let leaves = leaves_of(a, h);
        lemma_search_tree_parts(a, h);
        lemma_lower_bound_descends(leaves, h, x);
        let t = lower_bound_rank(top_leaves(leaves, h), x);
        if t >= 0 {
            lemma_leaf_index_positive(ht, t as nat);
            lemma_node_index_bound(ht, (ht - 1) as nat, t as nat);
            lemma_pow2_bounds(ht);
        }
        assert(t == lf);
        let right = (2 * t + 1) as nat;
        lemma_bottom_root(h, right);
        assert(a[node_index(h, ht, right) as int] == leaves[first_leaf_below(h, ht, right) as int]);
        assert(right * lcb == (2 * t + 1) * (lcb as int)) by (nonlinear_arith)
            requires
                right == 2 * t + 1,
        ;
        assert(is_search_tree(bottom_part(a, h, s), hb));
        let b = lower_bound_rank(bottom_leaves(leaves, h, s), x);
        lemma_leaf_index_positive(hb, b as nat);
        lemma_pow2_bounds(hb);
        lemma_pow2_bounds((hb - 1) as nat);
        assert(bottom == leaf_at_rank(hb, b));
        assert(bottom != not_in_tree());
        assert(bottom.leaf_number == b);
    }
}

/// Searches the packed array of a tree of `height` levels for the lower
/// bound of `element`: the rightmost leaf whose key does not exceed it.
///
/// The array must have the `2^height - 1` entries of such a tree. Where it
/// is the packed array of a tree with sorted leaves, the leaf returned is the
/// lower bound, or the pair `index: 0, leaf_number: 1` when `element` is
/// below every key.
pub fn search_for_lower_bound(element: i64, height: u16, array: &[i64]) -> (found: Leaf)
    requires
        1 <= height <= MAX_HEIGHT,
        array@.len() == tree_size(height as nat),
    ensures
        is_locator(found, height as nat),
        is_search_tree(array@, height as nat) ==> found == lower_bound_leaf(
            leaves_of(array@, height as nat),
            height as nat,
            element,
        ),
    decreases height,
{
    if height == 3 {
        proof {
            lemma2_to64();
        }
        search_3_level_tree_for_lower_bound_simd(element, array)
    } else if height == 2 {
        proof {
            lemma2_to64();
        }
        search_2_level_tree_for_lower_bound_simd(element, array)
    } else if height == 1 {
        proof {
            lemma2_to64();
        }
        search_single_node_tree_for_lower_bound(element, array)
    } else {
        let ghost h = height as nat;
        let top_subtree_height: u16 = split_top_height(height);
        let subtree_height: u16 = height - top_subtree_height;
        proof {
            lemma_split_heights(h);
            lemma_pow2_bounds(h);
            lemma_pow2_pos(top_subtree_height as nat);
            lemma_bottom_start_bounds(h, 0);
        }
        let top_subtree_size: i32 = size_of_tree_with_height(top_subtree_height);
        let bottom_subtree_size: i32 = size_of_tree_with_height(subtree_height);

        let top: Leaf = search_for_lower_bound(
            element,
            top_subtree_height,
            slice_subrange(array, 0, top_subtree_size as usize),
        );
        if top.is_not_in_tree() {
            proof {
                lemma_search_misses(array@, h, element, top);
            }
            return top;
        }
        let leaf_number: i32 = top.leaf_number;
        proof {
            lemma_pow2_bounds((top_subtree_height - 1) as nat);
            lemma_bottom_start_bounds(h, (2 * leaf_number + 1) as nat);
            lemma_bottom_start_bounds(h, (2 * leaf_number) as nat);
        }
        let right_subtree_root: i64 = array[subtree_root_index(
            top_subtree_size,
            bottom_subtree_size,
            2 * leaf_number + 1,
        ) as usize];

        let subtree_number: i32 = if element >= right_subtree_root {
            2 * leaf_number + 1
        } else {
            2 * leaf_number
        };
        let ghost s = subtree_number as nat;
        proof {
            lemma_bottom_start_bounds(h, s);
        }
        let start_index: i32 = subtree_root_index(
            top_subtree_size,
            bottom_subtree_size,
            subtree_number,
        );
        let end_index: i32 = subtree_root_index(
            top_subtree_size,
            bottom_subtree_size,
            subtree_number + 1,
        );
        let bottom_subtree_index: Leaf = search_for_lower_bound(
            element,
            subtree_height,
            slice_subrange(array, start_index as usize, end_index as usize),
        );
        proof {
            lemma_search_result(array@, h, element, top, s, bottom_subtree_index);
            lemma_pow2_bounds((subtree_height - 1) as nat);
            lemma_pow2_bounds((h - 1) as nat);
        }
        if bottom_subtree_index.is_not_in_tree() {
            bottom_subtree_index
        } else {
            let leaves_per_subtree: i32 = number_of_leaves_in_tree(subtree_height);
            assert(leaves_per_subtree * subtree_number == leaf_count(bottom_height(h)) * s);
            Leaf {
                index: start_index + bottom_subtree_index.index,
                leaf_number: leaves_per_subtree * subtree_number
                    + bottom_subtree_index.leaf_number,
            }
        }
    }
}

} // verus!
