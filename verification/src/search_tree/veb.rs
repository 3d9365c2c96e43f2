//! The van Emde Boas order of a complete binary tree.
//!
//! A tree of height `h` is cut at `top_height(h)`: its upper half is stored
//! first, in the same order, followed by the `2^top_height(h)` lower halves
//! from left to right, each again in the same order. A node is named by its
//! depth `d` (the root has depth 0) and its rank `j` among the nodes of that
//! depth (the leftmost has rank 0). Every node holds the key of the first leaf
//! below it, which for sorted leaves is the smallest key of its subtree.

use vstd::prelude::*;
use vstd::arithmetic::div_mod::{
    lemma_fundamental_div_mod, lemma_fundamental_div_mod_converse, lemma_mod_bound,
};
use vstd::arithmetic::power2::{
    lemma2_to64, lemma_pow2_adds, lemma_pow2_pos, lemma_pow2_unfold, pow2,
};
use crate::search_tree::util::{
    bottom_height, leaf_count, lemma_pow2_bounds, lemma_split_heights, number_of_leaves_in_tree,
    size_of_tree_with_height, split_top_height, top_height, tree_size, MAX_HEIGHT,
};

verus! {

/// Offset in the packed array of a tree of height `h` of the node at depth
/// `d < h` with rank `j < 2^d`.
pub open spec fn node_index(h: nat, d: nat, j: nat) -> nat
    decreases h,
{
    if h <= 1 {
        0
    } else {
        let ht = top_height(h);
        let hb = bottom_height(h);
        if d < ht {
            node_index(ht, d, j)
        } else {
            let ld = (d - ht) as nat;
            bottom_start(h, j / pow2(ld)) + node_index(hb, ld, j % pow2(ld))
        }
    }
}

/// Offset of the leaf with in-order rank `r` in a tree of height `h`.
pub open spec fn leaf_index(h: nat, r: nat) -> nat {
    node_index(h, (h - 1) as nat, r)
}

/// In-order rank of the leftmost leaf below the node at depth `d` with rank
/// `j`, in a tree of height `h`.
pub open spec fn first_leaf_below(h: nat, d: nat, j: nat) -> nat {
    j * pow2((h - 1 - d) as nat)
}

/// Offset at which the lower half number `s` of a tree of height `h` begins.
pub open spec fn bottom_start(h: nat, s: nat) -> nat {
    tree_size(top_height(h)) + s * tree_size(bottom_height(h))
}

/// The part of a packed array that holds the upper half of the tree.
pub open spec fn top_part(a: Seq<i64>, h: nat) -> Seq<i64> {
    a.subrange(0, tree_size(top_height(h)) as int)
}

/// The part of a packed array that holds the lower half number `s`.
pub open spec fn bottom_part(a: Seq<i64>, h: nat, s: nat) -> Seq<i64> {
    a.subrange(bottom_start(h, s) as int, bottom_start(h, s + 1) as int)
}

/// The keys at the leaves of the upper half: the first leaf of every second
/// lower half.
pub open spec fn top_leaves(leaves: Seq<i64>, h: nat) -> Seq<i64> {
    Seq::new(leaf_count(top_height(h)), |i: int| leaves[i * pow2(bottom_height(h))])
}

/// The leaves that belong to the lower half number `s`.
pub open spec fn bottom_leaves(leaves: Seq<i64>, h: nat, s: nat) -> Seq<i64> {
    leaves.subrange(
        (s * leaf_count(bottom_height(h))) as int,
        ((s + 1) * leaf_count(bottom_height(h))) as int,
    )
}

/// `a` is the packed array of the tree of height `h` over `leaves`: it has
/// `2^h - 1` entries and each node holds the first leaf below it.
pub open spec fn is_veb_layout(a: Seq<i64>, h: nat, leaves: Seq<i64>) -> bool {
    &&& h >= 1
    &&& a.len() == tree_size(h)
    &&& leaves.len() == leaf_count(h)
    &&& forall|d: nat, j: nat|
        d < h && j < pow2(d) ==> a[#[trigger] node_index(h, d, j) as int] == leaves[first_leaf_below(
            h,
            d,
            j,
        ) as int]
}

/// The keys at the leaves of a packed array, from left to right.
pub open spec fn leaves_of(a: Seq<i64>, h: nat) -> Seq<i64> {
    Seq::new(leaf_count(h), |r: int| a[leaf_index(h, r as nat) as int])
}

/// The keys never decrease from left to right.
pub open spec fn is_sorted(keys: Seq<i64>) -> bool {
    forall|i: int, j: int| 0 <= i <= j < keys.len() ==> keys[i] <= keys[j]
}

/// `a` is the packed array of a tree of height `h` whose leaves are sorted.
pub open spec fn is_search_tree(a: Seq<i64>, h: nat) -> bool {
    &&& is_veb_layout(a, h, leaves_of(a, h))
    &&& is_sorted(leaves_of(a, h))
}

/// The leaves below a node lie among the leaves of the tree.
pub proof fn lemma_first_leaf_below_bound(h: nat, d: nat, j: nat)
    requires
        d < h,
        j < pow2(d),
    ensures
        first_leaf_below(h, d, j) + pow2((h - 1 - d) as nat) <= leaf_count(h),
{
    let q = pow2((h - 1 - d) as nat) as int;
    let p = pow2(d) as int;
    let ji = j as int;
    lemma_pow2_adds(d, (h - 1 - d) as nat);
    assert((ji + 1) * q <= p * q) by (nonlinear_arith)
        requires
            ji + 1 <= p,
            0 <= q,
    ;
    assert((ji + 1) * q == ji * q + q) by (nonlinear_arith);
}

/// A node of depth `top_height(h) + ld` with rank `s * 2^ld + lj` is the node
/// of depth `ld` and rank `lj` in the lower half number `s`.
pub proof fn lemma_bottom_node(h: nat, s: nat, ld: nat, lj: nat)
    requires
        h >= 2,
        s < pow2(top_height(h)),
        ld < bottom_height(h),
        lj < pow2(ld),
    ensures
        ({
            let d = top_height(h) + ld;
            let j = s * pow2(ld) + lj;
            &&& d < h
            &&& j < pow2(d)
            &&& j / pow2(ld) == s
            &&& j % pow2(ld) == lj
            &&& node_index(h, d, j) == bottom_start(h, s) + node_index(bottom_height(h), ld, lj)
            &&& first_leaf_below(h, d, j) == s * leaf_count(bottom_height(h)) + first_leaf_below(
                bottom_height(h),
                ld,
                lj,
            )
        }),
{
    let ht = top_height(h);
    let hb = bottom_height(h);
    let d = ht + ld;
    let p = pow2(ld) as int;
    let j = s * pow2(ld) + lj;
    let si = s as int;
    let li = lj as int;
    lemma_split_heights(h);
    lemma_pow2_pos(ld);
    lemma_pow2_adds(ht, ld);
    let a = pow2(ht) as int;
    assert(si * p + li < a * p) by (nonlinear_arith)
        requires
            0 <= si < a,
            0 <= li < p,
    ;
    lemma_fundamental_div_mod_converse(j as int, p, si, li);
    let q = pow2((hb - 1 - ld) as nat) as int;
    lemma_pow2_adds(ld, (hb - 1 - ld) as nat);
    assert((si * p + li) * q == si * (p * q) + li * q) by (nonlinear_arith);
    assert((h - 1 - d) as nat == (hb - 1 - ld) as nat);
}

/// A node below the upper half lies in exactly one lower half.
pub proof fn lemma_bottom_coordinates(h: nat, d: nat, j: nat)
    requires
        h >= 2,
        top_height(h) <= d < h,
        j < pow2(d),
    ensures
        ({
            let ld = (d - top_height(h)) as nat;
            let p = pow2(ld);
            &&& ld < bottom_height(h)
            &&& j / p < pow2(top_height(h))
            &&& j % p < p
            &&& j == (j / p) * p + j % p
        }),
{
    let ht = top_height(h);
    let ld = (d - ht) as nat;
    let p = pow2(ld) as int;
    let ji = j as int;
    lemma_split_heights(h);
    lemma_pow2_pos(ld);
    lemma_pow2_adds(ht, ld);
    lemma_fundamental_div_mod(ji, p);
    lemma_mod_bound(ji, p);
    let a = pow2(ht) as int;
    let q = ji / p;
    assert(q < a) by (nonlinear_arith)
        requires
            ji == p * q + ji % p,
            0 <= ji % p,
            ji < a * p,
            0 < p,
    ;
    assert(0 <= q) by (nonlinear_arith)
        requires
            ji == p * q + ji % p,
            ji % p < p,
            0 <= ji,
            0 < p,
    ;
    assert(p * q == q * p) by (nonlinear_arith);
}

/// Where the lower half number `s` ends, the next begins, and the last ends
/// with the array.
pub proof fn lemma_bottom_start_bounds(h: nat, s: nat)
    requires
        h >= 2,
        s < pow2(top_height(h)),
    ensures
        tree_size(top_height(h)) <= bottom_start(h, s),
        bottom_start(h, s + 1) == bottom_start(h, s) + tree_size(bottom_height(h)),
        bottom_start(h, s + 1) <= tree_size(h),
        (s + 1) * leaf_count(bottom_height(h)) <= leaf_count(h),
        (s + 1) * leaf_count(bottom_height(h)) == s * leaf_count(bottom_height(h)) + leaf_count(
            bottom_height(h),
        ),
        bottom_start(h, s) == tree_size(top_height(h)) + tree_size(bottom_height(h)) * s,
        bottom_start(h, s + 1) == tree_size(top_height(h)) + tree_size(bottom_height(h)) * (s + 1),
{
    lemma_split_heights(h);
    let a = pow2(top_height(h)) as int;
    let b = tree_size(bottom_height(h)) as int;
    let c = leaf_count(bottom_height(h)) as int;
    let si = s as int;
    assert(b * si == si * b) by (nonlinear_arith);
    assert(b * (si + 1) == (si + 1) * b) by (nonlinear_arith);
    assert((si + 1) * b == si * b + b) by (nonlinear_arith);
    assert((si + 1) * c == si * c + c) by (nonlinear_arith);
    assert((si + 1) * b <= a * b) by (nonlinear_arith)
        requires
            si + 1 <= a,
            0 <= b,
    ;
    assert((si + 1) * c <= a * c) by (nonlinear_arith)
        requires
            si + 1 <= a,
            0 <= c,
    ;
    assert(0 <= si * b) by (nonlinear_arith)
        requires
            0 <= si,
            0 <= b,
    ;
}

/// Every node has its place inside the packed array.
pub proof fn lemma_node_index_bound(h: nat, d: nat, j: nat)
    requires
        h >= 1,
        d < h,
        j < pow2(d),
    ensures
        node_index(h, d, j) < tree_size(h),
    decreases h,
{
    if h == 1 {
        lemma2_to64();
    } else {
        let ht = top_height(h);
        let hb = bottom_height(h);
        lemma_split_heights(h);
        if d < ht {
            lemma_node_index_bound(ht, d, j);
            lemma_pow2_pos(ht);
            lemma_bottom_start_bounds(h, 0);
        } else {
            let ld = (d - ht) as nat;
            lemma_pow2_pos(ld);
            lemma_bottom_coordinates(h, d, j);
            let s = j / pow2(ld);
            let lj = j % pow2(ld);
            lemma_node_index_bound(hb, ld, lj);
            lemma_bottom_start_bounds(h, s);
        }
    }
}

/// The root is the first entry of the packed array.
pub proof fn lemma_root_index(h: nat)
    ensures
        node_index(h, 0, 0) == 0,
    decreases h,
{
    if h >= 2 {
        lemma_split_heights(h);
        lemma_root_index(top_height(h));
    }
}

/// The root of the lower half number `s` is the node of depth `top_height(h)`
/// and rank `s`; it stands where that half begins.
pub proof fn lemma_bottom_root(h: nat, s: nat)
    requires
        h >= 2,
        s < pow2(top_height(h)),
    ensures
        node_index(h, top_height(h), s) == bottom_start(h, s),
        first_leaf_below(h, top_height(h), s) == s * leaf_count(bottom_height(h)),
        top_height(h) < h,
{
    lemma2_to64();
    lemma_split_heights(h);
    lemma_bottom_node(h, s, 0, 0);
    lemma_root_index(bottom_height(h));
    let si = s as int;
    assert(si * 1 + 0 == si) by (nonlinear_arith);
    assert(0 * pow2((bottom_height(h) - 1) as nat) == 0) by (nonlinear_arith);
}

/// The leaf of rank `b` in the lower half number `s` is the leaf of rank
/// `s * leaf_count(bottom_height(h)) + b` of the whole tree.
pub proof fn lemma_bottom_leaf(h: nat, s: nat, b: nat)
    requires
        h >= 2,
        s < pow2(top_height(h)),
        b < leaf_count(bottom_height(h)),
    ensures
        s * leaf_count(bottom_height(h)) + b < leaf_count(h),
        leaf_index(h, s * leaf_count(bottom_height(h)) + b) == bottom_start(h, s) + leaf_index(
            bottom_height(h),
            b,
        ),
        leaf_index(h, s * leaf_count(bottom_height(h)) + b) < tree_size(h),
{
    let hb = bottom_height(h);
    lemma_split_heights(h);
    lemma_bottom_node(h, s, (hb - 1) as nat, b);
    lemma_bottom_start_bounds(h, s);
    lemma_node_index_bound(hb, (hb - 1) as nat, b);
    assert(top_height(h) + (hb - 1) as nat == (h - 1) as nat);
}

/// In a tree of two or more levels no leaf stands at the root's place.
pub proof fn lemma_leaf_index_positive(h: nat, r: nat)
    requires
        h >= 2,
        r < leaf_count(h),
    ensures
        1 <= leaf_index(h, r) < tree_size(h),
{
    let ht = top_height(h);
    lemma_split_heights(h);
    lemma_node_index_bound(h, (h - 1) as nat, r);
    let ld = ((h - 1) - ht) as nat;
    lemma_pow2_pos(ld);
    lemma_pow2_pos(ht);
    lemma_bottom_coordinates(h, (h - 1) as nat, r);
    lemma_bottom_start_bounds(h, r / pow2(ld));
}

/// Reading the leaves of a packed array from left to right gives back the
/// keys it was laid out from.
pub proof fn lemma_leaves_round_trip(a: Seq<i64>, h: nat, leaves: Seq<i64>)
    requires
        is_veb_layout(a, h, leaves),
    ensures
        leaves_of(a, h) == leaves,
{
    lemma2_to64();
    assert forall|r: int| 0 <= r < leaf_count(h) implies leaves_of(a, h)[r] == leaves[r] by {
        let rn = r as nat;
        assert(a[node_index(h, (h - 1) as nat, rn) as int] == leaves[first_leaf_below(
            h,
            (h - 1) as nat,
            rn,
        ) as int]);
        assert(r * 1 == r) by (nonlinear_arith);
    }
    assert(leaves_of(a, h) =~= leaves);
}

/// Every `2^bottom_height(h)`-th key of a sorted sequence, and every block of
/// consecutive keys, is sorted.
pub proof fn lemma_parts_sorted(leaves: Seq<i64>, h: nat)
    requires
        h >= 2,
        leaves.len() == leaf_count(h),
        is_sorted(leaves),
    ensures
        is_sorted(top_leaves(leaves, h)),
        forall|s: nat|
            s < pow2(top_height(h)) ==> is_sorted(#[trigger] bottom_leaves(leaves, h, s)),
{
    let ht = top_height(h);
    let hb = bottom_height(h);
    lemma_split_heights(h);
    let q = pow2(hb) as int;
    let tl = top_leaves(leaves, h);
    assert forall|i: int, j: int| 0 <= i <= j < tl.len() implies tl[i] <= tl[j] by {
        let n = leaf_count(ht) as int;
        assert(i * q <= j * q) by (nonlinear_arith)
            requires
                0 <= i <= j,
                0 <= q,
        ;
        assert(j * q < n * q) by (nonlinear_arith)
            requires
                0 <= j < n,
                0 < q,
        ;
        assert(0 <= i * q) by (nonlinear_arith)
            requires
                0 <= i,
                0 <= q,
        ;
    }
    assert forall|s: nat| s < pow2(ht) implies is_sorted(#[trigger] bottom_leaves(leaves, h, s)) by {
        lemma_bottom_start_bounds(h, s);
    }
}

/// The upper half of a packed array is the packed array of the tree over
/// the first leaves of every second lower half.
pub proof fn lemma_layout_top(a: Seq<i64>, h: nat, leaves: Seq<i64>)
    requires
        h >= 2,
        is_veb_layout(a, h, leaves),
    ensures
        is_veb_layout(top_part(a, h), top_height(h), top_leaves(leaves, h)),
{
    let ht = top_height(h);
    let hb = bottom_height(h);
    lemma_split_heights(h);
    lemma_pow2_pos(ht);
    lemma_bottom_start_bounds(h, 0);
    let ta = top_part(a, h);
    let tl = top_leaves(leaves, h);
    assert forall|d: nat, j: nat| d < ht && j < pow2(d) implies ta[#[trigger] node_index(
        ht,
        d,
        j,
    ) as int] == tl[first_leaf_below(ht, d, j) as int] by {
        lemma_node_index_bound(ht, d, j);
        lemma_first_leaf_below_bound(ht, d, j);
        let e = (ht - 1 - d) as nat;
        lemma_pow2_pos(e);
        lemma_pow2_adds(e, hb);
        let ji = j as int;
        let pe = pow2(e) as int;
        let pb = pow2(hb) as int;
        assert((ji * pe) * pb == ji * (pe * pb)) by (nonlinear_arith);
        assert((h - 1 - d) as nat == e + hb);
        assert(node_index(h, d, j) == node_index(ht, d, j));
        assert(a[node_index(h, d, j) as int] == leaves[first_leaf_below(h, d, j) as int]);
    }
}

/// Each lower half of a packed array is the packed array of the tree over
/// its own block of leaves.
pub proof fn lemma_layout_bottom(a: Seq<i64>, h: nat, leaves: Seq<i64>, s: nat)
    requires
        h >= 2,
        is_veb_layout(a, h, leaves),
        s < pow2(top_height(h)),
    ensures
        is_veb_layout(bottom_part(a, h, s), bottom_height(h), bottom_leaves(leaves, h, s)),
{
    let ht = top_height(h);
    let hb = bottom_height(h);
    lemma_split_heights(h);
    lemma_bottom_start_bounds(h, s);
    let ba = bottom_part(a, h, s);
    let bl = bottom_leaves(leaves, h, s);
    assert forall|ld: nat, lj: nat| ld < hb && lj < pow2(ld) implies ba[#[trigger] node_index(
        hb,
        ld,
        lj,
    ) as int] == bl[first_leaf_below(hb, ld, lj) as int] by {
        lemma_bottom_node(h, s, ld, lj);
        lemma_node_index_bound(hb, ld, lj);
        lemma_first_leaf_below_bound(hb, ld, lj);
        lemma_pow2_pos((hb - 1 - ld) as nat);
        let d = ht + ld;
        let j = s * pow2(ld) + lj;
        assert(a[node_index(h, d, j) as int] == leaves[first_leaf_below(h, d, j) as int]);
    }
}

/// A packed array whose upper half and lower halves are laid out as the
/// halves of the tree over `leaves` is the packed array of that tree.
pub proof fn lemma_layout_compose(a: Seq<i64>, h: nat, leaves: Seq<i64>)
    requires
        h >= 2,
        a.len() == tree_size(h),
        leaves.len() == leaf_count(h),
        is_veb_layout(top_part(a, h), top_height(h), top_leaves(leaves, h)),
        forall|s: nat|
            s < pow2(top_height(h)) ==> is_veb_layout(
                #[trigger] bottom_part(a, h, s),
                bottom_height(h),
                bottom_leaves(leaves, h, s),
            ),
    ensures
        is_veb_layout(a, h, leaves),
{
    let ht = top_height(h);
    let hb = bottom_height(h);
    lemma_split_heights(h);
    lemma_pow2_pos(ht);
    lemma_bottom_start_bounds(h, 0);
    let ta = top_part(a, h);
    let tl = top_leaves(leaves, h);
    assert forall|d: nat, j: nat| d < h && j < pow2(d) implies a[#[trigger] node_index(h, d, j) as int]
        == leaves[first_leaf_below(h, d, j) as int] by {
        if d < ht {
            lemma_node_index_bound(ht, d, j);
            lemma_first_leaf_below_bound(ht, d, j);
            let e = (ht - 1 - d) as nat;
            lemma_pow2_pos(e);
            lemma_pow2_adds(e, hb);
            let ji = j as int;
            let pe = pow2(e) as int;
            let pb = pow2(hb) as int;
            assert((ji * pe) * pb == ji * (pe * pb)) by (nonlinear_arith);
            assert((h - 1 - d) as nat == e + hb);
            assert(node_index(h, d, j) == node_index(ht, d, j));
            assert(ta[node_index(ht, d, j) as int] == tl[first_leaf_below(ht, d, j) as int]);
        } else {
            let ld = (d - ht) as nat;
            lemma_pow2_pos(ld);
            lemma_bottom_coordinates(h, d, j);
            let s = j / pow2(ld);
            let lj = j % pow2(ld);
            lemma_bottom_node(h, s, ld, lj);
            lemma_bottom_start_bounds(h, s);
            lemma_node_index_bound(hb, ld, lj);
            lemma_first_leaf_below_bound(hb, ld, lj);
            lemma_pow2_pos((hb - 1 - ld) as nat);
            let ba = bottom_part(a, h, s);
            let bl = bottom_leaves(leaves, h, s);
            assert(is_veb_layout(ba, hb, bl));
            assert(ba[node_index(hb, ld, lj) as int] == bl[first_leaf_below(hb, ld, lj) as int]);
        }
    }
}

/// The halves of a search tree are search trees, over the leaves that the
/// split assigns to them.
pub proof fn lemma_search_tree_parts(a: Seq<i64>, h: nat)
    requires
        h >= 2,
        is_search_tree(a, h),
    ensures
        is_search_tree(top_part(a, h), top_height(h)),
        leaves_of(top_part(a, h), top_height(h)) == top_leaves(leaves_of(a, h), h),
        forall|s: nat|
            s < pow2(top_height(h)) ==> is_search_tree(
                #[trigger] bottom_part(a, h, s),
                bottom_height(h),
            ) && leaves_of(bottom_part(a, h, s), bottom_height(h)) == bottom_leaves(
                leaves_of(a, h),
                h,
                s,
            ),
{
    let leaves = leaves_of(a, h);
    lemma_parts_sorted(leaves, h);
    lemma_layout_top(a, h, leaves);
    lemma_leaves_round_trip(top_part(a, h), top_height(h), top_leaves(leaves, h));
    assert forall|s: nat| s < pow2(top_height(h)) implies is_search_tree(
        #[trigger] bottom_part(a, h, s),
        bottom_height(h),
    ) && leaves_of(bottom_part(a, h, s), bottom_height(h)) == bottom_leaves(leaves, h, s) by {
        lemma_layout_bottom(a, h, leaves, s);
        lemma_leaves_round_trip(
            bottom_part(a, h, s),
            bottom_height(h),
            bottom_leaves(leaves, h, s),
        );
        assert(is_sorted(bottom_leaves(leaves, h, s)));
    }
}

/// The leaves of a lower half are the block of leaves of the whole array
/// that the split assigns to it, whatever the array holds.
pub proof fn lemma_leaves_of_bottom(a: Seq<i64>, h: nat, s: nat)
    requires
        h >= 2,
        a.len() == tree_size(h),
        s < pow2(top_height(h)),
    ensures
        leaves_of(bottom_part(a, h, s), bottom_height(h)) == bottom_leaves(leaves_of(a, h), h, s),
{
    let hb = bottom_height(h);
    let lcb = leaf_count(hb);
    lemma_split_heights(h);
    lemma_bottom_start_bounds(h, s);
    let lhs = leaves_of(bottom_part(a, h, s), hb);
    let rhs = bottom_leaves(leaves_of(a, h), h, s);
    assert forall|b: int| 0 <= b < lcb implies lhs[b] == rhs[b] by {
        lemma_bottom_leaf(h, s, b as nat);
        lemma_node_index_bound(hb, (hb - 1) as nat, b as nat);
    }
    assert(lhs =~= rhs);
}

/// Keys that agree block by block with the leaves of a tree are its leaves.
pub proof fn lemma_leaves_from_blocks(leaves: Seq<i64>, h: nat, keys: Seq<i64>)
    requires
        h >= 2,
        leaves.len() == leaf_count(h),
        keys.len() >= leaf_count(h),
        forall|s: nat|
            s < pow2(top_height(h)) ==> #[trigger] bottom_leaves(leaves, h, s) == keys.subrange(
                (s * leaf_count(bottom_height(h))) as int,
                ((s + 1) * leaf_count(bottom_height(h))) as int,
            ),
    ensures
        leaves == keys.take(leaf_count(h) as int),
{
    let ht = top_height(h);
    let hb = bottom_height(h);
    let lcb = leaf_count(hb) as int;
    lemma_split_heights(h);
    lemma_pow2_pos((hb - 1) as nat);
    assert forall|r: int| 0 <= r < leaf_count(h) implies leaves[r] == keys[r] by {
        lemma_bottom_coordinates(h, (h - 1) as nat, r as nat);
        assert(((h - 1) - ht) as nat == (hb - 1) as nat);
        let s = (r as nat) / (lcb as nat);
        let b = (r as nat) % (lcb as nat);
        lemma_bottom_start_bounds(h, s);
        let block = bottom_leaves(leaves, h, s);
        assert(block[b as int] == leaves[s * lcb + b]);
        assert(keys.subrange(s * lcb, (s + 1) * lcb)[b as int] == keys[s * lcb + b]);
    }
    assert(leaves =~= keys.take(leaf_count(h) as int));
}

/// An array whose lower halves are packed arrays, and whose upper half is the
/// packed array of the tree over the root keys of every second lower half,
/// is the packed array of the tree over its own leaves.
pub proof fn lemma_layout_from_parts(a: Seq<i64>, h: nat, top_keys: Seq<i64>)
    requires
        h >= 2,
        a.len() == tree_size(h),
        is_veb_layout(top_part(a, h), top_height(h), top_keys),
        forall|i: nat| i < leaf_count(top_height(h)) ==> top_keys[i as int] == (#[trigger] bottom_part(a, h, 2 * i))[0],
        forall|s: nat|
            s < pow2(top_height(h)) ==> is_veb_layout(
                #[trigger] bottom_part(a, h, s),
                bottom_height(h),
                leaves_of(bottom_part(a, h, s), bottom_height(h)),
            ),
    ensures
        is_veb_layout(a, h, leaves_of(a, h)),
{
    let ht = top_height(h);
    let hb = bottom_height(h);
    let leaves = leaves_of(a, h);
    let lcb = leaf_count(hb) as int;
    let q = pow2(hb) as int;
    lemma_split_heights(h);
    lemma_pow2_unfold(hb);
    lemma_pow2_pos((hb - 1) as nat);
    assert forall|s: nat| s < pow2(ht) implies is_veb_layout(
        #[trigger] bottom_part(a, h, s),
        hb,
        bottom_leaves(leaves, h, s),
    ) by {
        lemma_leaves_of_bottom(a, h, s);
    }
    assert(top_keys =~= top_leaves(leaves, h)) by {
        assert forall|i: int| 0 <= i < leaf_count(ht) implies top_keys[i] == top_leaves(leaves, h)[i] by {
            let s = (2 * i) as nat;
            lemma_bottom_start_bounds(h, s);
            lemma_leaves_of_bottom(a, h, s);
            let part = bottom_part(a, h, s);
            assert(is_veb_layout(part, hb, leaves_of(part, hb)));
            lemma_root_index(hb);
            lemma2_to64();
            assert(part[node_index(hb, 0, 0) as int] == leaves_of(part, hb)[first_leaf_below(hb, 0, 0) as int]);
            assert(0 * pow2((hb - 1) as nat) == 0) by (nonlinear_arith);
            assert(i * q == s * lcb) by (nonlinear_arith)
                requires
                    q == 2 * lcb,
                    s == 2 * i,
            ;
            assert(bottom_leaves(leaves, h, s)[0] == leaves[s * lcb]);
            assert(top_keys[i] == part[0]);
        }
    }
    lemma_layout_compose(a, h, leaves);
}

/// `key` occurs among `keys[from..to]` and none of them is smaller.
pub open spec fn is_least_key_between(key: i64, keys: Seq<i64>, from: int, to: int) -> bool {
    &&& exists|i: int| from <= i < to && keys[i] == key
    &&& forall|i: int| from <= i < to ==> key <= keys[i]
}

/// The leaves below the node of depth `d` and rank `j` are those from
/// `first_leaf_below(h, d, j)` up to, not including,
/// `first_leaf_below(h, d, j + 1)`; the leaves below its two children split
/// them in the middle.
pub proof fn lemma_leaves_below(h: nat, d: nat, j: nat)
    requires
        d < h,
        j < pow2(d),
    ensures
        first_leaf_below(h, d, j) < first_leaf_below(h, d, j + 1) <= leaf_count(h),
        d + 1 < h ==> {
            &&& 2 * j + 1 < pow2(d + 1)
            &&& first_leaf_below(h, d + 1, 2 * j) == first_leaf_below(h, d, j)
            &&& first_leaf_below(h, d + 1, 2 * j) < first_leaf_below(h, d + 1, 2 * j + 1)
            &&& first_leaf_below(h, d + 1, 2 * j + 1) < first_leaf_below(h, d + 1, 2 * j + 2)
            &&& first_leaf_below(h, d + 1, 2 * j + 2) == first_leaf_below(h, d, j + 1)
        },
{
    let e = (h - 1 - d) as nat;
    let q = pow2(e) as int;
    let ji = j as int;
    lemma_pow2_pos(e);
    lemma_first_leaf_below_bound(h, d, j);
    assert((ji + 1) * q == ji * q + q) by (nonlinear_arith);
    if d + 1 < h {
        let e1 = (e - 1) as nat;
        let q1 = pow2(e1) as int;
        lemma_pow2_unfold(e);
        lemma_pow2_unfold(d + 1);
        lemma_pow2_pos(e1);
        assert((h - 1 - (d + 1)) as nat == e1);
        assert((2 * ji) * q1 == ji * (2 * q1)) by (nonlinear_arith);
        assert((2 * ji + 1) * q1 == ji * (2 * q1) + q1) by (nonlinear_arith);
        assert((2 * ji + 2) * q1 == ji * (2 * q1) + 2 * q1) by (nonlinear_arith);
    }
}

/// Every node of a search tree holds the smallest key of the leaves below
/// it.
pub proof fn lemma_node_holds_least_key(a: Seq<i64>, h: nat, d: nat, j: nat)
    requires
        is_search_tree(a, h),
        d < h,
        j < pow2(d),
    ensures
        is_least_key_between(
            a[node_index(h, d, j) as int],
            leaves_of(a, h),
            first_leaf_below(h, d, j) as int,
            first_leaf_below(h, d, j + 1) as int,
        ),
{
    lemma_leaves_below(h, d, j);
    let leaves = leaves_of(a, h);
    let first = first_leaf_below(h, d, j) as int;
    assert(a[node_index(h, d, j) as int] == leaves[first]);
}

/// The key that separates the two subtrees of an inner node, the smallest
/// key of its right subtree, is held by its right child, and no key of its
/// left subtree exceeds it.
pub proof fn lemma_split_key(a: Seq<i64>, h: nat, d: nat, j: nat)
    requires
        is_search_tree(a, h),
        d + 1 < h,
        j < pow2(d),
    ensures
        is_least_key_between(
            a[node_index(h, d + 1, 2 * j + 1) as int],
            leaves_of(a, h),
            first_leaf_below(h, d + 1, 2 * j + 1) as int,
            first_leaf_below(h, d + 1, 2 * j + 2) as int,
        ),
        forall|i: int|
            first_leaf_below(h, d + 1, 2 * j) <= i < first_leaf_below(h, d + 1, 2 * j + 1)
                ==> leaves_of(a, h)[i] <= a[node_index(h, d + 1, 2 * j + 1) as int],
{
    lemma_leaves_below(h, d, j);
    lemma_node_holds_least_key(a, h, d + 1, 2 * j + 1);
    let leaves = leaves_of(a, h);
    let first = first_leaf_below(h, d + 1, 2 * j + 1) as int;
    assert(a[node_index(h, d + 1, 2 * j + 1) as int] == leaves[first]);
}

/// An inner node whose two subtrees begin with the same key holds the
/// smallest key of its right subtree.
pub proof fn lemma_node_holds_split_key(a: Seq<i64>, h: nat, d: nat, j: nat)
    requires
        is_search_tree(a, h),
        d + 1 < h,
        j < pow2(d),
        leaves_of(a, h)[first_leaf_below(h, d + 1, 2 * j) as int] == leaves_of(
            a,
            h,
        )[first_leaf_below(h, d + 1, 2 * j + 1) as int],
    ensures
        is_least_key_between(
            a[node_index(h, d, j) as int],
            leaves_of(a, h),
            first_leaf_below(h, d + 1, 2 * j + 1) as int,
            first_leaf_below(h, d + 1, 2 * j + 2) as int,
        ),
{
    lemma_leaves_below(h, d, j);
    lemma_split_key(a, h, d, j);
    let leaves = leaves_of(a, h);
    assert(a[node_index(h, d, j) as int] == leaves[first_leaf_below(h, d, j) as int]);
    assert(a[node_index(h, d + 1, 2 * j + 1) as int] == leaves[first_leaf_below(
        h,
        d + 1,
        2 * j + 1,
    ) as int]);
}

/// Computes the offset of the leaf with in-order rank `rank` in the packed
/// array of a tree of `height` levels, one split at a time.
pub fn index_of_leaf(height: u16, rank: i32) -> (index: i32)
    requires
        1 <= height <= MAX_HEIGHT,
        0 <= rank < leaf_count(height as nat),
    ensures
        index == leaf_index(height as nat, rank as nat),
        0 <= index < tree_size(height as nat),
    decreases height,
{
    if height == 1 {
        proof {
            lemma2_to64();
        }
        return 0;
    }
    let ghost h = height as nat;
    let top_subtree_height: u16 = split_top_height(height);
    let subtree_height: u16 = height - top_subtree_height;
    proof {
        lemma_split_heights(h);
        lemma_pow2_bounds(h);
        lemma_pow2_bounds((subtree_height - 1) as nat);
        lemma_pow2_pos((subtree_height - 1) as nat);
    }
    let top_subtree_size: i32 = size_of_tree_with_height(top_subtree_height);
    let bottom_subtree_size: i32 = size_of_tree_with_height(subtree_height);
    let leaves_per_subtree: i32 = number_of_leaves_in_tree(subtree_height);
    let subtree_number: i32 = rank / leaves_per_subtree;
    let rank_in_subtree: i32 = rank % leaves_per_subtree;
    proof {
        let ld = ((h - 1) - top_height(h)) as nat;
        assert(ld == (subtree_height - 1) as nat);
        lemma_bottom_coordinates(h, (h - 1) as nat, rank as nat);
        let s = subtree_number as nat;
        assert(s == (rank as nat) / pow2(ld));
        assert(rank_in_subtree == (rank as nat) % pow2(ld));
        lemma_bottom_start_bounds(h, s);
        lemma_bottom_leaf(h, s, rank_in_subtree as nat);
        assert(0 <= bottom_subtree_size * subtree_number) by (nonlinear_arith)
            requires
                0 <= bottom_subtree_size,
                0 <= subtree_number,
        ;
    }
    top_subtree_size + bottom_subtree_size * subtree_number + index_of_leaf(
        subtree_height,
        rank_in_subtree,
    )
}

} // verus!
