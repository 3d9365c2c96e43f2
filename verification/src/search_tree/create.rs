//! Building the packed array from a stream of keys.
//!
//! The lower halves of a tree are laid out first, from left to right, each
//! taking its keys from the stream as they come. The first key of every
//! second lower half is kept; those keys are the leaves of the upper half,
//! which is laid out last, in the same way.

use vstd::prelude::*;
use vstd::arithmetic::power2::{lemma_pow2_pos, pow2};
use vstd::std_specs::iter::IteratorSpec;
use vstd::std_specs::vec::axiom_spec_into_iter;
use crate::search_tree::util::{
    bottom_height, leaf_count, lemma_pow2_bounds, lemma_split_heights, number_of_leaves_in_tree,
    size_of_tree_with_height, split_top_height, top_height, tree_size, MAX_HEIGHT,
};
use crate::search_tree::veb::{
    bottom_leaves, bottom_part, bottom_start, first_leaf_below, is_veb_layout, leaves_of,
    lemma_bottom_start_bounds, lemma_layout_from_parts, lemma_leaves_from_blocks,
    lemma_leaves_of_bottom, node_index, top_part,
};

verus! {

/// Why a tree could not be built.
#[derive(PartialEq, Eq, Debug, Clone, Copy, Structural)]
pub enum BuildError {
    /// The number of leaves asked for is not a power of two.
    CountNotPowerOfTwo,
    /// The stream ended before it had given a key for every leaf.
    StreamTooShort,
    /// The stream held more keys than the tree has leaves.
    StreamTooLong,
}

/// The part of `a` that holds a tree of height `h` beginning at `start`.
pub open spec fn tree_region(a: Seq<i64>, start: int, h: nat) -> Seq<i64> {
    a.subrange(start, start + tree_size(h))
}

/// `after` differs from `before` at most between `start` and `end`.
pub open spec fn same_outside(before: Seq<i64>, after: Seq<i64>, start: int, end: int) -> bool {
    &&& after.len() == before.len()
    &&& forall|i: int| 0 <= i < before.len() && !(start <= i < end) ==> after[i] == before[i]
}

/// A tree of one level over the key `key`.
proof fn lemma_single_node(a: Seq<i64>, key: i64)
    requires
        a.len() == 1,
        a[0] == key,
    ensures
        tree_size(1) == 1,
        leaf_count(1) == 1,
        is_veb_layout(a, 1, leaves_of(a, 1)),
        leaves_of(a, 1) == seq![key],
{
    vstd::arithmetic::power2::lemma2_to64();
    assert(leaves_of(a, 1) =~= seq![key]);
    assert forall|d: nat, j: nat| d < 1 && j < pow2(d) implies a[#[trigger] node_index(1, d, j) as int]
        == leaves_of(a, 1)[first_leaf_below(1, d, j) as int] by {
        assert(0 * pow2(0) == 0) by (nonlinear_arith);
    }
}

/// Lays out a tree of `height` levels in `array`, beginning at offset
/// `start`, over the next `2^(height-1)` keys of `stream`, and returns the
/// first of those keys.
///
/// Nothing outside the tree's `2^height - 1` entries is written. On success
/// those entries are the packed array of the tree over the keys taken, and
/// the stream stands behind the last of them. Where the stream runs out, the
/// entries are left partly written and `StreamTooShort` is returned.
///
/// What is said of the stream holds for streams that keep the iterator
/// protocol: they yield their keys and then end for good.
pub fn layout<I: Iterator<Item = i64>>(
    array: &mut Vec<i64>,
    start: usize,
    stream: &mut I,
    height: u16,
) -> (built: Result<i64, BuildError>)
    requires
        1 <= height <= MAX_HEIGHT,
        start + tree_size(height as nat) <= old(array)@.len(),
    ensures
        same_outside(
            old(array)@,
            final(array)@,
            start as int,
            start + tree_size(height as nat),
        ),
        (*final(stream)).obeys_prophetic_iter_laws() == (*old(stream)).obeys_prophetic_iter_laws(),
        match built {
            Ok(first) => {
                let tree = tree_region(final(array)@, start as int, height as nat);
                let n = leaf_count(height as nat) as int;
                &&& is_veb_layout(tree, height as nat, leaves_of(tree, height as nat))
                &&& first == tree[0]
                &&& (*old(stream)).obeys_prophetic_iter_laws() ==> {
                    &&& (*old(stream)).remaining().len() >= n
                    &&& leaves_of(tree, height as nat) == (*old(stream)).remaining().take(n)
                    &&& (*final(stream)).remaining() == (*old(stream)).remaining().skip(n)
                }
            },
            Err(error) => {
                &&& error == BuildError::StreamTooShort
                &&& (*old(stream)).obeys_prophetic_iter_laws() ==> (*old(stream)).remaining().len()
                    < leaf_count(height as nat)
            },
        },
    decreases height,
{
    let ghost h = height as nat;
    let ghost before = array@;
    let ghost keys = (*stream).remaining();
    let ghost obeys = (*stream).obeys_prophetic_iter_laws();
    proof {
        vstd::std_specs::vec::axiom_spec_len(array);
    }
    if height == 1 {
        proof {
            vstd::arithmetic::power2::lemma2_to64();
        }
        return match stream.next() {
            Some(key) => {
                array[start] = key;
                proof {
                    let tree = tree_region(array@, start as int, 1);
                    lemma_single_node(tree, key);
                    if obeys {
                        assert(keys.take(1) =~= seq![key]);
                    }
                }
                Ok(key)
            },
            None => Err(BuildError::StreamTooShort),
        };
    }
    let top_subtree_height: u16 = split_top_height(height);
    let subtree_height: u16 = height - top_subtree_height;
    let ghost ht = top_subtree_height as nat;
    let ghost hb = subtree_height as nat;
    let ghost lcb = leaf_count(hb) as int;
    proof {
        lemma_split_heights(h);
        lemma_pow2_bounds(h);
        lemma_pow2_bounds(ht);
        lemma_pow2_bounds((ht - 1) as nat);
        lemma_pow2_pos(ht);
        lemma_bottom_start_bounds(h, 0);
    }
    let top_subtree_size: usize = size_of_tree_with_height(top_subtree_height) as usize;
    let bottom_subtree_size: usize = size_of_tree_with_height(subtree_height) as usize;
    let subtrees: usize = 2 * (number_of_leaves_in_tree(top_subtree_height) as usize);

    let mut minima: Vec<i64> = Vec::new();
    let mut subtree_number: usize = 0;
    while subtree_number < subtrees
        invariant
            before == old(array)@,
            keys == (*old(stream)).remaining(),
            obeys == (*old(stream)).obeys_prophetic_iter_laws(),
            start + tree_size(h) <= usize::MAX,
            2 <= h <= 31,
            h == height,
            ht == top_height(h),
            hb == bottom_height(h),
            ht == top_subtree_height,
            hb == subtree_height,
            1 <= subtree_height <= MAX_HEIGHT,
            lcb == leaf_count(hb),
            top_subtree_size == tree_size(ht),
            bottom_subtree_size == tree_size(hb),
            subtrees == pow2(ht),
            subtree_number <= subtrees,
            start + tree_size(h) <= before.len(),
            tree_size(h) == tree_size(ht) + pow2(ht) * tree_size(hb),
            leaf_count(h) == pow2(ht) * leaf_count(hb),
            same_outside(before, array@, start as int, start + tree_size(h)),
            (*stream).obeys_prophetic_iter_laws() == obeys,
            minima@.len() == (subtree_number + 1) / 2,
            forall|i: nat|
                i < minima@.len() ==> minima@[i as int] == (#[trigger] bottom_part(
                    tree_region(array@, start as int, h),
                    h,
                    2 * i,
                ))[0],
            forall|s: nat|
                s < subtree_number ==> is_veb_layout(
                    #[trigger] bottom_part(tree_region(array@, start as int, h), h, s),
                    hb,
                    leaves_of(bottom_part(tree_region(array@, start as int, h), h, s), hb),
                ),
            obeys ==> keys.len() >= subtree_number * lcb,
            obeys ==> (*stream).remaining() == keys.skip(subtree_number * lcb),
            obeys ==> forall|s: nat|
                s < subtree_number ==> leaves_of(
                    #[trigger] bottom_part(tree_region(array@, start as int, h), h, s),
                    hb,
                ) == keys.subrange(s * lcb, (s + 1) * lcb),
        decreases subtrees - subtree_number,
    {
        let ghost s = subtree_number as nat;
        let ghost array_before = array@;
        let ghost stream_before = (*stream).remaining();
        proof {
            lemma_bottom_start_bounds(h, s);
        }
        let subtree_start: usize = start + top_subtree_size + subtree_number * bottom_subtree_size;
        let first: i64 = match layout(array, subtree_start, stream, subtree_height) {
            Ok(first) => first,
            Err(error) => {
                proof {
                    if obeys {
                        assert(keys.len() < (s + 1) * lcb);
                    }
                }
                return Err(error);
            },
        };
        if subtree_number % 2 == 0 {
            minima.push(first);
        }
        proof {
            let region_before = tree_region(array_before, start as int, h);
            let region = tree_region(array@, start as int, h);
            assert(bottom_part(region, h, s) =~= tree_region(array@, subtree_start as int, hb));
            assert forall|other: nat| other < s implies #[trigger] bottom_part(region, h, other)
                == bottom_part(region_before, h, other) by {
                lemma_bottom_start_bounds(h, other);
                assert(bottom_start(h, other + 1) <= bottom_start(h, s)) by {
                    lemma_bottom_starts_ordered(h, other + 1, s);
                }
                assert(bottom_part(region, h, other) =~= bottom_part(region_before, h, other));
            }
            assert forall|i: nat| i < minima@.len() implies minima@[i as int] == (#[trigger] bottom_part(
                region,
                h,
                2 * i,
            ))[0] by {
                if 2 * i < s {
                    assert(bottom_part(region, h, 2 * i) == bottom_part(region_before, h, 2 * i));
                }
            }
            if obeys {
                assert(stream_before.take(lcb) =~= keys.subrange(s * lcb, (s + 1) * lcb));
                assert(stream_before.skip(lcb) =~= keys.skip((s + 1) * lcb));
            }
        }
        subtree_number = subtree_number + 1;
    }
    proof {
        axiom_spec_into_iter(minima);
    }
    let ghost top_keys = minima@;
    let ghost array_before = array@;
    let mut top_stream = minima.into_iter();
    match layout(array, start, &mut top_stream, top_subtree_height) {
        Ok(first) => {
            proof {
                let region_before = tree_region(array_before, start as int, h);
                let region = tree_region(array@, start as int, h);
                assert(top_part(region, h) =~= tree_region(array@, start as int, ht));
                assert(top_keys.take(leaf_count(ht) as int) =~= top_keys);
                assert forall|s: nat| s < pow2(ht) implies #[trigger] bottom_part(region, h, s)
                    == bottom_part(region_before, h, s) by {
                    lemma_bottom_start_bounds(h, s);
                    assert(bottom_part(region, h, s) =~= bottom_part(region_before, h, s));
                }
                lemma_layout_from_parts(region, h, top_keys);
                if obeys {
                    assert forall|s: nat| s < pow2(ht) implies #[trigger] bottom_leaves(
                        leaves_of(region, h),
                        h,
                        s,
                    ) == keys.subrange(
                        (s * leaf_count(bottom_height(h))) as int,
                        ((s + 1) * leaf_count(bottom_height(h))) as int,
                    ) by {
                        lemma_leaves_of_bottom(region, h, s);
                        assert(bottom_part(region, h, s) == bottom_part(region_before, h, s));
                    }
                    lemma_leaves_from_blocks(leaves_of(region, h), h, keys);
                }
            }
            Ok(first)
        },
        Err(error) => Err(error),
    }
}

/// The lower halves follow one another from left to right.
proof fn lemma_bottom_starts_ordered(h: nat, s: nat, t: nat)
    requires
        s <= t,
    ensures
        bottom_start(h, s) <= bottom_start(h, t),
{
    let b = tree_size(bottom_height(h)) as int;
    let si = s as int;
    let ti = t as int;
    assert(si * b <= ti * b) by (nonlinear_arith)
        requires
            si <= ti,
            0 <= b,
    ;
}

} // verus!
