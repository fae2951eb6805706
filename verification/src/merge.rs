//! Second stage: greedy merging of rectangles within a waste budget.
//!
//! Each round merges the pair of rectangles whose bounding box wastes the
//! least area, then lets the box absorb every rectangle that it overlaps,
//! until no pair is left whose box fits a tile and wastes no more than the
//! budget.

use crate::count::{lemma_box_bounds, lemma_hits_in_box, span, total_in_box};
use crate::cover::{
    all_dense, all_held_by, all_wf, all_within, held_by, lemma_all_held_by_refl, lemma_all_held_by_trans,
    lemma_total_used_pair, lemma_total_used_push, lemma_total_used_swap_remove,
    pairwise_disjoint, total_used,
};
use crate::rect::{lemma_merge_bounds, lemma_tile_area, Rect, MAX_MERGE_WASTE, MAX_RECT_SIZE};
use vstd::prelude::*;

verus! {

/// The bounding box of entries `a` and `b` fits a tile.
pub open spec fn pair_fits(s: Seq<Rect>, a: int, b: int) -> bool {
    s[a].spec_merge(s[b]).fits_tile()
}

/// The area of the bounding box of entries `a` and `b` that neither of them
/// counts as used.
pub open spec fn pair_waste(s: Seq<Rect>, a: int, b: int) -> int {
    s[a].spec_merge(s[b]).spec_area() - (s[a].used_pixels + s[b].used_pixels)
}

/// `(i, j)` is the pair to merge first: among the pairs whose box fits a
/// tile it wastes the least, and it comes first among those that waste as
/// little, by `i` and then by `j`.
pub open spec fn is_best_pair(s: Seq<Rect>, i: int, j: int) -> bool {
    &&& 0 <= i < j < s.len()
    &&& pair_fits(s, i, j)
    &&& forall|a: int, b: int|
        0 <= a < b < s.len() && #[trigger] pair_fits(s, a, b) ==> pair_waste(s, a, b)
            > pair_waste(s, i, j) || (pair_waste(s, a, b) == pair_waste(s, i, j) && (i < a || (i
            == a && j <= b)))
}

/// `(i, j)` is the best pair and its waste is within the budget.
pub open spec fn is_merge_choice(s: Seq<Rect>, i: int, j: int) -> bool {
    is_best_pair(s, i, j) && pair_waste(s, i, j) <= MAX_MERGE_WASTE
}

/// No two entries are left whose bounding box fits a tile and wastes no
/// more than the budget.
pub open spec fn no_merge_left(s: Seq<Rect>) -> bool {
    forall|a: int, b: int|
        0 <= a < b < s.len() && #[trigger] pair_fits(s, a, b) ==> pair_waste(s, a, b)
            > MAX_MERGE_WASTE
}

/// The mask that marks entries `i` and `j` of `n` entries.
pub open spec fn pair_mask(n: nat, i: int, j: int) -> Seq<bool> {
    Seq::new(n, |k: int| k == i || k == j)
}

/// Number of entries that the mask does not mark.
pub open spec fn untaken(taken: Seq<bool>) -> nat
    decreases taken.len(),
{
    if taken.len() == 0 {
        0
    } else {
        untaken(taken.drop_last()) + if taken.last() {
            0nat
        } else {
            1nat
        }
    }
}

/// Sum of the pixel counts of the entries that the mask marks.
pub open spec fn taken_used(s: Seq<Rect>, taken: Seq<bool>) -> int
    decreases s.len(),
{
    if s.len() == 0 {
        0
    } else {
        taken_used(s.drop_last(), taken.drop_last()) + if taken[s.len() - 1] {
            s.last().used_pixels as int
        } else {
            0
        }
    }
}

/// Entry `k` is the first one, not yet marked, that overlaps `acc`.
pub open spec fn is_first_hit(s: Seq<Rect>, taken: Seq<bool>, acc: Rect, k: int) -> bool {
    &&& 0 <= k < s.len()
    &&& !taken[k]
    &&& acc.spec_intersect(s[k])
    &&& forall|m: int| 0 <= m < k ==> taken[m] || !acc.spec_intersect(#[trigger] s[m])
}

/// Lets `acc` absorb, one at a time, the first unmarked entry that overlaps
/// it, until none does. Gives the grown box and the mask of all entries that
/// went into it.
pub open spec fn absorb(s: Seq<Rect>, taken: Seq<bool>, acc: Rect) -> (Rect, Seq<bool>)
    decreases untaken(taken),
{
    if taken.len() == s.len() && exists|k: int| is_first_hit(s, taken, acc, k) {
        let k = choose|k: int| is_first_hit(s, taken, acc, k);
        proof {
            lemma_untaken_mark(taken, k);
        }
        absorb(s, taken.update(k, true), acc.spec_merge(s[k]))
    } else {
        (acc, taken)
    }
}

/// The collection after the marked entries from index `k` upwards have
/// left it, the highest first: the last entry moves into each gap.
pub open spec fn prune(s: Seq<Rect>, taken: Seq<bool>, k: int) -> Seq<Rect>
    decreases s.len() - k,
{
    if k >= s.len() {
        s
    } else {
        let t = prune(s, taken, k + 1);
        if taken[k] {
            t.update(k, t.last()).drop_last()
        } else {
            t
        }
    }
}

/// One round: entries `i` and `j` and all that their box absorbs leave the
/// collection, and the grown box joins it at the end.
pub open spec fn merge_step(s: Seq<Rect>, i: int, j: int) -> Seq<Rect> {
    let grown = absorb(s, pair_mask(s.len(), i, j), s[i].spec_merge(s[j]));
    prune(s, grown.1, 0).push(grown.0)
}

/// The collection after all rounds.
pub open spec fn merged(s: Seq<Rect>) -> Seq<Rect>
    decreases s.len(),
{
    if exists|i: int, j: int| is_merge_choice(s, i, j) {
        let pair = choose|i: int, j: int| is_merge_choice(s, i, j);
        proof {
            lemma_merge_step_len(s, pair.0, pair.1);
        }
        merged(merge_step(s, pair.0, pair.1))
    } else {
        s
    }
}

/// A mark more leaves one entry less unmarked.
pub proof fn lemma_untaken_mark(taken: Seq<bool>, k: int)
    requires
        0 <= k < taken.len(),
        !taken[k],
    ensures
        untaken(taken.update(k, true)) + 1 == untaken(taken),
    decreases taken.len(),
{
    let marked = taken.update(k, true);
    if k == taken.len() - 1 {
        assert(marked.drop_last() =~= taken.drop_last());
    } else {
        lemma_untaken_mark(taken.drop_last(), k);
        assert(marked.drop_last() =~= taken.drop_last().update(k, true));
    }
}

/// A mark more adds what its entry counts.
pub proof fn lemma_taken_used_mark(s: Seq<Rect>, taken: Seq<bool>, k: int)
    requires
        taken.len() == s.len(),
        0 <= k < s.len(),
        !taken[k],
    ensures
        taken_used(s, taken.update(k, true)) == taken_used(s, taken) + s[k].used_pixels,
    decreases s.len(),
{
    let marked = taken.update(k, true);
    if k == s.len() - 1 {
        assert(marked.drop_last() =~= taken.drop_last());
    } else {
        lemma_taken_used_mark(s.drop_last(), taken.drop_last(), k);
        assert(marked.drop_last() =~= taken.drop_last().update(k, true));
    }
}

/// The marked entries count no more than the whole collection.
pub proof fn lemma_taken_used_bounds(s: Seq<Rect>, taken: Seq<bool>)
    requires
        taken.len() == s.len(),
    ensures
        0 <= taken_used(s, taken) <= total_used(s),
    decreases s.len(),
{
    if s.len() > 0 {
        lemma_taken_used_bounds(s.drop_last(), taken.drop_last());
    }
}

/// Where nothing is marked, the marked entries count nothing.
pub proof fn lemma_taken_used_none(s: Seq<Rect>, taken: Seq<bool>)
    requires
        taken.len() == s.len(),
        forall|k: int| 0 <= k < taken.len() ==> !taken[k],
    ensures
        taken_used(s, taken) == 0,
    decreases s.len(),
{
    if s.len() > 0 {
        lemma_taken_used_none(s.drop_last(), taken.drop_last());
    }
}

/// The mask of a pair marks what the two entries count.
pub proof fn lemma_taken_used_pair(s: Seq<Rect>, i: int, j: int)
    requires
        0 <= i < j < s.len(),
    ensures
        taken_used(s, pair_mask(s.len(), i, j)) == s[i].used_pixels + s[j].used_pixels,
{
    let none = Seq::new(s.len(), |k: int| false);
    lemma_taken_used_none(s, none);
    lemma_taken_used_mark(s, none, i);
    lemma_taken_used_mark(s, none.update(i, true), j);
    assert(none.update(i, true).update(j, true) =~= pair_mask(s.len(), i, j));
}

/// Absorbing keeps the marks that are there and the length of the mask.
pub proof fn lemma_absorb_keeps(s: Seq<Rect>, taken: Seq<bool>, acc: Rect)
    requires
        taken.len() == s.len(),
    ensures
        absorb(s, taken, acc).1.len() == s.len(),
        forall|k: int| 0 <= k < s.len() && taken[k] ==> #[trigger] absorb(s, taken, acc).1[k],
    decreases untaken(taken),
{
    if exists|k: int| is_first_hit(s, taken, acc, k) {
        let k = choose|k: int| is_first_hit(s, taken, acc, k);
        lemma_untaken_mark(taken, k);
        lemma_absorb_keeps(s, taken.update(k, true), acc.spec_merge(s[k]));
    }
}

/// Pruning from `k` upwards leaves the entries below `k` alone.
pub proof fn lemma_prune_prefix(s: Seq<Rect>, taken: Seq<bool>, k: int)
    requires
        taken.len() == s.len(),
        0 <= k <= s.len(),
    ensures
        k <= prune(s, taken, k).len() <= s.len(),
        forall|m: int| 0 <= m < k ==> #[trigger] prune(s, taken, k)[m] == s[m],
    decreases s.len() - k,
{
    if k < s.len() {
        lemma_prune_prefix(s, taken, k + 1);
    }
}

/// Pruning removes an entry for each of two marks.
pub proof fn lemma_prune_len(s: Seq<Rect>, taken: Seq<bool>, k: int, i: int, j: int)
    requires
        taken.len() == s.len(),
        0 <= k <= s.len(),
        0 <= i < j < s.len(),
    ensures
        prune(s, taken, k).len() + (if k <= i && taken[i] {
            1int
        } else {
            0int
        }) + (if k <= j && taken[j] {
            1int
        } else {
            0int
        }) <= s.len(),
    decreases s.len() - k,
{
    if k < s.len() {
        lemma_prune_len(s, taken, k + 1, i, j);
        lemma_prune_prefix(s, taken, k + 1);
    }
}

/// Every round leaves fewer rectangles.
pub proof fn lemma_merge_step_len(s: Seq<Rect>, i: int, j: int)
    requires
        0 <= i < j < s.len(),
    ensures
        merge_step(s, i, j).len() < s.len(),
{
    let mask = pair_mask(s.len(), i, j);
    let grown = absorb(s, mask, s[i].spec_merge(s[j]));
    lemma_absorb_keeps(s, mask, s[i].spec_merge(s[j]));
    assert(mask[i] && mask[j]);
    lemma_prune_len(s, grown.1, 0, i, j);
}

/// There is at most one best pair.
pub proof fn lemma_best_pair_unique(s: Seq<Rect>, i: int, j: int, a: int, b: int)
    requires
        is_best_pair(s, i, j),
        is_best_pair(s, a, b),
    ensures
        i == a && j == b,
{
}

/// Some unmarked entry of `s` from index `k` upwards is `r`.
pub open spec fn kept_from(s: Seq<Rect>, taken: Seq<bool>, k: int, r: Rect) -> bool {
    exists|m: int| k <= m < s.len() && !taken[m] && (#[trigger] s[m]) == r
}

/// Some entry of `t` from index `k` upwards is `r`.
pub open spec fn placed_from(t: Seq<Rect>, k: int, r: Rect) -> bool {
    exists|p: int| k <= p < t.len() && (#[trigger] t[p]) == r
}

/// From index `k` upwards, what pruning leaves is what was not marked.
pub proof fn lemma_prune_members(s: Seq<Rect>, taken: Seq<bool>, k: int)
    requires
        taken.len() == s.len(),
        0 <= k <= s.len(),
    ensures
        forall|p: int|
            k <= p < prune(s, taken, k).len() ==> kept_from(
                s,
                taken,
                k,
                #[trigger] prune(s, taken, k)[p],
            ),
        forall|m: int|
            k <= m < s.len() && !taken[m] ==> placed_from(prune(s, taken, k), k, #[trigger] s[m]),
    decreases s.len() - k,
{
    let r = prune(s, taken, k);
    if k < s.len() {
        let t = prune(s, taken, k + 1);
        lemma_prune_members(s, taken, k + 1);
        lemma_prune_prefix(s, taken, k + 1);
        assert forall|p: int| k <= p < r.len() implies kept_from(s, taken, k, #[trigger] r[p]) by {
            if taken[k] {
                if p == k {
                    assert(r[p] == t[t.len() - 1]);
                    assert(kept_from(s, taken, k + 1, t[t.len() - 1]));
                } else {
                    assert(r[p] == t[p]);
                    assert(kept_from(s, taken, k + 1, t[p]));
                }
                let m = choose|m: int| k + 1 <= m < s.len() && !taken[m] && (#[trigger] s[m]) == r[p];
                assert(k <= m < s.len() && !taken[m] && s[m] == r[p]);
            } else {
                if p == k {
                    assert(s[k] == r[p]);
                } else {
                    assert(kept_from(s, taken, k + 1, t[p]));
                    let m = choose|m: int|
                        k + 1 <= m < s.len() && !taken[m] && (#[trigger] s[m]) == r[p];
                    assert(k <= m < s.len() && !taken[m] && s[m] == r[p]);
                }
            }
        }
        assert forall|m: int| k <= m < s.len() && !taken[m] implies placed_from(
            r,
            k,
            #[trigger] s[m],
        ) by {
            if m == k {
                assert(r[k] == s[m]);
            } else {
                assert(placed_from(t, k + 1, s[m]));
                let p = choose|p: int| k + 1 <= p < t.len() && (#[trigger] t[p]) == s[m];
                if taken[k] {
                    if p == t.len() - 1 {
                        assert(r[k] == s[m]);
                    } else {
                        assert(r[p] == s[m]);
                    }
                } else {
                    assert(r[p] == s[m]);
                }
            }
        }
    }
}

/// Pruning a collection in which nothing overlaps leaves one in which
/// nothing overlaps.
pub proof fn lemma_prune_disjoint(s: Seq<Rect>, taken: Seq<bool>, k: int)
    requires
        taken.len() == s.len(),
        0 <= k <= s.len(),
        pairwise_disjoint(s),
    ensures
        pairwise_disjoint(prune(s, taken, k)),
    decreases s.len() - k,
{
    let r = prune(s, taken, k);
    if k < s.len() {
        let t = prune(s, taken, k + 1);
        lemma_prune_disjoint(s, taken, k + 1);
        lemma_prune_prefix(s, taken, k + 1);
        if taken[k] {
            assert forall|a: int, b: int|
                0 <= a < r.len() && 0 <= b < r.len() && a != b implies !(#[trigger] r[a]).spec_intersect(
                    #[trigger] r[b],
                ) by {
                let sa = if a == k { t.len() - 1 } else { a };
                let sb = if b == k { t.len() - 1 } else { b };
                assert(r[a] == t[sa] && r[b] == t[sb]);
                assert(!t[sa].spec_intersect(t[sb]));
            }
        }
    }
}

/// Pruning takes away what the marked entries count.
pub proof fn lemma_prune_total(s: Seq<Rect>, taken: Seq<bool>, k: int)
    requires
        taken.len() == s.len(),
        0 <= k <= s.len(),
    ensures
        total_used(prune(s, taken, k)) == total_used(s) - taken_used(s, taken) + taken_used(
            s.take(k),
            taken.take(k),
        ),
    decreases s.len() - k,
{
    if k < s.len() {
        let t = prune(s, taken, k + 1);
        lemma_prune_total(s, taken, k + 1);
        lemma_prune_prefix(s, taken, k + 1);
        assert(s.take(k + 1).drop_last() =~= s.take(k));
        assert(taken.take(k + 1).drop_last() =~= taken.take(k));
        if taken[k] {
            lemma_total_used_swap_remove(t, k);
        }
    } else {
        assert(s.take(k) =~= s);
        assert(taken.take(k) =~= taken);
    }
}

/// Where some unmarked entry overlaps `acc`, there is a first one.
pub proof fn lemma_first_hit_exists(s: Seq<Rect>, taken: Seq<bool>, acc: Rect, k: int)
    requires
        0 <= k < s.len(),
        !taken[k],
        acc.spec_intersect(s[k]),
    ensures
        exists|c: int| is_first_hit(s, taken, acc, c),
    decreases k,
{
    if forall|m: int| 0 <= m < k ==> taken[m] || !acc.spec_intersect(#[trigger] s[m]) {
        assert(is_first_hit(s, taken, acc, k));
    } else {
        let m = choose|m: int| 0 <= m < k && !(taken[m] || !acc.spec_intersect(#[trigger] s[m]));
        lemma_first_hit_exists(s, taken, acc, m);
    }
}

/// The grown box holds the box it grew from and every entry that went into
/// it, and overlaps no entry that did not.
pub proof fn lemma_absorb_grows(s: Seq<Rect>, taken: Seq<bool>, acc: Rect)
    requires
        taken.len() == s.len(),
        all_wf(s),
        acc.wf(),
        forall|k: int| 0 <= k < s.len() && taken[k] ==> (#[trigger] s[k]).within(acc),
    ensures
        absorb(s, taken, acc).1.len() == s.len(),
        absorb(s, taken, acc).0.wf(),
        acc.within(absorb(s, taken, acc).0),
        forall|k: int|
            0 <= k < s.len() && absorb(s, taken, acc).1[k] ==> (#[trigger] s[k]).within(
                absorb(s, taken, acc).0,
            ),
        forall|k: int|
            0 <= k < s.len() && !absorb(s, taken, acc).1[k] ==> !absorb(
                s,
                taken,
                acc,
            ).0.spec_intersect(#[trigger] s[k]),
    decreases untaken(taken),
{
    if exists|k: int| is_first_hit(s, taken, acc, k) {
        let k = choose|k: int| is_first_hit(s, taken, acc, k);
        let bigger = acc.spec_merge(s[k]);
        lemma_untaken_mark(taken, k);
        lemma_merge_bounds(acc, s[k]);
        assert forall|m: int| 0 <= m < s.len() && taken.update(k, true)[m] implies (#[trigger] s[m]).within(
            bigger,
        ) by {
            if m != k {
                assert(s[m].within(acc));
            }
        }
        lemma_absorb_grows(s, taken.update(k, true), bigger);
    } else {
        assert forall|k: int| 0 <= k < s.len() && !taken[k] implies !acc.spec_intersect(
            #[trigger] s[k],
        ) by {
            if acc.spec_intersect(s[k]) {
                lemma_first_hit_exists(s, taken, acc, k);
            }
        }
    }
}

/// The grown box counts what the entries that went into it count.
pub proof fn lemma_absorb_used(s: Seq<Rect>, taken: Seq<bool>, acc: Rect)
    requires
        taken.len() == s.len(),
        acc.used_pixels == taken_used(s, taken),
        total_used(s) <= usize::MAX,
    ensures
        absorb(s, taken, acc).0.used_pixels == taken_used(s, absorb(s, taken, acc).1),
    decreases untaken(taken),
{
    if exists|k: int| is_first_hit(s, taken, acc, k) {
        let k = choose|k: int| is_first_hit(s, taken, acc, k);
        lemma_untaken_mark(taken, k);
        lemma_taken_used_mark(s, taken, k);
        lemma_taken_used_bounds(s, taken.update(k, true));
        lemma_absorb_used(s, taken.update(k, true), acc.spec_merge(s[k]));
    }
}

/// One round keeps the rectangles well formed and their pixel counts,
/// leaves every rectangle inside one of the new collection, and brings no
/// overlap into a collection that had none.
pub proof fn lemma_merge_step(s: Seq<Rect>, i: int, j: int)
    requires
        0 <= i < j < s.len(),
        all_wf(s),
        total_used(s) <= usize::MAX,
    ensures
        merge_step(s, i, j).len() < s.len(),
        all_wf(merge_step(s, i, j)),
        total_used(merge_step(s, i, j)) == total_used(s),
        all_held_by(s, merge_step(s, i, j)),
        pairwise_disjoint(s) ==> pairwise_disjoint(merge_step(s, i, j)),
{
    let mask = pair_mask(s.len(), i, j);
    let first = s[i].spec_merge(s[j]);
    let grown = absorb(s, mask, first);
    let rest = prune(s, grown.1, 0);
    let t = merge_step(s, i, j);
    assert(t == rest.push(grown.0));
    lemma_merge_step_len(s, i, j);
    lemma_merge_bounds(s[i], s[j]);
    lemma_total_used_pair(s, i, j);
    lemma_taken_used_pair(s, i, j);
    lemma_absorb_grows(s, mask, first);
    lemma_absorb_used(s, mask, first);
    lemma_prune_members(s, grown.1, 0);
    lemma_prune_total(s, grown.1, 0);
    lemma_total_used_push(rest, grown.0);
    lemma_taken_used_none(s.take(0), grown.1.take(0));
    assert forall|p: int| 0 <= p < rest.len() implies (#[trigger] rest[p]).wf()
        && !grown.0.spec_intersect(rest[p]) by {
        assert(kept_from(s, grown.1, 0, rest[p]));
        let m = choose|m: int| 0 <= m < s.len() && !grown.1[m] && (#[trigger] s[m]) == rest[p];
        assert(s[m].wf());
    }
    assert forall|p: int| 0 <= p < t.len() implies (#[trigger] t[p]).wf() by {
        if p < rest.len() {
            assert(rest[p].wf());
        }
    }
    assert forall|m: int| 0 <= m < s.len() implies held_by(t, #[trigger] s[m]) by {
        if grown.1[m] {
            assert(s[m].within(t[rest.len() as int]));
        } else {
            assert(placed_from(rest, 0, s[m]));
            let p = choose|p: int| 0 <= p < rest.len() && (#[trigger] rest[p]) == s[m];
            assert(s[m].within(t[p]));
        }
    }
    if pairwise_disjoint(s) {
        lemma_prune_disjoint(s, grown.1, 0);
        assert forall|a: int, b: int|
            0 <= a < t.len() && 0 <= b < t.len() && a != b implies !(#[trigger] t[a]).spec_intersect(
                #[trigger] t[b],
            ) by {
            if a < rest.len() && b < rest.len() {
                assert(!rest[a].spec_intersect(rest[b]));
            } else if a < rest.len() {
                assert(!grown.0.spec_intersect(rest[a]));
            } else {
                assert(!grown.0.spec_intersect(rest[b]));
            }
        }
    }
}

/// Merging keeps the rectangles well formed and their pixel counts, leaves
/// every rectangle inside one of the result, and brings no overlap into a
/// collection that had none.
pub proof fn lemma_merged(s: Seq<Rect>)
    requires
        all_wf(s),
        total_used(s) <= usize::MAX,
    ensures
        merged(s).len() <= s.len(),
        all_wf(merged(s)),
        total_used(merged(s)) == total_used(s),
        all_held_by(s, merged(s)),
        pairwise_disjoint(s) ==> pairwise_disjoint(merged(s)),
    decreases s.len(),
{
    if exists|i: int, j: int| is_merge_choice(s, i, j) {
        let pair = choose|i: int, j: int| is_merge_choice(s, i, j);
        let next = merge_step(s, pair.0, pair.1);
        lemma_merge_step(s, pair.0, pair.1);
        lemma_merged(next);
        lemma_all_held_by_trans(s, next, merged(next));
    } else {
        lemma_all_held_by_refl(s);
    }
}

/// A box that lies inside `outer` still does after it has absorbed
/// rectangles that lie inside `outer`.
pub proof fn lemma_absorb_within(s: Seq<Rect>, taken: Seq<bool>, acc: Rect, outer: Rect)
    requires
        all_within(s, outer),
        acc.within(outer),
    ensures
        absorb(s, taken, acc).0.within(outer),
    decreases untaken(taken),
{
    if taken.len() == s.len() && exists|k: int| is_first_hit(s, taken, acc, k) {
        let k = choose|k: int| is_first_hit(s, taken, acc, k);
        lemma_untaken_mark(taken, k);
        assert(s[k].within(outer));
        lemma_absorb_within(s, taken.update(k, true), acc.spec_merge(s[k]), outer);
    }
}

/// Merging rectangles that lie inside `outer` gives rectangles that lie
/// inside `outer`.
pub proof fn lemma_merged_within(s: Seq<Rect>, outer: Rect)
    requires
        all_within(s, outer),
    ensures
        all_within(merged(s), outer),
    decreases s.len(),
{
    if exists|i: int, j: int| is_merge_choice(s, i, j) {
        let pair = choose|i: int, j: int| is_merge_choice(s, i, j);
        let mask = pair_mask(s.len(), pair.0, pair.1);
        let first = s[pair.0].spec_merge(s[pair.1]);
        let grown = absorb(s, mask, first);
        let rest = prune(s, grown.1, 0);
        let next = merge_step(s, pair.0, pair.1);
        assert(s[pair.0].within(outer) && s[pair.1].within(outer));
        lemma_merge_step_len(s, pair.0, pair.1);
        lemma_absorb_within(s, mask, first, outer);
        lemma_absorb_keeps(s, mask, first);
        lemma_prune_members(s, grown.1, 0);
        assert forall|p: int| 0 <= p < next.len() implies (#[trigger] next[p]).within(outer) by {
            if p < rest.len() {
                assert(kept_from(s, grown.1, 0, rest[p]));
                let m = choose|m: int|
                    0 <= m < s.len() && !grown.1[m] && (#[trigger] s[m]) == rest[p];
                assert(s[m].within(outer));
            }
        }
        lemma_merged_within(next, outer);
    }
}

/// The marked entries count no more pixels than the whole collection
/// holds inside a box in which all of them lie.
proof fn lemma_taken_used_in_box(s: Seq<Rect>, taken: Seq<bool>, outer: Rect)
    requires
        taken.len() == s.len(),
        all_wf(s),
        all_dense(s),
        forall|k: int| 0 <= k < s.len() && taken[k] ==> (#[trigger] s[k]).within(outer),
    ensures
        taken_used(s, taken) <= total_in_box(
            s,
            outer.x as int,
            outer.x_end as int,
            outer.y as int,
            outer.y_end as int,
        ),
    decreases s.len(),
{
    if s.len() > 0 {
        let front = s.drop_last();
        let r = s.last();
        assert(r == s[s.len() - 1]);
        assert(r.wf() && r.used_pixels <= r.spec_area());
        assert forall|k: int| 0 <= k < front.len() implies (#[trigger] front[k]).wf()
            && front[k].used_pixels <= front[k].spec_area() && (taken.drop_last()[k]
            ==> front[k].within(outer)) by {
            assert(s[k].wf() && s[k].used_pixels <= s[k].spec_area());
            if taken[k] {
                assert(s[k].within(outer));
            }
        }
        lemma_taken_used_in_box(front, taken.drop_last(), outer);
        let across = span(r.x as int, r.x_end as int, outer.x as int, outer.x_end as int);
        let down = span(r.y as int, r.y_end as int, outer.y as int, outer.y_end as int);
        assert(0 <= across * down) by (nonlinear_arith)
            requires
                0 <= across,
                0 <= down,
        ;
        if taken[s.len() - 1] {
            assert(r.within(outer));
            assert(across == r.spec_width() && down == r.spec_height());
        }
    }
}

/// One round on rectangles that do not overlap leaves none that counts
/// more pixels than it has, if there was none before.
pub proof fn lemma_merge_step_dense(s: Seq<Rect>, i: int, j: int)
    requires
        0 <= i < j < s.len(),
        all_wf(s),
        total_used(s) <= usize::MAX,
        pairwise_disjoint(s),
        all_dense(s),
    ensures
        all_dense(merge_step(s, i, j)),
{
    let mask = pair_mask(s.len(), i, j);
    let first = s[i].spec_merge(s[j]);
    let grown = absorb(s, mask, first);
    let rest = prune(s, grown.1, 0);
    let t = merge_step(s, i, j);
    let whole = grown.0;
    lemma_merge_bounds(s[i], s[j]);
    lemma_total_used_pair(s, i, j);
    lemma_taken_used_pair(s, i, j);
    lemma_absorb_grows(s, mask, first);
    lemma_absorb_used(s, mask, first);
    lemma_prune_members(s, grown.1, 0);
    lemma_taken_used_in_box(s, grown.1, whole);
    lemma_hits_in_box(s, whole.x as int, whole.x_end as int, whole.y as int, whole.y_end as int);
    lemma_box_bounds(s, whole.x as int, whole.x_end as int, whole.y as int, whole.y_end as int);
    assert(whole.used_pixels <= whole.spec_area());
    assert forall|p: int| 0 <= p < t.len() implies (#[trigger] t[p]).used_pixels
        <= t[p].spec_area() by {
        if p < rest.len() {
            assert(kept_from(s, grown.1, 0, rest[p]));
            let m = choose|m: int|
                0 <= m < s.len() && !grown.1[m] && (#[trigger] s[m]) == rest[p];
            assert(s[m].used_pixels <= s[m].spec_area());
        }
    }
}

/// Merging rectangles that do not overlap leaves none that counts more
/// pixels than it has, if there was none before: no waste is negative.
pub proof fn lemma_merged_dense(s: Seq<Rect>)
    requires
        all_wf(s),
        total_used(s) <= usize::MAX,
        pairwise_disjoint(s),
        all_dense(s),
    ensures
        all_dense(merged(s)),
    decreases s.len(),
{
    if exists|i: int, j: int| is_merge_choice(s, i, j) {
        let pair = choose|i: int, j: int| is_merge_choice(s, i, j);
        lemma_merge_step(s, pair.0, pair.1);
        lemma_merge_step_dense(s, pair.0, pair.1);
        lemma_merged_dense(merge_step(s, pair.0, pair.1));
    }
}

/// Where no pair is within the budget, merging changes nothing.
pub proof fn lemma_merged_done(s: Seq<Rect>)
    requires
        no_merge_left(s),
    ensures
        merged(s) == s,
{
    assert forall|i: int, j: int| !is_merge_choice(s, i, j) by {
        if is_merge_choice(s, i, j) {
            assert(pair_fits(s, i, j));
        }
    }
}

/// What the search for the best pair knows after it has looked at every
/// pair that comes before `(i, j)`.
spec fn best_before(
    s: Seq<Rect>,
    found: bool,
    bi: int,
    bj: int,
    bw: int,
    i: int,
    j: int,
) -> bool {
    &&& found ==> 0 <= bi < bj < s.len() && pair_fits(s, bi, bj) && bw == pair_waste(s, bi, bj)
        && (bi < i || (bi == i && bj < j))
    &&& forall|a: int, b: int|
        0 <= a < b < s.len() && (a < i || (a == i && b < j)) && #[trigger] pair_fits(s, a, b)
            ==> found && (pair_waste(s, a, b) > bw || (pair_waste(s, a, b) == bw && (bi < a || (bi
            == a && bj <= b))))
}

/// The pair to merge next, if there is one within the budget.
fn find_best_pair(rects: &Vec<Rect>) -> (best: Option<(usize, usize)>)
    requires
        all_wf(rects@),
        total_used(rects@) <= usize::MAX,
    ensures
        match best {
            Some(pair) => is_merge_choice(rects@, pair.0 as int, pair.1 as int),
            None => no_merge_left(rects@),
        },
{
    let n = rects.len();
    let ghost s = rects@;
    let mut found = false;
    let mut bi: usize = 0;
    let mut bj: usize = 0;
    let mut bw: i128 = 0;
    let mut i: usize = 0;
    while i < n
        invariant
            i <= n,
            n == s.len(),
            s == rects@,
            all_wf(s),
            total_used(s) <= usize::MAX,
            best_before(s, found, bi as int, bj as int, bw as int, i as int, 0),
        decreases n - i,
    {
        let mut j: usize = i + 1;
        while j < n
            invariant
                i < j <= n,
                n == s.len(),
                s == rects@,
                all_wf(s),
                total_used(s) <= usize::MAX,
                best_before(s, found, bi as int, bj as int, bw as int, i as int, j as int),
            decreases n - j,
        {
            proof {
                lemma_total_used_pair(s, i as int, j as int);
                lemma_merge_bounds(s[i as int], s[j as int]);
            }
            let both = rects[i].merge(&rects[j]);
            assert(both.fits_tile() == pair_fits(s, i as int, j as int));
            if both.width() <= MAX_RECT_SIZE && both.height() <= MAX_RECT_SIZE {
                proof {
                    lemma_tile_area(both);
                }
                let waste = both.wasted();
                assert(waste == pair_waste(s, i as int, j as int));
                if !found || waste < bw {
                    found = true;
                    bi = i;
                    bj = j;
                    bw = waste;
                }
            }
            j += 1;
        }
        i += 1;
    }
    if found && bw <= MAX_MERGE_WASTE as i128 {
        Some((bi, bj))
    } else {
        None
    }
}

/// A mask of `n` entries that marks `i` and `j`.
fn mark_pair(n: usize, i: usize, j: usize) -> (mask: Vec<bool>)
    requires
        i < j < n,
    ensures
        mask@ == pair_mask(n as nat, i as int, j as int),
{
    let mut mask: Vec<bool> = Vec::new();
    let mut k: usize = 0;
    while k < n
        invariant
            k <= n,
            mask@.len() == k,
            forall|m: int| 0 <= m < k ==> !mask@[m],
        decreases n - k,
    {
        mask.push(false);
        k += 1;
    }
    mask[i] = true;
    mask[j] = true;
    assert(mask@ =~= pair_mask(n as nat, i as int, j as int));
    mask
}

/// One round of merging: entries `i` and `j` and all that their box
/// absorbs leave the collection, and the grown box joins it.
fn merge_pair(rects: Vec<Rect>, i: usize, j: usize) -> (out: Vec<Rect>)
    requires
        i < j < rects.len(),
        total_used(rects@) <= usize::MAX,
    ensures
        out@ == merge_step(rects@, i as int, j as int),
{
    let ghost s = rects@;
    let n = rects.len();
    let mut rects = rects;
    proof {
        lemma_total_used_pair(s, i as int, j as int);
        lemma_taken_used_pair(s, i as int, j as int);
    }
    let mut acc = rects[i].merge(&rects[j]);
    let mut taken = mark_pair(n, i, j);
    let ghost mask0 = taken@;
    let ghost acc0 = acc;
    let mut k: usize = 0;
    while k < n
        invariant
            n == s.len(),
            rects@ == s,
            taken@.len() == n,
            k <= n,
            total_used(s) <= usize::MAX,
            acc.used_pixels == taken_used(s, taken@),
            absorb(s, taken@, acc) == absorb(s, mask0, acc0),
            forall|m: int| 0 <= m < k ==> taken@[m] || !acc.spec_intersect(#[trigger] s[m]),
        decreases untaken(taken@), n - k,
    {
        if !taken[k] && acc.intersect(&rects[k]) {
            proof {
                assert(is_first_hit(s, taken@, acc, k as int));
                let c = choose|c: int| is_first_hit(s, taken@, acc, c);
                assert(c == k);
                lemma_taken_used_mark(s, taken@, k as int);
                lemma_taken_used_bounds(s, taken@.update(k as int, true));
                lemma_untaken_mark(taken@, k as int);
            }
            acc = acc.merge(&rects[k]);
            taken[k] = true;
            k = 0;
        } else {
            k += 1;
        }
    }
    assert(absorb(s, taken@, acc) == (acc, taken@));
    let mut idx: usize = n;
    while idx > 0
        invariant
            idx <= n,
            n == s.len(),
            taken@.len() == n,
            rects@ == prune(s, taken@, idx as int),
        decreases idx,
    {
        idx -= 1;
        proof {
            lemma_prune_prefix(s, taken@, idx + 1);
        }
        if taken[idx] {
            rects.swap_remove(idx);
        }
    }
    rects.push(acc);
    rects
}

/// Merges rectangles, the least wasteful pair first, until no two are left
/// whose bounding box fits a tile and wastes no more than the budget. The
/// box of each merged pair absorbs every rectangle that it overlaps,
/// whatever its size and waste become.
pub fn merge_rects(rects: Vec<Rect>) -> (out: Vec<Rect>)
    requires
        all_wf(rects@),
        total_used(rects@) <= usize::MAX,
    ensures
        out@ == merged(rects@),
        no_merge_left(out@),
        all_wf(out@),
        total_used(out@) == total_used(rects@),
        all_held_by(rects@, out@),
        pairwise_disjoint(rects@) ==> pairwise_disjoint(out@),
        pairwise_disjoint(rects@) && all_dense(rects@) ==> all_dense(out@),
{
    let mut work = rects;
    loop
        invariant
            all_wf(rects@),
            total_used(rects@) <= usize::MAX,
            all_wf(work@),
            total_used(work@) <= usize::MAX,
            merged(work@) == merged(rects@),
        decreases work.len(),
    {
        if work.len() <= 1 {
            proof {
                lemma_merged_done(work@);
                lemma_merged(rects@);
                if pairwise_disjoint(rects@) && all_dense(rects@) {
                    lemma_merged_dense(rects@);
                }
            }
            return work;
        }
        match find_best_pair(&work) {
            None => {
                proof {
                    lemma_merged_done(work@);
                lemma_merged(rects@);
                if pairwise_disjoint(rects@) && all_dense(rects@) {
                    lemma_merged_dense(rects@);
                }
                }
                return work;
            },
            Some(pair) => {
                proof {
                    let chosen = choose|i: int, j: int| is_merge_choice(work@, i, j);
                    lemma_best_pair_unique(
                        work@,
                        pair.0 as int,
                        pair.1 as int,
                        chosen.0,
                        chosen.1,
                    );
                    lemma_merge_step(work@, pair.0 as int, pair.1 as int);
                }
                work = merge_pair(work, pair.0, pair.1);
            },
        }
    }
}

} // verus!
