//! What a collection of rectangles covers, and what it counts.

use crate::rect::Rect;
use vstd::prelude::*;

verus! {

/// Every rectangle of the collection holds at least one pixel.
pub open spec fn all_wf(s: Seq<Rect>) -> bool {
    forall|k: int| 0 <= k < s.len() ==> (#[trigger] s[k]).wf()
}

/// No two rectangles of the collection overlap.
pub open spec fn pairwise_disjoint(s: Seq<Rect>) -> bool {
    forall|i: int, j: int|
        0 <= i < s.len() && 0 <= j < s.len() && i != j ==> !(#[trigger] s[i]).spec_intersect(
            #[trigger] s[j],
        )
}

/// Every rectangle of the collection lies inside `outer`.
pub open spec fn all_within(s: Seq<Rect>, outer: Rect) -> bool {
    forall|k: int| 0 <= k < s.len() ==> (#[trigger] s[k]).within(outer)
}

/// No rectangle of the collection counts more pixels than it has.
pub open spec fn all_dense(s: Seq<Rect>) -> bool {
    forall|k: int| 0 <= k < s.len() ==> (#[trigger] s[k]).used_pixels <= s[k].spec_area()
}

/// Some rectangle of the collection holds the pixel in column `px`, row `py`.
pub open spec fn covered_by(s: Seq<Rect>, px: int, py: int) -> bool {
    exists|k: int| 0 <= k < s.len() && (#[trigger] s[k]).contains(px, py)
}

/// Some rectangle of the collection holds all of `r`.
pub open spec fn held_by(s: Seq<Rect>, r: Rect) -> bool {
    exists|k: int| 0 <= k < s.len() && r.within(#[trigger] s[k])
}

/// Every rectangle of `inner` lies inside one of `outer`.
pub open spec fn all_held_by(inner: Seq<Rect>, outer: Seq<Rect>) -> bool {
    forall|k: int| 0 <= k < inner.len() ==> held_by(outer, #[trigger] inner[k])
}

/// The two collections cover the same pixels.
pub open spec fn same_cover(a: Seq<Rect>, b: Seq<Rect>) -> bool {
    forall|px: int, py: int| covered_by(a, px, py) <==> covered_by(b, px, py)
}

/// Sum of the pixel counts of the collection.
pub open spec fn total_used(s: Seq<Rect>) -> int
    decreases s.len(),
{
    if s.len() == 0 {
        0
    } else {
        total_used(s.drop_last()) + s.last().used_pixels
    }
}

/// A rectangle more adds what it counts.
pub proof fn lemma_total_used_push(s: Seq<Rect>, r: Rect)
    ensures
        total_used(s.push(r)) == total_used(s) + r.used_pixels,
{
    assert(s.push(r).drop_last() =~= s);
}

/// Two collections in a row count what each of them counts.
pub proof fn lemma_total_used_concat(a: Seq<Rect>, b: Seq<Rect>)
    ensures
        total_used(a + b) == total_used(a) + total_used(b),
    decreases b.len(),
{
    if b.len() == 0 {
        assert(a + b =~= a);
    } else {
        lemma_total_used_concat(a, b.drop_last());
        assert((a + b).drop_last() =~= a + b.drop_last());
    }
}

/// Any two entries of a collection count no more than the whole collection.
pub proof fn lemma_total_used_pair(s: Seq<Rect>, i: int, j: int)
    requires
        0 <= i < j < s.len(),
    ensures
        s[i].used_pixels + s[j].used_pixels <= total_used(s),
        0 <= total_used(s),
    decreases s.len(),
{
    lemma_total_used_one(s.drop_last(), i);
    if j < s.len() - 1 {
        lemma_total_used_pair(s.drop_last(), i, j);
    }
}

/// No entry counts more than the whole collection.
pub proof fn lemma_total_used_one(s: Seq<Rect>, i: int)
    requires
        0 <= i < s.len(),
    ensures
        s[i].used_pixels <= total_used(s),
        0 <= total_used(s),
    decreases s.len(),
{
    lemma_total_used_nonneg(s.drop_last());
    if i < s.len() - 1 {
        lemma_total_used_one(s.drop_last(), i);
    }
}

/// The counts sum to no less than zero.
pub proof fn lemma_total_used_nonneg(s: Seq<Rect>)
    ensures
        0 <= total_used(s),
    decreases s.len(),
{
    if s.len() > 0 {
        lemma_total_used_nonneg(s.drop_last());
    }
}

/// A pixel that a rectangle holds is held by whatever holds the rectangle.
pub proof fn lemma_held_covers(inner: Seq<Rect>, outer: Seq<Rect>, px: int, py: int)
    requires
        all_held_by(inner, outer),
        covered_by(inner, px, py),
    ensures
        covered_by(outer, px, py),
{
    let k = choose|k: int| 0 <= k < inner.len() && (#[trigger] inner[k]).contains(px, py);
    assert(held_by(outer, inner[k]));
    let m = choose|m: int| 0 <= m < outer.len() && inner[k].within(#[trigger] outer[m]);
    assert(outer[m].contains(px, py));
}

/// Putting `r` in the place of entry `k` changes the sum by the difference
/// of what the two count.
pub proof fn lemma_total_used_update(s: Seq<Rect>, k: int, r: Rect)
    requires
        0 <= k < s.len(),
    ensures
        total_used(s.update(k, r)) == total_used(s) - s[k].used_pixels + r.used_pixels,
    decreases s.len(),
{
    let u = s.update(k, r);
    if k == s.len() - 1 {
        assert(u.drop_last() =~= s.drop_last());
    } else {
        lemma_total_used_update(s.drop_last(), k, r);
        assert(u.drop_last() =~= s.drop_last().update(k, r));
    }
}

/// Moving the last entry into the place of entry `k` takes away what entry
/// `k` counts.
pub proof fn lemma_total_used_swap_remove(s: Seq<Rect>, k: int)
    requires
        0 <= k < s.len(),
    ensures
        total_used(s.update(k, s.last()).drop_last()) == total_used(s) - s[k].used_pixels,
{
    lemma_total_used_update(s, k, s.last());
}

/// Every rectangle lies inside itself.
pub proof fn lemma_all_held_by_refl(s: Seq<Rect>)
    ensures
        all_held_by(s, s),
{
    assert forall|k: int| 0 <= k < s.len() implies held_by(s, #[trigger] s[k]) by {
        assert(s[k].within(s[k]));
    }
}

/// What lies inside rectangles that lie inside others lies inside those.
pub proof fn lemma_all_held_by_trans(a: Seq<Rect>, b: Seq<Rect>, c: Seq<Rect>)
    requires
        all_held_by(a, b),
        all_held_by(b, c),
    ensures
        all_held_by(a, c),
{
    assert forall|k: int| 0 <= k < a.len() implies held_by(c, #[trigger] a[k]) by {
        assert(held_by(b, a[k]));
        let m = choose|m: int| 0 <= m < b.len() && a[k].within(#[trigger] b[m]);
        assert(held_by(c, b[m]));
        let n = choose|n: int| 0 <= n < c.len() && b[m].within(#[trigger] c[n]);
        assert(a[k].within(c[n]));
    }
}

} // verus!
