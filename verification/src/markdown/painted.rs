//! Which style each byte of a line is drawn in.

use vstd::prelude::*;

use crate::markdown::cover::tiles;
use crate::markdown::inline::recoloured;
use crate::markdown::{
    distinct_neighbours, lemma_tiles_bound, merge_push, merged, shifted, MdStyle, Styled,
};

verus! {

/// Byte `at` is drawn in `style`.
pub open spec fn paints(spans: Seq<Styled>, at: int, style: MdStyle) -> bool {
    exists|k: int|
        0 <= k < spans.len() && (#[trigger] spans[k]).start <= at < spans[k].end && spans[k].style
            == style
}

/// What two stretches side by side draw is what either draws.
pub proof fn lemma_paints_concat(s: Seq<Styled>, t: Seq<Styled>, at: int, style: MdStyle)
    ensures
        paints(s + t, at, style) <==> paints(s, at, style) || paints(t, at, style),
{
    let u = s + t;
    if paints(u, at, style) {
        let k = choose|k: int|
            0 <= k < u.len() && (#[trigger] u[k]).start <= at < u[k].end && u[k].style == style;
        if k < s.len() {
            assert(u[k] == s[k]);
        } else {
            assert(u[k] == t[k - s.len()]);
        }
    }
    if paints(s, at, style) {
        let k = choose|k: int|
            0 <= k < s.len() && (#[trigger] s[k]).start <= at < s[k].end && s[k].style == style;
        assert(u[k] == s[k]);
    }
    if paints(t, at, style) {
        let k = choose|k: int|
            0 <= k < t.len() && (#[trigger] t[k]).start <= at < t[k].end && t[k].style == style;
        assert(u[s.len() + k] == t[k]);
    }
}

/// Recolouring plain text leaves every other style where it is, and brings in
/// no style but the new one.
pub proof fn lemma_paints_recoloured(spans: Seq<Styled>, wrap: MdStyle, at: int, style: MdStyle)
    requires
        style != MdStyle::Text,
    ensures
        paints(spans, at, style) ==> paints(recoloured(spans, wrap), at, style),
        style != wrap && paints(recoloured(spans, wrap), at, style) ==> paints(spans, at, style),
{
    let u = recoloured(spans, wrap);
    if paints(spans, at, style) {
        let k = choose|k: int|
            0 <= k < spans.len() && (#[trigger] spans[k]).start <= at < spans[k].end
                && spans[k].style == style;
        assert(u[k] == spans[k]);
    }
    if style != wrap && paints(u, at, style) {
        let k = choose|k: int|
            0 <= k < u.len() && (#[trigger] u[k]).start <= at < u[k].end && u[k].style == style;
        assert(u[k] == spans[k]);
    }
}

/// Moving spans moves what they draw.
pub proof fn lemma_paints_shifted(spans: Seq<Styled>, by: int, at: int, style: MdStyle)
    ensures
        paints(shifted(spans, by), at + by, style) <==> paints(spans, at, style),
{
    let u = shifted(spans, by);
    if paints(spans, at, style) {
        let k = choose|k: int|
            0 <= k < spans.len() && (#[trigger] spans[k]).start <= at < spans[k].end
                && spans[k].style == style;
        assert(u[k].start == spans[k].start + by);
    }
    if paints(u, at + by, style) {
        let k = choose|k: int|
            0 <= k < u.len() && (#[trigger] u[k]).start <= at + by < u[k].end && u[k].style == style;
        assert(spans[k].start == u[k].start - by);
    }
}

/// A cover draws nothing outside of what it covers.
pub proof fn lemma_paints_within(spans: Seq<Styled>, lo: int, hi: int, at: int, style: MdStyle)
    requires
        tiles(spans, lo, hi),
        paints(spans, at, style),
    ensures
        lo <= at < hi,
{
    let k = choose|k: int|
        0 <= k < spans.len() && (#[trigger] spans[k]).start <= at < spans[k].end && spans[k].style
            == style;
    lemma_tiles_bound(spans, lo, hi, k);
}

/// Without its last span a cover is a cover of what comes before that span.
proof fn lemma_tiles_front(spans: Seq<Styled>, lo: int, hi: int)
    requires
        tiles(spans, lo, hi),
        spans.len() > 0,
    ensures
        tiles(spans.drop_last(), lo, spans.last().start),
{
    let front = spans.drop_last();
    assert forall|k: int, m: int| 0 <= k && m == k + 1 && m < front.len() implies (
    #[trigger] front[k]).end == (#[trigger] front[m]).start by {
        assert(front[k] == spans[k] && front[m] == spans[m]);
    }
    assert forall|k: int| 0 <= k < front.len() implies (#[trigger] front[k]).start < front[k].end by {
        assert(front[k] == spans[k]);
    }
    if front.len() > 0 {
        assert(front[0] == spans[0]);
        assert(front.last() == spans[spans.len() - 2]);
        assert(spans[spans.len() - 2].end == spans[spans.len() - 1].start);
    } else {
        assert(spans.last() == spans[0]);
    }
}

/// A span that is absorbed by its neighbour of the same style is drawn as before.
proof fn lemma_paints_merge_push(done: Seq<Styled>, last: Styled, at: int, style: MdStyle)
    requires
        last.start < last.end,
        forall|k: int| 0 <= k < done.len() ==> (#[trigger] done[k]).start < done[k].end,
    ensures
        paints(merge_push(done, last), at, style) <==> paints(done.push(last), at, style),
{
    let all = merge_push(done, last);
    let flat = done.push(last);
    let d = done.len() as int;
    if all != flat {
        assert(all.len() == d);
        assert(flat[d] == last && flat[d - 1] == done[d - 1]);
        if paints(all, at, style) {
            let k = choose|k: int|
                0 <= k < all.len() && (#[trigger] all[k]).start <= at < all[k].end && all[k].style
                    == style;
            if k < d - 1 {
                assert(flat[k] == all[k]);
            } else if at < last.start {
                assert(flat[d - 1].start <= at < flat[d - 1].end);
            } else {
                assert(flat[d].start <= at < flat[d].end);
            }
        }
        if paints(flat, at, style) {
            let k = choose|k: int|
                0 <= k < flat.len() && (#[trigger] flat[k]).start <= at < flat[k].end
                    && flat[k].style == style;
            if k < d - 1 {
                assert(all[k] == flat[k]);
            } else {
                assert(all[d - 1].start <= at < all[d - 1].end);
            }
        }
    }
}

/// Joining neighbours of one style changes no byte's style: what comes out covers
/// the same range, and draws each byte as it was drawn.
pub proof fn law_merging_keeps_every_style(spans: Seq<Styled>, lo: int, hi: int, at: int, style: MdStyle)
    requires
        tiles(spans, lo, hi),
    ensures
        tiles(merged(spans), lo, hi),
        paints(merged(spans), at, style) <==> paints(spans, at, style),
    decreases spans.len(),
{
    if spans.len() > 0 {
        let front = spans.drop_last();
        let last = spans.last();
        let mid = last.start;
        lemma_tiles_front(spans, lo, hi);
        law_merging_keeps_every_style(front, lo, mid, at, style);
        let done = merged(front);
        let all = merged(spans);
        assert(spans[spans.len() - 1].start < spans[spans.len() - 1].end);
        lemma_paints_merge_push(done, last, at, style);
        assert(spans =~= front + seq![last]);
        assert(done.push(last) =~= done + seq![last]);
        lemma_paints_concat(front, seq![last], at, style);
        lemma_paints_concat(done, seq![last], at, style);
        if done.len() > 0 && done.last().style == last.style {
            let joint = Styled { start: done.last().start, end: last.end, style: last.style };
            assert(done.last().end == mid);
            assert(all == done.drop_last().push(joint));
            assert forall|k: int| 0 <= k < all.len() implies (#[trigger] all[k]).start < all[k].end by {
                assert(done[k].start < done[k].end);
            }
            assert forall|k: int, m: int| 0 <= k && m == k + 1 && m < all.len() implies (
            #[trigger] all[k]).end == (#[trigger] all[m]).start by {
                assert(done[k].end == done[m].start);
            }
            if all.len() > 1 {
                assert(all[0] == done[0]);
            }
        } else {
            assert(all == done.push(last));
            assert forall|k: int| 0 <= k < all.len() implies (#[trigger] all[k]).start < all[k].end by {
                if k < done.len() {
                    assert(done[k].start < done[k].end);
                }
            }
            assert forall|k: int, m: int| 0 <= k && m == k + 1 && m < all.len() implies (
            #[trigger] all[k]).end == (#[trigger] all[m]).start by {
                if m < done.len() {
                    assert(done[k].end == done[m].start);
                }
            }
            if done.len() > 0 {
                assert(all[0] == done[0]);
            }
        }
    }
}

/// After joining, no two neighbours share a style.
pub proof fn law_merging_leaves_no_equal_neighbours(spans: Seq<Styled>, lo: int, hi: int)
    requires
        tiles(spans, lo, hi),
    ensures
        distinct_neighbours(merged(spans)),
    decreases spans.len(),
{
    if spans.len() > 0 {
        let front = spans.drop_last();
        let last = spans.last();
        lemma_tiles_front(spans, lo, hi);
        law_merging_leaves_no_equal_neighbours(front, lo, last.start);
        law_merging_keeps_every_style(front, lo, last.start, lo, MdStyle::Text);
        let done = merged(front);
        let all = merged(spans);
        assert forall|k: int, m: int| 0 <= k && m == k + 1 && m < all.len() implies (
        #[trigger] all[k]).style != (#[trigger] all[m]).style by {
            if m < done.len() {
                assert(done[k].style != done[m].style);
            }
        }
    }
}

/// Where no two neighbours share a style there is nothing to join.
pub proof fn lemma_nothing_to_merge(spans: Seq<Styled>)
    requires
        distinct_neighbours(spans),
    ensures
        merged(spans) == spans,
    decreases spans.len(),
{
    if spans.len() > 0 {
        let front = spans.drop_last();
        assert forall|k: int, m: int| 0 <= k && m == k + 1 && m < front.len() implies (
        #[trigger] front[k]).style != (#[trigger] front[m]).style by {
            assert(spans[k].style != spans[m].style);
        }
        lemma_nothing_to_merge(front);
        if front.len() > 0 {
            assert(spans[spans.len() - 2].style != spans[spans.len() - 1].style);
            assert(front.last() == spans[spans.len() - 2]);
        }
        assert(front.push(spans.last()) =~= spans);
    } else {
        assert(spans =~= Seq::empty());
    }
}

/// Joining a second time changes nothing.
pub proof fn law_merging_twice_is_merging_once(spans: Seq<Styled>, lo: int, hi: int)
    requires
        tiles(spans, lo, hi),
    ensures
        merged(merged(spans)) == merged(spans),
{
    law_merging_leaves_no_equal_neighbours(spans, lo, hi);
    lemma_nothing_to_merge(merged(spans));
}

/// The spans are not empty, and each starts where the one before ends.
pub open spec fn contiguous(spans: Seq<Styled>) -> bool {
    &&& forall|k: int| 0 <= k < spans.len() ==> (#[trigger] spans[k]).start < spans[k].end
    &&& forall|k: int, m: int|
        0 <= k && m == k + 1 && m < spans.len() ==> (#[trigger] spans[k]).end == (
        #[trigger] spans[m]).start
}

/// `b` draws what `a` draws with as few spans as can be: it covers the same bytes
/// without a gap, every byte has the style it had, and no two neighbours share one.
pub open spec fn joined_up(a: Seq<Styled>, b: Seq<Styled>) -> bool {
    &&& contiguous(b)
    &&& a.len() == 0 <==> b.len() == 0
    &&& a.len() > 0 ==> b[0].start == a[0].start && b.last().end == a.last().end
    &&& distinct_neighbours(b)
    &&& forall|at: int, style: MdStyle| #[trigger] paints(b, at, style) <==> paints(a, at, style)
}

/// Joining neighbours of one style draws the same with as few spans as can be, so
/// joining once more changes nothing.
pub proof fn law_merging(spans: Seq<Styled>)
    requires
        contiguous(spans),
    ensures
        joined_up(spans, merged(spans)),
        merged(merged(spans)) == merged(spans),
{
    let all = merged(spans);
    let lo = if spans.len() > 0 {
        spans[0].start
    } else {
        0
    };
    let hi = if spans.len() > 0 {
        spans.last().end
    } else {
        0
    };
    law_merging_leaves_no_equal_neighbours(spans, lo, hi);
    law_merging_twice_is_merging_once(spans, lo, hi);
    law_merging_keeps_every_style(spans, lo, hi, lo, MdStyle::Text);
    assert forall|at: int, style: MdStyle| #[trigger]
        paints(all, at, style) <==> paints(spans, at, style) by {
        law_merging_keeps_every_style(spans, lo, hi, at, style);
    }
    if spans.len() > 0 {
        if all.len() == 0 {
            assert(spans[0].start < spans[0].end);
            assert(paints(spans, lo, spans[0].style));
            assert(paints(all, lo, spans[0].style));
        }
    }
}

} // verus!
