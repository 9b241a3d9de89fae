//! What the spans of a line amount to: an exact, gapless cover.

use vstd::prelude::*;
use vstd::utf8::*;

use crate::ascii::{BACKTICK, BANG, LOWER_H, OPEN_BRACKET};
use crate::markdown::inline::{
    emphasis, emphasis_char, emphasis_style, inline_spans, lemma_emphasis, link_from, link_open, one,
    recoloured, text_span, wrapped_spans, MAX_INLINE_NEST,
};
use crate::markdown::scan::{
    autolink, exact_run, lemma_autolink, lemma_exact_run, lemma_link, lemma_run, run,
};
use crate::markdown::{MdStyle, Styled};
use crate::text::{boundary, lemma_ascii_boundary, lemma_subrange_valid};

verus! {

/// The spans run from `lo` to `hi` without gap, overlap or empty span.
pub open spec fn tiles(spans: Seq<Styled>, lo: int, hi: int) -> bool {
    &&& spans.len() == 0 ==> lo == hi
    &&& spans.len() > 0 ==> spans[0].start == lo && spans.last().end == hi
    &&& forall|k: int| 0 <= k < spans.len() ==> (#[trigger] spans[k]).start < spans[k].end
    &&& forall|k: int, m: int|
        0 <= k && m == k + 1 && m < spans.len() ==> (#[trigger] spans[k]).end == (
        #[trigger] spans[m]).start
}

/// Every span of text `b`, which starts at `base`, begins and ends between two
/// characters.
pub open spec fn on_boundaries(spans: Seq<Styled>, b: Seq<u8>, base: int) -> bool {
    forall|k: int|
        0 <= k < spans.len() ==> boundary(b, (#[trigger] spans[k]).start - base) && boundary(
            b,
            spans[k].end - base,
        )
}

/// A cover of bytes `lo..hi` of `b`, which starts at `base`.
pub open spec fn covers_range(spans: Seq<Styled>, b: Seq<u8>, base: int, lo: int, hi: int) -> bool {
    tiles(spans, base + lo, base + hi) && on_boundaries(spans, b, base)
}

/// Two covers side by side are a cover.
pub proof fn lemma_join(
    s: Seq<Styled>,
    t: Seq<Styled>,
    b: Seq<u8>,
    base: int,
    lo: int,
    mid: int,
    hi: int,
)
    requires
        covers_range(s, b, base, lo, mid),
        covers_range(t, b, base, mid, hi),
    ensures
        covers_range(s + t, b, base, lo, hi),
{
    let u = s + t;
    assert forall|k: int, m: int| 0 <= k && m == k + 1 && m < u.len() implies (#[trigger] u[k]).end == (
    #[trigger] u[m]).start by {
        if m < s.len() {
            assert(u[k] == s[k] && u[m] == s[m]);
        } else if k >= s.len() {
            assert(u[k] == t[k - s.len()] && u[m] == t[m - s.len()]);
        } else {
            assert(u[k] == s.last());
            assert(u[m] == t[0]);
        }
    }
    assert forall|k: int| 0 <= k < u.len() implies (#[trigger] u[k]).start < u[k].end && boundary(
        b,
        u[k].start - base,
    ) && boundary(b, u[k].end - base) by {
        if k < s.len() {
            assert(u[k] == s[k]);
        } else {
            assert(u[k] == t[k - s.len()]);
        }
    }
    if s.len() > 0 && t.len() > 0 {
        assert(u[0] == s[0]);
        assert(u.last() == t.last());
    } else if s.len() > 0 {
        assert(u =~= s);
    } else {
        assert(u =~= t);
    }
}

/// A single nonempty span covers what it spans.
pub proof fn lemma_one(b: Seq<u8>, base: int, from: int, to: int, style: MdStyle)
    requires
        from < to,
        boundary(b, from),
        boundary(b, to),
    ensures
        covers_range(one(base, from, to, style), b, base, from, to),
{
}

/// Plain text covers what it spans, even where that is nothing.
pub proof fn lemma_text(b: Seq<u8>, base: int, from: int, to: int)
    requires
        from <= to,
        boundary(b, from),
        boundary(b, to),
    ensures
        covers_range(text_span(base, from, to), b, base, from, to),
{
}

/// Recolouring moves no edge.
pub proof fn lemma_recoloured(spans: Seq<Styled>, wrap: MdStyle, b: Seq<u8>, base: int, lo: int, hi: int)
    requires
        covers_range(spans, b, base, lo, hi),
    ensures
        covers_range(recoloured(spans, wrap), b, base, lo, hi),
{
    let u = recoloured(spans, wrap);
    assert forall|k: int| 0 <= k < u.len() implies (#[trigger] u[k]).start == spans[k].start && u[k].end
        == spans[k].end by {}
}

/// A cover of a slice is a cover of that part of the whole.
pub proof fn lemma_widen(spans: Seq<Styled>, b: Seq<u8>, base: int, from: int, to: int)
    requires
        0 <= from <= to,
        boundary(b, from),
        boundary(b, to),
        covers_range(spans, b.subrange(from, to), base + from, 0, to - from),
    ensures
        covers_range(spans, b, base, from, to),
{
    let inner = b.subrange(from, to);
    assert forall|k: int| 0 <= k < spans.len() implies boundary(
        b,
        (#[trigger] spans[k]).start - base,
    ) && boundary(b, spans[k].end - base) by {
        let p = spans[k].start - base - from;
        let q = spans[k].end - base - from;
        assert(boundary(inner, p) && boundary(inner, q));
        if p < to - from {
            assert(inner[p] == b[from + p]);
        }
        if q < to - from {
            assert(inner[q] == b[from + q]);
        }
    }
}

/// Inside markup, the spans still cover everything.
pub proof fn lemma_wrapped_covers(b: Seq<u8>, base: int, wrap: MdStyle, depth: int)
    requires
        valid_utf8(b),
        b.len() > 0,
    ensures
        covers_range(wrapped_spans(b, base, wrap, depth), b, base, 0, b.len() as int),
    decreases b.len(), b.len() + 1,
{
    crate::text::lemma_first_byte(b);
    if depth >= MAX_INLINE_NEST {
        lemma_one(b, base, 0, b.len() as int, wrap);
    } else {
        lemma_inline_covers(b, base, depth + 1, 0, 0);
        lemma_recoloured(
            inline_spans(b, base, depth + 1, 0, 0),
            wrap,
            b,
            base,
            0,
            b.len() as int,
        );
    }
}

/// Markup inside a piece of `b` covers that piece.
proof fn lemma_wrapped_piece(b: Seq<u8>, base: int, from: int, to: int, wrap: MdStyle, depth: int)
    requires
        valid_utf8(b),
        0 <= from < to <= b.len(),
        to - from < b.len(),
        boundary(b, from),
        boundary(b, to),
    ensures
        covers_range(wrapped_spans(b.subrange(from, to), base + from, wrap, depth), b, base, from, to),
    decreases b.len(), 0int,
{
    let inner = b.subrange(from, to);
    lemma_subrange_valid(b, from, to);
    lemma_wrapped_covers(inner, base + from, wrap, depth);
    lemma_widen(wrapped_spans(inner, base + from, wrap, depth), b, base, from, to);
}

/// The scanner's spans cover the text from `text_start` to its end.
pub proof fn lemma_inline_covers(b: Seq<u8>, base: int, depth: int, i: int, text_start: int)
    requires
        valid_utf8(b),
        0 <= text_start <= i <= b.len(),
        boundary(b, text_start),
    ensures
        covers_range(
            inline_spans(b, base, depth, i, text_start),
            b,
            base,
            text_start,
            b.len() as int,
        ),
    decreases b.len(), b.len() - i,
{
    let n = b.len() as int;
    if i >= n {
        lemma_text(b, base, text_start, n);
    } else if b[i] == BACKTICK {
        let r = run(b, i, BACKTICK) as int;
        lemma_run(b, i, BACKTICK);
        match exact_run(b, i + r, BACKTICK, r as nat) {
            Some(j) => {
                lemma_exact_run(b, i + r, BACKTICK, r as nat);
                lemma_run(b, j, BACKTICK);
                lemma_ascii_boundary(b, i);
                lemma_ascii_boundary(b, j + r - 1);
                lemma_text(b, base, text_start, i);
                lemma_one(b, base, i, j + r, MdStyle::Code);
                lemma_inline_covers(b, base, depth, j + r, j + r);
                let s = text_span(base, text_start, i);
                let t = one(base, i, j + r, MdStyle::Code);
                lemma_join(s, t, b, base, text_start, i, j + r);
                lemma_join(
                    s + t,
                    inline_spans(b, base, depth, j + r, j + r),
                    b,
                    base,
                    text_start,
                    j + r,
                    n,
                );
            },
            None => lemma_inline_covers(b, base, depth, i + r, text_start),
        }
    } else if emphasis_char(b[i]) {
        lemma_run(b, i, b[i]);
        match emphasis(b, i) {
            Some((need, j)) => {
                lemma_emphasis(b, i);
                lemma_run(b, j, b[i]);
                lemma_ascii_boundary(b, i);
                lemma_ascii_boundary(b, i + need - 1);
                lemma_ascii_boundary(b, j);
                lemma_ascii_boundary(b, j + need - 1);
                let style = emphasis_style(b[i], need);
                let s = text_span(base, text_start, i);
                let t = one(base, i, i + need, MdStyle::Marker);
                let u = wrapped_spans(b.subrange(i + need, j), base + i + need, style, depth);
                let v = one(base, j, j + need, MdStyle::Marker);
                lemma_text(b, base, text_start, i);
                lemma_one(b, base, i, i + need, MdStyle::Marker);
                lemma_wrapped_piece(b, base, i + need, j, style, depth);
                lemma_one(b, base, j, j + need, MdStyle::Marker);
                lemma_inline_covers(b, base, depth, j + need, j + need);
                lemma_join(s, t, b, base, text_start, i, i + need);
                lemma_join(s + t, u, b, base, text_start, i + need, j);
                lemma_join(s + t + u, v, b, base, text_start, j, j + need);
                lemma_join(
                    s + t + u + v,
                    inline_spans(b, base, depth, j + need, j + need),
                    b,
                    base,
                    text_start,
                    j + need,
                    n,
                );
            },
            None => lemma_inline_covers(b, base, depth, i + run(b, i, b[i]), text_start),
        }
    } else if b[i] == BANG || b[i] == OPEN_BRACKET {
        match link_from(b, i) {
            Some((rb, rp)) => lemma_link_covers(b, base, depth, i, text_start, rb, rp),
            None => lemma_inline_covers(b, base, depth, i + 1, text_start),
        }
    } else if b[i] == LOWER_H {
        match autolink(b, i) {
            Some(end) => {
                lemma_autolink(b, i);
                lemma_ascii_boundary(b, i);
                let s = text_span(base, text_start, i);
                let t = one(base, i, end, MdStyle::LinkUrl);
                lemma_text(b, base, text_start, i);
                lemma_one(b, base, i, end, MdStyle::LinkUrl);
                lemma_inline_covers(b, base, depth, end, end);
                lemma_join(s, t, b, base, text_start, i, end);
                lemma_join(
                    s + t,
                    inline_spans(b, base, depth, end, end),
                    b,
                    base,
                    text_start,
                    end,
                    n,
                );
            },
            None => lemma_inline_covers(b, base, depth, i + 1, text_start),
        }
    } else {
        lemma_inline_covers(b, base, depth, i + 1, text_start);
    }
}

/// The same at a link or image.
proof fn lemma_link_covers(
    b: Seq<u8>,
    base: int,
    depth: int,
    i: int,
    text_start: int,
    rb: int,
    rp: int,
)
    requires
        valid_utf8(b),
        0 <= text_start <= i < b.len(),
        boundary(b, text_start),
        b[i] == BANG || b[i] == OPEN_BRACKET,
        link_from(b, i) == Some((rb, rp)),
    ensures
        covers_range(
            inline_spans(b, base, depth, i, text_start),
            b,
            base,
            text_start,
            b.len() as int,
        ),
    decreases b.len(), b.len() - i - 1,
{
    let n = b.len() as int;
    let open = link_open(b, i);
    lemma_link(b, open);
    lemma_ascii_boundary(b, i);
    lemma_ascii_boundary(b, open);
    lemma_ascii_boundary(b, rb);
    lemma_ascii_boundary(b, rb + 1);
    lemma_ascii_boundary(b, rp);
    let s = text_span(base, text_start, i);
    let t = one(base, i, open + 1, MdStyle::Marker);
    let u = if rb > open + 1 {
        wrapped_spans(b.subrange(open + 1, rb), base + open + 1, MdStyle::LinkText, depth)
    } else {
        Seq::empty()
    };
    let v = one(base, rb, rb + 2, MdStyle::Marker);
    let w = if rp > rb + 2 {
        one(base, rb + 2, rp, MdStyle::Marker)
    } else {
        Seq::empty()
    };
    let x = one(base, rp, rp + 1, MdStyle::Marker);
    let rest = inline_spans(b, base, depth, rp + 1, rp + 1);
    lemma_text(b, base, text_start, i);
    lemma_one(b, base, i, open + 1, MdStyle::Marker);
    if rb > open + 1 {
        lemma_wrapped_piece(b, base, open + 1, rb, MdStyle::LinkText, depth);
    }
    lemma_one(b, base, rb, rb + 2, MdStyle::Marker);
    if rp > rb + 2 {
        lemma_one(b, base, rb + 2, rp, MdStyle::Marker);
    }
    lemma_one(b, base, rp, rp + 1, MdStyle::Marker);
    lemma_inline_covers(b, base, depth, rp + 1, rp + 1);
    lemma_join(s, t, b, base, text_start, i, open + 1);
    lemma_join(s + t, u, b, base, text_start, open + 1, rb);
    lemma_join(s + t + u, v, b, base, text_start, rb, rb + 2);
    lemma_join(s + t + u + v, w, b, base, text_start, rb + 2, rp);
    lemma_join(s + t + u + v + w, x, b, base, text_start, rp, rp + 1);
    lemma_join(s + t + u + v + w + x, rest, b, base, text_start, rp + 1, n);
}

} // verus!
