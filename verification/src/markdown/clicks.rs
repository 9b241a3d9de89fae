//! What is drawn as a link, and what a click on it opens, are the same thing.

use vstd::prelude::*;
use vstd::utf8::*;

use crate::ascii::{
    BACKTICK, BANG, CLOSE_BRACKET, CLOSE_PAREN, HASH, LOWER_H, OPEN_BRACKET, OPEN_PAREN, SPACE,
};
use crate::markdown::cover::{lemma_inline_covers, lemma_wrapped_covers};
use crate::markdown::inline::{
    emphasis, emphasis_char, emphasis_style, inline_spans, lemma_emphasis, link_from, link_open, one,
    recoloured, text_span, wrapped_spans, MAX_INLINE_NEST,
};
use crate::markdown::links::{
    address, inline_target, lemma_before_line, lemma_target_before, list_target, target, wrapped_target,
};
use crate::markdown::painted::{
    law_merging_keeps_every_style, lemma_paints_concat, lemma_paints_recoloured,
    lemma_paints_shifted, lemma_paints_within, paints,
};
use crate::markdown::scan::{
    autolink, exact_run, lemma_autolink, lemma_exact_run, lemma_link, lemma_run, run,
};
use crate::markdown::{
    built, fence, heading, lead, lemma_built_covers, lemma_line_covers, lemma_list, lemma_quote,
    line_spans, list, list_spans, merged, quote, separator, shifted, struck, task, MdStyle, Styled,
};
use crate::text::{boundary, lemma_ascii_boundary, lemma_first_byte, lemma_subrange_valid};

verus! {

/// Byte `at` is drawn as a link.
pub open spec fn reads_as_link(spans: Seq<Styled>, at: int) -> bool {
    paints(spans, at, MdStyle::LinkText) || paints(spans, at, MdStyle::LinkUrl)
}

/// `lo..hi` of `b`, which starts at `base`, is a bare url around `at`, drawn as
/// one from end to end, and `u` is that url.
pub open spec fn bare_url(
    b: Seq<u8>,
    base: int,
    spans: Seq<Styled>,
    at: int,
    u: Seq<u8>,
    lo: int,
    hi: int,
) -> bool {
    &&& 0 <= lo <= at < hi <= b.len()
    &&& u == b.subrange(lo, hi)
    &&& forall|k: int| lo <= k < hi ==> #[trigger] paints(spans, base + k, MdStyle::LinkUrl)
}

/// `lo..=rp` of `b` is a `[text](url)` around `at`, its brackets drawn as markup,
/// and `u` is its url.
pub open spec fn bracketed_url(
    b: Seq<u8>,
    base: int,
    spans: Seq<Styled>,
    at: int,
    u: Seq<u8>,
    lo: int,
    rb: int,
    rp: int,
) -> bool {
    &&& 0 <= lo <= at <= rp < b.len()
    &&& lo < rb < rp - 1
    &&& b[lo] == OPEN_BRACKET
    &&& b[rb] == CLOSE_BRACKET
    &&& b[rb + 1] == OPEN_PAREN
    &&& b[rp] == CLOSE_PAREN
    &&& u == address(b, rb, rp)
    &&& paints(spans, base + lo, MdStyle::Marker)
    &&& paints(spans, base + rb, MdStyle::Marker)
    &&& paints(spans, base + rp, MdStyle::Marker)
}

/// Byte `at` of `b` is part of a link that is drawn as one and goes to `u`.
pub open spec fn leads_to(b: Seq<u8>, base: int, spans: Seq<Styled>, at: int, u: Seq<u8>) -> bool {
    &&& u.len() > 0
    &&& (exists|lo: int, hi: int| #[trigger] bare_url(b, base, spans, at, u, lo, hi)) || (exists|
        lo: int,
        rb: int,
        rp: int,
    | #[trigger] bracketed_url(b, base, spans, at, u, lo, rb, rp))
}

/// `lo..=rp` of `b` is a `[text]()` whose text `at` is in.
pub open spec fn bracketed_nothing(b: Seq<u8>, at: int, lo: int, rb: int, rp: int) -> bool {
    &&& 0 <= lo < at < rb
    &&& rb + 1 < rp < b.len()
    &&& b[lo] == OPEN_BRACKET
    &&& b[rb] == CLOSE_BRACKET
    &&& b[rb + 1] == OPEN_PAREN
    &&& b[rp] == CLOSE_PAREN
    &&& address(b, rb, rp).len() == 0
}

/// Byte `at` of `b` is in the text of a link that has no address.
pub open spec fn leads_nowhere(b: Seq<u8>, at: int) -> bool {
    exists|lo: int, rb: int, rp: int| #[trigger] bracketed_nothing(b, at, lo, rb, rp)
}

/// The two halves of the law, for a stretch of a line whose clicks open `t`.
spec fn agrees(b: Seq<u8>, base: int, spans: Seq<Styled>, at: int, t: Option<Seq<u8>>) -> bool {
    &&& reads_as_link(spans, base + at) ==> t is Some || leads_nowhere(b, at)
    &&& t is Some ==> leads_to(b, base, spans, at, t->0)
}

/// Spans that draw all that `s` draws of urls and markup lead where `s` does.
proof fn lemma_leads_on(
    b: Seq<u8>,
    base: int,
    s: Seq<Styled>,
    t: Seq<Styled>,
    at: int,
    u: Seq<u8>,
)
    requires
        leads_to(b, base, s, at, u),
        forall|p: int|
            #![trigger paints(t, p, MdStyle::LinkUrl)]
            paints(s, p, MdStyle::LinkUrl) ==> paints(t, p, MdStyle::LinkUrl),
        forall|p: int|
            #![trigger paints(t, p, MdStyle::Marker)]
            paints(s, p, MdStyle::Marker) ==> paints(t, p, MdStyle::Marker),
    ensures
        leads_to(b, base, t, at, u),
{
    if exists|lo: int, hi: int| #[trigger] bare_url(b, base, s, at, u, lo, hi) {
        let (lo, hi) = choose|lo: int, hi: int| #[trigger] bare_url(b, base, s, at, u, lo, hi);
        assert forall|k: int| lo <= k < hi implies #[trigger] paints(t, base + k, MdStyle::LinkUrl) by {
            assert(paints(s, base + k, MdStyle::LinkUrl));
        }
        assert(bare_url(b, base, t, at, u, lo, hi));
    } else {
        let (lo, rb, rp) = choose|lo: int, rb: int, rp: int| #[trigger]
            bracketed_url(b, base, s, at, u, lo, rb, rp);
        assert(bracketed_url(b, base, t, at, u, lo, rb, rp));
    }
}

proof fn lemma_leads_concat(
    b: Seq<u8>,
    base: int,
    s: Seq<Styled>,
    t: Seq<Styled>,
    at: int,
    u: Seq<u8>,
)
    requires
        leads_to(b, base, s, at, u) || leads_to(b, base, t, at, u),
    ensures
        leads_to(b, base, s + t, at, u),
{
    assert forall|p: int, style: MdStyle| paints(s, p, style) || paints(t, p, style) implies
        #[trigger] paints(s + t, p, style) by {
        lemma_paints_concat(s, t, p, style);
    }
    if leads_to(b, base, s, at, u) {
        lemma_leads_on(b, base, s, s + t, at, u);
    } else {
        lemma_leads_on(b, base, t, s + t, at, u);
    }
}

/// What a slice of `b` leads to, that part of `b` leads to.
proof fn lemma_agrees_widened(
    b: Seq<u8>,
    base: int,
    spans: Seq<Styled>,
    from: int,
    to: int,
    at: int,
    t: Option<Seq<u8>>,
)
    requires
        0 <= from <= at < to <= b.len(),
        agrees(b.subrange(from, to), base + from, spans, at - from, t),
    ensures
        agrees(b, base, spans, at, t),
{
    let c = b.subrange(from, to);
    if leads_nowhere(c, at - from) {
        let (lo, rb, rp) = choose|lo: int, rb: int, rp: int| #[trigger]
            bracketed_nothing(c, at - from, lo, rb, rp);
        assert(c.subrange(rb + 2, rp) =~= b.subrange(rb + from + 2, rp + from));
        assert(bracketed_nothing(b, at, lo + from, rb + from, rp + from));
    }
    if t is Some {
        let u = t->0;
        if exists|lo: int, hi: int| #[trigger]
            bare_url(c, base + from, spans, at - from, u, lo, hi) {
            let (lo, hi) = choose|lo: int, hi: int| #[trigger]
                bare_url(c, base + from, spans, at - from, u, lo, hi);
            assert(c.subrange(lo, hi) =~= b.subrange(lo + from, hi + from));
            assert forall|k: int| lo + from <= k < hi + from implies #[trigger] paints(
                spans,
                base + k,
                MdStyle::LinkUrl,
            ) by {
                assert(paints(spans, base + from + (k - from), MdStyle::LinkUrl));
            }
            assert(bare_url(b, base, spans, at, u, lo + from, hi + from));
        } else {
            let (lo, rb, rp) = choose|lo: int, rb: int, rp: int| #[trigger]
                bracketed_url(c, base + from, spans, at - from, u, lo, rb, rp);
            assert(c.subrange(rb + 2, rp) =~= b.subrange(rb + from + 2, rp + from));
            assert(bracketed_url(b, base, spans, at, u, lo + from, rb + from, rp + from));
        }
    }
}

/// Recolouring plain text to no link's colour keeps the agreement.
proof fn lemma_agrees_recoloured(
    b: Seq<u8>,
    base: int,
    spans: Seq<Styled>,
    wrap: MdStyle,
    at: int,
    t: Option<Seq<u8>>,
)
    requires
        wrap != MdStyle::LinkText,
        wrap != MdStyle::LinkUrl,
        agrees(b, base, spans, at, t),
    ensures
        agrees(b, base, recoloured(spans, wrap), at, t),
{
    lemma_paints_recoloured(spans, wrap, base + at, MdStyle::LinkText);
    lemma_paints_recoloured(spans, wrap, base + at, MdStyle::LinkUrl);
    if t is Some {
        assert forall|p: int| paints(spans, p, MdStyle::LinkUrl) implies #[trigger] paints(
            recoloured(spans, wrap),
            p,
            MdStyle::LinkUrl,
        ) by {
            lemma_paints_recoloured(spans, wrap, p, MdStyle::LinkUrl);
        }
        assert forall|p: int| paints(spans, p, MdStyle::Marker) implies #[trigger] paints(
            recoloured(spans, wrap),
            p,
            MdStyle::Marker,
        ) by {
            lemma_paints_recoloured(spans, wrap, p, MdStyle::Marker);
        }
        lemma_leads_on(b, base, spans, recoloured(spans, wrap), at, t->0);
    }
}

/// A stretch that is drawn without links, in front of one that agrees.
proof fn lemma_agrees_behind(
    b: Seq<u8>,
    base: int,
    s: Seq<Styled>,
    rest: Seq<Styled>,
    at: int,
    t: Option<Seq<u8>>,
)
    requires
        !reads_as_link(s, base + at),
        agrees(b, base, rest, at, t),
    ensures
        agrees(b, base, s + rest, at, t),
{
    lemma_paints_concat(s, rest, base + at, MdStyle::LinkText);
    lemma_paints_concat(s, rest, base + at, MdStyle::LinkUrl);
    if t is Some {
        lemma_leads_concat(b, base, s, rest, at, t->0);
    }
}

/// A stretch that agrees, in front of one that is drawn without links.
proof fn lemma_agrees_before(
    b: Seq<u8>,
    base: int,
    s: Seq<Styled>,
    rest: Seq<Styled>,
    at: int,
    t: Option<Seq<u8>>,
)
    requires
        !reads_as_link(rest, base + at),
        agrees(b, base, s, at, t),
    ensures
        agrees(b, base, s + rest, at, t),
{
    lemma_paints_concat(s, rest, base + at, MdStyle::LinkText);
    lemma_paints_concat(s, rest, base + at, MdStyle::LinkUrl);
    if t is Some {
        lemma_leads_concat(b, base, s, rest, at, t->0);
    }
}

/// The scanner's spans from `text_start` on draw nothing as a link before that.
proof fn lemma_nothing_before(
    b: Seq<u8>,
    base: int,
    depth: int,
    i: int,
    text_start: int,
    at: int,
)
    requires
        valid_utf8(b),
        0 <= text_start <= i <= b.len(),
        boundary(b, text_start),
        at < text_start,
    ensures
        !reads_as_link(inline_spans(b, base, depth, i, text_start), base + at),
{
    let s = inline_spans(b, base, depth, i, text_start);
    lemma_inline_covers(b, base, depth, i, text_start);
    if paints(s, base + at, MdStyle::LinkText) {
        lemma_paints_within(s, base + text_start, base + b.len(), base + at, MdStyle::LinkText);
    }
    if paints(s, base + at, MdStyle::LinkUrl) {
        lemma_paints_within(s, base + text_start, base + b.len(), base + at, MdStyle::LinkUrl);
    }
}

/// Markup inside `from..to` draws nothing as a link outside of it.
proof fn lemma_nothing_beside(
    b: Seq<u8>,
    base: int,
    wrap: MdStyle,
    depth: int,
    from: int,
    to: int,
    at: int,
)
    requires
        valid_utf8(b),
        0 <= from < to <= b.len(),
        boundary(b, from),
        boundary(b, to),
        !(from <= at < to),
    ensures
        !reads_as_link(wrapped_spans(b.subrange(from, to), base + from, wrap, depth), base + at),
{
    let c = b.subrange(from, to);
    let s = wrapped_spans(c, base + from, wrap, depth);
    lemma_subrange_valid(b, from, to);
    lemma_wrapped_covers(c, base + from, wrap, depth);
    if paints(s, base + at, MdStyle::LinkText) {
        lemma_paints_within(s, base + from, base + to, base + at, MdStyle::LinkText);
    }
    if paints(s, base + at, MdStyle::LinkUrl) {
        lemma_paints_within(s, base + from, base + to, base + at, MdStyle::LinkUrl);
    }
}

/// Inside markup that is no link's text.
proof fn lemma_wrapped_agrees(b: Seq<u8>, base: int, wrap: MdStyle, depth: int, at: int)
    requires
        valid_utf8(b),
        0 <= at < b.len(),
        wrap != MdStyle::LinkText,
        wrap != MdStyle::LinkUrl,
    ensures
        agrees(b, base, wrapped_spans(b, base, wrap, depth), at, wrapped_target(b, depth, at)),
    decreases b.len(), b.len() + 1, 0int,
{
    let s = wrapped_spans(b, base, wrap, depth);
    if depth < MAX_INLINE_NEST {
        lemma_first_byte(b);
        lemma_inline_agrees(b, base, depth + 1, 0, 0, at);
        lemma_agrees_recoloured(
            b,
            base,
            inline_spans(b, base, depth + 1, 0, 0),
            wrap,
            at,
            inline_target(b, depth + 1, 0, at),
        );
    } else {
        assert(s =~= one(base, 0, b.len() as int, wrap));
        assert(wrapped_target(b, depth, at) is None);
    }
}

/// At emphasis that opens at `i`.
proof fn lemma_emphasis_agrees(
    b: Seq<u8>,
    base: int,
    depth: int,
    i: int,
    text_start: int,
    need: int,
    j: int,
    at: int,
)
    requires
        valid_utf8(b),
        0 <= text_start <= i < b.len(),
        boundary(b, text_start),
        0 <= at < b.len(),
        b[i] != BACKTICK,
        emphasis_char(b[i]),
        emphasis(b, i) == Some((need, j)),
    ensures
        agrees(
            b,
            base,
            inline_spans(b, base, depth, i, text_start),
            at,
            inline_target(b, depth, i, at),
        ),
    decreases b.len(), b.len() - i, 0int,
{
    lemma_emphasis(b, i);
    lemma_run(b, i, b[i]);
    lemma_run(b, j, b[i]);
    lemma_ascii_boundary(b, i + need - 1);
    lemma_ascii_boundary(b, j);
    lemma_ascii_boundary(b, j + need - 1);
    let from = i + need;
    let inner = b.subrange(from, j);
    let style = emphasis_style(b[i], need);
    let s = text_span(base, text_start, i);
    let m = one(base, i, from, MdStyle::Marker);
    let w = wrapped_spans(inner, base + i + need, style, depth);
    let v = one(base, j, j + need, MdStyle::Marker);
    let rest = inline_spans(b, base, depth, j + need, j + need);
    let all = inline_spans(b, base, depth, i, text_start);
    assert(all == s + m + w + v + rest);
    let t = inline_target(b, depth, i, at);
    lemma_paints_concat(s, m, base + at, MdStyle::LinkText);
    lemma_paints_concat(s, m, base + at, MdStyle::LinkUrl);
    assert(base + i + need == base + from);
    if from <= at < j {
        lemma_subrange_valid(b, from, j);
        lemma_wrapped_agrees(inner, base + from, style, depth, at - from);
        assert(t == wrapped_target(inner, depth, at - from));
        lemma_agrees_widened(b, base, w, from, j, at, t);
        lemma_agrees_behind(b, base, s + m, w, at, t);
        lemma_agrees_before(b, base, s + m + w, v, at, t);
        lemma_nothing_before(b, base, depth, j + need, j + need, at);
        lemma_agrees_before(b, base, s + m + w + v, rest, at, t);
    } else {
        lemma_nothing_beside(b, base, style, depth, from, j, at);
        lemma_inline_agrees(b, base, depth, j + need, j + need, at);
        lemma_paints_concat(s + m, w, base + at, MdStyle::LinkText);
        lemma_paints_concat(s + m, w, base + at, MdStyle::LinkUrl);
        lemma_paints_concat(s + m + w, v, base + at, MdStyle::LinkText);
        lemma_paints_concat(s + m + w, v, base + at, MdStyle::LinkUrl);
        lemma_agrees_behind(b, base, s + m + w + v, rest, at, t);
    }
}

/// At a link or image that starts at `i`.
proof fn lemma_link_agrees(
    b: Seq<u8>,
    base: int,
    depth: int,
    i: int,
    text_start: int,
    rb: int,
    rp: int,
    at: int,
)
    requires
        valid_utf8(b),
        0 <= text_start <= i < b.len(),
        boundary(b, text_start),
        0 <= at < b.len(),
        b[i] == BANG || b[i] == OPEN_BRACKET,
        link_from(b, i) == Some((rb, rp)),
    ensures
        agrees(
            b,
            base,
            inline_spans(b, base, depth, i, text_start),
            at,
            inline_target(b, depth, i, at),
        ),
    decreases b.len(), b.len() - i, 0int,
{
    let open = link_open(b, i);
    lemma_link(b, open);
    lemma_ascii_boundary(b, open);
    lemma_ascii_boundary(b, rb);
    lemma_ascii_boundary(b, rp);
    let s = text_span(base, text_start, i);
    let m = one(base, i, open + 1, MdStyle::Marker);
    let w = if rb > open + 1 {
        wrapped_spans(b.subrange(open + 1, rb), base + open + 1, MdStyle::LinkText, depth)
    } else {
        Seq::empty()
    };
    let x = one(base, rb, rb + 2, MdStyle::Marker);
    let y = if rp > rb + 2 {
        one(base, rb + 2, rp, MdStyle::Marker)
    } else {
        Seq::empty()
    };
    let z = one(base, rp, rp + 1, MdStyle::Marker);
    let rest = inline_spans(b, base, depth, rp + 1, rp + 1);
    let all = inline_spans(b, base, depth, i, text_start);
    assert(all == s + m + w + x + y + z + rest);
    let t = inline_target(b, depth, i, at);
    let u = address(b, rb, rp);
    assert forall|p: int, style: MdStyle| #[trigger] paints(all, p, style) <==> paints(s, p, style)
        || paints(m, p, style) || paints(w, p, style) || paints(x, p, style) || paints(y, p, style)
        || paints(z, p, style) || paints(rest, p, style) by {
        lemma_paints_concat(s, m, p, style);
        lemma_paints_concat(s + m, w, p, style);
        lemma_paints_concat(s + m + w, x, p, style);
        lemma_paints_concat(s + m + w + x, y, p, style);
        lemma_paints_concat(s + m + w + x + y, z, p, style);
        lemma_paints_concat(s + m + w + x + y + z, rest, p, style);
    }
    assert(m[0].start <= base + open < m[0].end);
    assert(x[0].start <= base + rb < x[0].end);
    assert(z[0].start <= base + rp < z[0].end);
    assert(paints(all, base + open, MdStyle::Marker));
    assert(paints(all, base + rb, MdStyle::Marker));
    assert(paints(all, base + rp, MdStyle::Marker));
    if rb > open + 1 && !(open + 1 <= at < rb) {
        lemma_nothing_beside(b, base, MdStyle::LinkText, depth, open + 1, rb, at);
        assert(base + (open + 1) == base + open + 1);
    }
    if open <= at <= rp {
        lemma_nothing_before(b, base, depth, rp + 1, rp + 1, at);
        if u.len() > 0 {
            assert(t == Some(u));
            assert(bracketed_url(b, base, all, at, u, open, rb, rp));
        } else {
            lemma_target_before(b, depth, rp + 1, at);
            assert(t is None);
            if open < at < rb {
                assert(bracketed_nothing(b, at, open, rb, rp));
            }
        }
    } else {
        lemma_inline_agrees(b, base, depth, rp + 1, rp + 1, at);
        assert(t == inline_target(b, depth, rp + 1, at));
        assert(!reads_as_link(s + m + w + x + y + z, base + at)) by {
            lemma_paints_parts(s, m, w, x, y, z, base + at, MdStyle::LinkText);
            lemma_paints_parts(s, m, w, x, y, z, base + at, MdStyle::LinkUrl);
        }
        lemma_agrees_behind(b, base, s + m + w + x + y + z, rest, at, t);
    }
}

/// What the six parts of a link draw.
proof fn lemma_paints_parts(
    s: Seq<Styled>,
    m: Seq<Styled>,
    w: Seq<Styled>,
    x: Seq<Styled>,
    y: Seq<Styled>,
    z: Seq<Styled>,
    p: int,
    style: MdStyle,
)
    ensures
        paints(s + m + w + x + y + z, p, style) <==> paints(s, p, style) || paints(m, p, style)
            || paints(w, p, style) || paints(x, p, style) || paints(y, p, style) || paints(
            z,
            p,
            style,
        ),
{
    lemma_paints_concat(s, m, p, style);
    lemma_paints_concat(s + m, w, p, style);
    lemma_paints_concat(s + m + w, x, p, style);
    lemma_paints_concat(s + m + w + x, y, p, style);
    lemma_paints_concat(s + m + w + x + y, z, p, style);
}

/// At a bare url that starts at `i`.
proof fn lemma_url_agrees(
    b: Seq<u8>,
    base: int,
    depth: int,
    i: int,
    text_start: int,
    end: int,
    at: int,
)
    requires
        valid_utf8(b),
        0 <= text_start <= i < b.len(),
        boundary(b, text_start),
        0 <= at < b.len(),
        b[i] == LOWER_H,
        autolink(b, i) == Some(end),
    ensures
        agrees(
            b,
            base,
            inline_spans(b, base, depth, i, text_start),
            at,
            inline_target(b, depth, i, at),
        ),
    decreases b.len(), b.len() - i, 0int,
{
    lemma_autolink(b, i);
    let s = text_span(base, text_start, i);
    let m = one(base, i, end, MdStyle::LinkUrl);
    let rest = inline_spans(b, base, depth, end, end);
    let all = inline_spans(b, base, depth, i, text_start);
    assert(all == s + m + rest);
    let t = inline_target(b, depth, i, at);
    lemma_paints_concat(s, m, base + at, MdStyle::LinkText);
    lemma_paints_concat(s, m, base + at, MdStyle::LinkUrl);
    if i <= at < end {
        let u = b.subrange(i, end);
        assert(t == Some(u));
        assert forall|k: int| i <= k < end implies #[trigger] paints(
            s + m,
            base + k,
            MdStyle::LinkUrl,
        ) by {
            assert(m[0].start <= base + k < m[0].end);
            lemma_paints_concat(s, m, base + k, MdStyle::LinkUrl);
        }
        assert(bare_url(b, base, s + m, at, u, i, end));
        assert(u.len() == end - i);
        assert(leads_to(b, base, s + m, at, u));
        lemma_nothing_before(b, base, depth, end, end, at);
        lemma_agrees_before(b, base, s + m, rest, at, t);
    } else {
        lemma_inline_agrees(b, base, depth, end, end, at);
        lemma_agrees_behind(b, base, s + m, rest, at, t);
    }
}

/// In running text.
proof fn lemma_inline_agrees(
    b: Seq<u8>,
    base: int,
    depth: int,
    i: int,
    text_start: int,
    at: int,
)
    requires
        valid_utf8(b),
        0 <= text_start <= i <= b.len(),
        boundary(b, text_start),
        0 <= at < b.len(),
    ensures
        agrees(
            b,
            base,
            inline_spans(b, base, depth, i, text_start),
            at,
            inline_target(b, depth, i, at),
        ),
    decreases b.len(), b.len() - i, 1int,
{
    if i >= b.len() {
    } else if b[i] == BACKTICK {
        let r = run(b, i, BACKTICK) as int;
        lemma_run(b, i, BACKTICK);
        match exact_run(b, i + r, BACKTICK, r as nat) {
            Some(j) => {
                lemma_exact_run(b, i + r, BACKTICK, r as nat);
                lemma_run(b, j, BACKTICK);
                lemma_ascii_boundary(b, j + r - 1);
                let s = text_span(base, text_start, i);
                let m = one(base, i, j + r, MdStyle::Code);
                lemma_paints_concat(s, m, base + at, MdStyle::LinkText);
                lemma_paints_concat(s, m, base + at, MdStyle::LinkUrl);
                lemma_inline_agrees(b, base, depth, j + r, j + r, at);
                lemma_agrees_behind(
                    b,
                    base,
                    s + m,
                    inline_spans(b, base, depth, j + r, j + r),
                    at,
                    inline_target(b, depth, j + r, at),
                );
            },
            None => {
                lemma_inline_agrees(b, base, depth, i + r, text_start, at);
            },
        }
    } else if emphasis_char(b[i]) {
        lemma_run(b, i, b[i]);
        match emphasis(b, i) {
            Some((need, j)) => {
                lemma_emphasis_agrees(b, base, depth, i, text_start, need, j, at);
            },
            None => {
                lemma_inline_agrees(b, base, depth, i + run(b, i, b[i]), text_start, at);
            },
        }
    } else if b[i] == BANG || b[i] == OPEN_BRACKET {
        match link_from(b, i) {
            Some((rb, rp)) => {
                lemma_link_agrees(b, base, depth, i, text_start, rb, rp, at);
            },
            None => {
                lemma_inline_agrees(b, base, depth, i + 1, text_start, at);
            },
        }
    } else if b[i] == LOWER_H {
        match autolink(b, i) {
            Some(end) => {
                lemma_url_agrees(b, base, depth, i, text_start, end, at);
            },
            None => {
                lemma_inline_agrees(b, base, depth, i + 1, text_start, at);
            },
        }
    } else {
        lemma_inline_agrees(b, base, depth, i + 1, text_start, at);
    }
}

/// Clicks in front of a piece of text open nothing in it, and it draws nothing
/// there.
proof fn lemma_tail_agrees(b: Seq<u8>, from: int, at: int)
    requires
        valid_utf8(b),
        0 <= from <= b.len(),
        boundary(b, from),
        0 <= at < b.len(),
    ensures
        agrees(
            b,
            0,
            inline_spans(b.subrange(from, b.len() as int), from, 0, 0, 0),
            at,
            inline_target(b.subrange(from, b.len() as int), 0, 0, at - from),
        ),
{
    let n = b.len() as int;
    let c = b.subrange(from, n);
    lemma_subrange_valid(b, from, n);
    if from < n {
        lemma_first_byte(c);
    }
    if from <= at {
        lemma_inline_agrees(c, from, 0, 0, 0, at - from);
        lemma_agrees_widened(
            b,
            0,
            inline_spans(c, from, 0, 0, 0),
            from,
            n,
            at,
            inline_target(c, 0, 0, at - from),
        );
    } else {
        let s = inline_spans(c, from, 0, 0, 0);
        lemma_target_before(c, 0, 0, at - from);
        lemma_inline_covers(c, from, 0, 0, 0);
        if paints(s, at, MdStyle::LinkText) {
            lemma_paints_within(s, from, n, at, MdStyle::LinkText);
        }
        if paints(s, at, MdStyle::LinkUrl) {
            lemma_paints_within(s, from, n, at, MdStyle::LinkUrl);
        }
    }
}

/// In a list item.
proof fn lemma_list_agrees(b: Seq<u8>, at: int)
    requires
        valid_utf8(b),
        list(b) is Some,
        0 <= at < b.len(),
    ensures
        agrees(b, 0, list_spans(b, list(b)->0), at, list_target(b, list(b)->0, at)),
{
    let n = b.len() as int;
    let end = list(b)->0;
    let bullet_span = one(0, 0, end, MdStyle::ListMarker);
    lemma_list(b);
    match task(b.subrange(end, n)) {
        Some((len, style)) => {
            let from = end + len;
            let box_span = one(0, end, from, style);
            let content = inline_spans(b.subrange(from, n), from, 0, 0, 0);
            assert(b.subrange(end, n)[len - 1] == b[from - 1]);
            lemma_ascii_boundary(b, from - 1);
            lemma_paints_concat(bullet_span, box_span, at, MdStyle::LinkText);
            lemma_paints_concat(bullet_span, box_span, at, MdStyle::LinkUrl);
            if style == MdStyle::TaskDone {
                lemma_paints_concat(bullet_span + box_span, struck(content), at, MdStyle::LinkText);
                lemma_paints_concat(bullet_span + box_span, struck(content), at, MdStyle::LinkUrl);
            } else {
                lemma_tail_agrees(b, from, at);
                lemma_agrees_behind(
                    b,
                    0,
                    bullet_span + box_span,
                    content,
                    at,
                    list_target(b, end, at),
                );
            }
        },
        None => {
            lemma_tail_agrees(b, end, at);
            lemma_agrees_behind(
                b,
                0,
                bullet_span,
                inline_spans(b.subrange(end, n), end, 0, 0, 0),
                at,
                list_target(b, end, at),
            );
        },
    }
}

/// In a heading.
proof fn lemma_heading_agrees(b: Seq<u8>, at: int)
    requires
        valid_utf8(b),
        heading(b) is Some,
        !fence(b),
        !separator(decode_utf8(b)),
        0 <= at < b.len(),
    ensures
        agrees(b, 0, built(b, false), at, target(b, at)),
{
    let n = b.len() as int;
    let (level, end) = heading(b)->0;
    lemma_run(b, 0, SPACE);
    lemma_run(b, lead(b), HASH);
    lemma_ascii_boundary(b, end - 1);
    let m = one(0, 0, end, MdStyle::HeadingMarker(level as u8));
    let c = b.subrange(end, n);
    assert(wrapped_target(c, 0, at - end) == inline_target(c, 1, 0, at - end));
    if end < n {
        let w = wrapped_spans(c, end, MdStyle::Heading(level as u8), 0);
        lemma_subrange_valid(b, end, n);
        if end <= at {
            lemma_wrapped_agrees(c, end, MdStyle::Heading(level as u8), 0, at - end);
            lemma_agrees_widened(b, 0, w, end, n, at, wrapped_target(c, 0, at - end));
        } else {
            lemma_nothing_beside(b, 0, MdStyle::Heading(level as u8), 0, end, n, at);
            lemma_target_before(c, 1, 0, at - end);
        }
        lemma_agrees_behind(b, 0, m, w, at, target(b, at));
    } else {
        lemma_target_before(c, 1, 0, at - end);
        assert(built(b, false) =~= m);
    }
}

/// Moving what is drawn, with the text it is drawn from.
proof fn lemma_agrees_shifted(c: Seq<u8>, spans: Seq<Styled>, by: int, at: int, t: Option<Seq<u8>>)
    requires
        agrees(c, 0, spans, at, t),
    ensures
        agrees(c, by, shifted(spans, by), at, t),
{
    let moved = shifted(spans, by);
    lemma_paints_shifted(spans, by, at, MdStyle::LinkText);
    lemma_paints_shifted(spans, by, at, MdStyle::LinkUrl);
    if t is Some {
        let u = t->0;
        if exists|lo: int, hi: int| #[trigger] bare_url(c, 0, spans, at, u, lo, hi) {
            let (lo, hi) = choose|lo: int, hi: int| #[trigger] bare_url(c, 0, spans, at, u, lo, hi);
            assert forall|k: int| lo <= k < hi implies #[trigger] paints(
                moved,
                by + k,
                MdStyle::LinkUrl,
            ) by {
                assert(paints(spans, 0 + k, MdStyle::LinkUrl));
                lemma_paints_shifted(spans, by, k, MdStyle::LinkUrl);
            }
            assert(bare_url(c, by, moved, at, u, lo, hi));
        } else {
            let (lo, rb, rp) = choose|lo: int, rb: int, rp: int| #[trigger]
                bracketed_url(c, 0, spans, at, u, lo, rb, rp);
            lemma_paints_shifted(spans, by, lo, MdStyle::Marker);
            lemma_paints_shifted(spans, by, rb, MdStyle::Marker);
            lemma_paints_shifted(spans, by, rp, MdStyle::Marker);
            assert(bracketed_url(c, by, moved, at, u, lo, rb, rp));
        }
    }
}

/// In a quote, given what holds of what it quotes.
proof fn lemma_quote_agrees(b: Seq<u8>, at: int)
    requires
        valid_utf8(b),
        !fence(b),
        !separator(decode_utf8(b)),
        heading(b) is None,
        quote(b) is Some,
        0 <= at < b.len(),
    ensures
        agrees(b, 0, built(b, false), at, target(b, at)),
    decreases b.len(), 0int,
{
    let n = b.len() as int;
    let end = quote(b)->0;
    lemma_quote(b);
    let c = b.subrange(end, n);
    lemma_subrange_valid(b, end, n);
    let m = one(0, 0, end, MdStyle::QuoteMarker);
    let inner = line_spans(c, false);
    let moved = shifted(inner, end);
    let t = target(b, at);
    assert(t == target(c, at - end));
    if end <= at {
        law_what_reads_as_a_link_opens(c, at - end);
        lemma_agrees_shifted(c, inner, end, at - end, t);
        lemma_agrees_widened(b, 0, moved, end, n, at, t);
    } else {
        lemma_before_line(c, at - end);
        lemma_line_covers(c, false);
        lemma_paints_shifted(inner, end, at - end, MdStyle::LinkText);
        lemma_paints_shifted(inner, end, at - end, MdStyle::LinkUrl);
        if paints(inner, at - end, MdStyle::LinkText) {
            lemma_paints_within(inner, 0, c.len() as int, at - end, MdStyle::LinkText);
        }
        if paints(inner, at - end, MdStyle::LinkUrl) {
            lemma_paints_within(inner, 0, c.len() as int, at - end, MdStyle::LinkUrl);
        }
    }
    lemma_agrees_recoloured(b, 0, moved, MdStyle::Quote, at, t);
    lemma_agrees_behind(b, 0, m, recoloured(moved, MdStyle::Quote), at, t);
}

/// On every line, what reads as a link is exactly what opens. A click on a byte
/// that is drawn as a link's text or url opens an address, unless the byte is in
/// the text of a link that has none. And where a click opens an address, the byte
/// is part of a link that is drawn as one, whose address that is: a bare url, or
/// a `[text](url)` from its `[` through its `)`.
pub proof fn law_what_reads_as_a_link_opens(b: Seq<u8>, at: int)
    requires
        valid_utf8(b),
        0 <= at < b.len(),
    ensures
        reads_as_link(line_spans(b, false), at) ==> target(b, at) is Some || leads_nowhere(b, at),
        target(b, at) matches Some(u) ==> leads_to(b, 0, line_spans(b, false), at, u),
    decreases b.len(), 1int,
{
    let t = target(b, at);
    let spans = built(b, false);
    let n = b.len() as int;
    if fence(b) || separator(decode_utf8(b)) {
        assert(spans.len() == 1);
    } else if heading(b) is Some {
        lemma_heading_agrees(b, at);
    } else if quote(b) is Some {
        lemma_quote_agrees(b, at);
    } else if list(b) is Some {
        lemma_list_agrees(b, at);
    } else {
        lemma_first_byte(b);
        lemma_inline_agrees(b, 0, 0, 0, 0, at);
    }
    assert(agrees(b, 0, spans, at, t));
    lemma_built_covers(b, false);
    law_merging_keeps_every_style(spans, 0, n, at, MdStyle::LinkText);
    law_merging_keeps_every_style(spans, 0, n, at, MdStyle::LinkUrl);
    if t is Some {
        assert forall|p: int, style: MdStyle| paints(spans, p, style) implies #[trigger] paints(
            merged(spans),
            p,
            style,
        ) by {
            law_merging_keeps_every_style(spans, 0, n, p, style);
        }
        lemma_leads_on(b, 0, spans, merged(spans), at, t->0);
    }
}

} // verus!
