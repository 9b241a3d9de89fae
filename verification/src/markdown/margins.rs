//! What falls just short of a mark, and is text.

use vstd::prelude::*;
use vstd::utf8::*;

use crate::ascii::{
    BACKTICK, BANG, CLOSE_BRACKET, CLOSE_PAREN, DOT, GREATER, HASH, LOWER_X, OPEN_BRACKET, OPEN_PAREN, SPACE,
    TILDE, UPPER_X,
};
use crate::markdown::blocks::lemma_not_a_rule;
use crate::markdown::inline::{inline_spans, link_from};
use crate::markdown::painted::lemma_nothing_to_merge;
use crate::markdown::scan::{lemma_run, lemma_run_is, run, space};
use crate::markdown::shapes::{
    blanks, item_mark, lemma_ascii_valid, lemma_blanks_end_is, lemma_item, lemma_label_end, lemma_paren_end,
    lemma_words_wrapped, plain, span, task_box, times, words,
};
use crate::markdown::words::word_byte;
use crate::markdown::{
    blanks_end, built, digit, digits_end, fence, heading, lead, line_spans, list, list_spans, quote,
    separator, sigils_end, struck, task, MdStyle,
};

verus! {

broadcast use vstd::seq::group_seq_axioms;

/// Up to three spaces in front make no difference to what a line is; with four it is
/// neither heading, quote nor fence.
pub proof fn law_three_spaces_at_most(i: nat, rest: Seq<u8>)
    requires
        rest.len() > 0,
        rest[0] != SPACE,
    ensures
        ({
            let b = times(SPACE, i) + rest;
            &&& i <= 3 ==> (heading(b) is Some <==> heading(rest) is Some) && (quote(b) is Some
                <==> quote(rest) is Some) && (fence(b) <==> fence(rest))
            &&& i <= 3 ==> (heading(rest) matches Some((level, end)) ==> heading(b) == Some(
                (level, end + i),
            ))
            &&& i > 3 ==> heading(b) is None && quote(b) is None && !fence(b)
        }),
{
    let b = times(SPACE, i) + rest;
    let w = i as int;
    assert forall|k: int| 0 <= k < w implies b[k] == SPACE by {}
    assert forall|k: int| w <= k < b.len() implies #[trigger] b[k] == rest[k - w] by {}
    lemma_run_is(b, 0, w, SPACE);
    lemma_run_is(rest, 0, 0, SPACE);
    assert(lead(rest) == 0);
    if i <= 3 {
        assert(lead(b) == w);
        lemma_run_behind(b, rest, w, 0, HASH);
        lemma_run_behind(b, rest, w, 0, rest[0]);
        lemma_run(rest, 0, HASH);
        let e = run(rest, 0, HASH) as int;
        if e < rest.len() {
            assert(b[w + e] == rest[e]);
        }
        lemma_fence_behind(b, rest, w);
    } else {
        assert(lead(b) == 3);
        assert(b[3] == SPACE);
        assert(run(b, 3, HASH) == 0);
    }
}

proof fn lemma_run_behind(b: Seq<u8>, rest: Seq<u8>, w: int, i: int, c: u8)
    requires
        0 <= w,
        b.len() == w + rest.len(),
        forall|k: int| w <= k < b.len() ==> #[trigger] b[k] == rest[k - w],
        0 <= i <= rest.len(),
    ensures
        run(b, w + i, c) == run(rest, i, c),
    decreases rest.len() - i,
{
    if i < rest.len() {
        assert(b[w + i] == rest[i]);
        if rest[i] == c {
            lemma_run_behind(b, rest, w, i + 1, c);
        }
    }
}

proof fn lemma_fence_behind(b: Seq<u8>, rest: Seq<u8>, w: int)
    requires
        0 <= w,
        b.len() == w + rest.len(),
        forall|k: int| w <= k < b.len() ==> #[trigger] b[k] == rest[k - w],
        rest.len() > 0,
        lead(b) == w,
        lead(rest) == 0,
    ensures
        fence(b) <==> fence(rest),
{
    let c = rest[0];
    assert(b[w] == c);
    lemma_run_behind(b, rest, w, 0, c);
    let r = run(rest, 0, c) as int;
    if fence(rest) && c == BACKTICK {
        assert forall|k: int| w + r <= k < b.len() implies b[k] != BACKTICK by {
            assert(b[k] == rest[k - w]);
            assert(rest[k - w] != BACKTICK);
        }
    }
    if fence(b) && c == BACKTICK {
        assert forall|k: int| r <= k < rest.len() implies rest[k] != BACKTICK by {
            assert(b[w + k] == rest[k]);
        }
    }
}

/// Two ticks are no fence, and neither is a run of them with another behind it on the line.
pub proof fn law_what_is_no_fence(c: u8, k: nat, info: Seq<u8>, j: int)
    requires
        c == BACKTICK || c == TILDE,
        info.len() > 0,
        info[0] != c,
        k >= 1,
    ensures
        k < 3 ==> !fence(times(c, k) + info),
        c == BACKTICK && 0 <= j < info.len() && info[j] == BACKTICK ==> !fence(times(c, k) + info),
{
    let b = times(c, k) + info;
    let w = k as int;
    assert forall|x: int| 0 <= x < w implies b[x] == c by {}
    assert(b[w] == info[0]);
    lemma_run_is(b, 0, 0, SPACE);
    lemma_run_is(b, 0, w, c);
    assert(lead(b) == 0);
    if 0 <= j < info.len() {
        assert(b[w + j] == info[j]);
    }
}

/// A line that marks nothing up and is no block is text from end to end.
proof fn lemma_all_text(b: Seq<u8>)
    requires
        b.len() > 0,
        forall|k: int| 0 <= k < b.len() ==> plain(#[trigger] b[k]),
        !fence(b),
        !separator(decode_utf8(b)),
        heading(b) is None,
        quote(b) is None,
        list(b) is None,
    ensures
        line_spans(b, false) == seq![span(0, b.len() as int, MdStyle::Text)],
{
    crate::markdown::shapes::lemma_words_scanned(b, 0, 0, 0, 0);
    let spans = seq![span(0, b.len() as int, MdStyle::Text)];
    assert(built(b, false) =~= spans);
    lemma_nothing_to_merge(spans);
}

/// Without a space behind them, hashes make no heading.
pub proof fn law_a_heading_needs_its_space(k: nat, t: Seq<u8>)
    requires
        words(t),
        k >= 1,
    ensures
        line_spans(times(HASH, k) + t, false) == seq![
            span(0, (k + t.len()) as int, MdStyle::Text),
        ],
{
    let b = times(HASH, k) + t;
    let w = k as int;
    assert forall|j: int| 0 <= j < b.len() implies plain(#[trigger] b[j]) by {
        if j >= w {
            assert(b[j] == t[j - w]);
            assert(plain(t[j - w]));
        }
    }
    assert forall|j: int| 0 <= j < b.len() implies (#[trigger] b[j]) < 128 by {
        assert(plain(b[j]));
    }
    lemma_ascii_valid(b);
    assert(b[w] == t[0]);
    lemma_not_a_rule(b, w);
    assert forall|j: int| 0 <= j < w implies b[j] == HASH by {}
    lemma_run_is(b, 0, 0, SPACE);
    lemma_run_is(b, 0, w, HASH);
    assert(lead(b) == 0);
    assert(b[0] == HASH);
    assert(blanks_end(b, 0) == 0);
    assert(digits_end(b, 0) == 0);
    lemma_all_text(b);
}

/// Without a space behind it, a mark opens no item; and neither do ten digits.
pub proof fn law_an_item_needs_its_space(x: Seq<u8>, m: Seq<u8>, d: Seq<u8>, t: Seq<u8>)
    requires
        blanks(x),
        item_mark(m),
        words(t),
        !digit(t[0]),
        d.len() >= 10,
        forall|k: int| 0 <= k < d.len() ==> digit(#[trigger] d[k]),
    ensures
        list(x + m + t) is None,
        list(x + d + seq![DOT, SPACE] + t) is None,
        task(seq![OPEN_BRACKET] + t) is None,
{
    let b = x + m + t;
    let w = x.len() as int;
    let e = w + m.len();
    assert forall|k: int| 0 <= k < w implies space(#[trigger] b[k]) by {
        assert(b[k] == x[k]);
    }
    assert forall|k: int| w <= k < e implies #[trigger] b[k] == m[k - w] by {}
    assert(b[w] == m[0]);
    if m.len() > 1 {
        assert(digit(m[0]));
    }
    assert(b[e] == t[0]);
    assert(plain(t[0]));
    lemma_blanks_end_is(b, 0, w);
    assert forall|k: int| w <= k < e - 1 implies digit(#[trigger] b[k]) by {
        assert(b[k] == m[k - w]);
    }
    assert(b[e - 1] == m[m.len() - 1]);
    crate::markdown::shapes::lemma_digits_end_is(b, w, e - 1);
    let c = x + d + seq![DOT, SPACE] + t;
    let f = w + d.len();
    assert forall|k: int| 0 <= k < w implies space(#[trigger] c[k]) by {
        assert(c[k] == x[k]);
    }
    assert forall|k: int| w <= k < f implies digit(#[trigger] c[k]) by {
        assert(c[k] == d[k - w]);
    }
    assert(c[f] == DOT);
    assert(digit(c[w]));
    lemma_blanks_end_is(c, 0, w);
    crate::markdown::shapes::lemma_digits_end_is(c, w, f);
    let g = seq![OPEN_BRACKET] + t;
    if t.len() >= 2 {
        assert(g[2] == t[1]);
        assert(plain(t[1]));
    }
}

/// Two quotes, one in the other, are marked by two sigils, with a space after each or none.
pub proof fn law_nested_quotes(t: Seq<u8>)
    requires
        words(t),
        !digit(t[0]),
    ensures
        line_spans(seq![GREATER, GREATER, SPACE] + t, false) == seq![
            span(0, 3, MdStyle::QuoteMarker),
            span(3, (3 + t.len()) as int, MdStyle::Quote),
        ],
        line_spans(seq![GREATER, SPACE, GREATER, SPACE] + t, false) == seq![
            span(0, 4, MdStyle::QuoteMarker),
            span(4, (4 + t.len()) as int, MdStyle::Quote),
        ],
{
    assert(plain(t[0]));
    let a = seq![GREATER, GREATER, SPACE];
    let b = a + t;
    assert(b[0] == GREATER && b[1] == GREATER && b[2] == SPACE && b[3] == t[0]);
    assert(sigils_end(b, 3) == 3);
    assert(sigils_end(b, 1) == 3);
    assert(sigils_end(b, 0) == 3);
    lemma_quoted_words(a, t);
    let c = seq![GREATER, SPACE, GREATER, SPACE];
    let d = c + t;
    assert(d[0] == GREATER && d[1] == SPACE && d[2] == GREATER && d[3] == SPACE && d[4] == t[0]);
    assert(sigils_end(d, 4) == 4);
    assert(sigils_end(d, 2) == 4);
    assert(sigils_end(d, 0) == 4);
    lemma_quoted_words(c, t);
}

proof fn lemma_quoted_words(h: Seq<u8>, t: Seq<u8>)
    requires
        words(t),
        !digit(t[0]),
        h.len() > 0,
        h[0] == GREATER,
        forall|k: int| 0 <= k < h.len() ==> (#[trigger] h[k]) < 128,
        sigils_end(h + t, 0) == h.len(),
    ensures
        line_spans(h + t, false) == seq![
            span(0, h.len() as int, MdStyle::QuoteMarker),
            span(h.len() as int, (h.len() + t.len()) as int, MdStyle::Quote),
        ],
{
    let b = h + t;
    let w = h.len() as int;
    let n = b.len() as int;
    assert forall|j: int| 0 <= j < n implies (#[trigger] b[j]) < 128 by {
        if j >= w {
            assert(b[j] == t[j - w]);
            assert(plain(t[j - w]));
        }
    }
    lemma_ascii_valid(b);
    assert(b[w] == t[0]);
    lemma_not_a_rule(b, w);
    assert(b[0] == GREATER);
    lemma_run_is(b, 0, 0, SPACE);
    lemma_run_is(b, 0, 0, HASH);
    assert(lead(b) == 0);
    assert(!fence(b));
    assert(quote(b) == Some(w));
    assert(b.subrange(w, n) =~= t);
    crate::markdown::shapes::law_plain_words(t);
    let spans = seq![span(0, w, MdStyle::QuoteMarker), span(w, n, MdStyle::Quote)];
    assert(built(b, false) =~= spans);
    lemma_nothing_to_merge(spans);
}

/// A picture is written as a link with an exclamation mark in front, which is part of its
/// mark-up.
pub proof fn law_a_picture(t: Seq<u8>, u: Seq<u8>)
    requires
        words(t),
        forall|j: int| 0 <= j < u.len() ==> 0x20 <= #[trigger] u[j] < 0x7f && u[j] != CLOSE_PAREN,
    ensures
        ({
            let n = t.len() as int;
            let b = seq![BANG, OPEN_BRACKET] + t + seq![CLOSE_BRACKET, OPEN_PAREN] + u + seq![CLOSE_PAREN];
            let spans = line_spans(b, false);
            &&& spans.len() == 3
            &&& spans[0] == span(0, 2, MdStyle::Marker)
            &&& spans[1] == span(2, 2 + n, MdStyle::LinkText)
            &&& spans[2] == span(2 + n, b.len() as int, MdStyle::Marker)
        }),
{
    let n = t.len() as int;
    let b = seq![BANG, OPEN_BRACKET] + t + seq![CLOSE_BRACKET, OPEN_PAREN] + u + seq![CLOSE_PAREN];
    let rb = 2 + n;
    let rp = b.len() - 1;
    assert forall|j: int| 2 <= j < rb implies #[trigger] b[j] == t[j - 2] by {}
    assert forall|j: int| rb + 2 <= j < rp implies #[trigger] b[j] == u[j - rb - 2] by {}
    assert(b[0] == BANG && b[1] == OPEN_BRACKET && b[rb] == CLOSE_BRACKET && b[rb + 1] == OPEN_PAREN && b[rp]
        == CLOSE_PAREN);
    assert forall|j: int| 0 <= j < b.len() implies (#[trigger] b[j]) < 128 by {
        if 2 <= j < rb {
            assert(plain(t[j - 2]));
        } else if rb + 2 <= j < rp {
            assert(u[j - rb - 2] < 0x7f);
        }
    }
    lemma_ascii_valid(b);
    lemma_not_a_rule(b, 0);
    lemma_run_is(b, 0, 0, SPACE);
    lemma_run_is(b, 0, 0, HASH);
    assert(lead(b) == 0);
    assert(!fence(b));
    assert(blanks_end(b, 0) == 0);
    assert(digits_end(b, 0) == 0);
    assert(list(b) is None);
    assert forall|j: int| 2 <= j < rb implies #[trigger] b[j] != CLOSE_BRACKET && b[j] != OPEN_BRACKET by {
        assert(plain(t[j - 2]));
    }
    lemma_label_end(b, 2, rb);
    assert forall|j: int| rb + 2 <= j < rp implies #[trigger] b[j] != CLOSE_PAREN by {
        assert(b[j] == u[j - rb - 2]);
    }
    lemma_paren_end(b, rb + 2, rp);
    assert(link_from(b, 0) == Some((rb, rp)));
    assert(b.subrange(2, rb) =~= t);
    lemma_words_wrapped(t, 2, MdStyle::LinkText);
    let end = rp + 1;
    assert(inline_spans(b, 0, 0, end, end) =~= Seq::empty());
    let first = span(0, 2, MdStyle::Marker);
    let label = span(2, rb, MdStyle::LinkText);
    let tail = if rp > rb + 2 {
        seq![
            span(rb, rb + 2, MdStyle::Marker),
            span(rb + 2, rp, MdStyle::Marker),
            span(rp, end, MdStyle::Marker),
        ]
    } else {
        seq![span(rb, rb + 2, MdStyle::Marker), span(rp, end, MdStyle::Marker)]
    };
    let all = seq![first, label] + tail;
    assert(built(b, false) =~= all);
    crate::markdown::shapes::lemma_link_merged(first, label, rb, rp);
}

/// Every word of a task that is done is struck through, whatever is marked up in it.
pub proof fn law_a_done_task_is_struck_through(x: Seq<u8>, m: Seq<u8>, tick: u8, rest: Seq<u8>, k: int)
    requires
        blanks(x),
        item_mark(m),
        tick == LOWER_X || tick == UPPER_X,
        valid_utf8(rest),
        rest.len() > 0,
        word_byte(rest[0]),
    ensures
        ({
            let w = (x.len() + m.len() + 1) as int;
            let spans = built(x + m + seq![SPACE] + (task_box(tick) + rest), false);
            0 <= k < spans.len() && spans[k].start >= w + 4 ==> spans[k].style == MdStyle::Strikethrough
        }),
{
    let w = (x.len() + m.len() + 1) as int;
    let body = task_box(tick) + rest;
    let h = x + m + seq![SPACE];
    let b = h + body;
    let n = b.len() as int;
    lemma_item(x, m, body);
    let hb = h + task_box(tick);
    assert forall|j: int| 0 <= j < hb.len() implies (#[trigger] hb[j]) < 128 by {
        if j < x.len() {
            assert(space(x[j]));
        } else if j < x.len() + m.len() {
            assert(hb[j] == m[j - x.len()]);
            if j - x.len() < m.len() - 1 {
                assert(digit(m[j - x.len()]));
            }
        }
    }
    lemma_ascii_valid(hb);
    crate::app::lines::lemma_joined_valid(hb, rest);
    assert(hb + rest =~= b);
    assert(b[w + 4] == rest[0]);
    lemma_not_a_rule(b, w + 4);
    assert(b.subrange(w, n) =~= body);
    assert(body[0] == OPEN_BRACKET && body[1] == tick && body[2] == CLOSE_BRACKET && body[3] == SPACE);
    assert(task(body) == Some((4int, MdStyle::TaskDone)));
    let content = inline_spans(b.subrange(w + 4, n), w + 4, 0, 0, 0);
    let spans = built(b, false);
    assert(spans == list_spans(b, w));
    assert(spans.len() == 2 + struck(content).len());
    if 2 <= k < spans.len() {
        assert(spans[k] == struck(content)[k - 2]);
    }
}

} // verus!
