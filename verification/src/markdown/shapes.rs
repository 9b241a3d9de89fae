//! What the marks of markdown mean, each shown on every text they can stand around.

use vstd::prelude::*;
use vstd::utf8::*;

use crate::ascii::{
    BACKTICK, BANG, CLOSE_BRACKET, CLOSE_PAREN, COLON, DASH, DOT, EQUALS, GREATER, HASH, LOWER_H, LOWER_P,
    LOWER_S, LOWER_T, LOWER_X, OPEN_BRACKET, OPEN_PAREN, PLUS, SLASH, SPACE, STAR, TILDE, UNDERSCORE,
    UPPER_X,
};
use crate::markdown::blocks::{lemma_no_rule_behind, lemma_not_a_rule};
use crate::markdown::inline::{emphasis, inline_spans, link_from, opens, text_span, wrapped_spans};
use crate::markdown::painted::lemma_nothing_to_merge;
use crate::markdown::scan::{
    autolink, closes, emph_close, exact_run, label_end, lemma_run_is, paren_end, space, url_run,
    url_stop, url_trimmed,
};
use crate::markdown::words::word_byte;
use crate::markdown::{
    blanks_end, built, bullet, digit, digits_end, fence, heading, lead, line_spans, list, merged,
    quote, separator, sigils_end, MdStyle, Styled,
};
use crate::text::{bytes, copies, lemma_bytes_concat};

verus! {

broadcast use vstd::seq::group_seq_axioms;

/// A printable ASCII character that marks nothing up.
pub open spec fn plain(c: u8) -> bool {
    &&& 0x20 <= c < 0x7f
    &&& c != STAR && c != UNDERSCORE && c != TILDE && c != EQUALS
    &&& c != BACKTICK && c != OPEN_BRACKET && c != CLOSE_BRACKET && c != BANG && c != COLON
}

/// Plain words: characters that mark nothing up, with a letter or digit at either end.
pub open spec fn words(t: Seq<u8>) -> bool {
    &&& t.len() > 0
    &&& word_byte(t[0])
    &&& word_byte(t[t.len() - 1])
    &&& forall|k: int| 0 <= k < t.len() ==> plain(#[trigger] t[k])
}

/// `n` copies of `c`.
pub open spec fn times(c: u8, n: nat) -> Seq<u8> {
    Seq::new(n, |k: int| c)
}

/// A span.
pub open spec fn span(start: int, end: int, style: MdStyle) -> Styled {
    Styled { start, end, style }
}

/// ASCII text is UTF-8.
pub proof fn lemma_ascii_valid(b: Seq<u8>)
    requires
        forall|k: int| 0 <= k < b.len() ==> (#[trigger] b[k]) < 128,
    ensures
        valid_utf8(b),
{
    let u = Seq::new(b.len(), |k: int| b[k] as char);
    is_ascii_chars_encode_utf8(u);
    assert(bytes(u) =~= b);
    encode_utf8_valid_utf8(u);
}

/// From where nothing is marked up any more, everything is text.
pub proof fn lemma_words_scanned(b: Seq<u8>, base: int, depth: int, i: int, text_start: int)
    requires
        0 <= i <= b.len(),
        forall|k: int| i <= k < b.len() ==> plain(#[trigger] b[k]),
    ensures
        inline_spans(b, base, depth, i, text_start) == text_span(base, text_start, b.len() as int),
    decreases b.len() - i,
{
    if i < b.len() {
        assert(plain(b[i]));
        if b[i] == LOWER_H && autolink(b, i) is Some {
            if i + 4 < b.len() {
                assert(plain(b[i + 4]));
            }
            if i + 5 < b.len() {
                assert(plain(b[i + 5]));
            }
        }
        assert(inline_spans(b, base, depth, i, text_start) == inline_spans(
            b,
            base,
            depth,
            i + 1,
            text_start,
        ));
        lemma_words_scanned(b, base, depth, i + 1, text_start);
    } else {
        assert(inline_spans(b, base, depth, i, text_start) == text_span(
            base,
            text_start,
            b.len() as int,
        ));
    }
}

/// Plain words inside markup have the markup's style.
pub proof fn lemma_words_wrapped(t: Seq<u8>, base: int, style: MdStyle)
    requires
        words(t),
    ensures
        wrapped_spans(t, base, style, 0) == seq![span(base, base + t.len(), style)],
{
    lemma_words_scanned(t, base, 1, 0, 0);
    let inner = inline_spans(t, base, 1, 0, 0);
    assert(inner =~= seq![span(base, base + t.len(), MdStyle::Text)]);
    assert(wrapped_spans(t, base, style, 0) =~= seq![span(base, base + t.len(), style)]);
}

/// Spans whose neighbours differ are a line's spans as they are built.
proof fn lemma_as_built(b: Seq<u8>, spans: Seq<Styled>)
    requires
        b.len() > 0,
        built(b, false) == spans,
        forall|k: int, m: int|
            0 <= k && m == k + 1 && m < spans.len() ==> (#[trigger] spans[k]).style != (
            #[trigger] spans[m]).style,
    ensures
        line_spans(b, false) == spans,
{
    lemma_nothing_to_merge(spans);
}

// ---------------------------------------------------------------------------
// Emphasis
// ---------------------------------------------------------------------------
/// The first run that closes is behind the words.
proof fn lemma_close_behind(b: Seq<u8>, from: int, j: int, to: int, c: u8, need: nat)
    requires
        0 <= from <= j <= to,
        from < to,
        to + need == b.len(),
        need > 0,
        forall|k: int| from <= k < to ==> #[trigger] b[k] != c,
        forall|k: int| to <= k < b.len() ==> #[trigger] b[k] == c,
        !space(b[to - 1]),
    ensures
        emph_close(b, from, j, c, need, c == UNDERSCORE) == Some(to),
    decreases to - j,
{
    if j < to {
        assert(b[j] != c);
        lemma_close_behind(b, from, j + 1, to, c, need);
    } else {
        assert(b[j] == c);
        lemma_run_is(b, to, b.len() as int, c);
        assert(closes(b, from, to, c, need, c == UNDERSCORE));
    }
}

/// One mark on either side of words makes them italic, two make them bold, three
/// both, with stars and with underscores alike; two tildes strike them through and
/// two equals signs highlight them. The marks themselves are dimmed.
pub proof fn law_emphasis(c: u8, k: nat, t: Seq<u8>)
    requires
        words(t),
        (c == STAR || c == UNDERSCORE) && 1 <= k <= 3 || (c == TILDE || c == EQUALS) && k == 2,
    ensures
        ({
            let n = t.len() as int;
            let style = if c == TILDE {
                MdStyle::Strikethrough
            } else if c == EQUALS {
                MdStyle::Highlight
            } else if k == 1 {
                MdStyle::Italic
            } else if k == 2 {
                MdStyle::Bold
            } else {
                MdStyle::BoldItalic
            };
            line_spans(times(c, k) + t + times(c, k), false) == seq![
                span(0, k as int, MdStyle::Marker),
                span(k as int, k + n, style),
                span(k + n, k + n + k, MdStyle::Marker),
            ]
        }),
{
    let n = t.len() as int;
    let m = times(c, k);
    let b = m + t + m;
    let w = k as int;
    assert forall|j: int| 0 <= j < w implies #[trigger] b[j] == c by {}
    assert forall|j: int| w <= j < w + n implies #[trigger] b[j] == t[j - w] by {}
    assert forall|j: int| w + n <= j < b.len() implies #[trigger] b[j] == c by {}
    assert forall|j: int| w <= j < w + n implies #[trigger] b[j] != c && plain(b[j]) by {
        assert(plain(t[j - w]));
    }
    assert(b[w] == t[0]);
    assert(b[w + n - 1] == t[n - 1]);
    lemma_run_is(b, 0, 0, SPACE);
    lemma_run_is(b, 0, 0, HASH);
    lemma_run_is(b, 0, w, c);
    assert(lead(b) == 0);
    assert(!fence(b));
    assert forall|j: int| 0 <= j < b.len() implies (#[trigger] b[j]) < 128 by {
        if w <= j < w + n {
            assert(plain(b[j]));
        }
    }
    lemma_ascii_valid(b);
    lemma_not_a_rule(b, w);
    assert(heading(b) is None && quote(b) is None);
    assert(list(b) is None) by {
        assert(blanks_end(b, 0) == 0);
        assert(digits_end(b, 0) == 0);
        assert(!space(b[1]));
    }
    assert(opens(b, 0));
    lemma_close_behind(b, w, w, w + n, c, k);
    assert(emphasis(b, 0) == Some((w, w + n)));
    assert(b.subrange(w, w + n) =~= t);
    let style = crate::markdown::inline::emphasis_style(c, w);
    lemma_words_wrapped(t, w, style);
    let end = w + n + w;
    assert(inline_spans(b, 0, 0, end, end) =~= Seq::empty());
    let spans = seq![
        span(0, w, MdStyle::Marker),
        span(w, w + n, style),
        span(w + n, end, MdStyle::Marker),
    ];
    assert(inline_spans(b, 0, 0, 0, 0) =~= spans);
    lemma_as_built(b, spans);
}

// ---------------------------------------------------------------------------
// Code
// ---------------------------------------------------------------------------
proof fn lemma_ticks_behind(b: Seq<u8>, j: int, to: int, need: nat)
    requires
        0 <= j <= to,
        to + need == b.len(),
        need > 0,
        forall|k: int| j <= k < to ==> #[trigger] b[k] != BACKTICK,
        forall|k: int| to <= k < b.len() ==> #[trigger] b[k] == BACKTICK,
    ensures
        exact_run(b, j, BACKTICK, need) == Some(to),
    decreases to - j,
{
    if j < to {
        assert(b[j] != BACKTICK);
        lemma_ticks_behind(b, j + 1, to, need);
    } else {
        assert(b[to] == BACKTICK);
        lemma_run_is(b, to, b.len() as int, BACKTICK);
    }
}

/// Whatever stands between one or two backticks on either side is code, the ticks with
/// it, and nothing in it is marked up.
pub proof fn law_code(k: nat, t: Seq<u8>)
    requires
        1 <= k <= 2,
        valid_utf8(t),
        t.len() > 0,
        forall|j: int| 0 <= j < t.len() ==> #[trigger] t[j] != BACKTICK,
    ensures
        line_spans(times(BACKTICK, k) + t + times(BACKTICK, k), false) == seq![
            span(0, (k + t.len() + k) as int, MdStyle::Code),
        ],
{
    let n = t.len() as int;
    let m = times(BACKTICK, k);
    let b = m + t + m;
    let w = k as int;
    let tick = Seq::new(k, |j: int| '`');
    is_ascii_chars_encode_utf8(tick);
    assert(bytes(tick) =~= m);
    decode_utf8_encode_utf8(t);
    lemma_bytes_concat(tick, decode_utf8(t));
    lemma_bytes_concat(tick + decode_utf8(t), tick);
    encode_utf8_valid_utf8(tick + decode_utf8(t) + tick);
    assert(valid_utf8(b));
    assert forall|j: int| 0 <= j < w implies #[trigger] b[j] == BACKTICK by {}
    assert forall|j: int| w <= j < w + n implies #[trigger] b[j] != BACKTICK by {
        assert(b[j] == t[j - w]);
    }
    assert forall|j: int| w + n <= j < b.len() implies #[trigger] b[j] == BACKTICK by {}
    lemma_run_is(b, 0, 0, SPACE);
    lemma_run_is(b, 0, 0, HASH);
    lemma_run_is(b, 0, w, BACKTICK);
    assert(lead(b) == 0);
    assert(!fence(b));
    lemma_no_rule_behind(b, 0, '`');
    assert(!separator(decode_utf8(b)));
    assert(list(b) is None) by {
        assert(blanks_end(b, 0) == 0);
        assert(digits_end(b, 0) == 0);
    }
    lemma_ticks_behind(b, w, w + n, k);
    let end = w + n + w;
    assert(inline_spans(b, 0, 0, end, end) =~= Seq::empty());
    let spans = seq![span(0, end, MdStyle::Code)];
    assert(inline_spans(b, 0, 0, 0, 0) =~= spans);
    lemma_as_built(b, spans);
}

// ---------------------------------------------------------------------------
// Links
// ---------------------------------------------------------------------------
pub proof fn lemma_label_end(b: Seq<u8>, j: int, to: int)
    requires
        0 <= j <= to < b.len(),
        b[to] == CLOSE_BRACKET,
        forall|k: int| j <= k < to ==> #[trigger] b[k] != CLOSE_BRACKET && b[k] != OPEN_BRACKET,
    ensures
        label_end(b, j) == Some(to),
    decreases to - j,
{
    if j < to {
        assert(b[j] != CLOSE_BRACKET);
        lemma_label_end(b, j + 1, to);
    }
}

pub proof fn lemma_paren_end(b: Seq<u8>, j: int, to: int)
    requires
        0 <= j <= to < b.len(),
        b[to] == CLOSE_PAREN,
        forall|k: int| j <= k < to ==> #[trigger] b[k] != CLOSE_PAREN,
    ensures
        paren_end(b, j) == Some(to),
    decreases to - j,
{
    if j < to {
        assert(b[j] != CLOSE_PAREN);
        lemma_paren_end(b, j + 1, to);
    }
}

/// A `[text](url)`: the text is drawn as a link's, the brackets and the url are
/// dimmed.
pub proof fn law_link(t: Seq<u8>, u: Seq<u8>)
    requires
        words(t),
        valid_utf8(u),
        forall|j: int| 0 <= j < u.len() ==> #[trigger] u[j] != CLOSE_PAREN,
    ensures
        ({
            let n = t.len() as int;
            let b = seq![OPEN_BRACKET] + t + seq![CLOSE_BRACKET, OPEN_PAREN] + u + seq![CLOSE_PAREN];
            line_spans(b, false) == seq![
                span(0, 1, MdStyle::Marker),
                span(1, 1 + n, MdStyle::LinkText),
                span(1 + n, b.len() as int, MdStyle::Marker),
            ]
        }),
{
    let n = t.len() as int;
    let head = seq![OPEN_BRACKET] + t + seq![CLOSE_BRACKET, OPEN_PAREN];
    let b = head + u + seq![CLOSE_PAREN];
    let rb = 1 + n;
    let rp = b.len() - 1;
    assert forall|j: int| 0 <= j < head.len() implies (#[trigger] head[j]) < 128 by {
        if 1 <= j < rb {
            assert(head[j] == t[j - 1]);
            assert(plain(t[j - 1]));
        }
    }
    lemma_ascii_valid(head);
    lemma_ascii_valid(seq![CLOSE_PAREN]);
    crate::app::lines::lemma_joined_valid(head, u);
    crate::app::lines::lemma_joined_valid(head + u, seq![CLOSE_PAREN]);
    assert forall|j: int| 1 <= j < rb implies #[trigger] b[j] != CLOSE_BRACKET && b[j] != OPEN_BRACKET by {
        assert(b[j] == t[j - 1]);
        assert(plain(t[j - 1]));
    }
    assert forall|j: int| rb + 2 <= j < rp implies #[trigger] b[j] != CLOSE_PAREN by {
        assert(b[j] == u[j - rb - 2]);
    }
    assert(b[0] == OPEN_BRACKET && b[rb] == CLOSE_BRACKET && b[rb + 1] == OPEN_PAREN && b[rp]
        == CLOSE_PAREN);
    lemma_run_is(b, 0, 0, SPACE);
    lemma_run_is(b, 0, 0, HASH);
    assert(lead(b) == 0);
    assert(!fence(b));
    lemma_no_rule_behind(b, 0, '[');
    assert(!separator(decode_utf8(b)));
    assert(list(b) is None) by {
        assert(blanks_end(b, 0) == 0);
        assert(digits_end(b, 0) == 0);
    }
    lemma_label_end(b, 1, rb);
    lemma_paren_end(b, rb + 2, rp);
    assert(link_from(b, 0) == Some((rb, rp)));
    assert(b.subrange(1, rb) =~= t);
    lemma_words_wrapped(t, 1, MdStyle::LinkText);
    let end = rp + 1;
    assert(inline_spans(b, 0, 0, end, end) =~= Seq::empty());
    let first = span(0, 1, MdStyle::Marker);
    let label = span(1, rb, MdStyle::LinkText);
    let tail = if rp > rb + 2 {
        seq![
            span(rb, rb + 2, MdStyle::Marker),
            span(rb + 2, rp, MdStyle::Marker),
            span(rp, end, MdStyle::Marker),
        ]
    } else {
        seq![span(rb, rb + 2, MdStyle::Marker), span(rp, end, MdStyle::Marker)]
    };
    let all = seq![first, label] + tail;
    assert(built(b, false) =~= all);
    lemma_link_merged(first, label, rb, rp);
}

/// The parts of a link behind its text are drawn as one.
pub proof fn lemma_link_merged(first: Styled, label: Styled, rb: int, rp: int)
    requires
        rb + 2 <= rp,
        first.style == MdStyle::Marker,
        label.style == MdStyle::LinkText,
    ensures
        merged(
            seq![first, label] + (if rp > rb + 2 {
                seq![
                    span(rb, rb + 2, MdStyle::Marker),
                    span(rb + 2, rp, MdStyle::Marker),
                    span(rp, rp + 1, MdStyle::Marker),
                ]
            } else {
                seq![span(rb, rb + 2, MdStyle::Marker), span(rp, rp + 1, MdStyle::Marker)]
            }),
        ) == seq![first, label, span(rb, rp + 1, MdStyle::Marker)],
{
    let end = rp + 1;
    let tail = if rp > rb + 2 {
        seq![
            span(rb, rb + 2, MdStyle::Marker),
            span(rb + 2, rp, MdStyle::Marker),
            span(rp, end, MdStyle::Marker),
        ]
    } else {
        seq![span(rb, rb + 2, MdStyle::Marker), span(rp, end, MdStyle::Marker)]
    };
    let all = seq![first, label] + tail;
    let last = span(rb, end, MdStyle::Marker);
    reveal_with_fuel(merged, 6);
    let two = seq![first, label];
    assert(all.drop_last().drop_last() =~= if rp > rb + 2 {
        two.push(span(rb, rb + 2, MdStyle::Marker))
    } else {
        two
    });
    assert(two.drop_last() =~= seq![first]);
    assert(seq![first].drop_last() =~= Seq::empty());
    assert(merged(seq![first]) =~= seq![first]);
    assert(merged(two) =~= two);
    if rp > rb + 2 {
        let three = two.push(span(rb, rb + 2, MdStyle::Marker));
        let four = three.push(span(rb + 2, rp, MdStyle::Marker));
        assert(three.drop_last() =~= two);
        assert(merged(three) =~= three);
        assert(four.drop_last() =~= three);
        assert(merged(four) =~= two.push(span(rb, rp, MdStyle::Marker)));
        assert(all.drop_last() =~= four);
        assert(merged(all) =~= two.push(last));
    } else {
        let three = two.push(span(rb, rb + 2, MdStyle::Marker));
        assert(three.drop_last() =~= two);
        assert(merged(three) =~= three);
        assert(all.drop_last() =~= three);
        assert(merged(all) =~= two.push(last));
    }
    assert(two.push(last) =~= seq![first, label, last]);
}

// ---------------------------------------------------------------------------
// Bare urls
// ---------------------------------------------------------------------------
/// Where the url's own characters end.
pub proof fn lemma_url_run_is(b: Seq<u8>, j: int, to: int)
    requires
        0 <= j <= to <= b.len(),
        forall|k: int| j <= k < to ==> !url_stop(#[trigger] b[k]),
        to < b.len() ==> url_stop(b[to]),
    ensures
        url_run(b, j) == to,
    decreases to - j,
{
    if j < to {
        assert(!url_stop(b[j]));
        lemma_url_run_is(b, j + 1, to);
    }
}

/// `http://` or, where `secure`, `https://`.
pub open spec fn scheme(secure: bool) -> Seq<u8> {
    if secure {
        seq![LOWER_H, LOWER_T, LOWER_T, LOWER_P, LOWER_S, COLON, SLASH, SLASH]
    } else {
        seq![LOWER_H, LOWER_T, LOWER_T, LOWER_P, COLON, SLASH, SLASH]
    }
}

/// A bare `http://` or `https://` url is drawn as one, up to the space behind it; the
/// words that follow are text.
pub proof fn law_bare_url(secure: bool, u: Seq<u8>, t: Seq<u8>)
    requires
        u.len() > 0,
        forall|j: int|
            0 <= j < u.len() ==> 0x21 <= #[trigger] u[j] < 0x7f && u[j] != 0x22 && u[j] != 0x3c && u[j]
                != 0x3e && u[j] != BACKTICK,
        word_byte(u[u.len() - 1]) || u[u.len() - 1] == SLASH,
        words(t),
    ensures
        ({
            let m = (scheme(secure).len() + u.len()) as int;
            line_spans(scheme(secure) + u + seq![SPACE] + t, false) == seq![
                span(0, m, MdStyle::LinkUrl),
                span(m, m + 1 + t.len(), MdStyle::Text),
            ]
        }),
{
    let sch = scheme(secure);
    let w = sch.len() as int;
    let m = w + u.len();
    let b = sch + u + seq![SPACE] + t;
    let n = b.len() as int;
    assert forall|j: int| w <= j < m implies #[trigger] b[j] == u[j - w] by {}
    assert forall|j: int| m < j < n implies #[trigger] b[j] == t[j - m - 1] by {}
    assert forall|j: int| 0 <= j < w implies #[trigger] b[j] == sch[j] by {}
    assert(b[m] == SPACE);
    assert forall|j: int| 0 <= j < n implies (#[trigger] b[j]) < 128 by {
        if w <= j < m {
            assert(u[j - w] < 0x7f);
        } else if m < j {
            assert(plain(t[j - m - 1]));
        }
    }
    lemma_ascii_valid(b);
    lemma_run_is(b, 0, 0, SPACE);
    lemma_run_is(b, 0, 0, HASH);
    assert(lead(b) == 0);
    assert(!fence(b));
    lemma_not_a_rule(b, 0);
    assert(list(b) is None) by {
        assert(blanks_end(b, 0) == 0);
        assert(digits_end(b, 0) == 0);
    }
    assert forall|k: int| w <= k < m implies !url_stop(#[trigger] b[k]) by {
        assert(b[k] == u[k - w]);
    }
    lemma_url_run_is(b, w, m);
    assert(b[m - 1] == u[u.len() - 1]);
    assert(url_trimmed(b, w, m) == m);
    assert(b[0] == LOWER_H && b[1] == LOWER_T && b[2] == LOWER_T && b[3] == LOWER_P);
    assert(b[4] == if secure { LOWER_S } else { COLON });
    assert(b[5] == if secure { COLON } else { SLASH });
    assert(b[6] == SLASH);
    if secure {
        assert(b[7] == SLASH);
    }
    assert(autolink(b, 0) == Some(m));
    assert forall|k: int| m <= k < n implies plain(#[trigger] b[k]) by {
        if m < k {
            assert(plain(t[k - m - 1]));
        }
    }
    lemma_words_scanned(b, 0, 0, m, m);
    let spans = seq![span(0, m, MdStyle::LinkUrl), span(m, n, MdStyle::Text)];
    assert(inline_spans(b, 0, 0, 0, 0) =~= spans);
    lemma_as_built(b, spans);
}

// ---------------------------------------------------------------------------
// Blocks
// ---------------------------------------------------------------------------
/// Plain words, all of them ASCII.
proof fn lemma_words_ascii(head: Seq<u8>, t: Seq<u8>)
    requires
        words(t),
        forall|k: int| 0 <= k < head.len() ==> (#[trigger] head[k]) < 128,
    ensures
        valid_utf8(head + t),
        !separator(decode_utf8(head + t)),
{
    let b = head + t;
    assert forall|j: int| 0 <= j < b.len() implies (#[trigger] b[j]) < 128 by {
        if head.len() <= j {
            assert(b[j] == t[j - head.len()]);
            assert(plain(t[j - head.len()]));
        }
    }
    lemma_ascii_valid(b);
    assert(b[head.len() as int] == t[0]);
    lemma_not_a_rule(b, head.len() as int);
}

/// Words that start with a letter are text.
pub proof fn law_plain_words(t: Seq<u8>)
    requires
        words(t),
        !digit(t[0]),
    ensures
        line_spans(t, false) == seq![span(0, t.len() as int, MdStyle::Text)],
{
    lemma_words_ascii(Seq::empty(), t);
    assert(Seq::<u8>::empty() + t =~= t);
    assert(plain(t[0]));
    lemma_run_is(t, 0, 0, SPACE);
    lemma_run_is(t, 0, 0, HASH);
    assert(lead(t) == 0);
    assert(!fence(t));
    assert(list(t) is None) by {
        assert(blanks_end(t, 0) == 0);
        assert(digits_end(t, 0) == 0);
    }
    lemma_words_scanned(t, 0, 0, 0, 0);
    let spans = seq![span(0, t.len() as int, MdStyle::Text)];
    assert(inline_spans(t, 0, 0, 0, 0) =~= spans);
    lemma_as_built(t, spans);
}

/// One to six `#` and a space make a heading of that level; seven make none.
pub proof fn law_heading(k: nat, t: Seq<u8>)
    requires
        words(t),
        k >= 1,
    ensures
        ({
            let w = k + 1 as int;
            let n = w + t.len();
            line_spans(times(HASH, k) + seq![SPACE] + t, false) == if k <= 6 {
                seq![
                    span(0, w, MdStyle::HeadingMarker(k as u8)),
                    span(w, n, MdStyle::Heading(k as u8)),
                ]
            } else {
                seq![span(0, n, MdStyle::Text)]
            }
        }),
{
    let head = times(HASH, k) + seq![SPACE];
    let b = head + t;
    let w = k as int;
    let n = b.len() as int;
    assert forall|j: int| 0 <= j < w implies #[trigger] b[j] == HASH by {}
    assert(b[w] == SPACE);
    assert forall|j: int| w < j < n implies #[trigger] b[j] == t[j - w - 1] by {}
    lemma_words_ascii(head, t);
    lemma_run_is(b, 0, 0, SPACE);
    lemma_run_is(b, 0, w, HASH);
    assert(lead(b) == 0);
    assert(!fence(b));
    assert(b.subrange(w + 1, n) =~= t);
    if k <= 6 {
        assert(heading(b) == Some((w, w + 1)));
        lemma_words_wrapped(t, w + 1, MdStyle::Heading(k as u8));
        let spans = seq![
            span(0, w + 1, MdStyle::HeadingMarker(k as u8)),
            span(w + 1, n, MdStyle::Heading(k as u8)),
        ];
        assert(built(b, false) =~= spans);
        lemma_as_built(b, spans);
    } else {
        assert(heading(b) is None);
        assert(list(b) is None) by {
            assert(blanks_end(b, 0) == 0);
            assert(digits_end(b, 0) == 0);
        }
        assert forall|j: int| 0 <= j < n implies plain(#[trigger] b[j]) by {
            if w < j {
                assert(plain(t[j - w - 1]));
            }
        }
        lemma_words_scanned(b, 0, 0, 0, 0);
        let spans = seq![span(0, n, MdStyle::Text)];
        assert(inline_spans(b, 0, 0, 0, 0) =~= spans);
        lemma_as_built(b, spans);
    }
}

/// A `>` and a space make a quote.
pub proof fn law_quote(t: Seq<u8>)
    requires
        words(t),
        !digit(t[0]),
    ensures
        line_spans(seq![GREATER, SPACE] + t, false) == seq![
            span(0, 2, MdStyle::QuoteMarker),
            span(2, (2 + t.len()) as int, MdStyle::Quote),
        ],
{
    lemma_words_ascii(Seq::empty(), t);
    assert(Seq::<u8>::empty() + t =~= t);
    assert(plain(t[0]));
    law_plain_words(t);
    let b = seq![GREATER, SPACE] + t;
    let n = b.len() as int;
    lemma_words_ascii(seq![GREATER, SPACE], t);
    lemma_run_is(b, 0, 0, SPACE);
    lemma_run_is(b, 0, 0, HASH);
    assert(b[0] == GREATER && b[1] == SPACE && b[2] == t[0]);
    assert(lead(b) == 0);
    assert(!fence(b));
    assert(sigils_end(b, 2) == 2);
    assert(quote(b) == Some(2int));
    assert(b.subrange(2, n) =~= t);
    let spans = seq![span(0, 2, MdStyle::QuoteMarker), span(2, n, MdStyle::Quote)];
    assert(built(b, false) =~= spans);
    lemma_as_built(b, spans);
}

/// The marks that open a list item: `-`, `*`, `+`, or a number of nine digits at most
/// with a dot or a bracket behind it.
pub open spec fn item_mark(m: Seq<u8>) -> bool {
    let n = m.len() as int;
    ||| m == seq![DASH]
    ||| m == seq![STAR]
    ||| m == seq![PLUS]
    ||| {
        &&& 2 <= n <= 10
        &&& m[n - 1] == DOT || m[n - 1] == CLOSE_PAREN
        &&& forall|k: int| 0 <= k < n - 1 ==> digit(#[trigger] m[k])
    }
}

pub proof fn lemma_digits_end_is(b: Seq<u8>, i: int, to: int)
    requires
        0 <= i <= to <= b.len(),
        forall|k: int| i <= k < to ==> digit(#[trigger] b[k]),
        to < b.len() ==> !digit(b[to]),
    ensures
        digits_end(b, i) == to,
    decreases to - i,
{
    if i < to {
        assert(digit(b[i]));
        lemma_digits_end_is(b, i + 1, to);
    }
}

pub proof fn lemma_blanks_end_is(b: Seq<u8>, i: int, to: int)
    requires
        0 <= i <= to <= b.len(),
        forall|k: int| i <= k < to ==> space(#[trigger] b[k]),
        to < b.len() ==> !space(b[to]),
    ensures
        blanks_end(b, i) == to,
    decreases to - i,
{
    if i < to {
        assert(space(b[i]));
        lemma_blanks_end_is(b, i + 1, to);
    }
}

/// Spaces and tabs.
pub open spec fn blanks(x: Seq<u8>) -> bool {
    forall|k: int| 0 <= k < x.len() ==> space(#[trigger] x[k])
}

/// A mark, indented or not, and a space open a list item.
pub proof fn lemma_item(x: Seq<u8>, m: Seq<u8>, rest: Seq<u8>)
    requires
        blanks(x),
        item_mark(m),
    ensures
        ({
            let b = x + m + seq![SPACE] + rest;
            &&& list(b) == Some((x.len() + m.len() + 1) as int)
            &&& quote(b) is None
            &&& heading(b) is None
            &&& !fence(b)
            &&& blanks_end(b, 0) == x.len()
            &&& digits_end(b, x.len() as int) == x.len() + m.len() - 1
        }),
{
    let b = x + m + seq![SPACE] + rest;
    let w = x.len() as int;
    let e = w + m.len();
    assert forall|k: int| 0 <= k < w implies #[trigger] b[k] == x[k] by {}
    assert forall|k: int| w <= k < e implies #[trigger] b[k] == m[k - w] by {}
    assert(b[e] == SPACE);
    assert(b[w] == m[0]);
    if m.len() > 1 {
        assert(digit(m[0]));
    }
    lemma_blanks_end_is(b, 0, w);
    assert forall|k: int| w <= k < e - 1 implies digit(#[trigger] b[k]) by {
        assert(b[k] == m[k - w]);
    }
    assert(b[e - 1] == m[m.len() - 1]);
    lemma_digits_end_is(b, w, e - 1);
    assert(bullet(b, w) == Some(e));
    crate::markdown::scan::lemma_run(b, 0, SPACE);
    let i = lead(b);
    assert(i <= w) by {
        if i > w {
            assert(b[w] == SPACE);
        }
    }
    lemma_run_is(b, i, i, HASH);
}

/// A list item: the mark and the space behind it, with the blanks before it, are its
/// bullet, and the words are text.
pub proof fn law_list_item(x: Seq<u8>, m: Seq<u8>, t: Seq<u8>)
    requires
        blanks(x),
        item_mark(m),
        words(t),
    ensures
        ({
            let w = (x.len() + m.len() + 1) as int;
            line_spans(x + m + seq![SPACE] + t, false) == seq![
                span(0, w, MdStyle::ListMarker),
                span(w, w + t.len(), MdStyle::Text),
            ]
        }),
{
    let head = x + m + seq![SPACE];
    let b = head + t;
    let w = head.len() as int;
    let n = b.len() as int;
    lemma_item(x, m, t);
    assert forall|k: int| 0 <= k < head.len() implies (#[trigger] head[k]) < 128 by {
        if k < x.len() {
            assert(space(x[k]));
        } else if k < x.len() + m.len() {
            assert(head[k] == m[k - x.len()]);
            if k - x.len() < m.len() - 1 {
                assert(digit(m[k - x.len()]));
            }
        }
    }
    lemma_words_ascii(head, t);
    assert(b.subrange(w, n) =~= t);
    assert(plain(t[0]));
    lemma_words_scanned(t, w, 0, 0, 0);
    let spans = seq![span(0, w, MdStyle::ListMarker), span(w, n, MdStyle::Text)];
    assert(built(b, false) =~= spans);
    lemma_as_built(b, spans);
}

/// A task box: `[ ]`, or `[x]` where it is ticked.
pub open spec fn task_box(tick: u8) -> Seq<u8> {
    seq![OPEN_BRACKET, tick, CLOSE_BRACKET, SPACE]
}

/// A list item with a box is a task: the box is drawn open or done, and the words of a
/// task that is done are struck through.
pub proof fn law_task(x: Seq<u8>, m: Seq<u8>, tick: u8, t: Seq<u8>)
    requires
        blanks(x),
        item_mark(m),
        words(t),
        tick == SPACE || tick == LOWER_X || tick == UPPER_X,
    ensures
        ({
            let w = (x.len() + m.len() + 1) as int;
            let done = tick != SPACE;
            line_spans(x + m + seq![SPACE] + (task_box(tick) + t), false) == seq![
                span(0, w, MdStyle::ListMarker),
                span(w, w + 4, if done {
                    MdStyle::TaskDone
                } else {
                    MdStyle::TaskOpen
                }),
                span(w + 4, w + 4 + t.len(), if done {
                    MdStyle::Strikethrough
                } else {
                    MdStyle::Text
                }),
            ]
        }),
{
    let front = x + m + seq![SPACE];
    let rest = task_box(tick) + t;
    let b = front + rest;
    let head = front + task_box(tick);
    let w = front.len() as int;
    let n = b.len() as int;
    lemma_item(x, m, rest);
    assert forall|k: int| 0 <= k < head.len() implies (#[trigger] head[k]) < 128 by {
        if k < x.len() {
            assert(space(x[k]));
        } else if k < x.len() + m.len() {
            assert(head[k] == m[k - x.len()]);
            if k - x.len() < m.len() - 1 {
                assert(digit(m[k - x.len()]));
            }
        }
    }
    lemma_words_ascii(head, t);
    assert(head + t =~= b);
    assert(b.subrange(w, n) =~= rest);
    assert(b.subrange(w + 4, n) =~= t);
    assert(rest[0] == OPEN_BRACKET && rest[1] == tick && rest[2] == CLOSE_BRACKET && rest[3]
        == SPACE);
    lemma_words_scanned(t, w + 4, 0, 0, 0);
    let spans = line_of_task(w, n, tick != SPACE);
    assert(built(b, false) =~= spans);
    lemma_as_built(b, spans);
}

spec fn line_of_task(w: int, n: int, done: bool) -> Seq<Styled> {
    seq![
        span(0, w, MdStyle::ListMarker),
        span(w, w + 4, if done {
            MdStyle::TaskDone
        } else {
            MdStyle::TaskOpen
        }),
        span(w + 4, n, if done {
            MdStyle::Strikethrough
        } else {
            MdStyle::Text
        }),
    ]
}

/// Three or more of `-`, `*` or `_` and nothing else are a rule; one or two are none.
pub proof fn law_rule(c: u8, k: nat)
    requires
        c == DASH || c == STAR || c == UNDERSCORE,
        k >= 1,
    ensures
        k >= 3 ==> line_spans(times(c, k), false) == seq![span(0, k as int, MdStyle::Separator)],
        k < 3 ==> line_spans(times(c, k), false) == seq![span(0, k as int, MdStyle::Text)],
{
    let b = times(c, k);
    let u = Seq::new(k, |j: int| c as char);
    is_ascii_chars_encode_utf8(u);
    assert(bytes(u) =~= b);
    encode_utf8_decode_utf8(u);
    crate::markdown::blocks::lemma_nothing_trimmed(u);
    lemma_all_copies(b, c, k as int);
    assert(separator(decode_utf8(b)) == (k >= 3));
    lemma_run_is(b, 0, 0, SPACE);
    lemma_run_is(b, 0, 0, HASH);
    lemma_run_is(b, 0, k as int, c);
    assert(lead(b) == 0);
    assert(!fence(b));
    if k >= 3 {
        let spans = seq![span(0, k as int, MdStyle::Separator)];
        assert(built(b, false) =~= spans);
        lemma_as_built(b, spans);
    } else {
        assert(list(b) is None) by {
            assert(blanks_end(b, 0) == 0);
            assert(digits_end(b, 0) == 0);
        }
        let n = k as int;
        assert(inline_spans(b, 0, 0, n, 0) == text_span(0, 0, n));
        if c == DASH {
            lemma_words_scanned(b, 0, 0, 0, 0);
        } else {
            assert(emphasis(b, 0) is None);
            assert(inline_spans(b, 0, 0, 0, 0) == inline_spans(b, 0, 0, n, 0));
        }
        let spans = seq![span(0, n, MdStyle::Text)];
        assert(built(b, false) =~= spans);
        lemma_as_built(b, spans);
    }
}

proof fn lemma_all_copies(b: Seq<u8>, c: u8, n: int)
    requires
        0 <= n <= b.len(),
        forall|k: int| 0 <= k < b.len() ==> #[trigger] b[k] == c,
    ensures
        copies(b, c, n) == n,
    decreases n,
{
    if n > 0 {
        lemma_all_copies(b, c, n - 1);
    }
}

/// Three or more backticks or tildes, with a word behind them or not, are a fence
/// wherever they stand.
pub proof fn law_fence(c: u8, k: nat, info: Seq<u8>, in_code: bool)
    requires
        c == BACKTICK || c == TILDE,
        k >= 3,
        forall|j: int| 0 <= j < info.len() ==> #[trigger] info[j] != BACKTICK && info[j] != TILDE,
    ensures
        fence(times(c, k) + info),
        line_spans(times(c, k) + info, in_code) == seq![
            span(0, (k + info.len()) as int, MdStyle::Fence),
        ],
{
    let b = times(c, k) + info;
    let w = k as int;
    assert forall|j: int| 0 <= j < w implies #[trigger] b[j] == c by {}
    assert forall|j: int| w <= j < b.len() implies #[trigger] b[j] != c && b[j] != BACKTICK by {
        assert(b[j] == info[j - w]);
    }
    lemma_run_is(b, 0, 0, SPACE);
    lemma_run_is(b, 0, w, c);
    assert(lead(b) == 0);
    assert(fence(b));
    let spans = seq![span(0, b.len() as int, MdStyle::Fence)];
    assert(built(b, in_code) =~= spans);
    lemma_nothing_to_merge(spans);
}

/// Inside a code block a line is code, whatever it says, unless it is a fence; one that
/// does not open with a backtick, a tilde or a space never is.
pub proof fn law_code_block(b: Seq<u8>)
    requires
        b.len() > 0,
        b[0] != BACKTICK,
        b[0] != TILDE,
        b[0] != SPACE,
    ensures
        !fence(b),
        line_spans(b, true) == seq![span(0, b.len() as int, MdStyle::CodeBlock)],
{
    lemma_run_is(b, 0, 0, SPACE);
    assert(lead(b) == 0);
    let spans = seq![span(0, b.len() as int, MdStyle::CodeBlock)];
    assert(built(b, true) =~= spans);
    lemma_nothing_to_merge(spans);
}

} // verus!
