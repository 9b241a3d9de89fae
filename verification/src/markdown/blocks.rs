//! What a whole line is, and how that shows in its spans.

use vstd::prelude::*;
use vstd::utf8::*;

use crate::ascii::{BACKTICK, BANG, GREATER, HASH, LOWER_H, OPEN_BRACKET, SPACE};
use crate::markdown::inline::{
    emphasis, emphasis_char, emphasis_style, inline_spans, lemma_emphasis, link_from, link_open, one,
    recoloured, text_span, wrapped_spans, MAX_INLINE_NEST,
};
use crate::markdown::painted::lemma_nothing_to_merge;
use crate::markdown::scan::{
    autolink, exact_run, lemma_autolink, lemma_exact_run, lemma_link, lemma_run, lemma_run_is, run,
    space,
};
use crate::markdown::{
    built, fence, heading, lead, lemma_line_covers, line_spans, list, list_spans, merged, quote,
    quote_level, rule_char, separator, shifted, sigils_end, task, underlinable, MdStyle, Styled,
};
use crate::note::{rule_of, separator_line};
use crate::text::{
    ascii_white, bytes, copies, lemma_bytes_concat, lemma_bytes_injective, lemma_subrange_valid,
    trimmed, trimmed_end, trimmed_start, white_space,
};

verus! {

broadcast use vstd::seq::group_seq_axioms;

/// The styles of running text.
pub open spec fn prose(style: MdStyle) -> bool {
    match style {
        MdStyle::Text
        | MdStyle::Bold
        | MdStyle::Italic
        | MdStyle::BoldItalic
        | MdStyle::Strikethrough
        | MdStyle::Highlight
        | MdStyle::Code
        | MdStyle::Marker
        | MdStyle::LinkText
        | MdStyle::LinkUrl => true,
        _ => false,
    }
}

/// Every span has a style of running text.
pub open spec fn all_prose(spans: Seq<Styled>) -> bool {
    forall|k: int| 0 <= k < spans.len() ==> prose((#[trigger] spans[k]).style)
}

/// No span has the style `style`.
pub open spec fn without_style(spans: Seq<Styled>, style: MdStyle) -> bool {
    forall|k: int| 0 <= k < spans.len() ==> (#[trigger] spans[k]).style != style
}

proof fn lemma_prose_concat(s: Seq<Styled>, t: Seq<Styled>)
    requires
        all_prose(s),
        all_prose(t),
    ensures
        all_prose(s + t),
{
    let u = s + t;
    assert forall|k: int| 0 <= k < u.len() implies prose((#[trigger] u[k]).style) by {
        if k < s.len() {
            assert(u[k] == s[k]);
        } else {
            assert(u[k] == t[k - s.len()]);
        }
    }
}

proof fn lemma_wrapped_prose(b: Seq<u8>, base: int, wrap: MdStyle, depth: int)
    requires
        prose(wrap),
    ensures
        all_prose(wrapped_spans(b, base, wrap, depth)),
    decreases b.len(), b.len() + 1,
{
    if depth < MAX_INLINE_NEST {
        lemma_inline_prose(b, base, depth + 1, 0, 0);
        let inner = inline_spans(b, base, depth + 1, 0, 0);
        let s = recoloured(inner, wrap);
        assert forall|k: int| 0 <= k < s.len() implies prose((#[trigger] s[k]).style) by {
            assert(prose(inner[k].style));
        }
    }
}

/// The scanner paints running text.
proof fn lemma_inline_prose(b: Seq<u8>, base: int, depth: int, i: int, text_start: int)
    requires
        0 <= i,
    ensures
        all_prose(inline_spans(b, base, depth, i, text_start)),
    decreases b.len(), b.len() - i,
{
    if i >= b.len() {
    } else if b[i] == BACKTICK {
        let r = run(b, i, BACKTICK) as int;
        lemma_run(b, i, BACKTICK);
        match exact_run(b, i + r, BACKTICK, r as nat) {
            Some(j) => {
                lemma_exact_run(b, i + r, BACKTICK, r as nat);
                lemma_inline_prose(b, base, depth, j + r, j + r);
                let s = text_span(base, text_start, i);
                let t = one(base, i, j + r, MdStyle::Code);
                lemma_prose_concat(s, t);
                lemma_prose_concat(s + t, inline_spans(b, base, depth, j + r, j + r));
            },
            None => {
                lemma_inline_prose(b, base, depth, i + r, text_start);
            },
        }
    } else if emphasis_char(b[i]) {
        lemma_run(b, i, b[i]);
        match emphasis(b, i) {
            Some((need, j)) => {
                lemma_emphasis(b, i);
                let style = emphasis_style(b[i], need);
                let s = text_span(base, text_start, i);
                let t = one(base, i, i + need, MdStyle::Marker);
                let u = wrapped_spans(b.subrange(i + need, j), base + i + need, style, depth);
                let v = one(base, j, j + need, MdStyle::Marker);
                lemma_wrapped_prose(b.subrange(i + need, j), base + i + need, style, depth);
                lemma_inline_prose(b, base, depth, j + need, j + need);
                lemma_prose_concat(s, t);
                lemma_prose_concat(s + t, u);
                lemma_prose_concat(s + t + u, v);
                lemma_prose_concat(
                    s + t + u + v,
                    inline_spans(b, base, depth, j + need, j + need),
                );
            },
            None => {
                lemma_inline_prose(b, base, depth, i + run(b, i, b[i]), text_start);
            },
        }
    } else if b[i] == BANG || b[i] == OPEN_BRACKET {
        match link_from(b, i) {
            Some((rb, rp)) => {
                let open = link_open(b, i);
                lemma_link(b, open);
                let s = text_span(base, text_start, i);
                let m = one(base, i, open + 1, MdStyle::Marker);
                let w = if rb > open + 1 {
                    lemma_wrapped_prose(
                        b.subrange(open + 1, rb),
                        base + open + 1,
                        MdStyle::LinkText,
                        depth,
                    );
                    wrapped_spans(b.subrange(open + 1, rb), base + open + 1, MdStyle::LinkText, depth)
                } else {
                    Seq::empty()
                };
                let x = one(base, rb, rb + 2, MdStyle::Marker);
                let y = if rp > rb + 2 {
                    one(base, rb + 2, rp, MdStyle::Marker)
                } else {
                    Seq::empty()
                };
                let z = one(base, rp, rp + 1, MdStyle::Marker);
                lemma_inline_prose(b, base, depth, rp + 1, rp + 1);
                lemma_prose_concat(s, m);
                lemma_prose_concat(s + m, w);
                lemma_prose_concat(s + m + w, x);
                lemma_prose_concat(s + m + w + x, y);
                lemma_prose_concat(s + m + w + x + y, z);
                lemma_prose_concat(
                    s + m + w + x + y + z,
                    inline_spans(b, base, depth, rp + 1, rp + 1),
                );
            },
            None => {
                lemma_inline_prose(b, base, depth, i + 1, text_start);
            },
        }
    } else if b[i] == LOWER_H {
        match autolink(b, i) {
            Some(end) => {
                lemma_autolink(b, i);
                lemma_inline_prose(b, base, depth, end, end);
                let s = text_span(base, text_start, i);
                let t = one(base, i, end, MdStyle::LinkUrl);
                lemma_prose_concat(s, t);
                lemma_prose_concat(s + t, inline_spans(b, base, depth, end, end));
            },
            None => {
                lemma_inline_prose(b, base, depth, i + 1, text_start);
            },
        }
    } else {
        lemma_inline_prose(b, base, depth, i + 1, text_start);
    }
}

/// Joining neighbours brings in no style.
proof fn lemma_merged_prose(spans: Seq<Styled>)
    requires
        all_prose(spans),
    ensures
        all_prose(merged(spans)),
    decreases spans.len(),
{
    if spans.len() > 0 {
        assert forall|k: int| 0 <= k < spans.drop_last().len() implies prose(
            (#[trigger] spans.drop_last()[k]).style,
        ) by {
            assert(spans.drop_last()[k] == spans[k]);
        }
        lemma_merged_prose(spans.drop_last());
        let done = merged(spans.drop_last());
        let all = merged(spans);
        assert(prose(spans[spans.len() - 1].style));
        assert forall|k: int| 0 <= k < all.len() implies prose((#[trigger] all[k]).style) by {
            if k < done.len() {
                assert(prose(done[k].style));
            }
        }
    }
}

proof fn lemma_merged_without(spans: Seq<Styled>, style: MdStyle)
    requires
        without_style(spans, style),
    ensures
        without_style(merged(spans), style),
    decreases spans.len(),
{
    if spans.len() > 0 {
        assert forall|k: int| 0 <= k < spans.drop_last().len() implies (
        #[trigger] spans.drop_last()[k]).style != style by {
            assert(spans.drop_last()[k] == spans[k]);
        }
        lemma_merged_without(spans.drop_last(), style);
        let done = merged(spans.drop_last());
        let all = merged(spans);
        assert(spans[spans.len() - 1].style != style);
        assert forall|k: int| 0 <= k < all.len() implies (#[trigger] all[k]).style != style by {
            if k < done.len() {
                assert(done[k].style != style);
            }
        }
    }
}

// ---------------------------------------------------------------------------
// Trimming
// ---------------------------------------------------------------------------
/// Trimming in front takes white space, as far as there is any.
proof fn lemma_trimmed_front(s: Seq<char>) -> (a: int)
    ensures
        0 <= a <= s.len(),
        trimmed_start(s) == s.skip(a),
        forall|k: int| 0 <= k < a ==> white_space(#[trigger] s[k]),
        a < s.len() ==> !white_space(s[a]),
    decreases s.len(),
{
    if s.len() > 0 && white_space(s[0]) {
        let rest = s.drop_first();
        let a = lemma_trimmed_front(rest);
        assert(rest.skip(a) =~= s.skip(a + 1));
        assert forall|k: int| 0 <= k < a + 1 implies white_space(#[trigger] s[k]) by {
            if k > 0 {
                assert(rest[k - 1] == s[k]);
            }
        }
        if a < rest.len() {
            assert(rest[a] == s[a + 1]);
        }
        a + 1
    } else {
        assert(s.skip(0) =~= s);
        0
    }
}

/// Trimming behind takes white space too.
proof fn lemma_trimmed_back(s: Seq<char>) -> (m: int)
    ensures
        0 <= m <= s.len(),
        trimmed_end(s) == s.take(m),
        forall|k: int| m <= k < s.len() ==> white_space(#[trigger] s[k]),
        s.len() > 0 && !white_space(s[0]) ==> m > 0,
    decreases s.len(),
{
    if s.len() > 0 && white_space(s.last()) {
        let rest = s.drop_last();
        let m = lemma_trimmed_back(rest);
        assert(rest.take(m) =~= s.take(m));
        assert forall|k: int| m <= k < s.len() implies white_space(#[trigger] s[k]) by {
            if k < rest.len() {
                assert(rest[k] == s[k]);
            }
        }
        if s.len() > 1 {
            assert(rest[0] == s[0]);
        }
        m
    } else {
        assert(s.take(s.len() as int) =~= s);
        s.len() as int
    }
}

/// A character that is no white space, behind white space, is what a trimmed line
/// starts with.
proof fn lemma_trimmed_first(u: Seq<char>, c: char, rest: Seq<char>)
    requires
        forall|k: int| 0 <= k < u.len() ==> white_space(#[trigger] u[k]),
        !white_space(c),
    ensures
        trimmed(u + seq![c] + rest).len() > 0,
        trimmed(u + seq![c] + rest)[0] == c,
{
    let s = u + seq![c] + rest;
    let a = lemma_trimmed_front(s);
    assert(s[u.len() as int] == c);
    if a < u.len() {
        assert(s[a] == u[a]);
    }
    assert(a == u.len());
    let t = s.skip(a);
    let m = lemma_trimmed_back(t);
    assert(t[0] == c);
}

/// A line that starts with `c`, which is no part of a rule, is no rule.
pub proof fn lemma_no_rule_behind(b: Seq<u8>, n: int, c: char)
    requires
        valid_utf8(b),
        0 <= n < b.len(),
        forall|k: int| 0 <= k < n ==> #[trigger] b[k] == SPACE,
        (c as int) < 128,
        b[n] == c as u8,
        !white_space(c),
    ensures
        trimmed(decode_utf8(b)).len() > 0,
        bytes(trimmed(decode_utf8(b))).len() > 0,
        bytes(trimmed(decode_utf8(b)))[0] == b[n],
{
    let u = Seq::new(n as nat, |k: int| ' ');
    let rest = b.subrange(n + 1, b.len() as int);
    crate::text::lemma_ascii_boundary(b, n);
    lemma_subrange_valid(b, n + 1, b.len() as int);
    let r = decode_utf8(rest);
    decode_utf8_encode_utf8(rest);
    is_ascii_chars_encode_utf8(u + seq![c]);
    lemma_bytes_concat(u + seq![c], r);
    assert(bytes(u + seq![c] + r) =~= b);
    encode_utf8_decode_utf8(u + seq![c] + r);
    lemma_trimmed_first(u, c, r);
    let t = trimmed(decode_utf8(b));
    is_ascii_chars_encode_utf8(seq![c]);
    lemma_bytes_concat(seq![c], t.skip(1));
    assert(seq![c] + t.skip(1) =~= t);
}

/// Text without white space at its ends is trimmed already.
pub proof fn lemma_nothing_trimmed(s: Seq<char>)
    requires
        s.len() > 0,
        !white_space(s[0]),
        !white_space(s.last()),
    ensures
        trimmed(s) == s,
{
    let a = lemma_trimmed_front(s);
    if a > 0 {
        assert(white_space(s[0]));
    }
    assert(s.skip(0) =~= s);
    let m = lemma_trimmed_back(s);
    if m < s.len() {
        assert(white_space(s[s.len() - 1]));
    }
    assert(s.take(m) =~= s);
}

/// A character that is no white space stays, however much is trimmed around it.
pub proof fn lemma_trimmed_keeps(x: Seq<char>, c: char, y: Seq<char>) -> (r: (Seq<char>, Seq<char>))
    requires
        !white_space(c),
    ensures
        trimmed(x + seq![c] + y) == r.0 + seq![c] + r.1,
{
    let s = x + seq![c] + y;
    let j = x.len() as int;
    assert(s[j] == c);
    let a = lemma_trimmed_front(s);
    if a > j {
        assert(white_space(s[j]));
    }
    let t = s.skip(a);
    let m = lemma_trimmed_back(t);
    assert(t[j - a] == c);
    if m <= j - a {
        assert(white_space(t[j - a]));
    }
    let u = t.take(m);
    assert(u =~= u.take(j - a) + seq![c] + u.skip(j - a + 1));
    (u.take(j - a), u.skip(j - a + 1))
}

/// The characters of a line, apart at an ASCII byte.
pub proof fn lemma_apart_at(b: Seq<u8>, k: int) -> (r: (Seq<char>, Seq<char>))
    requires
        valid_utf8(b),
        0 <= k < b.len(),
        b[k] < 128,
    ensures
        decode_utf8(b) == r.0 + seq![b[k] as char] + r.1,
        bytes(r.0) == b.subrange(0, k),
        bytes(r.1) == b.subrange(k + 1, b.len() as int),
{
    let c = b[k] as char;
    let n = b.len() as int;
    crate::text::lemma_ascii_boundary(b, k);
    crate::text::lemma_first_byte(b);
    lemma_subrange_valid(b, 0, k);
    lemma_subrange_valid(b, k + 1, n);
    let x = decode_utf8(b.subrange(0, k));
    let y = decode_utf8(b.subrange(k + 1, n));
    decode_utf8_encode_utf8(b.subrange(0, k));
    decode_utf8_encode_utf8(b.subrange(k + 1, n));
    is_ascii_chars_encode_utf8(seq![c]);
    lemma_bytes_concat(x, seq![c]);
    lemma_bytes_concat(x + seq![c], y);
    assert(bytes(seq![c]) =~= seq![b[k]]);
    assert(bytes(x + seq![c] + y) =~= b);
    encode_utf8_decode_utf8(x + seq![c] + y);
    (x, y)
}

/// A line with a mark in it that no rule is made of is no rule.
pub proof fn lemma_not_a_rule(b: Seq<u8>, k: int)
    requires
        valid_utf8(b),
        0 <= k < b.len(),
        0x20 < b[k] < 0x7f,
        !rule_char(b[k]),
    ensures
        !separator(decode_utf8(b)),
{
    let c = b[k] as char;
    let (x, y) = lemma_apart_at(b, k);
    let (u, v) = lemma_trimmed_keeps(x, c, y);
    let t = bytes(u + seq![c] + v);
    is_ascii_chars_encode_utf8(seq![c]);
    lemma_bytes_concat(u, seq![c]);
    lemma_bytes_concat(u + seq![c], v);
    assert(t[bytes(u).len() as int] == b[k]);
}

// ---------------------------------------------------------------------------
// Quotes
// ---------------------------------------------------------------------------
/// A line with a quote's sigil and a space in front of it.
pub open spec fn quoted(b: Seq<u8>) -> Seq<u8> {
    seq![GREATER, SPACE] + b
}

/// The spans of a quote whose text has the spans `spans`: the sigil, then the text
/// moved behind it, its plain words in a quote's colour.
pub open spec fn quoted_spans(spans: Seq<Styled>) -> Seq<Styled> {
    one(0, 0, 2, MdStyle::QuoteMarker) + recoloured(shifted(spans, 2), MdStyle::Quote)
}

/// A line in quotes is a quote, and nothing else.
proof fn lemma_quoted(b: Seq<u8>)
    requires
        valid_utf8(b),
        b.len() > 0,
        b[0] != GREATER,
    ensures
        valid_utf8(quoted(b)),
        quote_level(quoted(b), false),
        quote(quoted(b)) == Some(2int),
        built(quoted(b), false) == quoted_spans(line_spans(b, false)),
{
    let q = quoted(b);
    let mark = seq!['>', ' '];
    is_ascii_chars_encode_utf8(mark);
    decode_utf8_encode_utf8(b);
    lemma_bytes_concat(mark, decode_utf8(b));
    assert(bytes(mark + decode_utf8(b)) =~= q);
    encode_utf8_valid_utf8(mark + decode_utf8(b));
    lemma_run_is(q, 0, 0, SPACE);
    lemma_run_is(q, 0, 0, HASH);
    assert(lead(q) == 0);
    assert(!fence(q));
    assert(heading(q) is None);
    lemma_no_rule_behind(q, 0, '>');
    assert(!separator(decode_utf8(q)));
    assert(q[1] == SPACE && q[2] == b[0]);
    assert(sigils_end(q, 2) == 2);
    assert(sigils_end(q, 0) == sigils_end(q, 2));
    assert(q.subrange(2, q.len() as int) =~= b);
}

/// What a line is made of, when it is no quote, has none of a quote's styles.
proof fn lemma_no_quote_styles(b: Seq<u8>)
    requires
        b.len() > 0,
        !quote_level(b, false),
    ensures
        without_style(line_spans(b, false), MdStyle::Quote),
        without_style(line_spans(b, false), MdStyle::QuoteMarker),
{
    let n = b.len() as int;
    let s = built(b, false);
    assert forall|k: int| 0 <= k < s.len() implies (#[trigger] s[k]).style != MdStyle::Quote
        && s[k].style != MdStyle::QuoteMarker by {
        if fence(b) || separator(decode_utf8(b)) {
        } else if heading(b) is Some {
            let (level, end) = heading(b)->0;
            if end < n && k > 0 {
                let c = b.subrange(end, n);
                let w = wrapped_spans(c, end, MdStyle::Heading(level as u8), 0);
                let inner = inline_spans(c, end, 1, 0, 0);
                lemma_inline_prose(c, end, 1, 0, 0);
                assert(w == recoloured(inner, MdStyle::Heading(level as u8)));
                assert(s[k] == w[k - 1]);
                assert(prose(inner[k - 1].style));
            }
        } else if list(b) is Some {
            lemma_list_styles(b, list(b)->0, k);
        } else {
            lemma_inline_prose(b, 0, 0, 0, 0);
        }
    }
    lemma_merged_without(s, MdStyle::Quote);
    lemma_merged_without(s, MdStyle::QuoteMarker);
}

proof fn lemma_list_styles(b: Seq<u8>, end: int, k: int)
    requires
        0 <= k < list_spans(b, end).len(),
    ensures
        list_spans(b, end)[k].style != MdStyle::Quote,
        list_spans(b, end)[k].style != MdStyle::QuoteMarker,
{
    let n = b.len() as int;
    let s = list_spans(b, end);
    match task(b.subrange(end, n)) {
        Some((len, style)) => {
            let at = end + len;
            let content = inline_spans(b.subrange(at, n), at, 0, 0, 0);
            lemma_inline_prose(b.subrange(at, n), at, 0, 0, 0);
            if k >= 2 {
                assert(prose(content[k - 2].style));
            }
        },
        None => {
            let content = inline_spans(b.subrange(end, n), end, 0, 0, 0);
            lemma_inline_prose(b.subrange(end, n), end, 0, 0, 0);
            if k >= 1 {
                assert(prose(content[k - 1].style));
            }
        },
    }
}

/// Quoting a line moves its spans behind the sigil and gives its plain words a
/// quote's colour, and that is all. Where the line is a quote already, the sigils
/// of the two run together into one span.
pub proof fn law_quoting_shifts_and_recolours(b: Seq<u8>)
    requires
        valid_utf8(b),
        b.len() > 0,
        b[0] != GREATER,
    ensures
        line_spans(quoted(b), false) == merged(quoted_spans(line_spans(b, false))),
        !quote_level(b, false) ==> line_spans(quoted(b), false) == quoted_spans(
            line_spans(b, false),
        ),
{
    lemma_quoted(b);
    if !quote_level(b, false) {
        let spans = line_spans(b, false);
        let all = quoted_spans(spans);
        lemma_no_quote_styles(b);
        lemma_line_covers(b, false);
        assert forall|k: int, m: int| 0 <= k && m == k + 1 && m < all.len() implies (
        #[trigger] all[k]).style != (#[trigger] all[m]).style by {
            assert(spans[m - 1].style != MdStyle::QuoteMarker);
            if k > 0 {
                assert(spans[k - 1].style != spans[m - 1].style);
                assert(spans[k - 1].style != MdStyle::Quote && spans[m - 1].style != MdStyle::Quote);
            }
        }
        lemma_nothing_to_merge(all);
    }
}

// ---------------------------------------------------------------------------
// Underlines
// ---------------------------------------------------------------------------
/// What can take an underline is drawn as running text: the scanner's own spans,
/// without a marker of any block.
pub proof fn law_what_takes_an_underline_is_prose(line: Seq<char>)
    requires
        underlinable(line),
    ensures
        line_spans(bytes(line), false) == merged(inline_spans(bytes(line), 0, 0, 0, 0)),
        all_prose(line_spans(bytes(line), false)),
{
    let b = bytes(line);
    encode_utf8_decode_utf8(line);
    encode_utf8_valid_utf8(line);
    if quote(b) is Some {
        let at = lead(b);
        lemma_run(b, 0, SPACE);
        lemma_no_rule_behind(b, at, '>');
    }
    if b.len() == 0 {
        crate::text::lemma_bytes_empty(line);
        assert(trimmed(line) =~= line);
        crate::text::lemma_bytes_empty(trimmed(line));
    }
    lemma_inline_prose(b, 0, 0, 0, 0);
    lemma_merged_prose(inline_spans(b, 0, 0, 0, 0));
}

// ---------------------------------------------------------------------------
// Rules
// ---------------------------------------------------------------------------
pub proof fn lemma_copies_concat(x: Seq<u8>, y: Seq<u8>, c: u8, n: int)
    requires
        0 <= n <= y.len(),
    ensures
        copies(x + y, c, x.len() + n) == copies(x, c, x.len() as int) + copies(y, c, n),
    decreases n,
{
    if n > 0 {
        lemma_copies_concat(x, y, c, n - 1);
        assert((x + y)[x.len() + n - 1] == y[n - 1]);
    } else {
        lemma_copies_prefix(x, y, c, x.len() as int);
    }
}

proof fn lemma_copies_prefix(x: Seq<u8>, y: Seq<u8>, c: u8, n: int)
    requires
        0 <= n <= x.len(),
    ensures
        copies(x + y, c, n) == copies(x, c, n),
    decreases n,
{
    if n > 0 {
        lemma_copies_prefix(x, y, c, n - 1);
        assert((x + y)[n - 1] == x[n - 1]);
    }
}

pub proof fn lemma_no_copies_of(x: Seq<u8>, c: u8, n: int)
    requires
        0 <= n <= x.len(),
        forall|k: int| 0 <= k < x.len() ==> #[trigger] x[k] != c,
    ensures
        copies(x, c, n) == 0,
    decreases n,
{
    if n > 0 {
        lemma_no_copies_of(x, c, n - 1);
        assert(x[n - 1] != c);
    }
}

pub proof fn lemma_no_copies(x: Seq<u8>, c: u8, n: int)
    requires
        0 <= n <= x.len(),
        forall|k: int| 0 <= k < n ==> #[trigger] x[k] != c,
    ensures
        copies(x, c, n) == 0,
    decreases n,
{
    if n > 0 {
        lemma_no_copies(x, c, n - 1);
    }
}

/// White space in a line is made of spaces and tabs alone.
pub open spec fn plainly_spaced(line: Seq<char>) -> bool {
    forall|k: int| 0 <= k < line.len() && white_space(#[trigger] line[k]) ==> line[k] == ' ' || line[k]
        == '\t'
}

/// Spaces and tabs, as bytes.
proof fn lemma_spaces(s: Seq<char>)
    requires
        forall|k: int| 0 <= k < s.len() ==> (#[trigger] s[k] == ' ' || s[k] == '\t'),
    ensures
        bytes(s).len() == s.len(),
        forall|k: int| 0 <= k < bytes(s).len() ==> space(#[trigger] bytes(s)[k]),
{
    is_ascii_chars_encode_utf8(s);
    assert forall|k: int| 0 <= k < bytes(s).len() implies space(#[trigger] bytes(s)[k]) by {
        assert(s[k] == ' ' || s[k] == '\t');
    }
}

/// A line as it is trimmed: the spaces in front, what stays, the spaces behind.
proof fn lemma_trimmed_parts(line: Seq<char>) -> (r: (Seq<u8>, Seq<u8>))
    requires
        plainly_spaced(line),
    ensures
        bytes(line) == r.0 + bytes(trimmed(line)) + r.1,
        forall|k: int| 0 <= k < r.0.len() ==> space(#[trigger] r.0[k]),
        forall|k: int| 0 <= k < r.1.len() ==> space(#[trigger] r.1[k]),
        trimmed(line).len() > 0 ==> !white_space(trimmed(line)[0]),
{
    let a = lemma_trimmed_front(line);
    let s = line.skip(a);
    let m = lemma_trimmed_back(s);
    let front = line.take(a);
    let back = s.skip(m);
    let t = trimmed(line);
    assert(t == s.take(m));
    assert forall|k: int| 0 <= k < front.len() implies (#[trigger] front[k] == ' ' || front[k]
        == '\t') by {
        assert(white_space(line[k]));
    }
    assert forall|k: int| 0 <= k < back.len() implies (#[trigger] back[k] == ' ' || back[k]
        == '\t') by {
        assert(white_space(s[m + k]));
        assert(s[m + k] == line[a + m + k]);
    }
    lemma_spaces(front);
    lemma_spaces(back);
    assert(line =~= front + t + back);
    lemma_bytes_concat(front, t);
    lemma_bytes_concat(front + t, back);
    if t.len() > 0 {
        assert(t[0] == line[a]);
    }
    (bytes(front), bytes(back))
}

/// A line of ASCII bytes is those characters.
proof fn lemma_ascii_line(line: Seq<char>)
    requires
        forall|k: int| 0 <= k < bytes(line).len() ==> (#[trigger] bytes(line)[k]) < 128,
    ensures
        bytes(line).len() == line.len(),
        forall|k: int| 0 <= k < line.len() ==> #[trigger] line[k] == bytes(line)[k] as char,
{
    let b = bytes(line);
    let u = Seq::new(b.len(), |k: int| b[k] as char);
    is_ascii_chars_encode_utf8(u);
    assert(bytes(u) =~= b);
    lemma_bytes_injective(u, line);
}

/// The two tests for a rule agree, as long as a line's white space is made of
/// spaces and tabs: what is drawn as a hairline is what divides notes.
pub proof fn law_rules_look_like_rules(line: Seq<char>)
    requires
        plainly_spaced(line),
    ensures
        separator(line) == separator_line(bytes(line)),
{
    let l = bytes(line);
    let t = bytes(trimmed(line));
    let (x, y) = lemma_trimmed_parts(line);
    if separator(line) {
        let c = t[0];
        lemma_copies_concat(x, t, c, t.len() as int);
        lemma_copies_concat(x + t, y, c, y.len() as int);
        assert forall|k: int| 0 <= k < l.len() implies #[trigger] l[k] == c || ascii_white(l[k]) by {
            if k < x.len() {
                assert(l[k] == x[k]);
            } else if k < x.len() + t.len() {
                assert(l[k] == t[k - x.len()]);
            } else {
                assert(l[k] == y[k - x.len() - t.len()]);
            }
        }
        assert(rule_of(l, c));
    }
    if separator_line(l) {
        let c = choose|c: u8| rule_char(c) && #[trigger] rule_of(l, c);
        assert forall|k: int| 0 <= k < l.len() implies (#[trigger] l[k]) < 128 by {
            assert(l[k] == c || ascii_white(l[k]));
        }
        lemma_ascii_line(line);
        assert forall|k: int| 0 <= k < l.len() implies #[trigger] l[k] == c || space(l[k]) by {
            assert(l[k] == c || ascii_white(l[k]));
            assert(line[k] == l[k] as char);
            if l[k] != c {
                assert(white_space(line[k]));
            }
        }
        lemma_copies_concat(x, t, c, t.len() as int);
        lemma_copies_concat(x + t, y, c, y.len() as int);
        lemma_no_copies(x, c, x.len() as int);
        lemma_no_copies(y, c, y.len() as int);
        assert(copies(t, c, t.len() as int) >= 3);
        assert forall|k: int| 0 <= k < t.len() implies #[trigger] t[k] == c || space(t[k]) by {
            assert(l[x.len() + k] == t[k]);
        }
        assert forall|k: int| 0 <= k < t.len() implies (#[trigger] t[k]) < 128 by {
            assert(l[x.len() + k] == t[k]);
        }
        lemma_ascii_line(trimmed(line));
        assert(t.len() > 0);
        assert(trimmed(line)[0] == t[0] as char);
        assert(t[0] == c);
    }
}

} // verus!
