//! Marks in the middle of a sentence: which of them mark up, and what around them stays
//! text.

use vstd::prelude::*;
use vstd::utf8::*;

use crate::ascii::{EQUALS, HASH, LOWER_H, SPACE, STAR, TILDE, UNDERSCORE};
use crate::markdown::blocks::{lemma_apart_at, lemma_not_a_rule};
use crate::markdown::inline::{
    emphasis, emphasis_char, emphasis_style, inline_spans, longest_emphasis, opens, text_span, wrapped_spans,
};
use crate::markdown::painted::lemma_nothing_to_merge;
use crate::markdown::probes::prose_words;
use crate::markdown::scan::{
    alnum_from, alnum_until, autolink, closes, emph_close, lemma_run_is, run, space,
};
use crate::markdown::shapes::{lemma_ascii_valid, plain, span, times, words};
use crate::markdown::words::word_byte;
use crate::markdown::{
    blanks_end, built, digits_end, fence, heading, lead, line_spans, list, quote, MdStyle,
};
use crate::text::{lemma_ascii_boundary, lemma_first_byte, lemma_subrange_valid};

verus! {

broadcast use vstd::seq::group_seq_axioms;

/// What ends in an ASCII mark ends in no letter or digit.
proof fn lemma_after_mark(b: Seq<u8>, i: int)
    requires
        valid_utf8(b),
        0 < i <= b.len(),
        b[i - 1] < 128,
        !word_byte(b[i - 1]),
    ensures
        !alnum_until(b, i),
{
    lemma_ascii_boundary(b, i - 1);
    lemma_first_byte(b);
    lemma_subrange_valid(b, 0, i);
    let h = b.subrange(0, i);
    assert(h[i - 1] == b[i - 1]);
    let (x, y) = lemma_apart_at(h, i - 1);
    assert(h.subrange(i, i) =~= Seq::empty());
    crate::text::lemma_bytes_empty(y);
    assert(decode_utf8(h).last() == b[i - 1] as char);
}

/// What starts with an ASCII mark starts with no letter or digit.
proof fn lemma_before_mark(b: Seq<u8>, i: int)
    requires
        valid_utf8(b),
        0 <= i < b.len(),
        b[i] < 128,
        !word_byte(b[i]),
    ensures
        !alnum_from(b, i),
{
    let n = b.len() as int;
    lemma_ascii_boundary(b, i);
    lemma_subrange_valid(b, i, n);
    let t = b.subrange(i, n);
    assert(t[0] == b[i]);
    let (x, y) = lemma_apart_at(t, 0);
    assert(t.subrange(0, 0) =~= Seq::empty());
    crate::text::lemma_bytes_empty(x);
    assert(decode_utf8(t)[0] == b[i] as char);
}

/// Up to where the first mark is, everything is text.
proof fn lemma_skipped(b: Seq<u8>, i: int, to: int, text_start: int)
    requires
        0 <= i <= to <= b.len(),
        forall|k: int| i <= k < to ==> plain(#[trigger] b[k]),
        to < b.len() ==> emphasis_char(b[to]),
    ensures
        inline_spans(b, 0, 0, i, text_start) == inline_spans(b, 0, 0, to, text_start),
    decreases to - i,
{
    if i < to {
        assert(plain(b[i]));
        if b[i] == LOWER_H {
            lemma_no_scheme(b, i, to);
        }
        assert(inline_spans(b, 0, 0, i, text_start) == inline_spans(b, 0, 0, i + 1, text_start));
        lemma_skipped(b, i + 1, to, text_start);
    }
}

/// No url starts in text that marks nothing up, before a mark.
proof fn lemma_no_scheme(b: Seq<u8>, i: int, to: int)
    requires
        0 <= i < to <= b.len(),
        forall|k: int| i <= k < to ==> plain(#[trigger] b[k]),
        to < b.len() ==> emphasis_char(b[to]),
    ensures
        autolink(b, i) is None,
{
    if i + 4 < to {
        assert(plain(b[i + 4]));
    }
    if i + 5 < to {
        assert(plain(b[i + 5]));
    }
}

/// The first run that closes is behind the words.
proof fn lemma_close_at(b: Seq<u8>, from: int, j: int, to: int, c: u8, need: nat)
    requires
        valid_utf8(b),
        0 <= from <= j <= to,
        from < to,
        to + need < b.len(),
        need > 0,
        forall|k: int| from <= k < to ==> #[trigger] b[k] != c,
        forall|k: int| to <= k < to + need ==> #[trigger] b[k] == c,
        b[to + need] == SPACE,
        c != SPACE,
        !space(b[to - 1]),
    ensures
        emph_close(b, from, j, c, need, c == UNDERSCORE) == Some(to),
    decreases to - j,
{
    if j < to {
        assert(b[j] != c);
        lemma_close_at(b, from, j + 1, to, c, need);
    } else {
        assert(b[j] == c);
        lemma_run_is(b, to, to + need, c);
        lemma_before_mark(b, to + need);
        assert(closes(b, from, to, c, need, c == UNDERSCORE));
    }
}

/// Emphasis in the middle of a sentence: the words before it and behind it are text, the
/// marks are dimmed, and what is between them has the style its marks give it.
#[verifier::rlimit(40)]
pub proof fn law_emphasis_in_a_sentence(p: Seq<u8>, c: u8, k: nat, t: Seq<u8>, q: Seq<u8>)
    requires
        prose_words(p),
        words(t),
        words(q),
        (c == STAR || c == UNDERSCORE) && 1 <= k <= 3 || (c == TILDE || c == EQUALS) && k == 2,
    ensures
        ({
            let b = p + seq![SPACE] + times(c, k) + t + times(c, k) + seq![SPACE] + q;
            let i = (p.len() + 1) as int;
            let f = i + k;
            let j = f + t.len();
            let e = j + k;
            let style = if c == TILDE {
                MdStyle::Strikethrough
            } else if c == EQUALS {
                MdStyle::Highlight
            } else if k == 1 {
                MdStyle::Italic
            } else if k == 2 {
                MdStyle::Bold
            } else {
                MdStyle::BoldItalic
            };
            line_spans(b, false) == seq![
                span(0, i, MdStyle::Text),
                span(i, f, MdStyle::Marker),
                span(f, j, style),
                span(j, e, MdStyle::Marker),
                span(e, b.len() as int, MdStyle::Text),
            ]
        }),
{
    let b = p + seq![SPACE] + times(c, k) + t + times(c, k) + seq![SPACE] + q;
    let n = b.len() as int;
    let i = (p.len() + 1) as int;
    let f = i + k;
    let j = f + t.len();
    let e = j + k;
    lemma_sentence_bytes(p, c, k, t, q);
    lemma_ascii_valid(b);
    lemma_sentence_is_prose(b);
    lemma_run_is(b, i, f, c);
    lemma_after_mark(b, i);
    assert(opens(b, i));
    lemma_close_at(b, f, f, j, c, k);
    assert(emphasis(b, i) == Some((k as int, j)));
    assert(b.subrange(f, j) =~= t);
    let style = emphasis_style(c, k as int);
    lemma_wrapped_words(t, f, style);
    lemma_skipped(b, 0, i, 0);
    lemma_skipped(b, e, n, e);
    assert(inline_spans(b, 0, 0, n, e) == text_span(0, e, n));
    let spans = seq![
        span(0, i, MdStyle::Text),
        span(i, f, MdStyle::Marker),
        span(f, j, style),
        span(j, e, MdStyle::Marker),
        span(e, n, MdStyle::Text),
    ];
    assert(inline_spans(b, 0, 0, i, 0) =~= spans);
    lemma_nothing_to_merge(spans);
}

proof fn lemma_wrapped_words(t: Seq<u8>, base: int, style: MdStyle)
    requires
        words(t),
    ensures
        wrapped_spans(t, base, style, 0) == seq![span(base, base + t.len(), style)],
{
    crate::markdown::shapes::lemma_words_wrapped(t, base, style);
}

/// The bytes of a sentence with a mark in it.
proof fn lemma_sentence_bytes(p: Seq<u8>, c: u8, k: nat, t: Seq<u8>, q: Seq<u8>)
    requires
        prose_words(p),
        words(t),
        words(q),
        c == STAR || c == UNDERSCORE || c == TILDE || c == EQUALS,
    ensures
        ({
            let b = p + seq![SPACE] + times(c, k) + t + times(c, k) + seq![SPACE] + q;
            let i = (p.len() + 1) as int;
            let f = i + k;
            let j = f + t.len();
            let e = j + k;
            &&& b.len() == e + 1 + q.len()
            &&& forall|x: int| 0 <= x < b.len() ==> (#[trigger] b[x]) < 128
            &&& forall|x: int| 0 <= x < i ==> plain(#[trigger] b[x])
            &&& b[i - 1] == SPACE
            &&& forall|x: int| i <= x < f ==> #[trigger] b[x] == c
            &&& forall|x: int| f <= x < j ==> plain(#[trigger] b[x]) && b[x] == t[x - f]
            &&& word_byte(b[f])
            &&& word_byte(b[j - 1])
            &&& forall|x: int| j <= x < e ==> #[trigger] b[x] == c
            &&& b[e] == SPACE
            &&& forall|x: int| e <= x < b.len() ==> plain(#[trigger] b[x])
            &&& word_byte(b[0]) && !(0x30 <= b[0] <= 0x39)
        }),
{
    let b = p + seq![SPACE] + times(c, k) + t + times(c, k) + seq![SPACE] + q;
    let i = (p.len() + 1) as int;
    let f = i + k;
    let j = f + t.len();
    let e = j + k;
    assert forall|x: int| 0 <= x < i implies plain(#[trigger] b[x]) by {
        if x < p.len() {
            assert(b[x] == p[x]);
            assert(plain(p[x]));
        }
    }
    assert forall|x: int| f <= x < j implies plain(#[trigger] b[x]) && b[x] == t[x - f] by {
        assert(b[x] == t[x - f]);
        assert(plain(t[x - f]));
    }
    assert forall|x: int| e <= x < b.len() implies plain(#[trigger] b[x]) by {
        if x > e {
            assert(b[x] == q[x - e - 1]);
            assert(plain(q[x - e - 1]));
        }
    }
    assert(b[0] == p[0]);
    assert(b[f] == t[0]);
    assert(b[j - 1] == t[t.len() - 1]);
    assert forall|x: int| 0 <= x < b.len() implies (#[trigger] b[x]) < 128 by {
        if x < i {
            assert(plain(b[x]));
        } else if f <= x < j {
            assert(plain(b[x]));
        } else if e <= x {
            assert(plain(b[x]));
        }
    }
}

/// A line that starts with a letter is prose.
proof fn lemma_sentence_is_prose(b: Seq<u8>)
    requires
        valid_utf8(b),
        b.len() > 0,
        word_byte(b[0]),
        !(0x30 <= b[0] <= 0x39),
    ensures
        built(b, false) == inline_spans(b, 0, 0, 0, 0),
{
    lemma_not_a_rule(b, 0);
    lemma_run_is(b, 0, 0, SPACE);
    lemma_run_is(b, 0, 0, HASH);
    assert(lead(b) == 0);
    assert(!fence(b));
    assert(heading(b) is None && quote(b) is None);
    assert(blanks_end(b, 0) == 0);
    assert(digits_end(b, 0) == 0);
    assert(list(b) is None);
}

proof fn lemma_never_closed(b: Seq<u8>, from: int, j: int, c: u8, need: nat)
    requires
        0 <= from <= j,
        forall|k: int| j <= k < b.len() ==> #[trigger] b[k] != c,
    ensures
        emph_close(b, from, j, c, need, c == UNDERSCORE) is None,
    decreases b.len() - j,
{
    if j < b.len() {
        assert(b[j] != c);
        lemma_never_closed(b, from, j + 1, c, need);
    }
}

/// Marks that nothing closes are text, and so is what follows them.
pub proof fn law_marks_that_nothing_closes_are_text(p: Seq<u8>, c: u8, k: nat, q: Seq<u8>)
    requires
        prose_words(p),
        words(q),
        c == STAR || c == UNDERSCORE || c == TILDE || c == EQUALS,
        k >= 1,
    ensures
        ({
            let b = p + seq![SPACE] + times(c, k) + q;
            line_spans(b, false) == seq![span(0, b.len() as int, MdStyle::Text)]
        }),
{
    let b = p + seq![SPACE] + times(c, k) + q;
    let n = b.len() as int;
    let i = (p.len() + 1) as int;
    let f = i + k;
    assert forall|x: int| 0 <= x < i implies plain(#[trigger] b[x]) by {
        if x < p.len() {
            assert(b[x] == p[x]);
            assert(plain(p[x]));
        }
    }
    assert forall|x: int| i <= x < f implies #[trigger] b[x] == c by {}
    assert forall|x: int| f <= x < n implies plain(#[trigger] b[x]) by {
        assert(b[x] == q[x - f]);
        assert(plain(q[x - f]));
    }
    assert(b[0] == p[0]);
    assert(b[i] == c);
    assert forall|x: int| 0 <= x < n implies (#[trigger] b[x]) < 128 by {
        if x < i {
            assert(plain(b[x]));
        } else if x >= f {
            assert(plain(b[x]));
        }
    }
    lemma_ascii_valid(b);
    lemma_sentence_is_prose(b);
    lemma_run_is(b, i, f, c);
    lemma_nothing_opened(b, i, f, c, crate::markdown::inline::most_need(c, k as int));
    assert(emphasis(b, i) is None);
    lemma_skipped(b, 0, i, 0);
    assert(inline_spans(b, 0, 0, i, 0) == inline_spans(b, 0, 0, f, 0));
    lemma_skipped(b, f, n, 0);
    assert(inline_spans(b, 0, 0, n, 0) == text_span(0, 0, n));
    let spans = seq![span(0, n, MdStyle::Text)];
    assert(built(b, false) =~= spans);
    lemma_nothing_to_merge(spans);
}

/// A run of marks that closes itself, or nothing, opens nothing.
proof fn lemma_nothing_opened(b: Seq<u8>, i: int, f: int, c: u8, need: int)
    requires
        0 <= i < f < b.len(),
        b[i] == c,
        run(b, i, c) == f - i,
        need <= f - i,
        forall|x: int| i <= x < f ==> #[trigger] b[x] == c,
        forall|x: int| f <= x < b.len() ==> #[trigger] b[x] != c,
    ensures
        longest_emphasis(b, i, need) is None,
    decreases need,
{
    if need >= crate::markdown::inline::least_need(c) {
        lemma_rest_of_the_run(b, i, f, c, need);
        lemma_nothing_opened(b, i, f, c, need - 1);
    }
}

/// What is left of a run is right where it starts, and closes nothing there.
proof fn lemma_rest_of_the_run(b: Seq<u8>, i: int, f: int, c: u8, need: int)
    requires
        0 <= i < f < b.len(),
        1 <= need <= f - i,
        forall|x: int| i <= x < f ==> #[trigger] b[x] == c,
        forall|x: int| f <= x < b.len() ==> #[trigger] b[x] != c,
    ensures
        emph_close(b, i + need, i + need, c, need as nat, c == UNDERSCORE) is None,
{
    let from = i + need;
    if from < f {
        lemma_run_is(b, from, f, c);
        assert(b[from] == c);
        assert(!closes(b, from, from, c, need as nat, c == UNDERSCORE));
        lemma_never_closed(b, from, f, c, need as nat);
    } else {
        lemma_never_closed(b, from, from, c, need as nat);
    }
}

/// Marks with a space behind them open nothing: they are text, as between two numbers.
pub proof fn law_marks_among_spaces_are_text(p: Seq<u8>, c: u8, q: Seq<u8>)
    requires
        prose_words(p),
        words(q),
        c == STAR || c == UNDERSCORE || c == TILDE || c == EQUALS,
    ensures
        ({
            let b = p + seq![SPACE, c, SPACE] + q;
            line_spans(b, false) == seq![span(0, b.len() as int, MdStyle::Text)]
        }),
{
    let b = p + seq![SPACE, c, SPACE] + q;
    let n = b.len() as int;
    let i = (p.len() + 1) as int;
    assert forall|x: int| 0 <= x < i implies plain(#[trigger] b[x]) by {
        if x < p.len() {
            assert(b[x] == p[x]);
            assert(plain(p[x]));
        }
    }
    assert(b[i] == c && b[i + 1] == SPACE);
    assert forall|x: int| i < x < n implies plain(#[trigger] b[x]) by {
        if x > i + 1 {
            assert(b[x] == q[x - i - 2]);
            assert(plain(q[x - i - 2]));
        }
    }
    assert(b[0] == p[0]);
    assert forall|x: int| 0 <= x < n implies (#[trigger] b[x]) < 128 by {
        if x != i {
            assert(plain(b[x]));
        }
    }
    lemma_ascii_valid(b);
    lemma_sentence_is_prose(b);
    lemma_run_is(b, i, i + 1, c);
    assert(!opens(b, i));
    lemma_skipped(b, 0, i, 0);
    assert(inline_spans(b, 0, 0, i, 0) == inline_spans(b, 0, 0, i + 1, 0));
    lemma_skipped(b, i + 1, n, 0);
    assert(inline_spans(b, 0, 0, n, 0) == text_span(0, 0, n));
    let spans = seq![span(0, n, MdStyle::Text)];
    assert(built(b, false) =~= spans);
    lemma_nothing_to_merge(spans);
}

/// Marks behind a space close nothing: with only such marks behind them, those before are
/// text too.
pub proof fn law_marks_behind_a_space_close_nothing(p: Seq<u8>, c: u8, k: nat, t: Seq<u8>, q: Seq<u8>)
    requires
        prose_words(p),
        words(t),
        words(q),
        c == STAR || c == UNDERSCORE || c == TILDE || c == EQUALS,
        k >= 1,
    ensures
        ({
            let b = p + seq![SPACE] + times(c, k) + t + seq![SPACE] + times(c, k) + seq![SPACE] + q;
            line_spans(b, false) == seq![span(0, b.len() as int, MdStyle::Text)]
        }),
{
    let b = p + seq![SPACE] + times(c, k) + t + seq![SPACE] + times(c, k) + seq![SPACE] + q;
    let n = b.len() as int;
    let i = (p.len() + 1) as int;
    let f = i + k;
    let g = f + t.len() + 1;
    let h = g + k;
    assert forall|x: int| 0 <= x < i implies plain(#[trigger] b[x]) by {
        if x < p.len() {
            assert(b[x] == p[x]);
            assert(plain(p[x]));
        }
    }
    assert forall|x: int| i <= x < f implies #[trigger] b[x] == c by {}
    assert forall|x: int| f <= x < g implies plain(#[trigger] b[x]) by {
        if x < g - 1 {
            assert(b[x] == t[x - f]);
            assert(plain(t[x - f]));
        }
    }
    assert forall|x: int| g <= x < h implies #[trigger] b[x] == c by {}
    assert(b[g - 1] == SPACE && b[h] == SPACE);
    assert forall|x: int| h <= x < n implies plain(#[trigger] b[x]) by {
        if x > h {
            assert(b[x] == q[x - h - 1]);
            assert(plain(q[x - h - 1]));
        }
    }
    assert(b[0] == p[0] && b[f] == t[0]);
    assert forall|x: int| 0 <= x < n implies (#[trigger] b[x]) < 128 by {
        if x < i {
            assert(plain(b[x]));
        } else if f <= x < g {
            assert(plain(b[x]));
        } else if x >= h {
            assert(plain(b[x]));
        }
    }
    lemma_ascii_valid(b);
    lemma_sentence_is_prose(b);
    lemma_run_is(b, i, f, c);
    lemma_run_is(b, g, h, c);
    lemma_closed_by_none(b, i, f, g, h, c, crate::markdown::inline::most_need(c, k as int));
    assert(emphasis(b, i) is None);
    assert(!opens(b, g));
    lemma_skipped(b, 0, i, 0);
    assert(b[i] == c);
    assert(inline_spans(b, 0, 0, i, 0) == inline_spans(b, 0, 0, f, 0));
    assert(b[g] == c);
    lemma_skipped(b, f, g, 0);
    assert(inline_spans(b, 0, 0, g, 0) == inline_spans(b, 0, 0, h, 0));
    lemma_skipped(b, h, n, 0);
    assert(inline_spans(b, 0, 0, n, 0) == text_span(0, 0, n));
    let spans = seq![span(0, n, MdStyle::Text)];
    assert(built(b, false) =~= spans);
    lemma_nothing_to_merge(spans);
}

proof fn lemma_closed_by_none(b: Seq<u8>, i: int, f: int, g: int, h: int, c: u8, need: int)
    requires
        0 <= i < f < g < h < b.len(),
        need <= f - i,
        c != SPACE,
        forall|x: int| i <= x < f ==> #[trigger] b[x] == c,
        forall|x: int| f <= x < g ==> #[trigger] b[x] != c,
        forall|x: int| g <= x < h ==> #[trigger] b[x] == c,
        forall|x: int| h <= x < b.len() ==> #[trigger] b[x] != c,
        b[g - 1] == SPACE,
    ensures
        longest_emphasis(b, i, need) is None,
    decreases need,
{
    assert(b[i] == c);
    if need >= crate::markdown::inline::least_need(c) {
        let from = i + need;
        lemma_run_is(b, g, h, c);
        assert(b[g] == c);
        lemma_never_closed(b, from, h, c, need as nat);
        assert(emph_close(b, from, g, c, need as nat, c == UNDERSCORE) is None);
        lemma_on_to(b, from, f, g, c, need as nat);
        if from < f {
            lemma_run_is(b, from, f, c);
            assert(b[from] == c);
        }
        assert(emph_close(b, from, from, c, need as nat, c == UNDERSCORE) is None);
        lemma_closed_by_none(b, i, f, g, h, c, need - 1);
    }
}

/// Looking for what closes passes over everything else.
proof fn lemma_on_to(b: Seq<u8>, from: int, j: int, to: int, c: u8, need: nat)
    requires
        0 <= j <= to <= b.len(),
        forall|k: int| j <= k < to ==> #[trigger] b[k] != c,
    ensures
        emph_close(b, from, j, c, need, c == UNDERSCORE) == emph_close(b, from, to, c, need, c == UNDERSCORE),
    decreases to - j,
{
    if j < to {
        assert(b[j] != c);
        lemma_on_to(b, from, j + 1, to, c, need);
    }
}

} // verus!
