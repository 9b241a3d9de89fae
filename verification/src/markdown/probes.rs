//! What a line is to the lines around it: a quote so deep, code by its indentation, an
//! underline or what takes one.

use vstd::prelude::*;
use vstd::utf8::*;

use crate::ascii::{EQUALS, GREATER, HASH, SPACE, TAB};
use crate::markdown::blocks::{lemma_not_a_rule, lemma_nothing_trimmed};
use crate::markdown::scan::{lemma_run_is, run, space};
use crate::markdown::shapes::{
    blanks, item_mark, lemma_ascii_valid, lemma_blanks_end_is, lemma_item, plain, times, words,
};
use crate::markdown::{
    blanks_end, digit, digits_end, fence, heading, indent_width, indented_code, list, quote,
    separator, sigils, underline, underlinable, white_end,
};
use crate::text::{ascii_white, bytes, trimmed, trimmed_start, white_space};

verus! {

broadcast use vstd::seq::group_seq_axioms;

/// Words that start with a letter.
pub open spec fn prose_words(t: Seq<u8>) -> bool {
    words(t) && !(0x30 <= t[0] <= 0x39)
}

/// A quote is as deep as it has sigils in front, spaces or none between them.
pub proof fn law_a_quote_is_as_deep_as_its_sigils(b: Seq<u8>, t: Seq<u8>)
    ensures
        sigils(seq![GREATER] + b, 0) == 1 + sigils(b, 0),
        sigils(seq![SPACE] + b, 0) == sigils(b, 0),
        t.len() == 0 || (t[0] != GREATER && t[0] != SPACE && t[0] != TAB) ==> sigils(t, 0) == 0,
{
    let q = seq![GREATER] + b;
    assert(q[0] == GREATER);
    lemma_sigils_behind(q, 0);
    assert(q.subrange(1, q.len() as int) =~= b);
    let s = seq![SPACE] + b;
    assert(s[0] == SPACE);
    lemma_sigils_behind(s, 0);
    assert(s.subrange(1, s.len() as int) =~= b);
}

proof fn lemma_sigils_behind(b: Seq<u8>, i: int)
    requires
        b.len() > 0,
        0 <= i < b.len(),
    ensures
        sigils(b, i + 1) == sigils(b.subrange(1, b.len() as int), i),
    decreases b.len() - i,
{
    let t = b.subrange(1, b.len() as int);
    if i + 1 < b.len() {
        assert(t[i] == b[i + 1]);
        lemma_sigils_behind(b, i + 1);
    }
}

/// Tabs count four columns and spaces one.
proof fn lemma_indent_width(x: Seq<u8>, t: Seq<u8>, i: int)
    requires
        0 <= i <= x.len(),
        forall|k: int| 0 <= k < x.len() ==> #[trigger] x[k] == SPACE,
        t.len() > 0,
        !space(t[0]),
    ensures
        indent_width(x + t, i) == x.len() - i,
    decreases x.len() - i,
{
    let b = x + t;
    if i < x.len() {
        assert(b[i] == x[i]);
        lemma_indent_width(x, t, i + 1);
    } else {
        assert(b[i] == t[0]);
    }
}

/// The characters of ASCII text.
proof fn lemma_ascii_chars(b: Seq<u8>) -> (u: Seq<char>)
    requires
        forall|k: int| 0 <= k < b.len() ==> (#[trigger] b[k]) < 128,
    ensures
        u.len() == b.len(),
        forall|k: int| 0 <= k < b.len() ==> #[trigger] u[k] == b[k] as char,
        bytes(u) == b,
        decode_utf8(b) == u,
{
    let u = Seq::new(b.len(), |k: int| b[k] as char);
    is_ascii_chars_encode_utf8(u);
    assert(bytes(u) =~= b);
    encode_utf8_decode_utf8(u);
    u
}

proof fn lemma_front_trimmed(u: Seq<char>, v: Seq<char>)
    requires
        forall|k: int| 0 <= k < u.len() ==> white_space(#[trigger] u[k]),
        v.len() > 0,
        !white_space(v[0]),
    ensures
        trimmed_start(u + v) == v,
    decreases u.len(),
{
    if u.len() > 0 {
        assert((u + v)[0] == u[0]);
        assert(white_space(u[0]));
        assert((u + v).drop_first() =~= u.drop_first() + v);
        lemma_front_trimmed(u.drop_first(), v);
    } else {
        assert(u + v =~= v);
    }
}

/// Plain words at the margin are none of the blocks.
proof fn lemma_no_block(t: Seq<u8>)
    requires
        prose_words(t),
    ensures
        valid_utf8(t),
        heading(t) is None,
        !fence(t),
        quote(t) is None,
        list(t) is None,
        !separator(decode_utf8(t)),
{
    assert forall|k: int| 0 <= k < t.len() implies (#[trigger] t[k]) < 128 by {
        assert(plain(t[k]));
    }
    lemma_ascii_valid(t);
    lemma_not_a_rule(t, 0);
    lemma_run_is(t, 0, 0, SPACE);
    lemma_run_is(t, 0, 0, HASH);
    assert(plain(t[0]));
    assert(blanks_end(t, 0) == 0);
    assert(digits_end(t, 0) == 0);
}

/// Words behind four spaces or more, or behind a tab, are code by their indentation; behind
/// fewer spaces they are not, and neither is an item, however far it is indented.
pub proof fn law_four_columns_make_code(k: nat, t: Seq<u8>)
    requires
        prose_words(t),
    ensures
        indented_code(decode_utf8(times(SPACE, k) + t)) <==> k >= 4,
        indented_code(decode_utf8(seq![TAB] + t)),
{
    let x = times(SPACE, k);
    lemma_indent_width(x, t, 0);
    lemma_code_behind(x, t);
    let y = seq![TAB];
    let b = y + t;
    assert(b[0] == TAB && b[1] == t[0]);
    assert(plain(t[0]));
    assert(indent_width(b, 1) == 0);
    assert(indent_width(b, 0) == 4);
    lemma_code_behind(y, t);
}

/// Indented words are code where the indentation is wide enough.
proof fn lemma_code_behind(x: Seq<u8>, t: Seq<u8>)
    requires
        blanks(x),
        prose_words(t),
    ensures
        indented_code(decode_utf8(x + t)) <==> indent_width(x + t, 0) >= 4,
{
    let b = x + t;
    let w = x.len() as int;
    assert forall|k: int| 0 <= k < b.len() implies (#[trigger] b[k]) < 128 by {
        if k < w {
            assert(space(x[k]));
        } else {
            assert(b[k] == t[k - w]);
            assert(plain(t[k - w]));
        }
    }
    let all = lemma_ascii_chars(b);
    assert forall|k: int| 0 <= k < t.len() implies (#[trigger] t[k]) < 128 by {
        assert(plain(t[k]));
    }
    let v = lemma_ascii_chars(t);
    let u = all.take(w);
    assert(all =~= u + v) by {
        assert forall|k: int| 0 <= k < all.len() implies all[k] == (u + v)[k] by {
            if k >= w {
                assert(b[k] == t[k - w]);
            }
        }
    }
    assert forall|k: int| 0 <= k < u.len() implies white_space(#[trigger] u[k]) by {
        assert(space(x[k]));
        assert(b[k] == x[k]);
    }
    assert(v[0] == t[0] as char);
    lemma_front_trimmed(u, v);
    lemma_no_block(t);
    lemma_ascii_valid(b);
    assert(b[w] == t[0]);
    lemma_not_a_rule(b, w);
    assert forall|k: int| 0 <= k < w implies space(#[trigger] b[k]) by {
        assert(b[k] == x[k]);
    }
    lemma_blanks_end_is(b, 0, w);
    assert(digits_end(b, w) == w);
    assert(list(b) is None);
}

/// An item is never code by its indentation.
pub proof fn law_an_item_is_never_indented_code(x: Seq<u8>, m: Seq<u8>, rest: Seq<u8>)
    requires
        blanks(x),
        item_mark(m),
        valid_utf8(rest),
    ensures
        !indented_code(decode_utf8(x + m + seq![SPACE] + rest)),
{
    let h = x + m + seq![SPACE];
    let b = h + rest;
    lemma_item(x, m, rest);
    assert forall|k: int| 0 <= k < h.len() implies (#[trigger] h[k]) < 128 by {
        if k < x.len() {
            assert(space(x[k]));
        } else if k < x.len() + m.len() {
            assert(h[k] == m[k - x.len()]);
            if k - x.len() < m.len() - 1 {
                assert(digit(m[k - x.len()]));
            }
        }
    }
    lemma_ascii_valid(h);
    crate::app::lines::lemma_joined_valid(h, rest);
    decode_utf8_encode_utf8(b);
}

/// A run of equals signs underlines, with spaces around it or not; words do not, and neither
/// does a blank line.
pub proof fn law_equals_signs_underline(i: nat, k: nat, j: nat, t: Seq<u8>)
    requires
        k >= 1,
        words(t),
    ensures
        underline(times(SPACE, i) + times(EQUALS, k) + times(SPACE, j)),
        !underline(t),
        !underline(times(SPACE, i)),
{
    let b = times(SPACE, i) + times(EQUALS, k) + times(SPACE, j);
    let m = i as int;
    let n = m + k;
    assert forall|p: int| 0 <= p < m implies ascii_white(#[trigger] b[p]) by {}
    assert(b[m] == EQUALS);
    lemma_white_end_is(b, 0, m);
    assert forall|p: int| m <= p < n implies b[p] == EQUALS by {}
    if n < b.len() {
        assert(b[n] == SPACE);
    }
    lemma_run_is(b, m, n, EQUALS);
    assert forall|p: int| n <= p < b.len() implies ascii_white(#[trigger] b[p]) by {
        assert(b[p] == SPACE);
    }
    lemma_white_end_is(b, n, b.len() as int);
    assert(plain(t[0]));
    assert(white_end(t, 0) == 0);
    assert(run(t, 0, EQUALS) == 0);
    let s = times(SPACE, i);
    lemma_white_end_is(s, 0, s.len() as int);
    assert(run(s, s.len() as int, EQUALS) == 0);
}

proof fn lemma_white_end_is(b: Seq<u8>, i: int, to: int)
    requires
        0 <= i <= to <= b.len(),
        forall|k: int| i <= k < to ==> ascii_white(#[trigger] b[k]),
        to < b.len() ==> !ascii_white(b[to]),
    ensures
        white_end(b, i) == to,
    decreases to - i,
{
    if i < to {
        assert(ascii_white(b[i]));
        lemma_white_end_is(b, i + 1, to);
    }
}

/// Words can be underlined into a heading; an item, a quote, a heading and a blank line
/// cannot.
pub proof fn law_words_take_an_underline(t: Seq<u8>, x: Seq<u8>, m: Seq<u8>)
    requires
        prose_words(t),
        blanks(x),
        item_mark(m),
    ensures
        underlinable(decode_utf8(t)),
        !underlinable(decode_utf8(x + m + seq![SPACE] + t)),
        !underlinable(decode_utf8(seq![GREATER, SPACE] + t)),
        !underlinable(decode_utf8(seq![HASH, SPACE] + t)),
        !underlinable(Seq::empty()),
{
    assert forall|k: int| 0 <= k < t.len() implies (#[trigger] t[k]) < 128 by {
        assert(plain(t[k]));
    }
    let v = lemma_ascii_chars(t);
    lemma_no_block(t);
    assert(v[0] == t[0] as char && v[v.len() - 1] == t[t.len() - 1] as char);
    lemma_nothing_trimmed(v);
    law_equals_signs_underline(0, 1, 0, t);
    let h = x + m + seq![SPACE];
    let b = h + t;
    lemma_item(x, m, t);
    assert forall|k: int| 0 <= k < b.len() implies (#[trigger] b[k]) < 128 by {
        if k < x.len() {
            assert(space(x[k]));
        } else if k < x.len() + m.len() {
            assert(b[k] == m[k - x.len()]);
            if k - x.len() < m.len() - 1 {
                assert(digit(m[k - x.len()]));
            }
        } else if k >= h.len() {
            assert(b[k] == t[k - h.len()]);
        }
    }
    let bu = lemma_ascii_chars(b);
    let q = seq![GREATER, SPACE] + t;
    assert forall|k: int| 0 <= k < q.len() implies (#[trigger] q[k]) < 128 by {
        if k >= 2 {
            assert(q[k] == t[k - 2]);
        }
    }
    let qu = lemma_ascii_chars(q);
    assert(qu[0] == '>');
    assert(q[q.len() - 1] == t[t.len() - 1]);
    assert(qu[qu.len() - 1] == t[t.len() - 1] as char);
    lemma_nothing_trimmed(qu);
    assert(q[0] == GREATER);
    let g = seq![HASH, SPACE] + t;
    assert forall|k: int| 0 <= k < g.len() implies (#[trigger] g[k]) < 128 by {
        if k >= 2 {
            assert(g[k] == t[k - 2]);
        }
    }
    let gu = lemma_ascii_chars(g);
    assert(g[0] == HASH && g[1] == SPACE);
    lemma_run_is(g, 0, 0, SPACE);
    lemma_run_is(g, 0, 1, HASH);
    assert(heading(g) is Some);
    let e = Seq::<char>::empty();
    assert(trimmed(e) =~= e);
    crate::text::lemma_bytes_empty(e);
}

} // verus!
