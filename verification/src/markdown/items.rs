//! What Enter makes of a line, said of the characters the line is made of.

use vstd::prelude::*;
use vstd::utf8::*;

use crate::ascii::{
    CLOSE_BRACKET, CLOSE_PAREN, DASH, DOT, GREATER, LOWER_X, OPEN_BRACKET, PLUS, SPACE, STAR, TAB,
    UPPER_X,
};
use crate::decimal::{decimal, lemma_value_of_decimal, value};
use crate::markdown::blocks::{
    law_rules_look_like_rules, lemma_apart_at, lemma_copies_concat, lemma_no_copies, lemma_not_a_rule,
    lemma_trimmed_keeps, plainly_spaced,
};
use crate::markdown::carry::{blank, carried, following, lemma_structure, open_box, structure, Carry};
use crate::markdown::scan::{lemma_run, lemma_run_is, space};
use crate::markdown::shapes::{
    blanks, item_mark, lemma_ascii_valid, lemma_blanks_end_is, lemma_item, task_box,
};
use crate::markdown::words::word_byte;
use crate::markdown::{
    blanks_end, bullet, digit, digits_end, lead, lemma_blanks_end, lemma_digits_end, lemma_list,
    lemma_quote, list, quote, separator, sigils_end, task,
};
use crate::text::{
    bytes, copies, lemma_ascii_boundary, lemma_bytes_concat, lemma_first_byte, lemma_subrange_valid,
    trimmed, white_space,
};

verus! {

broadcast use vstd::seq::group_seq_axioms;

/// The characters that quotes, bullets, numbers and task boxes are written with.
pub open spec fn marker_byte(c: u8) -> bool {
    ||| c == SPACE
    ||| c == TAB
    ||| c == GREATER
    ||| c == DASH
    ||| c == STAR
    ||| c == PLUS
    ||| 0x30 <= c <= 0x39
    ||| c == DOT
    ||| c == CLOSE_PAREN
    ||| c == OPEN_BRACKET
    ||| c == CLOSE_BRACKET
    ||| c == LOWER_X
    ||| c == UPPER_X
}

/// A character that no marker is written with and that is no white space.
pub open spec fn telling(c: char) -> bool {
    !white_space(c) && !((c as int) < 128 && marker_byte(c as u8))
}

/// Whether a line says anything beside its markers.
pub open spec fn says_something(b: Seq<u8>) -> bool {
    exists|k: int| 0 <= k < decode_utf8(b).len() && #[trigger] telling(decode_utf8(b)[k])
}

proof fn lemma_sigil_marks(b: Seq<u8>, i: int)
    requires
        0 <= i <= b.len(),
    ensures
        i <= sigils_end(b, i) <= b.len(),
        forall|k: int| i <= k < sigils_end(b, i) ==> marker_byte(#[trigger] b[k]),
    decreases b.len() - i,
{
    if i < b.len() && b[i] == GREATER {
        if i + 1 < b.len() && b[i + 1] == SPACE {
            lemma_sigil_marks(b, i + 2);
        } else {
            lemma_sigil_marks(b, i + 1);
        }
    }
}

/// A quote's sigils and a list's bullet are markers.
proof fn lemma_head_marks(b: Seq<u8>)
    ensures
        quote(b) matches Some(end) ==> 0 < end <= b.len() && forall|k: int|
            0 <= k < end ==> marker_byte(#[trigger] b[k]),
        list(b) matches Some(end) ==> 0 < end <= b.len() && forall|k: int|
            0 <= k < end ==> marker_byte(#[trigger] b[k]),
{
    lemma_run(b, 0, SPACE);
    if quote(b) is Some {
        lemma_quote(b);
        lemma_sigil_marks(b, lead(b));
        assert forall|k: int| 0 <= k < quote(b)->0 implies marker_byte(#[trigger] b[k]) by {
            if k < lead(b) {
                assert(b[k] == SPACE);
            }
        }
    }
    if list(b) is Some {
        let end = list(b)->0;
        lemma_list(b);
        lemma_blanks_end(b, 0);
        let at = blanks_end(b, 0);
        lemma_digits_end(b, at);
        assert forall|k: int| 0 <= k < end implies marker_byte(#[trigger] b[k]) by {
            if k < at {
                assert(space(b[k]));
            } else if k < digits_end(b, at) {
                assert(digit(b[k]));
            }
        }
    }
}

/// The bullet that follows is written with markers.
proof fn lemma_following_marks(h: Seq<u8>)
    requires
        forall|k: int| 0 <= k < h.len() ==> marker_byte(#[trigger] h[k]),
    ensures
        forall|k: int| 0 <= k < following(h).len() ==> marker_byte(#[trigger] following(h)[k]),
{
    let from = blanks_end(h, 0);
    let to = digits_end(h, from);
    lemma_blanks_end(h, 0);
    lemma_digits_end(h, from);
    if from != to {
        let d = decimal(value(h.subrange(from, to)) + 1);
        lemma_value_of_decimal(value(h.subrange(from, to)) + 1);
        let f = following(h);
        assert forall|k: int| 0 <= k < f.len() implies marker_byte(#[trigger] f[k]) by {
            if k < from {
                assert(f[k] == h[k]);
            } else if k < from + d.len() {
                assert(f[k] == d[k - from]);
            } else {
                assert(f[k] == h[to + (k - from - d.len())]);
            }
        }
    }
}

/// The structure of a line, and what is carried of it, are written with markers.
proof fn lemma_structure_marks(b: Seq<u8>)
    ensures
        structure(b) matches Some((p, end)) ==> {
            &&& 0 < end <= b.len()
            &&& forall|k: int| 0 <= k < end ==> marker_byte(#[trigger] b[k])
            &&& forall|k: int| 0 <= k < p.len() ==> marker_byte(#[trigger] p[k])
        },
    decreases b.len(),
{
    let n = b.len() as int;
    lemma_head_marks(b);
    if quote(b) is Some {
        let q = quote(b)->0;
        let tail = b.subrange(q, n);
        lemma_structure_marks(tail);
        if structure(tail) is Some {
            let (inner, e) = structure(tail)->0;
            let p = b.subrange(0, q) + inner;
            assert forall|k: int| 0 <= k < q + e implies marker_byte(#[trigger] b[k]) by {
                if k >= q {
                    assert(b[k] == tail[k - q]);
                }
            }
            assert forall|k: int| 0 <= k < p.len() implies marker_byte(#[trigger] p[k]) by {
                if k < q {
                    assert(p[k] == b[k]);
                } else {
                    assert(p[k] == inner[k - q]);
                }
            }
        } else {
            let p = b.subrange(0, q);
            assert forall|k: int| 0 <= k < p.len() implies marker_byte(#[trigger] p[k]) by {
                assert(p[k] == b[k]);
            }
        }
    } else if list(b) is Some {
        let e = list(b)->0;
        let h = b.subrange(0, e);
        assert forall|k: int| 0 <= k < h.len() implies marker_byte(#[trigger] h[k]) by {
            assert(h[k] == b[k]);
        }
        lemma_following_marks(h);
        let tail = b.subrange(e, n);
        if task(tail) is Some {
            let len = (task(tail)->0).0;
            assert forall|k: int| 0 <= k < e + len implies marker_byte(#[trigger] b[k]) by {
                if k >= e {
                    assert(b[k] == tail[k - e]);
                }
            }
        }
    }
}

/// A telling character behind markers leaves what is behind them not blank.
proof fn lemma_telling_behind(b: Seq<u8>, end: int)
    requires
        valid_utf8(b),
        0 <= end <= b.len(),
        crate::text::boundary(b, end),
        forall|k: int| 0 <= k < end ==> marker_byte(#[trigger] b[k]),
        says_something(b),
    ensures
        !blank(b.subrange(end, b.len() as int)),
{
    let n = b.len() as int;
    let x = b.subrange(0, end);
    let y = b.subrange(end, n);
    if n > 0 {
        lemma_first_byte(b);
    }
    crate::text::lemma_string_ends(decode_utf8(b));
    decode_utf8_encode_utf8(b);
    lemma_subrange_valid(b, end, n);
    let u = Seq::new(x.len(), |k: int| x[k] as char);
    assert forall|k: int| 0 <= k < u.len() implies (#[trigger] u[k] as int) < 128 by {
        assert(marker_byte(b[k]));
    }
    is_ascii_chars_encode_utf8(u);
    assert forall|k: int| 0 <= k < x.len() implies #[trigger] x[k] == bytes(u)[k] by {
        assert(marker_byte(b[k]));
    }
    assert(bytes(u) =~= x);
    let v = decode_utf8(y);
    decode_utf8_encode_utf8(y);
    lemma_bytes_concat(u, v);
    assert(bytes(u + v) =~= b);
    encode_utf8_decode_utf8(u + v);
    let all = decode_utf8(b);
    assert(all == u + v);
    let k = choose|k: int| 0 <= k < decode_utf8(b).len() && #[trigger] telling(decode_utf8(b)[k]);
    if k < u.len() {
        assert(all[k] == u[k]);
        assert(marker_byte(b[k]));
        assert(u[k] as u8 == b[k]);
    }
    let j = k - u.len();
    assert(v[j] == all[k]);
    assert(v =~= v.take(j) + seq![v[j]] + v.skip(j + 1));
    let (f, g) = lemma_trimmed_keeps(v.take(j), v[j], v.skip(j + 1));
    assert(trimmed(v).len() > 0);
}

/// On a line that says something Enter never takes the line away: it breaks the line
/// or carries markers over to the next one, wherever the caret is.
pub proof fn law_enter_keeps_a_line_that_says_something(b: Seq<u8>, at: int)
    requires
        valid_utf8(b),
        says_something(b),
    ensures
        carried(b, at) matches Some(c) ==> (c matches Carry::Next(p) && forall|k: int|
            0 <= k < p.len() ==> marker_byte(#[trigger] p[k])),
{
    lemma_structure_marks(b);
    if structure(b) is Some {
        let (p, end) = structure(b)->0;
        lemma_structure(b);
        lemma_telling_behind(b, end);
    } else {
        lemma_blanks_end(b, 0);
        let p = b.subrange(0, blanks_end(b, 0));
        assert forall|k: int| 0 <= k < p.len() implies marker_byte(#[trigger] p[k]) by {
            assert(space(b[k]));
        }
    }
}

/// A line with a letter or a digit in it says something of its own where that follows
/// its markers.
proof fn lemma_word_behind(b: Seq<u8>, end: int)
    requires
        valid_utf8(b),
        0 <= end < b.len(),
        word_byte(b[end]),
    ensures
        !separator(decode_utf8(b)),
        !blank(b.subrange(end, b.len() as int)),
{
    let n = b.len() as int;
    lemma_not_a_rule(b, end);
    lemma_ascii_boundary(b, end);
    crate::text::lemma_string_ends(decode_utf8(b));
    decode_utf8_encode_utf8(b);
    lemma_subrange_valid(b, end, n);
    let y = b.subrange(end, n);
    let (u, v) = lemma_apart_at(y, 0);
    let (f, g) = lemma_trimmed_keeps(u, y[0] as char, v);
    assert(trimmed(decode_utf8(y)).len() > 0);
}

/// The mark of the next item: the same, or the next number.
pub open spec fn next_mark(m: Seq<u8>) -> Seq<u8> {
    let n = m.len() as int;
    if n == 1 {
        m
    } else {
        decimal(value(m.subrange(0, n - 1)) + 1).push(m[n - 1])
    }
}

/// The bullet that follows an item's bullet.
proof fn lemma_item_following(x: Seq<u8>, m: Seq<u8>)
    requires
        blanks(x),
        item_mark(m),
    ensures
        following(x + m + seq![SPACE]) == x + next_mark(m) + seq![SPACE],
{
    let h = x + m + seq![SPACE];
    let w = x.len() as int;
    let e = w + m.len();
    assert(h + Seq::<u8>::empty() =~= h);
    lemma_item(x, m, Seq::empty());
    assert(blanks_end(h, 0) == w);
    assert(digits_end(h, w) == e - 1);
    assert(h.subrange(0, w) =~= x);
    assert(h.subrange(w, e - 1) =~= m.subrange(0, m.len() - 1));
    assert(h.subrange(e - 1, e + 1) =~= seq![m[m.len() - 1], SPACE]);
    if m.len() == 1 {
        assert(m =~= seq![m[0]]);
    } else {
        let d = decimal(value(m.subrange(0, m.len() - 1)) + 1);
        assert(x + d + seq![m[m.len() - 1], SPACE] =~= x + d.push(m[m.len() - 1]) + seq![SPACE]);
    }
}

/// Enter in an item carries its bullet over, with the same indentation, and counts a
/// number up; a task is carried over unticked. Before the item's text it just breaks
/// the line.
pub proof fn law_enter_carries_the_item_on(
    x: Seq<u8>,
    m: Seq<u8>,
    tick: Option<u8>,
    rest: Seq<u8>,
    at: int,
)
    requires
        blanks(x),
        item_mark(m),
        tick matches Some(c) ==> c == SPACE || c == LOWER_X || c == UPPER_X,
        valid_utf8(rest),
        rest.len() > 0,
        word_byte(rest[0]),
    ensures
        ({
            let with_box = tick is Some;
            let body = if with_box {
                task_box(tick->0) + rest
            } else {
                rest
            };
            let head = x.len() + m.len() + 1 + (if with_box {
                4int
            } else {
                0
            });
            carried(x + m + seq![SPACE] + body, at) == if at < head {
                None::<Carry>
            } else if with_box {
                Some(
                    Carry::Next(
                        x + next_mark(m) + seq![SPACE] + seq![
                            OPEN_BRACKET,
                            SPACE,
                            CLOSE_BRACKET,
                            SPACE,
                        ],
                    ),
                )
            } else {
                Some(Carry::Next(x + next_mark(m) + seq![SPACE]))
            }
        }),
{
    let body = if tick is Some {
        task_box(tick->0) + rest
    } else {
        rest
    };
    let h = x + m + seq![SPACE];
    let b = h + body;
    let w = h.len() as int;
    let n = b.len() as int;
    let hb = if tick is Some {
        h + task_box(tick->0)
    } else {
        h
    };
    let end = hb.len() as int;
    assert(b =~= hb + rest);
    assert forall|k: int| 0 <= k < hb.len() implies (#[trigger] hb[k]) < 128 by {
        if k < x.len() {
            assert(space(x[k]));
        } else if k < x.len() + m.len() {
            assert(hb[k] == m[k - x.len()]);
            if k - x.len() < m.len() - 1 {
                assert(digit(m[k - x.len()]));
            }
        }
    }
    lemma_ascii_valid(hb);
    crate::app::lines::lemma_joined_valid(hb, rest);
    lemma_item(x, m, body);
    lemma_item_following(x, m);
    assert(b[end] == rest[0]);
    lemma_word_behind(b, end);
    assert(b.subrange(0, w) =~= h);
    assert(b.subrange(w, n) =~= body);
    if tick is Some {
        assert(body[0] == OPEN_BRACKET && body[1] == tick->0 && body[2] == CLOSE_BRACKET && body[3]
            == SPACE);
        assert(task(body) is Some);
    } else {
        assert(task(body) is None);
    }
    assert(open_box() =~= seq![OPEN_BRACKET, SPACE, CLOSE_BRACKET, SPACE]);
}

/// Enter in a quote carries the quote over.
pub proof fn law_enter_carries_the_quote_on(rest: Seq<u8>, at: int)
    requires
        valid_utf8(rest),
        rest.len() > 0,
        word_byte(rest[0]),
        !digit(rest[0]),
    ensures
        carried(seq![GREATER, SPACE] + rest, at) == if at < 2 {
            None::<Carry>
        } else {
            Some(Carry::Next(seq![GREATER, SPACE]))
        },
{
    let h = seq![GREATER, SPACE];
    let b = h + rest;
    let n = b.len() as int;
    lemma_ascii_valid(h);
    crate::app::lines::lemma_joined_valid(h, rest);
    assert(b[0] == GREATER && b[1] == SPACE && b[2] == rest[0]);
    lemma_run_is(b, 0, 0, SPACE);
    assert(lead(b) == 0);
    assert(sigils_end(b, 2) == 2);
    assert(quote(b) == Some(2int));
    assert(b.subrange(0, 2) =~= h);
    assert(b.subrange(2, n) =~= rest);
    lemma_plain_structure(Seq::empty(), rest);
    assert(Seq::<u8>::empty() + rest =~= rest);
    lemma_word_behind(b, 2);
}

/// A letter is neither a quote nor an item.
proof fn lemma_plain_structure(x: Seq<u8>, rest: Seq<u8>)
    requires
        blanks(x),
        rest.len() > 0,
        word_byte(rest[0]),
        !digit(rest[0]),
    ensures
        structure(x + rest) is None,
        blanks_end(x + rest, 0) == x.len(),
{
    let b = x + rest;
    let w = x.len() as int;
    assert forall|k: int| 0 <= k < w implies space(#[trigger] b[k]) by {
        assert(b[k] == x[k]);
    }
    assert(b[w] == rest[0]);
    lemma_blanks_end_is(b, 0, w);
    lemma_run(b, 0, SPACE);
    let i = lead(b);
    if i < b.len() && b[i] == GREATER {
        if i < w {
            assert(space(b[i]));
        } else if i > w {
            assert(b[w] == SPACE);
        }
    }
    assert(digits_end(b, w) == w);
    assert(bullet(b, w) is None);
}

/// Enter on an indented line carries the indentation over; on a line at the margin it
/// just breaks the line.
pub proof fn law_enter_carries_the_indentation_on(x: Seq<u8>, rest: Seq<u8>, at: int)
    requires
        blanks(x),
        valid_utf8(rest),
        rest.len() > 0,
        word_byte(rest[0]),
        !digit(rest[0]),
    ensures
        carried(x + rest, at) == if x.len() == 0 || at < x.len() {
            None::<Carry>
        } else {
            Some(Carry::Next(x))
        },
{
    let b = x + rest;
    let w = x.len() as int;
    assert forall|k: int| 0 <= k < x.len() implies (#[trigger] x[k]) < 128 by {
        assert(space(x[k]));
    }
    lemma_ascii_valid(x);
    crate::app::lines::lemma_joined_valid(x, rest);
    lemma_plain_structure(x, rest);
    assert(b[w] == rest[0]);
    lemma_word_behind(b, w);
    lemma_not_a_rule(b, w);
    let (u, v) = lemma_apart_at(b, w);
    let (f, g) = lemma_trimmed_keeps(u, b[w] as char, v);
    assert(trimmed(decode_utf8(b)).len() > 0);
    assert(b.subrange(0, w) =~= x);
}

/// A bullet alone is no rule.
proof fn lemma_bullet_no_rule(x: Seq<u8>, m: Seq<u8>)
    requires
        blanks(x),
        item_mark(m),
    ensures
        valid_utf8(x + m + seq![SPACE]),
        !separator(decode_utf8(x + m + seq![SPACE])),
{
    let b = x + m + seq![SPACE];
    let w = x.len() as int;
    assert forall|k: int| 0 <= k < b.len() implies (#[trigger] b[k]) < 128 by {
        if k < w {
            assert(space(x[k]));
        } else if k < w + m.len() {
            assert(b[k] == m[k - w]);
            if k - w < m.len() - 1 {
                assert(digit(m[k - w]));
            }
        }
    }
    lemma_ascii_valid(b);
    if m.len() > 1 {
        assert(digit(m[0]));
        assert(b[w] == m[0]);
        lemma_not_a_rule(b, w);
    } else {
        let u = Seq::new(b.len(), |k: int| b[k] as char);
        is_ascii_chars_encode_utf8(u);
        assert(bytes(u) =~= b);
        encode_utf8_decode_utf8(u);
        assert forall|k: int| 0 <= k < u.len() && white_space(#[trigger] u[k]) implies u[k] == ' '
            || u[k] == '\t' by {
            if k < w {
                assert(b[k] == x[k]);
                assert(space(x[k]));
            } else if k == w {
                assert(b[k] == m[0]);
            } else {
                assert(b[k] == SPACE);
            }
        }
        assert(plainly_spaced(u));
        law_rules_look_like_rules(u);
        lemma_few_copies(x, m, DASH);
        lemma_few_copies(x, m, STAR);
        lemma_few_copies(x, m, crate::ascii::UNDERSCORE);
    }
}

proof fn lemma_few_copies(x: Seq<u8>, m: Seq<u8>, c: u8)
    requires
        blanks(x),
        m.len() == 1,
        !space(c),
    ensures
        copies(x + m + seq![SPACE], c, (x + m + seq![SPACE]).len() as int) <= 1,
{
    assert forall|k: int| 0 <= k < x.len() implies space(#[trigger] x[k]) by {}
    lemma_no_copies(x, c, x.len() as int);
    let t = m + seq![SPACE];
    assert(x + m + seq![SPACE] =~= x + t);
    lemma_copies_concat(x, t, c, t.len() as int);
    reveal_with_fuel(copies, 3);
    assert(copies(t, c, 2) <= 1);
}

/// Enter on an item with nothing in it steps it out: by a tab or two spaces where it is
/// indented that far, and at the margin it clears the line.
pub proof fn law_enter_leaves_an_empty_item(x: Seq<u8>, m: Seq<u8>)
    requires
        blanks(x),
        item_mark(m),
    ensures
        ({
            let b = x + m + seq![SPACE];
            let n = b.len() as int;
            carried(b, n) == if x.len() == 0 {
                Some(Carry::Clear)
            } else if x[0] == SPACE && x.len() > 1 && x[1] == SPACE {
                Some(Carry::Outdent(b.subrange(2, n)))
            } else {
                Some(Carry::Outdent(b.subrange(1, n)))
            }
        }),
{
    let b = x + m + seq![SPACE];
    let n = b.len() as int;
    lemma_bullet_no_rule(x, m);
    assert(b + Seq::<u8>::empty() =~= b);
    lemma_item(x, m, Seq::empty());
    let rest = b.subrange(n, n);
    assert(rest =~= Seq::empty());
    assert(task(rest) is None);
    assert(structure(b) is Some && (structure(b)->0).1 == n);
    crate::text::lemma_bytes_empty(Seq::empty());
    encode_utf8_decode_utf8(Seq::empty());
    assert(bytes(Seq::empty()) =~= rest);
    assert(trimmed(decode_utf8(rest)).len() == 0);
    if x.len() == 0 {
        assert(b[0] == m[0]);
        if m.len() > 1 {
            assert(digit(m[0]));
        }
    } else {
        assert(b[0] == x[0]);
        assert(space(x[0]));
        if x.len() > 1 {
            assert(b[1] == x[1]);
            assert(space(x[1]));
        } else {
            assert(b[1] == m[0]);
            if m.len() > 1 {
                assert(digit(m[0]));
            }
        }
        lemma_run(b, 0, SPACE);
        if b[0] == SPACE && b[1] == SPACE {
            crate::markdown::scan::lemma_run(b, 1, SPACE);
        }
    }
}

} // verus!
