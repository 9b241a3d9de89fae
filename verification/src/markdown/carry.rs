//! What Enter carries over from a list item, a quote or an indented line.

use vstd::prelude::*;
use vstd::string::*;
use vstd::utf8::*;

use crate::ascii::{CLOSE_BRACKET, GREATER, LOWER_X, NINE, OPEN_BRACKET, SPACE, TAB, ZERO};
use crate::decimal::{decimal, lemma_value_of_decimal, parse_decimal, to_decimal, value};
use crate::lists::{
    can_outdent, indent_of, indented, law_outdenting_takes_what_is_there, level, outdent, outdented,
};
use crate::markdown::scan::{lemma_run, lemma_run_is, space};
use crate::markdown::{
    blanks_end, bullet, digit, digits_end, is_separator, lead, lemma_blanks_end, lemma_digits_end,
    lemma_list, lemma_quote, lemma_sigils_end, list, list_at, quote, quote_at, separator, sigils_end, skip_blanks, skip_digits, task, task_at,
};
use crate::text::{
    boundary, bytes, lemma_ascii_boundary, lemma_bytes_concat, lemma_first_byte, lemma_string_ends,
    lemma_subrange_valid, slice, trim, trimmed, white_space,
};

verus! {

broadcast use {vstd::seq::group_seq_axioms, vstd::string::group_string_axioms};

/// What pressing Enter should do to the list or quote a line is part of.
#[derive(Debug, Clone, PartialEq, Eq)]
pub enum Continuation {
    /// Begin the next line with this prefix.
    Next(String),
    /// The item is empty and at the margin, so writing another marker would only
    /// leave litter. Clear the line instead, which is how a list is left.
    Clear,
    /// The item is empty but *nested*, so Enter steps it out one level rather
    /// than abandoning every level of structure at once. Replace the current
    /// line with this less-indented marker; the next Enter steps out again, and
    /// eventually [`Clear`](Continuation::Clear)s at the margin.
    Outdent(String),
}

/// A [`Continuation`] with its text as bytes.
pub enum Carry {
    Next(Seq<u8>),
    Clear,
    Outdent(Seq<u8>),
}

impl View for Continuation {
    type V = Carry;

    open spec fn view(&self) -> Carry {
        match self {
            Continuation::Next(prefix) => Carry::Next(bytes(prefix@)),
            Continuation::Clear => Carry::Clear,
            Continuation::Outdent(line) => Carry::Outdent(bytes(line@)),
        }
    }
}

/// Whether text holds nothing but white space.
pub open spec fn blank(b: Seq<u8>) -> bool {
    trimmed(decode_utf8(b)).len() == 0
}

/// The bullet that follows `b`: the same one, except that a number counts up.
pub open spec fn following(b: Seq<u8>) -> Seq<u8> {
    let from = blanks_end(b, 0);
    let to = digits_end(b, from);
    if from == to {
        b
    } else {
        b.subrange(0, from) + decimal(value(b.subrange(from, to)) + 1) + b.subrange(to, b.len() as int)
    }
}

/// An unticked task box and the space after it.
pub open spec fn open_box() -> Seq<u8> {
    seq![OPEN_BRACKET, SPACE, CLOSE_BRACKET, SPACE]
}

/// The prefix that carries the structure of `b` onto the next line, and the
/// offset where that structure ends. A quote carries what it holds with it; a
/// task is carried over unticked.
pub open spec fn structure(b: Seq<u8>) -> Option<(Seq<u8>, int)>
    decreases b.len(),
{
    let n = b.len() as int;
    if quote(b) is Some {
        let end = quote(b)->0;
        proof {
            lemma_quote(b);
        }
        match structure(b.subrange(end, n)) {
            Some((inner, inner_end)) => Some((b.subrange(0, end) + inner, end + inner_end)),
            None => Some((b.subrange(0, end), end)),
        }
    } else if list(b) is Some {
        let end = list(b)->0;
        let next = following(b.subrange(0, end));
        match task(b.subrange(end, n)) {
            Some((len, _)) => Some((next + open_box(), end + len)),
            None => Some((next, end)),
        }
    } else {
        None
    }
}

/// What Enter does with the caret at `caret` on line `b`; `None` where it just
/// breaks the line.
pub open spec fn carried(b: Seq<u8>, caret: int) -> Option<Carry> {
    let n = b.len() as int;
    if separator(decode_utf8(b)) {
        None
    } else {
        match structure(b) {
            Some((prefix, end)) => if caret < end {
                None
            } else if !blank(b.subrange(end, n)) {
                Some(Carry::Next(prefix))
            } else if indented(b) {
                Some(Carry::Outdent(outdented(b)))
            } else {
                Some(Carry::Clear)
            },
            None => {
                let indent = blanks_end(b, 0);
                if indent == 0 || caret < indent || blank(b) {
                    None
                } else {
                    Some(Carry::Next(b.subrange(0, indent)))
                }
            },
        }
    }
}

/// The structure of a line ends inside it, on a boundary.
pub proof fn lemma_structure(b: Seq<u8>)
    requires
        valid_utf8(b),
        structure(b) is Some,
    ensures
        0 < (structure(b)->0).1 <= b.len(),
        boundary(b, (structure(b)->0).1),
    decreases b.len(),
{
    let n = b.len() as int;
    if quote(b) is Some {
        let end = quote(b)->0;
        lemma_quote(b);
        let tail = b.subrange(end, n);
        lemma_subrange_valid(b, end, n);
        if structure(tail) is Some {
            lemma_structure(tail);
            let at = (structure(tail)->0).1;
            if at < tail.len() {
                assert(tail[at] == b[end + at]);
            }
        }
    } else {
        let end = list(b)->0;
        lemma_list(b);
        let tail = b.subrange(end, n);
        if task(tail) is Some {
            let len = (task(tail)->0).0;
            assert(tail[len - 1] == b[end + len - 1]);
            lemma_ascii_boundary(b, end + len - 1);
        }
    }
}

/// Whether `s` holds nothing but white space.
pub fn is_blank(s: &str) -> (r: bool)
    ensures
        r == blank(s.spec_bytes()),
{
    proof {
        encode_utf8_decode_utf8(s@);
    }
    trim(s).is_empty()
}

/// How Enter should carry on the structure `line` starts, with the caret at
/// byte offset `caret` within it. `None` means Enter just breaks the line.
pub fn continuation(line: &str, caret: usize) -> (r: Option<Continuation>)
    ensures
        r is Some <==> carried(line.spec_bytes(), caret as int) is Some,
        r matches Some(c) ==> carried(line.spec_bytes(), caret as int) == Some(c@),
{
    let n: usize = line.as_bytes().len();
    let ghost b = line.spec_bytes();
    proof {
        lemma_string_ends(line@);
        encode_utf8_decode_utf8(line@);
    }
    // A thematic break such as `- - -` starts like a bullet but is none.
    if is_separator(line) {
        return None;
    }
    match marker(line) {
        None => {
            // Indentation is structure too: a hand-made outline should not jump
            // back to the margin on Enter.
            let indent = indent_of(line);
            proof {
                lemma_blanks_end(b, 0);
            }
            let len: usize = indent.as_bytes().len();
            if len == 0 || caret < len || is_blank(line) {
                return None;
            }
            Some(Continuation::Next(String::from_str(indent)))
        },
        Some((prefix, end)) => {
            proof {
                lemma_structure(b);
            }
            // Inside the marker itself there is no item yet to continue.
            if caret < end {
                return None;
            }
            if is_blank(slice(line, end, n)) {
                // A nested empty item steps out one level per Enter; at the
                // margin Enter leaves the list.
                if can_outdent(line) {
                    return Some(Continuation::Outdent(outdent(line)));
                }
                return Some(Continuation::Clear);
            }
            Some(Continuation::Next(prefix))
        },
    }
}

/// The prefix that carries a line's structure onto the next one, and the byte
/// offset where that structure ends.
fn marker(line: &str) -> (r: Option<(String, usize)>)
    ensures
        r is Some <==> structure(line.spec_bytes()) is Some,
        r matches Some((prefix, end)) ==> structure(line.spec_bytes()) == Some(
            (bytes(prefix@), end as int),
        ),
{
    let n: usize = line.as_bytes().len();
    let ghost b = line.spec_bytes();
    let mut at: usize = 0;
    let mut more = true;
    proof {
        lemma_string_ends(line@);
        assert(b.subrange(0, b.len() as int) =~= b);
        assert(within_quotes(b, 0) == structure(b));
    }
    while more
        invariant
            b == line.spec_bytes(),
            valid_utf8(b),
            boundary(b, n as int),
            n == b.len(),
            at <= n,
            boundary(b, at as int),
            within_quotes(b, at as int) == structure(b),
            !more ==> quote(b.subrange(at as int, n as int)) is None,
        decreases n - at, if more { 1int } else { 0int },
    {
        let ghost t = b.subrange(at as int, n as int);
        match quote_at(slice(line, at, n)) {
            Some(end) => {
                proof {
                    lemma_subrange_valid(b, at as int, n as int);
                    lemma_quote(t);
                    lemma_within_quotes(b, at as int);
                    if at + end < n {
                        assert(t[end as int] == b[at + end]);
                    }
                }
                at = at + end;
            },
            None => {
                more = false;
            },
        }
    }
    let head = slice(line, 0, at);
    let tail = slice(line, at, n);
    match bullet_marker(tail) {
        Some((inner, inner_end)) => {
            let mut prefix = String::from_str(head);
            proof {
                lemma_bytes_concat(head@, inner@);
                lemma_string_ends(tail@);
                lemma_structure(tail.spec_bytes());
            }
            prefix.append(inner.as_str());
            Some((prefix, at + inner_end))
        },
        None => if at > 0 {
            Some((String::from_str(head), at))
        } else {
            None
        },
    }
}

/// The structure of `b`, of which quotes take the first `at` bytes.
spec fn within_quotes(b: Seq<u8>, at: int) -> Option<(Seq<u8>, int)> {
    match structure(b.subrange(at, b.len() as int)) {
        Some((inner, inner_end)) => Some((b.subrange(0, at) + inner, at + inner_end)),
        None => if at > 0 {
            Some((b.subrange(0, at), at))
        } else {
            None
        },
    }
}

/// One more quote belongs to the head.
proof fn lemma_within_quotes(b: Seq<u8>, at: int)
    requires
        0 <= at <= b.len(),
        valid_utf8(b.subrange(at, b.len() as int)),
        quote(b.subrange(at, b.len() as int)) is Some,
    ensures
        ({
            let end = quote(b.subrange(at, b.len() as int))->0;
            within_quotes(b, at + end) == within_quotes(b, at)
        }),
{
    let n = b.len() as int;
    let t = b.subrange(at, n);
    lemma_quote(t);
    let end = quote(t)->0;
    assert(t.subrange(end, t.len() as int) =~= b.subrange(at + end, n));
    assert(b.subrange(0, at) + t.subrange(0, end) =~= b.subrange(0, at + end));
    match structure(b.subrange(at + end, n)) {
        Some((inner, _)) => {
            assert(b.subrange(0, at) + (t.subrange(0, end) + inner) =~= b.subrange(0, at + end)
                + inner);
        },
        None => {},
    }
}

/// The same for a line that is no quote.
fn bullet_marker(line: &str) -> (r: Option<(String, usize)>)
    requires
        quote(line.spec_bytes()) is None,
    ensures
        r is Some <==> structure(line.spec_bytes()) is Some,
        r matches Some((prefix, end)) ==> structure(line.spec_bytes()) == Some(
            (bytes(prefix@), end as int),
        ),
{
    let n: usize = line.as_bytes().len();
    let ghost b = line.spec_bytes();
    proof {
        lemma_string_ends(line@);
    }
    match list_at(line) {
        None => None,
        Some(end) => {
            proof {
                lemma_list(b);
                lemma_list_digits(b);
            }
            let mut prefix = next_bullet(slice(line, 0, end));
            let mut marker_end: usize = end;
            if let Some((len, _style)) = task_at(slice(line, end, n)) {
                marker_end += len;
                let unticked = "[ ] ";
                proof {
                    reveal_strlit("[ ] ");
                    is_ascii_chars_encode_utf8(unticked@);
                    assert(unticked.spec_bytes() =~= open_box());
                    lemma_bytes_concat(prefix@, unticked@);
                }
                prefix.append(unticked);
            }
            Some((prefix, marker_end))
        },
    }
}

/// A numbered bullet has nine digits at most.
proof fn lemma_list_digits(b: Seq<u8>)
    requires
        list(b) is Some,
    ensures
        ({
            let head = b.subrange(0, list(b)->0);
            digits_end(head, blanks_end(head, 0)) - blanks_end(head, 0) <= 9
        }),
{
    let end = list(b)->0;
    let head = b.subrange(0, end);
    let from = blanks_end(b, 0);
    lemma_list(b);
    lemma_blanks_end(b, 0);
    lemma_blanks_prefix(b, end, 0);
    lemma_digits_end(b, from);
    lemma_digits_prefix(b, end, from);
}

proof fn lemma_blanks_prefix(b: Seq<u8>, end: int, i: int)
    requires
        0 <= i <= end <= b.len(),
        blanks_end(b, i) < end,
    ensures
        blanks_end(b.subrange(0, end), i) == blanks_end(b, i),
    decreases b.len() - i,
{
    let head = b.subrange(0, end);
    lemma_blanks_end(b, i);
    assert(head[i] == b[i]);
    if space_at(b, i) {
        lemma_blanks_prefix(b, end, i + 1);
    }
}

spec fn space_at(b: Seq<u8>, i: int) -> bool {
    i < b.len() && crate::markdown::scan::space(b[i])
}

proof fn lemma_digits_prefix(b: Seq<u8>, end: int, i: int)
    requires
        0 <= i < end <= b.len(),
        digits_end(b, i) < end,
    ensures
        digits_end(b.subrange(0, end), i) == digits_end(b, i),
    decreases b.len() - i,
{
    let head = b.subrange(0, end);
    lemma_digits_end(b, i);
    assert(head[i] == b[i]);
    if digit(b[i]) {
        lemma_digits_prefix(b, end, i + 1);
    }
}

/// The bullet that follows `bullet`: the same one, except that an ordered list
/// counts up.
fn next_bullet(bullet: &str) -> (r: String)
    requires
        ({
            let b = bullet.spec_bytes();
            digits_end(b, blanks_end(b, 0)) - blanks_end(b, 0) <= 9
        }),
    ensures
        bytes(r@) == following(bullet.spec_bytes()),
{
    let b = bullet.as_bytes();
    let n: usize = b.len();
    let from: usize = skip_blanks(b, 0);
    let to: usize = skip_digits(b, from);
    if from == to {
        return String::from_str(bullet);
    }
    proof {
        lemma_string_ends(bullet@);
        lemma_digits_end(b@, from as int);
        lemma_ascii_boundary(b@, from as int);
        lemma_ascii_boundary(b@, to - 1);
        let d = b@.subrange(from as int, to as int);
        assert forall|k: int| 0 <= k < d.len() implies ZERO <= #[trigger] d[k] <= NINE by {
            assert(digit(b@[from + k]));
        }
    }
    let number: u64 = parse_decimal(b, from, to);
    let head = slice(bullet, 0, from);
    let tail = slice(bullet, to, n);
    let digits = to_decimal(number + 1);
    let mut r = String::from_str(head);
    r.append(digits.as_str());
    r.append(tail);
    proof {
        lemma_bytes_concat(head@ + digits@, tail@);
        lemma_bytes_concat(head@, digits@);
    }
    r
}

proof fn lemma_trim_start(u: Seq<char>, s: Seq<char>)
    requires
        forall|i: int| 0 <= i < u.len() ==> white_space(#[trigger] u[i]),
    ensures
        trimmed(u + s) == trimmed(s),
    decreases u.len(),
{
    if u.len() > 0 {
        assert(white_space((u + s)[0]));
        assert((u + s).drop_first() =~= u.drop_first() + s);
        lemma_trim_start(u.drop_first(), s);
    } else {
        assert(u + s =~= s);
    }
}

/// Indentation is white space, and whether a line is a rule does not turn on it.
proof fn lemma_outdented_separator(b: Seq<u8>)
    requires
        valid_utf8(b),
        valid_utf8(outdented(b)),
    ensures
        separator(decode_utf8(outdented(b))) == separator(decode_utf8(b)),
{
    lemma_run(b, 0, SPACE);
    let at = level(b);
    let o = outdented(b);
    let u: Seq<char> = if b.len() > 0 && b[0] == TAB {
        seq!['\t']
    } else if at == 0 {
        Seq::empty()
    } else if at == 1 {
        seq![' ']
    } else {
        seq![' ', ' ']
    };
    let prefix = b.subrange(0, at);
    is_ascii_chars_encode_utf8(u);
    assert(bytes(u) =~= prefix);
    lemma_bytes_concat(u, decode_utf8(o));
    decode_utf8_encode_utf8(o);
    assert(bytes(u + decode_utf8(o)) =~= b);
    encode_utf8_decode_utf8(u + decode_utf8(o));
    lemma_trim_start(u, decode_utf8(o));
}

proof fn lemma_blanks_shift(b: Seq<u8>, by: int, i: int)
    requires
        0 <= by,
        0 <= i,
        by + i <= b.len(),
    ensures
        blanks_end(b.subrange(by, b.len() as int), i) == blanks_end(b, by + i) - by,
    decreases b.len() - i,
{
    let o = b.subrange(by, b.len() as int);
    if by + i < b.len() {
        assert(o[i] == b[by + i]);
        if space(b[by + i]) {
            lemma_blanks_shift(b, by, i + 1);
        }
    }
}

proof fn lemma_digits_shift(b: Seq<u8>, by: int, i: int)
    requires
        0 <= by,
        0 <= i,
        by + i <= b.len(),
    ensures
        digits_end(b.subrange(by, b.len() as int), i) == digits_end(b, by + i) - by,
    decreases b.len() - i,
{
    let o = b.subrange(by, b.len() as int);
    if by + i < b.len() {
        assert(o[i] == b[by + i]);
        if digit(b[by + i]) {
            lemma_digits_shift(b, by, i + 1);
        }
    }
}

/// Every byte of the first level of indentation is blank.
proof fn lemma_level_blank(b: Seq<u8>)
    ensures
        0 <= level(b) <= blanks_end(b, 0) <= b.len(),
        blanks_end(b, level(b)) == blanks_end(b, 0),
{
    lemma_run(b, 0, SPACE);
    lemma_blanks_end(b, 0);
    if level(b) > 0 {
        assert(space(b[0]));
        assert(blanks_end(b, 0) == blanks_end(b, 1));
        lemma_blanks_end(b, 1);
        if level(b) == 2 {
            assert(space(b[1]));
            assert(blanks_end(b, 1) == blanks_end(b, 2));
            lemma_blanks_end(b, 2);
        }
    }
}

/// An outdented list item is the same item, further out.
proof fn lemma_outdented_list(b: Seq<u8>)
    requires
        list(b) is Some,
    ensures
        list(outdented(b)) == Some(list(b)->0 - level(b)),
        quote(outdented(b)) is None,
{
    let by = level(b);
    let o = outdented(b);
    lemma_level_blank(b);
    lemma_blanks_shift(b, by, 0);
    let at = blanks_end(b, 0);
    lemma_list(b);
    assert(at < b.len());
    assert(o[at - by] == b[at]);
    lemma_digits_shift(b, by, at - by);
    lemma_digits_end(b, at);
    let j = digits_end(b, at);
    if j < b.len() {
        assert(o[j - by] == b[j]);
    }
    let after = bullet(b, at)->0;
    assert(o[after - by] == b[after]);
    lemma_run(o, 0, SPACE);
    lemma_blanks_end(o, 0);
    let i = lead(o);
    if i < o.len() && o[i] == GREATER {
        if i < at - by {
            assert(space(o[i]));
        } else if i > at - by {
            assert(o[at - by] == SPACE);
        }
    }
}

proof fn lemma_sigils_shift(b: Seq<u8>, by: int, i: int)
    requires
        0 <= by,
        0 <= i,
        by + i <= b.len(),
    ensures
        sigils_end(b.subrange(by, b.len() as int), i) == sigils_end(b, by + i) - by,
    decreases b.len() - i,
{
    let o = b.subrange(by, b.len() as int);
    if by + i < b.len() {
        assert(o[i] == b[by + i]);
        if b[by + i] == GREATER {
            if by + i + 1 < b.len() {
                assert(o[i + 1] == b[by + i + 1]);
                if b[by + i + 1] == SPACE {
                    lemma_sigils_shift(b, by, i + 2);
                } else {
                    lemma_sigils_shift(b, by, i + 1);
                }
            } else {
                lemma_sigils_shift(b, by, i + 1);
            }
        }
    }
}

/// An outdented quote is the same quote, further out.
proof fn lemma_outdented_quote(b: Seq<u8>)
    requires
        quote(b) is Some,
    ensures
        quote(outdented(b)) == Some(quote(b)->0 - level(b)),
        level(b) < quote(b)->0 <= b.len(),
{
    let by = level(b);
    let o = outdented(b);
    lemma_run(b, 0, SPACE);
    let at = lead(b);
    assert(b[at] == GREATER);
    lemma_run_is(o, 0, at - by, SPACE);
    lemma_sigils_shift(b, by, at - by);
    lemma_sigils_end(b, at);
}

/// Enter on an empty nested item steps it out one level, the next Enter one level
/// further, and at the margin it leaves the list.
pub proof fn law_enter_steps_out_to_the_margin(b: Seq<u8>)
    requires
        valid_utf8(b),
        carried(b, b.len() as int) == Some(Carry::Outdent(outdented(b))),
    ensures
        outdented(b).len() < b.len(),
        carried(outdented(b), outdented(b).len() as int) == Some(
            if indented(outdented(b)) {
                Carry::Outdent(outdented(outdented(b)))
            } else {
                Carry::Clear
            },
        ),
{
    let n = b.len() as int;
    let by = level(b);
    let o = outdented(b);
    law_outdenting_takes_what_is_there(b);
    assert(structure(b) is Some);
    let end = if quote(b) is Some {
        lemma_quote(b);
        lemma_outdented_quote(b);
        quote(b)->0
    } else {
        lemma_list(b);
        lemma_outdented_list(b);
        list(b)->0
    };
    lemma_level_blank(b);
    lemma_blanks_end(b, 0);
    assert(space(b[by - 1]));
    lemma_ascii_boundary(b, by - 1);
    lemma_subrange_valid(b, by, n);
    lemma_outdented_separator(b);
    assert(by < end <= n);
    assert(o.subrange(end - by, o.len() as int) =~= b.subrange(end, n));
    let whole = (structure(b)->0).1;
    lemma_subrange_valid(b, end, n);
    if structure(b.subrange(end, n)) is Some {
        lemma_structure(b.subrange(end, n));
    }
    assert(structure(o) is Some);
    assert((structure(o)->0).1 == whole - by);
    lemma_structure(b);
    assert(o.subrange(whole - by, o.len() as int) =~= b.subrange(whole, n));
}

/// No byte of `p` is a digit.
pub open spec fn digitless(p: Seq<u8>) -> bool {
    forall|k: int| 0 <= k < p.len() ==> !digit(#[trigger] p[k])
}

proof fn lemma_blanks_are(b: Seq<u8>, i: int, j: int)
    requires
        0 <= i <= j < b.len(),
        forall|k: int| i <= k < j ==> space(#[trigger] b[k]),
        !space(b[j]),
    ensures
        blanks_end(b, i) == j,
    decreases j - i,
{
    if i < j {
        assert(space(b[i]));
        lemma_blanks_are(b, i + 1, j);
    }
}

/// The sigils of a quote end where they did if they and the next byte stay, or the
/// next byte can be no part of them.
proof fn lemma_sigils_kept(b: Seq<u8>, q: Seq<u8>, i: int, end: int)
    requires
        0 <= i <= end <= b.len(),
        end < q.len(),
        sigils_end(b, i) == end,
        forall|k: int| i <= k < end ==> #[trigger] q[k] == b[k],
        (end < b.len() && q[end] == b[end]) || q[end] == LOWER_X,
    ensures
        sigils_end(q, i) == end,
    decreases end - i,
{
    if i < end {
        assert(q[i] == b[i]);
        if i + 1 < b.len() && b[i + 1] == SPACE {
            lemma_sigils_end(b, i + 2);
            assert(q[i + 1] == b[i + 1]);
            lemma_sigils_kept(b, q, i + 2, end);
        } else {
            lemma_sigils_end(b, i + 1);
            if i + 1 < end {
                assert(q[i + 1] == b[i + 1]);
            }
            lemma_sigils_kept(b, q, i + 1, end);
        }
    } else {
        lemma_sigils_end(b, i);
    }
}

/// The bullet of an item that carries no number is carried as it is.
proof fn lemma_plain_bullet(b: Seq<u8>)
    requires
        list(b) is Some,
        digitless(following(b.subrange(0, list(b)->0))),
    ensures
        ({
            let at = blanks_end(b, 0);
            &&& list(b) == Some(at + 2)
            &&& 0 <= at
            &&& at + 2 <= b.len()
            &&& !space(b[at])
            &&& !digit(b[at])
            &&& b[at] != GREATER
            &&& b[at] < 0x80
            &&& space(b[at + 1])
            &&& bullet(b, at) == Some(at + 1)
            &&& forall|k: int| 0 <= k < at ==> space(#[trigger] b[k])
            &&& following(b.subrange(0, at + 2)) == b.subrange(0, at + 2)
        }),
{
    let end = list(b)->0;
    let head = b.subrange(0, end);
    let at = blanks_end(b, 0);
    lemma_list(b);
    lemma_blanks_end(b, 0);
    lemma_blanks_prefix(b, end, 0);
    let to = digits_end(head, at);
    lemma_digits_end(head, at);
    if to != at {
        let number = value(head.subrange(at, to)) + 1;
        lemma_value_of_decimal(number as nat);
        let next = following(head);
        assert(next[at] == decimal(number as nat)[0]);
        assert(digit(next[at]));
    }
    assert(head[at] == b[at]);
    if digit(b[at]) {
        lemma_digits_end(head, at + 1);
        assert(digits_end(head, at) == digits_end(head, at + 1));
    }
    assert(digits_end(b, at) == at);
}

/// A carried bullet, with text behind it, carries itself.
proof fn lemma_bullet_again(b: Seq<u8>, p: Seq<u8>)
    requires
        valid_utf8(b),
        quote(b) is None,
        structure(b) is Some,
        (structure(b)->0).0 == p,
        digitless(p),
    ensures
        p.len() > 0,
        p[0] == b[0],
        valid_utf8(p),
        structure(p.push(LOWER_X)) == Some((p, p.len() as int)),
{
    let n = b.len() as int;
    let q = p.push(LOWER_X);
    let end = list(b)->0;
    let head = b.subrange(0, end);
    let tail = b.subrange(end, n);
    let at = blanks_end(b, 0);
    assert forall|k: int| 0 <= k < following(head).len() implies !digit(
        #[trigger] following(head)[k],
    ) by {
        assert(p[k] == following(head)[k]);
    }
    lemma_plain_bullet(b);
    lemma_ascii_boundary(b, at + 1);
    lemma_first_byte(b);
    lemma_subrange_valid(b, 0, end);
    lemma_same_bullet(b, q);
    assert(q.subrange(0, end) =~= head);
    let rest = q.subrange(end, q.len() as int);
    if task(tail) is Some {
        let open = open_box();
        assert(p =~= head + open);
        let chars = seq!['[', ' ', ']', ' '];
        is_ascii_chars_encode_utf8(chars);
        assert(bytes(chars) =~= open);
        lemma_bytes_concat(decode_utf8(head), chars);
        decode_utf8_encode_utf8(head);
        encode_utf8_valid_utf8(decode_utf8(head) + chars);
        assert(rest[0] == OPEN_BRACKET && rest[1] == SPACE && rest[2] == CLOSE_BRACKET && rest[3]
            == SPACE);
    } else {
        assert(p =~= head);
        assert(rest.len() == 1);
    }
}

/// A line that starts with the plain bullet of `b` has that bullet.
proof fn lemma_same_bullet(b: Seq<u8>, q: Seq<u8>)
    requires
        list(b) is Some,
        list(b) == Some(blanks_end(b, 0) + 2),
        0 <= blanks_end(b, 0),
        blanks_end(b, 0) + 2 <= b.len(),
        blanks_end(b, 0) + 2 < q.len(),
        forall|k: int| 0 <= k < blanks_end(b, 0) + 2 ==> #[trigger] q[k] == b[k],
        forall|k: int| 0 <= k < blanks_end(b, 0) ==> space(#[trigger] b[k]),
        !space(b[blanks_end(b, 0)]),
        !digit(b[blanks_end(b, 0)]),
        b[blanks_end(b, 0)] != GREATER,
    ensures
        quote(q) is None,
        list(q) == list(b),
{
    let at = blanks_end(b, 0);
    assert(q[at] == b[at] && q[at + 1] == b[at + 1]);
    assert forall|k: int| 0 <= k < at implies space(#[trigger] q[k]) by {
        assert(q[k] == b[k]);
    }
    lemma_blanks_are(q, 0, at);
    lemma_run(q, 0, SPACE);
    let i = lead(q);
    if i < at {
        assert(space(q[i]));
    } else if i > at {
        assert(q[at] == SPACE);
    }
    assert(digits_end(q, at) == at);
    assert(digits_end(b, at) == at);
}

/// A line that starts with the sigils of `b`, and goes on as `b` does or with
/// text, has those sigils.
proof fn lemma_same_sigils(b: Seq<u8>, q: Seq<u8>)
    requires
        valid_utf8(b),
        quote(b) is Some,
        quote(b)->0 < q.len(),
        forall|k: int| 0 <= k < quote(b)->0 ==> #[trigger] q[k] == b[k],
        (quote(b)->0 < b.len() && q[quote(b)->0] == b[quote(b)->0]) || q[quote(b)->0] == LOWER_X,
    ensures
        quote(q) == quote(b),
{
    let end = quote(b)->0;
    let at = lead(b);
    lemma_quote(b);
    lemma_run(b, 0, SPACE);
    lemma_sigils_end(b, at);
    assert(b[at] == GREATER);
    assert forall|k: int| 0 <= k < at implies q[k] == SPACE by {
        assert(q[k] == b[k]);
    }
    assert(q[at] == b[at]);
    lemma_run_is(q, 0, at, SPACE);
    lemma_sigils_kept(b, q, at, end);
}

/// A carried prefix, with text behind it, carries itself.
proof fn lemma_carried_again(b: Seq<u8>, p: Seq<u8>)
    requires
        valid_utf8(b),
        structure(b) is Some,
        (structure(b)->0).0 == p,
        digitless(p),
    ensures
        p.len() > 0,
        p[0] == b[0],
        valid_utf8(p),
        structure(p.push(LOWER_X)) == Some((p, p.len() as int)),
    decreases b.len(),
{
    let n = b.len() as int;
    let q = p.push(LOWER_X);
    if quote(b) is Some {
        let end = quote(b)->0;
        let head = b.subrange(0, end);
        let tail = b.subrange(end, n);
        lemma_quote(b);
        lemma_first_byte(b);
        lemma_subrange_valid(b, 0, end);
        lemma_subrange_valid(b, end, n);
        let inner = match structure(tail) {
            Some((inner, _)) => inner,
            None => Seq::empty(),
        };
        assert(p =~= head + inner);
        if structure(tail) is Some {
            assert forall|k: int| 0 <= k < inner.len() implies !digit(#[trigger] inner[k]) by {
                assert(p[end + k] == inner[k]);
            }
            lemma_carried_again(tail, inner);
            lemma_bytes_concat(decode_utf8(head), decode_utf8(inner));
            decode_utf8_encode_utf8(head);
            decode_utf8_encode_utf8(inner);
            encode_utf8_valid_utf8(decode_utf8(head) + decode_utf8(inner));
            assert(q[end] == inner[0]);
            assert(tail[0] == b[end]);
        } else {
            lemma_text_alone();
            assert(p =~= head);
            assert(q[end] == LOWER_X);
        }
        assert forall|k: int| 0 <= k < end implies #[trigger] q[k] == b[k] by {}
        lemma_same_sigils(b, q);
        assert(q.subrange(0, end) =~= head);
        assert(q.subrange(end, q.len() as int) =~= inner.push(LOWER_X));
        assert(Seq::<u8>::empty().push(LOWER_X) =~= seq![LOWER_X]);
    } else {
        lemma_bullet_again(b, p);
    }
}

/// A single letter is no structure.
proof fn lemma_text_alone()
    ensures
        structure(seq![LOWER_X]) is None,
{
    let b = seq![LOWER_X];
    lemma_run_is(b, 0, 0, SPACE);
    assert(blanks_end(b, 0) == 0);
    assert(digits_end(b, 0) == 0);
}

/// Enter behind text on a carried prefix gives the same prefix again, however
/// often it is pressed, where the prefix counts nothing: a bullet, a task box and
/// a quote stay what they are from line to line.
pub proof fn law_enter_carries_the_same_prefix_again(b: Seq<u8>, p: Seq<u8>)
    requires
        valid_utf8(b),
        carried(b, b.len() as int) == Some(Carry::Next(p)),
        digitless(p),
        !blank(p),
    ensures
        carried(p.push(LOWER_X), p.len() as int + 1) == Some(Carry::Next(p)),
{
    let q = p.push(LOWER_X);
    if structure(b) is None {
        lemma_blank_prefix(b, p);
    } else {
        lemma_carried_again(b, p);
        let s = decode_utf8(p);
        let x = seq!['x'];
        is_ascii_chars_encode_utf8(x);
        assert(bytes(x) =~= seq![LOWER_X]);
        lemma_bytes_concat(s, x);
        decode_utf8_encode_utf8(p);
        assert(bytes(s + x) =~= q);
        encode_utf8_decode_utf8(s + x);
        encode_utf8_decode_utf8(x);
        lemma_no_rule(s);
        assert(q.subrange(p.len() as int, q.len() as int) =~= bytes(x));
        reveal_with_fuel(crate::text::trimmed_start, 2);
        reveal_with_fuel(crate::text::trimmed_end, 2);
        assert(trimmed(x) =~= x);
    }
}

/// A line that ends in a letter is no rule.
proof fn lemma_no_rule(s: Seq<char>)
    ensures
        !separator(s + seq!['x']),
{
    let u = s + seq!['x'];
    lemma_trimmed_start_keeps(u);
    let t = crate::text::trimmed_start(u);
    assert(trimmed(u) == t);
    let front = t.drop_last();
    assert(t =~= front + seq!['x']);
    is_ascii_chars_encode_utf8(seq!['x']);
    lemma_bytes_concat(front, seq!['x']);
    let b = bytes(t);
    assert(bytes(seq!['x']) =~= seq![LOWER_X]);
    assert(b[b.len() - 1] == LOWER_X);
}

/// Trimming in front does not reach past a letter at the end.
proof fn lemma_trimmed_start_keeps(u: Seq<char>)
    requires
        u.len() > 0,
        u.last() == 'x',
    ensures
        crate::text::trimmed_start(u).len() > 0,
        crate::text::trimmed_start(u).last() == 'x',
    decreases u.len(),
{
    if white_space(u[0]) {
        assert(u.len() > 1);
        assert(u.drop_first().last() == u.last());
        lemma_trimmed_start_keeps(u.drop_first());
    }
}

/// Indentation is blank.
proof fn lemma_blank_prefix(b: Seq<u8>, p: Seq<u8>)
    requires
        valid_utf8(b),
        p == b.subrange(0, blanks_end(b, 0)),
    ensures
        blank(p),
{
    let indent = blanks_end(b, 0);
    lemma_blanks_end(b, 0);
    let u = Seq::new(
        p.len(),
        |k: int|
            if p[k] == SPACE {
                ' '
            } else {
                '\t'
            },
    );
    is_ascii_chars_encode_utf8(u);
    assert forall|k: int| 0 <= k < p.len() implies #[trigger] p[k] == bytes(u)[k] by {
        assert(space(b[k]));
    }
    assert(bytes(u) =~= p);
    encode_utf8_decode_utf8(u);
    lemma_trim_start(u, Seq::empty());
    assert(u + Seq::<char>::empty() =~= u);
}

} // verus!
