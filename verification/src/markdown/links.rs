//! Which link a click lands on.

use vstd::prelude::*;
use vstd::string::*;
use vstd::utf8::*;

use crate::ascii::{
    BACKTICK, BANG, CLOSE_PAREN, EQUALS, LOWER_H, OPEN_BRACKET, OPEN_PAREN, STAR, TILDE, UNDERSCORE,
};
use crate::markdown::inline::{
    emphasis, emphasis_char, find_emphasis, lemma_emphasis, link_from, link_open, MAX_INLINE_NEST,
};
use crate::markdown::scan::{
    autolink, autolink_end, exact_run, find_exact_run, find_link, lemma_autolink, lemma_exact_run,
    lemma_link, lemma_run, run, run_len,
};
use crate::markdown::{
    fence, heading, heading_at, is_fence, is_separator, lead, lemma_list, lemma_quote, list,
    list_at, quote, quote_level, quote_level_end, separator, task, task_at, MdStyle,
};
use crate::text::{
    boundary, byte_len, bytes, lemma_ascii_boundary, lemma_bytes_empty, lemma_string_ends,
    lemma_subrange_valid, slice, trim, trimmed,
};

verus! {

broadcast use {vstd::seq::group_seq_axioms, vstd::string::group_string_axioms};

/// The address part of a link, trimmed.
pub open spec fn address(b: Seq<u8>, rb: int, rp: int) -> Seq<u8> {
    bytes(trimmed(decode_utf8(b.subrange(rb + 2, rp))))
}

/// The address that opens for a click on byte `at` of running text, among the
/// links that the scanner finds at `i` or later. A `[text](url)` is clickable
/// from its `[` through its `)`, a bare url over its own bytes; what stands in
/// code is text.
pub open spec fn inline_target(b: Seq<u8>, depth: int, i: int, at: int) -> Option<Seq<u8>>
    decreases b.len(), b.len() - i,
{
    if i < 0 || i >= b.len() {
        None
    } else if b[i] == BACKTICK {
        let r = run(b, i, BACKTICK) as int;
        proof {
            lemma_run(b, i, BACKTICK);
        }
        match exact_run(b, i + r, BACKTICK, r as nat) {
            Some(j) => {
                proof {
                    lemma_exact_run(b, i + r, BACKTICK, r as nat);
                }
                inline_target(b, depth, j + r, at)
            },
            None => inline_target(b, depth, i + r, at),
        }
    } else if emphasis_char(b[i]) {
        proof {
            lemma_run(b, i, b[i]);
        }
        match emphasis(b, i) {
            Some((need, j)) => {
                proof {
                    lemma_emphasis(b, i);
                }
                if i + need <= at < j {
                    wrapped_target(b.subrange(i + need, j), depth, at - (i + need))
                } else {
                    inline_target(b, depth, j + need, at)
                }
            },
            None => inline_target(b, depth, i + run(b, i, b[i]), at),
        }
    } else if b[i] == BANG || b[i] == OPEN_BRACKET {
        let open = link_open(b, i);
        match link_from(b, i) {
            Some((rb, rp)) => {
                proof {
                    lemma_link(b, open);
                }
                if open <= at <= rp && address(b, rb, rp).len() > 0 {
                    Some(address(b, rb, rp))
                } else {
                    inline_target(b, depth, rp + 1, at)
                }
            },
            None => inline_target(b, depth, i + 1, at),
        }
    } else if b[i] == LOWER_H {
        match autolink(b, i) {
            Some(end) => {
                proof {
                    lemma_autolink(b, i);
                }
                if i <= at < end {
                    Some(b.subrange(i, end))
                } else {
                    inline_target(b, depth, end, at)
                }
            },
            None => inline_target(b, depth, i + 1, at),
        }
    } else {
        inline_target(b, depth, i + 1, at)
    }
}

/// The same inside markup, which is drawn flat where it nests too deep.
pub open spec fn wrapped_target(b: Seq<u8>, depth: int, at: int) -> Option<Seq<u8>>
    decreases b.len(), b.len() + 1,
{
    if depth >= MAX_INLINE_NEST {
        None
    } else {
        inline_target(b, depth + 1, 0, at)
    }
}

/// The same in a list item whose bullet ends at `marker_end`. The text of a task
/// that is done is struck through, its links with it.
pub open spec fn list_target(b: Seq<u8>, marker_end: int, at: int) -> Option<Seq<u8>> {
    let n = b.len() as int;
    match task(b.subrange(marker_end, n)) {
        Some((len, style)) => if style == MdStyle::TaskDone {
            None
        } else {
            inline_target(b.subrange(marker_end + len, n), 0, 0, at - (marker_end + len))
        },
        None => inline_target(b.subrange(marker_end, n), 0, 0, at - marker_end),
    }
}

/// The address that opens for a click on byte `at` of the line `b`.
pub open spec fn target(b: Seq<u8>, at: int) -> Option<Seq<u8>>
    decreases b.len(),
{
    let n = b.len() as int;
    if n == 0 || fence(b) || separator(decode_utf8(b)) {
        None
    } else if heading(b) is Some {
        let end = (heading(b)->0).1;
        wrapped_target(b.subrange(end, n), 0, at - end)
    } else if quote(b) is Some {
        let end = quote(b)->0;
        proof {
            lemma_quote(b);
        }
        target(b.subrange(end, n), at - end)
    } else if list(b) is Some {
        list_target(b, list(b)->0, at)
    } else {
        inline_target(b, 0, 0, at)
    }
}

/// Whether an optional text is the bytes `want`.
pub open spec fn says(r: Option<String>, want: Option<Seq<u8>>) -> bool {
    match r {
        Some(s) => want == Some(bytes(s@)),
        None => want is None,
    }
}

/// The address in the link whose parts are known, trimmed; `None` if it is empty.
fn address_of(s: &str, rb: usize, rp: usize) -> (r: Option<String>)
    requires
        rb + 2 <= rp < s.spec_bytes().len(),
        s.spec_bytes()[rb + 1] == OPEN_PAREN,
        s.spec_bytes()[rp as int] == CLOSE_PAREN,
    ensures
        says(
            r,
            if address(s.spec_bytes(), rb as int, rp as int).len() > 0 {
                Some(address(s.spec_bytes(), rb as int, rp as int))
            } else {
                None
            },
        ),
{
    let ghost b = s.spec_bytes();
    proof {
        lemma_string_ends(s@);
        lemma_ascii_boundary(b, rb + 1);
        lemma_ascii_boundary(b, rp as int);
    }
    let inside = slice(s, rb + 2, rp);
    let url = trim(inside);
    proof {
        encode_utf8_decode_utf8(inside@);
        lemma_bytes_empty(url@);
    }
    if url.is_empty() {
        None
    } else {
        Some(String::from_str(url))
    }
}

/// A click before `i` lands on no link that starts at `i` or later.
pub(crate) proof fn lemma_target_before(b: Seq<u8>, depth: int, i: int, at: int)
    requires
        0 <= i,
        at < i,
    ensures
        inline_target(b, depth, i, at) is None,
    decreases b.len() - i,
{
    if i < b.len() {
        if b[i] == BACKTICK {
            let r = run(b, i, BACKTICK) as int;
            lemma_run(b, i, BACKTICK);
            match exact_run(b, i + r, BACKTICK, r as nat) {
                Some(j) => {
                    lemma_exact_run(b, i + r, BACKTICK, r as nat);
                    lemma_target_before(b, depth, j + r, at);
                },
                None => {
                    lemma_target_before(b, depth, i + r, at);
                },
            }
        } else if emphasis_char(b[i]) {
            lemma_run(b, i, b[i]);
            match emphasis(b, i) {
                Some((need, j)) => {
                    lemma_emphasis(b, i);
                    lemma_target_before(b, depth, j + need, at);
                },
                None => {
                    lemma_target_before(b, depth, i + run(b, i, b[i]), at);
                },
            }
        } else if (b[i] == BANG || b[i] == OPEN_BRACKET) && link_from(b, i) is Some {
            lemma_link(b, link_open(b, i));
            lemma_target_before(b, depth, (link_from(b, i)->0).1 + 1, at);
        } else if b[i] == LOWER_H && autolink(b, i) is Some {
            lemma_autolink(b, i);
            lemma_target_before(b, depth, autolink(b, i)->0, at);
        } else {
            lemma_target_before(b, depth, i + 1, at);
        }
    }
}

/// The url to open for a click on byte `at` of running text.
fn inline_link_at(s: &str, depth: u8, at: usize) -> (r: Option<String>)
    ensures
        says(r, inline_target(s.spec_bytes(), depth as int, 0, at as int)),
    decreases s.spec_bytes().len(),
{
    let b = s.as_bytes();
    let n: usize = b.len();
    let mut i: usize = 0;
    proof {
        lemma_string_ends(s@);
    }
    while i < n
        invariant
            b@ == s.spec_bytes(),
            valid_utf8(b@),
            n == b@.len(),
            i <= n,
            inline_target(b@, depth as int, i as int, at as int) == inline_target(
                b@,
                depth as int,
                0,
                at as int,
            ),
        decreases n - i,
    {
        let c = b[i];
        if c == BACKTICK {
            let r: usize = run_len(b, i, BACKTICK);
            proof {
                lemma_run(b@, i as int, BACKTICK);
            }
            match find_exact_run(b, i + r, BACKTICK, r) {
                Some(j) => {
                    proof {
                        lemma_exact_run(b@, i + r, BACKTICK, r as nat);
                    }
                    i = j + r;
                },
                None => {
                    i = i + r;
                },
            }
        } else if c == STAR || c == UNDERSCORE || c == TILDE || c == EQUALS {
            proof {
                lemma_run(b@, i as int, c);
            }
            match find_emphasis(s, i) {
                Some((need, j)) => {
                    proof {
                        lemma_emphasis(b@, i as int);
                        lemma_ascii_boundary(b@, i + need - 1);
                        lemma_ascii_boundary(b@, j as int);
                    }
                    if i + need <= at && at < j {
                        proof {
                            let inner = b@.subrange(i + need, j as int);
                            assert(wrapped_target(inner, depth as int, at - (i + need)) == if depth
                                >= MAX_INLINE_NEST {
                                None
                            } else {
                                inline_target(inner, depth + 1, 0, at - (i + need))
                            });
                        }
                        if depth >= MAX_INLINE_NEST {
                            return None;
                        }
                        return inline_link_at(slice(s, i + need, j), depth + 1, at - (i + need));
                    }
                    i = j + need;
                },
                None => {
                    i = i + run_len(b, i, c);
                },
            }
        } else if c == BANG || c == OPEN_BRACKET {
            let open: usize = if c == BANG {
                i + 1
            } else {
                i
            };
            let found = if open < n && b[open] == OPEN_BRACKET {
                find_link(b, open)
            } else {
                None
            };
            match found {
                Some((rb, rp)) => {
                    proof {
                        lemma_link(b@, open as int);
                    }
                    if open <= at && at <= rp {
                        proof {
                            lemma_target_before(b@, depth as int, rp + 1, at as int);
                        }
                        return address_of(s, rb, rp);
                    }
                    i = rp + 1;
                },
                None => {
                    i = i + 1;
                },
            }
        } else if c == LOWER_H {
            proof {
                lemma_ascii_boundary(b@, i as int);
            }
            match autolink_end(s, i) {
                Some(end) => {
                    proof {
                        lemma_autolink(b@, i as int);
                    }
                    if i <= at && at < end {
                        return Some(String::from_str(slice(s, i, end)));
                    }
                    i = end;
                },
                None => {
                    i = i + 1;
                },
            }
        } else {
            i = i + 1;
        }
    }
    None
}

/// The url to open for a click on byte `at` of a list item whose bullet ends at
/// `end`.
fn list_link_at(line: &str, end: usize, at: usize) -> (r: Option<String>)
    requires
        list(line.spec_bytes()) == Some(end as int),
    ensures
        says(r, list_target(line.spec_bytes(), end as int, at as int)),
{
    let ghost b = line.spec_bytes();
    let n: usize = byte_len(line);
    proof {
        lemma_string_ends(line@);
        lemma_list(b);
    }
    let tail = slice(line, end, n);
    let (from, done): (usize, bool) = match task_at(tail) {
        Some((len, style)) => {
            proof {
                assert(tail.spec_bytes()[len - 1] == b[end + len - 1]);
                lemma_ascii_boundary(b, end + len - 1);
            }
            (end + len, style == MdStyle::TaskDone)
        },
        None => (end, false),
    };
    if done {
        return None;
    }
    if at < from {
        proof {
            lemma_target_before(b.subrange(from as int, n as int), 0, 0, at - from);
        }
        return None;
    }
    inline_link_at(slice(line, from, n), 0, at - from)
}

/// The url to open for a click on byte `at` of a heading whose marker ends at
/// `end`.
fn heading_link_at(line: &str, end: usize, at: usize) -> (r: Option<String>)
    requires
        heading(line.spec_bytes()) is Some,
        (heading(line.spec_bytes())->0).1 == end,
    ensures
        says(
            r,
            wrapped_target(
                line.spec_bytes().subrange(end as int, line.spec_bytes().len() as int),
                0,
                at - end,
            ),
        ),
{
    let ghost b = line.spec_bytes();
    let n: usize = byte_len(line);
    proof {
        lemma_string_ends(line@);
        lemma_run(b, 0, crate::ascii::SPACE);
        lemma_run(b, lead(b), crate::ascii::HASH);
        lemma_ascii_boundary(b, end - 1);
        assert(wrapped_target(b.subrange(end as int, n as int), 0, at - end) == inline_target(
            b.subrange(end as int, n as int),
            1,
            0,
            at - end,
        ));
    }
    if at < end {
        proof {
            lemma_target_before(b.subrange(end as int, n as int), 1, 0, at - end);
        }
        return None;
    }
    inline_link_at(slice(line, end, n), 1, at - end)
}

/// The URL to open for a click at byte `offset` within `line`, if the offset
/// lands on a link. Covers a `[text](url)` anywhere from the opening `[` through
/// the closing `)`, and a bare `http(s)://…` autolink. It finds links where the
/// highlighter paints them, so what reads as a link is exactly what opens.
/// `None` when the offset is on ordinary text.
pub fn link_at(line: &str, offset: usize) -> (r: Option<String>)
    ensures
        says(r, target(line.spec_bytes(), offset as int)),
{
    let ghost b = line.spec_bytes();
    let n: usize = byte_len(line);
    let mut from: usize = 0;
    proof {
        lemma_string_ends(line@);
        assert(b.subrange(0, b.len() as int) =~= b);
    }
    loop
        invariant
            b == line.spec_bytes(),
            valid_utf8(b),
            boundary(b, n as int),
            n == b.len(),
            from <= n,
            from <= offset,
            boundary(b, from as int),
            target(b.subrange(from as int, n as int), offset - from) == target(b, offset as int),
        decreases n - from,
    {
        let rest = slice(line, from, n);
        let at: usize = offset - from;
        match quote_level_end(rest, false) {
            Some(end) => {
                proof {
                    lemma_next_level(b, from as int, end as int, at as int);
                }
                if at < end {
                    return None;
                }
                from = from + end;
            },
            None => {
                return level_link_at(rest, at);
            },
        }
    }
}

/// The url to open for a click on byte `at` of a line that is no quote.
fn level_link_at(line: &str, at: usize) -> (r: Option<String>)
    requires
        !quote_level(line.spec_bytes(), false),
    ensures
        says(r, target(line.spec_bytes(), at as int)),
{
    proof {
        encode_utf8_decode_utf8(line@);
        lemma_bytes_empty(line@);
    }
    if line.is_empty() || is_fence(line) || is_separator(line) {
        return None;
    }
    if let Some((_level, end)) = heading_at(line) {
        return heading_link_at(line, end, at);
    }
    if let Some(end) = list_at(line) {
        return list_link_at(line, end, at);
    }
    inline_link_at(line, 0, at)
}

/// A click on a quote is a click on what it quotes.
proof fn lemma_next_level(b: Seq<u8>, from: int, end: int, at: int)
    requires
        0 <= from <= b.len(),
        valid_utf8(b),
        boundary(b, from),
        boundary(b, b.len() as int),
        quote_level(b.subrange(from, b.len() as int), false),
        quote(b.subrange(from, b.len() as int)) == Some(end),
    ensures
        0 < end <= b.len() - from,
        boundary(b, from + end),
        target(b.subrange(from, b.len() as int), at) == target(
            b.subrange(from + end, b.len() as int),
            at - end,
        ),
        at < end ==> target(b.subrange(from, b.len() as int), at) is None,
{
    let n = b.len() as int;
    let t = b.subrange(from, n);
    lemma_subrange_valid(b, from, n);
    lemma_quote(t);
    assert(t.subrange(end, t.len() as int) =~= b.subrange(from + end, n));
    if from + end < n {
        assert(t[end] == b[from + end]);
    }
    if at < end {
        lemma_before_line(b.subrange(from + end, n), at - end);
    }
}

/// A click in front of a line is on none of its links.
pub(crate) proof fn lemma_before_line(b: Seq<u8>, at: int)
    requires
        at < 0,
    ensures
        target(b, at) is None,
    decreases b.len(),
{
    let n = b.len() as int;
    if n == 0 || fence(b) || separator(decode_utf8(b)) {
    } else if heading(b) is Some {
        lemma_run(b, 0, crate::ascii::SPACE);
        lemma_run(b, lead(b), crate::ascii::HASH);
        let end = (heading(b)->0).1;
        lemma_target_before(b.subrange(end, n), 1, 0, at - end);
    } else if quote(b) is Some {
        lemma_quote(b);
        lemma_before_line(b.subrange(quote(b)->0, n), at - quote(b)->0);
    } else if list(b) is Some {
        lemma_list(b);
        let end = list(b)->0;
        match task(b.subrange(end, n)) {
            Some((len, _)) => {
                lemma_target_before(b.subrange(end + len, n), 0, 0, at - (end + len));
            },
            None => {
                lemma_target_before(b.subrange(end, n), 0, 0, at - end);
            },
        }
    } else {
        lemma_target_before(b, 0, 0, at);
    }
}

} // verus!
