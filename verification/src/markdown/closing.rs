//! What closes what: which run, bracket or byte ends a mark that was opened, and how marks
//! inside one another are drawn.

use vstd::prelude::*;
use vstd::utf8::*;

use crate::ascii::{
    CLOSE_BRACKET, CLOSE_PAREN, EQUALS, GREATER, LOWER_X, OPEN_BRACKET, SPACE, STAR, TILDE,
    UNDERSCORE, UPPER_X,
};
use crate::markdown::inline::{emphasis, inline_spans, longest_emphasis, one, opens, wrapped_spans};
use crate::markdown::links::{inline_target, target, wrapped_target};
use crate::markdown::scan::{
    autolink, closes, emph_close, exact_run, label_end, lemma_emph_close, lemma_exact_run, lemma_label_end,
    lemma_run, lemma_url_run, link, paren_end, run, scheme_len, space, url_run, url_trimmed,
};
use crate::markdown::shapes::{blanks, item_mark, lemma_item, task_box};
use crate::markdown::{fence, heading, indented_code, list, separator, task, MdStyle};
use crate::text::{bytes, trimmed_start};

verus! {

broadcast use vstd::seq::group_seq_axioms;

/// Whether a run of `c` starts at `k`, of those at `from` or later.
pub open spec fn run_starts(b: Seq<u8>, from: int, k: int, c: u8) -> bool {
    &&& from <= k < b.len()
    &&& b[k] == c
    &&& k == from || b[k - 1] != c
}

proof fn lemma_exact_run_first(b: Seq<u8>, j: int, c: u8, need: nat, k: int)
    requires
        0 <= j <= b.len(),
        run_starts(b, j, k, c),
        run(b, k, c) == need,
    ensures
        exact_run(b, j, c, need) is Some,
        exact_run(b, j, c, need)->0 <= k,
    decreases b.len() - j,
{
    lemma_run(b, j, c);
    if b[j] != c {
        lemma_exact_run_first(b, j + 1, c, need, k);
    } else if run(b, j, c) != need {
        let e = j + run(b, j, c);
        assert(k >= e) by {
            if j < k && k < e {
                assert(b[k - 1] == c);
            }
        }
        lemma_exact_run_first(b, e, c, need, k);
    }
}

/// Code is closed by the first run of backticks that is as long as the one that opened it,
/// no shorter and no longer.
pub proof fn law_code_is_closed_by_a_run_of_its_length(b: Seq<u8>, j: int, c: u8, need: nat, k: int)
    requires
        0 <= j <= b.len(),
    ensures
        exact_run(b, j, c, need) matches Some(e) ==> {
            &&& j <= e < b.len() && b[e] == c
            &&& run(b, e, c) == need
            &&& run_starts(b, j, k, c) && k < e ==> run(b, k, c) != need
        },
        exact_run(b, j, c, need) is None ==> (run_starts(b, j, k, c) ==> run(b, k, c) != need),
{
    if exact_run(b, j, c, need) is Some {
        lemma_exact_run(b, j, c, need);
        lemma_run(b, exact_run(b, j, c, need)->0, c);
    }
    if run_starts(b, j, k, c) && run(b, k, c) == need {
        lemma_exact_run_first(b, j, c, need, k);
    }
}

proof fn lemma_emph_close_first(b: Seq<u8>, from: int, j: int, c: u8, need: nat, u: bool, k: int)
    requires
        0 <= from <= j <= b.len(),
        run_starts(b, j, k, c),
        closes(b, from, k, c, need, u),
    ensures
        emph_close(b, from, j, c, need, u) is Some,
        emph_close(b, from, j, c, need, u)->0 <= k,
    decreases b.len() - j,
{
    lemma_run(b, j, c);
    if b[j] != c {
        lemma_emph_close_first(b, from, j + 1, c, need, u, k);
    } else if !closes(b, from, j, c, need, u) {
        let e = j + run(b, j, c);
        assert(k >= e) by {
            if j < k && k < e {
                assert(b[k - 1] == c);
            }
        }
        lemma_emph_close_first(b, from, e, c, need, u, k);
    }
}

/// Emphasis of `*` and `=` and `~` is closed by the first run behind its content that is
/// long enough and does not follow a blank.
pub proof fn law_emphasis_is_closed_by_the_first_run_that_can(b: Seq<u8>, from: int, c: u8, need: nat, k: int)
    requires
        0 <= from <= b.len(),
        need > 0,
    ensures
        emph_close(b, from, from, c, need, false) matches Some(e) ==> {
            &&& from < e && e + need <= b.len()
            &&& b[e] == c && run(b, e, c) >= need
            &&& b[e - 1] != 0x20 && b[e - 1] != 0x09
            &&& run_starts(b, from, k, c) && from < k < e && run(b, k, c) >= need ==> b[k - 1] == 0x20
                || b[k - 1] == 0x09
        },
        emph_close(b, from, from, c, need, false) is None ==> (run_starts(b, from, k, c) && from < k && run(
            b,
            k,
            c,
        ) >= need ==> b[k - 1] == 0x20 || b[k - 1] == 0x09),
{
    if emph_close(b, from, from, c, need, false) is Some {
        lemma_emph_close(b, from, from, c, need, false);
    }
    if run_starts(b, from, k, c) && from < k && run(b, k, c) >= need && !space(b[k - 1]) {
        lemma_emph_close_first(b, from, from, c, need, false, k);
    }
}

proof fn lemma_longest(b: Seq<u8>, i: int, most: int, n: int)
    requires
        1 <= n <= most,
        b[i] == TILDE || b[i] == EQUALS ==> n >= 2,
        emph_close(b, i + n, i + n, b[i], n as nat, b[i] == UNDERSCORE) is Some,
    ensures
        longest_emphasis(b, i, most) is Some,
        (longest_emphasis(b, i, most)->0).0 >= n,
    decreases most,
{
    if n < most {
        lemma_longest(b, i, most - 1, n);
    }
}

proof fn lemma_longest_closes(b: Seq<u8>, i: int, most: int)
    requires
        longest_emphasis(b, i, most) is Some,
    ensures
        ({
            let (n, e) = longest_emphasis(b, i, most)->0;
            &&& 1 <= n <= most
            &&& b[i] == TILDE || b[i] == EQUALS ==> n >= 2
            &&& emph_close(b, i + n, i + n, b[i], n as nat, b[i] == UNDERSCORE) == Some(e)
        }),
    decreases most,
{
    if emph_close(b, i + most, i + most, b[i], most as nat, b[i] == UNDERSCORE) is None {
        lemma_longest_closes(b, i, most - 1);
    }
}

/// A run of marks opens as much emphasis as can be closed: three stars or underscores at
/// most, of which two or one are left where only those are closed; tildes and equals signs
/// go by twos.
pub proof fn law_the_longest_emphasis_is_taken(b: Seq<u8>, i: int, n: int)
    requires
        0 <= i < b.len(),
        b[i] == STAR || b[i] == UNDERSCORE || b[i] == TILDE || b[i] == EQUALS,
    ensures
        ({
            let c = b[i];
            let r = run(b, i, c);
            let can = if c == STAR || c == UNDERSCORE {
                1 <= n <= 3 && n <= r
            } else {
                n == 2 && n <= r
            };
            let shut = emph_close(b, i + n, i + n, c, n as nat, c == UNDERSCORE);
            &&& emphasis(b, i) matches Some((m, e)) ==> {
                &&& i + r < b.len() && b[i + r] != 0x20 && b[i + r] != 0x09
                &&& can && n > m ==> shut is None
                &&& n == m ==> can && shut == Some(e)
            }
            &&& opens(b, i) && can && shut is Some ==> (emphasis(b, i) matches Some((m, _)) && m >= n)
        }),
{
    let c = b[i];
    let r = run(b, i, c) as int;
    lemma_run(b, i, c);
    let most = crate::markdown::inline::most_need(c, r);
    if emphasis(b, i) is Some {
        lemma_longest_closes(b, i, most);
    }
    let shut = emph_close(b, i + n, i + n, c, n as nat, c == UNDERSCORE);
    if opens(b, i) && 1 <= n <= most && (c == TILDE || c == EQUALS ==> n >= 2) && shut is Some {
        lemma_longest(b, i, most, n);
    }
}

proof fn lemma_label_found(b: Seq<u8>, j: int, e: int)
    requires
        0 <= j <= e < b.len(),
        b[e] == CLOSE_BRACKET,
        forall|k: int| j <= k < e ==> #[trigger] b[k] != OPEN_BRACKET && b[k] != CLOSE_BRACKET,
    ensures
        label_end(b, j) == Some(e),
    decreases e - j,
{
    if j < e {
        assert(b[j] != OPEN_BRACKET);
        lemma_label_found(b, j + 1, e);
    }
}

proof fn lemma_paren_found(b: Seq<u8>, j: int, e: int)
    requires
        0 <= j <= e < b.len(),
        b[e] == CLOSE_PAREN,
        forall|k: int| j <= k < e ==> #[trigger] b[k] != CLOSE_PAREN,
    ensures
        paren_end(b, j) == Some(e),
    decreases e - j,
{
    if j < e {
        assert(b[j] != CLOSE_PAREN);
        lemma_paren_found(b, j + 1, e);
    }
}

proof fn lemma_paren_first(b: Seq<u8>, j: int)
    requires
        paren_end(b, j) is Some,
    ensures
        j <= paren_end(b, j)->0 < b.len(),
        b[paren_end(b, j)->0] == CLOSE_PAREN,
        forall|k: int| j <= k < paren_end(b, j)->0 ==> b[k] != CLOSE_PAREN,
    decreases b.len() - j,
{
    if b[j] != CLOSE_PAREN {
        lemma_paren_first(b, j + 1);
    }
}

/// A link is a bracket, a label without brackets, the two that part it from its address,
/// and an address without a closing parenthesis, up to the one that ends it; nothing else
/// is one.
pub proof fn law_what_is_a_link(b: Seq<u8>, open: int, rb: int, rp: int)
    requires
        0 <= open < b.len(),
    ensures
        link(b, open) == Some((rb, rp)) <==> {
            &&& open < rb && rb + 1 < rp && rp < b.len()
            &&& b[rb] == 0x5d && b[rb + 1] == 0x28 && b[rp] == 0x29
            &&& forall|k: int| open < k < rb ==> #[trigger] b[k] != 0x5b && b[k] != 0x5d
            &&& forall|k: int| rb + 2 <= k < rp ==> #[trigger] b[k] != 0x29
        },
{
    if link(b, open) == Some((rb, rp)) {
        lemma_label_end(b, open + 1);
        lemma_paren_first(b, rb + 2);
        assert forall|k: int| open < k < rb implies #[trigger] b[k] != 0x5b && b[k] != 0x5d by {
            assert(b[k] != OPEN_BRACKET && b[k] != CLOSE_BRACKET);
        }
    }
    if open < rb && rb + 1 < rp && rp < b.len() && b[rb] == 0x5d && b[rb + 1] == 0x28 && b[rp] == 0x29 && (
    forall|k: int| open < k < rb ==> #[trigger] b[k] != 0x5b && b[k] != 0x5d) && (forall|k: int|
        rb + 2 <= k < rp ==> #[trigger] b[k] != 0x29) {
        lemma_label_found(b, open + 1, rb);
        lemma_paren_found(b, rb + 2, rp);
    }
}

proof fn lemma_url_runs_on(b: Seq<u8>, j: int, k: int)
    requires
        0 <= j <= k < url_run(b, j),
    ensures
        k < b.len(),
        !crate::markdown::scan::url_stop(b[k]),
    decreases k - j,
{
    lemma_url_run(b, j);
    if j < k {
        lemma_url_run(b, j + 1);
        lemma_url_runs_on(b, j + 1, k);
    }
}

proof fn lemma_url_trim(b: Seq<u8>, low: int, end: int, k: int)
    requires
        0 <= low <= end <= b.len(),
    ensures
        low <= url_trimmed(b, low, end) <= end,
        url_trimmed(b, low, end) <= k < end ==> crate::markdown::scan::url_trail(b[k]),
        low < url_trimmed(b, low, end) ==> !crate::markdown::scan::url_trail(
            b[url_trimmed(b, low, end) - 1],
        ),
    decreases end - low,
{
    if low < end && crate::markdown::scan::url_trail(b[end - 1]) {
        lemma_url_trim(b, low, end - 1, k);
    }
}

/// A bare url goes on to the next blank, angle bracket, double quote or backtick, and holds
/// none of them.
pub proof fn law_where_a_bare_url_ends(b: Seq<u8>, i: int, k: int)
    requires
        0 <= i < b.len(),
        autolink(b, i) is Some,
    ensures
        ({
            let low = i + scheme_len(b, i);
            let end = autolink(b, i)->0;
            &&& low <= end <= b.len()
            &&& low <= k < end ==> b[k] != 0x20 && b[k] != 0x09 && b[k] != 0x3c && b[k] != 0x3e && b[k]
                != 0x22 && b[k] != 0x60
            &&& end < b.len() ==> crate::markdown::scan::url_trail(b[end]) || b[end] == 0x20 || b[end]
                == 0x09 || b[end] == 0x3c || b[end] == 0x3e || b[end] == 0x22 || b[end] == 0x60
            &&& low < end ==> !crate::markdown::scan::url_trail(b[end - 1])
        }),
{
    let low = i + scheme_len(b, i);
    let run_end = url_run(b, low);
    let end = autolink(b, i)->0;
    lemma_url_run(b, low);
    lemma_url_trim(b, low, run_end, end);
    if low <= k < end {
        lemma_url_runs_on(b, low, k);
    }
}

/// Inside other marks, eight deep at most, plain text takes the style of the marks around
/// it, and what is marked up itself keeps its own. Any deeper, all of it is drawn as the
/// text it is inside of, and no link opens.
pub proof fn law_marks_inside_marks_keep_their_style(
    b: Seq<u8>,
    base: int,
    wrap: MdStyle,
    depth: int,
    k: int,
    at: int,
)
    ensures
        ({
            let around = wrapped_spans(b, base, wrap, depth);
            let alone = inline_spans(b, base, depth + 1, 0, 0);
            &&& depth < 8 ==> {
                &&& around.len() == alone.len()
                &&& 0 <= k < alone.len() ==> {
                    &&& around[k].start == alone[k].start && around[k].end == alone[k].end
                    &&& alone[k].style == MdStyle::Text ==> around[k].style == wrap
                    &&& alone[k].style != MdStyle::Text ==> around[k].style == alone[k].style
                }
                &&& wrapped_target(b, depth, at) == inline_target(b, depth + 1, 0, at)
            }
            &&& depth >= 8 ==> around == one(base, 0, b.len() as int, wrap) && wrapped_target(b, depth, at)
                is None
        }),
{
}

/// A box is two brackets around a space or an `x`, and takes one space behind it with it.
pub proof fn law_what_is_a_task_box(c: u8, t: Seq<u8>)
    ensures
        ({
            let b = seq![OPEN_BRACKET, c, CLOSE_BRACKET] + t;
            let len: int = if t.len() > 0 && t[0] == 0x20 {
                4
            } else {
                3
            };
            &&& c == SPACE ==> task(b) == Some((len, MdStyle::TaskOpen))
            &&& c == LOWER_X || c == UPPER_X ==> task(b) == Some((len, MdStyle::TaskDone))
            &&& c != SPACE && c != LOWER_X && c != UPPER_X ==> task(b) is None
        }),
{
    let b = seq![OPEN_BRACKET, c, CLOSE_BRACKET] + t;
    assert(b[0] == OPEN_BRACKET && b[1] == c && b[2] == CLOSE_BRACKET);
    if t.len() > 0 {
        assert(b[3] == t[0]);
    }
}

/// Nothing opens in a task that is done; in one that is not, and in any other item, what
/// opens is what opens in its text.
pub proof fn law_what_opens_in_an_item(x: Seq<u8>, m: Seq<u8>, rest: Seq<u8>, at: int)
    requires
        blanks(x),
        item_mark(m),
    ensures
        ({
            let h = x + m + seq![SPACE];
            let w = h.len() as int;
            &&& target(h + (task_box(LOWER_X) + rest), at) is None
            &&& target(h + (task_box(UPPER_X) + rest), at) is None
            &&& !separator(decode_utf8(h + (task_box(SPACE) + rest))) ==> target(
                h + (task_box(SPACE) + rest),
                at,
            ) == inline_target(rest, 0, 0, at - w - 4)
            &&& task(rest) is None && !separator(decode_utf8(h + rest)) ==> target(h + rest, at)
                == inline_target(rest, 0, 0, at - w)
        }),
{
    let h = x + m + seq![SPACE];
    let w = h.len() as int;
    lemma_boxed(x, m, LOWER_X, rest);
    lemma_boxed(x, m, UPPER_X, rest);
    lemma_boxed(x, m, SPACE, rest);
    lemma_item(x, m, rest);
    let b = h + rest;
    assert(b.subrange(w, b.len() as int) =~= rest);
}

proof fn lemma_boxed(x: Seq<u8>, m: Seq<u8>, c: u8, rest: Seq<u8>)
    requires
        blanks(x),
        item_mark(m),
    ensures
        ({
            let w = (x.len() + m.len() + 1) as int;
            let b = x + m + seq![SPACE] + (task_box(c) + rest);
            let n = b.len() as int;
            &&& list(b) == Some(w)
            &&& crate::markdown::quote(b) is None
            &&& heading(b) is None
            &&& !fence(b)
            &&& b.subrange(w, n) == task_box(c) + rest
            &&& b.subrange(w + 4, n) == rest
            &&& task_box(c) + rest == seq![OPEN_BRACKET, c, CLOSE_BRACKET] + (seq![SPACE] + rest)
            &&& c == SPACE ==> task(task_box(c) + rest) == Some((4int, MdStyle::TaskOpen))
            &&& c == LOWER_X || c == UPPER_X ==> task(task_box(c) + rest) == Some((4int, MdStyle::TaskDone))
        }),
{
    let w = (x.len() + m.len() + 1) as int;
    let body = task_box(c) + rest;
    let b = x + m + seq![SPACE] + body;
    lemma_item(x, m, body);
    assert(b.subrange(w, b.len() as int) =~= body);
    assert(b.subrange(w + 4, b.len() as int) =~= rest);
    assert(body =~= seq![OPEN_BRACKET, c, CLOSE_BRACKET] + (seq![SPACE] + rest));
    law_what_is_a_task_box(c, seq![SPACE] + rest);
}

/// However far it is indented, what would be a quote, a heading, a fence, an item or a rule
/// at the margin is no code.
pub proof fn law_marks_are_no_indented_code(line: Seq<char>)
    ensures
        ({
            let rest = bytes(trimmed_start(line));
            &&& rest.len() == 0 ==> !indented_code(line)
            &&& rest.len() > 0 && rest[0] == GREATER ==> !indented_code(line)
            &&& heading(rest) is Some ==> !indented_code(line)
            &&& fence(rest) ==> !indented_code(line)
            &&& list(bytes(line)) is Some ==> !indented_code(line)
            &&& separator(line) ==> !indented_code(line)
        }),
{
}

} // verus!
