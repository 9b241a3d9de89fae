//! What a deletion takes and where the caret goes, said of the bytes themselves.

use vstd::prelude::*;
use vstd::utf8::*;

use crate::app::caret::{extended, line_from, moved_to, paragraph_edge, revealed, run_start, selecting};
use crate::app::delete::{
    back_within, backspaced, backspaced_edit, deleted_forward, deleting, deleting_edit, kill_range,
    killed_to_end, killing, on_within, row_deleted_back, rule_after, rule_before, word_deleted_back,
    word_deleted_forward, yanked,
};
use crate::app::effects::{
    editing, law_typing_replaces_its_range, law_typing_replaces_the_selection, put_between, well_placed,
};
use crate::app::input::typing;
use crate::app::{caret, State};
use crate::ascii::NEWLINE;
use crate::lines::{
    lemma_line, lemma_line_boundaries, lemma_line_of, lemma_line_of_start, line, line_count, line_end,
    line_of, line_start,
};
use crate::note::{divides, lemma_first_divider, lemma_floor_ceil, lemma_last_divider, separator_line};
use crate::text::{boundary, bytes};

verus! {

broadcast use vstd::seq::group_seq_axioms;

proof fn lemma_nothing()
    ensures
        bytes(Seq::empty()) == Seq::<u8>::empty(),
{
    assert(bytes(Seq::empty()) =~= Seq::empty());
}

/// The rule above a place is a whole line that divides notes, newline and all, and it
/// ends right there; and where the line above divides notes, it is found.
pub proof fn law_the_rule_above(b: Seq<u8>, at: int)
    requires
        valid_utf8(b),
        b.len() <= usize::MAX,
        0 <= at <= b.len(),
    ensures
        rule_before(b, at) matches Some((from, to)) ==> {
            &&& from < to
            &&& to == at
            &&& b[to - 1] == NEWLINE
            &&& from > 0 ==> b[from - 1] == NEWLINE
            &&& forall|k: int| from <= k < to - 1 ==> #[trigger] b[k] != NEWLINE
            &&& separator_line(b.subrange(from as int, to - 1))
            &&& boundary(b, from as int)
            &&& boundary(b, to as int)
        },
        rule_before(b, at) is None ==> at == 0 || b[at - 1] != NEWLINE || !divides(b, line_of(b, at) - 1),
{
    let l = line_of(b, at);
    lemma_line_of(b, at);
    lemma_line(b, l);
    lemma_line_boundaries(b, l);
    if rule_before(b, at) is Some {
        lemma_line(b, l - 1);
        lemma_line_boundaries(b, l - 1);
    } else if at > 0 && b[at - 1] == NEWLINE {
        if at > line_start(b, l) {
            assert(b[at - 1] != NEWLINE);
        }
    }
}

/// The rule below a place is a whole line that divides notes, with the newline before
/// it, and it starts right there.
pub proof fn law_the_rule_below(b: Seq<u8>, at: int)
    requires
        valid_utf8(b),
        b.len() <= usize::MAX,
        0 <= at <= b.len(),
    ensures
        rule_after(b, at) matches Some((from, to)) ==> {
            &&& from < to <= b.len()
            &&& from == at
            &&& b[from as int] == NEWLINE
            &&& to < b.len() ==> b[to as int] == NEWLINE
            &&& forall|k: int| from < k < to ==> #[trigger] b[k] != NEWLINE
            &&& separator_line(b.subrange(from + 1, to as int))
            &&& boundary(b, from as int)
            &&& boundary(b, to as int)
        },
        rule_after(b, at) is None ==> at == b.len() || b[at] != NEWLINE || !divides(
            b,
            line_of(b, at) + 1,
        ),
{
    let l = line_of(b, at);
    lemma_line_of(b, at);
    lemma_line(b, l);
    lemma_line_boundaries(b, l);
    if rule_after(b, at) is Some {
        lemma_line(b, l + 1);
        lemma_line_boundaries(b, l + 1);
    } else if at < b.len() && b[at] == NEWLINE {
        if at < line_end(b, l) {
            assert(b[at] != NEWLINE);
        }
    }
}

/// What is selected goes, and nothing else; with nothing selected the given range goes,
/// and nothing else. An empty range takes nothing.
pub proof fn law_deleting_takes_out(s: State, from: int, to: int, now: u64)
    requires
        well_placed(s),
        editing(s),
        s.marked is None,
        s.start <= s.end,
        boundary(s.text, from),
        boundary(s.text, to),
    ensures
        ({
            let t = deleting(s, (from, to), now);
            let e = deleting_edit(s, (from, to));
            &&& s.start < s.end ==> {
                &&& t.text == put_between(s.text, s.start, s.end, Seq::empty())
                &&& t.start == s.start && t.end == s.start
                &&& e matches Some(e) && e.removed == s.text.subrange(s.start, s.end)
            }
            &&& s.start == s.end && from < to ==> {
                &&& t.text == put_between(s.text, from, to, Seq::empty())
                &&& t.start == from && t.end == from
                &&& e matches Some(e) && e.removed == s.text.subrange(from, to)
            }
            &&& s.start == s.end && from >= to ==> t == s && e is None
        }),
{
    lemma_nothing();
    if s.start < s.end {
        law_typing_replaces_the_selection(s, Seq::empty(), now);
    } else if from < to {
        law_typing_replaces_its_range(s, from as usize, to as usize, Seq::empty(), now);
    }
}

/// ⌫ takes the character before the caret and nothing else, and leaves the caret where
/// that began; a selection goes whole; and a rule right above goes as one line.
pub proof fn law_backspace_takes_one_character(s: State, prev: int, now: u64)
    requires
        well_placed(s),
        editing(s),
        s.marked is None,
        s.start <= s.end,
        0 <= prev <= caret(s),
        boundary(s.text, prev),
    ensures
        ({
            let t = backspaced(s, prev, now);
            let e = backspaced_edit(s, prev);
            let c = caret(s);
            &&& s.start < s.end ==> t.text == put_between(s.text, s.start, s.end, Seq::empty())
            &&& s.start == s.end && (c == 0 || s.text[c - 1] != NEWLINE || !divides(
                s.text,
                line_of(s.text, c) - 1,
            )) ==> {
                &&& t.text == put_between(s.text, prev, c, Seq::empty())
                &&& t.start == prev && t.end == prev
                &&& prev < c ==> (e matches Some(e) && e.start == prev && e.removed
                    == s.text.subrange(prev, c))
            }
            &&& s.start == s.end && c > 0 && s.text[c - 1] == NEWLINE && divides(
                s.text,
                line_of(s.text, c) - 1,
            ) ==> {
                &&& t.text == put_between(s.text, t.end, c, Seq::empty())
                &&& t.start == t.end
                &&& separator_line(s.text.subrange(t.end, c - 1))
                &&& t.end > 0 ==> s.text[t.end - 1] == NEWLINE
            }
        }),
{
    let c = caret(s);
    lemma_nothing();
    law_the_rule_above(s.text, c);
    law_deleting_takes_out(s, prev, c, now);
    if s.start == s.end {
        match rule_before(s.text, c) {
            Some((from, to)) => {
                let l = line_of(s.text, c);
                lemma_line_of(s.text, c);
                law_typing_replaces_its_range(s, from, to, Seq::empty(), now);
            },
            None => {
                if prev == c {
                    assert(put_between(s.text, prev, c, Seq::empty()) =~= s.text);
                }
            },
        }
    }
}

/// ⌦ takes the character after the caret and nothing else, and leaves the caret where
/// it is; a selection goes whole; and a rule right below goes as one line.
pub proof fn law_delete_takes_one_character(s: State, next: int, now: u64)
    requires
        well_placed(s),
        editing(s),
        s.marked is None,
        s.start <= s.end,
        caret(s) <= next <= s.text.len(),
        boundary(s.text, next),
    ensures
        ({
            let t = deleted_forward(s, next, now);
            let c = caret(s);
            &&& s.start < s.end ==> t.text == put_between(s.text, s.start, s.end, Seq::empty())
            &&& s.start == s.end && (c == s.text.len() || s.text[c] != NEWLINE || !divides(
                s.text,
                line_of(s.text, c) + 1,
            )) ==> {
                &&& t.text == put_between(s.text, c, next, Seq::empty())
                &&& t.start == c && t.end == c
            }
            &&& s.start == s.end && c < s.text.len() && s.text[c] == NEWLINE && divides(
                s.text,
                line_of(s.text, c) + 1,
            ) ==> {
                let gone = s.text.len() - t.text.len();
                &&& t.text == put_between(s.text, c, c + gone, Seq::empty())
                &&& separator_line(s.text.subrange(c + 1, c + gone))
                &&& t.start == c && t.end == c
            }
        }),
{
    let c = caret(s);
    lemma_nothing();
    law_the_rule_below(s.text, c);
    lemma_floor_ceil(s.text, c);
    lemma_floor_ceil(s.text, next);
    if s.start < s.end {
        law_typing_replaces_the_selection(s, Seq::empty(), now);
    } else {
        match rule_after(s.text, c) {
            Some((from, to)) => {
                law_typing_replaces_its_range(s, from, to, Seq::empty(), now);
                assert(put_between(s.text, from as int, to as int, Seq::empty()).len() == s.text.len()
                    - (to - from));
            },
            None => {
                if next == c {
                    assert(put_between(s.text, c, c, Seq::empty()) =~= s.text);
                } else {
                    law_typing_replaces_the_selection(selecting(s, c, next), Seq::empty(), now);
                }
            },
        }
    }
}

/// A deletion that reaches back stops below the last rule on its way, and nowhere else.
pub proof fn law_reaching_back_stops_at_a_rule(b: Seq<u8>, start: int, at: int)
    requires
        valid_utf8(b),
        0 <= start <= at <= b.len(),
        boundary(b, start),
    ensures
        ({
            let r = back_within(b, start, at);
            &&& start <= r <= at
            &&& boundary(b, r)
            &&& forall|l: int|
                line_of(b, start) <= l < line_of(b, at) && #[trigger] divides(b, l) ==> line_start(
                    b,
                    l + 1,
                ) <= r
            &&& r != start ==> r > 0 && b[r - 1] == NEWLINE && divides(b, line_of(b, r) - 1)
        }),
{
    let x = line_of(b, start);
    let y = line_of(b, at);
    lemma_line_of(b, start);
    lemma_line_of(b, at);
    lemma_last_divider(b, x, y);
    crate::lines::lemma_line_starts(b);
    match last_of(b, x, y) {
        Some(d) => {
            lemma_line(b, d);
            lemma_line(b, d + 1);
            lemma_line_boundaries(b, d + 1);
            lemma_line_of_start(b, d + 1, line_start(b, d + 1));
            assert(crate::lines::line_starts(b)[d + 1] <= at);
            assert(line_start(b, d + 1) >= start) by {
                if crate::lines::line_starts(b)[d + 1] <= start {
                    assert(d + 1 <= x);
                }
            }
            assert forall|l: int| x <= l < y && #[trigger] divides(b, l) implies line_start(b, l + 1)
                <= line_start(b, d + 1) by {
                assert(l <= d);
                if l < d {
                    assert(crate::lines::line_starts(b)[l + 1] < crate::lines::line_starts(b)[d + 1]);
                }
            }
        },
        None => {},
    }
}

spec fn last_of(b: Seq<u8>, x: int, y: int) -> Option<int> {
    crate::note::last_divider(b, x, y)
}

/// A deletion that reaches on stops above the first rule on its way, and nowhere else.
pub proof fn law_reaching_on_stops_at_a_rule(b: Seq<u8>, at: int, end: int)
    requires
        valid_utf8(b),
        0 <= at <= end <= b.len(),
        boundary(b, end),
    ensures
        ({
            let r = on_within(b, at, end);
            &&& at <= r <= end
            &&& boundary(b, r)
            &&& forall|l: int|
                line_of(b, at) < l <= line_of(b, end) && #[trigger] divides(b, l) ==> r < line_start(
                    b,
                    l,
                )
            &&& r != end ==> b[r] == NEWLINE && divides(b, line_of(b, r) + 1)
        }),
{
    let x = line_of(b, at);
    let y = line_of(b, end);
    lemma_line_of(b, at);
    lemma_line_of(b, end);
    lemma_first_divider(b, x + 1, y + 1);
    crate::lines::lemma_line_starts(b);
    match crate::note::first_divider(b, x + 1, y + 1) {
        Some(d) => {
            lemma_line(b, d);
            lemma_line(b, d - 1);
            lemma_line_boundaries(b, d - 1);
            lemma_line_of_start(b, d - 1, line_end(b, d - 1));
            assert(crate::lines::line_starts(b)[d] <= end);
            assert(at <= line_end(b, d - 1)) by {
                if crate::lines::line_starts(b)[d] <= at {
                    assert(d <= x);
                }
            }
            assert forall|l: int| x < l <= y && #[trigger] divides(b, l) implies line_end(b, d - 1)
                < line_start(b, l) by {
                assert(d <= l);
                if d < l {
                    assert(crate::lines::line_starts(b)[d] < crate::lines::line_starts(b)[l]);
                }
            }
        },
        None => {},
    }
}

/// ⌥⌫ takes one stretch that ends at the caret, starting no further back than the word
/// does and holding no rule; the caret is left where it began.
pub proof fn law_deleting_a_word_back(s: State, start: int, now: u64)
    requires
        well_placed(s),
        editing(s),
        s.marked is None,
        s.start == s.end,
        0 <= start <= s.end,
        boundary(s.text, start),
        rule_before(s.text, s.end) is None,
    ensures
        ({
            let t = word_deleted_back(s, (start, s.end), now);
            &&& start <= t.end <= s.end
            &&& t.start == t.end
            &&& t.text == put_between(s.text, t.end, s.end, Seq::empty())
            &&& (forall|l: int|
                line_of(s.text, start) <= l < line_of(s.text, s.end) ==> !#[trigger] divides(s.text, l))
                ==> t.end == start
            &&& forall|l: int|
                line_of(s.text, t.end) <= l < line_of(s.text, s.end) ==> !#[trigger] divides(s.text, l)
        }),
{
    let b = s.text;
    let r = back_within(b, start, s.end);
    law_reaching_back_stops_at_a_rule(b, start, s.end);
    law_deleting_takes_out(s, r, s.end, now);
    lemma_line_of(b, start);
    lemma_line_of(b, s.end);
    lemma_line_of(b, r);
    crate::lines::lemma_copies_monotonic(b, NEWLINE, start, r);
    if r == s.end {
        assert(put_between(b, r, s.end, Seq::empty()) =~= b);
    }
    lemma_last_divider(b, line_of(b, start), line_of(b, s.end));
    crate::lines::lemma_line_starts(b);
    assert forall|l: int| line_of(b, r) <= l < line_of(b, s.end) implies !#[trigger] divides(b, l) by {
        if divides(b, l) {
            assert(line_start(b, l + 1) <= r);
            assert(crate::lines::line_starts(b)[l + 1] <= r);
        }
    }
}

/// ⌥⌦ takes one stretch that starts at the caret, ending no further on than the word
/// does and holding no rule.
pub proof fn law_deleting_a_word_forward(s: State, end: int, now: u64)
    requires
        well_placed(s),
        editing(s),
        s.marked is None,
        s.start == s.end,
        s.end <= end <= s.text.len(),
        boundary(s.text, end),
    ensures
        ({
            let t = word_deleted_forward(s, (s.end, end), now);
            let to = s.end + (s.text.len() - t.text.len());
            &&& s.end <= to <= end
            &&& t.start == s.end && t.end == s.end
            &&& t.text == put_between(s.text, s.end, to, Seq::empty())
            &&& (forall|l: int|
                line_of(s.text, s.end) < l <= line_of(s.text, end) ==> !#[trigger] divides(s.text, l))
                ==> to == end
            &&& forall|l: int|
                line_of(s.text, s.end) < l <= line_of(s.text, to) ==> !#[trigger] divides(s.text, l)
        }),
{
    let b = s.text;
    let r = on_within(b, s.end, end);
    law_reaching_on_stops_at_a_rule(b, s.end, end);
    law_deleting_takes_out(s, s.end, r, now);
    if r == s.end {
        assert(put_between(b, s.end, r, Seq::empty()) =~= b);
    }
    lemma_line_of(b, s.end);
    lemma_line_of(b, end);
    lemma_line_of(b, r);
    crate::lines::lemma_copies_monotonic(b, NEWLINE, r, end);
    lemma_first_divider(b, line_of(b, s.end) + 1, line_of(b, end) + 1);
    crate::lines::lemma_line_starts(b);
    assert forall|l: int| line_of(b, s.end) < l <= line_of(b, r) implies !#[trigger] divides(b, l) by {
        if divides(b, l) {
            assert(r < line_start(b, l));
            assert(crate::lines::line_starts(b)[l] > r);
        }
    }
}

/// ⌘⌫ takes what is between the start of the visual row and the caret; at the start of
/// the row, the line that was given.
pub proof fn law_deleting_a_row_back(s: State, row_start: int, line: (int, int), now: u64)
    requires
        well_placed(s),
        editing(s),
        s.marked is None,
        s.start == s.end,
        boundary(s.text, row_start),
        boundary(s.text, line.0),
        boundary(s.text, line.1),
    ensures
        row_start < s.end ==> row_deleted_back(s, row_start, line, now).text == put_between(
            s.text,
            row_start,
            s.end,
            Seq::empty(),
        ),
        row_start >= s.end && line.0 < line.1 ==> row_deleted_back(s, row_start, line, now).text
            == put_between(s.text, line.0, line.1, Seq::empty()),
        row_start >= s.end && line.0 >= line.1 ==> row_deleted_back(s, row_start, line, now) == s,
{
    law_deleting_takes_out(s, row_start, s.end, now);
    law_deleting_takes_out(s, line.0, line.1, now);
}

/// ⌃K takes what is between the caret and the end of the visual row, and keeps it; a
/// selection is taken and kept instead. What is kept is what went.
pub proof fn law_killing_keeps_what_it_takes(s: State, row_end: int, next: int, now: u64)
    requires
        well_placed(s),
        editing(s),
        s.marked is None,
        s.start <= s.end,
        boundary(s.text, row_end),
        caret(s) < row_end,
    ensures
        ({
            let t = killed_to_end(s, row_end, next, now);
            &&& s.start < s.end ==> {
                &&& t.text == put_between(s.text, s.start, s.end, Seq::empty())
                &&& t.killed == s.text.subrange(s.start, s.end)
            }
            &&& s.start == s.end ==> {
                &&& t.text == put_between(s.text, s.end, row_end, Seq::empty())
                &&& t.killed == s.text.subrange(s.end, row_end)
                &&& t.start == s.end && t.end == s.end
            }
        }),
{
    let range = kill_range(s, row_end, next);
    let k = killing(s, range);
    law_deleting_takes_out(k, caret(s), row_end, now);
}

/// At the end of a visual row ⌃K takes the line break there and keeps it, unless a rule
/// follows: then it takes nothing.
pub proof fn law_killing_at_the_end_of_a_row(s: State, row_end: int, next: int, now: u64)
    requires
        well_placed(s),
        editing(s),
        s.marked is None,
        s.start == s.end,
        row_end <= s.end <= next,
        boundary(s.text, next),
    ensures
        ({
            let t = killed_to_end(s, row_end, next, now);
            let to = s.end + (s.text.len() - t.text.len());
            &&& s.end <= to <= next
            &&& t.text == put_between(s.text, s.end, to, Seq::empty())
            &&& s.end < to ==> t.killed == s.text.subrange(s.end, to)
            &&& s.end == to ==> t == s
            &&& (forall|l: int|
                line_of(s.text, s.end) < l <= line_of(s.text, next) ==> !#[trigger] divides(s.text, l))
                ==> to == next
        }),
{
    let b = s.text;
    let r = on_within(b, s.end, next);
    law_reaching_on_stops_at_a_rule(b, s.end, next);
    let range = kill_range(s, row_end, next);
    let k = killing(s, range);
    law_deleting_takes_out(k, s.end, r, now);
    if r == s.end {
        assert(put_between(b, s.end, r, Seq::empty()) =~= b);
    }
    lemma_first_divider(b, line_of(b, s.end) + 1, line_of(b, next) + 1);
}

/// ⌃Y puts what was killed in place of the selection, and joins no other edit.
pub proof fn law_yanking_puts_back_what_was_killed(s: State, now: u64)
    requires
        well_placed(s),
        editing(s),
        s.marked is None,
        s.start <= s.end,
        valid_utf8(s.killed),
        s.killed.len() > 0,
    ensures
        ({
            let t = yanked(s, now);
            &&& t.text == put_between(s.text, s.start, s.end, s.killed)
            &&& t.start == s.start + s.killed.len()
            &&& t.end == t.start
            &&& t.killed == s.killed
            &&& !t.grouped
        }),
{
    decode_utf8_encode_utf8(s.killed);
    law_typing_replaces_the_selection(
        crate::app::ungrouped(s),
        decode_utf8(s.killed),
        now,
    );
}

// ---------------------------------------------------------------------------
// The caret
// ---------------------------------------------------------------------------
/// A caret put between two characters is there, with nothing selected, and the text is
/// as it was.
pub proof fn law_the_caret_goes_where_it_is_put(s: State, at: int)
    requires
        valid_utf8(s.text),
        boundary(s.text, at),
    ensures
        ({
            let t = moved_to(s, at);
            &&& t.start == at && t.end == at && caret(t) == at
            &&& t.text == s.text && t.marked == s.marked && t.killed == s.killed
            &&& !t.grouped
            &&& t.saving == s.saving && t.find == s.find && t.panels == s.panels
        }),
{
    lemma_floor_ceil(s.text, at);
}

/// Extending a selection moves the caret and leaves the other end where it is, on
/// whichever side of it the caret lands; the text is as it was.
pub proof fn law_extending_leaves_the_other_end(s: State, at: int)
    requires
        valid_utf8(s.text),
        boundary(s.text, at),
        s.start <= s.end,
    ensures
        ({
            let t = extended(s, at);
            let other = if s.reversed {
                s.end
            } else {
                s.start
            };
            &&& caret(t) == at
            &&& t.start <= t.end
            &&& t.start == at && t.end == other || t.start == other && t.end == at
            &&& at != other ==> (t.reversed <==> at < other)
            &&& at == other ==> t.reversed == s.reversed
            &&& !t.grouped
            &&& t.text == s.text && t.marked == s.marked && t.killed == s.killed
        }),
{
    lemma_floor_ceil(s.text, at);
}

/// Selecting between two characters selects exactly that, and the caret is at its end.
pub proof fn law_selecting_selects(s: State, from: int, to: int)
    requires
        valid_utf8(s.text),
        boundary(s.text, from),
        boundary(s.text, to),
        from <= to,
    ensures
        ({
            let t = selecting(s, from, to);
            &&& t.start == from && t.end == to && caret(t) == to
            &&& t.text == s.text && t.marked == s.marked && t.killed == s.killed
        }),
{
    lemma_floor_ceil(s.text, from);
    lemma_floor_ceil(s.text, to);
}

/// The lines brought on screen are those of the note that are no further than `around`
/// from the line, the last of them first.
pub proof fn law_revealing_keeps_lines_around(l: int, around: int, count: int)
    requires
        0 <= l < count,
        0 <= around,
    ensures
        ({
            let (last, first) = revealed(l, around, count);
            &&& 0 <= first <= l <= last < count
            &&& last - l <= around && l - first <= around
            &&& last - l < around ==> last == count - 1
            &&& l - first < around ==> first == 0
        }),
{
}

proof fn lemma_line_from(b: Seq<u8>, l: int, want: bool)
    requires
        0 <= l <= line_count(b),
    ensures
        l <= line_from(b, l, want) <= line_count(b),
        line_from(b, l, want) < line_count(b) ==> crate::markdown::carry::blank(
            line(b, line_from(b, l, want)),
        ) == want,
        forall|k: int|
            l <= k < line_from(b, l, want) ==> crate::markdown::carry::blank(#[trigger] line(b, k))
                != want,
    decreases line_count(b) - l,
{
    if l < line_count(b) && crate::markdown::carry::blank(line(b, l)) != want {
        lemma_line_from(b, l + 1, want);
    }
}

proof fn lemma_run_start(b: Seq<u8>, l: int, want: bool)
    requires
        0 <= l <= line_count(b),
    ensures
        0 <= run_start(b, l, want) <= l,
        run_start(b, l, want) > 0 ==> crate::markdown::carry::blank(line(b, run_start(b, l, want) - 1))
            != want,
        forall|k: int|
            run_start(b, l, want) <= k < l ==> crate::markdown::carry::blank(#[trigger] line(b, k))
                == want,
    decreases l,
{
    if l > 0 && crate::markdown::carry::blank(line(b, l - 1)) == want {
        lemma_run_start(b, l - 1, want);
    }
}

/// ⌥↓ goes on to the first line of the next paragraph: a line that is not blank behind
/// one that is, with nothing but the rest of this paragraph and blank lines between;
/// or to the end of the note.
pub proof fn law_down_goes_to_the_next_paragraph(b: Seq<u8>, at: int)
    requires
        0 <= at <= b.len(),
    ensures
        ({
            let r = paragraph_edge(b, at, true);
            let here = line_of(b, at);
            ||| r == b.len()
            ||| exists|l: int|
                here < l < line_count(b) && r == line_start(b, l) && !crate::markdown::carry::blank(
                    #[trigger] line(b, l),
                ) && crate::markdown::carry::blank(line(b, l - 1))
        }),
        paragraph_edge(b, at, true) >= at,
        forall|k: int|
            line_of(b, at) < k < line_count(b) && !crate::markdown::carry::blank(#[trigger] line(b, k))
                && crate::markdown::carry::blank(line(b, k - 1)) ==> paragraph_edge(b, at, true)
                <= line_start(b, k),
{
    let here = line_of(b, at);
    lemma_line_of(b, at);
    lemma_line(b, here);
    let gap = line_from(b, here, true);
    lemma_line_from(b, here, true);
    let next = line_from(b, gap, false);
    lemma_line_from(b, gap, false);
    crate::lines::lemma_line_starts(b);
    if next < line_count(b) {
        assert(gap < next) by {
            assert(crate::markdown::carry::blank(line(b, gap)));
        }
        assert(crate::markdown::carry::blank(line(b, next - 1)));
        assert(!crate::markdown::carry::blank(line(b, next)));
        lemma_line(b, next);
        assert(crate::lines::line_starts(b)[here] < crate::lines::line_starts(b)[next]);
        assert(crate::lines::line_starts(b)[next] > at) by {
            if crate::lines::line_starts(b)[next] <= at {
                assert(next <= here);
            }
        }
    }
    assert forall|k: int|
        here < k < line_count(b) && !crate::markdown::carry::blank(#[trigger] line(b, k))
            && crate::markdown::carry::blank(line(b, k - 1)) implies line_start(b, next) <= line_start(
        b,
        k,
    ) by {
        if k < next {
            if k - 1 < gap {
                assert(!crate::markdown::carry::blank(line(b, k - 1)));
            } else {
                assert(crate::markdown::carry::blank(line(b, k)));
            }
        } else if k > next {
            assert(crate::lines::line_starts(b)[next] < crate::lines::line_starts(b)[k]);
        }
    }
}

/// ⌥↑ goes back to a line with a blank line above it, or with none, and never past the
/// start of a paragraph on the way.
pub proof fn law_up_goes_to_the_start_of_a_paragraph(b: Seq<u8>, at: int)
    requires
        0 <= at <= b.len(),
    ensures
        ({
            let r = paragraph_edge(b, at, false);
            &&& 0 <= r <= at
            &&& at > 0 ==> r < at || at == line_start(b, line_of(b, at))
            &&& exists|l: int|
                0 <= l <= line_of(b, at) && r == line_start(b, l) && (l == 0
                    || crate::markdown::carry::blank(line(b, l - 1))) && #[trigger] line(b, l) == line(
                    b,
                    l,
                )
            &&& forall|k: int|
                0 < k <= line_of(b, at) && r < line_start(b, k) < at
                    && !crate::markdown::carry::blank(#[trigger] line(b, k))
                    ==> !crate::markdown::carry::blank(line(b, k - 1))
        }),
{
    let here = line_of(b, at);
    lemma_line_of(b, at);
    lemma_line(b, here);
    crate::lines::lemma_line_starts(b);
    let start = run_start(b, here, false);
    lemma_run_start(b, here, false);
    lemma_line(b, start);
    if start < here {
        assert(crate::lines::line_starts(b)[start] < crate::lines::line_starts(b)[here]);
    }
    let gap = run_start(b, start, true);
    lemma_run_start(b, start, true);
    let above = run_start(b, gap, false);
    lemma_run_start(b, gap, false);
    lemma_line(b, above);
    if above < start {
        assert(crate::lines::line_starts(b)[above] < crate::lines::line_starts(b)[start]);
    }
    let l = if at > line_start(b, start) {
        start
    } else {
        above
    };
    assert(line(b, l) == line(b, l));
    let r = paragraph_edge(b, at, false);
    assert forall|k: int|
        0 < k <= here && r < line_start(b, k) < at && !crate::markdown::carry::blank(
            #[trigger] line(b, k),
        ) implies !crate::markdown::carry::blank(line(b, k - 1)) by {
        assert(l < k) by {
            if k < l {
                assert(crate::lines::line_starts(b)[k] < crate::lines::line_starts(b)[l]);
            }
        }
        if l == start && at > line_start(b, start) {
            assert(!crate::markdown::carry::blank(line(b, k - 1)));
        } else if k < gap {
            assert(!crate::markdown::carry::blank(line(b, k - 1)));
        } else if k < start {
            assert(crate::markdown::carry::blank(line(b, k)));
        } else if start < k {
            assert(crate::lines::line_starts(b)[start] < crate::lines::line_starts(b)[k]);
        }
    }
}

// ---------------------------------------------------------------------------
// Away from the note
// ---------------------------------------------------------------------------
/// With the keyboard elsewhere, ⌫ takes the last character of what is typed there and
/// leaves the note; in the palette the first match is the choice again.
pub proof fn law_backspace_elsewhere(s: State, prev: int, now: u64)
    requires
        !editing(s),
    ensures
        ({
            let t = backspaced(s, prev, now);
            &&& t.text == s.text && t.start == s.start && t.end == s.end && t.marked == s.marked
            &&& t.saving == s.saving && t.killed == s.killed
            &&& s.panels.palette is Some || s.find.focused ==> backspaced_edit(s, prev) is None
            &&& s.panels.palette matches Some(p) ==> (t.panels.palette matches Some(q) && q.selected == 0 && (
            p.query.len() > 0 ==> q.query + seq![p.query.last()] == p.query) && (p.query.len() == 0
                ==> q.query.len() == 0))
            &&& s.panels.palette is None && s.find.focused ==> t.find.search_pending
        }),
{
    if s.panels.palette is Some {
        let p = s.panels.palette->0;
        if p.query.len() > 0 {
            assert(p.query.drop_last() + seq![p.query.last()] =~= p.query);
        }
    }
}

/// In the palette ⌫ takes back the character typed last.
pub proof fn law_backspace_takes_back_what_was_typed(
    s: State,
    range: Option<(usize, usize)>,
    c: char,
    prev: int,
    now: u64,
)
    requires
        s.panels.palette is Some,
        c != '\n',
    ensures
        ({
            let t = backspaced(typing(s, range, seq![c], now), prev, now);
            t.panels.palette matches Some(q) && q.query == s.panels.palette->0.query
        }),
{
    let p = s.panels.palette->0;
    assert((p.query + seq![c]).drop_last() =~= p.query);
    assert(!seq![c].contains('\n'));
}

/// ⌃Y with the keyboard elsewhere leaves the note as it is, and so it does with nothing
/// killed.
pub proof fn law_yanking_elsewhere(s: State, now: u64)
    ensures
        s.find.focused || s.killed.len() == 0 ==> yanked(s, now) == s,
        !editing(s) ==> yanked(s, now).text == s.text && yanked(s, now).start == s.start && yanked(s, now).end
            == s.end,
{
}

/// Right below a rule, ⌥⌫ takes what ⌫ takes: the rule.
pub proof fn law_a_word_back_at_a_rule(s: State, start: int, prev: int, now: u64)
    requires
        editing(s),
        s.start == s.end,
        rule_before(s.text, caret(s)) is Some,
    ensures
        word_deleted_back(s, (start, s.end), now) == backspaced(s, prev, now),
{
}

} // verus!
