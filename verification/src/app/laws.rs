//! What holds of the editor as a whole.

use vstd::prelude::*;
use vstd::utf8::*;

use crate::app::clipboard::{dropped, pasted, selected};
use crate::app::delete::{backspaced, deleted_forward, deleting, kill_range, killing};
use crate::app::find::{
    all_replaced, find_closed, find_opened, in_order, lemma_all_replaced, matches_replaced,
    matches_replaced_edit,
};
use crate::app::images::written_alt;
use crate::app::input::{composing, typing};
use crate::app::lines::{
    can_swap, least, lemma_swap, lemma_touched_lines, lines_doubled, lines_in_order, lines_moved,
    lines_rewritten, swap, touched_lines,
};
use crate::app::notes::note_started;
use crate::app::{caret, edited, holder, modal, record_of, rows_of, Holder, State};
use crate::ascii::{NEWLINE, RETURN};
use crate::fences::law_splice_equals_rebuild;
use crate::lines::{
    lemma_line, lemma_line_boundaries, lemma_line_of_start, lemma_line_starts, lemma_lines_injective, lemma_lines_of_terminated, lemma_lines_single,
    lemma_terminated_concat, lemma_terminated_one, line, line_count, line_end, line_start, line_starts,
    lines, single_line, terminated,
};
use crate::note::laws::{contents, law_deleting_a_rule_joins_two_notes, together, without};
use crate::note::moves::lemma_terminated_range;
use crate::note::{dividers, lemma_dividers, lemma_floor_ceil};
use crate::text::{boundary, bytes, replaced};

verus! {

broadcast use vstd::seq::group_seq_axioms;

/// A state an editor can be in: the text is UTF-8, and the selection's ends
/// lie in it between characters.
pub open spec fn sound(s: State) -> bool {
    &&& valid_utf8(s.text)
    &&& boundary(s.text, s.start)
    &&& boundary(s.text, s.end)
}

/// Every edit can be taken back: putting what was removed in place of what was
/// inserted gives the text there was, and the record holds the selection there
/// was.
pub proof fn law_edit_can_be_undone(
    s: State,
    from: int,
    to: int,
    with: Seq<u8>,
    start: int,
    end: int,
    now: u64,
)
    requires
        0 <= from <= to <= s.text.len(),
    ensures
        ({
            let after = edited(s, from, to, with, start, end, now);
            let e = record_of(s, from, to, with, start, end);
            &&& replaced(after.text, e.start, e.start + e.inserted.len(), e.removed) == s.text
            &&& replaced(s.text, e.start, e.start + e.removed.len(), e.inserted) == after.text
            &&& e.before == (s.start, s.end)
            &&& e.after == (after.start, after.end)
        }),
{
    let after = replaced(s.text, from, to, with);
    let removed = s.text.subrange(from, to);
    assert(replaced(after, from, from + with.len(), removed) =~= s.text);
}

/// The rows an edit reports make up for the lines it changes: the rows that stay
/// and the rows that come are as many as the lines of the new text, and none
/// before the first row reported changes its text.
pub proof fn law_rows_follow_the_lines(s: State, from: int, to: int, with: Seq<u8>)
    requires
        0 <= from <= to <= s.text.len(),
    ensures
        ({
            let after = replaced(s.text, from, to, with);
            let (first, until, count) = rows_of(s.text, from, to, with);
            &&& 0 <= first < until <= line_count(s.text)
            &&& line_count(after) == line_count(s.text) - (until - first) + count
            &&& forall|l: int| 0 <= l < first ==> #[trigger] line(after, l) == line(s.text, l)
        }),
{
    law_splice_equals_rebuild(s.text, from, to, with);
    let after = replaced(s.text, from, to, with);
    let head = s.text.subrange(0, from);
    let tail = s.text.subrange(to, s.text.len() as int);
    let removed = s.text.subrange(from, to);
    lemma_line_starts(removed);
    lemma_line_starts(with);
    crate::lines::lemma_line_of(s.text, from);
    crate::lines::lemma_lines_around(head, removed, tail);
    crate::lines::lemma_lines_around(head, with, tail);
    assert(head + removed + tail =~= s.text);
    assert(head + with + tail =~= after);
    let first = crate::lines::line_of(s.text, from);
    assert forall|l: int| 0 <= l < first implies #[trigger] line(after, l) == line(s.text, l) by {
        assert(line(head + removed + tail, l) == line(head, l));
        assert(line(head + with + tail, l) == line(head, l));
    }
}

/// While a panel is laid over the note, no command that edits changes its text.
pub proof fn law_panels_guard_the_note(
    s: State,
    range: Option<(usize, usize)>,
    selected: Option<(usize, usize)>,
    text: Seq<char>,
    pieces: Seq<String>,
    ls: Seq<Seq<u8>>,
    down: bool,
    at: int,
    now: u64,
)
    requires
        modal(s),
    ensures
        typing(s, range, text, now).text == s.text,
        composing(s, range, text, selected, now).text == s.text,
        pasted(s, text, now).text == s.text,
        dropped(s, pieces, now).text == s.text,
        note_started(s, now).text == s.text,
        lines_moved(s, down, now).text == s.text,
        lines_doubled(s, now).text == s.text,
        lines_rewritten(s, ls, now).text == s.text,
        backspaced(s, at, now).text == s.text,
        deleted_forward(s, at, now).text == s.text,
        deleting(s, (at, at), now).text == s.text,
{
}

/// Opening the find bar and leaving it with Escape, the text unchanged, puts the
/// caret and the selection back.
pub proof fn law_escape_returns_the_caret(s: State, query: Seq<char>)
    requires
        sound(s),
        s.start <= s.end,
        !s.find.open,
        s.text.len() <= usize::MAX,
    ensures
        ({
            let t = find_closed(find_opened(s), query);
            &&& t.start == s.start
            &&& t.end == s.end
            &&& t.reversed == s.reversed
            &&& t.text == s.text
            &&& !t.find.open
            &&& !t.find.focused
            &&& t.find.last_query == query
        }),
{
    lemma_floor_ceil(s.text, s.start);
    lemma_floor_ceil(s.text, s.end);
}

/// ⌃Y brings back what ⌃K took: with nothing selected, the two leave the text as
/// it was.
pub proof fn law_yank_restores_kill(s: State, row_end: int, next: int, now: u64, later: u64)
    requires
        sound(s),
        s.start >= s.end,
        s.marked is None,
        holder(s) == Holder::Note,
        s.text.len() <= usize::MAX,
        ({
            let (from, to) = kill_range(s, row_end, next);
            from < to && boundary(s.text, to)
        }),
    ensures
        ({
            let range = kill_range(s, row_end, next);
            let gone = deleting(killing(s, range), range, now);
            let back = typing(gone, None, decode_utf8(gone.killed), later);
            &&& gone.text.len() < s.text.len()
            &&& back.text == s.text
        }),
{
    let range = kill_range(s, row_end, next);
    let (from, to) = range;
    let killed = s.text.subrange(from, to);
    lemma_floor_ceil(s.text, from);
    lemma_floor_ceil(s.text, to);
    crate::text::lemma_subrange_valid(s.text, from, to);
    decode_utf8_encode_utf8(killed);
    let empty = Seq::<char>::empty();
    assert(bytes(empty) =~= Seq::empty());
    let gone = deleting(killing(s, range), range, now);
    assert(gone.text == replaced(s.text, from, to, Seq::empty()));
    assert(valid_utf8(Seq::<u8>::empty()));
    crate::app::lemma_replaced_boundaries(s.text, from, to, Seq::empty());
    assert(boundary(gone.text, from));
    crate::app::find::lemma_replaced_valid(s.text, from, to, Seq::empty());
    lemma_floor_ceil(gone.text, from);
    let back = typing(gone, None, decode_utf8(gone.killed), later);
    assert(back.text == replaced(gone.text, from, from, killed));
    assert(back.text =~= s.text);
}

/// ⌫ at the start of the line below a rule, and ⌦ at the end of the line above it,
/// join the two notes beside the rule and leave all others as they were.
pub proof fn law_deleting_at_a_rule_joins_the_notes(
    s: State,
    k: int,
    prev: int,
    next: int,
    now: u64,
)
    requires
        sound(s),
        s.start >= s.end,
        holder(s) == Holder::Note,
        s.text.len() <= usize::MAX,
        0 <= k < dividers(s.text).len(),
    ensures
        ({
            let b = s.text;
            let d = dividers(b)[k];
            let left = contents(b).take(k) + seq![together(b, k)] + contents(b).skip(k + 2);
            &&& d + 1 < line_count(b) && caret(s) == line_start(b, d + 1) ==> contents(
                backspaced(s, prev, now).text,
            ) == left
            &&& d > 0 && caret(s) == line_end(b, d - 1) ==> contents(
                deleted_forward(s, next, now).text,
            ) == left
        }),
{
    let b = s.text;
    let d = dividers(b)[k];
    let empty = Seq::<char>::empty();
    assert(bytes(empty) =~= Seq::empty());
    lemma_dividers(b);
    lemma_line(b, d);
    lemma_line_boundaries(b, d);
    if d + 1 < line_count(b) && caret(s) == line_start(b, d + 1) {
        let gone = (line_start(b, d), line_start(b, d + 1));
        lemma_line(b, d + 1);
        lemma_line_boundaries(b, d + 1);
        lemma_line_of_start(b, d + 1, caret(s));
        lemma_floor_ceil(b, gone.0);
        lemma_floor_ceil(b, gone.1);
        assert(backspaced(s, prev, now).text =~= without(b, gone));
        law_deleting_a_rule_joins_two_notes(b, k, gone);
    }
    if d > 0 && caret(s) == line_end(b, d - 1) {
        let gone = (line_end(b, d - 1), line_end(b, d));
        lemma_line(b, d - 1);
        lemma_line_boundaries(b, d - 1);
        lemma_line_of_start(b, d - 1, caret(s));
        lemma_floor_ceil(b, gone.0);
        lemma_floor_ceil(b, gone.1);
        assert(deleted_forward(s, next, now).text =~= without(b, gone));
        law_deleting_a_rule_joins_two_notes(b, k, gone);
    }
}

/// ⌘X and then ⌘V put the text back, if what was selected ends its lines in the
/// note's own way.
pub proof fn law_paste_restores_cut(s: State, now: u64, later: u64)
    requires
        sound(s),
        s.start < s.end,
        s.marked is None,
        holder(s) == Holder::Note,
        !selected(s).contains(RETURN),
    ensures
        ({
            let gone = typing(s, None, Seq::empty(), now);
            let back = pasted(gone, decode_utf8(selected(s)), later);
            &&& back.text == s.text
            &&& back.end == s.end
        }),
{
    let clip = selected(s);
    let (from, to) = (s.start, s.end);
    lemma_floor_ceil(s.text, from);
    lemma_floor_ceil(s.text, to);
    crate::text::lemma_subrange_valid(s.text, from, to);
    decode_utf8_encode_utf8(clip);
    let empty = Seq::<char>::empty();
    assert(bytes(empty) =~= Seq::empty());
    let gone = typing(s, None, Seq::empty(), now);
    assert(gone.text == replaced(s.text, from, to, Seq::empty()));
    assert(valid_utf8(Seq::<u8>::empty()));
    crate::app::lemma_replaced_boundaries(s.text, from, to, Seq::empty());
    assert(boundary(gone.text, from));
    crate::app::find::lemma_replaced_valid(s.text, from, to, Seq::empty());
    lemma_floor_ceil(gone.text, from);
    assert forall|k: int| 0 <= k < clip.len() implies clip[k] != RETURN by {
        assert(clip.contains(clip[k]));
    }
    crate::app::clipboard::law_pasted_lines_end_one_way(clip, 0);
    assert(clip.subrange(0, clip.len() as int) =~= clip);
    let back = pasted(gone, decode_utf8(clip), later);
    assert(back.text == replaced(gone.text, from, from, clip));
    assert(back.text =~= s.text);
}

/// Replacing every match can be taken back: undoing its edits one by one, the
/// first match first, undoes one replacement each, and gives back the text there
/// was.
pub proof fn law_replace_all_can_be_undone(
    s: State,
    ms: Seq<(usize, usize)>,
    with: Seq<u8>,
    k: int,
    now: u64,
)
    requires
        sound(s),
        valid_utf8(with),
        in_order(s.text, ms),
        0 <= k < ms.len(),
    ensures
        ({
            let e = matches_replaced_edit(s, ms, with, ms.len() - 1 - k);
            replaced(
                all_replaced(s.text, ms, k, with),
                e.start,
                e.start + e.inserted.len(),
                e.removed,
            ) == all_replaced(s.text, ms, k + 1, with)
        }),
        matches_replaced(s, ms, with, now).text == all_replaced(s.text, ms, 0, with),
        all_replaced(s.text, ms, ms.len() as int, with) == s.text,
        matches_replaced_edit(s, ms, with, 0).before == (s.start, s.end),
{
    let b = s.text;
    lemma_all_replaced(b, ms, k + 1, with);
    let u = all_replaced(b, ms, k + 1, with);
    let t = all_replaced(b, ms, k, with);
    let (from, to) = (ms[k].0 as int, ms[k].1 as int);
    let head = if k + 1 < ms.len() {
        ms[k + 1].0 as int
    } else {
        b.len() as int
    };
    assert(to <= head);
    assert(u.subrange(from, to) =~= b.subrange(from, to)) by {
        assert forall|i: int| from <= i < to implies u[i] == b[i] by {
            assert(u.subrange(0, head)[i] == b.subrange(0, head)[i]);
        }
    }
    assert(replaced(t, from, from + with.len(), b.subrange(from, to)) =~= u);
}

/// A size that is recorded in a reference and taken out again leaves the words the
/// reader wrote for it.
pub proof fn law_resizing_keeps_the_words(alt: Seq<char>, size: Seq<char>)
    requires
        !size.contains('|'),
    ensures
        written_alt(alt + seq!['|'] + size) == alt,
    decreases size.len(),
{
    let all = alt + seq!['|'] + size;
    assert(all[alt.len() as int] == '|');
    assert(all.contains('|'));
    if size.len() == 0 {
        assert(all.drop_last() =~= alt);
    } else {
        assert(size.contains(size.last()));
        assert(all.last() == size.last());
        assert(all.drop_last() =~= alt + seq!['|'] + size.drop_last());
        assert forall|c: char| size.drop_last().contains(c) implies size.contains(c) by {
            let i = choose|i: int| 0 <= i < size.drop_last().len() && size.drop_last()[i] == c;
            assert(size[i] == c);
        }
        law_resizing_keeps_the_words(alt, size.drop_last());
    }
}

/// The lines `first..=last`, joined by line breaks, are the bytes from the start
/// of the first to the end of the last.
proof fn lemma_lines_terminated(b: Seq<u8>, first: int, last: int)
    requires
        0 <= first <= last < line_count(b),
    ensures
        terminated(lines(b).subrange(first, last + 1)) == b.subrange(
            line_start(b, first),
            line_end(b, last),
        ) + seq![NEWLINE],
{
    lemma_line_starts(b);
    lemma_line(b, first);
    lemma_line(b, last);
    lemma_terminated_range(b, first, last + 1);
    if last + 1 < line_count(b) {
        assert(b.subrange(line_start(b, first), line_end(b, last)) + seq![NEWLINE] =~= b.subrange(
            line_start(b, first),
            line_start(b, last + 1),
        ));
    }
}

/// The lines of a text in which the block `first..=last` has changed places with
/// the line below it, or above it.
pub open spec fn reordered(all: Seq<Seq<u8>>, first: int, last: int, down: bool) -> Seq<Seq<u8>> {
    let moved = all.subrange(first, last + 1);
    if down {
        all.subrange(0, first) + (seq![all[last + 1]] + moved) + all.subrange(
            last + 2,
            all.len() as int,
        )
    } else {
        all.subrange(0, first - 1) + (moved + seq![all[first - 1]]) + all.subrange(
            last + 1,
            all.len() as int,
        )
    }
}

proof fn lemma_reordered_single(all: Seq<Seq<u8>>, first: int, last: int, down: bool)
    requires
        0 <= first <= last < all.len(),
        down ==> last + 1 < all.len(),
        !down ==> 0 < first,
        forall|i: int| 0 <= i < all.len() ==> single_line(#[trigger] all[i]),
    ensures
        forall|i: int|
            0 <= i < reordered(all, first, last, down).len() ==> single_line(
                #[trigger] reordered(all, first, last, down)[i],
            ),
        reordered(all, first, last, down).len() == all.len(),
{
    let order = reordered(all, first, last, down);
    assert forall|i: int| 0 <= i < order.len() implies single_line(#[trigger] order[i]) by {
        let from = if down {
            if i < first || i > last + 1 {
                i
            } else if i == first {
                last + 1
            } else {
                i - 1
            }
        } else {
            if i < first - 1 || i > last {
                i
            } else if i == last {
                first - 1
            } else {
                i + 1
            }
        };
        assert(order[i] == all[from]);
    }
}

/// The block and the line it changes places with, written out.
proof fn lemma_swapped_middle(s: State, down: bool)
    requires
        sound(s),
        lines_in_order(s),
        can_swap(s, down),
    ensures
        ({
            let all = lines(s.text);
            let (first, last) = touched_lines(s);
            let w = swap(s, down);
            let moved = all.subrange(first, last + 1);
            let other = seq![all[w.neighbour]];
            terminated(
                if down {
                    other + moved
                } else {
                    moved + other
                },
            ) == w.with + seq![NEWLINE]
        }),
{
    lemma_touched_lines(s);
    let b = s.text;
    let (first, last) = touched_lines(s);
    let w = swap(s, down);
    let all = lines(b);
    lemma_line_starts(b);
    let moved = all.subrange(first, last + 1);
    let other = seq![all[w.neighbour]];
    lemma_lines_terminated(b, first, last);
    lemma_lines_terminated(b, w.neighbour, w.neighbour);
    assert(all.subrange(w.neighbour, w.neighbour + 1) =~= other);
    lemma_terminated_concat(other, moved);
    lemma_terminated_concat(moved, other);
    if down {
        assert(terminated(other + moved) =~= w.with + seq![NEWLINE]);
    } else {
        assert(terminated(moved + other) =~= w.with + seq![NEWLINE]);
    }
}

/// The text in which a block has changed places with its neighbour, by its lines.
proof fn lemma_swapped_lines(s: State, down: bool)
    requires
        sound(s),
        lines_in_order(s),
        can_swap(s, down),
    ensures
        ({
            let (first, last) = touched_lines(s);
            let w = swap(s, down);
            lines(replaced(s.text, w.from, w.to, w.with)) == reordered(
                lines(s.text),
                first,
                last,
                down,
            )
        }),
{
    let b = s.text;
    let (first, last) = touched_lines(s);
    let w = swap(s, down);
    let after = replaced(b, w.from, w.to, w.with);
    let all = lines(b);
    let order = reordered(all, first, last, down);
    lemma_touched_lines(s);
    lemma_lines_single(b);
    lemma_swapped_middle(s, down);
    let moved = all.subrange(first, last + 1);
    let other = seq![all[w.neighbour]];
    if down {
        lemma_swap_around(b, first, last + 1, w.with, other + moved);
    } else {
        lemma_swap_around(b, first - 1, last, w.with, moved + other);
    }
    lemma_reordered_single(all, first, last, down);
    lemma_lines_of_terminated(order, after);
}

/// What moving lines makes of the text.
#[verifier::rlimit(40)]
proof fn lemma_moved_text(s: State, down: bool, now: u64)
    requires
        sound(s),
        lines_in_order(s),
        can_swap(s, down),
    ensures
        ({
            let w = swap(s, down);
            lines_moved(s, down, now).text == replaced(s.text, w.from, w.to, w.with)
        }),
{
    lemma_swap(s, down);
    let w = swap(s, down);
    if w.with == s.text.subrange(w.from, w.to) {
        assert(replaced(s.text, w.from, w.to, w.with) =~= s.text);
    }
}

/// Moving lines changes nothing but their order: the lines the selection touches
/// change places with the line below, or above, them.
pub proof fn law_moving_lines_reorders(s: State, down: bool, now: u64)
    requires
        sound(s),
        lines_in_order(s),
        can_swap(s, down),
    ensures
        ({
            let (first, last) = touched_lines(s);
            lines(lines_moved(s, down, now).text) == reordered(lines(s.text), first, last, down)
        }),
{
    lemma_swapped_lines(s, down);
    lemma_moved_text(s, down, now);
}

/// After its line has moved down, the caret is on the next line.
proof fn lemma_caret_moves_down(s: State, now: u64)
    requires
        sound(s),
        lines_in_order(s),
        s.start >= s.end,
        can_swap(s, true),
    ensures
        ({
            let t = lines_moved(s, true, now);
            &&& sound(t)
            &&& t.start == t.end
            &&& touched_lines(t) == (touched_lines(s).0 + 1, touched_lines(s).0 + 1)
        }),
{
    let b = s.text;
    let (first, last) = touched_lines(s);
    let w = swap(s, true);
    let after = replaced(b, w.from, w.to, w.with);
    let t = lines_moved(s, true, now);
    lemma_touched_lines(s);
    lemma_swap(s, true);
    if w.with == b.subrange(w.from, w.to) {
        let beside = least(
            line_start(b, w.neighbour) + (caret(s) - line_start(b, w.first)),
            line_end(b, w.neighbour),
        );
        lemma_floor_ceil(b, beside);
        assert(line_start(b, first + 1) <= t.start <= line_end(b, first + 1));
        lemma_line_of_start(b, first + 1, t.start);
    } else {
        crate::app::find::lemma_replaced_valid(b, w.from, w.to, w.with);
        law_moving_lines_reorders(s, true, now);
        lemma_landed(s, now);
        lemma_line_of_start(after, first + 1, t.start);
    }
}

/// Where a line that moves down lands.
proof fn lemma_landed(s: State, now: u64)
    requires
        sound(s),
        lines_in_order(s),
        s.start >= s.end,
        can_swap(s, true),
    ensures
        ({
            let w = swap(s, true);
            let after = replaced(s.text, w.from, w.to, w.with);
            &&& w.first + 1 < line_count(after)
            &&& line_start(after, w.first + 1) == w.landed
            &&& line_end(after, w.first + 1) == w.landed + w.len
        }),
{
    let b = s.text;
    let (first, last) = touched_lines(s);
    let w = swap(s, true);
    let after = replaced(b, w.from, w.to, w.with);
    let all = lines(b);
    let order = reordered(all, first, last, true);
    lemma_touched_lines(s);
    lemma_swap(s, true);
    law_moving_lines_reorders(s, true, now);
    assert(lines_moved(s, true, now).text =~= after);
    assert(lines(after) == order);
    assert(order.len() == all.len());
    let head = all.subrange(0, first);
    let other = all[first + 1];
    assert(order.subrange(0, first + 1) =~= head + seq![other]);
    assert(order[first + 1] == all[first]);
    assert(line(after, first + 1) == line(b, first)) by {
        assert(lines(after)[first + 1] == all[first]);
    }
    lemma_terminated_concat(head, seq![other]);
    lemma_terminated_one(other);
    lemma_line_starts(b);
    lemma_line_starts(after);
    lemma_terminated_range(b, 0, first);
    lemma_terminated_range(after, 0, first + 1);
    lemma_line(after, first + 1);
    lemma_line(b, first);
    lemma_line(b, first + 1);
    assert(lines(after).subrange(0, first + 1) == order.subrange(0, first + 1));
    let lead = after.subrange(0, line_start(after, first + 1));
    assert(terminated(order.subrange(0, first + 1)) == lead);
    assert(terminated(head).len() == line_start(b, first));
    assert(lead.len() == line_start(b, first) + other.len() + 1);
    assert(line_start(after, first + 1) == w.landed);
}

/// Moving the line with the caret down and up again leaves the text as it was,
/// wherever the line can be moved up again.
pub proof fn law_moving_up_undoes_down(s: State, now: u64, later: u64)
    requires
        sound(s),
        lines_in_order(s),
        s.start >= s.end,
        can_swap(s, true),
        can_swap(lines_moved(s, true, now), false),
    ensures
        lines_moved(lines_moved(s, true, now), false, later).text == s.text,
{
    let (first, last) = touched_lines(s);
    let all = lines(s.text);
    let t = lines_moved(s, true, now);
    lemma_touched_lines(s);
    lemma_caret_moves_down(s, now);
    law_moving_lines_reorders(s, true, now);
    law_moving_lines_reorders(t, false, later);
    lemma_lines_single(s.text);
    lemma_reordered_single(all, first, first, true);
    assert(reordered(reordered(all, first, first, true), first + 1, first + 1, false) =~= all);
    lemma_lines_injective(lines_moved(t, false, later).text, s.text);
}

/// A text whose lines `low..=high` are written anew is its lines with those
/// replaced.
proof fn lemma_swap_around(b: Seq<u8>, low: int, high: int, with: Seq<u8>, middle: Seq<Seq<u8>>)
    requires
        0 <= low <= high < line_count(b),
        terminated(middle) == with + seq![NEWLINE],
    ensures
        ({
            let all = lines(b);
            let after = replaced(b, line_start(b, low), line_end(b, high), with);
            after + seq![NEWLINE] == terminated(
                all.subrange(0, low) + middle + all.subrange(high + 1, all.len() as int),
            )
        }),
{
    let all = lines(b);
    let n = all.len() as int;
    let nl = seq![NEWLINE];
    let from = line_start(b, low);
    let to = line_end(b, high);
    let after = replaced(b, from, to, with);
    lemma_line_starts(b);
    lemma_line(b, low);
    lemma_line(b, high);
    if low < high {
        assert(line_starts(b)[low] < line_starts(b)[high]);
    }
    let head = all.subrange(0, low);
    let tail = all.subrange(high + 1, n);
    lemma_terminated_range(b, 0, low);
    lemma_terminated_concat(head, middle);
    lemma_terminated_concat(head + middle, tail);
    assert(terminated(head) == b.subrange(0, from));
    if high + 1 < n {
        lemma_terminated_range(b, high + 1, n);
        assert(terminated(tail) =~= b.subrange(to + 1, b.len() as int) + nl);
        assert(b.subrange(to, b.len() as int) =~= nl + b.subrange(to + 1, b.len() as int));
        assert(after + nl =~= b.subrange(0, from) + (with + nl) + (b.subrange(
            to + 1,
            b.len() as int,
        ) + nl));
    } else {
        assert(tail =~= Seq::empty());
        assert(b.subrange(to, b.len() as int) =~= Seq::empty());
        assert(after + nl =~= b.subrange(0, from) + (with + nl) + Seq::empty());
    }
}

} // verus!
