//! What moving, replacing and restoring whole notes does.

use vstd::prelude::*;
use vstd::utf8::*;

use crate::app::find::lemma_replaced_valid;
use crate::app::lines::lemma_joined_valid;
use crate::app::effects::{editing, well_placed};
use crate::app::notes::{
    adopted, find_dismissed, history_taken, landing, not_restored, note_brought_up, note_carried_up,
    note_moved_up, restored, within_note,
};
use crate::app::{caret, FindState, PanelState, State};
use crate::ascii::NEWLINE;
use crate::lines::{lemma_line, lemma_line_boundaries, lemma_line_starts, line_end, line_start};
use crate::note::laws::{contents, law_move_permutes_notes, spills};
use crate::note::moves::{after_cut, after_move, lemma_lifted, lifted, movable, planned, turned};
use crate::note::{block_end, block_of, block_start, lemma_block, lemma_dividers, lemma_floor_ceil};
use crate::session::SavingState;
use crate::text::{boundary, lemma_subrange_valid};

verus! {

broadcast use vstd::seq::group_seq_axioms;

/// Where a moved note comes to lie, and that the text keeps its length.
#[verifier::rlimit(40)]
proof fn lemma_moved_note(b: Seq<u8>, idx: int, before: int)
    requires
        movable(b, idx, before),
    ensures
        ({
            let m = planned(b, idx, before);
            let new = after_move(b, m);
            let start = block_start(b, idx);
            let end = block_end(b, idx);
            &&& 0 <= start <= end <= b.len()
            &&& new.len() == b.len()
            &&& 0 <= m.moved_to
            &&& m.moved_to + (end - start) < new.len()
            &&& end - start < m.insert_text.len()
            &&& forall|j: int|
                0 <= j < end - start ==> #[trigger] new[m.moved_to + j] == b[start + j]
            &&& start < end ==> new[m.moved_to + (end - start)] == NEWLINE
        }),
{
    let m = planned(b, idx, before);
    let new = after_move(b, m);
    let (sep, to) = lifted(b, idx);
    let start = block_start(b, idx);
    let end = block_end(b, idx);
    lemma_lifted(b, idx, before);
    lemma_dividers(b);
    lemma_block(b, idx);
    lemma_line_starts(b);
    lemma_line(b, sep);
    lemma_line(b, to - 1);
    let target = crate::note::block_first(b, before);
    lemma_line(b, target);
    if target < sep {
        assert(crate::lines::line_starts(b)[target] < crate::lines::line_starts(b)[sep]);
    }
    if sep > 0 {
        lemma_line(b, sep - 1);
    }
    if sep + 1 < to {
        lemma_line(b, sep + 1);
        assert(start == line_start(b, sep + 1));
        assert(end == line_end(b, to - 1));
        assert(turned(b, idx).len() == line_end(b, to - 1) - line_start(b, sep));
    } else {
        assert(end == start);
        assert(turned(b, idx).len() == line_end(b, sep) - line_start(b, sep));
    }
    let rest = after_cut(b, m);
    let run = turned(b, idx);
    assert(0 <= m.insert_at <= m.cut_at <= rest.len());
    assert forall|j: int| 0 <= j < run.len() implies #[trigger] new[m.moved_to + j] == run[j] by {}
    assert(crate::note::divides(b, sep));
    assert(line_start(b, sep) < line_end(b, sep)) by {
        if line_start(b, sep) == line_end(b, sep) {
            assert(crate::lines::line(b, sep) =~= Seq::empty());
            crate::note::lemma_white_no_rule(crate::lines::line(b, sep));
        }
    }
    assert forall|j: int| 0 <= j < end - start implies #[trigger] new[m.moved_to + j] == b[start + j] by {
        assert(new[m.moved_to + j] == run[j]);
    }
    if start < end {
        assert(new[m.moved_to + (end - start)] == run[end - start]);
    }
}

/// A text with a note moved is UTF-8 as it was.
proof fn lemma_moved_valid(b: Seq<u8>, idx: int, before: int)
    requires
        valid_utf8(b),
        movable(b, idx, before),
    ensures
        valid_utf8(after_move(b, planned(b, idx, before))),
{
    let m = planned(b, idx, before);
    let (sep, to) = lifted(b, idx);
    let nl = seq![NEWLINE];
    lemma_lifted(b, idx, before);
    crate::note::moves::lemma_planned_fits(b, idx, before);
    lemma_line_starts(b);
    lemma_line(b, sep);
    lemma_line_boundaries(b, sep);
    lemma_line(b, to - 1);
    lemma_line_boundaries(b, to - 1);
    crate::markdown::shapes::lemma_ascii_valid(nl);
    let run = turned(b, idx);
    if sep + 1 < to {
        lemma_line(b, sep + 1);
        lemma_line_boundaries(b, sep + 1);
        let body = b.subrange(line_start(b, sep + 1), line_end(b, to - 1));
        if sep + 1 < to - 1 {
            assert(crate::lines::line_starts(b)[sep + 1] < crate::lines::line_starts(b)[to - 1]);
        }
        lemma_subrange_valid(b, line_start(b, sep + 1), line_end(b, to - 1));
        lemma_joined_valid(body, nl);
        lemma_joined_valid(body + nl, crate::lines::line(b, sep));
    }
    assert(valid_utf8(run));
    lemma_joined_valid(nl, run);
    lemma_joined_valid(run, nl);
    crate::markdown::shapes::lemma_ascii_valid(Seq::empty());
    lemma_replaced_valid(b, m.cut_at, m.cut_at + m.cut_text.len(), Seq::empty());
    lemma_replaced_valid(after_cut(b, m), m.insert_at, m.insert_at, m.insert_text);
}

/// Moving the caret's note up takes it out of its place and puts it in front of the note
/// it moves past: the notes are those there were, in that order. The caret stays on
/// its character, and nothing is selected.
pub proof fn law_a_note_moves_with_its_caret(s: State, before: int, now: u64)
    requires
        well_placed(s),
        movable(s.text, block_of(s.text, caret(s)), before),
        block_start(s.text, block_of(s.text, caret(s))) <= caret(s) <= block_end(
            s.text,
            block_of(s.text, caret(s)),
        ),
    ensures
        ({
            let idx = block_of(s.text, caret(s));
            let t = note_carried_up(s, idx, before, within_note(s), now);
            let back = caret(s) - block_start(s.text, idx);
            let on = block_end(s.text, idx) - caret(s);
            &&& !spills(s.text, idx, before) ==> contents(t.text) == contents(s.text).remove(idx).insert(
                before,
                contents(s.text)[idx],
            )
            &&& t.text.len() == s.text.len()
            &&& t.start == t.end
            &&& back <= t.end && t.end + on <= t.text.len()
            &&& t.text.subrange(t.end - back, t.end) == s.text.subrange(caret(s) - back, caret(s))
            &&& t.text.subrange(t.end, t.end + on) == s.text.subrange(caret(s), caret(s) + on)
            &&& t.marked is None
            &&& t.saving.dirty_since == Some(now)
        }),
{
    let b = s.text;
    let idx = block_of(b, caret(s));
    let m = planned(b, idx, before);
    let new = after_move(b, m);
    let start = block_start(b, idx);
    let end = block_end(b, idx);
    let within = within_note(s);
    lemma_moved_note(b, idx, before);
    if !spills(b, idx, before) {
        law_move_permutes_notes(b, idx, before);
    }
    let t = note_carried_up(s, idx, before, within, now);
    assert(t.text == new);
    let at = m.moved_to + within;
    assert(landing(m, within) == at);
    lemma_moved_caret(b, idx, before, within);
    lemma_floor_ceil(new, at);
    assert(t.end == at);
    lemma_around(new, b, m.moved_to, start, end, caret(s));
}

/// A place in a moved note is between characters where it was before.
proof fn lemma_moved_caret(b: Seq<u8>, idx: int, before: int, within: int)
    requires
        valid_utf8(b),
        movable(b, idx, before),
        0 <= within <= block_end(b, idx) - block_start(b, idx),
        boundary(b, block_start(b, idx) + within),
    ensures
        ({
            let m = planned(b, idx, before);
            &&& valid_utf8(after_move(b, m))
            &&& boundary(after_move(b, m), m.moved_to + within)
        }),
{
    let m = planned(b, idx, before);
    let new = after_move(b, m);
    let start = block_start(b, idx);
    let end = block_end(b, idx);
    let at = m.moved_to + within;
    lemma_moved_note(b, idx, before);
    lemma_moved_valid(b, idx, before);
    if within < end - start {
        assert(new[m.moved_to + within] == b[start + within]);
    } else if start < end {
        assert(new[at] == NEWLINE);
    } else {
        lemma_moved_start(b, idx, before);
    }
}

/// What is around a place in a moved stretch.
proof fn lemma_around(new: Seq<u8>, b: Seq<u8>, moved: int, start: int, end: int, c: int)
    requires
        0 <= start <= c <= end <= b.len(),
        0 <= moved,
        moved + (end - start) <= new.len(),
        forall|j: int| 0 <= j < end - start ==> #[trigger] new[moved + j] == b[start + j],
    ensures
        ({
            let at = moved + (c - start);
            &&& new.subrange(moved, at) == b.subrange(start, c)
            &&& new.subrange(at, at + (end - c)) == b.subrange(c, end)
        }),
{
    let at = moved + (c - start);
    let p = new.subrange(moved, at);
    let q = b.subrange(start, c);
    assert forall|j: int| 0 <= j < c - start implies #[trigger] p[j] == q[j] by {
        assert(new[moved + j] == b[start + j]);
    }
    assert(p =~= q);
    let v = new.subrange(at, at + (end - c));
    let w = b.subrange(c, end);
    assert forall|j: int| 0 <= j < end - c implies #[trigger] v[j] == w[j] by {
        assert(new[moved + (c - start + j)] == b[start + (c - start + j)]);
    }
    assert(v =~= w);
}

/// An empty note that moves starts with its rule.
proof fn lemma_moved_start(b: Seq<u8>, idx: int, before: int)
    requires
        movable(b, idx, before),
        block_start(b, idx) == block_end(b, idx),
    ensures
        ({
            let m = planned(b, idx, before);
            boundary(after_move(b, m), m.moved_to)
        }),
{
    let m = planned(b, idx, before);
    let new = after_move(b, m);
    let (sep, to) = lifted(b, idx);
    lemma_moved_note(b, idx, before);
    lemma_lifted(b, idx, before);
    lemma_dividers(b);
    lemma_block(b, idx);
    lemma_line_starts(b);
    lemma_line(b, sep);
    lemma_line(b, to - 1);
    let run = turned(b, idx);
    let target = crate::note::block_first(b, before);
    lemma_line(b, target);
    if target < sep {
        assert(crate::lines::line_starts(b)[target] < crate::lines::line_starts(b)[sep]);
    }
    if sep > 0 {
        lemma_line(b, sep - 1);
    }
    assert(crate::note::divides(b, sep));
    let l = crate::lines::line(b, sep);
    assert(l.len() > 0) by {
        if l.len() == 0 {
            crate::note::lemma_white_no_rule(l);
        }
    }
    assert(crate::note::separator_line(l));
    assert(l[0] < 0x80);
    assert(new[m.moved_to] == run[0]);
    if sep + 1 < to {
        lemma_line(b, sep + 1);
        assert(run[0] == NEWLINE);
    } else {
        assert(run[0] == l[0]);
    }
}

/// ⌘⇧↑ takes the caret's note to the top, ⌘↑ in front of the one above; the top note
/// stays where it is.
pub proof fn law_a_note_goes_up(s: State, now: u64)
    requires
        editing(s),
    ensures
        ({
            let idx = block_of(s.text, caret(s));
            &&& movable(s.text, idx, 0) ==> note_brought_up(s, now) == note_carried_up(
                s,
                idx,
                0,
                within_note(s),
                now,
            )
            &&& movable(s.text, idx, idx - 1) ==> note_moved_up(s, now) == note_carried_up(
                s,
                idx,
                idx - 1,
                within_note(s),
                now,
            )
            &&& idx <= 0 ==> note_brought_up(s, now) == s && note_moved_up(s, now) == s
            &&& movable(s.text, idx, 0) <==> 0 < idx <= crate::note::dividers(s.text).len()
            &&& movable(s.text, idx, idx - 1) <==> 0 < idx <= crate::note::dividers(s.text).len()
        }),
{
}

/// Taking over a text shows it from the top, with nothing selected, nothing composed and
/// nothing owed a save.
pub proof fn law_taking_over_a_text(s: State, text: Seq<u8>, now: u64)
    ensures
        ({
            let t = adopted(s, text, now);
            &&& t.text == text
            &&& t.start == 0 && t.end == 0 && caret(t) == 0
            &&& t.marked is None
            &&& !t.grouped
            &&& t.saving.dirty_since is None
            &&& t.saving.allow_autosave
            &&& t.find.dirty_since is None
            &&& t.revision != s.revision
            &&& t.killed == s.killed && t.panels == s.panels
        }),
{
}

/// A backup that is put back is shown from the top and owed a save, and its panel is put
/// away; one that is not leaves the note, its selection and what is owed as they were.
pub proof fn law_restoring_a_backup(
    s: State,
    text: Seq<u8>,
    name: Seq<char>,
    safety: Seq<char>,
    why: Seq<char>,
    now: u64,
)
    ensures
        ({
            let t = restored(s, text, name, safety, now);
            &&& t.text == text
            &&& t.start == 0 && t.end == 0
            &&& t.marked is None
            &&& t.saving.dirty_since == Some(now)
            &&& t.saving.allow_autosave
            &&& !t.panels.backups_open
            &&& t.panels == (PanelState { backups_open: false, ..s.panels })
            &&& t.saving.notice matches Some(n) && !n.alert && n.since == now
        }),
        ({
            let t = not_restored(s, why, now);
            &&& t.text == s.text && t.start == s.start && t.end == s.end && t.marked == s.marked
            &&& t.saving.dirty_since == s.saving.dirty_since
            &&& t.saving == (SavingState { notice: t.saving.notice, ..s.saving })
            &&& t.panels == (PanelState { backups_open: false, ..s.panels })
            &&& t.saving.notice matches Some(n) && n.alert && !n.sticky && n.text == why
        }),
{
}

/// Undo and redo show the text they are given with the selection they are given, end any
/// composition, owe a save, and join no other edit.
pub proof fn law_history_is_taken_as_it_is(
    s: State,
    text: Seq<u8>,
    one_place: bool,
    from: int,
    to: int,
    now: u64,
)
    requires
        valid_utf8(text),
        boundary(text, from),
        boundary(text, to),
        from <= to,
    ensures
        ({
            let t = history_taken(s, text, one_place, (from, to), now);
            &&& t.text == text
            &&& t.start == from && t.end == to && caret(t) == to
            &&& t.marked is None
            &&& !t.grouped
            &&& t.saving.dirty_since == Some(now)
            &&& t.killed == s.killed && t.panels == s.panels
            &&& t.revision != s.revision
        }),
{
    lemma_floor_ceil(text, from);
    lemma_floor_ceil(text, to);
}

/// Putting the find bar away keeps its query for the next time and ends its search.
pub proof fn law_find_is_put_away(f: FindState, query: Seq<char>)
    ensures
        ({
            let g = find_dismissed(f, query);
            &&& !g.open && !g.focused
            &&& g.find_return is None && !g.search_pending && g.dirty_since is None
            &&& f.open ==> g.last_query == query
            &&& !f.open ==> g.last_query == f.last_query
            &&& g.note_only == f.note_only && g.search_gen == f.search_gen
        }),
{
}

} // verus!
