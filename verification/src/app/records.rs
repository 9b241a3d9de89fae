//! What undo keeps of a command is what the command changed.

use vstd::prelude::*;
use vstd::utf8::*;

use crate::app::clipboard::{
    cutting, cutting_edit, dropped, dropped_edit, import_failure, import_noticed, import_ready, imported, pasted, pasted_edit,
};
use crate::app::delete::{
    backspaced, backspaced_edit, deleted_forward, deleted_forward_edit, deleting, deleting_edit,
};
use crate::app::find::replaced_text;
use crate::app::images::{resized, resized_edit, Reference};
use crate::app::input::{composing, composing_edit, in_bytes, typing, typing_edit};
use crate::app::lines::{
    lines_doubled, lines_doubled_edit, lines_in_order, lines_moved, lines_moved_edit, lines_rewritten,
    lines_rewritten_edit,
};
use crate::app::mouse::{ticked, ticked_edit};
use crate::app::notes::{block_moved, block_moved_edits, note_started, note_started_edit, restored_text};
use crate::app::effects::{editing, well_placed};
use crate::app::{caret, holder, opened, EditState, Holder, State};
use crate::decimal::decimal;
use crate::lines::{lemma_line, lemma_line_of, line_count, line_of};
use crate::note::lemma_floor_ceil;
use crate::note::moves::{after_cut, after_move, movable, planned};
use crate::session::SavingState;
use crate::text::{boundary, bytes, replaced};
use crate::utf16::{law_utf16_round_trip, unit_count};

verus! {

broadcast use vstd::seq::group_seq_axioms;

/// Whether `e` records how the text `b` became the text `c`: what was taken out, where, and
/// what was put there instead.
pub open spec fn becomes(b: Seq<u8>, c: Seq<u8>, e: EditState) -> bool {
    let to = e.start + e.removed.len();
    &&& 0 <= e.start
    &&& to <= b.len()
    &&& b.subrange(e.start, to) == e.removed
    &&& c == b.subrange(0, e.start) + e.inserted + b.subrange(to, b.len() as int)
}

/// Whether `e` records what happened between `s` and `t`: nothing where the text is the
/// same, and otherwise the change, with the selection there was.
pub open spec fn records(s: State, t: State, e: Option<EditState>) -> bool {
    match e {
        Some(e) => becomes(s.text, t.text, e) && e.before == (s.start, s.end),
        None => t.text == s.text,
    }
}

/// Putting back what a record says was taken out, in place of what it says was put in, gives
/// the text back.
pub proof fn law_a_record_can_be_undone(b: Seq<u8>, c: Seq<u8>, e: EditState)
    requires
        becomes(b, c, e),
    ensures
        e.start + e.inserted.len() <= c.len(),
        c.subrange(e.start, e.start + e.inserted.len()) == e.inserted,
        replaced(c, e.start, e.start + e.inserted.len(), e.removed) == b,
{
    let to = e.start + e.inserted.len();
    assert(c.subrange(e.start, to) =~= e.inserted);
    assert(replaced(c, e.start, to, e.removed) =~= b);
}

/// The edit of a range of the text is what its record says.
proof fn lemma_recorded(s: State, from: int, to: int, with: Seq<u8>, start: int, end: int, now: u64)
    requires
        0 <= from <= to <= s.text.len(),
    ensures
        becomes(
            s.text,
            crate::app::edited(s, from, to, with, start, end, now).text,
            crate::app::record_of(s, from, to, with, start, end),
        ),
{
    let e = crate::app::record_of(s, from, to, with, start, end);
    assert(s.text.subrange(from, to).len() == to - from);
}

/// The place an edit aims at lies in the text.
proof fn lemma_aimed(s: State, range: Option<(usize, usize)>)
    requires
        valid_utf8(s.text),
        0 <= s.start,
        0 <= s.end,
    ensures
        ({
            let (from, to) = crate::app::input::aimed(s, range);
            0 <= from <= to <= s.text.len()
        }),
{
    lemma_floor_ceil(s.text, s.start);
    lemma_floor_ceil(s.text, s.end);
    if let Some((a, b)) = range {
        lemma_floor_ceil(s.text, a as int);
        lemma_floor_ceil(s.text, b as int);
    }
    if let Some((a, b)) = s.marked {
        lemma_floor_ceil(s.text, a as int);
        lemma_floor_ceil(s.text, b as int);
    }
}

/// Typing and composing, cutting and pasting, dropping, and deleting either way keep a record
/// of what they change.
pub proof fn law_input_is_recorded(
    s: State,
    range: Option<(usize, usize)>,
    text: Seq<char>,
    selected: Option<(usize, usize)>,
    at: int,
    now: u64,
)
    requires
        valid_utf8(s.text),
        0 <= s.start,
        0 <= s.end,
    ensures
        records(s, typing(s, range, text, now), typing_edit(s, range, text)),
        records(s, composing(s, range, text, selected, now), composing_edit(s, range, text, selected)),
        records(s, pasted(s, text, now), pasted_edit(s, text)),
        records(s, cutting(s, now), cutting_edit(s)),
        records(s, deleting(s, (at, at + 1), now), deleting_edit(s, (at, at + 1))),
        records(s, backspaced(s, at, now), backspaced_edit(s, at)),
{
    lemma_typing_recorded(s, range, text, now);
    lemma_aimed(s, range);
    if holder(s) == Holder::Note {
        let (from, to) = crate::app::input::aimed(s, range);
        let (start, end) = crate::app::input::composing_selection(text, from, selected);
        lemma_recorded(s, from, to, bytes(text), start, end, now);
    }
    let u = crate::app::ungrouped(s);
    lemma_typing_recorded(u, None, crate::app::clipboard::pasting(s, text), now);
    lemma_typing_recorded(s, crate::app::clipboard::cut_place(s), Seq::empty(), now);
    lemma_typing_recorded(s, None, Seq::empty(), now);
    lemma_typing_recorded(s, Some((at as usize, (at + 1) as usize)), Seq::empty(), now);
    lemma_typing_recorded(s, Some((at as usize, caret(s) as usize)), Seq::empty(), now);
    if let Some(rule) = crate::app::delete::rule_before(s.text, caret(s)) {
        lemma_typing_recorded(s, Some(rule), Seq::empty(), now);
    }
}

proof fn lemma_typing_recorded(s: State, range: Option<(usize, usize)>, text: Seq<char>, now: u64)
    requires
        valid_utf8(s.text),
        0 <= s.start,
        0 <= s.end,
    ensures
        records(s, typing(s, range, text, now), typing_edit(s, range, text)),
{
    lemma_aimed(s, range);
    let (from, to) = crate::app::input::aimed(s, range);
    let at = from + bytes(text).len();
    lemma_recorded(s, from, to, bytes(text), at, at, now);
}

/// So does dropping files.
pub proof fn law_dropping_is_recorded(s: State, pieces: Seq<String>, now: u64)
    requires
        valid_utf8(s.text),
        0 <= s.start,
        0 <= s.end,
        s.find.focused ==> s.find.open,
    ensures
        records(s, dropped(s, pieces, now), dropped_edit(s, pieces)),
{
    let t = State {
        find: if s.find.focused {
            crate::app::clipboard::blurred(s.find)
        } else {
            s.find
        },
        ..s
    };
    lemma_typing_recorded(
        crate::app::ungrouped(t),
        None,
        crate::app::clipboard::stacked(pieces),
        now,
    );
}

/// ⌦ keeps a record of the text it takes out.
pub proof fn law_deleting_forward_is_recorded(s: State, next: int, now: u64)
    requires
        valid_utf8(s.text),
        0 <= s.start,
        0 <= s.end,
        0 <= next,
    ensures
        deleted_forward_edit(s, next) matches Some(e) ==> becomes(
            s.text,
            deleted_forward(s, next, now).text,
            e,
        ),
        deleted_forward_edit(s, next) is None ==> deleted_forward(s, next, now).text == s.text,
{
    lemma_typing_recorded(s, None, Seq::empty(), now);
    if let Some(rule) = crate::app::delete::rule_after(s.text, caret(s)) {
        lemma_typing_recorded(s, Some(rule), Seq::empty(), now);
    }
    let c = crate::app::caret::selecting(s, caret(s), next);
    lemma_floor_ceil(s.text, caret(s));
    lemma_floor_ceil(s.text, next);
    lemma_typing_recorded(c, None, Seq::empty(), now);
}

/// Moving lines keeps a record of what it changes.
pub proof fn law_moving_lines_is_recorded(s: State, down: bool, now: u64)
    requires
        well_placed(s),
        lines_in_order(s),
    ensures
        records(s, lines_moved(s, down, now), lines_moved_edit(s, down)),
{
    let u = crate::app::ungrouped(s);
    if crate::app::lines::can_swap(s, down) {
        let w = crate::app::lines::swap(s, down);
        let (start, end) = crate::app::lines::after_swap(s, down);
        lemma_swap_range(s, down);
        lemma_recorded(u, w.from, w.to, w.with, start, end, now);
    }
}

/// So does rewriting them.
pub proof fn law_rewriting_lines_is_recorded(s: State, ls: Seq<Seq<u8>>, now: u64)
    requires
        well_placed(s),
        lines_in_order(s),
    ensures
        records(s, lines_rewritten(s, ls, now), lines_rewritten_edit(s, ls)),
{
    crate::app::lines::lemma_touched_lines(s);
    let (first, last) = crate::app::lines::touched_lines(s);
    let from = crate::lines::line_start(s.text, first);
    let to = crate::lines::line_end(s.text, last);
    let with = crate::app::lines::lined(ls);
    lemma_recorded(s, from, to, with, from + with.len(), from + with.len(), now);
}

/// So does doubling them, and starting a note.
pub proof fn law_doubling_and_starting_are_recorded(s: State, now: u64)
    requires
        well_placed(s),
        lines_in_order(s),
    ensures
        records(s, lines_doubled(s, now), lines_doubled_edit(s)),
        records(s, note_started(s, now), note_started_edit(s)),
{
    crate::app::lines::lemma_touched_lines(s);
    let to = crate::lines::line_end(s.text, crate::app::lines::touched_lines(s).1);
    let u = crate::app::ungrouped(s);
    let more = crate::app::lines::doubled(s);
    lemma_recorded(u, to, to, more, to + more.len(), to + more.len(), now);
    lemma_recorded(u, 0, 0, crate::note::new_block_prefix(), 0, 0, now);
}

/// A swap writes a range of the text anew.
proof fn lemma_swap_range(s: State, down: bool)
    requires
        well_placed(s),
        lines_in_order(s),
        crate::app::lines::can_swap(s, down),
    ensures
        ({
            let w = crate::app::lines::swap(s, down);
            0 <= w.from <= w.to <= s.text.len()
        }),
{
    crate::app::lines::lemma_touched_lines(s);
    let (first, last) = crate::app::lines::touched_lines(s);
    if down {
        lemma_line(s.text, first);
        lemma_line(s.text, last);
        lemma_line(s.text, last + 1);
    } else {
        lemma_line(s.text, first);
        lemma_line(s.text, first - 1);
        lemma_line(s.text, last);
    }
}

/// Ticking a box and resizing a picture keep a record of the line they write anew.
pub proof fn law_line_rewrites_are_recorded(
    s: State,
    offset: int,
    toggled: Seq<u8>,
    l: int,
    r: Reference,
    size: Option<(u32, u32)>,
    prefix: Seq<char>,
    now: u64,
)
    requires
        0 <= offset,
        0 <= l,
    ensures
        records(s, ticked(s, offset, toggled, now), Some(ticked_edit(s, offset, toggled))),
        records(s, resized(s, l, r, size, prefix, now), resized_edit(s, l, r, size, prefix)),
{
    lemma_line_of(s.text, offset);
    let at = line_of(s.text, offset);
    lemma_line(s.text, at);
    let u = crate::app::ungrouped(s);
    let from = crate::lines::line_start(s.text, at);
    let to = crate::lines::line_end(s.text, at);
    let p = crate::app::lines::least(offset, from + toggled.len());
    lemma_recorded(u, from, to, toggled, p, p, now);
    if l < line_count(s.text) {
        lemma_line(s.text, l);
        let with = bytes(crate::app::images::resized_text(r, size, prefix));
        let (start, end) = crate::app::images::resized_selection(s, l, with.len() as int);
        lemma_recorded(
            u,
            crate::lines::line_start(s.text, l),
            crate::lines::line_end(s.text, l),
            with,
            start,
            end,
            now,
        );
    }
}

/// Moving a note keeps two records, the removal and the insertion, which belong together;
/// one after the other they are the move.
pub proof fn law_moving_a_note_is_recorded(s: State, idx: int, before: int, within: int, now: u64)
    requires
        movable(s.text, idx, before),
    ensures
        ({
            let m = planned(s.text, idx, before);
            let (out, back) = block_moved_edits(s, m, within);
            let between = after_cut(s.text, m);
            &&& becomes(s.text, between, out)
            &&& out.inserted.len() == 0
            &&& becomes(between, block_moved(s, m, within, now).text, back)
            &&& back.removed.len() == 0
            &&& out.before == (s.start, s.end)
            &&& !out.joins && back.joins
        }),
{
    let m = planned(s.text, idx, before);
    crate::note::moves::lemma_move_reorders_lines(s.text, idx, before);
    let (out, back) = block_moved_edits(s, m, within);
    let between = after_cut(s.text, m);
    assert(becomes(s.text, between, out));
    assert(between.subrange(m.insert_at, m.insert_at) =~= Seq::empty());
    assert(becomes(between, after_move(s.text, m), back));
}

// ---------------------------------------------------------------------------
// Other ways in
// ---------------------------------------------------------------------------
/// A place that is counted in UTF-16 units is the byte it was counted from.
pub proof fn law_utf16_ranges_are_those_bytes(s: State, a: int, b: int)
    requires
        valid_utf8(s.text),
        s.text.len() <= usize::MAX,
        boundary(s.text, a),
        boundary(s.text, b),
        unit_count(decode_utf8(s.text.subrange(0, a))) <= usize::MAX,
        unit_count(decode_utf8(s.text.subrange(0, b))) <= usize::MAX,
    ensures
        ({
            let x = unit_count(decode_utf8(s.text.subrange(0, a))) as usize;
            let y = unit_count(decode_utf8(s.text.subrange(0, b))) as usize;
            in_bytes(s, Some((x, y))) == Some((a as usize, b as usize))
        }),
        in_bytes(s, None) is None,
{
    decode_utf8_encode_utf8(s.text);
    law_utf16_round_trip(decode_utf8(s.text), a);
    law_utf16_round_trip(decode_utf8(s.text), b);
    lemma_units_positive(decode_utf8(s.text.subrange(0, a)));
    lemma_units_positive(decode_utf8(s.text.subrange(0, b)));
}

proof fn lemma_units_positive(s: Seq<char>)
    ensures
        unit_count(s) >= 0,
    decreases s.len(),
{
    if s.len() > 0 {
        lemma_units_positive(s.drop_last());
    }
}

/// What is typed while the palette is up goes to the palette, and while the find bar has the
/// keyboard to the query; the note stays as it is either way.
pub proof fn law_typing_elsewhere_leaves_the_note(
    s: State,
    range: Option<(usize, usize)>,
    text: Seq<char>,
    now: u64,
)
    requires
        !editing(s),
    ensures
        ({
            let t = typing(s, range, text, now);
            &&& t.text == s.text && t.start == s.start && t.end == s.end && t.marked == s.marked
            &&& t.saving == s.saving && t.killed == s.killed
            &&& typing_edit(s, range, text) is None
            &&& s.panels.palette matches Some(p) ==> text.len() > 0 && !text.contains('\n') ==> (
            t.panels.palette matches Some(q) && q.query == p.query + text && q.selected == 0)
            &&& s.panels.palette is Some && (text.len() == 0 || text.contains('\n')) ==> t == s
            &&& s.panels.palette is None && (s.panels.settings_open || s.panels.backups_open) ==> t == s
            &&& s.panels.palette is None && !s.panels.settings_open && !s.panels.backups_open
                && text.len() > 0 && !text.contains('\n') ==> t.find.search_pending
        }),
{
}

/// An editor opens on its text, with the caret where it was left, or as near before that as
/// the text allows; nothing is selected, composed, killed or laid over it.
pub proof fn law_an_editor_opens_on_its_text(text: Seq<u8>, saving: SavingState, at: int)
    requires
        valid_utf8(text),
        0 <= at,
    ensures
        ({
            let s = opened(text, saving, at);
            &&& s.text == text
            &&& s.saving == saving
            &&& s.start == s.end && s.start <= at && boundary(text, s.start)
            &&& boundary(text, at) ==> s.start == at
            &&& s.marked is None && s.killed.len() == 0 && !s.grouped && !s.reversed
            &&& editing(s)
            &&& !s.find.open && s.find.dirty_since is None && !s.find.search_pending
            &&& !s.panels.context_menu && !s.panels.recording_shortcut
        }),
{
    lemma_floor_ceil(text, at);
}

/// What could not be imported is counted and said; the rest of the state stays. An import
/// that is ready takes every panel but the palette away, and gives the note the keyboard.
pub proof fn law_an_import_is_reported(s: State, results: Seq<Option<String>>, now: u64)
    requires
        s.find.focused ==> s.find.open,
    ensures
        ({
            let t = import_noticed(s, results, now);
            &&& t == (State { saving: t.saving, ..s })
            &&& t.saving == (SavingState { notice: t.saving.notice, ..s.saving })
            &&& results.len() == imported(results).len() ==> t == s
            &&& results.len() > imported(results).len() ==> (t.saving.notice matches Some(n) && n.alert
                && !n.sticky && n.since == now)
        }),
        ({
            let t = import_ready(s);
            &&& t == (State { panels: t.panels, find: t.find, ..s })
            &&& !t.panels.settings_open && !t.panels.backups_open
            &&& t.panels.palette == s.panels.palette
            &&& !t.find.focused
        }),
{
}

/// What is said of replacements and of imports counts them, one in the singular.
pub proof fn law_counts_are_said(n: nat)
    ensures
        replaced_text(n) == "Replaced "@ + decode_utf8(decimal(n)) + (if n == 1 {
            " occurrence"@
        } else {
            " occurrence"@ + "s"@
        }),
        import_failure(n) == decode_utf8(decimal(n)) + (if n == 1 {
            " file could not be read as an image"@
        } else {
            " file"@ + "s could not be read as an image"@
        }),
{
    reveal_strlit(" occurrence");
    reveal_strlit("s");
    reveal_strlit(" occurrences");
    reveal_strlit(" file");
    reveal_strlit("s could not be read as an image");
    reveal_strlit(" files could not be read as an image");
    assert(" occurrence"@ + "s"@ =~= " occurrences"@);
    assert(" file"@ + "s could not be read as an image"@ =~= " files could not be read as an image"@);
}

/// A restored backup is named, and so is the one that holds what it replaced, if there is
/// one.
pub proof fn law_a_restored_backup_is_named(name: Seq<char>, safety: Seq<char>)
    ensures
        safety.len() == 0 ==> restored_text(name, safety) == "Restored "@ + name + "."@,
        safety.len() > 0 ==> restored_text(name, safety) == "Restored "@ + name
            + ". The note as it was is backed up as "@ + safety + "."@,
{
}

/// What an input method composes with the keyboard elsewhere leaves the note as it is: with
/// the find bar it searches, and under a panel it does nothing.
pub proof fn law_composing_elsewhere_leaves_the_note(
    s: State,
    range: Option<(usize, usize)>,
    text: Seq<char>,
    selected: Option<(usize, usize)>,
    now: u64,
)
    requires
        !editing(s),
    ensures
        ({
            let t = composing(s, range, text, selected, now);
            let panel = s.panels.palette is Some || s.panels.settings_open || s.panels.backups_open;
            &&& t.text == s.text && t.start == s.start && t.end == s.end && t.marked == s.marked
            &&& t.saving == s.saving
            &&& composing_edit(s, range, text, selected) is None
            &&& panel ==> t == s
            &&& !panel ==> t.find.search_pending
        }),
{
}

} // verus!
