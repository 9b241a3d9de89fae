//! What the commands do to the text, said of the bytes themselves.

use vstd::prelude::*;
use vstd::utf8::*;

use crate::app::clipboard::{clip_range, cutting, cutting_edit};
use crate::app::input::{composing, typing, typing_edit};
use crate::app::lists::{carrying, entering};
use crate::app::notes::{note_started, note_started_edit};
use crate::app::tick::disk_copy;
use crate::app::{caret, State};
use crate::ascii::{DASH, LOWER_X, NEWLINE, SPACE, UPPER_X};
use crate::lines::{lemma_line, lemma_line_boundaries, lemma_line_of, line, line_end, line_of, line_start};
use crate::fences::{fence_flags, open_before};
use crate::markdown::blanks_end;
use crate::markdown::carry::{structure, Carry};
use crate::markdown::items::{
    law_enter_carries_the_indentation_on, law_enter_carries_the_item_on,
    law_enter_keeps_a_line_that_says_something, law_enter_leaves_an_empty_item, marker_byte, next_mark,
    says_something,
};
use crate::markdown::scan::lemma_run_is;
use crate::markdown::shapes::{blanks, item_mark, lemma_ascii_valid, task_box};
use crate::markdown::words::word_byte;
use crate::note::laws::{contents, law_new_note_leaves_the_rest};
use crate::note::store::LoadOutcome;
use crate::note::{lemma_floor_ceil, new_block_prefix};
use crate::session::{resolution, resolved, Resolve, SavingState};
use crate::text::{boundary, bytes, lemma_string_ends};

verus! {

broadcast use vstd::seq::group_seq_axioms;

/// The keyboard is in the note: no panel is up, and the find bar does not have it.
pub open spec fn editing(s: State) -> bool {
    &&& !s.panels.settings_open
    &&& !s.panels.backups_open
    &&& s.panels.palette is None
    &&& !s.find.focused
}

/// The text is UTF-8, no longer than a machine word counts, and the selection's ends
/// lie in it between characters.
pub open spec fn well_placed(s: State) -> bool {
    &&& valid_utf8(s.text)
    &&& s.text.len() <= usize::MAX
    &&& boundary(s.text, s.start)
    &&& boundary(s.text, s.end)
}

/// `b` with `with` put between its first `from` bytes and those from `to` on.
pub open spec fn put_between(b: Seq<u8>, from: int, to: int, with: Seq<u8>) -> Seq<u8> {
    b.subrange(0, from) + with + b.subrange(to, b.len() as int)
}

/// Typing puts the text in place of the selection, and the caret behind it; nothing
/// else of the note changes.
pub proof fn law_typing_replaces_the_selection(s: State, text: Seq<char>, now: u64)
    requires
        well_placed(s),
        editing(s),
        s.marked is None,
        s.start <= s.end,
    ensures
        ({
            let t = typing(s, None, text, now);
            &&& t.text == put_between(s.text, s.start, s.end, bytes(text))
            &&& t.start == s.start + bytes(text).len()
            &&& t.end == t.start
            &&& t.marked is None
            &&& t.saving.dirty_since == Some(now)
            &&& typing_edit(s, None, text) matches Some(e) && e.start == s.start && e.removed
                == s.text.subrange(s.start, s.end) && e.inserted == bytes(text) && e.before == (
                s.start,
                s.end,
            ) && e.after == (t.start, t.end)
        }),
{
    lemma_floor_ceil(s.text, s.start);
    lemma_floor_ceil(s.text, s.end);
}

/// Typing over a range of bytes puts the text there, wherever the selection is.
pub proof fn law_typing_replaces_its_range(
    s: State,
    from: usize,
    to: usize,
    text: Seq<char>,
    now: u64,
)
    requires
        well_placed(s),
        editing(s),
        from <= to,
        boundary(s.text, from as int),
        boundary(s.text, to as int),
    ensures
        ({
            let t = typing(s, Some((from, to)), text, now);
            &&& t.text == put_between(s.text, from as int, to as int, bytes(text))
            &&& t.start == from + bytes(text).len()
            &&& t.end == t.start
            &&& typing_edit(s, Some((from, to)), text) matches Some(e) && e.start == from
                && e.removed == s.text.subrange(from as int, to as int) && e.inserted == bytes(text)
        }),
{
    lemma_floor_ceil(s.text, from as int);
    lemma_floor_ceil(s.text, to as int);
}

/// While a composition is under way, typing takes its place.
pub proof fn law_typing_ends_the_composition(
    s: State,
    from: usize,
    to: usize,
    text: Seq<char>,
    now: u64,
)
    requires
        well_placed(s),
        editing(s),
        s.marked == Some((from, to)),
        from <= to,
        boundary(s.text, from as int),
        boundary(s.text, to as int),
    ensures
        ({
            let t = typing(s, None, text, now);
            &&& t.text == put_between(s.text, from as int, to as int, bytes(text))
            &&& t.marked is None
        }),
{
    lemma_floor_ceil(s.text, from as int);
    lemma_floor_ceil(s.text, to as int);
}

// ---------------------------------------------------------------------------
// Notes
// ---------------------------------------------------------------------------
/// A new note goes on top, wherever the caret is: an empty first line, a rule, and
/// then the text there was. The caret is in the new note, and so the notes are an
/// empty one followed by those there were. An empty document is an empty note
/// already.
pub proof fn law_a_new_note_goes_on_top(s: State, now: u64)
    requires
        well_placed(s),
        editing(s),
    ensures
        ({
            let t = note_started(s, now);
            let rule = seq![NEWLINE, DASH, DASH, DASH, NEWLINE];
            &&& t.start == 0
            &&& t.end == 0
            &&& s.text.len() == 0 ==> t.text == s.text && note_started_edit(s) is None
            &&& s.text.len() > 0 ==> {
                &&& t.text == rule + s.text
                &&& t.text.subrange(rule.len() as int, t.text.len() as int) == s.text
                &&& contents(t.text) == seq![Seq::<u8>::empty()] + contents(s.text)
                &&& t.marked is None
                &&& note_started_edit(s) matches Some(e) && e.start == 0 && e.removed.len() == 0
                    && e.inserted == rule
            }
        }),
{
    let rule = seq![NEWLINE, DASH, DASH, DASH, NEWLINE];
    assert(new_block_prefix() =~= rule);
    let t = note_started(s, now);
    if s.text.len() > 0 {
        law_new_note_leaves_the_rest(s.text);
        assert(t.text =~= rule + s.text);
        assert(t.text.subrange(rule.len() as int, t.text.len() as int) =~= s.text);
    }
}

// ---------------------------------------------------------------------------
// The file
// ---------------------------------------------------------------------------
/// A file that reads as text and does not hold what the buffer holds is never taken
/// for the buffer's own: with nothing unsaved it is shown, and with unsaved edits it
/// is put aside first. The file is taken as saved exactly where the two hold the same
/// bytes, and a file that cannot be read decides nothing.
pub proof fn law_another_text_is_never_taken_as_saved(b: Seq<u8>, loaded: LoadOutcome, dirty: bool)
    ensures
        resolution(disk_copy(b, loaded), dirty) == Resolve::Adopt <==> (loaded matches LoadOutcome::Loaded(
            note,
        ) && note@ == b),
        resolution(disk_copy(b, loaded), dirty) == Resolve::Reload <==> (loaded matches LoadOutcome::Loaded(
            note,
        ) && note@ != b && !dirty),
        resolution(disk_copy(b, loaded), dirty) == Resolve::BackUp <==> (loaded matches LoadOutcome::Loaded(
            note,
        ) && note@ != b && dirty),
        resolution(disk_copy(b, loaded), dirty) == Resolve::Restamp <==> !(loaded is Loaded),
{
}

/// Deciding about a file leaves everything that saving keeps track of as it was, unless
/// the file holds what the buffer holds: only then is no save owed any more.
pub proof fn law_unsaved_edits_stay_owed(s: SavingState, b: Seq<u8>, loaded: LoadOutcome)
    ensures
        !(loaded matches LoadOutcome::Loaded(note) && note@ == b) ==> resolved(s, disk_copy(b, loaded))
            == s,
        (loaded matches LoadOutcome::Loaded(note) && note@ == b) ==> {
            let t = resolved(s, disk_copy(b, loaded));
            &&& t.dirty_since is None
            &&& t == (SavingState { dirty_since: t.dirty_since, ..s })
        },
{
}

// ---------------------------------------------------------------------------
// Cut and copy
// ---------------------------------------------------------------------------
/// What is copied is the selection, whichever end of it the caret is at; and with
/// nothing selected, the caret's line with its newline.
pub proof fn law_copy_takes_the_selection(s: State)
    requires
        well_placed(s),
        editing(s),
    ensures
        s.start < s.end ==> clip_range(s) == Some((s.start as usize, s.end as usize)),
        s.start >= s.end ==> (clip_range(s) matches Some((from, to)) ==> {
            &&& from <= caret(s) <= to <= s.text.len()
            &&& from < to
            &&& from > 0 ==> s.text[from - 1] == NEWLINE
            &&& to < s.text.len() ==> s.text[to - 1] == NEWLINE
            &&& forall|k: int| from <= k < to - 1 ==> #[trigger] s.text[k] != NEWLINE
        }),
{
    if s.start >= s.end && clip_range(s) is Some {
        let l = line_of(s.text, caret(s));
        lemma_line_of(s.text, caret(s));
        lemma_line(s.text, l);
        if l + 1 < crate::lines::line_count(s.text) {
            lemma_line(s.text, l + 1);
        }
    }
}

/// What is cut is what the edit takes out, and nothing else goes: the selection where
/// there is one, and otherwise the caret's line. Nothing is put in its place.
pub proof fn law_cut_takes_out_what_it_hands_out(s: State, now: u64)
    requires
        well_placed(s),
        editing(s),
        s.marked is None || s.start >= s.end,
        clip_range(s) is Some,
    ensures
        ({
            let (from, to) = clip_range(s)->0;
            let t = cutting(s, now);
            &&& from <= to <= s.text.len()
            &&& t.text == put_between(s.text, from as int, to as int, Seq::empty())
            &&& t.start == from
            &&& t.end == from
            &&& cutting_edit(s) matches Some(e) && e.start == from && e.removed == s.text.subrange(
                from as int,
                to as int,
            ) && e.inserted.len() == 0
        }),
{
    lemma_string_ends(Seq::empty());
    assert(bytes(Seq::empty()) =~= Seq::empty());
    if s.start < s.end {
        law_typing_replaces_the_selection(s, Seq::empty(), now);
    } else {
        let l = line_of(s.text, caret(s));
        let (from, to) = clip_range(s)->0;
        lemma_line_of(s.text, caret(s));
        lemma_line(s.text, l);
        lemma_line_boundaries(s.text, l);
        if l + 1 < crate::lines::line_count(s.text) {
            lemma_line(s.text, l + 1);
            lemma_line_boundaries(s.text, l + 1);
        }
        law_typing_replaces_its_range(s, from, to, Seq::empty(), now);
    }
}

// ---------------------------------------------------------------------------
// Enter
// ---------------------------------------------------------------------------
/// With nothing selected and nothing being composed, on a line that says something
/// beside its markers, Enter only inserts: a newline and the markers it carries over.
/// What stood before the caret and what stood behind it is there as it was, and the
/// caret is between the two.
pub proof fn law_enter_only_inserts(s: State, now: u64)
    requires
        well_placed(s),
        editing(s),
        s.marked is None,
        s.start == s.end,
        says_something(line(s.text, line_of(s.text, s.end))),
    ensures
        ({
            let t = typing(s, entering(s).0, entering(s).1, now);
            let p = t.text.subrange(s.end, t.end);
            &&& s.end < t.end
            &&& t.text == put_between(s.text, s.end, s.end, p)
            &&& t.start == t.end
            &&& p[0] == NEWLINE
            &&& forall|k: int| 1 <= k < p.len() ==> marker_byte(#[trigger] p[k])
        }),
{
    let l = line_of(s.text, s.end);
    lemma_line_of(s.text, s.end);
    lemma_line(s.text, l);
    lemma_line_boundaries(s.text, l);
    crate::text::lemma_subrange_valid(s.text, line_start(s.text, l), line_end(s.text, l));
    let b = line(s.text, l);
    law_enter_keeps_a_line_that_says_something(b, s.end - line_start(s.text, l));
    crate::app::lines::lemma_newline_valid();
    let with: Seq<u8> = match carrying(s) {
        Some(Carry::Next(prefix)) => seq![NEWLINE] + prefix,
        _ => seq![NEWLINE],
    };
    assert forall|k: int| 0 <= k < with.len() implies (#[trigger] with[k]) < 128 by {
        if k > 0 {
            assert(marker_byte(with[k]));
        }
    }
    lemma_ascii_valid(with);
    decode_utf8_encode_utf8(with);
    assert(bytes(entering(s).1) == with);
    law_typing_replaces_the_selection(s, entering(s).1, now);
    let t = typing(s, entering(s).0, entering(s).1, now);
    assert(t.text.subrange(s.end, t.end) =~= with);
}

/// On a line that starts with a letter Enter inserts a newline and nothing else, and so
/// it does wherever there is a selection, which the newline takes the place of, and
/// inside a fenced code block.
pub proof fn law_enter_just_breaks_the_line(s: State, now: u64)
    requires
        well_placed(s),
        editing(s),
        s.marked is None,
        s.start <= s.end,
        ({
            let b = line(s.text, line_of(s.text, caret(s)));
            ||| s.start < s.end
            ||| open_before(fence_flags(s.text), line_of(s.text, caret(s)))
            ||| b.len() == 0
            ||| word_byte(b[0]) && !(0x30 <= b[0] <= 0x39)
        }),
    ensures
        ({
            let t = typing(s, entering(s).0, entering(s).1, now);
            &&& t.text == put_between(s.text, s.start, s.end, seq![NEWLINE])
            &&& t.start == s.start + 1
            &&& t.end == s.start + 1
        }),
{
    let l = line_of(s.text, caret(s));
    let b = line(s.text, l);
    lemma_line_of(s.text, caret(s));
    lemma_line(s.text, l);
    lemma_line_boundaries(s.text, l);
    crate::text::lemma_subrange_valid(s.text, line_start(s.text, l), line_end(s.text, l));
    crate::app::lines::lemma_newline_valid();
    if s.start >= s.end && !open_before(fence_flags(s.text), l) {
        if b.len() > 0 {
            law_enter_carries_the_indentation_on(Seq::empty(), b, caret(s) - line_start(s.text, l));
            assert(Seq::<u8>::empty() + b =~= b);
        } else {
            lemma_run_is(b, 0, 0, SPACE);
            assert(structure(b) is None);
            assert(blanks_end(b, 0) == 0);
        }
    }
    law_typing_replaces_the_selection(s, "\n"@, now);
}

/// Behind the bullet of an item that has text, Enter inserts a newline and the next item's
/// bullet, at the same indentation and counted up where it is a number; where the item is
/// a task, an unticked box too. The caret is behind them.
pub proof fn law_enter_starts_the_next_item(
    s: State,
    x: Seq<u8>,
    m: Seq<u8>,
    tick: Option<u8>,
    rest: Seq<u8>,
    now: u64,
)
    requires
        well_placed(s),
        editing(s),
        s.marked is None,
        s.start == s.end,
        blanks(x),
        item_mark(m),
        tick matches Some(c) ==> c == SPACE || c == LOWER_X || c == UPPER_X,
        valid_utf8(rest),
        rest.len() > 0,
        word_byte(rest[0]),
        line(s.text, line_of(s.text, s.end)) == x + m + seq![SPACE] + (if tick is Some {
            task_box(tick->0) + rest
        } else {
            rest
        }),
        !open_before(fence_flags(s.text), line_of(s.text, s.end)),
        s.end - line_start(s.text, line_of(s.text, s.end)) >= x.len() + m.len() + 1 + (if tick is Some {
            4int
        } else {
            0
        }),
    ensures
        ({
            let t = typing(s, entering(s).0, entering(s).1, now);
            let next = x + next_mark(m) + seq![SPACE] + (if tick is Some {
                task_box(SPACE)
            } else {
                Seq::empty()
            });
            &&& t.text == put_between(s.text, s.end, s.end, seq![NEWLINE] + next)
            &&& t.start == s.end + 1 + next.len()
            &&& t.end == t.start
        }),
{
    let l = line_of(s.text, s.end);
    let at = s.end - line_start(s.text, l);
    lemma_line_of(s.text, s.end);
    lemma_line(s.text, l);
    law_enter_carries_the_item_on(x, m, tick, rest, at);
    let next = x + next_mark(m) + seq![SPACE] + (if tick is Some {
        task_box(SPACE)
    } else {
        Seq::empty()
    });
    let prefix = match carrying(s) {
        Some(Carry::Next(prefix)) => prefix,
        _ => Seq::empty(),
    };
    assert(prefix =~= next);
    let with = seq![NEWLINE] + next;
    lemma_next_mark_ascii(x, m);
    let bullet = x + next_mark(m) + seq![SPACE];
    assert forall|k: int| 0 <= k < with.len() implies (#[trigger] with[k]) < 128 by {
        if 0 < k <= bullet.len() {
            assert(with[k] == bullet[k - 1]);
        }
    }
    lemma_ascii_valid(with);
    decode_utf8_encode_utf8(with);
    assert(bytes(entering(s).1) == with);
    law_typing_replaces_the_selection(s, entering(s).1, now);
}

/// A bullet is ASCII.
proof fn lemma_next_mark_ascii(x: Seq<u8>, m: Seq<u8>)
    requires
        blanks(x),
        item_mark(m),
    ensures
        ({
            let b = x + next_mark(m) + seq![SPACE];
            forall|k: int| 0 <= k < b.len() ==> (#[trigger] b[k]) < 128
        }),
{
    let next = next_mark(m);
    let b = x + next + seq![SPACE];
    let n = m.len() as int;
    if n > 1 {
        crate::decimal::lemma_value_of_decimal(crate::decimal::value(m.subrange(0, n - 1)) + 1);
    }
    assert forall|k: int| 0 <= k < next.len() implies (#[trigger] next[k]) < 128 by {
        if n > 1 && k < next.len() - 1 {
            let d = crate::decimal::decimal(crate::decimal::value(m.subrange(0, n - 1)) + 1);
            assert(next[k] == d[k]);
        }
    }
    assert forall|k: int| 0 <= k < b.len() implies (#[trigger] b[k]) < 128 by {
        if k < x.len() {
            assert(crate::markdown::scan::space(x[k]));
        } else if k < x.len() + next.len() {
            assert(b[k] == next[k - x.len()]);
        }
    }
}

/// On an empty item Enter writes the line anew, further out: without its first tab or two
/// spaces, or empty where it is at the margin already. Nothing else of the note changes,
/// and the caret is at the line's end.
pub proof fn law_enter_on_an_empty_item(s: State, x: Seq<u8>, m: Seq<u8>, now: u64)
    requires
        well_placed(s),
        editing(s),
        s.start == s.end,
        blanks(x),
        item_mark(m),
        line(s.text, line_of(s.text, s.end)) == x + m + seq![SPACE],
        s.end == line_end(s.text, line_of(s.text, s.end)),
        !open_before(fence_flags(s.text), line_of(s.text, s.end)),
    ensures
        ({
            let l = line_of(s.text, s.end);
            let b = x + m + seq![SPACE];
            let n = b.len() as int;
            let left = if x.len() == 0 {
                Seq::empty()
            } else if x[0] == SPACE && x.len() > 1 && x[1] == SPACE {
                b.subrange(2, n)
            } else {
                b.subrange(1, n)
            };
            let t = typing(s, entering(s).0, entering(s).1, now);
            &&& t.text == put_between(s.text, line_start(s.text, l), line_end(s.text, l), left)
            &&& t.start == line_start(s.text, l) + left.len()
            &&& t.end == t.start
        }),
{
    let l = line_of(s.text, s.end);
    let b = x + m + seq![SPACE];
    let n = b.len() as int;
    lemma_line_of(s.text, s.end);
    lemma_line(s.text, l);
    lemma_line_boundaries(s.text, l);
    law_enter_leaves_an_empty_item(x, m);
    let left = if x.len() == 0 {
        Seq::<u8>::empty()
    } else if x[0] == SPACE && x.len() > 1 && x[1] == SPACE {
        b.subrange(2, n)
    } else {
        b.subrange(1, n)
    };
    assert forall|k: int| 0 <= k < b.len() implies (#[trigger] b[k]) < 128 by {
        if k < x.len() {
            assert(crate::markdown::scan::space(x[k]));
        } else if k < x.len() + m.len() {
            assert(b[k] == m[k - x.len()]);
            if k - x.len() < m.len() - 1 {
                assert(crate::markdown::digit(m[k - x.len()]));
            }
        }
    }
    assert forall|k: int| 0 <= k < left.len() implies (#[trigger] left[k]) < 128 by {
        assert(left[k] == b[k + (n - left.len())]);
    }
    lemma_ascii_valid(left);
    decode_utf8_encode_utf8(left);
    assert(bytes(Seq::empty()) =~= Seq::empty());
    assert(bytes(entering(s).1) == left);
    law_typing_replaces_its_range(
        s,
        line_start(s.text, l) as usize,
        line_end(s.text, l) as usize,
        entering(s).1,
        now,
    );
}

// ---------------------------------------------------------------------------
// Composing
// ---------------------------------------------------------------------------
/// Text that is being composed takes the place of what was composed before it, or of the
/// selection, and is what the next composition, or typing, will take the place of. Where
/// the input method asks for no selection the caret is behind it.
pub proof fn law_composing_marks_what_it_puts_in(s: State, text: Seq<char>, now: u64)
    requires
        well_placed(s),
        editing(s),
        s.start <= s.end,
        s.marked matches Some((from, to)) ==> from <= to && boundary(s.text, from as int) && boundary(
            s.text,
            to as int,
        ),
        s.text.len() + bytes(text).len() <= usize::MAX,
    ensures
        ({
            let t = composing(s, None, text, None, now);
            let (from, to) = match s.marked {
                Some((from, to)) => (from as int, to as int),
                None => (s.start, s.end),
            };
            let n = bytes(text).len() as int;
            &&& t.text == put_between(s.text, from, to, bytes(text))
            &&& t.start == from + n && t.end == from + n
            &&& text.len() > 0 ==> t.marked == Some((from as usize, (from + n) as usize))
            &&& text.len() == 0 ==> t.marked is None
            &&& t.saving.dirty_since == Some(now)
        }),
{
    lemma_floor_ceil(s.text, s.start);
    lemma_floor_ceil(s.text, s.end);
    if let Some((from, to)) = s.marked {
        lemma_floor_ceil(s.text, from as int);
        lemma_floor_ceil(s.text, to as int);
    }
}

/// Composing twice leaves the second text, as if the first had never been.
pub proof fn law_composing_again_replaces(s: State, first: Seq<char>, second: Seq<char>, now: u64)
    requires
        well_placed(s),
        editing(s),
        s.start <= s.end,
        s.marked is None,
        first.len() > 0,
        s.text.len() + bytes(first).len() + bytes(second).len() <= usize::MAX,
    ensures
        ({
            let once = composing(s, None, first, None, now);
            let twice = composing(once, None, second, None, now);
            twice.text == put_between(s.text, s.start, s.end, bytes(second))
        }),
{
    law_composing_marks_what_it_puts_in(s, first, now);
    let once = composing(s, None, first, None, now);
    lemma_string_ends(first);
    crate::app::lemma_replaced_boundaries(s.text, s.start, s.end, bytes(first));
    crate::app::find::lemma_replaced_valid(s.text, s.start, s.end, bytes(first));
    let after = crate::text::replaced(s.text, s.start, s.end, bytes(first));
    assert(once.text =~= after);
    assert(boundary(bytes(first), 0));
    assert(boundary(after, s.start + 0));
    assert(boundary(after, s.start + bytes(first).len()));
    law_composing_marks_what_it_puts_in(once, second, now);
    let twice = composing(once, None, second, None, now);
    assert(twice.text =~= put_between(s.text, s.start, s.end, bytes(second)));
}

/// A composition that asks for a selection in its text gets it, counted from where the text
/// begins.
pub proof fn law_a_composition_selects_in_its_text(
    s: State,
    text: Seq<char>,
    a: usize,
    b: usize,
    now: u64,
)
    requires
        well_placed(s),
        editing(s),
        s.start <= s.end,
        s.marked is None,
        is_ascii_chars(text),
        a <= b <= text.len(),
    ensures
        ({
            let t = composing(s, None, text, Some((a, b)), now);
            t.start == s.start + a && t.end == s.start + b
        }),
{
    lemma_floor_ceil(s.text, s.start);
    lemma_floor_ceil(s.text, s.end);
    lemma_ascii_units(text, 0, a as int);
    lemma_ascii_units(text, 0, b as int);
    let x = text.take(a as int);
    let y = text.take(b as int);
    assert(is_ascii_chars(x));
    assert(is_ascii_chars(y));
    is_ascii_chars_encode_utf8(x);
    is_ascii_chars_encode_utf8(y);
}

proof fn lemma_ascii_units(text: Seq<char>, k: int, n: int)
    requires
        is_ascii_chars(text),
        0 <= k <= n <= text.len(),
    ensures
        crate::utf16::chars_to_reach(text, k, n) == n,
    decreases n - k,
{
    let head = text.take(k);
    assert(is_ascii_chars(head));
    lemma_ascii_count(head);
    if k < n {
        lemma_ascii_units(text, k + 1, n);
    }
}

proof fn lemma_ascii_count(text: Seq<char>)
    requires
        is_ascii_chars(text),
    ensures
        crate::utf16::unit_count(text) == text.len(),
    decreases text.len(),
{
    if text.len() > 0 {
        let front = text.drop_last();
        assert(is_ascii_chars(front));
        lemma_ascii_count(front);
        assert('\0' <= text[text.len() - 1] <= '\u{7f}');
    }
}

} // verus!
