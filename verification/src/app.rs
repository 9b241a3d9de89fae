//! The editor: one buffer of notes, a selection in it, and the commands that
//! edit it.
//!
//! Everything derived from the text — the line index, the fence state — is
//! patched with each edit, never rebuilt for one, and always says what building
//! it anew would. What only the screen knows (where a visual row ends, where a
//! word or a character as drawn begins) is handed to the commands that need it.

use vstd::prelude::*;
use vstd::string::*;
use vstd::utf8::*;

use crate::fences::{law_splice_equals_rebuild, FenceMap};
use crate::index::{count_newlines, LineIndex};
use crate::lines::{line_count, line_of};
use crate::note::{derived, floor, lemma_floor_ceil, Note};
use crate::palette::{Palette, PaletteState};
use crate::session::{touched, Saving, SavingState};
use crate::text::{boundary, byte_len, bytes, lemma_string_ends, replaced, slice};

pub mod caret;
pub mod clipboard;
pub mod delete;
pub mod deletions;
pub mod drawing;
pub mod effects;
pub mod find;
pub mod images;
pub mod input;
pub mod laws;
pub mod lines;
pub mod lists;
pub mod mouse;
pub mod notes;
pub mod panels;
pub mod pasting;
pub mod pointing;
pub mod records;
pub mod reshaping;
pub mod rows;
pub mod searching;
pub mod tick;
pub mod whole_notes;

verus! {

broadcast use {vstd::seq::group_seq_axioms, vstd::string::group_string_axioms};

/// The panels laid over the note, and the menu at the pointer.
#[derive(Clone, Debug, PartialEq, Eq)]
pub struct Panels {
    pub settings_open: bool,
    pub backups_open: bool,
    /// Whether Settings waits for the keys of a new shortcut.
    pub recording_shortcut: bool,
    pub palette: Option<Palette>,
    pub context_menu: bool,
}

/// [`Panels`] over characters.
pub struct PanelState {
    pub settings_open: bool,
    pub backups_open: bool,
    pub recording_shortcut: bool,
    pub palette: Option<PaletteState>,
    pub context_menu: bool,
}

impl View for Panels {
    type V = PanelState;

    open spec fn view(&self) -> PanelState {
        PanelState {
            settings_open: self.settings_open,
            backups_open: self.backups_open,
            recording_shortcut: self.recording_shortcut,
            palette: match self.palette {
                Some(p) => Some(p@),
                None => None,
            },
            context_menu: self.context_menu,
        }
    }
}

/// The find bar, but for the search itself.
#[derive(Debug, PartialEq, Eq)]
pub struct FindBar {
    pub open: bool,
    /// Whether the bar holds the keyboard.
    pub focused: bool,
    /// What was searched for when the bar last closed.
    pub last_query: String,
    /// Where the caret was when the bar opened: start, end, reversed.
    pub find_return: Option<(usize, usize, bool)>,
    /// Counts the searches asked for; only the timer of the latest may run.
    pub search_gen: u64,
    /// Whether a search waits for the typing to settle.
    pub search_pending: bool,
    /// When the note was last edited under the open bar.
    pub dirty_since: Option<u64>,
    /// Whether only the note the caret is in is searched.
    pub note_only: bool,
}

/// [`FindBar`] over characters.
pub struct FindState {
    pub open: bool,
    pub focused: bool,
    pub last_query: Seq<char>,
    pub find_return: Option<(usize, usize, bool)>,
    pub search_gen: u64,
    pub search_pending: bool,
    pub dirty_since: Option<u64>,
    pub note_only: bool,
}

impl View for FindBar {
    type V = FindState;

    open spec fn view(&self) -> FindState {
        FindState {
            open: self.open,
            focused: self.focused,
            last_query: self.last_query@,
            find_return: self.find_return,
            search_gen: self.search_gen,
            search_pending: self.search_pending,
            dirty_since: self.dirty_since,
            note_only: self.note_only,
        }
    }
}

/// The editor.
pub struct NoteApp {
    note: Note,
    index: LineIndex,
    fences: FenceMap,
    /// The selection; the caret is one of its ends.
    start: usize,
    end: usize,
    /// Whether the caret is at the start of the selection.
    reversed: bool,
    /// The text an input method is composing.
    marked: Option<(usize, usize)>,
    /// What the last kill took.
    kill_ring: String,
    /// Counts the edits, so that what was drawn from an older text is told apart.
    revision: u64,
    /// Whether the next edit may join the undo group of the one before it.
    grouped: bool,
    pub saving: Saving,
    pub panels: Panels,
    pub find: FindBar,
}

/// What an editor holds.
pub struct State {
    pub text: Seq<u8>,
    pub start: int,
    pub end: int,
    pub reversed: bool,
    pub marked: Option<(usize, usize)>,
    pub killed: Seq<u8>,
    pub revision: u64,
    pub grouped: bool,
    pub saving: SavingState,
    pub panels: PanelState,
    pub find: FindState,
}

impl View for NoteApp {
    type V = State;

    closed spec fn view(&self) -> State {
        State {
            text: self.note@,
            start: self.start as int,
            end: self.end as int,
            reversed: self.reversed,
            marked: self.marked,
            killed: bytes(self.kill_ring@),
            revision: self.revision,
            grouped: self.grouped,
            saving: self.saving@,
            panels: self.panels@,
            find: self.find@,
        }
    }
}

/// One edit, as undo keeps it and as the rows on screen are told of it.
#[derive(Debug, PartialEq, Eq)]
pub struct Edit {
    pub start: usize,
    pub removed: String,
    pub inserted: String,
    /// The selection before, and after.
    pub before: (usize, usize),
    pub after: (usize, usize),
    /// Whether it may join the undo group of the edit before it.
    pub joins: bool,
    /// The rows `first..until` went, and `count` rows took their place; `None`
    /// where every row is to be drawn anew.
    pub rows: Option<(usize, usize, usize)>,
}

/// An [`Edit`] over bytes.
pub struct EditState {
    pub start: int,
    pub removed: Seq<u8>,
    pub inserted: Seq<u8>,
    pub before: (int, int),
    pub after: (int, int),
    pub joins: bool,
    pub rows: Option<(int, int, int)>,
}

impl View for Edit {
    type V = EditState;

    open spec fn view(&self) -> EditState {
        EditState {
            start: self.start as int,
            removed: bytes(self.removed@),
            inserted: bytes(self.inserted@),
            before: (self.before.0 as int, self.before.1 as int),
            after: (self.after.0 as int, self.after.1 as int),
            joins: self.joins,
            rows: match self.rows {
                Some((first, until, count)) => Some((first as int, until as int, count as int)),
                None => None,
            },
        }
    }
}

/// The rows that go when `with` takes the place of `from..to`, and how many come.
pub open spec fn rows_of(b: Seq<u8>, from: int, to: int, with: Seq<u8>) -> (int, int, int) {
    let first = line_of(b, from);
    (first, first + line_count(b.subrange(from, to)), line_count(with) as int)
}

/// The count after `n`.
pub open spec fn counted(n: u64) -> u64 {
    if n == u64::MAX {
        0
    } else {
        (n + 1) as u64
    }
}

/// `s` with `with` in place of the bytes `from..to`, the selection as it was.
pub open spec fn spliced_state(s: State, from: int, to: int, with: Seq<u8>, now: u64) -> State {
    State {
        text: replaced(s.text, from, to, with),
        revision: counted(s.revision),
        saving: touched(s.saving, now),
        find: FindState {
            dirty_since: if s.find.open {
                Some(now)
            } else {
                s.find.dirty_since
            },
            ..s.find
        },
        ..s
    }
}

/// `s` after an edit that undo keeps, with the selection `start..end` and no
/// composition.
pub open spec fn edited(
    s: State,
    from: int,
    to: int,
    with: Seq<u8>,
    start: int,
    end: int,
    now: u64,
) -> State {
    State { start, end, marked: None, grouped: true, ..spliced_state(s, from, to, with, now) }
}

/// The record of that edit.
pub open spec fn record_of(s: State, from: int, to: int, with: Seq<u8>, start: int, end: int) -> EditState {
    EditState {
        start: from,
        removed: s.text.subrange(from, to),
        inserted: with,
        before: (s.start, s.end),
        after: (start, end),
        joins: s.grouped,
        rows: Some(rows_of(s.text, from, to, with)),
    }
}

/// `s` with its undo group closed: the next edit starts another.
pub open spec fn ungrouped(s: State) -> State {
    State { grouped: false, ..s }
}

/// Where the caret is.
pub open spec fn caret(s: State) -> int {
    if s.reversed {
        s.start
    } else {
        s.end
    }
}

/// Whether a panel is laid over the note.
pub open spec fn modal(s: State) -> bool {
    s.panels.settings_open || s.panels.backups_open || s.panels.palette is Some
}

/// Who a command reached as a menu key equivalent is for: such a command does
/// not consult the key context, so it has to ask for itself.
#[derive(Clone, Copy, Debug, PartialEq, Eq, Structural)]
pub enum Holder {
    /// A panel is up: no command edits the note behind it.
    Panel,
    /// The find bar has the keyboard.
    Query,
    /// The note has it.
    Note,
}

/// Who has the keyboard.
pub open spec fn holder(s: State) -> Holder {
    if modal(s) {
        Holder::Panel
    } else if s.find.focused {
        Holder::Query
    } else {
        Holder::Note
    }
}

/// An editor as it opens.
pub open spec fn opened(text: Seq<u8>, saving: SavingState, caret: int) -> State {
    State {
        text,
        start: floor(text, caret),
        end: floor(text, caret),
        reversed: false,
        marked: None,
        killed: Seq::empty(),
        revision: 0,
        grouped: false,
        saving,
        panels: PanelState {
            settings_open: false,
            backups_open: false,
            recording_shortcut: false,
            palette: None,
            context_menu: false,
        },
        find: FindState {
            open: false,
            focused: false,
            last_query: Seq::empty(),
            find_return: None,
            search_gen: 0,
            search_pending: false,
            dirty_since: None,
            note_only: false,
        },
    }
}

/// The record in an optional edit.
pub open spec fn kept(r: Option<Edit>) -> Option<EditState> {
    match r {
        Some(e) => Some(e@),
        None => None,
    }
}

/// What surrounds an edit keeps its character boundaries, and so does what was
/// put in.
pub proof fn lemma_replaced_boundaries(b: Seq<u8>, from: int, to: int, with: Seq<u8>)
    requires
        valid_utf8(b),
        valid_utf8(with),
        boundary(b, from),
        boundary(b, to),
        from <= to,
    ensures
        forall|p: int| 0 <= p <= from && boundary(b, p) ==> #[trigger] boundary(replaced(b, from, to, with), p),
        forall|p: int|
            0 <= p <= with.len() && boundary(with, p) ==> #[trigger] boundary(
                replaced(b, from, to, with),
                from + p,
            ),
        forall|p: int|
            to <= p <= b.len() && boundary(b, p) ==> #[trigger] boundary(
                replaced(b, from, to, with),
                p - to + from + with.len(),
            ),
{
    let after = replaced(b, from, to, with);
    if with.len() > 0 {
        crate::text::lemma_first_byte(with);
    }
    assert forall|p: int| 0 <= p <= from && boundary(b, p) implies #[trigger] boundary(after, p) by {
        if p < after.len() {
            if p < from {
                assert(after[p] == b[p]);
            } else if with.len() > 0 {
                assert(after[p] == with[0]);
            } else {
                assert(after[p] == b[to]);
            }
        }
    }
    assert forall|p: int| 0 <= p <= with.len() && boundary(with, p) implies #[trigger] boundary(
        after,
        from + p,
    ) by {
        if from + p < after.len() {
            if p < with.len() {
                assert(after[from + p] == with[p]);
            } else {
                assert(after[from + p] == b[to]);
            }
        }
    }
    assert forall|p: int| to <= p <= b.len() && boundary(b, p) implies #[trigger] boundary(
        after,
        p - to + from + with.len(),
    ) by {
        if p < b.len() {
            assert(after[p - to + from + with.len()] == b[p]);
        }
    }
}

impl NoteApp {
    /// The line index and the fence state are those of the text, and the
    /// selection's ends lie in it, between characters. An input method may hand
    /// them over in either order; only where they are in order is anything selected.
    pub closed spec fn wf(&self) -> bool {
        &&& derived(self.note@, &self.index, &self.fences)
        &&& boundary(self.note@, self.start as int)
        &&& boundary(self.note@, self.end as int)
    }

    /// What a well-formed editor's selection is like.
    pub proof fn lemma_wf(&self)
        requires
            self.wf(),
        ensures
            valid_utf8(self@.text),
            0 <= self@.start <= self@.text.len(),
            0 <= self@.end <= self@.text.len(),
            self@.text.len() <= usize::MAX,
            boundary(self@.text, self@.start),
            boundary(self@.text, self@.end),
            boundary(self@.text, 0),
            boundary(self@.text, self@.text.len() as int),
    {
        self.note.lemma_utf8();
        self.index.lemma_line_count(self.note@);
    }

    /// An editor on `note`, the caret at `caret`, which may come from an earlier
    /// session with another text.
    pub fn new(note: Note, saving: Saving, caret: usize) -> (r: Self)
        ensures
            r.wf(),
            r@ == opened(note@, saving@, caret as int),
    {
        let index = LineIndex::new(note.text());
        let fences = FenceMap::new(note.text(), &index);
        let at: usize = note.clamp_offset(caret);
        let kill_ring = String::new();
        let last_query = String::new();
        proof {
            assert(kill_ring@ =~= Seq::empty());
            assert(last_query@ =~= Seq::empty());
            assert(bytes(kill_ring@) =~= Seq::empty());
        }
        NoteApp {
            note,
            index,
            fences,
            start: at,
            end: at,
            reversed: false,
            marked: None,
            kill_ring,
            revision: 0,
            grouped: false,
            saving,
            panels: Panels {
                settings_open: false,
                backups_open: false,
                recording_shortcut: false,
                palette: None,
                context_menu: false,
            },
            find: FindBar {
                open: false,
                focused: false,
                last_query,
                find_return: None,
                search_gen: 0,
                search_pending: false,
                dirty_since: None,
                note_only: false,
            },
        }
    }

    /// The text.
    pub fn text(&self) -> (r: &str)
        ensures
            r.spec_bytes() == self@.text,
    {
        self.note.text()
    }

    /// The selection: its start, its end, and whether the caret is at the start.
    pub fn selection(&self) -> (r: (usize, usize, bool))
        ensures
            r.0 == self@.start,
            r.1 == self@.end,
            r.2 == self@.reversed,
    {
        (self.start, self.end, self.reversed)
    }

    /// The text an input method is composing.
    pub fn marked(&self) -> (r: Option<(usize, usize)>)
        ensures
            r == self@.marked,
    {
        self.marked
    }

    /// How often the text has changed.
    pub fn revision(&self) -> (r: u64)
        ensures
            r == self@.revision,
    {
        self.revision
    }

    /// How many lines the text has.
    pub fn line_count(&self) -> (r: usize)
        requires
            self.wf(),
        ensures
            r == line_count(self@.text),
    {
        self.index.line_count()
    }

    /// Whether a panel is laid over the note. All are modal: while one is up, no
    /// command edits the note behind it.
    pub fn modal_open(&self) -> (r: bool)
        ensures
            r == modal(self@),
    {
        self.panels.settings_open || self.panels.backups_open || self.panels.palette.is_some()
    }

    /// Who has the keyboard.
    pub fn keyboard(&self) -> (r: Holder)
        ensures
            r == holder(self@),
    {
        if self.modal_open() {
            Holder::Panel
        } else if self.find.focused {
            Holder::Query
        } else {
            Holder::Note
        }
    }

    /// Patch what is derived from the text after an edit: `removed` used to
    /// stand at `from`, `inserted` does now. A one-character keystroke touches
    /// one row.
    fn after_edit(&mut self, from: usize, removed: &str, inserted: &str, now: u64) -> (rows: (
        usize,
        usize,
        usize,
    ))
        requires
            ({
                let b = replaced(
                    old(self).note@,
                    from as int,
                    from + inserted.spec_bytes().len(),
                    removed.spec_bytes(),
                );
                &&& from + inserted.spec_bytes().len() <= old(self).note@.len()
                &&& old(self).note@.subrange(from as int, from + inserted.spec_bytes().len())
                    == inserted.spec_bytes()
                &&& derived(b, &old(self).index, &old(self).fences)
            }),
        ensures
            derived(final(self).note@, &final(self).index, &final(self).fences),
            final(self).note == old(self).note,
            final(self)@ == (State {
                text: old(self)@.text,
                ..spliced_state(old(self)@, 0, 0, Seq::empty(), now)
            }),
            ({
                let b = replaced(
                    old(self).note@,
                    from as int,
                    from + inserted.spec_bytes().len(),
                    removed.spec_bytes(),
                );
                (rows.0 as int, rows.1 as int, rows.2 as int) == rows_of(
                    b,
                    from as int,
                    from + removed.spec_bytes().len(),
                    inserted.spec_bytes(),
                )
            }),
    {
        let ghost after = self.note@;
        let ghost gone = removed.spec_bytes();
        let ghost come = inserted.spec_bytes();
        let ghost b = replaced(after, from as int, from + come.len(), gone);
        proof {
            law_splice_equals_rebuild(b, from as int, from + gone.len(), come);
            assert(replaced(b, from as int, from + gone.len(), come) =~= after);
            assert(b.subrange(from as int, from + gone.len()) =~= gone);
            self.index.lemma_line_count(b);
            crate::lines::lemma_line_of(b, from as int);
        }
        let first: usize = self.index.line_at(from);
        let removed_lines: usize = count_newlines(removed.as_bytes());
        let inserted_lines: usize = count_newlines(inserted.as_bytes());
        self.index.splice(self.note.text(), from, removed, inserted);
        proof {
            self.index.lemma_line_count(after);
        }
        self.fences.splice(self.note.text(), &self.index, first, removed_lines, inserted_lines);
        if self.find.open {
            self.find.dirty_since = Some(now);
        }
        self.revision = if self.revision == u64::MAX {
            0
        } else {
            self.revision + 1
        };
        self.saving.touch(now);
        (first, first + removed_lines + 1, inserted_lines + 1)
    }

    /// Put `with` in place of the bytes `from..to`; what stood there, and the
    /// rows that changed. The selection is left to the caller.
    fn splice(&mut self, from: usize, to: usize, with: &str, now: u64) -> (r: (
        String,
        (usize, usize, usize),
    ))
        requires
            old(self).wf(),
            from <= to,
            boundary(old(self)@.text, from as int),
            boundary(old(self)@.text, to as int),
        ensures
            derived(final(self).note@, &final(self).index, &final(self).fences),
            final(self)@ == spliced_state(
                old(self)@,
                from as int,
                to as int,
                with.spec_bytes(),
                now,
            ),
            bytes(r.0@) == old(self)@.text.subrange(from as int, to as int),
            ((r.1).0 as int, (r.1).1 as int, (r.1).2 as int) == rows_of(
                old(self)@.text,
                from as int,
                to as int,
                with.spec_bytes(),
            ),
            final(self)@.text.len() <= usize::MAX,
    {
        let ghost b = self.note@;
        let removed = String::from_str(slice(self.note.text(), from, to));
        proof {
            self.note.lemma_utf8();
            lemma_floor_ceil(b, from as int);
            lemma_floor_ceil(b, to as int);
        }
        self.note.replace_range(from, to, with);
        let _len: usize = self.note.len();
        proof {
            let after = self.note@;
            assert(replaced(after, from as int, from + with.spec_bytes().len(), bytes(removed@)) =~= b);
            assert(after.subrange(from as int, from + with.spec_bytes().len()) =~= with.spec_bytes());
            assert(b.subrange(from as int, to as int).len() == to - from);
        }
        let rows: (usize, usize, usize) = self.after_edit(from, removed.as_str(), with, now);
        (removed, rows)
    }

    /// Put `with` in place of the bytes `from..to`, select `start..end` of the
    /// result, and say what undo has to keep.
    fn edit(&mut self, from: usize, to: usize, with: &str, start: usize, end: usize, now: u64) -> (r: Edit)
        requires
            old(self).wf(),
            from <= to,
            boundary(old(self)@.text, from as int),
            boundary(old(self)@.text, to as int),
            boundary(replaced(old(self)@.text, from as int, to as int, with.spec_bytes()), start as int),
            boundary(replaced(old(self)@.text, from as int, to as int, with.spec_bytes()), end as int),
        ensures
            final(self).wf(),
            final(self)@ == edited(
                old(self)@,
                from as int,
                to as int,
                with.spec_bytes(),
                start as int,
                end as int,
                now,
            ),
            r@ == record_of(
                old(self)@,
                from as int,
                to as int,
                with.spec_bytes(),
                start as int,
                end as int,
            ),
    {
        let before: (usize, usize) = (self.start, self.end);
        let joins = self.grouped;
        let (removed, rows) = self.splice(from, to, with, now);
        self.start = start;
        self.end = end;
        self.marked = None;
        self.grouped = true;
        Edit {
            start: from,
            removed,
            inserted: String::from_str(with),
            before,
            after: (start, end),
            joins,
            rows: Some(rows),
        }
    }

    /// The same, with the caret behind what was put in.
    fn put(&mut self, from: usize, to: usize, with: &str, now: u64) -> (r: Edit)
        requires
            old(self).wf(),
            from <= to,
            boundary(old(self)@.text, from as int),
            boundary(old(self)@.text, to as int),
        ensures
            final(self).wf(),
            ({
                let at = from + with.spec_bytes().len();
                &&& at <= usize::MAX
                &&& final(self)@ == edited(
                    old(self)@,
                    from as int,
                    to as int,
                    with.spec_bytes(),
                    at,
                    at,
                    now,
                )
                &&& r@ == record_of(old(self)@, from as int, to as int, with.spec_bytes(), at, at)
            }),
    {
        let n: usize = byte_len(with);
        proof {
            self.lemma_wf();
            lemma_string_ends(with@);
            lemma_replaced_boundaries(self@.text, from as int, to as int, with.spec_bytes());
            assert(boundary(with.spec_bytes(), n as int));
        }
        let before: (usize, usize) = (self.start, self.end);
        let joins = self.grouped;
        let (removed, rows) = self.splice(from, to, with, now);
        let at: usize = from + n;
        self.start = at;
        self.end = at;
        self.marked = None;
        self.grouped = true;
        Edit {
            start: from,
            removed,
            inserted: String::from_str(with),
            before,
            after: (at, at),
            joins,
            rows: Some(rows),
        }
    }
}

} // verus!
