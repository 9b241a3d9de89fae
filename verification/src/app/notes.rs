//! Commands on whole notes: starting one, moving one, and taking over another
//! text.

use vstd::prelude::*;
use vstd::string::*;
use vstd::utf8::*;

use crate::app::caret::{moved_to, selecting};
use crate::app::lines::least;
use crate::app::{
    caret, counted, edited, holder, kept, lemma_replaced_boundaries, record_of, rows_of,
    spliced_state, ungrouped, Edit, EditState, FindState, Holder, NoteApp, PanelState, State,
};
use crate::index::LineIndex;
use crate::lines::{
    ints, lemma_line, lemma_line_of, line_count, line_end, line_of, line_start,
};
use crate::note::moves::{
    after_cut, fits, lemma_move_reorders_lines, movable, planned, BlockMove, Move,
};
use crate::note::{
    block_end, block_first, block_of, block_start, lemma_block, lemma_dividers, new_block_prefix,
    Note, NEW_BLOCK_PREFIX,
};
use crate::reports::Backup;
use crate::session::{alerting, reloaded, remarking, touched, Notice, SavingState};
use crate::text::{boundary, byte_len, bytes, lemma_string_ends, replaced};

verus! {

broadcast use {vstd::seq::group_seq_axioms, vstd::string::group_string_axioms};

/// `s` after ⌘N: a rule above everything, and the caret above the rule. An empty
/// document is an empty note already.
pub open spec fn note_started(s: State, now: u64) -> State {
    if holder(s) != Holder::Note {
        s
    } else if s.text.len() == 0 {
        moved_to(s, 0)
    } else {
        moved_to(edited(ungrouped(s), 0, 0, new_block_prefix(), 0, 0, now), 0)
    }
}

/// What undo keeps of that.
pub open spec fn note_started_edit(s: State) -> Option<EditState> {
    if holder(s) == Holder::Note && s.text.len() > 0 {
        Some(record_of(ungrouped(s), 0, 0, new_block_prefix(), 0, 0))
    } else {
        None
    }
}

/// `s` after the move `m`, with the caret `within` bytes into the moved note.
pub open spec fn block_moved(s: State, m: Move, within: int, now: u64) -> State {
    let cut = spliced_state(s, m.cut_at, m.cut_at + m.cut_text.len(), Seq::empty(), now);
    let pasted = spliced_state(cut, m.insert_at, m.insert_at, m.insert_text, now);
    moved_to(State { marked: None, ..pasted }, landing(m, within))
}

/// Where the caret goes with a moved note.
pub open spec fn landing(m: Move, within: int) -> int {
    least(m.moved_to + least(within, m.insert_text.len() as int), usize::MAX as int)
}

/// What undo keeps of a move: the removal, and the insertion that goes with it.
pub open spec fn block_moved_edits(s: State, m: Move, within: int) -> (EditState, EditState) {
    let cut_end = m.cut_at + m.cut_text.len();
    let at = landing(m, within);
    (
        EditState {
            start: m.cut_at,
            removed: m.cut_text,
            inserted: Seq::empty(),
            before: (s.start, s.end),
            after: (m.cut_at, m.cut_at),
            joins: false,
            rows: Some(rows_of(s.text, m.cut_at, cut_end, Seq::empty())),
        },
        EditState {
            start: m.insert_at,
            removed: Seq::empty(),
            inserted: m.insert_text,
            before: (m.cut_at, m.cut_at),
            after: (at, at),
            joins: true,
            rows: Some(rows_of(after_cut(s.text, m), m.insert_at, m.insert_at, m.insert_text)),
        },
    )
}

/// How far into its note the caret is.
pub open spec fn within_note(s: State) -> int {
    let start = block_start(s.text, block_of(s.text, caret(s)));
    if caret(s) > start {
        caret(s) - start
    } else {
        0
    }
}

/// `s` after note `idx` went in front of note `before`, if there is such a move, with the
/// caret `within` bytes into it.
pub open spec fn note_carried_up(s: State, idx: int, before: int, within: int, now: u64) -> State {
    if movable(s.text, idx, before) {
        block_moved(s, planned(s.text, idx, before), within, now)
    } else {
        s
    }
}

/// `s` after the caret's note went to the top.
pub open spec fn note_brought_up(s: State, now: u64) -> State {
    if holder(s) == Holder::Note {
        note_carried_up(s, block_of(s.text, caret(s)), 0, within_note(s), now)
    } else {
        s
    }
}

/// `s` after the caret's note went in front of the one above it.
pub open spec fn note_moved_up(s: State, now: u64) -> State {
    if holder(s) == Holder::Note {
        note_carried_up(
            s,
            block_of(s.text, caret(s)),
            block_of(s.text, caret(s)) - 1,
            within_note(s),
            now,
        )
    } else {
        s
    }
}

/// `s` after undo or redo made `text` of its text, with what it asks for selected.
pub open spec fn history_taken(s: State, text: Seq<u8>, one_place: bool, selection: (int, int), now: u64) -> State {
    let done = if one_place {
        State {
            text,
            revision: counted(s.revision),
            saving: touched(s.saving, now),
            find: FindState {
                dirty_since: if s.find.open {
                    Some(now)
                } else {
                    s.find.dirty_since
                },
                ..s.find
            },
            ..s
        }
    } else {
        restructured(s, text, now)
    };
    ungrouped(State { marked: None, ..selecting(done, selection.0, selection.1) })
}

/// The records in an optional pair of edits.
pub open spec fn kept_pair(r: Option<(Edit, Edit)>) -> Option<(EditState, EditState)> {
    match r {
        Some((a, b)) => Some((a@, b@)),
        None => None,
    }
}

/// The find bar put away, its query kept so that opening it again goes on with
/// the search.
pub open spec fn find_dismissed(f: FindState, query: Seq<char>) -> FindState {
    FindState {
        open: false,
        focused: false,
        last_query: if f.open {
            query
        } else {
            f.last_query
        },
        find_return: None,
        search_pending: false,
        dirty_since: None,
        ..f
    }
}

/// `s` with the text `text`, everything derived anew.
pub open spec fn restructured(s: State, text: Seq<u8>, now: u64) -> State {
    State {
        text,
        marked: None,
        revision: counted(s.revision),
        saving: touched(s.saving, now),
        find: FindState { dirty_since: None, ..s.find },
        ..s
    }
}

/// `s` after it took over `text` from the disk: the caret at the top, and nothing
/// owed a save.
pub open spec fn adopted(s: State, text: Seq<u8>, now: u64) -> State {
    State {
        start: 0,
        end: 0,
        reversed: false,
        grouped: false,
        saving: reloaded(s.saving, now),
        ..restructured(s, text, now)
    }
}

/// What is said when a backup was put back.
pub open spec fn restored_text(name: Seq<char>, safety: Seq<char>) -> Seq<char> {
    if safety.len() == 0 {
        "Restored "@ + name + "."@
    } else {
        "Restored "@ + name + ". The note as it was is backed up as "@ + safety + "."@
    }
}

/// `s` after a backup with the text `text` was put back. What was on screen is
/// kept in the backup `safety`, or needed no keeping if that is empty.
pub open spec fn restored(s: State, text: Seq<u8>, name: Seq<char>, safety: Seq<char>, now: u64) -> State {
    let t = adopted(s, text, now);
    State {
        panels: PanelState { backups_open: false, ..t.panels },
        saving: SavingState {
            notice: remarking(restored_text(name, safety), now),
            ..touched(t.saving, now)
        },
        ..t
    }
}

/// `s` after a backup could not be put back, for the reason `text`.
pub open spec fn not_restored(s: State, text: Seq<char>, now: u64) -> State {
    State {
        panels: PanelState { backups_open: false, ..s.panels },
        saving: SavingState { notice: alerting(text, now), ..s.saving },
        ..s
    }
}

impl NoteApp {
    /// ⌘N: start a note at the top.
    pub fn new_note(&mut self, now: u64) -> (r: Option<Edit>)
        requires
            old(self).wf(),
        ensures
            final(self).wf(),
            final(self)@ == note_started(old(self)@, now),
            kept(r) == note_started_edit(old(self)@),
    {
        match self.keyboard() {
            Holder::Note => {},
            _ => {
                return None;
            },
        }
        if self.note.is_empty() {
            self.move_to(0);
            return None;
        }
        proof {
            self.lemma_wf();
            reveal_strlit("\n---\n");
            is_ascii_chars_encode_utf8(NEW_BLOCK_PREFIX@);
            assert(NEW_BLOCK_PREFIX.spec_bytes() =~= new_block_prefix());
            lemma_string_ends(NEW_BLOCK_PREFIX@);
            lemma_replaced_boundaries(self@.text, 0, 0, new_block_prefix());
            assert(boundary(replaced(self@.text, 0, 0, new_block_prefix()), 0));
        }
        self.break_group();
        let edit = self.edit(0, 0, NEW_BLOCK_PREFIX, 0, 0, now);
        self.move_to(0);
        Some(edit)
    }

    /// Land a note that changes places: patch what is derived from the text after
    /// each half, and put the caret back inside the note.
    fn commit_block_move(&mut self, moved: BlockMove, within: usize, now: u64) -> (r: (Edit, Edit))
        requires
            old(self).wf(),
            fits(old(self)@.text, moved@),
            old(self)@.text.subrange(moved@.cut_at, moved@.cut_at + moved@.cut_text.len())
                == moved@.cut_text,
        ensures
            final(self).wf(),
            final(self)@ == block_moved(old(self)@, moved@, within as int, now),
            (r.0@, r.1@) == block_moved_edits(old(self)@, moved@, within as int),
    {
        let ghost s = self@;
        let ghost m = moved@;
        let before: (usize, usize) = (self.start, self.end);
        let n: usize = byte_len(moved.cut_text.as_str());
        proof {
            self.lemma_wf();
            reveal_strlit("");
            assert("".spec_bytes() =~= Seq::empty());
        }
        let cut_end: usize = moved.cut_at + n;
        let (removed, cut_rows) = self.splice(moved.cut_at, cut_end, "", now);
        // The selection is set once, below; in between the caret is at the top.
        self.start = 0;
        self.end = 0;
        proof {
            self.note.lemma_utf8();
        }
        let (_nothing, paste_rows) = self.splice(
            moved.insert_at,
            moved.insert_at,
            moved.insert_text.as_str(),
            now,
        );
        let len: usize = byte_len(moved.insert_text.as_str());
        let k: usize = if within < len {
            within
        } else {
            len
        };
        let at: usize = if moved.moved_to <= usize::MAX - k {
            moved.moved_to + k
        } else {
            usize::MAX
        };
        self.marked = None;
        proof {
            self.note.lemma_utf8();
        }
        self.move_to(at);
        let inserted = String::new();
        let nothing = String::new();
        proof {
            assert(inserted@ =~= Seq::empty());
            assert(nothing@ =~= Seq::empty());
            assert(bytes(inserted@) =~= Seq::empty());
            assert(bytes(nothing@) =~= Seq::empty());
        }
        (
            Edit {
                start: moved.cut_at,
                removed,
                inserted,
                before,
                after: (moved.cut_at, moved.cut_at),
                joins: false,
                rows: Some(cut_rows),
            },
            Edit {
                start: moved.insert_at,
                removed: nothing,
                inserted: moved.insert_text,
                before: (moved.cut_at, moved.cut_at),
                after: (at, at),
                joins: true,
                rows: Some(paste_rows),
            },
        )
    }

    /// Move note `idx` to the top, putting the caret `within` bytes into it.
    pub fn promote_block(&mut self, idx: usize, within: usize, now: u64) -> (r: Option<(Edit, Edit)>)
        requires
            old(self).wf(),
        ensures
            final(self).wf(),
            ({
                let s = old(self)@;
                let m = planned(s.text, idx as int, 0);
                if movable(s.text, idx as int, 0) {
                    &&& final(self)@ == block_moved(s, m, within as int, now)
                    &&& kept_pair(r) == Some(block_moved_edits(s, m, within as int))
                } else {
                    final(self)@ == s && r is None
                }
            }),
            final(self)@ == note_carried_up(old(self)@, idx as int, 0, within as int, now),
    {
        match self.note.plan_bring_block_up(&self.index, idx) {
            Some(moved) => {
                proof {
                    lemma_move_reorders_lines(self@.text, idx as int, 0);
                }
                Some(self.commit_block_move(moved, within, now))
            },
            None => None,
        }
    }

    /// Promote the note the caret is in to the top of the document.
    pub fn bring_note_up(&mut self, now: u64) -> (r: Option<(Edit, Edit)>)
        requires
            old(self).wf(),
        ensures
            final(self).wf(),
            ({
                let s = old(self)@;
                let idx = block_of(s.text, caret(s));
                let m = planned(s.text, idx, 0);
                if holder(s) == Holder::Note && movable(s.text, idx, 0) {
                    &&& final(self)@ == block_moved(s, m, within_note(s), now)
                    &&& kept_pair(r) == Some(block_moved_edits(s, m, within_note(s)))
                } else {
                    final(self)@ == s && r is None
                }
            }),
            final(self)@ == note_brought_up(old(self)@, now),
    {
        match self.keyboard() {
            Holder::Note => {},
            _ => {
                return None;
            },
        }
        let at: usize = self.cursor_offset();
        let (idx, start) = self.note.block_at(&self.index, at);
        let within: usize = if at > start {
            at - start
        } else {
            0
        };
        self.promote_block(idx, within, now)
    }

    /// Swap the note the caret is in with the one above it.
    pub fn move_note_up(&mut self, now: u64) -> (r: Option<(Edit, Edit)>)
        requires
            old(self).wf(),
        ensures
            final(self).wf(),
            ({
                let s = old(self)@;
                let idx = block_of(s.text, caret(s));
                let m = planned(s.text, idx, idx - 1);
                if holder(s) == Holder::Note && movable(s.text, idx, idx - 1) {
                    &&& final(self)@ == block_moved(s, m, within_note(s), now)
                    &&& kept_pair(r) == Some(block_moved_edits(s, m, within_note(s)))
                } else {
                    final(self)@ == s && r is None
                }
            }),
            final(self)@ == note_moved_up(old(self)@, now),
    {
        match self.keyboard() {
            Holder::Note => {},
            _ => {
                return None;
            },
        }
        let at: usize = self.cursor_offset();
        let (idx, start) = self.note.block_at(&self.index, at);
        let within: usize = if at > start {
            at - start
        } else {
            0
        };
        match self.note.plan_move_block_up_one(&self.index, idx) {
            Some(moved) => {
                proof {
                    lemma_move_reorders_lines(self@.text, idx as int, idx - 1);
                }
                Some(self.commit_block_move(moved, within, now))
            },
            None => None,
        }
    }

    /// Put the find bar away. `query` is what it searches for.
    pub fn dismiss_find(&mut self, query: &str)
        requires
            old(self).wf(),
        ensures
            final(self).wf(),
            final(self)@ == (State {
                find: find_dismissed(old(self)@.find, query@),
                ..old(self)@
            }),
    {
        if self.find.open {
            self.find.last_query = String::from_str(query);
        }
        self.find.open = false;
        self.find.focused = false;
        self.find.dirty_since = None;
        self.find.search_pending = false;
        self.find.find_return = None;
    }

    /// Promote the note below the rule on line `sep_line`. The find bar, whose
    /// query is `query`, gets out of the way.
    pub fn promote_block_below_separator(&mut self, sep_line: usize, query: &str, now: u64) -> (r: Option<
        (Edit, Edit),
    >)
        requires
            old(self).wf(),
        ensures
            final(self).wf(),
            ({
                let s = State { find: find_dismissed(old(self)@.find, query@), ..old(self)@ };
                let idx = block_of(s.text, line_start(s.text, sep_line as int));
                let m = planned(s.text, idx, 0);
                if movable(s.text, idx, 0) {
                    &&& final(self)@ == block_moved(s, m, 0, now)
                    &&& kept_pair(r) == Some(block_moved_edits(s, m, 0))
                } else {
                    final(self)@ == s && r is None
                }
            }),
    {
        self.dismiss_find(query);
        let at: usize = self.index.line_start(sep_line);
        let (idx, _start) = self.note.block_at(&self.index, at);
        self.promote_block(idx, 0, now)
    }

    /// The bytes of the note the caret is in.
    pub fn current_note_range(&self) -> (r: (usize, usize))
        requires
            self.wf(),
        ensures
            r.0 == block_start(self@.text, block_of(self@.text, caret(self@))),
            r.1 == block_end(self@.text, block_of(self@.text, caret(self@))),
    {
        let ghost b = self@.text;
        let at: usize = self.cursor_offset();
        let (k, start) = self.note.block_at(&self.index, at);
        let boundaries = self.note.separator_line_indices();
        proof {
            self.lemma_wf();
            lemma_line_of(b, at as int);
            crate::note::lemma_dividers_prefix(b, line_of(b, at as int) + 1, line_count(b) as int);
            lemma_dividers(b);
            lemma_block(b, k as int);
            assert(ints(boundaries@).len() == boundaries@.len());
            self.index.lemma_line_count(b);
        }
        if k < boundaries.len() {
            let next: usize = boundaries[k];
            assert(ints(boundaries@)[k as int] == next);
            let first_line: usize = if k > 0 {
                assert(ints(boundaries@)[k - 1] == boundaries@[k - 1]);
                boundaries[k - 1] + 1
            } else {
                0
            };
            if first_line < next {
                proof {
                    lemma_line(b, next - 1);
                }
                (start, self.index.line_end(next - 1))
            } else {
                (start, start)
            }
        } else {
            proof {
                let first = block_first(b, k as int);
                if first < line_count(b) {
                    lemma_line(b, line_count(b) - 1);
                }
            }
            (start, self.note.len())
        }
    }

    /// Derive everything anew after the whole text was replaced.
    pub(crate) fn after_structural_change(&mut self, note: Note, now: u64)
        requires
            boundary(note@, old(self)@.start) && boundary(note@, old(self)@.end),
        ensures
            final(self).wf(),
            final(self)@ == restructured(old(self)@, note@, now),
    {
        self.note = note;
        // A composition in flight no longer names the text it was composing.
        self.marked = None;
        self.index = LineIndex::new(self.note.text());
        self.fences.rebuild(self.note.text(), &self.index);
        self.find.dirty_since = None;
        self.revision = if self.revision == u64::MAX {
            0
        } else {
            self.revision + 1
        };
        self.saving.touch(now);
    }

    /// Take over a note just read from disk. The caret and the selection go to
    /// the top: the document changed out from under them.
    pub fn adopt_reloaded_note(&mut self, note: Note, now: u64)
        requires
            old(self).wf(),
        ensures
            final(self).wf(),
            final(self)@ == adopted(old(self)@, note@, now),
    {
        self.start = 0;
        self.end = 0;
        self.reversed = false;
        self.grouped = false;
        proof {
            note.lemma_utf8();
        }
        self.after_structural_change(note, now);
        self.saving.reload(now);
    }

    /// Put a backup back: `read` is the note in it, or why it cannot be read, and
    /// `safety` what came of keeping what is on screen first. Whatever goes wrong
    /// leaves the note as it is. The note's own file still holds the old text, so
    /// the new one is owed a save. Returned is whether the backup was put back.
    pub fn restore_backup(
        &mut self,
        read: Result<Note, String>,
        safety: Backup,
        name: &str,
        now: u64,
    ) -> (r: bool)
        requires
            old(self).wf(),
        ensures
            final(self).wf(),
            ({
                let s = old(self)@;
                match (read, safety) {
                    (Err(err), _) => !r && final(self)@ == not_restored(
                        s,
                        "Could not read that backup: "@ + err@,
                        now,
                    ),
                    (Ok(_), Backup::Failed(err)) => !r && final(self)@ == not_restored(
                        s,
                        "Not restoring: the note as it stands could not be backed up first ("@
                            + err@ + ")"@,
                        now,
                    ),
                    (Ok(note), Backup::Made(kept)) => r && final(self)@ == restored(
                        s,
                        note@,
                        name@,
                        kept@,
                        now,
                    ),
                    (Ok(note), Backup::Unchanged) => r && final(self)@ == restored(
                        s,
                        note@,
                        name@,
                        Seq::empty(),
                        now,
                    ),
                }
            }),
    {
        match read {
            Err(err) => {
                let mut text = String::from_str("Could not read that backup: ");
                text.append(err.as_str());
                self.refuse_restore(text, now);
                false
            },
            Ok(note) => match safety {
                Backup::Failed(err) => {
                    let mut text = String::from_str(
                        "Not restoring: the note as it stands could not be backed up first (",
                    );
                    text.append(err.as_str());
                    text.append(")");
                    self.refuse_restore(text, now);
                    false
                },
                Backup::Made(kept) => {
                    self.take_over_backup(note, name, kept.as_str(), now);
                    true
                },
                Backup::Unchanged => {
                    let kept = String::new();
                    assert(kept@ =~= Seq::empty());
                    self.take_over_backup(note, name, kept.as_str(), now);
                    true
                },
            },
        }
    }

    /// Say why a backup is not put back.
    fn refuse_restore(&mut self, text: String, now: u64)
        requires
            old(self).wf(),
        ensures
            final(self).wf(),
            final(self)@ == not_restored(old(self)@, text@, now),
    {
        self.panels.backups_open = false;
        self.saving.notice = Some(Notice::alert(text, now));
    }

    /// Take over the note of a backup.
    fn take_over_backup(&mut self, note: Note, name: &str, safety: &str, now: u64)
        requires
            old(self).wf(),
        ensures
            final(self).wf(),
            final(self)@ == restored(old(self)@, note@, name@, safety@, now),
    {
        self.panels.backups_open = false;
        self.adopt_reloaded_note(note, now);
        self.saving.touch(now);
        let mut text = String::from_str("Restored ");
        text.append(name);
        if safety.is_empty() {
            text.append(".");
        } else {
            text.append(". The note as it was is backed up as ");
            text.append(safety);
            text.append(".");
        }
        self.saving.notice = Some(Notice::remark(text, now));
    }

    /// Open the note in another folder, in the file `target`: the note that is
    /// already there, or this one, which is then owed a save.
    pub fn settle_in_folder(&mut self, there: Option<Note>, target: &str, now: u64)
        requires
            old(self).wf(),
        ensures
            final(self).wf(),
            ({
                let s = old(self)@;
                match there {
                    Some(note) => {
                        let t = adopted(s, note@, now);
                        final(self)@ == (State {
                            saving: SavingState {
                                notice: remarking(
                                    "Now using the note already in "@ + target@ + "."@,
                                    now,
                                ),
                                ..t.saving
                            },
                            ..t
                        })
                    },
                    None => final(self)@ == (State {
                        saving: SavingState {
                            notice: remarking("The note now lives in "@ + target@ + "."@, now),
                            ..touched(s.saving, now)
                        },
                        ..s
                    }),
                }
            }),
    {
        let mut text = match there {
            Some(note) => {
                self.adopt_reloaded_note(note, now);
                String::from_str("Now using the note already in ")
            },
            None => {
                self.saving.touch(now);
                String::from_str("The note now lives in ")
            },
        };
        text.append(target);
        text.append(".");
        self.saving.notice = Some(Notice::remark(text, now));
    }

    /// Take over what undo or redo made of the text: `text` is the text now, and
    /// `span` the one place where it differs, what stood there and what does now,
    /// if there is but one. The restored state is its own boundary: typing next
    /// starts another undo group.
    pub fn after_history(
        &mut self,
        text: &str,
        span: Option<(usize, String, String)>,
        selection: (usize, usize),
        now: u64,
    )
        requires
            old(self).wf(),
            span matches Some((at, removed, inserted)) ==> {
                let b = old(self)@.text;
                let to = at + bytes(removed@).len();
                &&& boundary(b, at as int)
                &&& boundary(b, to)
                &&& b.subrange(at as int, to) == bytes(removed@)
                &&& text.spec_bytes() == replaced(b, at as int, to, bytes(inserted@))
            },
        ensures
            final(self).wf(),
            ({
                let s = old(self)@;
                let done = match span {
                    Some((at, removed, inserted)) => spliced_state(
                        s,
                        at as int,
                        at + bytes(removed@).len(),
                        bytes(inserted@),
                        now,
                    ),
                    None => restructured(s, text.spec_bytes(), now),
                };
                final(self)@ == ungrouped(
                    State {
                        marked: None,
                        ..selecting(done, selection.0 as int, selection.1 as int)
                    },
                )
            }),
            final(self)@ == history_taken(
                old(self)@,
                text.spec_bytes(),
                span is Some,
                (selection.0 as int, selection.1 as int),
                now,
            ),
            final(self)@.text == text.spec_bytes(),
    {
        match span {
            Some((at, removed, inserted)) => {
                proof {
                    self.lemma_wf();
                }
                let to: usize = at + byte_len(removed.as_str());
                let (_removed, _rows) = self.splice(at, to, inserted.as_str(), now);
            },
            None => {
                let note = Note::from_text(text);
                let ghost s = self@;
                self.start = 0;
                self.end = 0;
                proof {
                    note.lemma_utf8();
                }
                self.after_structural_change(note, now);
                assert(State { start: s.start, end: s.end, ..self@ } == restructured(
                    s,
                    text.spec_bytes(),
                    now,
                ));
            },
        }
        let (from, to) = self.note.clamp_range(selection.0, selection.1);
        self.start = from;
        self.end = to;
        self.reversed = false;
        self.marked = None;
        self.grouped = false;
    }
}

} // verus!
