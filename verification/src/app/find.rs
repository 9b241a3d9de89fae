//! The find bar: what is searched for and where, when a search runs, and what
//! replacing does. The search itself is the caller's: it hands in the query and
//! the places where it was found.

use vstd::prelude::*;
use vstd::string::*;
use vstd::utf8::*;

use crate::app::caret::selecting;
use crate::app::notes::{find_dismissed, restructured};
use crate::app::{
    caret, counted, edited, lemma_replaced_boundaries, record_of, ungrouped, Edit, EditState,
    FindState, NoteApp, PanelState, State,
};
use crate::decimal::{decimal, to_decimal};
use crate::note::{block_end, block_of, block_start, clamped, floor, Note};
use crate::session::{remarking, Notice, SavingState};
use crate::text::{
    boundary, byte_len, has_newline, lemma_string_ends, replaced, slice, trim, trimmed,
};

verus! {

broadcast use {vstd::seq::group_seq_axioms, vstd::string::group_string_axioms};

/// A search that runs now: whatever timer is still in flight is stale.
pub open spec fn searched_now(f: FindState) -> FindState {
    FindState {
        search_gen: counted(f.search_gen),
        search_pending: false,
        dirty_since: None,
        ..f
    }
}

/// Whether `text` is something to search for: one line, and not blank.
pub open spec fn searchable(text: Seq<char>) -> bool {
    !text.contains('\n') && trimmed(text).len() > 0
}

/// What ⌘F searches for, in order of what was most likely meant: the query of a
/// bar already open, the text selected, the last thing searched for.
pub open spec fn opening_query(s: State, query: Seq<char>) -> Seq<char> {
    let over = decode_utf8(s.text.subrange(s.start, s.end));
    if s.find.open {
        query
    } else if s.start < s.end && searchable(over) {
        over
    } else {
        s.find.last_query
    }
}

/// `s` with the find bar open and the keyboard in it. Where the caret was is
/// remembered, so that Escape can put it back.
pub open spec fn find_opened(s: State) -> State {
    State {
        find: FindState {
            open: true,
            focused: true,
            find_return: if s.find.open {
                s.find.find_return
            } else {
                Some((s.start as usize, s.end as usize, s.reversed))
            },
            ..searched_now(s.find)
        },
        ..s
    }
}

/// `s` with the find bar closed, and the caret back where the search began rather
/// than on the last match.
pub open spec fn find_closed(s: State, query: Seq<char>) -> State {
    let t = State { find: find_dismissed(s.find, query), ..s };
    match s.find.find_return {
        Some((start, end, reversed)) => {
            let (from, to) = clamped(s.text, start as int, end as int);
            State { start: from, end: to, reversed, ..t }
        },
        None => t,
    }
}

/// `s` after Escape, which puts away the most transient thing first.
pub open spec fn escaped(s: State, query: Seq<char>) -> State {
    if s.panels.context_menu {
        State { panels: PanelState { context_menu: false, ..s.panels }, ..s }
    } else if s.panels.palette is Some {
        State { panels: PanelState { palette: None, ..s.panels }, ..s }
    } else if s.panels.backups_open {
        State { panels: PanelState { backups_open: false, ..s.panels }, ..s }
    } else if s.panels.settings_open {
        State {
            panels: PanelState { settings_open: false, recording_shortcut: false, ..s.panels },
            ..s
        }
    } else {
        find_closed(s, query)
    }
}

/// What ⏎ and ⌘G do.
#[derive(Clone, Copy, Debug, PartialEq, Eq, Structural)]
pub enum Step {
    /// No find bar is open.
    Nothing,
    /// The search had not settled: run it, and land on the nearest match rather
    /// than step past it.
    Search,
    /// Go to the next match, or the one before.
    Go,
}

/// `s` after `with` replaced the match `from..to`.
pub open spec fn match_replaced(s: State, from: int, to: int, with: Seq<u8>, now: u64) -> State {
    let at = from + with.len();
    let done = ungrouped(edited(ungrouped(s), from, to, with, at, at, now));
    State { reversed: false, find: FindState { dirty_since: None, ..done.find }, ..done }
}

/// Whether the matches lie in `b`, between characters, one after the other.
pub open spec fn in_order(b: Seq<u8>, ms: Seq<(usize, usize)>) -> bool {
    &&& forall|i: int|
        0 <= i < ms.len() ==> (#[trigger] ms[i]).0 <= ms[i].1 && boundary(b, ms[i].0 as int)
            && boundary(b, ms[i].1 as int)
    &&& forall|i: int, j: int| 0 <= i < j < ms.len() ==> (#[trigger] ms[i]).1 <= (#[trigger] ms[j]).0
}

/// `b` with the matches from the `k`th on replaced.
pub open spec fn all_replaced(b: Seq<u8>, ms: Seq<(usize, usize)>, k: int, with: Seq<u8>) -> Seq<u8>
    decreases ms.len() - k,
{
    if k < 0 || k >= ms.len() {
        b
    } else {
        replaced(all_replaced(b, ms, k + 1, with), ms[k].0 as int, ms[k].1 as int, with)
    }
}

/// What is said of `count` replacements.
pub open spec fn replaced_text(count: nat) -> Seq<char> {
    "Replaced "@ + decode_utf8(decimal(count)) + if count == 1 {
        " occurrence"@
    } else {
        " occurrences"@
    }
}

/// `s` after every match was replaced.
pub open spec fn matches_replaced(s: State, ms: Seq<(usize, usize)>, with: Seq<u8>, now: u64) -> State {
    let text = all_replaced(s.text, ms, 0, with);
    let at = floor(text, s.start);
    let done = restructured(s, text, now);
    State {
        start: at,
        end: at,
        reversed: false,
        grouped: true,
        saving: SavingState { notice: remarking(replaced_text(ms.len()), now), ..done.saving },
        ..done
    }
}

/// What undo keeps of that, one edit for each match, the last match first. They
/// are one step: undoing it gives back the selection there was.
pub open spec fn matches_replaced_edit(
    s: State,
    ms: Seq<(usize, usize)>,
    with: Seq<u8>,
    i: int,
) -> EditState {
    let m = ms[ms.len() - 1 - i];
    let at = floor(all_replaced(s.text, ms, 0, with), s.start);
    EditState {
        start: m.0 as int,
        removed: s.text.subrange(m.0 as int, m.1 as int),
        inserted: with,
        before: (s.start, s.end),
        after: if i == ms.len() - 1 {
            (at, at)
        } else {
            (m.0 + with.len(), m.0 + with.len())
        },
        joins: i > 0,
        rows: None,
    }
}

/// Replacing matches leaves what stands before them.
pub proof fn lemma_all_replaced(b: Seq<u8>, ms: Seq<(usize, usize)>, k: int, with: Seq<u8>)
    requires
        valid_utf8(b),
        valid_utf8(with),
        in_order(b, ms),
        0 <= k <= ms.len(),
    ensures
        valid_utf8(all_replaced(b, ms, k, with)),
        ({
            let t = all_replaced(b, ms, k, with);
            let head = if k < ms.len() {
                ms[k].0 as int
            } else {
                b.len() as int
            };
            &&& head <= t.len()
            &&& t.subrange(0, head) == b.subrange(0, head)
            &&& forall|p: int| 0 <= p <= head && boundary(b, p) ==> #[trigger] boundary(t, p)
        }),
    decreases ms.len() - k,
{
    if k < ms.len() {
        lemma_all_replaced(b, ms, k + 1, with);
        let u = all_replaced(b, ms, k + 1, with);
        let t = all_replaced(b, ms, k, with);
        let (from, to) = (ms[k].0 as int, ms[k].1 as int);
        let head = if k + 1 < ms.len() {
            ms[k + 1].0 as int
        } else {
            b.len() as int
        };
        assert(to <= head);
        assert(boundary(u, from));
        assert(boundary(u, to));
        lemma_replaced_boundaries(u, from, to, with);
        assert(t.subrange(0, from) =~= b.subrange(0, from)) by {
            assert(u.subrange(0, head) == b.subrange(0, head));
            assert forall|i: int| 0 <= i < from implies t[i] == b[i] by {
                assert(u.subrange(0, head)[i] == b.subrange(0, head)[i]);
            }
        }
        lemma_replaced_valid(u, from, to, with);
    } else {
        assert(b.subrange(0, b.len() as int) =~= b);
    }
}

/// Text with a piece replaced by text is text.
pub proof fn lemma_replaced_valid(b: Seq<u8>, from: int, to: int, with: Seq<u8>)
    requires
        valid_utf8(b),
        valid_utf8(with),
        boundary(b, from),
        boundary(b, to),
        from <= to,
    ensures
        valid_utf8(replaced(b, from, to, with)),
{
    if b.len() > 0 {
        crate::text::lemma_first_byte(b);
    }
    crate::text::lemma_subrange_valid(b, 0, from);
    crate::text::lemma_subrange_valid(b, to, b.len() as int);
    crate::app::lines::lemma_joined_valid(b.subrange(0, from), with);
    crate::app::lines::lemma_joined_valid(b.subrange(0, from) + with, b.subrange(to, b.len() as int));
}

/// Whether `text` is something to search for.
fn is_searchable(text: &str) -> (r: bool)
    ensures
        r == searchable(text@),
{
    !has_newline(text) && !trim(text).is_empty()
}

impl NoteApp {
    /// ⌘F: open the find bar, or take the keyboard back to one that is open.
    /// `query` is the query of an open one. Returned is what to search for, and
    /// where from: the start of the selection, so that the very word asked for is
    /// not skipped.
    pub fn open_find(&mut self, query: &str) -> (r: (String, usize))
        requires
            old(self).wf(),
        ensures
            final(self).wf(),
            final(self)@ == find_opened(old(self)@),
            (r.0)@ == opening_query(old(self)@, query@),
            r.1 == old(self)@.start,
    {
        let wanted = if self.find.open {
            String::from_str(query)
        } else {
            self.find.find_return = Some((self.start, self.end, self.reversed));
            match self.selected_text_safe() {
                Some(over) => {
                    proof {
                        encode_utf8_decode_utf8(over@);
                    }
                    if is_searchable(over.as_str()) {
                        over
                    } else {
                        String::from_str(self.find.last_query.as_str())
                    }
                },
                None => String::from_str(self.find.last_query.as_str()),
            }
        };
        self.find.open = true;
        self.find.focused = true;
        self.run_query();
        (wanted, self.start)
    }

    /// Show the replace field, or put it away again, opening the find bar for it if
    /// need be: what to search for and where from, if the bar was not open.
    pub fn toggle_replace(&mut self) -> (r: Option<(String, usize)>)
        requires
            old(self).wf(),
        ensures
            final(self).wf(),
            ({
                let s = old(self)@;
                if s.find.open {
                    &&& r is None
                    &&& final(self)@ == (State { find: FindState { focused: true, ..s.find }, ..s })
                } else {
                    &&& r matches Some((query, from)) && query@ == opening_query(s, Seq::empty())
                        && from == s.start
                    &&& final(self)@ == find_opened(s)
                }
            }),
    {
        let wanted = if self.find.open {
            None
        } else {
            proof {
                reveal_strlit("");
                assert(""@ =~= Seq::empty());
            }
            Some(self.open_find(""))
        };
        self.find.focused = true;
        wanted
    }

    /// Select the match at `hit`, one that was clicked on the rail.
    pub fn jump_to_match(&mut self, hit: Option<(usize, usize)>)
        requires
            old(self).wf(),
        ensures
            final(self).wf(),
            final(self)@ == (match hit {
                Some((from, to)) => selecting(old(self)@, from as int, to as int),
                None => old(self)@,
            }),
    {
        if let Some((from, to)) = hit {
            self.set_selection(from, to);
        }
    }

    /// A search runs now: no timer is owed another.
    pub fn run_query(&mut self)
        requires
            old(self).wf(),
        ensures
            final(self).wf(),
            final(self)@ == (State { find: searched_now(old(self)@.find), ..old(self)@ }),
    {
        self.find.search_gen = if self.find.search_gen == u64::MAX {
            0
        } else {
            self.find.search_gen + 1
        };
        self.find.search_pending = false;
        self.find.dirty_since = None;
    }

    /// ⌘E: search for the selection, or for `word`, the word under the caret,
    /// without taking the keyboard.
    pub fn use_selection_for_find(&mut self, word: &str) -> (r: Option<String>)
        requires
            old(self).wf(),
        ensures
            final(self).wf(),
            ({
                let s = old(self)@;
                let over = decode_utf8(s.text.subrange(s.start, s.end));
                let wanted = if s.start < s.end && searchable(over) {
                    over
                } else {
                    word@
                };
                if s.find.focused || trimmed(wanted).len() == 0 {
                    r is None && final(self)@ == s
                } else {
                    &&& r matches Some(query) && query@ == wanted
                    &&& final(self)@ == (State {
                        find: FindState {
                            open: true,
                            focused: false,
                            last_query: wanted,
                            ..searched_now(s.find)
                        },
                        ..s
                    })
                }
            }),
    {
        if self.find.focused {
            return None;
        }
        let wanted = match self.selected_text_safe() {
            Some(over) => {
                proof {
                    encode_utf8_decode_utf8(over@);
                }
                if is_searchable(over.as_str()) {
                    over
                } else {
                    String::from_str(word)
                }
            },
            None => String::from_str(word),
        };
        if trim(wanted.as_str()).is_empty() {
            return None;
        }
        self.find.last_query = String::from_str(wanted.as_str());
        self.run_query();
        self.find.open = true;
        self.find.focused = false;
        Some(wanted)
    }

    /// The bytes to search: the note the caret is in *now*, if only that is to be
    /// searched. A range kept from before would go stale with the first edit.
    pub fn find_scope(&self) -> (r: Option<(usize, usize)>)
        requires
            self.wf(),
        ensures
            r is Some <==> self@.find.note_only,
            r matches Some((from, to)) ==> from == block_start(
                self@.text,
                block_of(self@.text, caret(self@)),
            ) && to == block_end(self@.text, block_of(self@.text, caret(self@))),
    {
        if self.find.note_only {
            Some(self.current_note_range())
        } else {
            None
        }
    }

    /// Search only the note the caret is in, or the whole document again.
    pub fn toggle_note_scope(&mut self)
        requires
            old(self).wf(),
        ensures
            final(self).wf(),
            final(self)@ == (State {
                find: FindState {
                    note_only: !old(self)@.find.note_only,
                    ..searched_now(old(self)@.find)
                },
                ..old(self)@
            }),
    {
        self.find.note_only = !self.find.note_only;
        self.run_query();
    }

    /// Whether the timer that was set for search `generation` may run: only if no
    /// search was asked for since.
    pub fn search_is_due(&self, generation: u64) -> (r: bool)
        ensures
            r == (self@.find.search_gen == generation),
    {
        self.find.search_gen == generation
    }

    /// Whether the text under an open find bar has settled, and is to be searched
    /// again.
    pub fn find_due(&mut self, now: u64) -> (r: bool)
        requires
            old(self).wf(),
        ensures
            final(self).wf(),
            r == crate::session::settled(
                old(self)@.find.dirty_since,
                crate::session::FIND_DEBOUNCE,
                now,
            ),
            final(self)@ == (if r {
                State {
                    find: FindState { dirty_since: None, ..old(self)@.find },
                    ..old(self)@
                }
            } else {
                old(self)@
            }),
    {
        if crate::session::has_settled(self.find.dirty_since, crate::session::FIND_DEBOUNCE, now) {
            self.find.dirty_since = None;
            return true;
        }
        false
    }

    /// ⏎ and ⌘G in an open find bar.
    pub fn step_find(&mut self) -> (r: Step)
        requires
            old(self).wf(),
        ensures
            final(self).wf(),
            r == (if !old(self)@.find.open {
                Step::Nothing
            } else if old(self)@.find.search_pending {
                Step::Search
            } else {
                Step::Go
            }),
            final(self)@ == (if r == Step::Search {
                State { find: searched_now(old(self)@.find), ..old(self)@ }
            } else {
                old(self)@
            }),
    {
        if !self.find.open {
            return Step::Nothing;
        }
        if self.find.search_pending {
            self.run_query();
            return Step::Search;
        }
        Step::Go
    }

    /// Give the keyboard back to an open find bar.
    pub fn focus_find(&mut self)
        requires
            old(self).wf(),
        ensures
            final(self).wf(),
            final(self)@ == (State {
                find: FindState {
                    focused: old(self)@.find.focused || old(self)@.find.open,
                    ..old(self)@.find
                },
                ..old(self)@
            }),
    {
        if self.find.open {
            self.find.focused = true;
        }
    }

    /// Close the find bar, whose query is `query`, and put the caret back where
    /// the search began.
    pub fn close_find_bar(&mut self, query: &str)
        requires
            old(self).wf(),
        ensures
            final(self).wf(),
            final(self)@ == find_closed(old(self)@, query@),
    {
        let restore = self.find.find_return;
        self.dismiss_find(query);
        if let Some((start, end, reversed)) = restore {
            let (from, to) = self.note.clamp_range(start, end);
            self.start = from;
            self.end = to;
            self.reversed = reversed;
        }
    }

    /// Escape: the menu at the pointer, then a panel, then the find bar.
    pub fn close_find(&mut self, query: &str)
        requires
            old(self).wf(),
        ensures
            final(self).wf(),
            final(self)@ == escaped(old(self)@, query@),
    {
        if self.panels.context_menu {
            self.panels.context_menu = false;
        } else if self.panels.palette.is_some() {
            self.panels.palette = None;
        } else if self.panels.backups_open {
            self.panels.backups_open = false;
        } else if self.panels.settings_open {
            self.panels.settings_open = false;
            self.panels.recording_shortcut = false;
        } else {
            self.close_find_bar(query);
        }
    }

    /// Replace the match `from..to`; one undo step. The document is to be
    /// searched again at once, for the next match is what was asked for too.
    pub fn replace_and_find(&mut self, from: usize, to: usize, replacement: &str, now: u64) -> (r: Edit)
        requires
            old(self).wf(),
            from <= to,
            boundary(old(self)@.text, from as int),
            boundary(old(self)@.text, to as int),
        ensures
            final(self).wf(),
            final(self)@ == match_replaced(
                old(self)@,
                from as int,
                to as int,
                replacement.spec_bytes(),
                now,
            ),
            ({
                let at = from + replacement.spec_bytes().len();
                r@ == record_of(
                    ungrouped(old(self)@),
                    from as int,
                    to as int,
                    replacement.spec_bytes(),
                    at,
                    at,
                )
            }),
    {
        self.break_group();
        let edit = self.put(from, to, replacement, now);
        self.reversed = false;
        self.break_group();
        self.find.dirty_since = None;
        edit
    }

    /// Replace every match in one undo step. They are replaced last to first, so
    /// that each earlier one keeps its place, and undo keeps one edit for each
    /// rather than two copies of the document.
    pub fn replace_all(&mut self, matches: &Vec<(usize, usize)>, replacement: &str, now: u64) -> (r: Vec<
        Edit,
    >)
        requires
            old(self).wf(),
            in_order(old(self)@.text, matches@),
        ensures
            final(self).wf(),
            final(self)@ == (if matches@.len() == 0 {
                old(self)@
            } else {
                matches_replaced(old(self)@, matches@, replacement.spec_bytes(), now)
            }),
            r@.len() == matches@.len(),
            forall|i: int|
                0 <= i < r@.len() ==> (#[trigger] r@[i])@ == matches_replaced_edit(
                    old(self)@,
                    matches@,
                    replacement.spec_bytes(),
                    i,
                ),
    {
        let ghost s = self@;
        let ghost with = replacement.spec_bytes();
        let n: usize = matches.len();
        if n == 0 {
            return Vec::new();
        }
        proof {
            self.lemma_wf();
            lemma_string_ends(replacement@);
        }
        let (note, mut edits) = self.replaced_matches(matches, replacement);
        let at: usize = note.clamp_offset(self.start);
        let mut first = edits.pop();
        if let Some(edit) = &mut first {
            edit.after = (at, at);
        }
        match first {
            Some(edit) => {
                edits.push(edit);
            },
            None => {},
        }
        assert(edits@.len() == n);
        self.start = at;
        self.end = at;
        self.reversed = false;
        self.after_structural_change(note, now);
        self.grouped = true;
        let mut text = String::from_str("Replaced ");
        let count = to_decimal(n as u64);
        proof {
            encode_utf8_decode_utf8(count@);
        }
        text.append(count.as_str());
        if n == 1 {
            text.append(" occurrence");
        } else {
            text.append(" occurrences");
        }
        self.saving.notice = Some(Notice::remark(text, now));
        edits
    }

    /// The text with every match replaced, and the edits that lead there, but for
    /// the selection after the last of them.
    fn replaced_matches(&self, matches: &Vec<(usize, usize)>, replacement: &str) -> (r: (Note, Vec<Edit>))
        requires
            self.wf(),
            in_order(self@.text, matches@),
        ensures
            (r.0)@ == all_replaced(self@.text, matches@, 0, replacement.spec_bytes()),
            (r.1)@.len() == matches@.len(),
            forall|i: int|
                0 <= i < (r.1)@.len() ==> {
                    let e = matches_replaced_edit(self@, matches@, replacement.spec_bytes(), i);
                    let m = matches@[matches@.len() - 1 - i];
                    (#[trigger] (r.1)@[i])@ == EditState {
                        after: (
                            m.0 + replacement.spec_bytes().len(),
                            m.0 + replacement.spec_bytes().len(),
                        ),
                        ..e
                    }
                },
    {
        let ghost s = self@;
        let ghost b = s.text;
        let ghost ms = matches@;
        let ghost with = replacement.spec_bytes();
        let len: usize = byte_len(replacement);
        let n: usize = matches.len();
        let mut note = Note::from_text(self.note.text());
        let mut edits: Vec<Edit> = Vec::new();
        let mut k: usize = n;
        proof {
            self.lemma_wf();
            lemma_string_ends(replacement@);
        }
        while k > 0
            invariant
                self.wf(),
                s == self@,
                b == s.text,
                ms == matches@,
                n == ms.len(),
                k <= n,
                len == with.len(),
                with == replacement.spec_bytes(),
                valid_utf8(b),
                valid_utf8(with),
                in_order(b, ms),
                note@ == all_replaced(b, ms, k as int, with),
                edits@.len() == n - k,
                forall|i: int|
                    0 <= i < edits@.len() ==> {
                        let m = ms[n - 1 - i];
                        (#[trigger] edits@[i])@ == EditState {
                            after: (m.0 + with.len(), m.0 + with.len()),
                            ..matches_replaced_edit(s, ms, with, i)
                        }
                    },
            decreases k,
        {
            let i: usize = n - k;
            k -= 1;
            let (from, to) = matches[k];
            proof {
                lemma_all_replaced(b, ms, k + 1, with);
                let t = note@;
                let head = if k + 1 < ms.len() {
                    ms[k + 1].0 as int
                } else {
                    b.len() as int
                };
                assert(to <= head);
                assert(boundary(t, from as int));
                assert(boundary(t, to as int));
                assert(t.subrange(from as int, to as int) =~= b.subrange(from as int, to as int)) by {
                    assert forall|j: int| from <= j < to implies t[j] == b[j] by {
                        assert(t.subrange(0, head)[j] == b.subrange(0, head)[j]);
                    }
                }
                crate::note::lemma_floor_ceil(t, from as int);
                crate::note::lemma_floor_ceil(t, to as int);
            }
            let removed = String::from_str(slice(note.text(), from, to));
            note.replace_range(from, to, replacement);
            let _room: usize = note.len();
            let at: usize = from + len;
            edits.push(
                Edit {
                    start: from,
                    removed,
                    inserted: String::from_str(replacement),
                    before: (self.start, self.end),
                    after: (at, at),
                    joins: i > 0,
                    rows: None,
                },
            );
        }
        (note, edits)
    }
}

/// How many marks the scroll rail can show.
pub const MATCH_TICK_BUCKETS: usize = 900;

/// A mark on the scroll rail: where it is, the match it stands for, and whether
/// the current match is there.
#[derive(Clone, Copy, Debug, PartialEq, Eq, Structural)]
pub struct RailTick {
    pub bucket: usize,
    pub match_index: usize,
    pub current: bool,
}

/// The first of the matches whose mark is at `bucket`, given where each match's
/// mark is.
pub open spec fn first_at(at: Seq<usize>, bucket: int, i: int) -> Option<int>
    decreases at.len() - i,
{
    if i < 0 || i >= at.len() {
        None
    } else if at[i] == bucket {
        Some(i)
    } else {
        first_at(at, bucket, i + 1)
    }
}

/// The marks below `bucket`: one for every place that has a match.
pub open spec fn ticks(at: Seq<usize>, current: Option<usize>, bucket: int) -> Seq<RailTick>
    decreases bucket,
{
    if bucket <= 0 {
        Seq::empty()
    } else {
        let below = ticks(at, current, bucket - 1);
        match first_at(at, bucket - 1, 0) {
            Some(i) => below.push(
                RailTick {
                    bucket: (bucket - 1) as usize,
                    match_index: i as usize,
                    current: current == Some((bucket - 1) as usize),
                },
            ),
            None => below,
        }
    }
}

proof fn lemma_first_at(at: Seq<usize>, bucket: int, i: int, j: int)
    requires
        0 <= i <= j <= at.len(),
        forall|k: int| i <= k < j ==> at[k] != bucket,
    ensures
        first_at(at, bucket, i) == first_at(at, bucket, j),
    decreases j - i,
{
    if i < j {
        lemma_first_at(at, bucket, i + 1, j);
    }
}

/// The marks on the scroll rail: `at` says where each match's mark is, and
/// `current` where the current match's is. A click on a mark goes to the first
/// match there. The work is bounded by the rail rather than by the document.
pub fn update_match_rail(at: &Vec<usize>, current: Option<usize>) -> (r: Vec<RailTick>)
    requires
        forall|i: int| 0 <= i < at@.len() ==> #[trigger] at@[i] < MATCH_TICK_BUCKETS,
    ensures
        r@ == ticks(at@, current, MATCH_TICK_BUCKETS as int),
{
    let mut firsts: Vec<Option<usize>> = Vec::new();
    let mut k: usize = 0;
    while k < MATCH_TICK_BUCKETS
        invariant
            k <= MATCH_TICK_BUCKETS,
            firsts@.len() == k,
            forall|j: int| 0 <= j < k ==> #[trigger] firsts@[j] is None,
        decreases MATCH_TICK_BUCKETS - k,
    {
        firsts.push(None);
        k += 1;
    }
    let mut i: usize = 0;
    while i < at.len()
        invariant
            i <= at@.len(),
            firsts@.len() == MATCH_TICK_BUCKETS,
            forall|k: int| 0 <= k < at@.len() ==> #[trigger] at@[k] < MATCH_TICK_BUCKETS,
            forall|j: int|
                0 <= j < MATCH_TICK_BUCKETS ==> match #[trigger] firsts@[j] {
                    Some(m) => m < i && at@[m as int] == j && forall|k: int|
                        0 <= k < m ==> #[trigger] at@[k] != j,
                    None => forall|k: int| 0 <= k < i ==> #[trigger] at@[k] != j,
                },
        decreases at@.len() - i,
    {
        let bucket: usize = at[i];
        if firsts[bucket].is_none() {
            firsts.set(bucket, Some(i));
        }
        i += 1;
    }
    let mut r: Vec<RailTick> = Vec::new();
    let mut bucket: usize = 0;
    while bucket < MATCH_TICK_BUCKETS
        invariant
            bucket <= MATCH_TICK_BUCKETS,
            firsts@.len() == MATCH_TICK_BUCKETS,
            forall|j: int|
                0 <= j < MATCH_TICK_BUCKETS ==> match #[trigger] firsts@[j] {
                    Some(m) => m < at@.len() && at@[m as int] == j && forall|k: int|
                        0 <= k < m ==> #[trigger] at@[k] != j,
                    None => forall|k: int| 0 <= k < at@.len() ==> #[trigger] at@[k] != j,
                },
            r@ == ticks(at@, current, bucket as int),
        decreases MATCH_TICK_BUCKETS - bucket,
    {
        let first: Option<usize> = firsts[bucket];
        proof {
            match first {
                Some(m) => lemma_first_at(at@, bucket as int, 0, m as int),
                None => lemma_first_at(at@, bucket as int, 0, at@.len() as int),
            }
        }
        if let Some(match_index) = first {
            let here = match current {
                Some(c) => c == bucket,
                None => false,
            };
            r.push(RailTick { bucket, match_index, current: here });
        }
        bucket += 1;
    }
    r
}

} // verus!
