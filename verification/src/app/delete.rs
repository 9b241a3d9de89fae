//! Deleting. A rule between two notes is drawn as a hairline and its `---` is
//! invisible, so a deletion takes it whole or stops at it.

use vstd::prelude::*;
use vstd::string::*;
use vstd::utf8::*;

use crate::app::caret::selecting;
use crate::app::input::{search_scheduled, typing, typing_edit};
use crate::app::{caret, kept, ungrouped, Edit, EditState, NoteApp, PanelState, State};
use crate::lines::{lemma_line_of, line_end, line_of, line_start};
use crate::note::{
    clamp_within_note, clamp_within_note_forward, divides, first_divider, last_divider,
    separator_after, separator_before,
};
use crate::palette::PaletteState;
use crate::text::{boundary, slice};

verus! {

broadcast use {vstd::seq::group_seq_axioms, vstd::string::group_string_axioms};

/// The rule right above `at`, line break and all, where `at` starts a line.
pub open spec fn rule_before(b: Seq<u8>, at: int) -> Option<(usize, usize)> {
    let l = line_of(b, at);
    if l > 0 && at == line_start(b, l) && divides(b, l - 1) {
        Some((line_start(b, l - 1) as usize, line_start(b, l) as usize))
    } else {
        None
    }
}

/// The rule right below `at`, the line break before it and all, where `at` ends a
/// line.
pub open spec fn rule_after(b: Seq<u8>, at: int) -> Option<(usize, usize)> {
    let l = line_of(b, at);
    if at == line_end(b, l) && divides(b, l + 1) {
        Some((line_end(b, l) as usize, line_end(b, l + 1) as usize))
    } else {
        None
    }
}

/// Where a deletion back from `at` to `start` starts, if it must not reach
/// through a rule: below the last rule on the way.
pub open spec fn back_within(b: Seq<u8>, start: int, at: int) -> int {
    match last_divider(b, line_of(b, start), line_of(b, at)) {
        Some(d) => line_start(b, d + 1),
        None => start,
    }
}

/// Where a deletion on from `at` to `end` ends, if it must not reach through a
/// rule: above the first rule on the way.
pub open spec fn on_within(b: Seq<u8>, at: int, end: int) -> int {
    match first_divider(b, line_of(b, at) + 1, line_of(b, end) + 1) {
        Some(d) => line_end(b, d - 1),
        None => end,
    }
}

/// `s` after `range` was deleted, unless something is selected — then that is.
pub open spec fn deleting(s: State, range: (int, int), now: u64) -> State {
    if s.start < s.end {
        typing(s, None, Seq::empty(), now)
    } else if range.0 < range.1 {
        typing(s, Some((range.0 as usize, range.1 as usize)), Seq::empty(), now)
    } else {
        s
    }
}

/// What undo keeps of that.
pub open spec fn deleting_edit(s: State, range: (int, int)) -> Option<EditState> {
    if s.start < s.end {
        typing_edit(s, None, Seq::empty())
    } else if range.0 < range.1 {
        typing_edit(s, Some((range.0 as usize, range.1 as usize)), Seq::empty())
    } else {
        None
    }
}

/// `s` after ⌫, when the character before the caret begins at `prev`. In the
/// palette and in the find bar it is the query's last character that goes.
pub open spec fn backspaced(s: State, prev: int, now: u64) -> State {
    match s.panels.palette {
        Some(p) => State {
            panels: PanelState {
                palette: Some(
                    PaletteState {
                        query: if p.query.len() > 0 {
                            p.query.drop_last()
                        } else {
                            p.query
                        },
                        selected: 0,
                    },
                ),
                ..s.panels
            },
            ..s
        },
        None => if s.find.focused {
            State { find: search_scheduled(s.find), ..s }
        } else {
            match rule_before(s.text, caret(s)) {
                Some(rule) if s.start >= s.end => typing(s, Some(rule), Seq::empty(), now),
                _ => deleting(s, (prev, caret(s)), now),
            }
        },
    }
}

/// What undo keeps of that.
pub open spec fn backspaced_edit(s: State, prev: int) -> Option<EditState> {
    if s.panels.palette is Some || s.find.focused {
        None
    } else {
        match rule_before(s.text, caret(s)) {
            Some(rule) if s.start >= s.end => typing_edit(s, Some(rule), Seq::empty()),
            _ => deleting_edit(s, (prev, caret(s))),
        }
    }
}

/// `s` after ⌦, when the character after the caret ends at `next`.
pub open spec fn deleted_forward(s: State, next: int, now: u64) -> State {
    match rule_after(s.text, caret(s)) {
        Some(rule) if s.start >= s.end => typing(s, Some(rule), Seq::empty(), now),
        _ => if s.start >= s.end && next == caret(s) {
            s
        } else if s.start >= s.end {
            typing(selecting(s, caret(s), next), None, Seq::empty(), now)
        } else {
            typing(s, None, Seq::empty(), now)
        },
    }
}

/// What undo keeps of that.
pub open spec fn deleted_forward_edit(s: State, next: int) -> Option<EditState> {
    match rule_after(s.text, caret(s)) {
        Some(rule) if s.start >= s.end => typing_edit(s, Some(rule), Seq::empty()),
        _ => if s.start >= s.end && next == caret(s) {
            None
        } else if s.start >= s.end {
            typing_edit(selecting(s, caret(s), next), None, Seq::empty())
        } else {
            typing_edit(s, None, Seq::empty())
        },
    }
}

/// What ⌃K takes: up to the end of the visual row or, from there, the line break
/// — but never across a rule.
pub open spec fn kill_range(s: State, row_end: int, next: int) -> (int, int) {
    if row_end > caret(s) {
        (caret(s), row_end)
    } else {
        (caret(s), on_within(s.text, caret(s), next))
    }
}

/// `s` with what ⌃K takes remembered, so that ⌃Y can bring it back: the selection
/// when there is one, for that is what goes.
pub open spec fn killing(s: State, range: (int, int)) -> State {
    if s.start < s.end {
        State { killed: s.text.subrange(s.start, s.end), ..s }
    } else if range.0 < range.1 {
        State { killed: s.text.subrange(range.0, range.1), ..s }
    } else {
        s
    }
}

/// `s` after ⌥⌫ over `range`.
pub open spec fn word_deleted_back(s: State, range: (int, int), now: u64) -> State {
    match rule_before(s.text, caret(s)) {
        Some(rule) if s.start >= s.end => typing(s, Some(rule), Seq::empty(), now),
        _ => deleting(s, (back_within(s.text, range.0, caret(s)), range.1), now),
    }
}

/// `s` after ⌥⌦ over `range`.
pub open spec fn word_deleted_forward(s: State, range: (int, int), now: u64) -> State {
    deleting(s, (range.0, on_within(s.text, caret(s), range.1)), now)
}

/// `s` after ⌘⌫, on a visual row that starts at `row_start`.
pub open spec fn row_deleted_back(s: State, row_start: int, line: (int, int), now: u64) -> State {
    deleting(
        s,
        if row_start < caret(s) {
            (row_start, caret(s))
        } else {
            line
        },
        now,
    )
}

/// `s` after ⌃K.
pub open spec fn killed_to_end(s: State, row_end: int, next: int, now: u64) -> State {
    let range = kill_range(s, row_end, next);
    deleting(killing(s, range), range, now)
}

/// `s` after ⌃Y.
pub open spec fn yanked(s: State, now: u64) -> State {
    if s.find.focused || s.killed.len() == 0 {
        s
    } else {
        ungrouped(typing(ungrouped(s), None, decode_utf8(s.killed), now))
    }
}

impl NoteApp {
    /// Delete `range`, unless something is selected — then that goes, which is
    /// what every text field does.
    pub fn delete_range_or_selection(&mut self, range: (usize, usize), now: u64) -> (r: Option<Edit>)
        requires
            old(self).wf(),
        ensures
            final(self).wf(),
            final(self)@ == deleting(old(self)@, (range.0 as int, range.1 as int), now),
            kept(r) == deleting_edit(old(self)@, (range.0 as int, range.1 as int)),
    {
        proof {
            reveal_strlit("");
            assert(""@ =~= Seq::empty());
        }
        if self.start < self.end {
            self.type_text(None, "", now)
        } else if range.0 < range.1 {
            self.type_text(Some(range), "", now)
        } else {
            None
        }
    }

    /// ⌫. `prev` is where the character before the caret begins. A rule above the
    /// caret goes as one thing.
    pub fn backspace(&mut self, prev: usize, now: u64) -> (r: Option<Edit>)
        requires
            old(self).wf(),
            prev <= caret(old(self)@),
        ensures
            final(self).wf(),
            final(self)@ == backspaced(old(self)@, prev as int, now),
            kept(r) == backspaced_edit(old(self)@, prev as int),
    {
        if let Some(palette) = &mut self.panels.palette {
            palette.backspace();
            return None;
        }
        if self.find.focused {
            self.schedule_query_search();
            return None;
        }
        let at: usize = self.cursor_offset();
        if self.start >= self.end {
            if let Some(rule) = self.rule_above(at) {
                return self.delete_rule(rule, now);
            }
        }
        self.delete_range_or_selection((prev, at), now)
    }

    /// ⌦. `next` is where the character after the caret ends.
    pub fn delete_key(&mut self, next: usize, now: u64) -> (r: Option<Edit>)
        requires
            old(self).wf(),
        ensures
            final(self).wf(),
            final(self)@ == deleted_forward(old(self)@, next as int, now),
            kept(r) == deleted_forward_edit(old(self)@, next as int),
    {
        proof {
            reveal_strlit("");
            assert(""@ =~= Seq::empty());
        }
        if self.start >= self.end {
            let at: usize = self.cursor_offset();
            if let Some(rule) = separator_after(self.note.text(), &self.index, &self.fences, at) {
                return self.delete_rule((rule.start, rule.end), now);
            }
            if next == at {
                return None;
            }
            self.set_selection(at, next);
        }
        self.type_text(None, "", now)
    }

    /// The rule right above `at`.
    fn rule_above(&self, at: usize) -> (r: Option<(usize, usize)>)
        requires
            self.wf(),
        ensures
            r == rule_before(self@.text, at as int),
    {
        match separator_before(self.note.text(), &self.index, &self.fences, at) {
            Some(rule) => Some((rule.start, rule.end)),
            None => None,
        }
    }

    /// Delete a rule whole. The selection stays a caret, so that undo does not
    /// hand back an invisible rule, selected.
    fn delete_rule(&mut self, rule: (usize, usize), now: u64) -> (r: Option<Edit>)
        requires
            old(self).wf(),
        ensures
            final(self).wf(),
            final(self)@ == typing(old(self)@, Some(rule), Seq::empty(), now),
            kept(r) == typing_edit(old(self)@, Some(rule), Seq::empty()),
    {
        proof {
            reveal_strlit("");
            assert(""@ =~= Seq::empty());
        }
        self.type_text(Some(rule), "", now)
    }

    /// ⌥⌫. `range` is the word before the caret. The deletion takes a rule right
    /// above the caret, and otherwise stops below one.
    pub fn delete_word_back(&mut self, range: (usize, usize), now: u64) -> (r: Option<Edit>)
        requires
            old(self).wf(),
        ensures
            final(self).wf(),
            ({
                let s = old(self)@;
                let from = back_within(s.text, range.0 as int, caret(s));
                match rule_before(s.text, caret(s)) {
                    Some(rule) if s.start >= s.end => {
                        &&& final(self)@ == typing(s, Some(rule), Seq::empty(), now)
                        &&& kept(r) == typing_edit(s, Some(rule), Seq::empty())
                    },
                    _ => {
                        &&& final(self)@ == deleting(s, (from, range.1 as int), now)
                        &&& kept(r) == deleting_edit(s, (from, range.1 as int))
                    },
                }
            }),
            final(self)@ == word_deleted_back(old(self)@, (range.0 as int, range.1 as int), now),
    {
        let at: usize = self.cursor_offset();
        if self.start >= self.end {
            if let Some(rule) = self.rule_above(at) {
                return self.delete_rule(rule, now);
            }
        }
        let from: usize = clamp_within_note(
            self.note.text(),
            &self.index,
            &self.fences,
            range.0,
            at,
        );
        self.delete_range_or_selection((from, range.1), now)
    }

    /// ⌥⌦. `range` is the word after the caret. At the end of a note the deletion
    /// does not reach through the rule into the note below.
    pub fn delete_word_forward(&mut self, range: (usize, usize), now: u64) -> (r: Option<Edit>)
        requires
            old(self).wf(),
        ensures
            final(self).wf(),
            ({
                let s = old(self)@;
                let to = on_within(s.text, caret(s), range.1 as int);
                &&& final(self)@ == deleting(s, (range.0 as int, to), now)
                &&& kept(r) == deleting_edit(s, (range.0 as int, to))
            }),
            final(self)@ == word_deleted_forward(
                old(self)@,
                (range.0 as int, range.1 as int),
                now,
            ),
    {
        let at: usize = self.cursor_offset();
        let to: usize = if self.start >= self.end {
            clamp_within_note_forward(self.note.text(), &self.index, &self.fences, at, range.1)
        } else {
            range.1
        };
        self.delete_range_or_selection((range.0, to), now)
    }

    /// ⌘⌫: to the start of the visual row or, from there, of `line`. On a wrapped
    /// paragraph the start of the line itself is off the screen, and one keystroke
    /// taking text that cannot be seen is not what this asks for.
    pub fn delete_to_line_start(&mut self, row_start: usize, line: (usize, usize), now: u64) -> (r: Option<
        Edit,
    >)
        requires
            old(self).wf(),
        ensures
            final(self).wf(),
            ({
                let s = old(self)@;
                let range = if row_start < caret(s) {
                    (row_start as int, caret(s))
                } else {
                    (line.0 as int, line.1 as int)
                };
                &&& final(self)@ == deleting(s, range, now)
                &&& kept(r) == deleting_edit(s, range)
            }),
            final(self)@ == row_deleted_back(
                old(self)@,
                row_start as int,
                (line.0 as int, line.1 as int),
                now,
            ),
    {
        let at: usize = self.cursor_offset();
        let range: (usize, usize) = if row_start < at {
            (row_start, at)
        } else {
            line
        };
        self.delete_range_or_selection(range, now)
    }

    /// ⌃K: delete to the end of the visual row, or the line break from there, and
    /// remember it. `next` is where the character after the caret ends.
    pub fn kill_to_end(&mut self, row_end: usize, next: usize, now: u64) -> (r: Option<Edit>)
        requires
            old(self).wf(),
            boundary(old(self)@.text, row_end as int),
            boundary(old(self)@.text, next as int),
        ensures
            final(self).wf(),
            ({
                let s = old(self)@;
                let range = kill_range(s, row_end as int, next as int);
                &&& final(self)@ == deleting(killing(s, range), range, now)
                &&& kept(r) == deleting_edit(killing(s, range), range)
            }),
            final(self)@ == killed_to_end(old(self)@, row_end as int, next as int, now),
    {
        let ghost s = self@;
        let at: usize = self.cursor_offset();
        let to: usize = if row_end > at {
            row_end
        } else {
            clamp_within_note_forward(self.note.text(), &self.index, &self.fences, at, next)
        };
        proof {
            self.lemma_wf();
            lemma_on_within(s.text, at as int, next as int);
        }
        if self.start < self.end {
            self.kill_ring = String::from_str(slice(self.note.text(), self.start, self.end));
        } else if at < to {
            self.kill_ring = String::from_str(slice(self.note.text(), at, to));
        }
        assert(self@ == killing(s, (at as int, to as int)));
        self.delete_range_or_selection((at, to), now)
    }

    /// ⌃Y: put what the last ⌃K took in place of the selection, as one step of
    /// its own.
    pub fn yank(&mut self, now: u64) -> (r: Option<Edit>)
        requires
            old(self).wf(),
        ensures
            final(self).wf(),
            ({
                let s = old(self)@;
                let text = decode_utf8(s.killed);
                if s.find.focused || s.killed.len() == 0 {
                    final(self)@ == s && r is None
                } else {
                    &&& final(self)@ == ungrouped(typing(ungrouped(s), None, text, now))
                    &&& kept(r) == typing_edit(ungrouped(s), None, text)
                }
            }),
            final(self)@ == yanked(old(self)@, now),
    {
        proof {
            crate::text::lemma_bytes_empty(self.kill_ring@);
            encode_utf8_decode_utf8(self.kill_ring@);
        }
        if self.find.focused || self.kill_ring.as_str().is_empty() {
            return None;
        }
        let text = String::from_str(self.kill_ring.as_str());
        self.break_group();
        let r = self.type_text(None, text.as_str(), now);
        self.break_group();
        r
    }
}

/// Where a deletion that stops at a rule ends is a character boundary.
proof fn lemma_on_within(b: Seq<u8>, at: int, end: int)
    requires
        valid_utf8(b),
        boundary(b, end),
        0 <= at <= b.len(),
    ensures
        boundary(b, on_within(b, at, end)),
{
    lemma_line_of(b, at);
    lemma_line_of(b, end);
    let from = line_of(b, at) + 1;
    crate::note::lemma_first_divider(b, from, line_of(b, end) + 1);
    if let Some(d) = first_divider(b, from, line_of(b, end) + 1) {
        crate::lines::lemma_line_boundaries(b, d - 1);
    }
}

} // verus!
