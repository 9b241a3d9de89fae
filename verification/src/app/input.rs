//! Text input: typed text, and text an input method is still composing.

use vstd::prelude::*;
use vstd::string::*;
use vstd::utf8::*;

use crate::app::{
    edited, holder, kept, lemma_replaced_boundaries, record_of, Edit, EditState, FindState, Holder,
    NoteApp, PanelState, State,
};
use crate::note::clamped;
use crate::palette::PaletteState;
use crate::text::{boundary, byte_len, bytes, has_newline, lemma_string_ends, replaced, slice};
use crate::utf16::{to_utf16, unit_count, unit_offset, utf16_offset_in};

verus! {

broadcast use {vstd::seq::group_seq_axioms, vstd::string::group_string_axioms};

/// Whether `text` can go into a field of one line.
pub open spec fn one_line(text: Seq<char>) -> bool {
    text.len() > 0 && !text.contains('\n')
}

/// The bytes an edit of `range` replaces: those, or the text being composed, or
/// the selection, widened to whole characters.
pub open spec fn aimed(s: State, range: Option<(usize, usize)>) -> (int, int) {
    match range {
        Some((from, to)) => clamped(s.text, from as int, to as int),
        None => match s.marked {
            Some((from, to)) => clamped(s.text, from as int, to as int),
            None => clamped(s.text, s.start, s.end),
        },
    }
}

/// The bytes of the note that a range of UTF-16 units is.
pub open spec fn in_bytes(s: State, range: Option<(usize, usize)>) -> Option<(usize, usize)> {
    match range {
        Some((from, to)) => Some(
            (
                unit_offset(decode_utf8(s.text), from as int) as usize,
                unit_offset(decode_utf8(s.text), to as int) as usize,
            ),
        ),
        None => None,
    }
}

/// A search to run once the typing settles.
pub open spec fn search_scheduled(f: FindState) -> FindState {
    FindState { search_gen: crate::app::counted(f.search_gen), search_pending: true, ..f }
}

/// `s` after `text` was typed. It goes to the palette if that is up, to the query
/// if the find bar has the keyboard, and otherwise into the note, with the caret
/// behind it.
pub open spec fn typing(s: State, range: Option<(usize, usize)>, text: Seq<char>, now: u64) -> State {
    match s.panels.palette {
        Some(p) => if one_line(text) {
            State {
                panels: PanelState {
                    palette: Some(PaletteState { query: p.query + text, selected: 0 }),
                    ..s.panels
                },
                ..s
            }
        } else {
            s
        },
        None => match holder(s) {
            Holder::Panel => s,
            Holder::Query => if one_line(text) {
                State { find: search_scheduled(s.find), ..s }
            } else {
                s
            },
            Holder::Note => {
                let (from, to) = aimed(s, range);
                let at = from + bytes(text).len();
                edited(s, from, to, bytes(text), at, at, now)
            },
        },
    }
}

/// What undo keeps of that.
pub open spec fn typing_edit(s: State, range: Option<(usize, usize)>, text: Seq<char>) -> Option<EditState> {
    if holder(s) == Holder::Note {
        let (from, to) = aimed(s, range);
        let at = from + bytes(text).len();
        Some(record_of(s, from, to, bytes(text), at, at))
    } else {
        None
    }
}

/// The selection an input method asks for, in the text it composes at `from`, its
/// two ends as they were given.
pub open spec fn composing_selection(text: Seq<char>, from: int, selected: Option<(usize, usize)>) -> (int, int) {
    match selected {
        Some((a, b)) => (
            from + unit_offset(text, a as int),
            from + unit_offset(text, b as int),
        ),
        None => (from + bytes(text).len(), from + bytes(text).len()),
    }
}

/// `s` after an input method put `text`, still being composed, in place of
/// `range` and asked for the selection `selected` in it.
pub open spec fn composing(
    s: State,
    range: Option<(usize, usize)>,
    text: Seq<char>,
    selected: Option<(usize, usize)>,
    now: u64,
) -> State {
    match holder(s) {
        Holder::Panel => s,
        Holder::Query => State { find: search_scheduled(s.find), ..s },
        Holder::Note => {
            let (from, to) = aimed(s, range);
            let (start, end) = composing_selection(text, from, selected);
            State {
                marked: if text.len() > 0 {
                    Some((from as usize, (from + bytes(text).len()) as usize))
                } else {
                    None
                },
                ..edited(s, from, to, bytes(text), start, end, now)
            }
        },
    }
}

/// What undo keeps of that. A composition is kept too: otherwise it would be
/// invisible to undo, and the offsets of what came before would be wrong.
pub open spec fn composing_edit(
    s: State,
    range: Option<(usize, usize)>,
    text: Seq<char>,
    selected: Option<(usize, usize)>,
) -> Option<EditState> {
    if holder(s) == Holder::Note {
        let (from, to) = aimed(s, range);
        let (start, end) = composing_selection(text, from, selected);
        Some(record_of(s, from, to, bytes(text), start, end))
    } else {
        None
    }
}

impl NoteApp {
    /// The bytes an edit of `range` replaces.
    fn aim(&self, range: Option<(usize, usize)>) -> (r: (usize, usize))
        requires
            self.wf(),
        ensures
            (r.0 as int, r.1 as int) == aimed(self@, range),
            r.0 <= r.1,
            boundary(self@.text, r.0 as int),
            boundary(self@.text, r.1 as int),
    {
        match range {
            Some((from, to)) => self.note.clamp_range(from, to),
            None => match self.marked {
                Some((from, to)) => self.note.clamp_range(from, to),
                None => self.note.clamp_range(self.start, self.end),
            },
        }
    }

    /// Ask for a search once the typing settles; the final state is always that
    /// of the final query, because only the latest timer may run.
    pub(crate) fn schedule_query_search(&mut self)
        requires
            old(self).wf(),
        ensures
            final(self).wf(),
            final(self)@ == (State { find: search_scheduled(old(self)@.find), ..old(self)@ }),
    {
        self.find.search_gen = if self.find.search_gen == u64::MAX {
            0
        } else {
            self.find.search_gen + 1
        };
        self.find.search_pending = true;
    }

    /// The bytes that a range of UTF-16 units is.
    fn range_in_bytes(&self, range: Option<(usize, usize)>) -> (r: Option<(usize, usize)>)
        ensures
            r == in_bytes(self@, range),
    {
        match range {
            Some((from, to)) => Some(self.range_from_utf16(from, to)),
            None => None,
        }
    }

    /// Type `new_text` in place of `range`, or of the text being composed, or of
    /// the selection; the system counts `range` in UTF-16 units. `Some` where the
    /// note was edited; where the find bar has the keyboard, its query is what to
    /// insert the text into.
    pub fn replace_text_in_range(&mut self, range: Option<(usize, usize)>, new_text: &str, now: u64) -> (r: Option<
        Edit,
    >)
        requires
            old(self).wf(),
        ensures
            final(self).wf(),
            final(self)@ == typing(old(self)@, in_bytes(old(self)@, range), new_text@, now),
            kept(r) == typing_edit(old(self)@, in_bytes(old(self)@, range), new_text@),
    {
        let range = self.range_in_bytes(range);
        self.type_text(range, new_text, now)
    }

    /// The same, with `range` in bytes.
    pub fn type_text(&mut self, range: Option<(usize, usize)>, new_text: &str, now: u64) -> (r: Option<
        Edit,
    >)
        requires
            old(self).wf(),
        ensures
            final(self).wf(),
            final(self)@ == typing(old(self)@, range, new_text@, now),
            kept(r) == typing_edit(old(self)@, range, new_text@),
    {
        if let Some(palette) = &mut self.panels.palette {
            palette.insert(new_text);
            return None;
        }
        match self.keyboard() {
            Holder::Panel => None,
            Holder::Query => {
                if !new_text.is_empty() && !has_newline(new_text) {
                    self.schedule_query_search();
                }
                None
            },
            Holder::Note => {
                let (from, to) = self.aim(range);
                Some(self.put(from, to, new_text, now))
            },
        }
    }

    /// Put `new_text`, still being composed, in place of `range`, or of what was
    /// being composed, or of the selection. The system counts both ranges in UTF-16
    /// units, `range` of the note and `selected` of the new text itself.
    pub fn replace_and_mark_text_in_range(
        &mut self,
        range: Option<(usize, usize)>,
        new_text: &str,
        selected: Option<(usize, usize)>,
        now: u64,
    ) -> (r: Option<Edit>)
        requires
            old(self).wf(),
        ensures
            final(self).wf(),
            final(self)@ == composing(
                old(self)@,
                in_bytes(old(self)@, range),
                new_text@,
                selected,
                now,
            ),
            kept(r) == composing_edit(
                old(self)@,
                in_bytes(old(self)@, range),
                new_text@,
                selected,
            ),
    {
        let range = self.range_in_bytes(range);
        match self.keyboard() {
            Holder::Panel => None,
            Holder::Query => {
                self.schedule_query_search();
                None
            },
            Holder::Note => {
                let (from, to) = self.aim(range);
                let n: usize = byte_len(new_text);
                let (a, b) = match selected {
                    Some((a, b)) => (utf16_offset_in(new_text, a), utf16_offset_in(new_text, b)),
                    None => (n, n),
                };
                let ghost s = self@;
                let ghost after = replaced(s.text, from as int, to as int, new_text.spec_bytes());
                proof {
                    self.lemma_wf();
                    lemma_string_ends(new_text@);
                    lemma_replaced_boundaries(s.text, from as int, to as int, new_text.spec_bytes());
                    assert(boundary(new_text.spec_bytes(), a as int));
                    assert(boundary(new_text.spec_bytes(), b as int));
                    assert(boundary(after, from + a));
                    assert(boundary(after, from + b));
                }
                let mut edit = self.put(from, to, new_text, now);
                self.start = from + a;
                self.end = from + b;
                edit.after = (from + a, from + b);
                self.marked = if new_text.is_empty() {
                    None
                } else {
                    Some((from, from + n))
                };
                Some(edit)
            },
        }
    }

    /// The composition is over: what it put in stays as it is. While the find bar
    /// has the keyboard the composition is the query's, not the note's.
    pub fn unmark_text(&mut self)
        requires
            old(self).wf(),
        ensures
            final(self).wf(),
            final(self)@ == (if old(self)@.find.focused {
                old(self)@
            } else {
                State { marked: None, ..old(self)@ }
            }),
    {
        if !self.find.focused {
            self.marked = None;
        }
    }

    /// A byte range as UTF-16 units.
    pub fn range_to_utf16(&self, from: usize, to: usize) -> (r: (usize, usize))
        requires
            self.wf(),
            boundary(self@.text, from as int),
            boundary(self@.text, to as int),
        ensures
            r.0 == unit_count(decode_utf8(self@.text.subrange(0, from as int))),
            r.1 == unit_count(decode_utf8(self@.text.subrange(0, to as int))),
    {
        (to_utf16(self.note.text(), from), to_utf16(self.note.text(), to))
    }

    /// A range of UTF-16 units as bytes.
    pub fn range_from_utf16(&self, from: usize, to: usize) -> (r: (usize, usize))
        ensures
            r.0 == unit_offset(decode_utf8(self@.text), from as int),
            r.1 == unit_offset(decode_utf8(self@.text), to as int),
    {
        let text = self.note.text();
        proof {
            encode_utf8_decode_utf8(text@);
        }
        (utf16_offset_in(text, from), utf16_offset_in(text, to))
    }

    /// The text of a range of UTF-16 units, and the range it really is.
    pub fn text_for_range(&self, from: usize, to: usize) -> (r: (String, (usize, usize)))
        requires
            self.wf(),
        ensures
            ({
                let (a, b) = clamped(
                    self@.text,
                    unit_offset(decode_utf8(self@.text), from as int),
                    unit_offset(decode_utf8(self@.text), to as int),
                );
                &&& bytes((r.0)@) == self@.text.subrange(a, b)
                &&& (r.1).0 == unit_count(decode_utf8(self@.text.subrange(0, a)))
                &&& (r.1).1 == unit_count(decode_utf8(self@.text.subrange(0, b)))
            }),
    {
        let (x, y) = self.range_from_utf16(from, to);
        let (a, b) = self.note.clamp_range(x, y);
        (String::from_str(slice(self.note.text(), a, b)), self.range_to_utf16(a, b))
    }

    /// The selection in UTF-16 units, and whether the caret is at its start.
    pub fn selected_text_range(&self) -> (r: ((usize, usize), bool))
        requires
            self.wf(),
        ensures
            (r.0).0 == unit_count(decode_utf8(self@.text.subrange(0, self@.start))),
            (r.0).1 == unit_count(decode_utf8(self@.text.subrange(0, self@.end))),
            r.1 == self@.reversed,
    {
        (self.range_to_utf16(self.start, self.end), self.reversed)
    }
}

} // verus!
