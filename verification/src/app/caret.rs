//! The caret and the selection: setting them, moving them, and the lines that
//! should be on screen with them.

use vstd::prelude::*;
use vstd::string::*;
use vstd::utf8::*;

use crate::app::{caret, holder, ungrouped, Holder, NoteApp, State};
use crate::lines::{lemma_line, lemma_line_boundaries, lemma_line_of, line, line_count, line_of, line_start};
use crate::markdown::carry::{blank, is_blank};
use crate::note::{clamped, floor};
use crate::text::slice;

verus! {

broadcast use {vstd::seq::group_seq_axioms, vstd::string::group_string_axioms};

/// Lines of context kept around the caret while typing.
pub const MARGIN: usize = 2;

/// Lines of context kept around a search hit.
pub const CONTEXT_LINES: usize = 3;

/// `s` with `start..end`, widened to whole characters, selected.
pub open spec fn selecting(s: State, start: int, end: int) -> State {
    let (from, to) = clamped(s.text, start, end);
    State { start: from, end: to, reversed: false, ..s }
}

/// `s` with the caret at `offset`, moved back onto a character boundary. A caret
/// jump ends the undo group: typing here should not merge with typing somewhere
/// else.
pub open spec fn moved_to(s: State, offset: int) -> State {
    let at = floor(s.text, offset);
    State { start: at, end: at, reversed: false, grouped: false, ..s }
}

/// `s` with its caret, and only that end of the selection, at `offset`.
pub open spec fn extended(s: State, offset: int) -> State {
    let at = floor(s.text, offset);
    let other = if s.reversed {
        s.end
    } else {
        s.start
    };
    State {
        start: if at < other {
            at
        } else {
            other
        },
        end: if at < other {
            other
        } else {
            at
        },
        // Dragging past the other end turns the selection round.
        reversed: if at < other {
            true
        } else if at > other {
            false
        } else {
            s.reversed
        },
        grouped: false,
        ..s
    }
}

/// The lines to bring on screen, in order, so that `around` lines on either side
/// of `line` are, of `count` lines in all.
pub open spec fn revealed(line: int, around: int, count: int) -> (int, int) {
    (
        if line + around < count {
            line + around
        } else {
            count - 1
        },
        if line > around {
            line - around
        } else {
            0
        },
    )
}

/// The first line at or after `l` that is blank, or that is not; the line count
/// where there is none.
pub open spec fn line_from(b: Seq<u8>, l: int, want_blank: bool) -> int
    decreases line_count(b) - l,
{
    if l >= line_count(b) || blank(line(b, l)) == want_blank {
        l
    } else {
        line_from(b, l + 1, want_blank)
    }
}

/// The first line of the run of blank lines, or of lines that are not, that ends
/// above line `l`; `l` itself where there is none.
pub open spec fn run_start(b: Seq<u8>, l: int, want_blank: bool) -> int
    decreases l,
{
    if l <= 0 || blank(line(b, l - 1)) != want_blank {
        l
    } else {
        run_start(b, l - 1, want_blank)
    }
}

/// Where ⌥↑ and ⌥↓ land from `at`. A paragraph is a run of lines that are not
/// blank. Down is the first line of the next one, or the end; up is the start of
/// this one, or of the one before when already there.
pub open spec fn paragraph_edge(b: Seq<u8>, at: int, down: bool) -> int {
    let here = line_of(b, at);
    if down {
        line_start(b, line_from(b, line_from(b, here, true), false))
    } else {
        let start = run_start(b, here, false);
        if at > line_start(b, start) {
            line_start(b, start)
        } else {
            line_start(b, run_start(b, run_start(b, start, true), false))
        }
    }
}

impl NoteApp {
    /// Where the caret is.
    pub fn cursor_offset(&self) -> (r: usize)
        ensures
            r == caret(self@),
    {
        if self.reversed {
            self.start
        } else {
            self.end
        }
    }

    /// Select `start..end` without ending the undo group. For the commands that
    /// select and then replace: those go on with the typing.
    pub fn set_selection(&mut self, start: usize, end: usize)
        requires
            old(self).wf(),
        ensures
            final(self).wf(),
            final(self)@ == selecting(old(self)@, start as int, end as int),
    {
        let (from, to) = self.note.clamp_range(start, end);
        self.start = from;
        self.end = to;
        self.reversed = false;
    }

    /// End the undo group: the next edit starts another.
    pub fn break_group(&mut self)
        requires
            old(self).wf(),
        ensures
            final(self).wf(),
            final(self)@ == ungrouped(old(self)@),
    {
        self.grouped = false;
    }

    /// Put the caret at `offset`.
    pub fn move_to(&mut self, offset: usize)
        requires
            old(self).wf(),
        ensures
            final(self).wf(),
            final(self)@ == moved_to(old(self)@, offset as int),
    {
        let at: usize = self.note.clamp_offset(offset);
        self.start = at;
        self.end = at;
        self.reversed = false;
        self.grouped = false;
    }

    /// Move the caret's end of the selection to `offset`, leaving the other.
    pub fn extend_selection(&mut self, offset: usize)
        requires
            old(self).wf(),
        ensures
            final(self).wf(),
            final(self)@ == extended(old(self)@, offset as int),
    {
        let at: usize = self.note.clamp_offset(offset);
        if self.reversed {
            self.start = at;
        } else {
            self.end = at;
        }
        if self.end < self.start {
            self.reversed = !self.reversed;
            let low: usize = self.end;
            self.end = self.start;
            self.start = low;
        }
        self.grouped = false;
    }

    /// ←: one character back, or to the start of the selection. `previous` is
    /// where the character before the caret begins.
    pub fn left(&mut self, previous: usize)
        requires
            old(self).wf(),
        ensures
            final(self).wf(),
            final(self)@ == moved_to(
                old(self)@,
                if old(self)@.start >= old(self)@.end {
                    previous as int
                } else {
                    old(self)@.start
                },
            ),
    {
        if self.start >= self.end {
            self.move_to(previous);
        } else {
            self.move_to(self.start);
        }
    }

    /// →: one character on, or to the end of the selection. `next` is where the
    /// character after the caret ends.
    pub fn right(&mut self, next: usize)
        requires
            old(self).wf(),
        ensures
            final(self).wf(),
            final(self)@ == moved_to(
                old(self)@,
                if old(self)@.start >= old(self)@.end {
                    next as int
                } else {
                    old(self)@.end
                },
            ),
    {
        if self.start >= self.end {
            self.move_to(next);
        } else {
            self.move_to(self.end);
        }
    }

    /// Where a move by words starts from: the caret, or the edge of the selection
    /// that lies in the move's direction.
    pub fn word_from(&self, forward: bool) -> (r: usize)
        ensures
            r == (if self@.start >= self@.end {
                caret(self@)
            } else if forward {
                self@.end
            } else {
                self@.start
            }),
    {
        if self.start >= self.end {
            self.cursor_offset()
        } else if forward {
            self.end
        } else {
            self.start
        }
    }

    /// ↑ and ↓ over a selection leave from its near edge — top for ↑, bottom for
    /// ↓ — instead of stepping from the caret, which may be at the far one.
    pub fn collapse_for_vertical(&mut self, down: bool)
        requires
            old(self).wf(),
        ensures
            final(self).wf(),
            final(self)@ == (if old(self)@.start >= old(self)@.end {
                old(self)@
            } else {
                let edge = if down {
                    old(self)@.end
                } else {
                    old(self)@.start
                };
                State { start: edge, end: edge, reversed: false, ..old(self)@ }
            }),
    {
        if self.start >= self.end {
            return;
        }
        if down {
            self.start = self.end;
        } else {
            self.end = self.start;
        }
        self.reversed = false;
    }

    /// ⌘A: the whole note, unless a panel is up. While the find bar has the
    /// keyboard the query is what to select; who has it is returned.
    pub fn select_all(&mut self) -> (r: Holder)
        requires
            old(self).wf(),
        ensures
            final(self).wf(),
            r == holder(old(self)@),
            final(self)@ == (if r == Holder::Note {
                State {
                    start: 0,
                    end: old(self)@.text.len() as int,
                    reversed: false,
                    grouped: false,
                    ..old(self)@
                }
            } else {
                old(self)@
            }),
    {
        let who = self.keyboard();
        if let Holder::Note = who {
            proof {
                self.lemma_wf();
            }
            self.start = 0;
            self.end = self.note.len();
            self.reversed = false;
            self.grouped = false;
        }
        who
    }

    /// Where ⌥↑ and ⌥↓ land: the boundary of the paragraph the caret is in.
    pub fn paragraph_target(&self, down: bool) -> (r: usize)
        requires
            self.wf(),
        ensures
            r == paragraph_edge(self@.text, caret(self@), down),
    {
        let ghost b = self@.text;
        let count: usize = self.index.line_count();
        let at: usize = self.cursor_offset();
        let line: usize = self.index.line_at(at);
        proof {
            self.lemma_wf();
            lemma_line_of(b, at as int);
        }
        if down {
            let gap: usize = self.next_line(line, true);
            let l: usize = self.next_line(gap, false);
            if l >= count {
                self.note.len()
            } else {
                self.index.line_start(l)
            }
        } else {
            let start: usize = self.run_up(line, false);
            let para_start: usize = self.index.line_start(start);
            if at > para_start {
                para_start
            } else {
                let gap: usize = self.run_up(start, true);
                let l: usize = self.run_up(gap, false);
                self.index.line_start(l)
            }
        }
    }

    /// Whether `line` is blank.
    fn is_blank_line(&self, line: usize) -> (r: bool)
        requires
            self.wf(),
            line < line_count(self@.text),
        ensures
            r == blank(crate::lines::line(self@.text, line as int)),
    {
        proof {
            self.lemma_wf();
            lemma_line(self@.text, line as int);
            lemma_line_boundaries(self@.text, line as int);
        }
        is_blank(slice(self.note.text(), self.index.line_start(line), self.index.line_end(line)))
    }

    fn next_line(&self, from: usize, want_blank: bool) -> (r: usize)
        requires
            self.wf(),
            from <= line_count(self@.text),
        ensures
            r == line_from(self@.text, from as int, want_blank),
            from <= r <= line_count(self@.text),
    {
        let count: usize = self.index.line_count();
        let mut l: usize = from;
        while l < count && self.is_blank_line(l) != want_blank
            invariant
                self.wf(),
                count == line_count(self@.text),
                from <= l <= count,
                line_from(self@.text, l as int, want_blank) == line_from(
                    self@.text,
                    from as int,
                    want_blank,
                ),
            decreases count - l,
        {
            l += 1;
        }
        l
    }

    fn run_up(&self, from: usize, want_blank: bool) -> (r: usize)
        requires
            self.wf(),
            from < line_count(self@.text),
        ensures
            r == run_start(self@.text, from as int, want_blank),
            r <= from,
    {
        let mut l: usize = from;
        while l > 0 && self.is_blank_line(l - 1) == want_blank
            invariant
                self.wf(),
                l <= from < line_count(self@.text),
                run_start(self@.text, l as int, want_blank) == run_start(
                    self@.text,
                    from as int,
                    want_blank,
                ),
            decreases l,
        {
            l -= 1;
        }
        l
    }

    /// Extend a drag that began with a double or triple click: `range` covers the
    /// word or paragraph it began at and the one under the pointer, and `reversed`
    /// says whether the pointer went back.
    pub fn extend_selection_granular(&mut self, range: (usize, usize), reversed: bool)
        requires
            old(self).wf(),
        ensures
            final(self).wf(),
            ({
                let (start, end) = clamped(old(self)@.text, range.0 as int, range.1 as int);
                final(self)@ == (State { start, end, reversed, grouped: false, ..old(self)@ })
            }),
    {
        let (a, b) = self.note.clamp_range(range.0, range.1);
        self.start = a;
        self.end = b;
        self.reversed = reversed;
        self.grouped = false;
    }

    /// The lines to bring on screen, in order, so that the caret's line has
    /// `around` lines on either side. The second wins when both cannot fit, which
    /// keeps the caret itself on screen in a very short window.
    pub fn lines_around_caret(&self, around: usize) -> (r: (usize, usize))
        requires
            self.wf(),
        ensures
            (r.0 as int, r.1 as int) == revealed(
                line_of(self@.text, caret(self@)),
                around as int,
                line_count(self@.text) as int,
            ),
    {
        let line: usize = self.index.line_at(self.cursor_offset());
        proof {
            self.lemma_wf();
            lemma_line_of(self@.text, caret(self@));
        }
        let last: usize = self.index.line_count() - 1;
        (
            if around < last - line {
                line + around
            } else {
                last
            },
            if line > around {
                line - around
            } else {
                0
            },
        )
    }

    /// The same for centring the caret's line in a window of `visible` lines.
    pub fn center_caret(&self, visible: usize) -> (r: (usize, usize))
        requires
            self.wf(),
        ensures
            (r.0 as int, r.1 as int) == revealed(
                line_of(self@.text, caret(self@)),
                if visible >= 2 {
                    (visible / 2) as int
                } else {
                    1
                },
                line_count(self@.text) as int,
            ),
    {
        let half: usize = if visible >= 2 {
            visible / 2
        } else {
            1
        };
        self.lines_around_caret(half)
    }

    /// The line to put at the top of the window again, after every row was measured
    /// anew, where `top` stood there.
    pub fn kept_line(&self, top: usize) -> (r: usize)
        requires
            self.wf(),
        ensures
            r == (if top < line_count(self@.text) {
                top as int
            } else {
                line_count(self@.text) - 1
            }),
    {
        let count: usize = self.index.line_count();
        proof {
            self.lemma_wf();
            crate::lines::lemma_line_starts(self@.text);
        }
        if top < count {
            top
        } else {
            count - 1
        }
    }
}

} // verus!
