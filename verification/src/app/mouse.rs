//! Presses of the mouse in the note, and the task boxes one may land on.

use vstd::prelude::*;
use vstd::string::*;
use vstd::utf8::*;

use crate::app::caret::{extended, moved_to, selecting};
use crate::app::clipboard::blurred;
use crate::app::lines::least;
use crate::app::rows::link_under;
use crate::app::{
    edited, kept, lemma_replaced_boundaries, modal, record_of, ungrouped, Edit, EditState, NoteApp,
    PanelState, State,
};
use crate::ascii::CLOSE_BRACKET;
use crate::fences::{fence_flags, open_before};
use crate::lines::{
    lemma_line, lemma_line_boundaries, lemma_line_of, line, line_end, line_of, line_start,
};
use crate::markdown::links::says;
use crate::markdown::{highlight_line, line_spans, styled, MdStyle, Span, Styled};
use crate::text::{boundary, byte_len, lemma_string_ends, replaced, same_text, slice};

verus! {

broadcast use {vstd::seq::group_seq_axioms, vstd::string::group_string_axioms};

/// Whether `at` is on the brackets of the task box that span `t` of line `l`
/// marks. The span includes the space after the box, and the space is text.
pub open spec fn on_box(l: Seq<u8>, t: Styled, at: int) -> bool {
    &&& t.style == MdStyle::TaskOpen || t.style == MdStyle::TaskDone
    &&& exists|close: int| #[trigger] closes_at(l, t, close) && t.start <= at <= close
}

/// Whether the first closing bracket of span `t` is at `close`.
pub open spec fn closes_at(l: Seq<u8>, t: Styled, close: int) -> bool {
    &&& t.start <= close < t.end
    &&& l[close] == CLOSE_BRACKET
    &&& forall|k: int| t.start <= k < close ==> l[k] != CLOSE_BRACKET
}

/// Whether a press at byte `at` of line `l` is on a task's own box.
pub open spec fn box_hit(l: Seq<u8>, at: int) -> bool {
    exists|i: int|
        0 <= i < line_spans(l, false).len() && on_box(l, #[trigger] line_spans(l, false)[i], at)
}

/// Whether a press at `offset` is on a task's box, outside any fence.
pub open spec fn ticks(s: State, offset: int) -> bool {
    let l = line_of(s.text, offset);
    !open_before(fence_flags(s.text), l) && box_hit(
        line(s.text, l),
        offset - line_start(s.text, l),
    )
}

/// `s` with the line that `offset` is on written as `toggled`, and the caret left
/// where the press put it.
pub open spec fn ticked(s: State, offset: int, toggled: Seq<u8>, now: u64) -> State {
    let l = line_of(s.text, offset);
    let from = line_start(s.text, l);
    let at = least(offset, from + toggled.len());
    State {
        reversed: false,
        ..ungrouped(
            edited(ungrouped(s), from, line_end(s.text, l), toggled, at, at, now),
        )
    }
}

/// What undo keeps of that.
pub open spec fn ticked_edit(s: State, offset: int, toggled: Seq<u8>) -> EditState {
    let l = line_of(s.text, offset);
    let from = line_start(s.text, l);
    let at = least(offset, from + toggled.len());
    record_of(ungrouped(s), from, line_end(s.text, l), toggled, at, at)
}

/// Whether a press at `offset` ticks the box of its task: there is one, and
/// ticking it changes the line.
pub open spec fn will_tick(s: State, offset: int, toggled: Seq<u8>) -> bool {
    ticks(s, offset) && toggled != line(s.text, line_of(s.text, offset))
}

/// What a drag goes on with after a press: single characters, or whole words or
/// paragraphs.
#[derive(Clone, Copy, Debug, PartialEq, Eq, Structural)]
pub enum DragGranularity {
    Char,
    Word,
    Paragraph,
}

/// A press of the left button in the note.
pub struct Press {
    /// The byte offset under the pointer.
    pub at: usize,
    pub clicks: usize,
    pub shift: bool,
    /// ⌘ is held.
    pub platform: bool,
    /// The word or the paragraph under the pointer, for a double or a triple
    /// click.
    pub unit: Option<(usize, usize)>,
}

/// What a press comes to.
pub struct Pressed {
    /// The edit that a ticked box makes.
    pub edit: Option<Edit>,
    /// What a drag goes on with; `None` where there is none to go on.
    pub drag: Option<DragGranularity>,
    /// The address to open.
    pub link: Option<String>,
}

/// The address that press `p` opens: with ⌘, that of the link under the pointer.
pub open spec fn press_opens(s: State, p: Press) -> Option<Seq<u8>> {
    if p.platform {
        link_under(s, p.at as int)
    } else {
        None
    }
}

/// `s` with the keyboard back in the note and no menu at the pointer.
pub open spec fn pressed(s: State) -> State {
    State {
        find: if s.find.focused {
            blurred(s.find)
        } else {
            s.find
        },
        panels: PanelState { context_menu: false, ..s.panels },
        ..s
    }
}

/// The granularity of the drag that goes on from press `p`.
pub open spec fn drag_of(p: Press) -> DragGranularity {
    if p.shift || p.unit is None {
        DragGranularity::Char
    } else if p.clicks == 2 {
        DragGranularity::Word
    } else {
        DragGranularity::Paragraph
    }
}

/// Whether press `p` ticks a task's box.
pub open spec fn press_ticks(s: State, p: Press, toggled: Seq<u8>) -> bool {
    p.clicks == 1 && !p.shift && will_tick(s, p.at as int, toggled)
}

/// `s` after press `p`, where no box is ticked: with shift the selection reaches
/// to the pointer, a multiple click selects its unit, and otherwise the caret
/// goes there.
pub open spec fn placed(s: State, p: Press) -> State {
    if p.shift {
        extended(s, p.at as int)
    } else {
        match p.unit {
            Some((from, to)) => selecting(ungrouped(s), from as int, to as int),
            None => moved_to(s, p.at as int),
        }
    }
}

/// Whether `at` is on the brackets of a task's box in `raw`.
fn hits_box(raw: &str, at: usize) -> (r: bool)
    ensures
        r == box_hit(raw.spec_bytes(), at as int),
{
    let spans = highlight_line(raw, false);
    let b = raw.as_bytes();
    let ghost all = line_spans(raw.spec_bytes(), false);
    let mut i: usize = 0;
    while i < spans.len()
        invariant
            b@ == raw.spec_bytes(),
            all == line_spans(b@, false),
            styled(spans@) == all,
            crate::markdown::cover::on_boundaries(all, b@, 0),
            i <= spans@.len(),
            forall|k: int| 0 <= k < i ==> !on_box(b@, #[trigger] all[k], at as int),
        decreases spans@.len() - i,
    {
        assert(all[i as int] == spans@[i as int]@);
        let s = spans[i];
        let task = match s.style {
            MdStyle::TaskOpen => true,
            MdStyle::TaskDone => true,
            _ => false,
        };
        if task && in_brackets(b, s, at) {
            return true;
        }
        i += 1;
    }
    false
}

/// Whether `at` is before or on the first closing bracket of `s`.
fn in_brackets(b: &[u8], s: Span, at: usize) -> (r: bool)
    requires
        s.end <= b@.len(),
    ensures
        r == exists|close: int| #[trigger] closes_at(b@, s@, close) && s.start <= at <= close,
{
    let mut k: usize = s.start;
    while k < s.end
        invariant
            s.end <= b@.len(),
            s.start <= k,
            forall|j: int| s.start <= j < k ==> b@[j] != CLOSE_BRACKET,
        decreases s.end - k,
    {
        if b[k] == CLOSE_BRACKET {
            assert(closes_at(b@, s@, k as int));
            assert forall|close: int| #[trigger] closes_at(b@, s@, close) implies close == k by {
                if close < k {
                    assert(b@[close] != CLOSE_BRACKET);
                }
                if close > k {
                    assert(b@[k as int] != CLOSE_BRACKET);
                }
            }
            return s.start <= at && at <= k;
        }
        k += 1;
    }
    false
}

impl NoteApp {
    /// Tick the task box under `offset`, if that is what was pressed. `toggled` is
    /// the line with its box ticked, or unticked.
    pub fn toggle_task_box_at(&mut self, offset: usize, toggled: &str, now: u64) -> (r: Option<Edit>)
        requires
            old(self).wf(),
            will_tick(old(self)@, offset as int, toggled.spec_bytes()) ==> boundary(
                toggled.spec_bytes(),
                least(
                    offset - line_start(old(self)@.text, line_of(old(self)@.text, offset as int)),
                    toggled.spec_bytes().len() as int,
                ),
            ),
        ensures
            final(self).wf(),
            ({
                let s = old(self)@;
                if will_tick(s, offset as int, toggled.spec_bytes()) {
                    &&& final(self)@ == ticked(s, offset as int, toggled.spec_bytes(), now)
                    &&& kept(r) == Some(ticked_edit(s, offset as int, toggled.spec_bytes()))
                } else {
                    final(self)@ == s && r is None
                }
            }),
    {
        let ghost s = self@;
        let l: usize = self.index.line_at(offset);
        proof {
            self.lemma_wf();
            lemma_line_of(s.text, offset as int);
            lemma_line(s.text, l as int);
            lemma_line_boundaries(s.text, l as int);
            assert(crate::lines::line_starts(s.text)[l as int] <= offset);
        }
        if self.fences.is_open(l) {
            return None;
        }
        let from: usize = self.index.line_start(l);
        let to: usize = self.index.line_end(l);
        let raw = slice(self.note.text(), from, to);
        let within: usize = offset - from;
        if !hits_box(raw, within) || same_text(raw, toggled) {
            return None;
        }
        let n: usize = byte_len(toggled);
        let k: usize = if within < n {
            within
        } else {
            n
        };
        proof {
            lemma_string_ends(toggled@);
            lemma_replaced_boundaries(s.text, from as int, to as int, toggled.spec_bytes());
            assert(boundary(
                replaced(s.text, from as int, to as int, toggled.spec_bytes()),
                from + k,
            ));
        }
        self.break_group();
        let mut edit = self.put(from, to, toggled, now);
        self.start = from + k;
        self.end = from + k;
        edit.after = (from + k, from + k);
        self.reversed = false;
        self.break_group();
        Some(edit)
    }

    /// A press of the left button. While a panel is up it does nothing. With ⌘ on a
    /// link it opens the link, and the caret stays where it is, as the keyboard
    /// does. Otherwise it hands the keyboard back to the note and ticks a task's
    /// box, or places the caret or the selection.
    pub fn on_mouse_down(&mut self, p: Press, toggled: &str, now: u64) -> (r: Pressed)
        requires
            old(self).wf(),
            will_tick(old(self)@, p.at as int, toggled.spec_bytes()) ==> boundary(
                toggled.spec_bytes(),
                least(
                    p.at - line_start(old(self)@.text, line_of(old(self)@.text, p.at as int)),
                    toggled.spec_bytes().len() as int,
                ),
            ),
        ensures
            final(self).wf(),
            ({
                let s = pressed(old(self)@);
                let opens = press_opens(old(self)@, p);
                if modal(old(self)@) {
                    final(self)@ == old(self)@ && r.edit is None && r.drag is None && r.link is None
                } else if opens is Some {
                    &&& final(self)@ == old(self)@
                    &&& r.edit is None
                    &&& r.drag is None
                    &&& says(r.link, opens)
                } else if press_ticks(s, p, toggled.spec_bytes()) {
                    &&& final(self)@ == ticked(s, p.at as int, toggled.spec_bytes(), now)
                    &&& kept(r.edit) == Some(ticked_edit(s, p.at as int, toggled.spec_bytes()))
                    &&& r.drag == Some(DragGranularity::Char)
                    &&& r.link is None
                } else {
                    &&& final(self)@ == placed(s, p)
                    &&& r.edit is None
                    &&& r.drag == Some(drag_of(p))
                    &&& r.link is None
                }
            }),
    {
        if self.modal_open() {
            return Pressed { edit: None, drag: None, link: None };
        }
        if p.platform {
            let link = self.link_at_offset(p.at);
            if link.is_some() {
                return Pressed { edit: None, drag: None, link };
            }
        }
        if self.find.focused {
            self.blur_find();
        }
        self.panels.context_menu = false;
        if p.clicks == 1 && !p.shift {
            let edit = self.toggle_task_box_at(p.at, toggled, now);
            if edit.is_some() {
                return Pressed { edit, drag: Some(DragGranularity::Char), link: None };
            }
        }
        let drag = if p.shift {
            self.extend_selection(p.at);
            DragGranularity::Char
        } else {
            match p.unit {
                Some((from, to)) => {
                    self.break_group();
                    self.set_selection(from, to);
                    if p.clicks == 2 {
                        DragGranularity::Word
                    } else {
                        DragGranularity::Paragraph
                    }
                },
                None => {
                    self.move_to(p.at);
                    DragGranularity::Char
                },
            }
        };
        Pressed { edit: None, drag: Some(drag), link: None }
    }

    /// A press of the right button at `at`: the menu opens there. The caret goes
    /// there first when it lands outside the selection, so that the menu's
    /// commands act on something predictable.
    pub fn on_right_mouse_down(&mut self, at: usize) -> (r: bool)
        requires
            old(self).wf(),
        ensures
            final(self).wf(),
            ({
                let s = old(self)@;
                let t = State {
                    find: if s.find.focused {
                        blurred(s.find)
                    } else {
                        s.find
                    },
                    panels: PanelState { context_menu: true, ..s.panels },
                    ..s
                };
                &&& r == !modal(s)
                &&& final(self)@ == (if modal(s) {
                    s
                } else if s.start <= at < s.end {
                    t
                } else {
                    moved_to(t, at as int)
                })
            }),
    {
        if self.modal_open() {
            return false;
        }
        if self.find.focused {
            self.blur_find();
        }
        if !(self.start <= at && at < self.end) {
            self.move_to(at);
        }
        self.panels.context_menu = true;
        true
    }
}

} // verus!
