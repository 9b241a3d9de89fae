//! How one row of the note is drawn: as a rule, as code, as a heading, as a
//! picture, or as text. The screen asks for one visible line at a time, and no
//! answer here looks at more of the document than the lines around it.

use vstd::prelude::*;
use vstd::string::*;
use vstd::utf8::*;

use crate::app::lines::least;
use crate::app::{caret, NoteApp, State};
use crate::fences::{fence_flags, open_before};
use crate::lines::{
    lemma_line, lemma_line_boundaries, lemma_line_of, lemma_line_starts, line, line_count, line_end,
    line_of, line_start,
};
use crate::markdown::carry::{blank, is_blank};
use crate::markdown::links::{says, target};
use crate::markdown::{
    fence, highlight_line, indented_code, is_fence, is_indented_code, is_separator, line_spans,
    link_at, quote_depth, separator, setext_level, sigils, styled, takes_setext_underline,
    underlinable, underline, MdStyle, Span, Styled,
};
use crate::note::divides;
use crate::text::{byte_len, bytes, slice};

verus! {

broadcast use {vstd::seq::group_seq_axioms, vstd::string::group_string_axioms};

/// A run of indented lines longer than this is code by any reading.
pub const MAX_RUN: usize = 200;

/// Whether a run of indented lines that reaches up to line `top` is code, judged
/// by what comes before it: a blank line, or the start of the document, opens a
/// block, and prose right above means the run goes on with that. At most `left`
/// lines are looked at.
pub open spec fn run_opens(b: Seq<u8>, top: int, left: int) -> bool
    decreases left,
{
    if left <= 0 || top <= 0 || blank(line(b, top - 1)) {
        true
    } else {
        indented_code(decode_utf8(line(b, top - 1))) && run_opens(b, top - 1, left - 1)
    }
}

/// Whether line `l` sits in a block of indented code.
pub open spec fn in_indented_code(b: Seq<u8>, l: int) -> bool {
    l < line_count(b) && indented_code(decode_utf8(line(b, l))) && run_opens(b, l, MAX_RUN as int)
}

/// The lines around one that decide how it is drawn.
pub struct RowFacts {
    /// Whether it starts inside a fence, or is indented code: its text is code.
    pub code: bool,
    /// Whether it stands on the surface of a code block, fence lines included.
    pub band: bool,
    /// Whether it divides two notes.
    pub rule: bool,
    /// Whether it is the invitation to type in an empty document.
    pub placeholder: bool,
    /// Whether it underlines the line above into a heading.
    pub underlines: bool,
    /// The level of the heading it is.
    pub heading: Option<u8>,
    /// Whether ordinary text stands right above it.
    pub follows_text: bool,
    /// How many levels a quote in it is nested in others.
    pub nesting: int,
}

/// The level of the first heading among the spans.
pub open spec fn heading_level(spans: Seq<Styled>, i: int) -> Option<u8>
    decreases spans.len() - i,
{
    if i < 0 || i >= spans.len() {
        None
    } else {
        match spans[i].style {
            MdStyle::Heading(level) => Some(level),
            MdStyle::HeadingMarker(level) => Some(level),
            _ => heading_level(spans, i + 1),
        }
    }
}

/// The text of line `l`; none past the last line.
pub open spec fn row_text(b: Seq<u8>, l: int) -> Seq<u8> {
    b.subrange(line_start(b, l), line_end(b, l))
}

/// What decides how line `l` of `b` is drawn.
pub open spec fn row_facts(b: Seq<u8>, l: int) -> RowFacts {
    let raw = row_text(b, l);
    let code = open_before(fence_flags(b), l) || in_indented_code(b, l);
    let band = code || fence(raw);
    RowFacts {
        code,
        band,
        rule: divides(b, l),
        placeholder: b.len() == 0 && l == 0,
        underlines: !band && underline(raw) && 0 < l <= line_count(b) && underlinable(
            decode_utf8(line(b, l - 1)),
        ),
        heading: match heading_level(line_spans(raw, code), 0) {
            Some(level) => Some(level),
            // The other way to write a heading is a run of `=` on the line below.
            None => if !band && l + 1 < line_count(b) && underline(line(b, l + 1)) && underlinable(
                decode_utf8(raw),
            ) {
                Some(1u8)
            } else {
                None
            },
        },
        follows_text: 0 < l <= line_count(b) && !blank(line(b, l - 1)) && !separator(
            decode_utf8(line(b, l - 1)),
        ),
        nesting: if band || sigils(raw, 0) == 0 {
            0
        } else {
            sigils(raw, 0) - 1
        },
    }
}

/// What is drawn in place of a row's own text.
#[derive(Clone, Copy, Debug, PartialEq, Eq, Structural)]
pub enum Stand {
    /// The text itself.
    Text,
    /// A space, so that an empty row does not collapse.
    Space,
    /// The invitation to type.
    Invitation,
}

/// The colour a row is drawn in where no span says otherwise.
#[derive(Clone, Copy, Debug, PartialEq, Eq, Structural)]
pub enum Ink {
    /// Markup: dim.
    Marker,
    /// The invitation to type.
    Placeholder,
    /// Present and editable, but invisible: a rule, or the reference of a picture.
    Hidden,
    Plain,
}

/// One row, ready to be drawn.
#[derive(Clone, Debug, PartialEq, Eq)]
pub struct Row {
    pub from: usize,
    pub to: usize,
    pub code: bool,
    pub band: bool,
    pub rule: bool,
    pub stand: Stand,
    pub ink: Ink,
    /// Whether the spans of the line are drawn.
    pub spans_shown: bool,
    pub heading: Option<u8>,
    pub follows_text: bool,
    pub nesting: usize,
    /// Whether a picture stands in place of the text.
    pub hidden: bool,
    /// Whether a picture shows its reference above it.
    pub reveal: bool,
    /// Whether a picture is selected.
    pub picked: bool,
    /// The part of the row that is selected.
    pub selected_from: usize,
    pub selected_to: usize,
    /// Whether the selection is drawn.
    pub selection_shown: bool,
    /// Where the caret is drawn.
    pub caret: Option<usize>,
}

/// The bytes the invitation takes.
pub open spec fn invitation() -> Seq<char> {
    "Start typing…"@
}

/// How many bytes are drawn for a row whose own text has `len`.
pub open spec fn shown_len(stand: Stand, len: int) -> int {
    match stand {
        Stand::Text => len,
        Stand::Space => 1,
        Stand::Invitation => bytes(invitation()).len() as int,
    }
}

/// What stands in for the text of a row.
pub open spec fn standing(placeholder: bool, len: int) -> Stand {
    if placeholder {
        Stand::Invitation
    } else if len == 0 {
        Stand::Space
    } else {
        Stand::Text
    }
}

/// `x`, or the end of `from..to` nearest to it.
pub open spec fn within(x: int, from: int, to: int) -> int {
    if x < from {
        from
    } else if x > to {
        to
    } else {
        x
    }
}

/// The part of row `from..to`, of which `shown` bytes are drawn, that the
/// selection covers. A selection that runs past the line covers its line break,
/// which shows as a sliver, so that selecting blank lines is visible.
pub open spec fn selected_part(s: State, from: int, to: int, shown: int) -> (int, int) {
    let low = within(s.start, from, to) - from;
    let high = if s.end > to && s.start <= to && s.start < s.end {
        shown
    } else {
        within(s.end, from, to) - from
    };
    (least(low, shown), least(high, shown))
}

/// Whether the caret, nothing being selected, is in `from..to`.
pub open spec fn caret_in(s: State, from: int, to: int) -> bool {
    s.start >= s.end && from <= caret(s) <= to
}

impl NoteApp {
    /// The text of line `l`, without its line break; empty past the last line.
    fn row_str(&self, l: usize) -> (r: &str)
        requires
            self.wf(),
        ensures
            r.spec_bytes() == row_text(self@.text, l as int),
            r.spec_bytes() == line(self@.text, l as int),
            bytes(r@) == r.spec_bytes(),
            decode_utf8(r.spec_bytes()) == r@,
            0 <= line_start(self@.text, l as int) <= line_end(self@.text, l as int)
                <= self@.text.len(),
    {
        proof {
            self.lemma_wf();
            lemma_line_starts(self@.text);
            if l < line_count(self@.text) {
                lemma_line(self@.text, l as int);
                lemma_line_boundaries(self@.text, l as int);
            }
        }
        let r = slice(self.note.text(), self.index.line_start(l), self.index.line_end(l));
        proof {
            encode_utf8_decode_utf8(r@);
        }
        r
    }

    /// Whether `l` sits in a block of indented code. A run of indented lines is
    /// one block, and only its first line can be judged on its own, so this walks
    /// back to the top of the run and asks what preceded it.
    pub fn starts_indented_code(&self, l: usize) -> (r: bool)
        requires
            self.wf(),
        ensures
            r == in_indented_code(self@.text, l as int),
    {
        if l >= self.index.line_count() || !is_indented_code(self.row_str(l), true) {
            return false;
        }
        let mut top: usize = l;
        let mut left: usize = MAX_RUN;
        while left > 0
            invariant
                self.wf(),
                top <= l < line_count(self@.text),
                left <= MAX_RUN,
                run_opens(self@.text, top as int, left as int) == run_opens(
                    self@.text,
                    l as int,
                    MAX_RUN as int,
                ),
                in_indented_code(self@.text, l as int) == run_opens(
                    self@.text,
                    l as int,
                    MAX_RUN as int,
                ),
            decreases left,
        {
            if top == 0 {
                return true;
            }
            let above = self.row_str(top - 1);
            if is_blank(above) {
                return true;
            }
            if !is_indented_code(above, true) {
                return false;
            }
            top -= 1;
            left -= 1;
        }
        true
    }

    /// The level of the heading that line `l` is.
    fn heading_of(&self, l: usize, code: bool, band: bool) -> (r: Option<u8>)
        requires
            self.wf(),
            code == row_facts(self@.text, l as int).code,
            band == row_facts(self@.text, l as int).band,
        ensures
            r == row_facts(self@.text, l as int).heading,
    {
        let raw = self.row_str(l);
        let spans = highlight_line(raw, code);
        let ghost all = line_spans(raw.spec_bytes(), code);
        let mut i: usize = 0;
        while i < spans.len()
            invariant
                styled(spans@) == all,
                i <= spans@.len(),
                all == line_spans(row_text(self@.text, l as int), code),
                code == row_facts(self@.text, l as int).code,
                heading_level(all, i as int) == heading_level(all, 0),
            decreases spans@.len() - i,
        {
            assert(all[i as int] == spans@[i as int]@);
            match spans[i].style {
                MdStyle::Heading(level) => {
                    return Some(level);
                },
                MdStyle::HeadingMarker(level) => {
                    return Some(level);
                },
                _ => {},
            }
            i += 1;
        }
        let count: usize = self.index.line_count();
        if !band && l < count && l + 1 < count && setext_level(self.row_str(l + 1)).is_some()
            && takes_setext_underline(raw) {
            Some(1)
        } else {
            None
        }
    }

    /// How line `l` is drawn. `picture` says that the line is nothing but a
    /// reference into the image store, `resizing` that the picture is being
    /// resized, and `blink` that the caret is lit.
    ///
    /// A picture shows its reference above it while the caret is on the line; a
    /// selection does not reveal it, or a drag across a picture would resize the
    /// row under the pointer.
    pub fn row(&self, l: usize, picture: bool, resizing: bool, blink: bool) -> (r: Row)
        requires
            self.wf(),
        ensures
            r.describes(self@, l as int, picture, resizing, blink),
    {
        let raw = self.row_str(l);
        let from: usize = self.index.line_start(l);
        let to: usize = self.index.line_end(l);
        let len: usize = byte_len(raw);
        let count: usize = self.index.line_count();
        let code = self.fences.is_open(l) || self.starts_indented_code(l);
        let band = code || is_fence(raw);
        let rule = self.is_rule_line(l);
        let placeholder = self.note.is_empty() && l == 0;
        let heading = self.heading_of(l, code, band);
        let mut underlines = false;
        let mut follows_text = false;
        if l > 0 && l <= count {
            let above = self.row_str(l - 1);
            underlines = !band && setext_level(raw).is_some() && takes_setext_underline(above);
            follows_text = !is_blank(above) && !is_separator(above);
        }
        let depth: usize = quote_depth(raw);
        let nesting: usize = if band || depth == 0 {
            0
        } else {
            depth - 1
        };
        let at: usize = self.cursor_offset();
        let picture_here = picture && !band;
        let on_row = self.start >= self.end && from <= at && at <= to;
        let reveal = picture_here && on_row && !resizing;
        let hidden = picture_here && !reveal;
        let ink = if underlines {
            Ink::Marker
        } else if placeholder {
            Ink::Placeholder
        } else if rule || hidden {
            Ink::Hidden
        } else {
            Ink::Plain
        };
        let stand = if placeholder {
            Stand::Invitation
        } else if len == 0 {
            Stand::Space
        } else {
            Stand::Text
        };
        let shown: usize = self.shown(stand, len);
        let (selected_from, selected_to) = self.selection_in(from, to, shown);
        let caret: Option<usize> = if blink && !self.find.focused && on_row {
            Some(
                if at - from < shown {
                    at - from
                } else {
                    shown
                },
            )
        } else {
            None
        };
        Row {
            from,
            to,
            code,
            band,
            rule,
            stand,
            ink,
            spans_shown: !(rule || hidden || underlines),
            heading,
            follows_text,
            nesting,
            hidden,
            reveal,
            picked: picture_here && self.start < self.end && self.start <= from && self.end >= to,
            selected_from,
            selected_to,
            selection_shown: !self.find.focused && !hidden,
            caret,
        }
    }

    /// How many bytes are drawn for a row.
    fn shown(&self, stand: Stand, len: usize) -> (r: usize)
        ensures
            r == shown_len(stand, len as int),
    {
        match stand {
            Stand::Text => len,
            Stand::Space => 1,
            Stand::Invitation => byte_len("Start typing…"),
        }
    }

    /// The part of a row that the selection covers.
    fn selection_in(&self, from: usize, to: usize, shown: usize) -> (r: (usize, usize))
        requires
            self.wf(),
            from <= to,
        ensures
            (r.0 as int, r.1 as int) == selected_part(self@, from as int, to as int, shown as int),
    {
        let low: usize = if self.start < from {
            0
        } else if self.start > to {
            to - from
        } else {
            self.start - from
        };
        let high: usize = if self.end > to && self.start <= to && self.start < self.end {
            shown
        } else if self.end < from {
            0
        } else if self.end > to {
            to - from
        } else {
            self.end - from
        };
        (
            if low < shown {
                low
            } else {
                shown
            },
            if high < shown {
                high
            } else {
                shown
            },
        )
    }

    /// The address under byte `offset`, if a click there is on a link. In code,
    /// fenced or indented, a link is literal text.
    pub fn link_at_offset(&self, offset: usize) -> (r: Option<String>)
        requires
            self.wf(),
        ensures
            says(r, link_under(self@, offset as int)),
    {
        let l: usize = self.index.line_at(offset);
        proof {
            self.lemma_wf();
            lemma_line_of(self@.text, offset as int);
            assert(crate::lines::line_starts(self@.text)[l as int] <= offset);
        }
        if self.fences.is_open(l) || self.starts_indented_code(l) {
            return None;
        }
        link_at(self.row_str(l), offset - self.index.line_start(l))
    }
}

/// The address under byte `offset` of `s`.
pub open spec fn link_under(s: State, offset: int) -> Option<Seq<u8>> {
    let b = s.text;
    let l = line_of(b, offset);
    if row_facts(b, l).code {
        None
    } else {
        target(line(b, l), offset - line_start(b, l))
    }
}

/// What a stretch of a row is washed with.
#[derive(Clone, Copy, Debug, PartialEq, Eq, Structural)]
pub enum Wash {
    /// A search hit.
    Match,
    /// The hit the search stands on.
    Current,
    Selection,
}

/// The wash of one search hit over the row `from..to`, in offsets of the row.
pub open spec fn hit_wash(hit: (usize, usize), current: Option<(usize, usize)>, from: int, to: int) -> (
    int,
    int,
    Wash,
) {
    (
        within(hit.0 as int, from, to) - from,
        within(hit.1 as int, from, to) - from,
        if current == Some(hit) {
            Wash::Current
        } else {
            Wash::Match
        },
    )
}

/// The surface behind a stretch of a row.
#[derive(Clone, Copy, Debug, PartialEq, Eq, Structural)]
pub enum Chip {
    Code,
    Highlight,
}

/// The surface that text of a style stands on.
pub open spec fn chip_of(style: MdStyle) -> Option<Chip> {
    match style {
        MdStyle::Code => Some(Chip::Code),
        MdStyle::Highlight => Some(Chip::Highlight),
        _ => None,
    }
}

/// The surfaces of the first `n` spans, of those that end within the `shown` bytes
/// drawn.
pub open spec fn chips_of(spans: Seq<Span>, shown: int, n: int) -> Seq<(usize, usize, Chip)>
    decreases n,
{
    if n <= 0 {
        Seq::empty()
    } else {
        let s = spans[n - 1];
        let before = chips_of(spans, shown, n - 1);
        match chip_of(s.style) {
            Some(chip) if s.end <= shown => before.push((s.start, s.end, chip)),
            _ => before,
        }
    }
}

/// The surfaces behind inline code and highlighted text.
pub fn chips(spans: &Vec<Span>, shown: usize) -> (out: Vec<(usize, usize, Chip)>)
    ensures
        out@ == chips_of(spans@, shown as int, spans@.len() as int),
{
    let mut out: Vec<(usize, usize, Chip)> = Vec::new();
    let mut i: usize = 0;
    while i < spans.len()
        invariant
            i <= spans@.len(),
            out@ == chips_of(spans@, shown as int, i as int),
        decreases spans@.len() - i,
    {
        let span = &spans[i];
        if span.end <= shown {
            match span.style {
                MdStyle::Code => out.push((span.start, span.end, Chip::Code)),
                MdStyle::Highlight => out.push((span.start, span.end, Chip::Highlight)),
                _ => {},
            }
        }
        i += 1;
    }
    out
}

impl Row {
    /// What the row is washed with, in the order it is painted: the search hits
    /// that touch it, then the selection. A hidden reference has no glyphs to
    /// mark, but it still has a width, so nothing washes it.
    pub fn washes(&self, hits: &Vec<(usize, usize)>, current: Option<(usize, usize)>) -> (out: Vec<
        (usize, usize, Wash),
    >)
        requires
            self.from <= self.to,
        ensures
            ({
                let marked = if self.hidden {
                    0
                } else {
                    hits@.len()
                };
                &&& out@.len() == marked + (if self.selection_shown {
                    1int
                } else {
                    0
                })
                &&& forall|i: int|
                    0 <= i < marked ==> ((#[trigger] out@[i]).0 as int, out@[i].1 as int, out@[i].2)
                        == hit_wash(hits@[i], current, self.from as int, self.to as int)
                &&& self.selection_shown ==> out@.last() == (
                    self.selected_from,
                    self.selected_to,
                    Wash::Selection,
                )
            }),
    {
        let mut out: Vec<(usize, usize, Wash)> = Vec::new();
        let mut i: usize = 0;
        while !self.hidden && i < hits.len()
            invariant
                self.from <= self.to,
                i <= hits@.len(),
                out@.len() == i,
                self.hidden ==> i == 0,
                forall|k: int|
                    0 <= k < i ==> ((#[trigger] out@[k]).0 as int, out@[k].1 as int, out@[k].2)
                        == hit_wash(hits@[k], current, self.from as int, self.to as int),
            decreases hits@.len() - i,
        {
            let (start, end): (usize, usize) = hits[i];
            let here = match current {
                Some((a, b)) => a == start && b == end,
                None => false,
            };
            let wash = if here {
                Wash::Current
            } else {
                Wash::Match
            };
            out.push((self.local(start), self.local(end), wash));
            i += 1;
        }
        if self.selection_shown {
            out.push((self.selected_from, self.selected_to, Wash::Selection));
        }
        out
    }

    /// Byte `x` of the note, or the end of the row nearest to it, as an offset of
    /// the row.
    fn local(&self, x: usize) -> (r: usize)
        requires
            self.from <= self.to,
        ensures
            r == within(x as int, self.from as int, self.to as int) - self.from,
    {
        if x < self.from {
            0
        } else if x > self.to {
            self.to - self.from
        } else {
            x - self.from
        }
    }

    /// Whether this is how line `l` of `s` is drawn.
    pub open spec fn describes(&self, s: State, l: int, picture: bool, resizing: bool, blink: bool) -> bool {
        let b = s.text;
        let f = row_facts(b, l);
        let from = line_start(b, l);
        let to = line_end(b, l);
        let stand = standing(f.placeholder, to - from);
        let shown = shown_len(stand, to - from);
        let drawn = picture && !f.band;
        let reveal = drawn && caret_in(s, from, to) && !resizing;
        let hidden = drawn && !reveal;
        &&& self.from == from
        &&& self.to == to
        &&& self.code == f.code
        &&& self.band == f.band
        &&& self.rule == f.rule
        &&& self.stand == stand
        &&& self.ink == (if f.underlines {
            Ink::Marker
        } else if f.placeholder {
            Ink::Placeholder
        } else if f.rule || hidden {
            Ink::Hidden
        } else {
            Ink::Plain
        })
        &&& self.spans_shown == !(f.rule || hidden || f.underlines)
        &&& self.heading == f.heading
        &&& self.follows_text == f.follows_text
        &&& self.nesting == f.nesting
        &&& self.hidden == hidden
        &&& self.reveal == reveal
        &&& self.picked == (drawn && s.start < s.end && s.start <= from && s.end >= to)
        &&& (self.selected_from as int, self.selected_to as int) == selected_part(s, from, to, shown)
        &&& self.selection_shown == (!s.find.focused && !hidden)
        &&& match self.caret {
            Some(at) => blink && !s.find.focused && caret_in(s, from, to) && at == least(
                caret(s) - from,
                shown,
            ),
            None => !(blink && !s.find.focused && caret_in(s, from, to)),
        }
    }
}

} // verus!
