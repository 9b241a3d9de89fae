//! Enter, Tab and their kin: breaking lines, and the list a line is part of.

use vstd::prelude::*;
use vstd::string::*;
use vstd::utf8::*;

use crate::app::caret::moved_to;
use crate::app::input::{typing, typing_edit};
use crate::app::lines::{
    each_bytes, least, lemma_newline_valid, lines_in_order, lines_rewritten, lines_rewritten_edit,
    touched_lines,
};
use crate::app::{caret, holder, kept, Edit, Holder, NoteApp, State};
use crate::ascii::NEWLINE;
use crate::fences::{fence_flags, open_before};
use crate::lines::{
    lemma_line, lemma_line_boundaries, lemma_line_of, line, line_count, line_end, line_of, line_start,
};
use crate::markdown::carry::{carried, continuation, Carry, Continuation};
use crate::text::{
    boundary, byte_len, bytes, lemma_bytes_concat, slice, trim_start, trimmed_start,
};

verus! {

broadcast use {vstd::seq::group_seq_axioms, vstd::string::group_string_axioms};

/// The caret's line.
pub open spec fn caret_line(s: State) -> int {
    line_of(s.text, caret(s))
}

/// The bytes of the caret's line.
pub open spec fn caret_line_range(s: State) -> Option<(usize, usize)> {
    Some(
        (line_start(s.text, caret_line(s)) as usize, line_end(s.text, caret_line(s)) as usize),
    )
}

/// The list or quote the caret sits in, if Enter should carry it on. A selection
/// is about to be replaced, so there is no one item to continue; inside a fence a
/// `- ` is code, not a bullet.
pub open spec fn carrying(s: State) -> Option<Carry> {
    let l = caret_line(s);
    if s.start < s.end || open_before(fence_flags(s.text), l) {
        None
    } else {
        carried(line(s.text, l), caret(s) - line_start(s.text, l))
    }
}

/// The place Enter writes to, and what it writes there: a line break, one that
/// carries the list on, or the line itself stepped out of its list.
pub open spec fn entering(s: State) -> (Option<(usize, usize)>, Seq<char>) {
    match carrying(s) {
        Some(Carry::Next(prefix)) => (None, decode_utf8(seq![NEWLINE] + prefix)),
        Some(Carry::Clear) => (caret_line_range(s), Seq::empty()),
        Some(Carry::Outdent(marker)) => (caret_line_range(s), decode_utf8(marker)),
        None => (None, "\n"@),
    }
}

/// Whether ⇥ indents the line: the caret sits in its leading white space, or at
/// its first character, or the line is blank.
pub open spec fn in_indent(s: State) -> bool {
    let l = line(s.text, caret_line(s));
    caret(s) <= line_end(s.text, caret_line(s)) - bytes(trimmed_start(decode_utf8(l))).len()
}

/// `s` after ⇥, where `ls` are the lines the selection touches, indented.
pub open spec fn tabbed(s: State, ls: Seq<Seq<u8>>, now: u64) -> State {
    if s.find.focused {
        s
    } else if s.start < s.end || in_indent(s) {
        lines_rewritten(s, ls, now)
    } else {
        typing(s, None, "  "@, now)
    }
}

/// `s` after ⌃O.
pub open spec fn line_opened(s: State, now: u64) -> State {
    if s.find.focused {
        s
    } else {
        moved_to(typing(s, None, "\n"@, now), least(s.start, s.end))
    }
}

/// `s` after ⌃T put `swapped` in place of the bytes `range` of the caret's line.
pub open spec fn transposed(s: State, range: (int, int), swapped: Seq<char>, now: u64) -> State {
    let from = line_start(s.text, caret_line(s));
    if s.start < s.end {
        s
    } else {
        typing(s, Some(((from + range.0) as usize, (from + range.1) as usize)), swapped, now)
    }
}

/// Where the caret's line lies.
proof fn lemma_caret_line(s: State)
    requires
        valid_utf8(s.text),
        0 <= caret(s) <= s.text.len(),
    ensures
        0 <= caret_line(s) < line_count(s.text),
        0 <= line_start(s.text, caret_line(s)) <= caret(s) <= line_end(s.text, caret_line(s))
            <= s.text.len(),
        boundary(s.text, line_start(s.text, caret_line(s))),
        boundary(s.text, line_end(s.text, caret_line(s))),
{
    lemma_line_of(s.text, caret(s));
    lemma_line(s.text, caret_line(s));
    lemma_line_boundaries(s.text, caret_line(s));
}

impl NoteApp {
    /// The caret's line: its number, where it starts and where it ends.
    pub fn caret_line(&self) -> (r: (usize, usize, usize))
        requires
            self.wf(),
        ensures
            r.0 == caret_line(self@),
            r.1 == line_start(self@.text, caret_line(self@)),
            r.2 == line_end(self@.text, caret_line(self@)),
            Some((r.1, r.2)) == caret_line_range(self@),
            r.1 <= caret(self@) <= r.2 <= self@.text.len(),
            boundary(self@.text, r.1 as int),
            boundary(self@.text, r.2 as int),
    {
        proof {
            self.lemma_wf();
            lemma_caret_line(self@);
        }
        let l: usize = self.index.line_at(self.cursor_offset());
        (l, self.index.line_start(l), self.index.line_end(l))
    }

    /// The list or quote the caret sits in, if Enter should carry it on.
    pub fn list_continuation(&self) -> (r: Option<Continuation>)
        requires
            self.wf(),
        ensures
            r is Some <==> carrying(self@) is Some,
            r matches Some(c) ==> carrying(self@) == Some(c@),
    {
        if self.start < self.end {
            return None;
        }
        let (l, from, to) = self.caret_line();
        if self.fences.is_open(l) {
            return None;
        }
        let at: usize = self.cursor_offset();
        continuation(slice(self.note.text(), from, to), at - from)
    }

    /// ⏎: break the line, or carry on the list it is part of. On an empty item
    /// that means leaving the list: an item of an inner list steps out one level,
    /// staying on the line, and one at the margin is cleared.
    pub fn enter(&mut self, now: u64) -> (r: Option<Edit>)
        requires
            old(self).wf(),
        ensures
            final(self).wf(),
            final(self)@ == typing(old(self)@, entering(old(self)@).0, entering(old(self)@).1, now),
            kept(r) == typing_edit(old(self)@, entering(old(self)@).0, entering(old(self)@).1),
    {
        match self.list_continuation() {
            Some(Continuation::Next(prefix)) => {
                let mut text = String::from_str("\n");
                text.append(prefix.as_str());
                proof {
                    lemma_newline_valid();
                    lemma_bytes_concat("\n"@, prefix@);
                    encode_utf8_decode_utf8(text@);
                }
                self.type_text(None, text.as_str(), now)
            },
            Some(Continuation::Clear) => {
                let empty = String::new();
                assert(empty@ =~= Seq::empty());
                self.replace_current_line(empty.as_str(), now)
            },
            Some(Continuation::Outdent(marker)) => {
                proof {
                    encode_utf8_decode_utf8(marker@);
                }
                self.replace_current_line(marker.as_str(), now)
            },
            None => self.type_text(None, "\n", now),
        }
    }

    /// Write the caret's whole line anew, leaving the caret at its end.
    pub fn replace_current_line(&mut self, text: &str, now: u64) -> (r: Option<Edit>)
        requires
            old(self).wf(),
        ensures
            final(self).wf(),
            final(self)@ == typing(old(self)@, caret_line_range(old(self)@), text@, now),
            kept(r) == typing_edit(old(self)@, caret_line_range(old(self)@), text@),
    {
        let (_l, from, to) = self.caret_line();
        self.type_text(Some((from, to)), text, now)
    }

    /// Whether ⇥ indents the caret's line rather than putting space in it.
    pub fn indents_line(&self) -> (r: bool)
        requires
            self.wf(),
        ensures
            r == in_indent(self@),
    {
        let (_l, from, to) = self.caret_line();
        let raw = slice(self.note.text(), from, to);
        proof {
            encode_utf8_decode_utf8(raw@);
            lemma_trimmed_shorter(raw@);
        }
        let content: usize = to - byte_len(trim_start(raw));
        self.cursor_offset() <= content
    }

    /// ⇥: indent the lines the selection touches, or the caret's line if the
    /// caret sits in its indentation; elsewhere in the text, put a level's worth
    /// of space at the caret. `rewritten` is the touched lines, indented.
    pub fn indent(&mut self, rewritten: &Vec<String>, now: u64) -> (r: Option<Edit>)
        requires
            old(self).wf(),
            holder(old(self)@) == Holder::Note && (old(self)@.start < old(self)@.end || in_indent(
                old(self)@,
            )) ==> lines_in_order(old(self)@) && rewritten@.len() == touched_lines(old(self)@).1
                - touched_lines(old(self)@).0 + 1,
        ensures
            final(self).wf(),
            ({
                let s = old(self)@;
                let ls = each_bytes(rewritten@);
                if s.find.focused {
                    final(self)@ == s && r is None
                } else if s.start < s.end || in_indent(s) {
                    final(self)@ == lines_rewritten(s, ls, now) && kept(r) == lines_rewritten_edit(
                        s,
                        ls,
                    )
                } else {
                    final(self)@ == typing(s, None, "  "@, now) && kept(r) == typing_edit(
                        s,
                        None,
                        "  "@,
                    )
                }
            }),
            final(self)@ == tabbed(old(self)@, each_bytes(rewritten@), now),
    {
        if self.find.focused {
            return None;
        }
        if self.start < self.end || self.indents_line() {
            self.transform_lines(rewritten, now)
        } else {
            self.type_text(None, "  ", now)
        }
    }

    /// ⌃O: break the line at the caret, but leave the caret before the break.
    pub fn open_line(&mut self, now: u64) -> (r: Option<Edit>)
        requires
            old(self).wf(),
        ensures
            final(self).wf(),
            ({
                let s = old(self)@;
                if s.find.focused {
                    final(self)@ == s && r is None
                } else {
                    &&& final(self)@ == moved_to(
                        typing(s, None, "\n"@, now),
                        least(s.start, s.end),
                    )
                    &&& kept(r) == typing_edit(s, None, "\n"@)
                }
            }),
            final(self)@ == line_opened(old(self)@, now),
    {
        if self.find.focused {
            return None;
        }
        let at: usize = if self.start < self.end {
            self.start
        } else {
            self.end
        };
        let r = self.type_text(None, "\n", now);
        self.move_to(at);
        r
    }

    /// ⌃T: put `swapped`, two characters in the other order, in place of the
    /// bytes `range` of the caret's line. A selection means something else is in
    /// play; then nothing happens.
    pub fn transpose(&mut self, range: (usize, usize), swapped: &str, now: u64) -> (r: Option<Edit>)
        requires
            old(self).wf(),
            range.0 <= range.1 <= line(old(self)@.text, caret_line(old(self)@)).len(),
        ensures
            final(self).wf(),
            ({
                let s = old(self)@;
                let from = line_start(s.text, caret_line(s));
                let at = Some(((from + range.0) as usize, (from + range.1) as usize));
                if s.start < s.end {
                    final(self)@ == s && r is None
                } else {
                    &&& final(self)@ == typing(s, at, swapped@, now)
                    &&& kept(r) == typing_edit(s, at, swapped@)
                }
            }),
            final(self)@ == transposed(
                old(self)@,
                (range.0 as int, range.1 as int),
                swapped@,
                now,
            ),
    {
        if self.start < self.end {
            return None;
        }
        let (_l, from, to) = self.caret_line();
        assert(line(self@.text, caret_line(self@)).len() == to - from);
        self.type_text(Some((from + range.0, from + range.1)), swapped, now)
    }
}

/// Trimming takes nothing but the head.
proof fn lemma_trimmed_shorter(s: Seq<char>)
    ensures
        bytes(trimmed_start(s)).len() <= bytes(s).len(),
    decreases s.len(),
{
    if s.len() > 0 && crate::text::white_space(s[0]) {
        lemma_trimmed_shorter(s.drop_first());
    }
}

} // verus!
