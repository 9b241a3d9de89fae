//! Commands on whole lines: moving them, copying them, carrying a list on.

use vstd::prelude::*;
use vstd::string::*;
use vstd::utf8::*;

use crate::app::caret::{moved_to, selecting};
use crate::app::{
    caret, edited, holder, kept, lemma_replaced_boundaries, record_of, ungrouped, Edit, EditState,
    Holder, NoteApp, State,
};
use crate::ascii::NEWLINE;
use crate::lines::{
    lemma_line, lemma_line_boundaries, lemma_line_of, lemma_line_starts, line, line_count, line_end,
    line_of, line_start, line_starts,
};
use crate::lists::{outdent, outdented};
use crate::note::{block_end, block_start, divides};
use crate::text::{
    boundary, byte_len, bytes, lemma_bytes_concat, lemma_string_ends, lemma_subrange_valid, replaced,
    same_text, slice,
};

verus! {

broadcast use {vstd::seq::group_seq_axioms, vstd::string::group_string_axioms};

/// The lines the selection touches, the first and the last. A selection that
/// ends exactly where a line begins has not reached into that line.
pub open spec fn touched_lines(s: State) -> (int, int) {
    let first = line_of(s.text, s.start);
    let last = line_of(s.text, s.end);
    (
        first,
        if last > first && line_start(s.text, last) == s.end {
            last - 1
        } else {
            last
        },
    )
}

/// Whether the selection's ends are on lines in order: on one line, or the start
/// on an earlier one than the end.
pub open spec fn lines_in_order(s: State) -> bool {
    line_of(s.text, s.start) <= line_of(s.text, s.end)
}

/// The lines touched lie in the text, and their bytes in order.
pub proof fn lemma_touched_lines(s: State)
    requires
        valid_utf8(s.text),
        0 <= s.start <= s.text.len(),
        0 <= s.end <= s.text.len(),
        lines_in_order(s),
    ensures
        ({
            let (first, last) = touched_lines(s);
            &&& 0 <= first <= last < line_count(s.text)
            &&& 0 <= line_start(s.text, first) <= s.start
            &&& line_start(s.text, first) <= line_end(s.text, last) <= s.text.len()
            &&& boundary(s.text, line_start(s.text, first))
            &&& boundary(s.text, line_end(s.text, last))
            &&& line_start(s.text, first) <= caret(s)
            &&& s.start >= s.end ==> {
                &&& first == last
                &&& s.start <= line_end(s.text, last)
                &&& s.end <= line_end(s.text, last)
                &&& line_of(s.text, caret(s)) == first
            }
        }),
{
    let b = s.text;
    lemma_line_of(b, s.start);
    lemma_line_of(b, s.end);
    lemma_line_starts(b);
    let first = line_of(b, s.start);
    let last = line_of(b, s.end);
    assert(line_starts(b)[first] <= s.start);
    assert(line_starts(b)[first] <= s.end);
    if s.start >= s.end {
        assert(line_starts(b)[last] <= s.start);
    }
    let (f, l) = touched_lines(s);
    lemma_line(b, f);
    lemma_line(b, l);
    if f < l {
        assert(line_starts(b)[f] < line_starts(b)[l]);
    }
    lemma_line_boundaries(b, f);
    lemma_line_boundaries(b, l);
}

/// Whether one of the lines `first..=last` divides two notes.
pub open spec fn holds_rule(b: Seq<u8>, first: int, last: int) -> bool {
    exists|l: int| first <= l <= last && divides(b, l)
}

/// A swap of the lines the selection touches with the line above or below them.
pub struct Swap {
    /// The lines that move, and the line they change places with.
    pub first: int,
    pub last: int,
    pub neighbour: int,
    /// The bytes that are written anew, and what is written.
    pub from: int,
    pub to: int,
    pub with: Seq<u8>,
    /// Where the moved lines land, and how long they are.
    pub landed: int,
    pub len: int,
}

/// The swap a move of lines makes.
pub open spec fn swap(s: State, down: bool) -> Swap {
    let b = s.text;
    let (first, last) = touched_lines(s);
    let moved = b.subrange(line_start(b, first), line_end(b, last));
    if down {
        let other = line(b, last + 1);
        Swap {
            first,
            last,
            neighbour: last + 1,
            from: line_start(b, first),
            to: line_end(b, last + 1),
            with: other + seq![NEWLINE] + moved,
            landed: line_start(b, first) + other.len() + 1,
            len: moved.len() as int,
        }
    } else {
        let other = line(b, first - 1);
        Swap {
            first,
            last,
            neighbour: first - 1,
            from: line_start(b, first - 1),
            to: line_end(b, last),
            with: moved + seq![NEWLINE] + other,
            landed: line_start(b, first - 1),
            len: moved.len() as int,
        }
    }
}

/// Whether the lines can be moved that way: not past either end, and not a rule.
/// A rule is a note boundary drawn as a hairline, and moving one would move the
/// partition rather than the text.
pub open spec fn can_swap(s: State, down: bool) -> bool {
    let (first, last) = touched_lines(s);
    &&& holder(s) == Holder::Note
    &&& !holds_rule(s.text, first, last)
    &&& if down {
        last + 1 < line_count(s.text)
    } else {
        first > 0
    }
}

/// The lesser of the two.
pub open spec fn least(a: int, b: int) -> int {
    if a < b {
        a
    } else {
        b
    }
}

/// `s` after the lines moved: the selection travels with them, or the caret keeps
/// its column. Two identical neighbours leave the text as it is, but the caret
/// still travels.
pub open spec fn lines_moved(s: State, down: bool, now: u64) -> State {
    let w = swap(s, down);
    let (start, end) = after_swap(s, down);
    if !can_swap(s, down) {
        s
    } else if w.with == s.text.subrange(w.from, w.to) {
        moved_to(
            s,
            least(
                line_start(s.text, w.neighbour) + (caret(s) - line_start(s.text, w.first)),
                line_end(s.text, w.neighbour),
            ),
        )
    } else {
        State {
            reversed: false,
            ..ungrouped(edited(ungrouped(s), w.from, w.to, w.with, start, end, now))
        }
    }
}

/// The selection then.
pub open spec fn after_swap(s: State, down: bool) -> (int, int) {
    let w = swap(s, down);
    if s.start < s.end {
        (w.landed, w.landed + w.len)
    } else {
        let at = least(w.landed + (s.start - line_start(s.text, w.first)), w.landed + w.len);
        (at, at)
    }
}

/// What undo keeps of that.
pub open spec fn lines_moved_edit(s: State, down: bool) -> Option<EditState> {
    let w = swap(s, down);
    let (start, end) = after_swap(s, down);
    if !can_swap(s, down) || w.with == s.text.subrange(w.from, w.to) {
        None
    } else {
        Some(record_of(ungrouped(s), w.from, w.to, w.with, start, end))
    }
}

/// Text joined from two pieces keeps their character boundaries.
pub proof fn lemma_joined_boundaries(x: Seq<u8>, y: Seq<u8>)
    requires
        valid_utf8(x),
        valid_utf8(y),
    ensures
        forall|p: int| boundary(x, p) ==> #[trigger] boundary(x + y, p),
        forall|p: int| boundary(y, p) ==> #[trigger] boundary(x + y, x.len() + p),
{
    let all = x + y;
    if y.len() > 0 {
        crate::text::lemma_first_byte(y);
    }
    assert forall|p: int| boundary(x, p) implies #[trigger] boundary(all, p) by {
        if p < x.len() {
            assert(all[p] == x[p]);
        } else if p < all.len() {
            assert(all[p] == y[0]);
        }
    }
    assert forall|p: int| boundary(y, p) implies #[trigger] boundary(all, x.len() + p) by {
        if p < y.len() {
            assert(all[x.len() + p] == y[p]);
        }
    }
}

/// Where the selection of a swap lies.
pub proof fn lemma_swap(s: State, down: bool)
    requires
        valid_utf8(s.text),
        0 <= s.start <= s.text.len(),
        0 <= s.end <= s.text.len(),
        lines_in_order(s),
        boundary(s.text, s.start),
        boundary(s.text, s.end),
        can_swap(s, down),
    ensures
        ({
            let w = swap(s, down);
            let b = s.text;
            let after = replaced(b, w.from, w.to, w.with);
            let (start, end) = after_swap(s, down);
            &&& 0 <= w.first <= w.last < line_count(b)
            &&& 0 <= w.neighbour < line_count(b)
            &&& 0 <= line_start(b, w.first) <= line_end(b, w.last) <= b.len()
            &&& 0 <= line_start(b, w.neighbour) <= line_end(b, w.neighbour) <= b.len()
            &&& boundary(b, line_start(b, w.first))
            &&& boundary(b, line_end(b, w.last))
            &&& boundary(b, line_start(b, w.neighbour))
            &&& boundary(b, line_end(b, w.neighbour))
            &&& line_start(b, w.first) <= s.start
            &&& line_start(b, w.first) <= caret(s)
            &&& 0 <= w.from <= w.to <= b.len()
            &&& boundary(b, w.from)
            &&& boundary(b, w.to)
            &&& w.with.len() == w.to - w.from
            &&& valid_utf8(w.with)
            &&& w.from <= start <= end <= w.from + w.with.len()
            &&& boundary(after, start)
            &&& boundary(after, end)
        }),
{
    let b = s.text;
    let w = swap(s, down);
    lemma_touched_lines(s);
    lemma_line(b, w.first);
    lemma_line(b, w.last);
    lemma_line(b, w.neighbour);
    lemma_line_starts(b);
    lemma_line_boundaries(b, w.first);
    lemma_line_boundaries(b, w.last);
    lemma_line_boundaries(b, w.neighbour);
    let lo = line_start(b, w.first);
    let hi = line_end(b, w.last);
    let moved = b.subrange(lo, hi);
    let other = line(b, w.neighbour);
    lemma_subrange_valid(b, lo, hi);
    lemma_newline_valid();
    let nl = seq![NEWLINE];
    assert(boundary(moved, 0));
    assert(boundary(moved, moved.len() as int));
    let column = s.start - lo;
    if s.start >= s.end {
        if column < moved.len() {
            assert(moved[column] == b[s.start]);
        }
        assert(boundary(moved, column));
    }
    lemma_joined_valid(other, nl);
    lemma_joined_valid(moved, nl);
    lemma_joined_valid(other + nl, moved);
    lemma_joined_valid(moved + nl, other);
    let (start, end) = after_swap(s, down);
    if down {
        lemma_joined_boundaries(other + nl, moved);
        let by = (other + nl).len() as int;
        assert(boundary(w.with, by + 0));
        assert(boundary(w.with, by + moved.len()));
        if s.start >= s.end {
            assert(boundary(w.with, by + column));
        }
    } else {
        lemma_joined_boundaries(moved, nl);
        lemma_joined_boundaries(moved + nl, other);
        assert(boundary(moved + nl, 0));
        assert(boundary(moved + nl, moved.len() as int));
        assert(boundary(w.with, 0));
        assert(boundary(w.with, moved.len() as int));
        if s.start >= s.end {
            assert(boundary(moved + nl, column));
            assert(boundary(w.with, column));
        }
    }
    lemma_replaced_boundaries(b, w.from, w.to, w.with);
    assert(boundary(w.with, start - w.from));
    assert(boundary(w.with, end - w.from));
    assert(boundary(replaced(b, w.from, w.to, w.with), w.from + (start - w.from)));
    assert(boundary(replaced(b, w.from, w.to, w.with), w.from + (end - w.from)));
}

/// A line break is UTF-8.
pub proof fn lemma_newline_valid()
    ensures
        valid_utf8(seq![NEWLINE]),
        bytes("\n"@) == seq![NEWLINE],
{
    reveal_strlit("\n");
    is_ascii_chars_encode_utf8("\n"@);
    assert(bytes("\n"@) =~= seq![NEWLINE]);
    lemma_string_ends("\n"@);
}

/// Two pieces of UTF-8 make one.
pub proof fn lemma_joined_valid(x: Seq<u8>, y: Seq<u8>)
    requires
        valid_utf8(x),
        valid_utf8(y),
    ensures
        valid_utf8(x + y),
{
    let s = decode_utf8(x);
    let t = decode_utf8(y);
    decode_utf8_encode_utf8(x);
    decode_utf8_encode_utf8(y);
    lemma_bytes_concat(s, t);
    lemma_string_ends(s + t);
}

/// The lines `ls`, a line break between each two.
pub open spec fn lined(ls: Seq<Seq<u8>>) -> Seq<u8>
    decreases ls.len(),
{
    if ls.len() == 0 {
        Seq::empty()
    } else if ls.len() == 1 {
        ls[0]
    } else {
        lined(ls.drop_last()) + seq![NEWLINE] + ls.last()
    }
}

/// The bytes of each of `v`.
pub open spec fn each_bytes(v: Seq<String>) -> Seq<Seq<u8>> {
    Seq::new(v.len(), |i: int| bytes(v[i]@))
}

/// Where a caret that was `within` bytes into a line stands once the line grew
/// from `old_len` to `new_len`: every rewrite changes the head of the line, and
/// the caret stays on the character it was on.
pub open spec fn carried_along(within: int, old_len: int, new_len: int) -> int {
    if within + new_len >= old_len {
        within + new_len - old_len
    } else {
        0
    }
}

/// `s` with the lines the selection touches written anew as `ls`. They stay
/// selected, so the command can be pressed again; a caret keeps its character.
pub open spec fn lines_rewritten(s: State, ls: Seq<Seq<u8>>, now: u64) -> State {
    let b = s.text;
    let (first, last) = touched_lines(s);
    let from = line_start(b, first);
    let to = line_end(b, last);
    let with = lined(ls);
    let end = from + with.len();
    let done = edited(s, from, to, with, end, end, now);
    if holder(s) != Holder::Note || with == b.subrange(from, to) {
        s
    } else if s.start < s.end {
        selecting(done, from, end)
    } else {
        let l = line_of(b, caret(s));
        let within = carried_along(
            caret(s) - line_start(b, l),
            line(b, l).len() as int,
            ls[0].len() as int,
        );
        let after = done.text;
        let l = least(l, line_count(after) - 1);
        let at = least(line_start(after, l) + within, line_end(after, l));
        selecting(done, at, at)
    }
}

/// What undo keeps of that.
pub open spec fn lines_rewritten_edit(s: State, ls: Seq<Seq<u8>>) -> Option<EditState> {
    let b = s.text;
    let (first, last) = touched_lines(s);
    let from = line_start(b, first);
    let to = line_end(b, last);
    let end = from + lined(ls).len();
    if holder(s) != Holder::Note || lined(ls) == b.subrange(from, to) {
        None
    } else {
        Some(record_of(s, from, to, lined(ls), end, end))
    }
}

/// The lines the selection touches, each one level further out.
pub open spec fn touched_outdented(s: State) -> Seq<Seq<u8>> {
    let (first, last) = touched_lines(s);
    Seq::new((last - first + 1) as nat, |i: int| outdented(line(s.text, first + i)))
}

/// The copy that ⌘D puts under the lines the selection touches.
pub open spec fn doubled(s: State) -> Seq<u8> {
    let (first, last) = touched_lines(s);
    seq![NEWLINE] + s.text.subrange(line_start(s.text, first), line_end(s.text, last))
}

/// Whether ⌘D does anything: copying a rule would conjure an empty note between
/// two real ones.
pub open spec fn can_double(s: State) -> bool {
    let (first, last) = touched_lines(s);
    holder(s) == Holder::Note && !holds_rule(s.text, first, last)
}

/// `s` after ⌘D. The copy is left selected when the original was.
pub open spec fn lines_doubled(s: State, now: u64) -> State {
    let at = line_end(s.text, touched_lines(s).1);
    let end = at + doubled(s).len();
    let done = ungrouped(edited(ungrouped(s), at, at, doubled(s), end, end, now));
    if !can_double(s) {
        s
    } else if s.start < s.end {
        selecting(done, at + 1, end)
    } else {
        done
    }
}

/// What undo keeps of that.
pub open spec fn lines_doubled_edit(s: State) -> Option<EditState> {
    let at = line_end(s.text, touched_lines(s).1);
    let end = at + doubled(s).len();
    if can_double(s) {
        Some(record_of(ungrouped(s), at, at, doubled(s), end, end))
    } else {
        None
    }
}

impl NoteApp {
    /// The lines the selection touches, the first and the last.
    pub fn selected_lines(&self) -> (r: (usize, usize))
        requires
            self.wf(),
        ensures
            (r.0 as int, r.1 as int) == touched_lines(self@),
            r.0 < line_count(self@.text),
            r.1 < line_count(self@.text),
            r.0 <= r.1 <==> lines_in_order(self@),
    {
        let first: usize = self.index.line_at(self.start);
        let mut last: usize = self.index.line_at(self.end);
        proof {
            self.lemma_wf();
            lemma_line_of(self@.text, self@.start);
            lemma_line_of(self@.text, self@.end);
        }
        if last > first && self.index.line_start(last) == self.end {
            last -= 1;
        }
        (first, last)
    }

    /// Whether `line` is one of the rules the document is divided by.
    pub fn is_rule_line(&self, line: usize) -> (r: bool)
        requires
            self.wf(),
        ensures
            r == divides(self@.text, line as int),
    {
        crate::note::is_boundary_line(
            self.note.text(),
            &self.index,
            line,
            self.fences.in_closed_fence(line),
        )
    }

    fn any_rule(&self, first: usize, last: usize) -> (r: bool)
        requires
            self.wf(),
            first <= last < line_count(self@.text),
        ensures
            r == holds_rule(self@.text, first as int, last as int),
    {
        proof {
            self.index.lemma_line_count(self@.text);
        }
        let mut l: usize = first;
        while l <= last
            invariant
                self.wf(),
                first <= l <= last + 1,
                last < line_count(self@.text) <= usize::MAX,
                forall|k: int| first <= k < l ==> !#[trigger] divides(self@.text, k),
            decreases last + 1 - l,
        {
            if self.is_rule_line(l) {
                assert(divides(self@.text, l as int));
                return true;
            }
            l += 1;
        }
        false
    }

    /// The lines a move takes, the first and the last, and the line they change
    /// places with, if they can be moved.
    fn swappable(&self, down: bool) -> (r: Option<(usize, usize, usize)>)
        requires
            self.wf(),
            holder(self@) == Holder::Note ==> lines_in_order(self@),
        ensures
            r is Some <==> can_swap(self@, down),
            r matches Some((first, last, neighbour)) ==> first == swap(self@, down).first && last
                == swap(self@, down).last && neighbour == swap(self@, down).neighbour,
    {
        match self.keyboard() {
            Holder::Note => {},
            _ => {
                return None;
            },
        }
        let (first, last) = self.selected_lines();
        if self.any_rule(first, last) {
            return None;
        }
        let count: usize = self.index.line_count();
        // Already at the top or the bottom of the document.
        if down && last + 1 < count {
            Some((first, last, last + 1))
        } else if !down && first > 0 {
            Some((first, last, first - 1))
        } else {
            None
        }
    }

    /// The swap a move of lines makes.
    fn plan_swap(&self, down: bool, first: usize, last: usize, neighbour: usize) -> (r: LineSwap)
        requires
            self.wf(),
            lines_in_order(self@),
            can_swap(self@, down),
            first == swap(self@, down).first,
            last == swap(self@, down).last,
            neighbour == swap(self@, down).neighbour,
        ensures
            r.plans(self@, down),
    {
        proof {
            self.lemma_wf();
            lemma_swap(self@, down);
        }
        let block_start: usize = self.index.line_start(first);
        let block_end: usize = self.index.line_end(last);
        let other_start: usize = self.index.line_start(neighbour);
        let other_end: usize = self.index.line_end(neighbour);
        let moved = slice(self.note.text(), block_start, block_end);
        let other = slice(self.note.text(), other_start, other_end);
        let with = if down {
            two_lines(other, moved)
        } else {
            two_lines(moved, other)
        };
        let len: usize = block_end - block_start;
        let column: usize = self.start - block_start;
        let landed: usize = if down {
            block_start + (other_end - other_start) + 1
        } else {
            other_start
        };
        let (start, end): (usize, usize) = if self.start < self.end {
            (landed, landed + len)
        } else if column < len {
            // Keep the caret's column, measured from the line it was on.
            (landed + column, landed + column)
        } else {
            (landed + len, landed + len)
        };
        let (from, to): (usize, usize) = if down {
            (block_start, other_end)
        } else {
            (other_start, block_end)
        };
        let caret_column: usize = self.cursor_offset() - block_start;
        let beside: usize = if caret_column < other_end - other_start {
            other_start + caret_column
        } else {
            other_end
        };
        LineSwap { from, to, with, start, end, beside }
    }

    /// ⌥⌘↑ and ⌥⌘↓ — swap the line, or the selected lines, with the one above or
    /// below. One edit, so one ⌘Z takes it back, and the selection travels with
    /// the text so the command can be held down.
    pub fn move_lines(&mut self, down: bool, now: u64) -> (r: Option<Edit>)
        requires
            old(self).wf(),
            holder(old(self)@) == Holder::Note ==> lines_in_order(old(self)@),
        ensures
            final(self).wf(),
            final(self)@ == lines_moved(old(self)@, down, now),
            kept(r) == lines_moved_edit(old(self)@, down),
    {
        let ghost s = self@;
        let p = match self.swappable(down) {
            Some((first, last, neighbour)) => self.plan_swap(down, first, last, neighbour),
            None => {
                return None;
            },
        };
        proof {
            self.lemma_wf();
            lemma_swap(s, down);
        }
        if same_text(slice(self.note.text(), p.from, p.to), p.with.as_str()) {
            self.move_to(p.beside);
            return None;
        }
        self.break_group();
        let edit = self.edit(p.from, p.to, p.with.as_str(), p.start, p.end, now);
        self.reversed = false;
        self.break_group();
        Some(edit)
    }

    /// ⌘D — a second copy of the line, or of the selected lines, underneath.
    pub fn duplicate_lines(&mut self, now: u64) -> (r: Option<Edit>)
        requires
            old(self).wf(),
            holder(old(self)@) == Holder::Note ==> lines_in_order(old(self)@),
        ensures
            final(self).wf(),
            final(self)@ == lines_doubled(old(self)@, now),
            kept(r) == lines_doubled_edit(old(self)@),
    {
        let ghost s = self@;
        match self.keyboard() {
            Holder::Note => {},
            _ => {
                return None;
            },
        }
        let (first, last) = self.selected_lines();
        if self.any_rule(first, last) {
            return None;
        }
        proof {
            self.lemma_wf();
            lemma_touched_lines(s);
        }
        let at: usize = self.index.line_end(last);
        let copied = slice(self.note.text(), self.index.line_start(first), at);
        let mut insertion = String::from_str("\n");
        insertion.append(copied);
        proof {
            lemma_newline_valid();
            lemma_bytes_concat("\n"@, copied@);
            assert(bytes(insertion@) == doubled(s));
        }
        let n: usize = byte_len(insertion.as_str());
        let had_selection = self.start < self.end;
        self.break_group();
        let edit = self.put(at, at, insertion.as_str(), now);
        self.break_group();
        if had_selection {
            self.set_selection(at + 1, at + n);
        }
        Some(edit)
    }

    /// Rewrite the lines the selection touches as `rewritten`, one for each. One
    /// edit for the whole range, so one ⌘Z takes it back however many lines it
    /// covered.
    pub fn transform_lines(&mut self, rewritten: &Vec<String>, now: u64) -> (r: Option<Edit>)
        requires
            old(self).wf(),
            holder(old(self)@) == Holder::Note ==> lines_in_order(old(self)@) && rewritten@.len()
                == touched_lines(old(self)@).1 - touched_lines(old(self)@).0 + 1,
        ensures
            final(self).wf(),
            final(self)@ == lines_rewritten(old(self)@, each_bytes(rewritten@), now),
            kept(r) == lines_rewritten_edit(old(self)@, each_bytes(rewritten@)),
    {
        let ghost s = self@;
        match self.keyboard() {
            Holder::Note => {},
            _ => {
                return None;
            },
        }
        let (first, last) = self.selected_lines();
        proof {
            self.lemma_wf();
            lemma_touched_lines(s);
        }
        let from: usize = self.index.line_start(first);
        let to: usize = self.index.line_end(last);
        let with = join_lines(rewritten);
        if same_text(with.as_str(), slice(self.note.text(), from, to)) {
            return None;
        }
        let n: usize = byte_len(with.as_str());
        let had_selection = self.start < self.end;
        let within: usize = if had_selection {
            0
        } else {
            carry_along(self.cursor_offset() - from, to - from, byte_len(rewritten[0].as_str()))
        };
        let edit = self.put(from, to, with.as_str(), now);
        if had_selection {
            self.set_selection(from, from + n);
        } else {
            proof {
                self.lemma_wf();
                lemma_line_starts(self@.text);
            }
            let end_line: usize = self.index.line_count() - 1;
            let l: usize = if first < end_line {
                first
            } else {
                end_line
            };
            proof {
                lemma_line(self@.text, l as int);
            }
            let line_from: usize = self.index.line_start(l);
            let line_to: usize = self.index.line_end(l);
            let at: usize = if within < line_to - line_from {
                line_from + within
            } else {
                line_to
            };
            self.set_selection(at, at);
        }
        Some(edit)
    }

    /// ⇧⇥ — take one level of indentation off the lines the selection touches.
    pub fn outdent(&mut self, now: u64) -> (r: Option<Edit>)
        requires
            old(self).wf(),
            holder(old(self)@) == Holder::Note ==> lines_in_order(old(self)@),
        ensures
            final(self).wf(),
            final(self)@ == lines_rewritten(old(self)@, touched_outdented(old(self)@), now),
            kept(r) == lines_rewritten_edit(old(self)@, touched_outdented(old(self)@)),
    {
        match self.keyboard() {
            Holder::Note => {},
            _ => {
                return None;
            },
        }
        let (first, last) = self.selected_lines();
        proof {
            self.index.lemma_line_count(self@.text);
        }
        let mut rewritten: Vec<String> = Vec::new();
        let mut l: usize = first;
        while l <= last
            invariant
                self.wf(),
                first <= l <= last + 1,
                last < line_count(self@.text) <= usize::MAX,
                rewritten@.len() == l - first,
                forall|i: int|
                    0 <= i < l - first ==> bytes(#[trigger] rewritten@[i]@) == outdented(
                        line(self@.text, first + i),
                    ),
            decreases last + 1 - l,
        {
            proof {
                self.lemma_wf();
                lemma_line(self@.text, l as int);
                lemma_line_boundaries(self@.text, l as int);
            }
            rewritten.push(
                outdent(
                    slice(self.note.text(), self.index.line_start(l), self.index.line_end(l)),
                ),
            );
            l += 1;
        }
        assert(each_bytes(rewritten@) =~= touched_outdented(self@));
        self.transform_lines(&rewritten, now)
    }
}

/// Where a caret stands once its line grew.
fn carry_along(within: usize, old_len: usize, new_len: usize) -> (r: usize)
    requires
        within <= old_len,
    ensures
        r == carried_along(within as int, old_len as int, new_len as int),
{
    if new_len >= old_len {
        within + (new_len - old_len)
    } else if within >= old_len - new_len {
        within - (old_len - new_len)
    } else {
        0
    }
}

/// The lines, a line break between each two.
fn join_lines(ls: &Vec<String>) -> (r: String)
    ensures
        bytes(r@) == lined(each_bytes(ls@)),
{
    let mut r = String::new();
    let mut i: usize = 0;
    proof {
        assert(r@ =~= Seq::empty());
        assert(bytes(r@) =~= Seq::empty());
        assert(each_bytes(ls@).take(0) =~= Seq::empty());
    }
    while i < ls.len()
        invariant
            i <= ls@.len(),
            bytes(r@) == lined(each_bytes(ls@).take(i as int)),
        decreases ls@.len() - i,
    {
        let ghost before = r@;
        proof {
            let all = each_bytes(ls@);
            lemma_newline_valid();
            assert(all.take(i + 1).drop_last() =~= all.take(i as int));
            assert(all.take(i + 1).last() == bytes(ls@[i as int]@));
            lemma_bytes_concat(before, "\n"@);
            lemma_bytes_concat(before + "\n"@, ls@[i as int]@);
            lemma_bytes_concat(before, ls@[i as int]@);
        }
        if i > 0 {
            r.append("\n");
        }
        r.append(ls[i].as_str());
        proof {
            if i == 0 {
                assert(bytes(r@) =~= bytes(ls@[0]@));
            }
        }
        i += 1;
    }
    assert(each_bytes(ls@).take(ls@.len() as int) =~= each_bytes(ls@));
    r
}

/// The parts of a swap of lines.
struct LineSwap {
    from: usize,
    to: usize,
    with: String,
    start: usize,
    end: usize,
    /// The caret's place in the neighbour's line.
    beside: usize,
}

impl LineSwap {
    spec fn plans(&self, s: State, down: bool) -> bool {
        let w = swap(s, down);
        &&& self.from == w.from
        &&& self.to == w.to
        &&& bytes(self.with@) == w.with
        &&& (self.start as int, self.end as int) == after_swap(s, down)
        &&& self.beside == least(
            line_start(s.text, w.neighbour) + (caret(s) - line_start(s.text, w.first)),
            line_end(s.text, w.neighbour),
        )
    }
}

/// `above`, a line break, `below`.
fn two_lines(above: &str, below: &str) -> (r: String)
    ensures
        bytes(r@) == above.spec_bytes() + seq![NEWLINE] + below.spec_bytes(),
{
    let mut r = String::from_str(above);
    r.append("\n");
    r.append(below);
    proof {
        lemma_newline_valid();
        lemma_bytes_concat(above@ + "\n"@, below@);
        lemma_bytes_concat(above@, "\n"@);
    }
    r
}

} // verus!
