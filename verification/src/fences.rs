//! Which lines of a text stand inside a fenced code block.

use vstd::prelude::*;
use vstd::string::*;

use crate::index::LineIndex;
use crate::lines::{
    lemma_line, lemma_line_boundaries, lemma_line_starts, lemma_lines_around, line, line_count, line_of,
};
use crate::markdown::{fence, is_fence};
use crate::text::{lemma_string_ends, replaced, slice};

verus! {

broadcast use {vstd::seq::group_seq_axioms, vstd::string::group_string_axioms};

/// For every line of `b`, whether it is a fence.
pub open spec fn fence_flags(b: Seq<u8>) -> Seq<bool> {
    Seq::new(line_count(b), |i: int| fence(line(b, i)))
}

/// Whether an odd number of the first `i` lines are fences: whether line `i`
/// starts inside an open fence. Lines past the end are no fences.
pub open spec fn open_before(flags: Seq<bool>, i: int) -> bool
    decreases i,
{
    if i <= 0 {
        false
    } else {
        open_before(flags, i - 1) != (i - 1 < flags.len() && flags[i - 1])
    }
}

/// Whether one of the lines from `i` on is a fence.
pub open spec fn fence_from(flags: Seq<bool>, i: int) -> bool {
    exists|k: int| i <= k < flags.len() && #[trigger] flags[k]
}

/// Whether line `i` starts inside a fence that is closed later on.
pub open spec fn in_closed(flags: Seq<bool>, i: int) -> bool {
    open_before(flags, i) && fence_from(flags, i)
}

/// The fence state of every line of a text, patched after an edit.
#[derive(Clone, Debug, PartialEq, Eq)]
pub struct FenceMap {
    /// Which lines are fences.
    fences: Vec<bool>,
    /// Which lines start inside an open fence.
    open: Vec<bool>,
    /// One more than the last fence line; 0 where there is none.
    end: usize,
}

impl View for FenceMap {
    type V = Seq<bool>;

    closed spec fn view(&self) -> Seq<bool> {
        self.fences@
    }
}

impl FenceMap {
    /// The parts agree with each other.
    pub closed spec fn wf(&self) -> bool {
        &&& self.open@.len() == self.fences@.len() + 1
        &&& forall|i: int|
            0 <= i < self.open@.len() ==> #[trigger] self.open@[i] == open_before(self.fences@, i)
        &&& self.end <= self.fences@.len()
        &&& self.end > 0 ==> self.fences@[self.end - 1]
        &&& forall|i: int| self.end <= i < self.fences@.len() ==> !#[trigger] self.fences@[i]
    }

    /// The fence state of `text`, whose index is `index`.
    pub fn new(text: &str, index: &LineIndex) -> (r: FenceMap)
        requires
            index.indexes(text.spec_bytes()),
        ensures
            r.wf(),
            r@ == fence_flags(text.spec_bytes()),
    {
        let count: usize = index.line_count();
        let mut fences: Vec<bool> = Vec::new();
        push_flags(text, index, 0, count, &mut fences);
        proof {
            assert(fences@ =~= fence_flags(text.spec_bytes()));
        }
        Self::from_flags(fences)
    }

    /// Throw the state away and take it from `text` anew.
    pub fn rebuild(&mut self, text: &str, index: &LineIndex)
        requires
            index.indexes(text.spec_bytes()),
        ensures
            final(self).wf(),
            final(self)@ == fence_flags(text.spec_bytes()),
    {
        *self = FenceMap::new(text, index);
    }

    fn from_flags(fences: Vec<bool>) -> (r: FenceMap)
        ensures
            r.wf(),
            r@ == fences@,
    {
        let n: usize = fences.len();
        let mut open: Vec<bool> = Vec::new();
        let mut inside = false;
        let mut end: usize = 0;
        open.push(false);
        let mut i: usize = 0;
        while i < n
            invariant
                n == fences@.len(),
                i <= n,
                open@.len() == i + 1,
                inside == open_before(fences@, i as int),
                forall|k: int| 0 <= k <= i ==> #[trigger] open@[k] == open_before(fences@, k),
                end <= i,
                end > 0 ==> fences@[end - 1],
                forall|k: int| end <= k < i ==> !#[trigger] fences@[k],
            decreases n - i,
        {
            if fences[i] {
                inside = !inside;
                end = i + 1;
            }
            i += 1;
            open.push(inside);
        }
        FenceMap { fences, open, end }
    }

    /// Whether `line` starts inside an open fence: the state the line is
    /// highlighted with.
    pub fn is_open(&self, line: usize) -> (r: bool)
        requires
            self.wf(),
        ensures
            r == open_before(self@, line as int),
    {
        if line < self.open.len() {
            self.open[line]
        } else {
            proof {
                lemma_open_past(self.fences@, line as int);
            }
            self.open[self.fences.len()]
        }
    }

    /// Whether `line` is inside a fence that is closed later on. A fence still
    /// being typed does not count.
    pub fn in_closed_fence(&self, line: usize) -> (r: bool)
        requires
            self.wf(),
        ensures
            r == in_closed(self@, line as int),
    {
        proof {
            if line < self.end {
                assert(self.fences@[self.end - 1]);
            }
        }
        self.is_open(line) && line < self.end
    }

    /// Patch the state after an edit of lines: in `text`, whose index is
    /// `index`, lines `first_line..=first_line + inserted_lines` stand where
    /// lines `first_line..=first_line + removed_lines` stood before.
    pub fn splice(
        &mut self,
        text: &str,
        index: &LineIndex,
        first_line: usize,
        removed_lines: usize,
        inserted_lines: usize,
    )
        requires
            old(self).wf(),
            index.indexes(text.spec_bytes()),
            first_line + removed_lines < old(self)@.len(),
            old(self)@.len() - removed_lines + inserted_lines == line_count(text.spec_bytes()),
        ensures
            final(self).wf(),
            final(self)@ == old(self)@.subrange(0, first_line as int) + fence_flags(
                text.spec_bytes(),
            ).subrange(first_line as int, first_line + inserted_lines + 1) + old(self)@.subrange(
                first_line + removed_lines + 1,
                old(self)@.len() as int,
            ),
    {
        let ghost old_flags = self.fences@;
        let ghost new_flags = fence_flags(text.spec_bytes());
        let count: usize = index.line_count();
        let n: usize = self.fences.len();
        let mut fences: Vec<bool> = Vec::new();
        copy_flags(&self.fences, 0, first_line, &mut fences);
        push_flags(text, index, first_line, first_line + inserted_lines + 1, &mut fences);
        copy_flags(&self.fences, first_line + removed_lines + 1, n, &mut fences);
        assert(fences@ =~= old_flags.subrange(0, first_line as int) + new_flags.subrange(
            first_line as int,
            first_line + inserted_lines + 1,
        ) + old_flags.subrange(first_line + removed_lines + 1, n as int));
        *self = Self::from_flags(fences);
    }
}

/// Past the last line the state stays what it was at the end.
proof fn lemma_open_past(flags: Seq<bool>, i: int)
    requires
        i >= flags.len(),
    ensures
        open_before(flags, i) == open_before(flags, flags.len() as int),
    decreases i,
{
    if i > flags.len() {
        lemma_open_past(flags, i - 1);
    }
}

/// Append `flags[from..to]` to `out`.
fn copy_flags(flags: &Vec<bool>, from: usize, to: usize, out: &mut Vec<bool>)
    requires
        from <= to <= flags@.len(),
    ensures
        final(out)@ == old(out)@ + flags@.subrange(from as int, to as int),
{
    let mut i: usize = from;
    assert(out@ + flags@.subrange(from as int, from as int) =~= out@);
    while i < to
        invariant
            from <= i <= to <= flags@.len(),
            out@ == old(out)@ + flags@.subrange(from as int, i as int),
        decreases to - i,
    {
        out.push(flags[i]);
        assert(out@ =~= old(out)@ + flags@.subrange(from as int, i + 1));
        i += 1;
    }
}

/// Append to `out` whether each of the lines `from..to` is a fence.
fn push_flags(text: &str, index: &LineIndex, from: usize, to: usize, out: &mut Vec<bool>)
    requires
        index.indexes(text.spec_bytes()),
        from <= to <= line_count(text.spec_bytes()),
    ensures
        final(out)@ == old(out)@ + fence_flags(text.spec_bytes()).subrange(from as int, to as int),
{
    let ghost b = text.spec_bytes();
    let ghost flags = fence_flags(b);
    let mut i: usize = from;
    proof {
        lemma_string_ends(text@);
        assert(out@ + flags.subrange(from as int, from as int) =~= out@);
    }
    while i < to
        invariant
            index.indexes(b),
            b == text.spec_bytes(),
            vstd::utf8::valid_utf8(b),
            flags == fence_flags(b),
            from <= i <= to <= line_count(b),
            out@ == old(out)@ + flags.subrange(from as int, i as int),
        decreases to - i,
    {
        proof {
            lemma_line(b, i as int);
            lemma_line_boundaries(b, i as int);
        }
        let raw = slice(text, index.line_start(i), index.line_end(i));
        out.push(is_fence(raw));
        assert(out@ =~= old(out)@ + flags.subrange(from as int, i + 1));
        i += 1;
    }
}

/// Patching the fence state after an edit gives what building it anew would:
/// for a text in which `inserted` takes the place of `from..to`, only the lines
/// from the edit's line on, as many as `inserted` has newlines and one more,
/// need to be looked at again.
pub proof fn law_splice_equals_rebuild(b: Seq<u8>, from: int, to: int, inserted: Seq<u8>)
    requires
        0 <= from <= to <= b.len(),
    ensures
        ({
            let after = replaced(b, from, to, inserted);
            let first = line_of(b, from);
            let removed_lines = line_count(b.subrange(from, to)) - 1;
            let inserted_lines = line_count(inserted) - 1;
            let old_flags = fence_flags(b);
            &&& line_of(after, from) == first
            &&& first + removed_lines < old_flags.len()
            &&& old_flags.len() - removed_lines + inserted_lines == line_count(after)
            &&& fence_flags(after) == old_flags.subrange(0, first) + fence_flags(after).subrange(
                first,
                first + inserted_lines + 1,
            ) + old_flags.subrange(first + removed_lines + 1, old_flags.len() as int)
        }),
{
    let head = b.subrange(0, from);
    let removed = b.subrange(from, to);
    let tail = b.subrange(to, b.len() as int);
    let after = replaced(b, from, to, inserted);
    assert(b =~= head + removed + tail);
    assert(after =~= head + inserted + tail);
    lemma_lines_around(head, removed, tail);
    lemma_lines_around(head, inserted, tail);
    lemma_line_starts(head);
    lemma_line_starts(removed);
    lemma_line_starts(inserted);
    lemma_line_starts(tail);
    let first = line_of(b, from);
    let r = line_count(removed) - 1;
    let n = line_count(inserted) - 1;
    let old_flags = fence_flags(b);
    let new_flags = fence_flags(after);
    let patched = old_flags.subrange(0, first) + new_flags.subrange(first, first + n + 1)
        + old_flags.subrange(first + r + 1, old_flags.len() as int);
    assert forall|i: int| 0 <= i < new_flags.len() implies new_flags[i] == patched[i] by {
        if i < first {
            assert(line(after, i) == line(head, i));
            assert(line(b, i) == line(head, i));
        } else if i > first + n {
            let j = i - n + r;
            assert(line(after, i) == line(tail, i - (first + n)));
            assert(line(b, j) == line(tail, j - (first + r)));
        }
    }
    assert(new_flags =~= patched);
}

/// The first fence opens a block and the next one closes it: of two fences, the lines
/// between them and the second one itself start inside the block, and no others do.
pub proof fn law_a_fence_opens_and_the_next_closes(flags: Seq<bool>, a: int, b: int, n: int, i: int)
    requires
        0 <= a < b < n <= flags.len(),
        forall|k: int| 0 <= k < n ==> (#[trigger] flags[k] <==> k == a || k == b),
        0 <= i <= n,
    ensures
        open_before(flags, i) <==> a < i <= b,
        in_closed(flags, i) ==> a < i <= b,
        a < i <= b ==> in_closed(flags, i),
    decreases i,
{
    if i > 0 {
        law_a_fence_opens_and_the_next_closes(flags, a, b, n, i - 1);
        assert(flags[i - 1] <==> i - 1 == a || i - 1 == b);
    }
    assert(flags[b]);
}

/// Without a fence before it no line is inside one.
pub proof fn law_without_fences_nothing_is_code(flags: Seq<bool>, i: int)
    requires
        0 <= i <= flags.len(),
        forall|k: int| 0 <= k < i ==> !#[trigger] flags[k],
    ensures
        !open_before(flags, i),
    decreases i,
{
    if i > 0 {
        law_without_fences_nothing_is_code(flags, i - 1);
        assert(!flags[i - 1]);
    }
}

/// Reading the lines one after the other finds the same code as the fence state of the
/// whole text.
pub proof fn law_lines_read_in_order_agree(b: Seq<u8>, i: int)
    requires
        i <= line_count(b),
    ensures
        crate::markdown::fence_open(crate::lines::lines(b), i) == open_before(fence_flags(b), i),
    decreases i,
{
    if i > 0 {
        law_lines_read_in_order_agree(b, i - 1);
        assert(crate::lines::lines(b)[i - 1] == line(b, i - 1));
    }
}

} // verus!
