//! Moving a note: one cut and one paste.

use vstd::prelude::*;
use vstd::string::*;
use vstd::utf8::*;

use crate::ascii::NEWLINE;
use crate::index::LineIndex;
use crate::lines::{
    ints, lemma_line, lemma_line_boundaries, lemma_line_starts, lemma_lines_of_terminated,
    lemma_lines_single, lemma_terminated_concat, lemma_terminated_lines, lemma_terminated_one, line,
    line_count, line_end, line_start, lines, single_line, terminated,
};
use crate::note::{
    block_first, block_to, boundary_lines, divides, dividers, lemma_block, lemma_dividers, Note,
};
use crate::text::{boundary, bytes, lemma_bytes_concat, lemma_string_ends, replaced, slice};

verus! {

broadcast use {vstd::seq::group_seq_axioms, vstd::string::group_string_axioms};

/// One note changing places, as the two edits it really is.
///
/// A move is a cut and a paste, and saying so is what keeps it cheap: the
/// caller replays these two spans into its line index, its fence map and its
/// undo history instead of rebuilding all three.
///
/// The removal is described against the buffer as it stood *before* the move,
/// the insertion against the buffer with the removal already applied.
#[derive(Clone, Debug, PartialEq, Eq)]
pub struct BlockMove {
    /// Where the note (with the rule above it) was lifted from.
    pub cut_at: usize,
    /// The bytes lifted out: the newline before the rule, the rule, and the
    /// note itself. A rule on the first line has no newline before it, and the
    /// one after the note goes instead.
    pub cut_text: String,
    /// Where it was put back down, in the buffer after the cut.
    pub insert_at: usize,
    /// The bytes put back: the note, then the rule, so the note lands above it.
    pub insert_text: String,
    /// Byte offset of the moved note's first character in the new text.
    pub moved_to: usize,
}

/// A [`BlockMove`] over bytes and unbounded integers.
pub struct Move {
    pub cut_at: int,
    pub cut_text: Seq<u8>,
    pub insert_at: int,
    pub insert_text: Seq<u8>,
    pub moved_to: int,
}

impl View for BlockMove {
    type V = Move;

    open spec fn view(&self) -> Move {
        Move {
            cut_at: self.cut_at as int,
            cut_text: bytes(self.cut_text@),
            insert_at: self.insert_at as int,
            insert_text: bytes(self.insert_text@),
            moved_to: self.moved_to as int,
        }
    }
}

/// The lines that a move of note `idx` lifts out: the rule above the note, and
/// one past the note's last line.
pub open spec fn lifted(b: Seq<u8>, idx: int) -> (int, int) {
    (dividers(b)[idx - 1], block_to(b, idx))
}

/// The bytes that a move of note `idx` cuts: the lifted lines with the newline
/// before them or, where the rule is the first line, with the newline after them.
pub open spec fn cut_range(b: Seq<u8>, idx: int) -> (int, int) {
    let (sep, to) = lifted(b, idx);
    if sep > 0 {
        (line_start(b, sep) - 1, line_end(b, to - 1))
    } else {
        (0, line_start(b, to))
    }
}

/// The moved note with its rule under it.
pub open spec fn turned(b: Seq<u8>, idx: int) -> Seq<u8> {
    let (sep, to) = lifted(b, idx);
    if sep + 1 < to {
        b.subrange(line_start(b, sep + 1), line_end(b, to - 1)) + seq![NEWLINE] + line(b, sep)
    } else {
        line(b, sep)
    }
}

/// The move that puts note `idx` in front of note `before`.
pub open spec fn planned(b: Seq<u8>, idx: int, before: int) -> Move {
    let (sep, to) = lifted(b, idx);
    let (cut_at, cut_end) = cut_range(b, idx);
    let target = block_first(b, before);
    let insert_at = if line_start(b, target) < cut_at {
        line_start(b, target)
    } else {
        cut_at
    };
    // The run needs a newline on whichever side it has a neighbour. Between two
    // adjacent rules it goes back where it was cut, behind the line above it.
    let behind = 0 < sep && target == sep;
    let alone = sep == 0 && to == line_count(b);
    Move {
        cut_at,
        cut_text: b.subrange(cut_at, cut_end),
        insert_at,
        insert_text: if behind {
            seq![NEWLINE] + turned(b, idx)
        } else if alone {
            turned(b, idx)
        } else {
            turned(b, idx) + seq![NEWLINE]
        },
        moved_to: if behind {
            insert_at + 1
        } else {
            insert_at
        },
    }
}

/// Whether there is such a move to make.
pub open spec fn movable(b: Seq<u8>, idx: int, before: int) -> bool {
    0 <= before < idx <= dividers(b).len()
}

/// Text `b` after the cut of `m`.
pub open spec fn after_cut(b: Seq<u8>, m: Move) -> Seq<u8> {
    replaced(b, m.cut_at, m.cut_at + m.cut_text.len(), Seq::empty())
}

/// Text `b` after both edits of `m`.
pub open spec fn after_move(b: Seq<u8>, m: Move) -> Seq<u8> {
    replaced(after_cut(b, m), m.insert_at, m.insert_at, m.insert_text)
}

/// The lines of `b` with note `idx`, its rule under it, in front of note
/// `before`.
pub open spec fn reordered(b: Seq<u8>, idx: int, before: int) -> Seq<Seq<u8>> {
    let (sep, to) = lifted(b, idx);
    let target = block_first(b, before);
    let all = lines(b);
    all.subrange(0, target) + all.subrange(sep + 1, to) + seq![all[sep]] + all.subrange(target, sep)
        + all.subrange(to, all.len() as int)
}

/// Where the parts of a move stand.
pub proof fn lemma_lifted(b: Seq<u8>, idx: int, before: int)
    requires
        movable(b, idx, before),
    ensures
        ({
            let (sep, to) = lifted(b, idx);
            0 <= block_first(b, before) <= sep < to <= line_count(b)
        }),
{
    lemma_dividers(b);
    lemma_block(b, idx);
    if before > 0 && before - 1 < idx - 1 {
        assert(dividers(b)[before - 1] < dividers(b)[idx - 1]);
    }
}

/// Lines `from..to` with a newline after each are the bytes from the start of
/// the first to the start of the next, the text taken with a newline after it.
pub proof fn lemma_terminated_range(b: Seq<u8>, from: int, to: int)
    requires
        0 <= from <= to <= line_count(b),
        from < line_count(b),
    ensures
        to < line_count(b) ==> terminated(lines(b).subrange(from, to)) == b.subrange(
            line_start(b, from),
            line_start(b, to),
        ),
        to == line_count(b) ==> terminated(lines(b).subrange(from, to)) == b.subrange(
            line_start(b, from),
            b.len() as int,
        ) + seq![NEWLINE],
        line_start(b, from) <= line_start(b, to) <= b.len(),
{
    let head = lines(b).take(from);
    let mid = lines(b).subrange(from, to);
    lemma_line_starts(b);
    assert(lines(b).take(to) =~= head + mid);
    lemma_terminated_concat(head, mid);
    lemma_terminated_lines(b, from);
    lemma_terminated_lines(b, to);
    let whole = terminated(lines(b).take(to));
    assert(terminated(mid) =~= whole.subrange(terminated(head).len() as int, whole.len() as int));
    if from < to && to < line_count(b) {
        assert(crate::lines::line_starts(b)[from] < crate::lines::line_starts(b)[to]);
    }
    if to < line_count(b) {
        assert(terminated(mid) =~= b.subrange(line_start(b, from), line_start(b, to)));
    } else {
        assert(terminated(mid) =~= b.subrange(line_start(b, from), b.len() as int) + seq![NEWLINE]);
    }
}

/// The moved run with a newline after it is the note's lines and then the rule,
/// each with a newline after it.
proof fn lemma_turned(b: Seq<u8>, idx: int)
    requires
        0 < idx <= dividers(b).len(),
    ensures
        ({
            let (sep, to) = lifted(b, idx);
            turned(b, idx) + seq![NEWLINE] == terminated(lines(b).subrange(sep + 1, to)) + terminated(
                seq![lines(b)[sep]],
            )
        }),
{
    let (sep, to) = lifted(b, idx);
    let nl = seq![NEWLINE];
    lemma_lifted(b, idx, 0);
    lemma_terminated_one(line(b, sep));
    assert(lines(b)[sep] == line(b, sep));
    if sep + 1 < to {
        lemma_terminated_range(b, sep + 1, to);
        lemma_line(b, to - 1);
        let text = b.subrange(line_start(b, sep + 1), line_end(b, to - 1));
        lemma_line(b, sep + 1);
        if sep + 1 < to - 1 {
            lemma_line_starts(b);
            assert(crate::lines::line_starts(b)[sep + 1] < crate::lines::line_starts(b)[to - 1]);
        }
        assert(terminated(lines(b).subrange(sep + 1, to)) =~= text + nl);
        assert(text + nl + line(b, sep) + nl =~= (text + nl) + (line(b, sep) + nl));
    } else {
        assert(lines(b).subrange(sep + 1, to) =~= Seq::empty());
        assert(terminated(Seq::<Seq<u8>>::empty()) =~= Seq::empty());
        assert(Seq::<u8>::empty() + (line(b, sep) + nl) =~= line(b, sep) + nl);
    }
}

/// The moved text with a newline after it, as the four parts it is put together
/// from: the lines above, the moved run, the lines it moved past, and the rest.
spec fn moved_parts(b: Seq<u8>, idx: int, before: int) -> Seq<u8> {
    let (sep, to) = lifted(b, idx);
    let target = block_first(b, before);
    let all = lines(b);
    terminated(all.subrange(0, target)) + (turned(b, idx) + seq![NEWLINE]) + terminated(
        all.subrange(target, sep),
    ) + terminated(all.subrange(to, all.len() as int))
}

/// What every move of one note in front of another satisfies.
spec fn move_fits(b: Seq<u8>, idx: int, before: int) -> bool {
    let m = planned(b, idx, before);
    &&& after_move(b, m) + seq![NEWLINE] == moved_parts(b, idx, before)
    &&& m.moved_to == line_start(b, block_first(b, before))
    &&& 0 <= m.cut_at <= m.cut_at + m.cut_text.len() <= b.len()
    &&& b.subrange(m.cut_at, m.cut_at + m.cut_text.len()) == m.cut_text
    &&& 0 <= m.insert_at <= m.cut_at
}

/// Joining does not depend on the brackets.
proof fn lemma_brackets(x: Seq<u8>, y: Seq<u8>, z: Seq<u8>, w: Seq<u8>, v: Seq<u8>)
    ensures
        x + y + (z + w) + v == x + y + z + (w + v),
{
    assert(x + y + (z + w) + v =~= x + y + z + (w + v));
}

#[verifier::rlimit(40)]
proof fn lemma_move_inside(b: Seq<u8>, idx: int, before: int)
    requires
        movable(b, idx, before),
        lifted(b, idx).1 < line_count(b),
    ensures
        move_fits(b, idx, before),
{
    let m = planned(b, idx, before);
    let (sep, to) = lifted(b, idx);
    let f = block_first(b, before);
    let n = line_count(b) as int;
    let nl = seq![NEWLINE];
    let all = lines(b);
    lemma_lifted(b, idx, before);
    lemma_line_starts(b);
    lemma_terminated_range(b, 0, f);
    lemma_terminated_range(b, f, sep);
    lemma_terminated_range(b, sep, to);
    lemma_terminated_range(b, to, n);
    let turn = turned(b, idx);
    let ta = b.subrange(0, line_start(b, f));
    let tm = b.subrange(line_start(b, f), line_start(b, sep));
    let tail = b.subrange(line_start(b, to), b.len() as int);
    let rest = after_cut(b, m);
    lemma_line(b, to - 1);
    lemma_line(b, sep);
    if sep > 0 {
        lemma_line(b, sep - 1);
        assert(crate::lines::line_starts(b)[sep - 1] < crate::lines::line_starts(b)[sep]);
    }
    assert(rest =~= ta + tm + tail);
    if 0 < sep && f == sep {
        assert(tm =~= Seq::empty());
        let short = b.subrange(0, line_start(b, sep) - 1);
        assert(ta =~= short + nl);
        assert(rest.subrange(0, m.insert_at) =~= short);
        assert(rest.subrange(m.insert_at, rest.len() as int) =~= nl + tail);
        assert(after_move(b, m) =~= short + (nl + turn) + (nl + tail));
        assert(after_move(b, m) + nl =~= ta + (turn + nl) + tm + (tail + nl));
    } else {
        if f < sep {
            assert(crate::lines::line_starts(b)[f] < crate::lines::line_starts(b)[sep]);
        }
        assert(m.insert_text == turn + nl);
        assert(rest.subrange(0, m.insert_at) =~= ta);
        assert(rest.subrange(m.insert_at, rest.len() as int) =~= tm + tail);
        lemma_brackets(ta, turn + nl, tm, tail, nl);
        assert(after_move(b, m) + nl == ta + (turn + nl) + tm + (tail + nl));
    }
}

proof fn lemma_move_last(b: Seq<u8>, idx: int, before: int)
    requires
        movable(b, idx, before),
        lifted(b, idx).1 == line_count(b),
    ensures
        move_fits(b, idx, before),
{
    let m = planned(b, idx, before);
    let (sep, to) = lifted(b, idx);
    let f = block_first(b, before);
    let n = line_count(b) as int;
    let nl = seq![NEWLINE];
    let all = lines(b);
    lemma_lifted(b, idx, before);
    lemma_line_starts(b);
    lemma_terminated_range(b, 0, f);
    lemma_terminated_range(b, f, sep);
    lemma_line(b, sep);
    let turn = turned(b, idx);
    let ta = b.subrange(0, line_start(b, f));
    let tm = b.subrange(line_start(b, f), line_start(b, sep));
    assert(all.subrange(to, n) =~= Seq::empty());
    let tt = Seq::<u8>::empty();
    assert(terminated(all.subrange(to, n)) == tt);
    let rest = after_cut(b, m);
    assert(rest =~= b.subrange(0, m.cut_at));
    if sep == 0 {
        assert(m.insert_text == turn);
        assert(after_move(b, m) =~= turn);
        assert(after_move(b, m) + nl =~= ta + (turn + nl) + tm + tt);
    } else if f < sep {
        lemma_line(b, f);
        assert(crate::lines::line_starts(b)[f] < crate::lines::line_starts(b)[sep]);
        assert(m.insert_text == turn + nl);
        assert(rest.subrange(0, m.insert_at) =~= ta);
        assert(rest.subrange(m.insert_at, rest.len() as int) + nl =~= tm);
        assert(after_move(b, m) + nl =~= ta + (turn + nl) + tm + tt);
    } else {
        lemma_rule_above(b, before);
        lemma_line(b, f - 1);
        assert(m.cut_at == line_start(b, sep) - 1);
        assert(rest.len() > 0);
        assert(m.insert_text == nl + turn);
        assert(rest + nl =~= ta);
        assert(rest.subrange(0, m.insert_at) =~= rest);
        assert(rest.subrange(m.insert_at, rest.len() as int) =~= Seq::empty());
        assert(after_move(b, m) =~= rest + nl + turn);
        assert(after_move(b, m) + nl =~= ta + (turn + nl) + tm + tt);
    }
}

/// A move changes nothing but the order of the lines: the moved note stands,
/// rule under it, where the note it was moved in front of began.
pub proof fn lemma_move_reorders_lines(b: Seq<u8>, idx: int, before: int)
    requires
        movable(b, idx, before),
    ensures
        lines(after_move(b, planned(b, idx, before))) == reordered(b, idx, before),
        planned(b, idx, before).moved_to == line_start(b, block_first(b, before)),
        planned(b, idx, before).moved_to == line_start(
            after_move(b, planned(b, idx, before)),
            block_first(b, before),
        ),
        ({
            let m = planned(b, idx, before);
            &&& 0 <= m.cut_at <= m.cut_at + m.cut_text.len() <= b.len()
            &&& b.subrange(m.cut_at, m.cut_at + m.cut_text.len()) == m.cut_text
            &&& 0 <= m.insert_at <= m.cut_at
        }),
{
    let new = after_move(b, planned(b, idx, before));
    let (sep, to) = lifted(b, idx);
    let f = block_first(b, before);
    let all = lines(b);
    lemma_lifted(b, idx, before);
    if to < line_count(b) {
        lemma_move_inside(b, idx, before);
    } else {
        lemma_move_last(b, idx, before);
    }
    lemma_lines_single(b);
    lemma_turned(b, idx);
    let a = all.subrange(0, f);
    let mid = all.subrange(f, sep);
    let rule = seq![all[sep]];
    let note = all.subrange(sep + 1, to);
    let tail = all.subrange(to, all.len() as int);
    let order = reordered(b, idx, before);
    lemma_terminated_concat(a, note);
    lemma_terminated_concat(a + note, rule);
    lemma_terminated_concat(a + note + rule, mid);
    lemma_terminated_concat(a + note + rule + mid, tail);
    assert(terminated(a) + terminated(note) + terminated(rule) =~= terminated(a) + (terminated(note)
        + terminated(rule)));
    assert(terminated(order) == new + seq![NEWLINE]);
    assert forall|i: int| 0 <= i < order.len() implies single_line(#[trigger] order[i]) by {
        if i < f {
            assert(order[i] == all[i]);
        } else if i < f + note.len() {
            assert(order[i] == all[sep + 1 + (i - f)]);
        } else if i == f + note.len() {
            assert(order[i] == all[sep]);
        } else if i < f + note.len() + 1 + mid.len() {
            assert(order[i] == all[f + (i - f - note.len() - 1)]);
        } else {
            assert(order[i] == all[to + (i - f - note.len() - 1 - mid.len())]);
        }
    }
    lemma_lines_of_terminated(order, new);
    // The note starts where the lines before it end.
    assert(line_count(new) == lines(new).len());
    lemma_line(new, f);
    lemma_line(b, f);
    lemma_terminated_lines(new, f);
    assert(lines(new).take(f) =~= a);
    lemma_terminated_lines(b, f);
    assert(all.take(f) =~= a);
    assert(b.subrange(0, line_start(b, f)).len() == new.subrange(0, line_start(new, f)).len());
}

/// The line above a note that is not the first is a rule.
proof fn lemma_rule_above(b: Seq<u8>, before: int)
    requires
        0 < before <= dividers(b).len(),
    ensures
        line(b, block_first(b, before) - 1).len() >= 3,
{
    lemma_dividers(b);
    let sep = dividers(b)[before - 1];
    assert(divides(b, sep));
    crate::note::lemma_rule_not_empty(line(b, sep));
}

/// Whether both edits of `m` can be made on `b`: they stay inside the text and
/// split no character.
pub open spec fn fits(b: Seq<u8>, m: Move) -> bool {
    let cut_end = m.cut_at + m.cut_text.len();
    &&& 0 <= m.cut_at <= cut_end <= b.len()
    &&& boundary(b, m.cut_at)
    &&& boundary(b, cut_end)
    &&& boundary(after_cut(b, m), m.insert_at)
}

pub proof fn lemma_planned_fits(b: Seq<u8>, idx: int, before: int)
    requires
        valid_utf8(b),
        movable(b, idx, before),
    ensures
        fits(b, planned(b, idx, before)),
        0 <= cut_range(b, idx).0 <= cut_range(b, idx).1 <= b.len(),
{
    let m = planned(b, idx, before);
    let (sep, to) = lifted(b, idx);
    let f = block_first(b, before);
    let (cut_at, cut_end) = cut_range(b, idx);
    lemma_lifted(b, idx, before);
    lemma_move_reorders_lines(b, idx, before);
    lemma_line(b, sep);
    lemma_line_boundaries(b, sep);
    lemma_line_boundaries(b, to);
    lemma_line_boundaries(b, f);
    lemma_line_starts(b);
    if sep > 0 {
        lemma_line(b, sep - 1);
        lemma_line_boundaries(b, to - 1);
        crate::text::lemma_ascii_boundary(b, line_start(b, sep) - 1);
    }
    let rest = after_cut(b, m);
    assert(m.cut_at + m.cut_text.len() == cut_end);
    if m.insert_at < rest.len() {
        if m.insert_at < cut_at {
            assert(rest[m.insert_at] == b[m.insert_at]);
        } else {
            assert(rest[m.insert_at] == b[cut_end]);
        }
    }
}

impl Note {
    /// What moving block `idx` to the top would do, without doing it; `None`
    /// when there is nothing to move (`idx == 0` or out of range).
    ///
    /// The app applies the two halves one at a time so it can patch its line
    /// index between them — each half is an ordinary edit against the buffer as
    /// it stands, which is the only description those patches accept.
    pub fn plan_bring_block_up(&self, index: &LineIndex, idx: usize) -> (r: Option<BlockMove>)
        requires
            index.indexes(self@),
        ensures
            r is Some <==> movable(self@, idx as int, 0),
            r matches Some(m) ==> m@ == planned(self@, idx as int, 0) && fits(self@, m@),
    {
        self.plan_move(index, idx, 0)
    }

    /// The same for swapping block `idx` with the one above it.
    pub fn plan_move_block_up_one(&self, index: &LineIndex, idx: usize) -> (r: Option<BlockMove>)
        requires
            index.indexes(self@),
        ensures
            r is Some <==> movable(self@, idx as int, idx - 1),
            r matches Some(m) ==> m@ == planned(self@, idx as int, idx - 1) && fits(self@, m@),
    {
        if idx == 0 {
            return None;
        }
        self.plan_move(index, idx, idx - 1)
    }

    /// Perform a planned move: the removal, then the insertion.
    pub fn apply_move(&mut self, planned: &BlockMove)
        requires
            fits(old(self)@, planned@),
        ensures
            final(self)@ == after_move(old(self)@, planned@),
    {
        let len: usize = planned.cut_text.as_str().as_bytes().len();
        let _room: usize = self.len();
        self.cut_and_paste(
            planned.cut_at,
            planned.cut_at + len,
            planned.insert_at,
            planned.insert_text.as_str(),
        );
    }

    /// Lift block `idx` out of the document — with the rule above it — and put
    /// it back down in front of block `before`.
    ///
    /// The whole operation is one removal and one insertion on the buffer:
    /// every byte outside the moved note is untouched. The rule that travels
    /// with the note is the one that was above it, taken byte-for-byte: a `***`
    /// stays `***`.
    fn plan_move(&self, index: &LineIndex, idx: usize, before: usize) -> (r: Option<BlockMove>)
        requires
            index.indexes(self@),
        ensures
            r is Some <==> movable(self@, idx as int, before as int),
            r matches Some(m) ==> m@ == planned(self@, idx as int, before as int) && fits(
                self@,
                m@,
            ),
    {
        let text = self.text();
        let ghost b = self@;
        let boundaries = boundary_lines(text);
        assert(ints(boundaries@).len() == boundaries@.len());
        if idx == 0 || before >= idx || idx > boundaries.len() {
            return None;
        }
        proof {
            self.lemma_utf8();
            index.lemma_line_count(b);
            lemma_dividers(b);
            lemma_lifted(b, idx as int, before as int);
            lemma_move_reorders_lines(b, idx as int, before as int);
            lemma_planned_fits(b, idx as int, before as int);
        }
        let line_count: usize = index.line_count();
        // The lines the move lifts out: the rule, then the block's own lines. A
        // block with no content of its own is just the rule.
        let sep: usize = boundaries[idx - 1];
        assert(sep == ints(boundaries@)[idx - 1]);
        let to: usize = if idx < boundaries.len() {
            assert(boundaries@[idx as int] == ints(boundaries@)[idx as int]);
            boundaries[idx]
        } else {
            line_count
        };
        let target: usize = if before == 0 {
            0
        } else {
            assert(boundaries@[before - 1] == ints(boundaries@)[before - 1]);
            boundaries[before - 1] + 1
        };
        let sep_start: usize = index.line_start(sep);
        proof {
            if sep > 0 {
                lemma_line(b, sep - 1);
            }
            lemma_line(b, to - 1);
        }
        // Take the newline in front of the run with it, or — on the first line,
        // where there is none — the one behind it.
        let (cut_at, cut_end): (usize, usize) = if sep > 0 {
            (sep_start - 1, index.line_end(to - 1))
        } else {
            (0, index.line_start(to))
        };
        let cut_text = slice(text, cut_at, cut_end);
        let target_start: usize = index.line_start(target);
        let insert_at: usize = if target_start < cut_at {
            target_start
        } else {
            cut_at
        };
        let body = turned_text(text, index, sep, to, Ghost(idx as int));
        let newline = "\n";
        proof {
            reveal_strlit("\n");
            is_ascii_chars_encode_utf8(newline@);
            assert(newline.spec_bytes() =~= seq![NEWLINE]);
        }
        // A run needs a newline on whichever side it has a neighbour. Between two
        // adjacent rules the empty note "starts" on the very line being cut, and
        // the run goes back behind the line above it: two empty notes swapping
        // places is a no-op.
        if 0 < sep && target == sep {
            let mut insert_text = String::from_str(newline);
            proof {
                lemma_bytes_concat(newline@, body@);
            }
            insert_text.append(body.as_str());
            Some(
                BlockMove {
                    cut_at,
                    cut_text: String::from_str(cut_text),
                    insert_at,
                    insert_text,
                    moved_to: insert_at + 1,
                },
            )
        } else if sep == 0 && to == line_count {
            Some(
                BlockMove {
                    cut_at,
                    cut_text: String::from_str(cut_text),
                    insert_at,
                    insert_text: body,
                    moved_to: insert_at,
                },
            )
        } else {
            let mut insert_text = body;
            proof {
                lemma_bytes_concat(insert_text@, newline@);
            }
            insert_text.append(newline);
            Some(
                BlockMove {
                    cut_at,
                    cut_text: String::from_str(cut_text),
                    insert_at,
                    insert_text,
                    moved_to: insert_at,
                },
            )
        }
    }
}

/// The note's own lines, then the rule that stood above them.
fn turned_text(text: &str, index: &LineIndex, sep: usize, to: usize, Ghost(idx): Ghost<int>) -> (r:
    String)
    requires
        index.indexes(text.spec_bytes()),
        0 < idx <= dividers(text.spec_bytes()).len(),
        (sep as int, to as int) == lifted(text.spec_bytes(), idx),
    ensures
        bytes(r@) == turned(text.spec_bytes(), idx),
{
    let ghost b = text.spec_bytes();
    proof {
        lemma_string_ends(text@);
        lemma_lifted(b, idx, 0);
        lemma_line_boundaries(b, sep as int);
        lemma_line(b, sep as int);
    }
    let rule = slice(text, index.line_start(sep), index.line_end(sep));
    if sep + 1 < to {
        proof {
            lemma_line_boundaries(b, sep + 1);
            lemma_line_boundaries(b, to - 1);
            lemma_line(b, sep + 1);
            lemma_line(b, to - 1);
            lemma_line_starts(b);
            if sep + 1 < to - 1 {
                assert(crate::lines::line_starts(b)[sep + 1] < crate::lines::line_starts(b)[to - 1]);
            }
        }
        let content = slice(text, index.line_start(sep + 1), index.line_end(to - 1));
        let newline = "\n";
        let mut r = String::from_str(content);
        r.append(newline);
        r.append(rule);
        proof {
            reveal_strlit("\n");
            is_ascii_chars_encode_utf8(newline@);
            assert(newline.spec_bytes() =~= seq![NEWLINE]);
            lemma_bytes_concat(content@ + newline@, rule@);
            lemma_bytes_concat(content@, newline@);
        }
        r
    } else {
        String::from_str(rule)
    }
}

} // verus!
