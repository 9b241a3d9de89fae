//! One buffer of notes, separated by thematic breaks.

use std::ops::Range;

use vstd::prelude::*;
use vstd::string::*;
use vstd::utf8::*;

use crate::ascii::{DASH, NEWLINE, STAR, UNDERSCORE};
use crate::fences::{fence_flags, fence_from, in_closed, open_before, FenceMap};
use crate::index::LineIndex;
use crate::lines::{
    ascending, ints, lemma_ascending_unique, lemma_ints_push, lemma_line, lemma_line_boundaries,
    lemma_line_of, lemma_line_starts, line, line_count, line_end, line_of, line_start, line_starts,
};
use crate::markdown::{fence, is_fence, lead};
use crate::text::{
    ascii_white, boundary, bytes, copies, is_ascii_white, lemma_boundary, lemma_bytes_empty,
    lemma_string_ends, replaced, slice, spliced,
};

pub mod laws;
pub mod moves;
pub mod store;

pub use crate::note::moves::BlockMove;
pub use crate::note::store::{default_note_path, load_note, FileRead, LoadOutcome};

verus! {

broadcast use {vstd::seq::group_seq_axioms, vstd::string::group_string_axioms};

/// Three or more of `c` and otherwise only ASCII white space.
pub open spec fn rule_of(l: Seq<u8>, c: u8) -> bool {
    &&& copies(l, c, l.len() as int) >= 3
    &&& forall|k: int| 0 <= k < l.len() ==> #[trigger] l[k] == c || ascii_white(l[k])
}

/// A thematic break: a rule of `-`, of `*` or of `_`.
pub open spec fn separator_line(l: Seq<u8>) -> bool {
    rule_of(l, DASH) || rule_of(l, STAR) || rule_of(l, UNDERSCORE)
}

/// True when a line is a markdown thematic break.
///
/// After trimming ASCII whitespace the line must consist of 3 or more of the
/// *same* character drawn from `-`, `*`, `_`, optionally with ASCII whitespace
/// between them. So `"---"`, `"***"`, `"___"`, `"- - -"` and `"  ---  "` are all
/// separators; `"--"`, `"-*-"`, `"---a"` and a line of only whitespace are not.
///
/// Leading indentation is not limited to three spaces.
pub fn is_separator_line(line: &str) -> (r: bool)
    ensures
        r == separator_line(line.spec_bytes()),
{
    let b = line.as_bytes();
    let n: usize = b.len();
    let mut from: usize = 0;
    while from < n && is_ascii_white(b[from])
        invariant
            n == b@.len(),
            from <= n,
            forall|k: int| 0 <= k < from ==> ascii_white(#[trigger] b@[k]),
        ensures
            from <= n,
            forall|k: int| 0 <= k < from ==> ascii_white(#[trigger] b@[k]),
            from < n ==> !ascii_white(b@[from as int]),
        decreases n - from,
    {
        from += 1;
    }
    if from >= n {
        proof {
            lemma_white_no_rule(b@);
        }
        return false;
    }
    let c = b[from];
    if c != DASH && c != STAR && c != UNDERSCORE {
        return false;
    }
    let mut count: usize = 0;
    let mut i: usize = 0;
    while i < n
        invariant
            b@ == line.spec_bytes(),
            n == b@.len(),
            from < n,
            c == b@[from as int],
            !ascii_white(c),
            count <= i <= n,
            count == copies(b@, c, i as int),
            forall|k: int| 0 <= k < i ==> #[trigger] b@[k] == c || ascii_white(b@[k]),
        decreases n - i,
    {
        if b[i] == c {
            count += 1;
        } else if !is_ascii_white(b[i]) {
            return false;
        }
        i += 1;
    }
    count >= 3
}

/// White space alone is no rule.
pub proof fn lemma_white_no_rule(l: Seq<u8>)
    requires
        forall|k: int| 0 <= k < l.len() ==> ascii_white(#[trigger] l[k]),
    ensures
        !separator_line(l),
{
    lemma_absent(l, DASH, l.len() as int);
    lemma_absent(l, STAR, l.len() as int);
    lemma_absent(l, UNDERSCORE, l.len() as int);
}

proof fn lemma_absent(l: Seq<u8>, c: u8, n: int)
    requires
        0 <= n <= l.len(),
        forall|k: int| 0 <= k < n ==> #[trigger] l[k] != c,
    ensures
        copies(l, c, n) == 0,
    decreases n,
{
    if n > 0 {
        lemma_absent(l, c, n - 1);
    }
}

/// A fence is no thematic break.
pub proof fn lemma_fence_is_no_separator(l: Seq<u8>)
    requires
        fence(l),
    ensures
        !separator_line(l),
{
    let at = l[lead(l)];
    assert(!ascii_white(at));
}

/// Whether line `i` of `b` divides two notes: a thematic break outside every
/// closed fence.
pub open spec fn divides(b: Seq<u8>, i: int) -> bool {
    &&& 0 <= i < line_count(b)
    &&& separator_line(line(b, i))
    &&& !in_closed(fence_flags(b), i)
}

/// The dividing lines among the first `n`, in order.
pub open spec fn dividers_within(b: Seq<u8>, n: int) -> Seq<int>
    decreases n,
{
    if n <= 0 {
        Seq::empty()
    } else if divides(b, n - 1) {
        dividers_within(b, n - 1).push(n - 1)
    } else {
        dividers_within(b, n - 1)
    }
}

/// The lines of `b` that divide two notes, in order.
pub open spec fn dividers(b: Seq<u8>) -> Seq<int> {
    dividers_within(b, line_count(b) as int)
}

/// The dividing lines are in order, and they are all there.
pub proof fn lemma_dividers_within(b: Seq<u8>, n: int)
    requires
        0 <= n,
    ensures
        ascending(dividers_within(b, n)),
        forall|x: int| #[trigger] dividers_within(b, n).contains(x) <==> divides(b, x) && x < n,
        forall|k: int|
            0 <= k < dividers_within(b, n).len() ==> 0 <= #[trigger] dividers_within(b, n)[k] < n
                && divides(b, dividers_within(b, n)[k]),
    decreases n,
{
    if n > 0 {
        lemma_dividers_within(b, n - 1);
        let front = dividers_within(b, n - 1);
        let all = dividers_within(b, n);
        assert forall|x: int| all.contains(x) <==> divides(b, x) && x < n by {
            if divides(b, n - 1) {
                assert(all == front.push(n - 1));
                if all.contains(x) {
                    let k = choose|k: int| 0 <= k < all.len() && all[k] == x;
                    if k < front.len() {
                        assert(front[k] == x);
                        assert(front.contains(x));
                    }
                }
                if divides(b, x) && x < n {
                    if x < n - 1 {
                        assert(front.contains(x));
                        let k = choose|k: int| 0 <= k < front.len() && front[k] == x;
                        assert(all[k] == x);
                    } else {
                        assert(all[front.len() as int] == x);
                    }
                }
            }
        }
    }
}

/// The dividing lines are in order, and they are all there.
pub proof fn lemma_dividers(b: Seq<u8>)
    ensures
        ascending(dividers(b)),
        forall|x: int| #[trigger] dividers(b).contains(x) <==> divides(b, x),
        forall|k: int|
            0 <= k < dividers(b).len() ==> 0 <= #[trigger] dividers(b)[k] < line_count(b) && divides(
                b,
                dividers(b)[k],
            ),
{
    lemma_dividers_within(b, line_count(b) as int);
}

/// Between lines without a fence the fence state does not change.
pub proof fn lemma_open_unchanged(flags: Seq<bool>, i: int, j: int)
    requires
        0 <= i <= j,
        forall|k: int| i <= k < j && k < flags.len() ==> !#[trigger] flags[k],
    ensures
        open_before(flags, i) == open_before(flags, j),
    decreases j - i,
{
    if i < j {
        lemma_open_unchanged(flags, i, j - 1);
    }
}

/// Line indices that separate one note from the next.
///
/// A boundary is an explicit thematic break (`---`) and nothing else; blank
/// lines never split a note. A `---` inside a fenced code block is code, so it
/// is not a boundary.
///
/// The fence has to be *closed* to count. A fence that is opened and not yet
/// closed runs to the end of the document, so treating it as code would swallow
/// every note below it until the closing fence is typed.
pub fn boundary_lines(text: &str) -> (out: Vec<usize>)
    ensures
        ints(out@) == dividers(text.spec_bytes()),
{
    let ghost b = text.spec_bytes();
    let ghost flags = fence_flags(b);
    let index = LineIndex::new(text);
    let count: usize = index.line_count();
    let mut out: Vec<usize> = Vec::new();
    // Separators found since the currently open fence began. They are code if
    // it closes, and notes if it never does.
    let mut pending: Vec<usize> = Vec::new();
    let mut in_fence = false;
    let mut i: usize = 0;
    proof {
        lemma_string_ends(text@);
    }
    while i < count
        invariant
            b == text.spec_bytes(),
            valid_utf8(b),
            flags == fence_flags(b),
            index.indexes(b),
            count == line_count(b),
            i <= count,
            in_fence == open_before(flags, i as int),
            ascending(ints(out@)),
            ascending(ints(pending@)),
            forall|x: int| #[trigger]
                ints(out@).contains(x) <==> 0 <= x < i && separator_line(line(b, x)) && !open_before(
                    flags,
                    x,
                ),
            forall|x: int| #[trigger]
                ints(pending@).contains(x) <==> 0 <= x < i && separator_line(line(b, x))
                    && open_before(flags, x) && no_fence(flags, x, i as int),
        decreases count - i,
    {
        proof {
            lemma_line(b, i as int);
            lemma_line_boundaries(b, i as int);
        }
        let raw = slice(text, index.line_start(i), index.line_end(i));
        assert(raw.spec_bytes() == line(b, i as int));
        let ghost out_before = ints(out@);
        let ghost pending_before = ints(pending@);
        if is_fence(raw) {
            proof {
                lemma_fence_is_no_separator(line(b, i as int));
                assert(flags[i as int]);
            }
            if in_fence {
                pending.clear();
            }
            in_fence = !in_fence;
            assert forall|x: int| #[trigger]
                ints(pending@).contains(x) <==> 0 <= x < i + 1 && separator_line(line(b, x))
                    && open_before(flags, x) && no_fence(flags, x, i + 1) by {
                if 0 <= x < i && open_before(flags, x) {
                    assert(flags[i as int]);
                }
                if ints(pending@).contains(x) {
                    // Outside a fence nothing was pending.
                    assert(pending_before.contains(x));
                    lemma_open_unchanged(flags, x, i as int);
                }
            }
        } else {
            assert(!flags[i as int]);
            if is_separator_line(raw) {
                if in_fence {
                    proof {
                        lemma_ints_push(pending@, i);
                        lemma_push_contains(pending_before, i as int);
                    }
                    pending.push(i);
                } else {
                    proof {
                        lemma_ints_push(out@, i);
                        lemma_push_contains(out_before, i as int);
                    }
                    out.push(i);
                }
            }
            assert forall|x: int| #[trigger]
                ints(pending@).contains(x) <==> 0 <= x < i + 1 && separator_line(line(b, x))
                    && open_before(flags, x) && no_fence(flags, x, i + 1) by {
                if 0 <= x < i {
                    assert(no_fence(flags, x, i as int) == no_fence(flags, x, i + 1));
                }
            }
        }
        proof {
            assert forall|p: int, q: int| 0 <= p < q < out@.len() implies ints(out@)[p] < ints(
                out@,
            )[q] by {
                if q == out_before.len() {
                    assert(out_before.contains(ints(out@)[p])) by {
                        assert(out_before[p] == ints(out@)[p]);
                    }
                }
            }
            assert forall|p: int, q: int| 0 <= p < q < pending@.len() implies ints(pending@)[p]
                < ints(pending@)[q] by {
                if q == pending_before.len() {
                    assert(pending_before.contains(ints(pending@)[p])) by {
                        assert(pending_before[p] == ints(pending@)[p]);
                    }
                }
            }
        }
        i += 1;
    }
    // The fence never closed, so nothing was ever inside a code block.
    let ghost shut = ints(out@);
    let ghost left = ints(pending@);
    out.append(&mut pending);
    proof {
        assert(ints(out@) =~= shut + left);
        lemma_dividers(b);
        lemma_boundaries_complete(b, shut, left);
    }
    out
}

/// No line from `i` up to `j` is a fence.
pub open spec fn no_fence(flags: Seq<bool>, i: int, j: int) -> bool {
    forall|k: int| i <= k < j && k < flags.len() ==> !#[trigger] flags[k]
}

proof fn lemma_push_contains(s: Seq<int>, x: int)
    ensures
        forall|y: int| #[trigger] s.push(x).contains(y) <==> s.contains(y) || y == x,
{
    assert forall|y: int| #[trigger] s.push(x).contains(y) <==> s.contains(y) || y == x by {
        if s.push(x).contains(y) {
            let k = choose|k: int| 0 <= k < s.push(x).len() && s.push(x)[k] == y;
            if k < s.len() {
                assert(s[k] == y);
            }
        }
        if s.contains(y) {
            let k = choose|k: int| 0 <= k < s.len() && s[k] == y;
            assert(s.push(x)[k] == y);
        }
        if y == x {
            assert(s.push(x)[s.len() as int] == y);
        }
    }
}

/// The separators outside every fence, followed by those in a fence that never
/// closes, are all the dividers.
proof fn lemma_boundaries_complete(b: Seq<u8>, shut: Seq<int>, left: Seq<int>)
    requires
        ascending(shut),
        ascending(left),
        forall|x: int| #[trigger]
            shut.contains(x) <==> 0 <= x < line_count(b) && separator_line(line(b, x))
                && !open_before(fence_flags(b), x),
        forall|x: int| #[trigger]
            left.contains(x) <==> 0 <= x < line_count(b) && separator_line(line(b, x)) && open_before(
                fence_flags(b),
                x,
            ) && no_fence(fence_flags(b), x, line_count(b) as int),
    ensures
        shut + left == dividers(b),
{
    let flags = fence_flags(b);
    let all = shut + left;
    lemma_dividers(b);
    assert forall|p: int, q: int| 0 <= p < q < all.len() implies all[p] < all[q] by {
        if q < shut.len() {
            assert(shut[p] < shut[q]);
        } else if p >= shut.len() {
            assert(left[p - shut.len()] < left[q - shut.len()]);
        } else {
            let x = shut[p];
            let y = left[q - shut.len()];
            assert(shut.contains(x) && left.contains(y));
            if x > y {
                lemma_open_unchanged(flags, y, x);
            }
        }
    }
    assert forall|x: int| #[trigger] all.contains(x) <==> dividers(b).contains(x) by {
        assert(all.contains(x) <==> shut.contains(x) || left.contains(x)) by {
            if all.contains(x) {
                let k = choose|k: int| 0 <= k < all.len() && all[k] == x;
                if k < shut.len() {
                    assert(shut[k] == x);
                } else {
                    assert(left[k - shut.len()] == x);
                }
            }
            if shut.contains(x) {
                let k = choose|k: int| 0 <= k < shut.len() && shut[k] == x;
                assert(all[k] == x);
            }
            if left.contains(x) {
                let k = choose|k: int| 0 <= k < left.len() && left[k] == x;
                assert(all[shut.len() + k] == x);
            }
        }
        if 0 <= x < line_count(b) {
            assert(fence_from(flags, x) <==> !no_fence(flags, x, line_count(b) as int));
        }
    }
    lemma_ascending_unique(all, dividers(b));
}

/// Is line `line` a note boundary? Answered from the line itself plus the fence
/// state the caller already tracks, so the renderer can ask per visible row
/// without ever scanning the document.
///
/// `in_closed_fence` is [`FenceMap::in_closed_fence`] — a fence that is still
/// being typed does not count. With that answer the result is the same as
/// looking the line up in [`boundary_lines`].
pub fn is_boundary_line(text: &str, index: &LineIndex, line: usize, in_closed_fence: bool) -> (r: bool)
    requires
        index.indexes(text.spec_bytes()),
    ensures
        r == (!in_closed_fence && line < line_count(text.spec_bytes()) && separator_line(
            crate::lines::line(text.spec_bytes(), line as int),
        )),
        in_closed_fence == in_closed(fence_flags(text.spec_bytes()), line as int) ==> r == divides(
            text.spec_bytes(),
            line as int,
        ) && r == dividers(text.spec_bytes()).contains(line as int),
{
    let ghost b = text.spec_bytes();
    proof {
        lemma_string_ends(text@);
        lemma_dividers(b);
    }
    if in_closed_fence || line >= index.line_count() {
        return false;
    }
    proof {
        lemma_line(b, line as int);
        lemma_line_boundaries(b, line as int);
    }
    is_separator_line(slice(text, index.line_start(line), index.line_end(line)))
}

/// Whether `fences` and `index` were derived from the text `b`.
pub open spec fn derived(b: Seq<u8>, index: &LineIndex, fences: &FenceMap) -> bool {
    &&& index.indexes(b)
    &&& fences.wf()
    &&& fences@ == fence_flags(b)
}

/// Whether `line` is a rule the document is actually divided by — the same
/// question [`is_boundary_line`] answers, so a `---` inside a closed fence is
/// code here too rather than something a delete may swallow whole.
fn is_rule(text: &str, index: &LineIndex, fences: &FenceMap, line: usize) -> (r: bool)
    requires
        derived(text.spec_bytes(), index, fences),
    ensures
        r == divides(text.spec_bytes(), line as int),
{
    is_boundary_line(text, index, line, fences.in_closed_fence(line))
}

/// The range a backwards delete should take when the caret sits at the very
/// start of a line and a separator is what comes before it.
///
/// The rule is drawn as a hairline and its `---` is invisible, but the three
/// characters are real. Taking the whole line in one keystroke merges the two
/// notes, which is what a delete there means.
pub fn separator_before(text: &str, index: &LineIndex, fences: &FenceMap, offset: usize) -> (r: Option<
    Range<usize>,
>)
    requires
        derived(text.spec_bytes(), index, fences),
    ensures
        ({
            let b = text.spec_bytes();
            let l = line_of(b, offset as int);
            &&& r is Some <==> l > 0 && offset == line_start(b, l) && divides(b, l - 1)
            &&& r matches Some(range) ==> range.start == line_start(b, l - 1) && range.end
                == line_start(b, l)
        }),
{
    let line: usize = index.line_at(offset);
    if line == 0 || offset != index.line_start(line) {
        return None;
    }
    let above: usize = line - 1;
    if is_rule(text, index, fences, above) {
        Some(index.line_start(above)..index.line_start(line))
    } else {
        None
    }
}

/// The same, forwards: the caret at the end of a line with a separator below.
pub fn separator_after(text: &str, index: &LineIndex, fences: &FenceMap, offset: usize) -> (r: Option<
    Range<usize>,
>)
    requires
        derived(text.spec_bytes(), index, fences),
    ensures
        ({
            let b = text.spec_bytes();
            let l = line_of(b, offset as int);
            &&& r is Some <==> offset == line_end(b, l) && divides(b, l + 1)
            &&& r matches Some(range) ==> range.start == line_end(b, l) && range.end == line_end(
                b,
                l + 1,
            )
        }),
{
    let line: usize = index.line_at(offset);
    proof {
        lemma_line_of(text.spec_bytes(), offset as int);
    }
    if offset != index.line_end(line) {
        return None;
    }
    let count: usize = index.line_count();
    if line + 1 < count && is_rule(text, index, fences, line + 1) {
        Some(index.line_end(line)..index.line_end(line + 1))
    } else {
        None
    }
}

/// The last dividing line of `from..to`.
pub open spec fn last_divider(b: Seq<u8>, from: int, to: int) -> Option<int>
    decreases to - from,
{
    if to <= from {
        None
    } else if divides(b, to - 1) {
        Some(to - 1)
    } else {
        last_divider(b, from, to - 1)
    }
}

/// The first dividing line of `from..to`.
pub open spec fn first_divider(b: Seq<u8>, from: int, to: int) -> Option<int>
    decreases to - from,
{
    if to <= from {
        None
    } else if divides(b, from) {
        Some(from)
    } else {
        first_divider(b, from + 1, to)
    }
}

pub proof fn lemma_last_divider(b: Seq<u8>, from: int, to: int)
    ensures
        last_divider(b, from, to) matches Some(d) ==> from <= d < to && divides(b, d),
        last_divider(b, from, to) matches Some(d) ==> forall|k: int| d < k < to ==> !divides(b, k),
        last_divider(b, from, to) is None ==> forall|k: int| from <= k < to ==> !divides(b, k),
    decreases to - from,
{
    if to > from && !divides(b, to - 1) {
        lemma_last_divider(b, from, to - 1);
    }
}

pub proof fn lemma_first_divider(b: Seq<u8>, from: int, to: int)
    ensures
        first_divider(b, from, to) matches Some(d) ==> from <= d < to && divides(b, d),
        first_divider(b, from, to) matches Some(d) ==> forall|k: int|
            from <= k < d ==> !divides(b, k),
        first_divider(b, from, to) is None ==> forall|k: int| from <= k < to ==> !divides(b, k),
    decreases to - from,
{
    if to > from && !divides(b, from) {
        lemma_first_divider(b, from + 1, to);
    }
}

/// Pull `start` forward so a deletion ending at `caret` cannot reach back
/// through a separator into the note above.
///
/// Word-wise deletion scans by word, and a rule is not a word, so on its own it
/// would swallow the separator and the last word of the previous note.
pub fn clamp_within_note(
    text: &str,
    index: &LineIndex,
    fences: &FenceMap,
    start: usize,
    caret: usize,
) -> (r: usize)
    requires
        derived(text.spec_bytes(), index, fences),
    ensures
        ({
            let b = text.spec_bytes();
            let last = line_of(b, caret as int);
            &&& r == (match last_divider(b, line_of(b, start as int), last) {
                Some(d) => line_start(b, d + 1),
                None => start as int,
            })
            &&& forall|d: int| line_of(b, r as int) <= d < last ==> !divides(b, d)
        }),
{
    let ghost b = text.spec_bytes();
    let first: usize = index.line_at(start);
    let last: usize = index.line_at(caret);
    proof {
        lemma_line_of(b, caret as int);
        lemma_last_divider(b, first as int, last as int);
    }
    let mut line: usize = last;
    while line > first
        invariant
            b == text.spec_bytes(),
            derived(b, index, fences),
            first == line_of(b, start as int),
            last == line_of(b, caret as int),
            line <= last < line_count(b),
            last_divider(b, first as int, line as int) == last_divider(b, first as int, last as int),
        decreases line,
    {
        line -= 1;
        if is_rule(text, index, fences, line) {
            // Stop at the head of the line below the rule.
            proof {
                lemma_line(b, line + 1);
                crate::lines::lemma_line_of_start(b, line + 1, line_start(b, line + 1));
                lemma_last_divider(b, first as int, last as int);
            }
            return index.line_start(line + 1);
        }
    }
    start
}

/// Pull `end` back so a deletion starting at `caret` cannot reach *forward*
/// through a separator into the note below.
///
/// The mirror of [`clamp_within_note`].
pub fn clamp_within_note_forward(
    text: &str,
    index: &LineIndex,
    fences: &FenceMap,
    caret: usize,
    end: usize,
) -> (r: usize)
    requires
        derived(text.spec_bytes(), index, fences),
    ensures
        ({
            let b = text.spec_bytes();
            let first = line_of(b, caret as int);
            &&& r == (match first_divider(b, first + 1, line_of(b, end as int) + 1) {
                Some(d) => line_end(b, d - 1),
                None => end as int,
            })
            &&& forall|d: int| first < d <= line_of(b, r as int) ==> !divides(b, d)
        }),
{
    let ghost b = text.spec_bytes();
    let first: usize = index.line_at(caret);
    let last: usize = index.line_at(end);
    proof {
        lemma_line_of(b, end as int);
        lemma_line_of(b, caret as int);
        lemma_first_divider(b, first + 1, last + 1);
    }
    let count: usize = index.line_count();
    let mut line: usize = first + 1;
    while line <= last
        invariant
            b == text.spec_bytes(),
            derived(b, index, fences),
            first == line_of(b, caret as int),
            last == line_of(b, end as int),
            first < line,
            first < count,
            last < count,
            count == line_count(b),
            first_divider(b, line as int, last + 1) == first_divider(b, first + 1, last + 1),
        decreases last + 1 - line,
    {
        if is_rule(text, index, fences, line) {
            // Stop at the end of the line above the rule.
            proof {
                lemma_line(b, line - 1);
                crate::lines::lemma_line_of_start(b, line - 1, line_end(b, line - 1));
                lemma_first_divider(b, first + 1, last + 1);
            }
            return index.line_end(line - 1);
        }
        line += 1;
    }
    end
}

/// What [`Note::new_block_at_top`] puts in front of the document: an empty
/// note, then its rule. Public because starting a note is an ordinary insertion
/// at byte 0, and the caller records exactly these bytes in the undo history.
pub const NEW_BLOCK_PREFIX: &'static str = "\n---\n";

/// The bytes of [`NEW_BLOCK_PREFIX`].
pub open spec fn new_block_prefix() -> Seq<u8> {
    seq![NEWLINE, DASH, DASH, DASH, NEWLINE]
}

/// One note: the contiguous run of lines between two separator lines.
///
/// A block has **no content** exactly when `start == end`. Only then may
/// `first_line`/`last_line` be degenerate: for a block with zero content lines
/// (two adjacent separators, or a separator at the very start/end of the
/// document) `last_line` is `first_line - 1` (saturating, so both are `0` when
/// the block sits before line 0) and `first_line` may equal the line count.
/// Treat `first_line..=last_line` as meaningful only when `start < end`.
#[derive(Clone, Copy, Debug, PartialEq, Eq)]
pub struct Block {
    /// 0-based index of this block among blocks().
    pub index: usize,
    /// Byte offset of the first byte of block content.
    pub start: usize,
    /// Byte offset one past the last byte of block content (no trailing newline).
    pub end: usize,
    /// Line index of the separator line immediately preceding this block, if any.
    /// `None` for the first block.
    pub sep_line: Option<usize>,
    /// First content line index of this block.
    pub first_line: usize,
    /// Last content line index of this block, inclusive.
    pub last_line: usize,
}

/// The first line of note `k`: the one below the divider above it.
pub open spec fn block_first(b: Seq<u8>, k: int) -> int {
    if k <= 0 {
        0
    } else {
        dividers(b)[k - 1] + 1
    }
}

/// One past the last line of note `k`: the divider below it, or the line count.
pub open spec fn block_to(b: Seq<u8>, k: int) -> int {
    if k < dividers(b).len() {
        dividers(b)[k]
    } else {
        line_count(b) as int
    }
}

/// Where note `k` starts.
pub open spec fn block_start(b: Seq<u8>, k: int) -> int {
    line_start(b, block_first(b, k))
}

/// Where note `k` ends.
pub open spec fn block_end(b: Seq<u8>, k: int) -> int {
    if block_first(b, k) < block_to(b, k) {
        line_end(b, block_to(b, k) - 1)
    } else {
        block_start(b, k)
    }
}

/// What note `k` says.
pub open spec fn content(b: Seq<u8>, k: int) -> Seq<u8> {
    b.subrange(block_start(b, k), block_end(b, k))
}

impl Block {
    /// Whether this describes note `k` of `b`.
    pub open spec fn describes(&self, b: Seq<u8>, k: int) -> bool {
        let first = block_first(b, k);
        let to = block_to(b, k);
        &&& self.index == k
        &&& self.start == block_start(b, k)
        &&& self.end == block_end(b, k)
        &&& self.first_line == first
        &&& self.last_line == (if first < to {
            to - 1
        } else if first > 0 {
            first - 1
        } else {
            0
        })
        &&& match self.sep_line {
            None => k == 0,
            Some(line) => k > 0 && line == dividers(b)[k - 1],
        }
    }
}

/// Notes lie in order inside the text, on character boundaries, with their
/// dividers between them.
pub proof fn lemma_block(b: Seq<u8>, k: int)
    requires
        0 <= k <= dividers(b).len(),
    ensures
        0 <= block_first(b, k) <= block_to(b, k) <= line_count(b),
        0 <= block_start(b, k) <= block_end(b, k) <= b.len(),
        k > 0 ==> block_end(b, k - 1) < block_start(b, k),
        valid_utf8(b) ==> boundary(b, block_start(b, k)) && boundary(b, block_end(b, k)),
        forall|i: int| block_first(b, k) <= i < block_to(b, k) ==> !divides(b, i),
{
    lemma_dividers(b);
    lemma_line_starts(b);
    let first = block_first(b, k);
    let to = block_to(b, k);
    if k > 0 && k < dividers(b).len() {
        assert(dividers(b)[k - 1] < dividers(b)[k]);
    }
    lemma_spans_in_order(b, first, to);
    if valid_utf8(b) {
        lemma_line_boundaries(b, first);
        if first < to {
            lemma_line_boundaries(b, to - 1);
        }
    }
    assert forall|i: int| first <= i < to implies !divides(b, i) by {
        if divides(b, i) {
            assert(dividers(b).contains(i));
            let m = choose|m: int| 0 <= m < dividers(b).len() && dividers(b)[m] == i;
            if k > 0 && m < k - 1 {
                assert(dividers(b)[m] < dividers(b)[k - 1]);
            }
            if m > k {
                assert(dividers(b)[k] < dividers(b)[m]);
            }
        }
    }
    if k > 0 {
        let sep = dividers(b)[k - 1];
        assert(divides(b, sep));
        lemma_rule_not_empty(line(b, sep));
        lemma_line(b, sep);
        let above = block_first(b, k - 1);
        if k > 1 {
            assert(dividers(b)[k - 2] < sep);
        }
        lemma_spans_in_order(b, above, sep);
        if above < sep {
            lemma_line(b, sep - 1);
        }
    }
}

/// A thematic break is at least three bytes long.
pub proof fn lemma_rule_not_empty(l: Seq<u8>)
    requires
        separator_line(l),
    ensures
        l.len() >= 3,
{
    crate::text::lemma_copies_bound(l, DASH, l.len() as int);
    crate::text::lemma_copies_bound(l, STAR, l.len() as int);
    crate::text::lemma_copies_bound(l, UNDERSCORE, l.len() as int);
}

/// Lines `first..to` start before they end.
proof fn lemma_spans_in_order(b: Seq<u8>, first: int, to: int)
    requires
        0 <= first <= to <= line_count(b),
    ensures
        0 <= line_start(b, first) <= b.len(),
        first < to ==> line_start(b, first) <= line_end(b, to - 1) <= b.len(),
        first < line_count(b) ==> line_start(b, first) < b.len() || first == line_count(b) - 1,
{
    lemma_line_starts(b);
    if first < to {
        lemma_line(b, first);
        lemma_line(b, to - 1);
        if first < to - 1 {
            assert(line_starts(b)[first] < line_starts(b)[to - 1]);
        }
    }
    if first < line_count(b) {
        lemma_line(b, first);
    }
}

/// Text a note can be made from.
pub trait NoteText: Sized {
    spec fn chars(self) -> Seq<char>;

    fn into_text(self) -> (r: String)
        ensures
            r@ == self.chars(),
    ;
}

impl NoteText for String {
    open spec fn chars(self) -> Seq<char> {
        self@
    }

    fn into_text(self) -> (r: String) {
        self
    }
}

impl<'a> NoteText for &'a str {
    open spec fn chars(self) -> Seq<char> {
        self@
    }

    fn into_text(self) -> (r: String) {
        String::from_str(self)
    }
}

/// The largest character boundary at or before `i`.
pub open spec fn floor(b: Seq<u8>, i: int) -> int
    decreases i,
{
    if i >= b.len() {
        b.len() as int
    } else if i <= 0 || boundary(b, i) {
        i
    } else {
        floor(b, i - 1)
    }
}

/// The smallest character boundary at or after `i`.
pub open spec fn ceil(b: Seq<u8>, i: int) -> int
    decreases b.len() - i,
{
    if i >= b.len() {
        b.len() as int
    } else if boundary(b, i) || i < 0 {
        i
    } else {
        ceil(b, i + 1)
    }
}

/// What [`floor`] and [`ceil`] give are boundaries on the right side, and there
/// is none in between.
pub proof fn lemma_floor_ceil(b: Seq<u8>, i: int)
    requires
        valid_utf8(b),
        0 <= i,
    ensures
        boundary(b, floor(b, i)),
        floor(b, i) <= i,
        forall|k: int| floor(b, i) < k <= i ==> !boundary(b, k),
        boundary(b, ceil(b, i)),
        i <= b.len() ==> i <= ceil(b, i),
        forall|k: int| i <= k < ceil(b, i) ==> !boundary(b, k),
        boundary(b, i) ==> floor(b, i) == i && ceil(b, i) == i,
{
    if b.len() > 0 {
        crate::text::lemma_first_byte(b);
    }
    lemma_floor(b, i);
    lemma_ceil(b, i);
}

proof fn lemma_floor(b: Seq<u8>, i: int)
    requires
        0 <= i,
        boundary(b, 0),
    ensures
        boundary(b, floor(b, i)),
        floor(b, i) <= i,
        forall|k: int| floor(b, i) < k <= i ==> !boundary(b, k),
    decreases i,
{
    if 0 < i < b.len() && !boundary(b, i) {
        lemma_floor(b, i - 1);
    }
}

proof fn lemma_ceil(b: Seq<u8>, i: int)
    requires
        0 <= i,
    ensures
        boundary(b, ceil(b, i)),
        i <= b.len() ==> i <= ceil(b, i),
        forall|k: int| i <= k < ceil(b, i) ==> !boundary(b, k),
    decreases b.len() - i,
{
    if i < b.len() && !boundary(b, i) {
        lemma_ceil(b, i + 1);
    }
}

/// The largest character boundary of `s` at or before byte `i`.
pub fn floor_char_boundary(s: &str, i: usize) -> (r: usize)
    ensures
        r == floor(s.spec_bytes(), i as int),
        boundary(s.spec_bytes(), r as int),
{
    let n: usize = s.as_bytes().len();
    let ghost b = s.spec_bytes();
    proof {
        lemma_string_ends(s@);
        lemma_floor_ceil(b, i as int);
    }
    if i >= n {
        return n;
    }
    let mut at: usize = i;
    while at > 0 && !is_boundary(s, at)
        invariant
            b == s.spec_bytes(),
            valid_utf8(b),
            at < n,
            n == b.len(),
            floor(b, at as int) == floor(b, i as int),
        ensures
            at == floor(b, i as int),
        decreases at,
    {
        at -= 1;
    }
    at
}

/// `str::is_char_boundary`, as a statement about the bytes.
fn is_boundary(s: &str, i: usize) -> (r: bool)
    ensures
        r == boundary(s.spec_bytes(), i as int),
{
    proof {
        lemma_string_ends(s@);
        lemma_boundary(s.spec_bytes(), i as int);
    }
    s.is_char_boundary(i)
}

/// The smallest character boundary of `s` at or after byte `i`.
pub fn ceil_char_boundary(s: &str, i: usize) -> (r: usize)
    ensures
        r == ceil(s.spec_bytes(), i as int),
        boundary(s.spec_bytes(), r as int),
{
    let n: usize = s.as_bytes().len();
    let ghost b = s.spec_bytes();
    proof {
        lemma_string_ends(s@);
        lemma_floor_ceil(b, i as int);
    }
    if i >= n {
        return n;
    }
    let mut at: usize = i;
    while at < n && !is_boundary(s, at)
        invariant
            b == s.spec_bytes(),
            at <= n,
            n == b.len(),
            ceil(b, at as int) == ceil(b, i as int),
        ensures
            at == ceil(b, i as int),
        decreases n - at,
    {
        at += 1;
    }
    at
}

/// `start..end` widened to character boundaries, its ends put in order.
pub open spec fn clamped(b: Seq<u8>, start: int, end: int) -> (int, int) {
    let from = floor(b, start);
    let to = ceil(b, end);
    if from <= to {
        (from, to)
    } else {
        (to, from)
    }
}

/// In-memory single note with efficient line operations for a personal note size.
#[derive(Clone, Debug, Default, PartialEq, Eq)]
pub struct Note {
    text: String,
}

impl View for Note {
    type V = Seq<u8>;

    /// The bytes of the text.
    closed spec fn view(&self) -> Seq<u8> {
        bytes(self.text@)
    }
}

impl Note {
    /// A note's text is UTF-8.
    pub proof fn lemma_utf8(&self)
        ensures
            valid_utf8(self@),
            boundary(self@, 0),
            boundary(self@, self@.len() as int),
    {
        lemma_string_ends(self.text@);
    }

    pub fn new() -> (r: Self)
        ensures
            r@ == Seq::<u8>::empty(),
    {
        let r = Self { text: String::new() };
        assert(r@ =~= Seq::<u8>::empty());
        r
    }

    pub fn from_text<T: NoteText>(text: T) -> (r: Self)
        ensures
            r@ == bytes(text.chars()),
    {
        Self { text: text.into_text() }
    }

    pub fn text(&self) -> (r: &str)
        ensures
            r.spec_bytes() == self@,
    {
        self.text.as_str()
    }

    pub fn is_empty(&self) -> (r: bool)
        ensures
            r == (self@.len() == 0),
    {
        proof {
            lemma_bytes_empty(self.text@);
        }
        self.text.as_str().is_empty()
    }

    pub fn len(&self) -> (r: usize)
        ensures
            r == self@.len(),
    {
        self.text.as_str().as_bytes().len()
    }

    /// Mutable access to the raw buffer, for callers that apply their own edits
    /// (undo/redo replays spans directly). Anything derived from the text —
    /// line index, fence map, block list — must be re-derived afterwards.
    pub fn text_mut(&mut self) -> (r: &mut String)
        ensures
            bytes(r@) == old(self)@,
            final(self)@ == bytes(final(r)@),
    {
        &mut self.text
    }

    /// Delete the half-open byte range `[start, end)` (clamped, char-aligned).
    pub fn delete_range(&mut self, start: usize, end: usize)
        ensures
            ({
                let (from, to) = clamped(old(self)@, start as int, end as int);
                final(self)@ == replaced(old(self)@, from, to, Seq::empty())
            }),
    {
        let (from, to) = self.clamp_range(start, end);
        if from < to {
            self.put(from, to, "");
            proof {
                reveal_strlit("");
                assert("".spec_bytes() =~= Seq::empty());
            }
        } else {
            assert(replaced(self@, from as int, to as int, Seq::empty()) =~= self@);
        }
    }

    /// Replace `[start, end)` with `replacement` (clamped to char boundaries).
    pub fn replace_range(&mut self, start: usize, end: usize, replacement: &str)
        ensures
            ({
                let (from, to) = clamped(old(self)@, start as int, end as int);
                final(self)@ == replaced(old(self)@, from, to, replacement.spec_bytes())
            }),
    {
        let (from, to) = self.clamp_range(start, end);
        self.put(from, to, replacement);
    }

    /// Put `with` in place of the bytes `from..to`.
    fn put(&mut self, from: usize, to: usize, with: &str)
        requires
            from <= to,
            boundary(old(self)@, from as int),
            boundary(old(self)@, to as int),
        ensures
            final(self)@ == replaced(old(self)@, from as int, to as int, with.spec_bytes()),
    {
        self.text = spliced(self.text.as_str(), from, to, with);
    }

    /// Remove `cut_at..cut_end`, then insert `with` at `insert_at` of what is left.
    fn cut_and_paste(&mut self, cut_at: usize, cut_end: usize, insert_at: usize, with: &str)
        requires
            cut_at <= cut_end,
            boundary(old(self)@, cut_at as int),
            boundary(old(self)@, cut_end as int),
            boundary(
                replaced(old(self)@, cut_at as int, cut_end as int, Seq::empty()),
                insert_at as int,
            ),
        ensures
            final(self)@ == replaced(
                replaced(old(self)@, cut_at as int, cut_end as int, Seq::empty()),
                insert_at as int,
                insert_at as int,
                with.spec_bytes(),
            ),
    {
        proof {
            reveal_strlit("");
            assert("".spec_bytes() =~= Seq::empty());
        }
        self.put(cut_at, cut_end, "");
        self.put(insert_at, insert_at, with);
    }

    /// Clamp a byte offset to a valid UTF-8 char boundary within the buffer.
    pub fn clamp_offset(&self, offset: usize) -> (r: usize)
        ensures
            r == floor(self@, offset as int),
            boundary(self@, r as int),
    {
        floor_char_boundary(self.text.as_str(), offset)
    }

    /// Clamp a half-open range to char boundaries.
    pub fn clamp_range(&self, start: usize, end: usize) -> (r: (usize, usize))
        ensures
            (r.0 as int, r.1 as int) == clamped(self@, start as int, end as int),
            r.0 <= r.1,
            boundary(self@, r.0 as int),
            boundary(self@, r.1 as int),
    {
        let from: usize = floor_char_boundary(self.text.as_str(), start);
        let to: usize = ceil_char_boundary(self.text.as_str(), end);
        if from <= to {
            (from, to)
        } else {
            (to, from)
        }
    }

    /// Logical lines (split on `\n`). A trailing empty line after a final `\n`
    /// is preserved so typing Enter feels natural.
    pub fn lines(&self) -> (r: Vec<&str>)
        ensures
            r@.len() == line_count(self@),
            forall|i: int| 0 <= i < r@.len() ==> (#[trigger] r@[i]).spec_bytes() == line(self@, i),
    {
        let text = self.text.as_str();
        let index = LineIndex::new(text);
        let count: usize = index.line_count();
        let mut r: Vec<&str> = Vec::new();
        let mut i: usize = 0;
        proof {
            self.lemma_utf8();
        }
        while i < count
            invariant
                text.spec_bytes() == self@,
                valid_utf8(self@),
                index.indexes(self@),
                count == line_count(self@),
                i <= count,
                r@.len() == i,
                forall|k: int| 0 <= k < i ==> (#[trigger] r@[k]).spec_bytes() == line(self@, k),
            decreases count - i,
        {
            proof {
                lemma_line(self@, i as int);
                lemma_line_boundaries(self@, i as int);
            }
            r.push(slice(text, index.line_start(i), index.line_end(i)));
            i += 1;
        }
        r
    }

    pub fn line_count(&self) -> (r: usize)
        ensures
            r == line_count(self@),
    {
        LineIndex::new(self.text.as_str()).line_count()
    }

    /// Byte range of line `line_idx` content **without** the trailing newline.
    /// Returns `None` if the index is out of range.
    pub fn line_byte_range(&self, line_idx: usize) -> (r: Option<(usize, usize)>)
        ensures
            r is Some <==> line_idx < line_count(self@),
            r matches Some((start, end)) ==> start == line_start(self@, line_idx as int) && end
                == line_end(self@, line_idx as int),
    {
        let index = LineIndex::new(self.text.as_str());
        if line_idx >= index.line_count() {
            return None;
        }
        Some((index.line_start(line_idx), index.line_end(line_idx)))
    }

    /// Which line contains byte offset `offset`?
    ///
    /// For `"aa\nbb\ncc"`: bytes `0..2` and the `\n` at `2` are line 0;
    /// `3..5` and `\n` at `5` are line 1; `6..` is line 2.
    pub fn line_index_at(&self, offset: usize) -> (r: usize)
        ensures
            r == line_of(self@, offset as int),
    {
        LineIndex::new(self.text.as_str()).line_at(offset)
    }

    /// All blocks, in document order. ALWAYS returns at least one block
    /// (an empty document is one empty block: start == end == 0).
    /// A block's content excludes the separator lines that delimit it.
    /// A block may be empty (two adjacent separators, or a separator at the
    /// very start or very end of the document).
    ///
    /// `blocks().len() == separator_line_indices().len() + 1`.
    pub fn blocks(&self) -> (r: Vec<Block>)
        ensures
            r@.len() == dividers(self@).len() + 1,
            forall|k: int| 0 <= k < r@.len() ==> (#[trigger] r@[k]).describes(self@, k),
    {
        let text = self.text.as_str();
        let index = LineIndex::new(text);
        let count: usize = index.line_count();
        let boundaries = boundary_lines(text);
        let n: usize = boundaries.len();
        let mut blocks: Vec<Block> = Vec::new();
        let mut from: usize = 0;
        let mut sep_line: Option<usize> = None;
        let mut k: usize = 0;
        while k < n
            invariant
                index.indexes(self@),
                count == line_count(self@),
                ints(boundaries@) == dividers(self@),
                n == boundaries@.len(),
                k <= n,
                blocks@.len() == k,
                from == block_first(self@, k as int),
                match sep_line {
                    None => k == 0,
                    Some(line) => k > 0 && line == dividers(self@)[k - 1],
                },
                forall|m: int| 0 <= m < k ==> (#[trigger] blocks@[m]).describes(self@, m),
            decreases n - k,
        {
            let to: usize = boundaries[k];
            proof {
                lemma_dividers(self@);
                lemma_block(self@, k as int);
                assert(ints(boundaries@)[k as int] == to);
            }
            blocks.push(make_block(&index, k, sep_line, from, to, Ghost(self@)));
            sep_line = Some(to);
            from = to + 1;
            k += 1;
        }
        proof {
            lemma_block(self@, n as int);
            assert(ints(boundaries@).len() == n);
        }
        blocks.push(make_block(&index, n, sep_line, from, count, Ghost(self@)));
        blocks
    }

    /// Index of the block containing byte `offset`. If `offset` falls on a
    /// separator line, return the index of the block that FOLLOWS that
    /// separator (the separator visually belongs to the note under it).
    pub fn block_index_at(&self, offset: usize) -> (r: usize)
        ensures
            r == block_of(self@, offset as int),
            r <= dividers(self@).len(),
    {
        let line: usize = self.line_index_at(offset);
        let boundaries = boundary_lines(self.text.as_str());
        proof {
            lemma_line_of(self@, offset as int);
            assert(ints(boundaries@).len() == boundaries@.len());
        }
        count_up_to(&boundaries, line, Ghost(self@))
    }

    /// Line indices of every separator line, ascending.
    pub fn separator_line_indices(&self) -> (r: Vec<usize>)
        ensures
            ints(r@) == dividers(self@),
    {
        boundary_lines(self.text.as_str())
    }

    /// Insert a new empty block at the very top. Returns the byte offset where
    /// the cursor should be placed (inside the new empty block, i.e. 0).
    /// If the document is entirely empty, this is a no-op returning 0 —
    /// do not create a stray separator in an empty document.
    pub fn new_block_at_top(&mut self) -> (r: usize)
        ensures
            r == 0,
            final(self)@ == (if old(self)@.len() == 0 {
                old(self)@
            } else {
                new_block_prefix() + old(self)@
            }),
    {
        if self.is_empty() {
            return 0;
        }
        proof {
            self.lemma_utf8();
            reveal_strlit("\n---\n");
            is_ascii_chars_encode_utf8(NEW_BLOCK_PREFIX@);
            assert(NEW_BLOCK_PREFIX.spec_bytes() =~= new_block_prefix());
        }
        self.put(0, 0, NEW_BLOCK_PREFIX);
        assert(self@ =~= new_block_prefix() + old(self)@);
        0
    }

    /// Byte offset at the start of the block containing `offset`.
    pub fn block_start_offset(&self, offset: usize) -> (r: usize)
        ensures
            r == block_start(self@, block_of(self@, offset as int)),
    {
        let k: usize = self.block_index_at(offset);
        let blocks = self.blocks();
        assert(blocks@[k as int].describes(self@, k as int));
        blocks[k].start
    }

    /// `(block index, block start offset)` for `offset`, without building the
    /// block list. The same as [`Note::block_index_at`] and
    /// [`Note::block_start_offset`], including the tie-break that a separator
    /// line belongs to the block *beneath* it.
    pub fn block_at(&self, index: &LineIndex, offset: usize) -> (r: (usize, usize))
        requires
            index.indexes(self@),
        ensures
            r.0 == block_of(self@, offset as int),
            r.1 == block_start(self@, block_of(self@, offset as int)),
    {
        let line: usize = index.line_at(offset);
        let boundaries = boundary_lines(self.text.as_str());
        proof {
            lemma_line_of(self@, offset as int);
            index.lemma_line_count(self@);
        }
        let k: usize = count_up_to(&boundaries, line, Ghost(self@));
        proof {
            lemma_dividers(self@);
        }
        let first: usize = if k > 0 {
            assert(ints(boundaries@)[k - 1] == boundaries@[k - 1]);
            boundaries[k - 1] + 1
        } else {
            0
        };
        (k, index.line_start(first))
    }
}

/// The note that line `line` belongs to: as many as there are dividers at or
/// before it. A divider belongs to the note beneath it.
pub open spec fn block_of_line(b: Seq<u8>, line: int) -> int {
    dividers_within(b, line + 1).len() as int
}

/// The note that holds byte `offset`.
pub open spec fn block_of(b: Seq<u8>, offset: int) -> int {
    block_of_line(b, line_of(b, offset))
}

/// The first dividers are the dividers of the first lines.
pub proof fn lemma_dividers_prefix(b: Seq<u8>, n: int, m: int)
    requires
        0 <= n <= m,
    ensures
        dividers_within(b, n).len() <= dividers_within(b, m).len(),
        forall|k: int|
            0 <= k < dividers_within(b, n).len() ==> dividers_within(b, m)[k] == dividers_within(b, n)[k],
    decreases m,
{
    if n < m {
        lemma_dividers_prefix(b, n, m - 1);
    }
}

/// How many of the boundaries are at or before `line`.
fn count_up_to(boundaries: &Vec<usize>, line: usize, Ghost(b): Ghost<Seq<u8>>) -> (r: usize)
    requires
        ints(boundaries@) == dividers(b),
        line < line_count(b),
    ensures
        r == block_of_line(b, line as int),
        r <= boundaries@.len(),
{
    let n: usize = boundaries.len();
    let ghost all = dividers(b);
    let ghost some = dividers_within(b, line + 1);
    proof {
        lemma_dividers(b);
        lemma_dividers_within(b, line + 1);
        lemma_dividers_prefix(b, line + 1, line_count(b) as int);
        assert(ints(boundaries@).len() == n);
        if some.len() < n {
            // The next divider is past the line.
            let next = all[some.len() as int];
            if next <= line {
                assert(some.contains(next));
                let m = choose|m: int| 0 <= m < some.len() && some[m] == next;
                assert(all[m] < all[some.len() as int]);
            }
        }
    }
    let mut k: usize = 0;
    assert forall|m: int| 0 <= m < n implies #[trigger] boundaries@[m] == all[m] by {
        assert(ints(boundaries@)[m] == boundaries@[m]);
    }
    while k < n && boundaries[k] <= line
        invariant
            n == boundaries@.len(),
            forall|m: int| 0 <= m < n ==> #[trigger] boundaries@[m] == all[m],
            k <= some.len() <= n,
            forall|m: int| 0 <= m < some.len() ==> all[m] == some[m] && some[m] <= line,
            some.len() < n ==> all[some.len() as int] > line,
        ensures
            k == some.len(),
        decreases n - k,
    {
        k += 1;
    }
    k
}

/// The block of the lines `from..to`.
fn make_block(
    index: &LineIndex,
    k: usize,
    sep_line: Option<usize>,
    from: usize,
    to: usize,
    Ghost(b): Ghost<Seq<u8>>,
) -> (r: Block)
    requires
        index.indexes(b),
        0 <= k <= dividers(b).len(),
        from == block_first(b, k as int),
        to == block_to(b, k as int),
        match sep_line {
            None => k == 0,
            Some(line) => k > 0 && line == dividers(b)[k - 1],
        },
    ensures
        r.describes(b, k as int),
{
    proof {
        lemma_block(b, k as int);
        lemma_dividers(b);
    }
    let start: usize = index.line_start(from);
    if from < to {
        Block { index: k, start, end: index.line_end(to - 1), sep_line, first_line: from, last_line: to - 1 }
    } else {
        // An empty block sits at the start of line `from`, or at the very end
        // of the document when `from` is past the last line.
        let last_line: usize = if from > 0 {
            from - 1
        } else {
            0
        };
        Block { index: k, start, end: start, sep_line, first_line: from, last_line }
    }
}

} // verus!
