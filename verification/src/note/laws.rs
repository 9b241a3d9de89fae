//! What holds of the notes of a document across edits.

use vstd::prelude::*;
use vstd::utf8::*;

use crate::ascii::{BACKTICK, DASH, NEWLINE, STAR, TILDE, UNDERSCORE};
use crate::fences::{fence_flags, fence_from, in_closed, open_before};
use crate::lines::{
    lemma_line, lemma_line_of, lemma_line_starts, lemma_lines_injective, lemma_lines_join,
    lemma_lines_of_terminated, lemma_terminated_concat, lemma_terminated_lines, line, line_count,
    line_end, line_of, line_start, lines, terminated,
};
use crate::markdown::fence;
use crate::note::moves::{
    after_move, lemma_move_reorders_lines, lifted, movable, planned, reordered,
};
use crate::note::{
    block_end, block_first, block_of, block_start, block_to, content, divides, dividers,
    dividers_within, lemma_block, lemma_dividers, lemma_dividers_prefix, lemma_dividers_within,
    new_block_prefix, separator_line, Block,
};
use crate::text::boundary;

verus! {

broadcast use vstd::seq::group_seq_axioms;

/// Which of the lines `ls` are fences.
pub open spec fn fences_of(ls: Seq<Seq<u8>>) -> Seq<bool> {
    Seq::new(ls.len(), |i: int| fence(ls[i]))
}

/// Which of the lines `ls` divide two notes.
pub open spec fn rules_of(ls: Seq<Seq<u8>>) -> Seq<bool> {
    Seq::new(ls.len(), |i: int| separator_line(ls[i]) && !in_closed(fences_of(ls), i))
}

/// The lines of every note of `b`.
pub open spec fn note_lines(b: Seq<u8>) -> Seq<Seq<Seq<u8>>> {
    Seq::new(
        dividers(b).len() + 1,
        |k: int| lines(b).subrange(block_first(b, k), block_to(b, k)),
    )
}

/// What every note of `b` says.
pub open spec fn contents(b: Seq<u8>) -> Seq<Seq<u8>> {
    Seq::new(dividers(b).len() + 1, |k: int| content(b, k))
}

proof fn lemma_rules_of(b: Seq<u8>)
    ensures
        fences_of(lines(b)) == fence_flags(b),
        forall|i: int| 0 <= i < line_count(b) ==> divides(b, i) == #[trigger] rules_of(lines(b))[i],
{
    assert(fences_of(lines(b)) =~= fence_flags(b));
}

// ---------------------------------------------------------------------------
// Fence parity
// ---------------------------------------------------------------------------
/// Whether an odd number of `flags` is set.
spec fn odd(flags: Seq<bool>) -> bool
    decreases flags.len(),
{
    if flags.len() == 0 {
        false
    } else {
        odd(flags.drop_last()) != flags.last()
    }
}

/// Whether one of `flags` is set.
spec fn any(flags: Seq<bool>) -> bool {
    exists|k: int| 0 <= k < flags.len() && #[trigger] flags[k]
}

proof fn lemma_odd_concat(x: Seq<bool>, y: Seq<bool>)
    ensures
        odd(x + y) == (odd(x) != odd(y)),
    decreases y.len(),
{
    if y.len() == 0 {
        assert(x + y =~= x);
    } else {
        assert((x + y).drop_last() =~= x + y.drop_last());
        lemma_odd_concat(x, y.drop_last());
    }
}

proof fn lemma_any_concat(x: Seq<bool>, y: Seq<bool>)
    ensures
        any(x + y) == (any(x) || any(y)),
{
    let z = x + y;
    if any(z) {
        let k = choose|k: int| 0 <= k < z.len() && #[trigger] z[k];
        if k < x.len() {
            assert(x[k]);
        } else {
            assert(y[k - x.len()]);
        }
    }
    if any(x) {
        let k = choose|k: int| 0 <= k < x.len() && #[trigger] x[k];
        assert(z[k]);
    }
    if any(y) {
        let k = choose|k: int| 0 <= k < y.len() && #[trigger] y[k];
        assert(z[x.len() + k]);
    }
}

proof fn lemma_odd_needs_any(x: Seq<bool>)
    ensures
        odd(x) ==> any(x),
    decreases x.len(),
{
    if x.len() > 0 {
        lemma_odd_needs_any(x.drop_last());
        if any(x.drop_last()) {
            let k = choose|k: int| 0 <= k < x.len() - 1 && #[trigger] x.drop_last()[k];
            assert(x[k]);
        }
        if x.last() {
            assert(x[x.len() - 1]);
        }
    }
}

/// Being in a closed fence at line `i`, by the lines before and from there on.
proof fn lemma_in_closed(flags: Seq<bool>, i: int)
    requires
        0 <= i <= flags.len(),
    ensures
        in_closed(flags, i) == (odd(flags.take(i)) && any(flags.skip(i))),
{
    lemma_open_is_odd(flags, i);
    if fence_from(flags, i) {
        let k = choose|k: int| i <= k < flags.len() && #[trigger] flags[k];
        assert(flags.skip(i)[k - i]);
    }
    if any(flags.skip(i)) {
        let k = choose|k: int| 0 <= k < flags.skip(i).len() && #[trigger] flags.skip(i)[k];
        assert(flags[i + k]);
    }
}

proof fn lemma_open_is_odd(flags: Seq<bool>, i: int)
    requires
        0 <= i <= flags.len(),
    ensures
        open_before(flags, i) == odd(flags.take(i)),
    decreases i,
{
    if i > 0 {
        lemma_open_is_odd(flags, i - 1);
        assert(flags.take(i).drop_last() =~= flags.take(i - 1));
    }
}

/// Being in a closed fence at position `i` of the middle part `y` of `x + y + z`.
proof fn lemma_in_closed_part(x: Seq<bool>, y: Seq<bool>, z: Seq<bool>, i: int)
    requires
        0 <= i <= y.len(),
    ensures
        in_closed(x + y + z, x.len() + i) == ((odd(x) != odd(y.take(i))) && (any(y.skip(i)) || any(z))),
{
    let all = x + y + z;
    lemma_in_closed(all, x.len() + i);
    assert(all.take(x.len() + i) =~= x + y.take(i));
    assert(all.skip(x.len() + i) =~= y.skip(i) + z);
    lemma_odd_concat(x, y.take(i));
    lemma_any_concat(y.skip(i), z);
}

// ---------------------------------------------------------------------------
// Splitting lines into notes
// ---------------------------------------------------------------------------
/// The lines `ls` split at the flagged ones.
spec fn split(ls: Seq<Seq<u8>>, flags: Seq<bool>) -> Seq<Seq<Seq<u8>>>
    decreases ls.len(),
{
    if ls.len() == 0 {
        seq![Seq::empty()]
    } else {
        let front = split(ls.drop_last(), flags.drop_last());
        if flags.last() {
            front.push(Seq::empty())
        } else {
            front.drop_last().push(front.last().push(ls.last()))
        }
    }
}

proof fn lemma_split_nonempty(ls: Seq<Seq<u8>>, flags: Seq<bool>)
    requires
        ls.len() == flags.len(),
    ensures
        split(ls, flags).len() > 0,
    decreases ls.len(),
{
    if ls.len() > 0 {
        lemma_split_nonempty(ls.drop_last(), flags.drop_last());
    }
}

/// A flagged line splits everything before it from everything after it.
proof fn lemma_split_at(
    x: Seq<Seq<u8>>,
    fx: Seq<bool>,
    r: Seq<u8>,
    y: Seq<Seq<u8>>,
    fy: Seq<bool>,
)
    requires
        x.len() == fx.len(),
        y.len() == fy.len(),
    ensures
        split(x + seq![r] + y, fx + seq![true] + fy) == split(x, fx) + split(y, fy),
    decreases y.len(),
{
    let ls = x + seq![r] + y;
    let fs = fx + seq![true] + fy;
    lemma_split_nonempty(y, fy);
    if y.len() == 0 {
        assert(ls.drop_last() =~= x);
        assert(fs.drop_last() =~= fx);
        assert(split(y, fy) =~= seq![Seq::empty()]);
        assert(split(ls, fs) =~= split(x, fx) + split(y, fy));
    } else {
        let y0 = y.drop_last();
        let fy0 = fy.drop_last();
        assert(ls.drop_last() =~= x + seq![r] + y0);
        assert(fs.drop_last() =~= fx + seq![true] + fy0);
        lemma_split_at(x, fx, r, y0, fy0);
        lemma_split_nonempty(y0, fy0);
        let front = split(y0, fy0);
        let whole = split(x, fx) + front;
        assert(whole.last() == front.last());
        if fy.last() {
            assert(whole.push(Seq::empty()) =~= split(x, fx) + front.push(Seq::empty()));
        } else {
            assert(whole.drop_last().push(whole.last().push(y.last())) =~= split(x, fx)
                + front.drop_last().push(front.last().push(y.last())));
        }
    }
}

/// Lines without a flag are one note.
proof fn lemma_split_plain(ls: Seq<Seq<u8>>, flags: Seq<bool>)
    requires
        ls.len() == flags.len(),
        forall|k: int| 0 <= k < flags.len() ==> !#[trigger] flags[k],
    ensures
        split(ls, flags) == seq![ls],
    decreases ls.len(),
{
    if ls.len() > 0 {
        let front = flags.drop_last();
        assert forall|k: int| 0 <= k < front.len() implies !#[trigger] front[k] by {
            assert(front[k] == flags[k]);
        }
        assert(!flags[flags.len() - 1]);
        lemma_split_plain(ls.drop_last(), front);
        assert(ls.drop_last().push(ls.last()) =~= ls);
        assert(split(ls, flags) =~= seq![ls]);
    } else {
        assert(ls =~= Seq::empty());
        assert(split(ls, flags) =~= seq![ls]);
    }
}

/// What stands above a flagged last line, and below a flagged first line.
spec fn above(a: Seq<Seq<u8>>, fa: Seq<bool>) -> Seq<Seq<Seq<u8>>> {
    if a.len() == 0 {
        Seq::empty()
    } else {
        split(a.drop_last(), fa.drop_last())
    }
}

spec fn below(d: Seq<Seq<u8>>, fd: Seq<bool>) -> Seq<Seq<Seq<u8>>> {
    if d.len() == 0 {
        Seq::empty()
    } else {
        split(d.skip(1), fd.skip(1))
    }
}

/// Flagged lines on either side of `x` set its notes apart.
proof fn lemma_split_around(
    a: Seq<Seq<u8>>,
    fa: Seq<bool>,
    x: Seq<Seq<u8>>,
    fx: Seq<bool>,
    d: Seq<Seq<u8>>,
    fd: Seq<bool>,
)
    requires
        a.len() == fa.len(),
        x.len() == fx.len(),
        d.len() == fd.len(),
        a.len() > 0 ==> fa.last(),
        d.len() > 0 ==> fd[0],
    ensures
        split(a + x + d, fa + fx + fd) == above(a, fa) + split(x, fx) + below(d, fd),
{
    let inner = split(x, fx);
    // Below first: `x + d`.
    if d.len() > 0 {
        let d1 = d.skip(1);
        let fd1 = fd.skip(1);
        lemma_split_at(x, fx, d[0], d1, fd1);
        assert(x + seq![d[0]] + d1 =~= x + d);
        assert(fx + seq![true] + fd1 =~= fx + fd);
    } else {
        assert(x + d =~= x);
        assert(fx + fd =~= fx);
        assert(inner + below(d, fd) =~= inner);
    }
    assert(split(x + d, fx + fd) == inner + below(d, fd));
    if a.len() > 0 {
        let a0 = a.drop_last();
        let fa0 = fa.drop_last();
        lemma_split_at(a0, fa0, a.last(), x + d, fx + fd);
        assert(a0 + seq![a.last()] + (x + d) =~= a + x + d);
        assert(fa0 + seq![true] + (fx + fd) =~= fa + fx + fd);
        assert(above(a, fa) + (inner + below(d, fd)) =~= above(a, fa) + inner + below(d, fd));
    } else {
        assert(a + x + d =~= x + d);
        assert(fa + fx + fd =~= fx + fd);
        assert(above(a, fa) + inner + below(d, fd) =~= inner + below(d, fd));
    }
}

/// Splitting the first `n` lines of `b` gives as many notes as there are
/// dividers among them, and one more; each is a stretch of lines.
proof fn lemma_split_notes(b: Seq<u8>, n: int)
    requires
        0 <= n <= line_count(b),
    ensures
        ({
            let parts = split(lines(b).take(n), rules_of(lines(b)).take(n));
            let ds = dividers_within(b, n);
            &&& parts.len() == ds.len() + 1
            &&& forall|k: int|
                0 <= k < parts.len() ==> #[trigger] parts[k] == lines(b).subrange(
                    if k == 0 {
                        0
                    } else {
                        ds[k - 1] + 1
                    },
                    if k < ds.len() {
                        ds[k]
                    } else {
                        n
                    },
                )
        }),
    decreases n,
{
    lemma_rules_of(b);
    lemma_dividers_within(b, n);
    let ls = lines(b);
    let fs = rules_of(ls);
    let parts = split(ls.take(n), fs.take(n));
    let ds = dividers_within(b, n);
    if n == 0 {
        assert(ls.take(0) =~= Seq::empty());
        assert(ls.subrange(0, 0) =~= Seq::empty());
    } else {
        lemma_split_notes(b, n - 1);
        lemma_dividers_within(b, n - 1);
        let front = split(ls.take(n - 1), fs.take(n - 1));
        let ds0 = dividers_within(b, n - 1);
        assert(ls.take(n).drop_last() =~= ls.take(n - 1));
        assert(fs.take(n).drop_last() =~= fs.take(n - 1));
        assert(fs.take(n).last() == divides(b, n - 1));
        if divides(b, n - 1) {
            assert(ls.subrange(n, n) =~= Seq::empty());
        } else {
            let from = if ds0.len() == 0 {
                0
            } else {
                ds0[ds0.len() - 1] + 1
            };
            assert(front.last() == ls.subrange(from, n - 1));
            assert(ls.subrange(from, n - 1).push(ls[n - 1]) =~= ls.subrange(from, n));
        }
    }
}

proof fn lemma_note_lines(b: Seq<u8>)
    ensures
        note_lines(b) == split(lines(b), rules_of(lines(b))),
{
    let n = line_count(b) as int;
    lemma_split_notes(b, n);
    assert(lines(b).take(n) =~= lines(b));
    assert(rules_of(lines(b)).take(n) =~= rules_of(lines(b)));
    assert(note_lines(b) =~= split(lines(b), rules_of(lines(b))));
}

/// What a note says is its lines with newlines between them.
spec fn joined(ls: Seq<Seq<u8>>) -> Seq<u8> {
    if ls.len() == 0 {
        Seq::empty()
    } else {
        terminated(ls).drop_last()
    }
}

proof fn lemma_content_joined(b: Seq<u8>, k: int)
    requires
        0 <= k <= dividers(b).len(),
    ensures
        content(b, k) == joined(note_lines(b)[k]),
{
    lemma_block(b, k);
    let first = block_first(b, k);
    let to = block_to(b, k);
    let ls = lines(b).subrange(first, to);
    if first < to {
        lemma_line_starts(b);
        lemma_line(b, first);
        lemma_line(b, to - 1);
        crate::note::moves::lemma_terminated_range(b, first, to);
        assert(joined(ls) =~= b.subrange(line_start(b, first), line_end(b, to - 1)));
    } else {
        assert(content(b, k) =~= Seq::empty());
    }
}

proof fn lemma_contents_joined(b: Seq<u8>)
    ensures
        contents(b) == note_lines(b).map_values(|ls: Seq<Seq<u8>>| joined(ls)),
{
    assert forall|k: int| 0 <= k <= dividers(b).len() implies #[trigger] contents(b)[k] == joined(
        note_lines(b)[k],
    ) by {
        lemma_content_joined(b, k);
    }
    assert(contents(b) =~= note_lines(b).map_values(|ls: Seq<Seq<u8>>| joined(ls)));
}

// ---------------------------------------------------------------------------
// Moving a note
// ---------------------------------------------------------------------------
/// Whether note `idx` leaves a fence open that would come to stand above
/// another fence if the note was moved in front of note `before`: the two would
/// then enclose every rule between them.
pub open spec fn spills(b: Seq<u8>, idx: int, before: int) -> bool {
    let flags = fence_flags(b);
    &&& open_before(flags, block_first(b, idx)) != open_before(flags, block_to(b, idx))
    &&& exists|i: int|
        block_first(b, before) <= i < block_first(b, idx) && #[trigger] flags[i]
}

/// The five parts a move takes the lines of a text apart into.
spec fn parts<T>(s: Seq<T>, f: int, sep: int, to: int) -> (Seq<T>, Seq<T>, T, Seq<T>, Seq<T>) {
    (
        s.subrange(0, f),
        s.subrange(f, sep),
        s[sep],
        s.subrange(sep + 1, to),
        s.subrange(to, s.len() as int),
    )
}

/// Where five parts stand before the move.
spec fn straight<T>(a: Seq<T>, m: Seq<T>, r: T, c: Seq<T>, d: Seq<T>) -> Seq<T> {
    a + m + seq![r] + c + d
}

/// Where they stand after it.
spec fn crossed<T>(a: Seq<T>, m: Seq<T>, r: T, c: Seq<T>, d: Seq<T>) -> Seq<T> {
    a + c + seq![r] + m + d
}

/// The facts about fence parity that a move rests on. `a`, `m`, `c` and `d` are
/// the fence flags of the lines above, the notes moved past, the moved note and
/// the rest; the rule between `m` and `c` is no fence.
spec fn fence_facts(a: Seq<bool>, m: Seq<bool>, c: Seq<bool>, d: Seq<bool>) -> bool {
    &&& odd(a) ==> !any(m) && !any(c) && !any(d)
    &&& (odd(a) != odd(m)) ==> !any(c) && !any(d)
    &&& (odd(a) != (odd(m) != odd(c))) ==> !any(d)
    &&& odd(c) ==> !any(m)
}

proof fn lemma_take_skip_facts(y: Seq<bool>, i: int)
    requires
        0 <= i <= y.len(),
    ensures
        odd(y) == (odd(y.take(i)) != odd(y.skip(i))),
        any(y) == (any(y.take(i)) || any(y.skip(i))),
        odd(y.take(i)) ==> any(y.take(i)),
        odd(y.skip(i)) ==> any(y.skip(i)),
        odd(y) ==> any(y),
{
    assert(y =~= y.take(i) + y.skip(i));
    lemma_odd_concat(y.take(i), y.skip(i));
    lemma_any_concat(y.take(i), y.skip(i));
    lemma_odd_needs_any(y.take(i));
    lemma_odd_needs_any(y.skip(i));
    lemma_odd_needs_any(y);
}

/// `x` put together with single elements and parts, for parity.
proof fn lemma_sum3(x: Seq<bool>, y: Seq<bool>, z: Seq<bool>)
    ensures
        odd(x + y + z) == (odd(x) != (odd(y) != odd(z))),
        any(x + y + z) == (any(x) || any(y) || any(z)),
{
    lemma_odd_concat(x + y, z);
    lemma_odd_concat(x, y);
    lemma_any_concat(x + y, z);
    lemma_any_concat(x, y);
}

proof fn lemma_single_false()
    ensures
        odd(seq![false]) == false,
        any(seq![false]) == false,
{
    reveal_with_fuel(odd, 2);
    assert(seq![false].drop_last() =~= Seq::empty());
}

/// Moving a note that does not spill leaves every line as much inside a closed
/// fence as it was, and the rule between the notes outside.
proof fn lemma_fences_keep(a: Seq<bool>, m: Seq<bool>, c: Seq<bool>, d: Seq<bool>)
    requires
        fence_facts(a, m, c, d),
    ensures
        ({
            let s = straight(a, m, false, c, d);
            let t = crossed(a, m, false, c, d);
            &&& forall|i: int| 0 <= i < a.len() ==> #[trigger] in_closed(s, i) == in_closed(t, i)
            &&& forall|i: int|
                0 <= i < m.len() ==> #[trigger] in_closed(s, a.len() + i) == in_closed(
                    t,
                    a.len() + c.len() + 1 + i,
                )
            &&& !in_closed(t, (a.len() + c.len()) as int)
            &&& forall|i: int|
                0 <= i < c.len() ==> #[trigger] in_closed(s, a.len() + m.len() + 1 + i) == in_closed(
                    t,
                    a.len() + i,
                )
            &&& forall|i: int|
                0 <= i < d.len() ==> #[trigger] in_closed(
                    s,
                    a.len() + m.len() + 1 + c.len() + i,
                ) == in_closed(t, a.len() + m.len() + 1 + c.len() + i)
        }),
{
    let no = seq![false];
    let s = straight(a, m, false, c, d);
    let t = crossed(a, m, false, c, d);
    let e = Seq::<bool>::empty();
    lemma_single_false();
    lemma_take_skip_facts(m, 0);
    lemma_take_skip_facts(c, 0);
    lemma_take_skip_facts(d, 0);
    lemma_take_skip_facts(a, 0);
    assert(odd(e) == false);
    assert(any(e) == false);
    assert forall|i: int| 0 <= i < a.len() implies #[trigger] in_closed(s, i) == in_closed(t, i) by {
        let rest_s = m + no + c + d;
        let rest_t = c + no + m + d;
        assert(s =~= e + a + rest_s);
        assert(t =~= e + a + rest_t);
        lemma_in_closed_part(e, a, rest_s, i);
        lemma_in_closed_part(e, a, rest_t, i);
        lemma_sum3(m, no, c);
        lemma_sum3(c, no, m);
        lemma_any_concat(m + no + c, d);
        lemma_any_concat(c + no + m, d);
    }
    assert forall|i: int| 0 <= i < m.len() implies #[trigger] in_closed(s, a.len() + i) == in_closed(
        t,
        a.len() + c.len() + 1 + i,
    ) by {
        let rest_s = no + c + d;
        let head_t = a + c + no;
        assert(s =~= a + m + rest_s);
        assert(t =~= head_t + m + d);
        lemma_in_closed_part(a, m, rest_s, i);
        lemma_in_closed_part(head_t, m, d, i);
        lemma_sum3(no, c, d);
        lemma_sum3(a, c, no);
        lemma_take_skip_facts(m, i);
    }
    assert(!in_closed(t, (a.len() + c.len()) as int)) by {
        let head = a + c;
        assert(t =~= head + no + (m + d));
        lemma_in_closed_part(head, no, m + d, 0);
        lemma_odd_concat(a, c);
        lemma_any_concat(m, d);
        assert(no.take(0) =~= e);
        assert(no.skip(0) =~= no);
    }
    assert forall|i: int| 0 <= i < c.len() implies #[trigger] in_closed(
        s,
        a.len() + m.len() + 1 + i,
    ) == in_closed(t, a.len() + i) by {
        let head_s = a + m + no;
        let rest_t = no + m + d;
        assert(s =~= head_s + c + d);
        assert(t =~= a + c + rest_t);
        lemma_in_closed_part(head_s, c, d, i);
        lemma_in_closed_part(a, c, rest_t, i);
        lemma_sum3(a, m, no);
        lemma_sum3(no, m, d);
        lemma_take_skip_facts(c, i);
    }
    assert forall|i: int| 0 <= i < d.len() implies #[trigger] in_closed(
        s,
        a.len() + m.len() + 1 + c.len() + i,
    ) == in_closed(t, a.len() + m.len() + 1 + c.len() + i) by {
        let head_s = a + m + no + c;
        let head_t = a + c + no + m;
        assert(s =~= head_s + d + e);
        assert(t =~= head_t + d + e);
        lemma_in_closed_part(head_s, d, e, i);
        lemma_in_closed_part(head_t, d, e, i);
        lemma_sum3(a, m, no);
        lemma_sum3(a, c, no);
        lemma_odd_concat(a + m + no, c);
        lemma_odd_concat(a + c + no, m);
    }
}

/// A dividing line is no fence, and an odd number of fences above it means none
/// below.
proof fn lemma_divider_parity(b: Seq<u8>, i: int)
    requires
        divides(b, i),
    ensures
        !fence_flags(b)[i],
        odd(fence_flags(b).take(i)) ==> !any(fence_flags(b).skip(i)),
        odd(fence_flags(b).take(i + 1)) == odd(fence_flags(b).take(i)),
        any(fence_flags(b).skip(i + 1)) == any(fence_flags(b).skip(i)),
{
    let flags = fence_flags(b);
    if fence(line(b, i)) {
        crate::note::lemma_fence_is_no_separator(line(b, i));
    }
    lemma_in_closed(flags, i);
    lemma_single_false();
    assert(flags.take(i + 1) =~= flags.take(i) + seq![false]);
    assert(flags.skip(i) =~= seq![false] + flags.skip(i + 1));
    lemma_odd_concat(flags.take(i), seq![false]);
    lemma_any_concat(seq![false], flags.skip(i + 1));
}

/// The parity facts hold of every move that does not spill.
proof fn lemma_fence_facts(b: Seq<u8>, idx: int, before: int)
    requires
        movable(b, idx, before),
        !spills(b, idx, before),
    ensures
        ({
            let (sep, to) = lifted(b, idx);
            let (a, m, r, c, d) = parts(fence_flags(b), block_first(b, before), sep, to);
            !r && fence_facts(a, m, c, d)
        }),
{
    let flags = fence_flags(b);
    let n = flags.len() as int;
    let (sep, to) = lifted(b, idx);
    let f = block_first(b, before);
    let (a, m, r, c, d) = parts(flags, f, sep, to);
    let no = seq![false];
    let e = Seq::<bool>::empty();
    crate::note::moves::lemma_lifted(b, idx, before);
    lemma_dividers(b);
    lemma_single_false();
    assert(divides(b, sep));
    lemma_divider_parity(b, sep);
    // Above: the divider over the note the move goes in front of.
    if f > 0 {
        assert(divides(b, f - 1));
        lemma_divider_parity(b, f - 1);
    } else {
        assert(flags.take(0) =~= e);
    }
    assert(flags.take(f) =~= a);
    assert(flags.skip(f) =~= (m + no + c) + d);
    lemma_any_concat(m + no + c, d);
    lemma_sum3(m, no, c);
    // The rule itself.
    assert(flags.take(sep) =~= a + m);
    lemma_odd_concat(a, m);
    assert(flags.skip(sep) =~= no + c + d);
    lemma_sum3(no, c, d);
    // Below: the divider under the moved note.
    assert(flags.take(to) =~= a + m + no + c);
    lemma_sum3(a, m, no);
    lemma_odd_concat(a + m + no, c);
    assert(flags.skip(to) =~= d);
    if to < n {
        assert(divides(b, to));
        lemma_divider_parity(b, to);
    } else {
        assert(d =~= e);
    }
    // The moved note does not spill.
    lemma_open_is_odd(flags, sep + 1);
    lemma_open_is_odd(flags, to);
    assert(flags.take(sep + 1) =~= a + m + no);
    if odd(c) && any(m) {
        let k = choose|k: int| 0 <= k < m.len() && #[trigger] m[k];
        assert(flags[f + k]);
        assert(spills(b, idx, before));
    }
}

/// The line that stands at `i` after the move stood here before it.
spec fn source(i: int, f: int, sep: int, to: int) -> int {
    let len = to - sep - 1;
    if i < f {
        i
    } else if i < f + len {
        sep + 1 + (i - f)
    } else if i == f + len {
        sep
    } else if i < to {
        f + (i - f - len - 1)
    } else {
        i
    }
}

/// The five parts, put back in order, are what they came from; put crosswise,
/// every element came from its source.
proof fn lemma_crossed<T>(s: Seq<T>, f: int, sep: int, to: int)
    requires
        0 <= f <= sep < to <= s.len(),
    ensures
        ({
            let (a, m, r, c, d) = parts(s, f, sep, to);
            &&& straight(a, m, r, c, d) == s
            &&& crossed(a, m, r, c, d).len() == s.len()
            &&& forall|i: int|
                0 <= i < s.len() ==> #[trigger] crossed(a, m, r, c, d)[i] == s[source(i, f, sep, to)]
        }),
{
    let (a, m, r, c, d) = parts(s, f, sep, to);
    assert(straight(a, m, r, c, d) =~= s);
}

/// No line comes into or out of a closed fence by the move, but for the rule,
/// which stays outside.
#[verifier::rlimit(40)]
proof fn lemma_closed_moves(b: Seq<u8>, idx: int, before: int, i: int)
    requires
        movable(b, idx, before),
        !spills(b, idx, before),
        0 <= i < line_count(b),
    ensures
        ({
            let (sep, to) = lifted(b, idx);
            let f = block_first(b, before);
            let (a, m, r, c, d) = parts(fence_flags(b), f, sep, to);
            in_closed(crossed(a, m, r, c, d), i) == in_closed(
                fence_flags(b),
                source(i, f, sep, to),
            )
        }),
{
    let flags = fence_flags(b);
    let (sep, to) = lifted(b, idx);
    let f = block_first(b, before);
    let (a, m, r, c, d) = parts(flags, f, sep, to);
    crate::note::moves::lemma_lifted(b, idx, before);
    lemma_dividers(b);
    lemma_fence_facts(b, idx, before);
    lemma_crossed(flags, f, sep, to);
    lemma_fences_keep(a, m, c, d);
    assert(divides(b, sep));
    let s = straight(a, m, false, c, d);
    let t = crossed(a, m, false, c, d);
    if i < f {
        assert(in_closed(s, i) == in_closed(t, i));
    } else if i < f + c.len() {
        assert(in_closed(s, a.len() + m.len() + 1 + (i - f)) == in_closed(t, a.len() + (i - f)));
    } else if i == f + c.len() {
    } else if i < to {
        let j = i - f - c.len() - 1;
        assert(in_closed(s, a.len() + j) == in_closed(t, a.len() + c.len() + 1 + j));
    } else {
        let j = i - to;
        assert(in_closed(s, a.len() + m.len() + 1 + c.len() + j) == in_closed(
            t,
            a.len() + m.len() + 1 + c.len() + j,
        ));
    }
}

/// The lines that divide notes move with the lines.
proof fn lemma_rules_move(b: Seq<u8>, idx: int, before: int)
    requires
        movable(b, idx, before),
        !spills(b, idx, before),
    ensures
        ({
            let (sep, to) = lifted(b, idx);
            let (a, m, r, c, d) = parts(rules_of(lines(b)), block_first(b, before), sep, to);
            &&& r
            &&& rules_of(reordered(b, idx, before)) == crossed(a, m, r, c, d)
        }),
{
    let ls = lines(b);
    let rs = rules_of(ls);
    let flags = fence_flags(b);
    let (sep, to) = lifted(b, idx);
    let f = block_first(b, before);
    crate::note::moves::lemma_lifted(b, idx, before);
    lemma_rules_of(b);
    lemma_dividers(b);
    assert(divides(b, sep));
    let (a, m, r, c, d) = parts(flags, f, sep, to);
    let (ra, rm, rr, rc, rd) = parts(rs, f, sep, to);
    let new = reordered(b, idx, before);
    let t = crossed(a, m, r, c, d);
    let moved = crossed(ra, rm, rr, rc, rd);
    lemma_crossed(ls, f, sep, to);
    lemma_crossed(flags, f, sep, to);
    lemma_crossed(rs, f, sep, to);
    let (la, lm, lr, lc, ld) = parts(ls, f, sep, to);
    assert(new =~= crossed(la, lm, lr, lc, ld));
    assert(fences_of(new) =~= t) by {
        assert forall|i: int| 0 <= i < new.len() implies fences_of(new)[i] == t[i] by {
            let p = source(i, f, sep, to);
            assert(new[i] == ls[p]);
            assert(t[i] == flags[p]);
        }
    }
    assert forall|i: int| 0 <= i < new.len() implies rules_of(new)[i] == moved[i] by {
        let p = source(i, f, sep, to);
        assert(new[i] == ls[p]);
        assert(moved[i] == rs[p]);
        lemma_closed_moves(b, idx, before, i);
    }
    assert(rules_of(new) =~= moved);
}

/// The notes of a text, by the parts a move takes its lines apart into.
proof fn lemma_notes_before(b: Seq<u8>, idx: int, before: int)
    requires
        movable(b, idx, before),
    ensures
        ({
            let (sep, to) = lifted(b, idx);
            let f = block_first(b, before);
            let (a, m, _, c, d) = parts(lines(b), f, sep, to);
            let (fa, fm, _, _, fd) = parts(rules_of(lines(b)), f, sep, to);
            note_lines(b) == above(a, fa) + (split(m, fm) + seq![c]) + below(d, fd)
        }),
{
    let ls = lines(b);
    let rs = rules_of(ls);
    let (sep, to) = lifted(b, idx);
    let f = block_first(b, before);
    crate::note::moves::lemma_lifted(b, idx, before);
    lemma_rules_of(b);
    lemma_dividers(b);
    let (a, m, r, c, d) = parts(ls, f, sep, to);
    let (fa, fm, fr, fc, fd) = parts(rs, f, sep, to);
    lemma_part_flags(b, idx, before);
    let x = m + seq![r] + c;
    let fx = fm + seq![true] + fc;
    lemma_crossed(ls, f, sep, to);
    lemma_crossed(rs, f, sep, to);
    assert(a + x + d =~= straight(a, m, r, c, d));
    assert(fa + fx + fd =~= straight(fa, fm, fr, fc, fd));
    lemma_split_around(a, fa, x, fx, d, fd);
    lemma_split_at(m, fm, r, c, fc);
    lemma_split_plain(c, fc);
    lemma_note_lines(b);
}

/// Which lines divide at the edges of the parts of a move.
proof fn lemma_part_flags(b: Seq<u8>, idx: int, before: int)
    requires
        movable(b, idx, before),
    ensures
        ({
            let (sep, to) = lifted(b, idx);
            let f = block_first(b, before);
            let (fa, fm, fr, fc, fd) = parts(rules_of(lines(b)), f, sep, to);
            &&& fa.len() > 0 ==> fa.last()
            &&& fr
            &&& fd.len() > 0 ==> fd[0]
            &&& forall|k: int| 0 <= k < fc.len() ==> !#[trigger] fc[k]
        }),
{
    let rs = rules_of(lines(b));
    let (sep, to) = lifted(b, idx);
    let f = block_first(b, before);
    crate::note::moves::lemma_lifted(b, idx, before);
    lemma_rules_of(b);
    lemma_dividers(b);
    lemma_block(b, idx);
    let (fa, fm, fr, fc, fd) = parts(rs, f, sep, to);
    assert(divides(b, sep));
    if f > 0 {
        assert(divides(b, f - 1));
        assert(fa.last() == rs[f - 1]);
    }
    if to < rs.len() {
        assert(divides(b, to));
        assert(fd[0] == rs[to]);
    }
    assert forall|k: int| 0 <= k < fc.len() implies !#[trigger] fc[k] by {
        assert(fc[k] == rs[sep + 1 + k]);
    }
}

/// The notes after the move, by the same parts.
proof fn lemma_notes_after(b: Seq<u8>, idx: int, before: int)
    requires
        movable(b, idx, before),
        !spills(b, idx, before),
    ensures
        ({
            let (sep, to) = lifted(b, idx);
            let f = block_first(b, before);
            let (a, m, _, c, d) = parts(lines(b), f, sep, to);
            let (fa, fm, _, _, fd) = parts(rules_of(lines(b)), f, sep, to);
            note_lines(after_move(b, planned(b, idx, before))) == above(a, fa) + (seq![c] + split(m, fm))
                + below(d, fd)
        }),
{
    let new = after_move(b, planned(b, idx, before));
    let (sep, to) = lifted(b, idx);
    let f = block_first(b, before);
    crate::note::moves::lemma_lifted(b, idx, before);
    lemma_move_reorders_lines(b, idx, before);
    lemma_rules_move(b, idx, before);
    let (a, m, r, c, d) = parts(lines(b), f, sep, to);
    let (fa, fm, fr, fc, fd) = parts(rules_of(lines(b)), f, sep, to);
    lemma_part_flags(b, idx, before);
    let y = c + seq![r] + m;
    let fy = fc + seq![true] + fm;
    assert(a + y + d =~= crossed(a, m, r, c, d));
    assert(fa + fy + fd =~= crossed(fa, fm, fr, fc, fd));
    assert(lines(new) =~= a + y + d);
    lemma_split_around(a, fa, y, fy, d, fd);
    lemma_split_at(c, fc, r, m, fm);
    lemma_split_plain(c, fc);
    lemma_note_lines(new);
}

/// A move only ever reorders notes: afterwards the notes are those before it,
/// each with the same lines, with note `idx` taken out and put in front of note
/// `before`. (A note that leaves a fence open cannot be moved above another
/// fence without joining it; [`spills`] says when that is.)
pub proof fn law_move_permutes_notes(b: Seq<u8>, idx: int, before: int)
    requires
        movable(b, idx, before),
        !spills(b, idx, before),
    ensures
        ({
            let new = after_move(b, planned(b, idx, before));
            &&& note_lines(new) == note_lines(b).remove(idx).insert(before, note_lines(b)[idx])
            &&& contents(new) == contents(b).remove(idx).insert(before, contents(b)[idx])
        }),
{
    let new = after_move(b, planned(b, idx, before));
    let (sep, to) = lifted(b, idx);
    let f = block_first(b, before);
    lemma_notes_before(b, idx, before);
    lemma_notes_after(b, idx, before);
    lemma_parts_count(b, idx, before);
    let (a, m, r, c, d) = parts(lines(b), f, sep, to);
    let (fa, fm, fr, fc, fd) = parts(rules_of(lines(b)), f, sep, to);
    let sa = above(a, fa);
    let sm = split(m, fm);
    let sd = below(d, fd);
    let old_notes = note_lines(b);
    assert(old_notes[idx] == c) by {
        assert((sa + (sm + seq![c]) + sd)[(sa.len() + sm.len()) as int] == c);
    }
    assert(note_lines(new) =~= old_notes.remove(idx).insert(before, old_notes[idx]));
    lemma_contents_joined(b);
    lemma_contents_joined(new);
    assert(contents(new) =~= contents(b).remove(idx).insert(before, contents(b)[idx]));
}

/// There are `before` notes above the place a note is moved to, and
/// `idx - before` between there and the moved note.
proof fn lemma_parts_count(b: Seq<u8>, idx: int, before: int)
    requires
        movable(b, idx, before),
    ensures
        ({
            let (sep, to) = lifted(b, idx);
            let (a, m, _, _, _) = parts(lines(b), block_first(b, before), sep, to);
            let (fa, fm, _, _, _) = parts(rules_of(lines(b)), block_first(b, before), sep, to);
            &&& above(a, fa).len() == before
            &&& split(m, fm).len() == idx - before
        }),
{
    let ls = lines(b);
    let rs = rules_of(ls);
    let (sep, to) = lifted(b, idx);
    let f = block_first(b, before);
    let (a, m, _, _, _) = parts(ls, f, sep, to);
    let (fa, fm, _, _, _) = parts(rs, f, sep, to);
    crate::note::moves::lemma_lifted(b, idx, before);
    lemma_dividers(b);
    lemma_rules_of(b);
    lemma_split_notes(b, sep);
    lemma_divider_rank(b, idx - 1);
    if f > 0 {
        lemma_split_notes(b, f - 1);
        lemma_divider_rank(b, before - 1);
        assert(a.drop_last() =~= ls.take(f - 1));
        assert(fa.drop_last() =~= rs.take(f - 1));
        assert(divides(b, f - 1));
        assert(fa.last() == rs[f - 1]);
    }
    let e = Seq::<Seq<u8>>::empty();
    let fe = Seq::<bool>::empty();
    lemma_split_around(a, fa, m, fm, e, fe);
    assert(a + m + e =~= ls.take(sep));
    assert(fa + fm + fe =~= rs.take(sep));
}

/// There are `k` dividers above divider `k`.
proof fn lemma_divider_rank(b: Seq<u8>, k: int)
    requires
        0 <= k < dividers(b).len(),
    ensures
        dividers_within(b, dividers(b)[k]).len() == k,
{
    let all = dividers(b);
    let d = all[k];
    lemma_dividers(b);
    lemma_dividers_within(b, d);
    crate::note::lemma_dividers_prefix(b, d, line_count(b) as int);
    let some = dividers_within(b, d);
    if some.len() > k {
        assert(some[k] == all[k]);
        assert(some[k] < d);
    }
    if some.len() < k {
        let next = all[some.len() as int];
        assert(next < d);
        assert(divides(b, next));
        assert(some.contains(next));
        let j = choose|j: int| 0 <= j < some.len() && some[j] == next;
        assert(all[j] == next);
        assert(all[j] < all[some.len() as int]);
    }
}

/// A text whose lines divide at `lo` and `hi - 1` but not in between has those
/// two as neighbouring dividers.
proof fn lemma_neighbours(b: Seq<u8>, k: int, next: int)
    requires
        0 <= k < dividers(b).len(),
        dividers(b)[k] < next <= line_count(b),
        forall|i: int| dividers(b)[k] < i < next ==> !divides(b, i),
        next < line_count(b) ==> divides(b, next),
    ensures
        block_to(b, k + 1) == next,
{
    lemma_dividers(b);
    lemma_block(b, k + 1);
    let to = block_to(b, k + 1);
    if to < next {
        assert(divides(b, to));
    }
}

/// Moving a note up past its neighbour and then moving that neighbour up past
/// it gives the text back, byte for byte.
pub proof fn law_move_back_restores(b: Seq<u8>, idx: int)
    requires
        movable(b, idx, idx - 1),
        !spills(b, idx, idx - 1),
    ensures
        ({
            let once = after_move(b, planned(b, idx, idx - 1));
            &&& movable(once, idx, idx - 1)
            &&& after_move(once, planned(once, idx, idx - 1)) == b
        }),
{
    let once = after_move(b, planned(b, idx, idx - 1));
    let (sep, to) = lifted(b, idx);
    let f = block_first(b, idx - 1);
    let n = line_count(b) as int;
    let ls = lines(b);
    let rs = rules_of(ls);
    crate::note::moves::lemma_lifted(b, idx, idx - 1);
    lemma_dividers(b);
    lemma_dividers(once);
    lemma_rules_of(b);
    lemma_rules_of(once);
    lemma_move_reorders_lines(b, idx, idx - 1);
    lemma_rules_move(b, idx, idx - 1);
    law_move_permutes_notes(b, idx, idx - 1);
    assert(note_lines(once).len() == note_lines(b).len());
    assert(dividers(once).len() == dividers(b).len());
    lemma_crossed(ls, f, sep, to);
    lemma_crossed(rs, f, sep, to);
    let (a, m, r, c, d) = parts(ls, f, sep, to);
    let (fa, fm, fr, fc, fd) = parts(rs, f, sep, to);
    let new = lines(once);
    assert(new =~= crossed(a, m, r, c, d));
    assert(line_count(once) == n);
    // The rule between the two notes stands below the moved note now.
    let rule = f + (to - sep - 1);
    lemma_moved_dividers(b, idx);
    assert(dividers(once)[idx - 1] == rule);
    assert(block_first(once, idx - 1) == f);
    assert(block_to(once, idx) == to);
    // Moving back takes the lines to where they were.
    lemma_move_reorders_lines(once, idx, idx - 1);
    let back = reordered(once, idx, idx - 1);
    assert(new.subrange(0, f) =~= a);
    assert(new.subrange(rule + 1, to) =~= m);
    assert(new[rule] == r);
    assert(new.subrange(f, rule) =~= c);
    assert(new.subrange(to, n) =~= d);
    assert(back =~= ls);
    lemma_lines_injective(after_move(once, planned(once, idx, idx - 1)), b);
}

/// Where the dividers around the two notes stand after they changed places.
proof fn lemma_moved_dividers(b: Seq<u8>, idx: int)
    requires
        movable(b, idx, idx - 1),
        !spills(b, idx, idx - 1),
    ensures
        ({
            let once = after_move(b, planned(b, idx, idx - 1));
            let (sep, to) = lifted(b, idx);
            let f = block_first(b, idx - 1);
            &&& dividers(once).len() == dividers(b).len()
            &&& dividers(once)[idx - 1] == f + (to - sep - 1)
            &&& block_first(once, idx - 1) == f
            &&& block_to(once, idx) == to
        }),
{
    let once = after_move(b, planned(b, idx, idx - 1));
    let (sep, to) = lifted(b, idx);
    let f = block_first(b, idx - 1);
    let n = line_count(b) as int;
    let ls = lines(b);
    let rs = rules_of(ls);
    crate::note::moves::lemma_lifted(b, idx, idx - 1);
    lemma_dividers(b);
    lemma_dividers(once);
    lemma_rules_of(b);
    lemma_rules_of(once);
    lemma_block(b, idx);
    lemma_block(b, idx - 1);
    lemma_move_reorders_lines(b, idx, idx - 1);
    lemma_rules_move(b, idx, idx - 1);
    law_move_permutes_notes(b, idx, idx - 1);
    assert(note_lines(once).len() == note_lines(b).len());
    lemma_crossed(rs, f, sep, to);
    let rule = f + (to - sep - 1);
    let moved = rules_of(lines(once));
    assert(line_count(once) == n) by {
        assert(lines(once).len() == line_count(once));
        assert(reordered(b, idx, idx - 1).len() == n);
    }
    assert forall|i: int| 0 <= i < n implies divides(once, i) == divides(b, source(i, f, sep, to)) by {
        assert(divides(once, i) == moved[i]);
        assert(moved[i] == rs[source(i, f, sep, to)]);
    }
    // Above the moved notes nothing changed.
    lemma_same_dividers(b, once, f);
    if f > 0 {
        lemma_divider_rank(b, idx - 2);
        assert(dividers_within(b, f) == dividers_within(b, f - 1).push(f - 1)) by {
            assert(divides(b, f - 1));
        }
    } else {
        assert(idx == 1);
    }
    assert(dividers_within(b, f).len() == idx - 1);
    // The moved note holds no divider, so the rule is the next.
    assert(divides(once, rule)) by {
        assert(source(rule, f, sep, to) == sep);
        assert(divides(b, sep));
    }
    lemma_no_dividers(once, f, rule);
    crate::note::lemma_dividers_prefix(once, rule + 1, n);
    assert(dividers_within(once, rule + 1) == dividers_within(once, rule).push(rule));
    assert(dividers(once)[idx - 1] == rule);
    crate::note::lemma_dividers_prefix(once, f, n);
    if f > 0 {
        assert(dividers_within(once, f)[idx - 2] == f - 1);
        assert(dividers(once)[idx - 2] == f - 1);
    }
    // Nor does the other note.
    assert forall|i: int| rule < i < to implies !divides(once, i) by {
        assert(!divides(b, source(i, f, sep, to)));
    }
    if to < n {
        assert(divides(b, to));
        assert(source(to, f, sep, to) == to);
    }
    lemma_neighbours(once, idx - 1, to);
}

/// Texts that divide the same way up to line `n` have the same dividers there.
proof fn lemma_same_dividers(a: Seq<u8>, b: Seq<u8>, n: int)
    requires
        0 <= n,
        forall|i: int| 0 <= i < n ==> divides(a, i) == divides(b, i),
    ensures
        dividers_within(a, n) == dividers_within(b, n),
    decreases n,
{
    if n > 0 {
        lemma_same_dividers(a, b, n - 1);
    }
}

/// Lines without a divider add none.
proof fn lemma_no_dividers(b: Seq<u8>, from: int, to: int)
    requires
        0 <= from <= to,
        forall|i: int| from <= i < to ==> !divides(b, i),
    ensures
        dividers_within(b, to) == dividers_within(b, from),
    decreases to - from,
{
    if from < to {
        lemma_no_dividers(b, from, to - 1);
    }
}

// ---------------------------------------------------------------------------
// Starting a note, and what divides notes at all
// ---------------------------------------------------------------------------
/// Starting a note puts an empty one in front and leaves every other note, and
/// every rule between them, as it was.
pub proof fn law_new_note_leaves_the_rest(b: Seq<u8>)
    ensures
        contents(new_block_prefix() + b) == seq![Seq::<u8>::empty()] + contents(b),
        lines(new_block_prefix() + b) == seq![Seq::<u8>::empty(), rule_line()] + lines(b),
{
    let new = new_block_prefix() + b;
    let nl = seq![NEWLINE];
    let empty = Seq::<u8>::empty();
    let rule = rule_line();
    lemma_lines_join(empty, rule);
    lemma_lines_join(empty + nl + rule, b);
    assert(new =~= empty + nl + rule + nl + b);
    crate::lines::lemma_lines_one(empty);
    crate::lines::lemma_lines_one(rule);
    let ls = lines(b);
    let fresh = seq![empty, rule];
    assert(lines(new) =~= fresh + ls);
    // Neither of the two new lines is a fence, so nothing else changes.
    assert(crate::markdown::scan::run(rule, 0, crate::ascii::SPACE) == 0);
    assert(!fence(empty) && !fence(rule));
    let no = seq![false, false];
    let flags = fences_of(ls);
    let e = Seq::<bool>::empty();
    assert(fences_of(fresh + ls) =~= no + flags + e);
    assert(odd(no) == false) by {
        reveal_with_fuel(odd, 3);
        assert(no.drop_last() =~= seq![false]);
        lemma_single_false();
    }
    assert(!any(no));
    assert(!any(e));
    assert(separator_line(rule)) by {
        reveal_with_fuel(crate::text::copies, 4);
    }
    assert(!separator_line(empty));
    let rs = rules_of(ls);
    assert(rules_of(fresh + ls) =~= seq![false] + seq![true] + rs) by {
        assert forall|i: int| 0 <= i < ls.len() + 2 implies rules_of(fresh + ls)[i] == (seq![false]
            + seq![true] + rs)[i] by {
            if i >= 2 {
                let j = i - 2;
                assert((fresh + ls)[i] == ls[j]);
                lemma_in_closed_part(no, flags, e, j);
                lemma_in_closed(flags, j);
            } else {
                lemma_in_closed(no + flags + e, i);
                if i == 1 {
                    assert((no + flags + e).take(1) =~= seq![false]);
                    lemma_single_false();
                }
            }
        }
    }
    lemma_split_at(seq![empty], seq![false], rule, ls, rs);
    lemma_split_plain(seq![empty], seq![false]);
    assert(seq![empty] + seq![rule] + ls =~= fresh + ls);
    lemma_note_lines(new);
    lemma_note_lines(b);
    lemma_contents_joined(new);
    lemma_contents_joined(b);
    assert(note_lines(new) =~= seq![seq![empty]] + note_lines(b));
    assert(joined(seq![empty]) =~= empty) by {
        crate::lines::lemma_terminated_one(empty);
    }
    assert(contents(new) =~= seq![empty] + contents(b));
}

// ---------------------------------------------------------------------------
// Deleting a rule
// ---------------------------------------------------------------------------
/// The bytes that go with the rule on line `d`: the line and the newline after it,
/// or the newline before it and the line.
pub open spec fn takes_rule(b: Seq<u8>, d: int, gone: (int, int)) -> bool {
    ||| d + 1 < line_count(b) && gone == (line_start(b, d), line_start(b, d + 1))
    ||| d > 0 && gone == (line_end(b, d - 1), line_end(b, d))
}

/// `b` without the bytes `gone`.
pub open spec fn without(b: Seq<u8>, gone: (int, int)) -> Seq<u8> {
    b.subrange(0, gone.0) + b.subrange(gone.1, b.len() as int)
}

/// What notes `k` and `k + 1` say, as one note. A note between two rules that
/// touch has no line, and adds none.
pub open spec fn together(b: Seq<u8>, k: int) -> Seq<u8> {
    if block_first(b, k) == block_to(b, k) {
        content(b, k + 1)
    } else if block_first(b, k + 1) == block_to(b, k + 1) {
        content(b, k)
    } else {
        content(b, k) + seq![NEWLINE] + content(b, k + 1)
    }
}

/// Taking a rule out takes one line out.
proof fn lemma_lines_without(b: Seq<u8>, d: int, gone: (int, int))
    requires
        0 <= d < line_count(b),
        takes_rule(b, d, gone),
    ensures
        0 <= gone.0 <= gone.1 <= b.len(),
        lines(without(b, gone)) == lines(b).take(d) + lines(b).skip(d + 1),
{
    let nl = seq![NEWLINE];
    let n = line_count(b) as int;
    let head = lines(b).take(d);
    let tail = lines(b).skip(d + 1);
    let c = without(b, gone);
    lemma_line_starts(b);
    lemma_line(b, d);
    lemma_terminated_lines(b, d);
    if d > 0 {
        lemma_line(b, d - 1);
    }
    if d + 1 < n {
        crate::note::moves::lemma_terminated_range(b, d + 1, n);
        assert(lines(b).subrange(d + 1, n) =~= tail);
        assert(terminated(head) + terminated(tail) =~= c + nl);
    } else {
        assert(tail =~= Seq::empty());
        assert(terminated(head) + terminated(tail) =~= c + nl);
    }
    lemma_terminated_concat(head, tail);
    crate::lines::lemma_lines_single(b);
    assert forall|i: int| 0 <= i < (head + tail).len() implies crate::lines::single_line(
        #[trigger] (head + tail)[i],
    ) by {
        if i < d {
            assert((head + tail)[i] == lines(b)[i]);
        } else {
            assert((head + tail)[i] == lines(b)[i + 1]);
        }
    }
    lemma_lines_of_terminated(head + tail, c);
}

/// Which of the other lines divide notes does not turn on the rule.
proof fn lemma_rules_without(b: Seq<u8>, d: int)
    requires
        divides(b, d),
    ensures
        rules_of(lines(b).take(d) + lines(b).skip(d + 1)) == rules_of(lines(b)).take(d) + rules_of(
            lines(b),
        ).skip(d + 1),
{
    let ls = lines(b);
    let flags = fences_of(ls);
    let x = flags.take(d);
    let y = flags.skip(d + 1);
    let no = seq![false];
    let e = Seq::<bool>::empty();
    let left = ls.take(d) + ls.skip(d + 1);
    lemma_rules_of(b);
    lemma_divider_parity(b, d);
    assert(flags =~= x + no + y);
    assert(fences_of(left) =~= x + y);
    lemma_single_false();
    lemma_odd_concat(x, no);
    assert forall|i: int| 0 <= i < left.len() implies #[trigger] rules_of(left)[i] == (rules_of(
        ls,
    ).take(d) + rules_of(ls).skip(d + 1))[i] by {
        if i < d {
            assert(left[i] == ls[i]);
            lemma_in_closed_part(e, x, y, i);
            assert(e + x + y =~= x + y);
            lemma_in_closed_part(e, x, no + y, i);
            assert(e + x + (no + y) =~= flags);
            lemma_any_concat(no, y);
        } else {
            let j = i - d;
            assert(left[i] == ls[i + 1]);
            lemma_in_closed_part(x, y, e, j);
            assert(x + y + e =~= x + y);
            lemma_in_closed_part(x + no, y, e, j);
            assert(x + no + y + e =~= flags);
        }
    }
    assert(rules_of(left) =~= rules_of(ls).take(d) + rules_of(ls).skip(d + 1));
}

/// Without a flagged line between them, the notes on either side are one.
proof fn lemma_split_joined(x: Seq<Seq<u8>>, fx: Seq<bool>, y: Seq<Seq<u8>>, fy: Seq<bool>)
    requires
        x.len() == fx.len(),
        y.len() == fy.len(),
    ensures
        split(x, fx).len() > 0,
        split(y, fy).len() > 0,
        split(x + y, fx + fy) == split(x, fx).drop_last() + seq![
            split(x, fx).last() + split(y, fy)[0],
        ] + split(y, fy).skip(1),
    decreases y.len(),
{
    lemma_split_nonempty(x, fx);
    lemma_split_nonempty(y, fy);
    let p = split(x, fx);
    let q = split(y, fy);
    if y.len() == 0 {
        assert(x + y =~= x);
        assert(fx + fy =~= fx);
        assert(p.last() + q[0] =~= p.last());
        assert(q.skip(1) =~= Seq::empty());
        assert(p.drop_last() + seq![p.last() + q[0]] + q.skip(1) =~= p);
    } else {
        let y0 = y.drop_last();
        let fy0 = fy.drop_last();
        assert((x + y).drop_last() =~= x + y0);
        assert((fx + fy).drop_last() =~= fx + fy0);
        lemma_split_joined(x, fx, y0, fy0);
        let q0 = split(y0, fy0);
        let front = split(x + y0, fx + fy0);
        assert((fx + fy).last() == fy.last());
        assert((x + y).last() == y.last());
        if fy.last() {
            assert(q =~= q0.push(Seq::empty()));
            assert(front.push(Seq::empty()) =~= p.drop_last() + seq![p.last() + q[0]] + q.skip(1));
        } else if q0.len() == 1 {
            assert(q =~= seq![q0[0].push(y.last())]);
            assert(front.last() == p.last() + q0[0]);
            assert((p.last() + q0[0]).push(y.last()) =~= p.last() + q[0]);
            assert(front.drop_last().push(front.last().push(y.last())) =~= p.drop_last() + seq![
                p.last() + q[0],
            ] + q.skip(1));
        } else {
            assert(q[0] == q0[0]);
            assert(front.last() == q0.last());
            assert(front.drop_last().push(front.last().push(y.last())) =~= p.drop_last() + seq![
                p.last() + q[0],
            ] + q.skip(1));
        }
    }
}

/// The lines of two notes, one below the other, say what the notes say.
proof fn lemma_joined_concat(x: Seq<Seq<u8>>, y: Seq<Seq<u8>>)
    ensures
        joined(x + y) == if x.len() == 0 {
            joined(y)
        } else if y.len() == 0 {
            joined(x)
        } else {
            joined(x) + seq![NEWLINE] + joined(y)
        },
{
    if x.len() == 0 {
        assert(x + y =~= y);
    } else if y.len() == 0 {
        assert(x + y =~= x);
    } else {
        lemma_terminated_concat(x, y);
        assert(terminated(x).last() == NEWLINE);
        assert(joined(x + y) =~= joined(x) + seq![NEWLINE] + joined(y));
    }
}

/// Deleting a rule joins the two notes beside it, and changes nothing else: there
/// is one rule fewer, what the two notes said is one note, and every other note
/// says what it said. It makes no difference whether the rule goes with the newline
/// after it or the one before.
pub proof fn law_deleting_a_rule_joins_two_notes(b: Seq<u8>, k: int, gone: (int, int))
    requires
        0 <= k < dividers(b).len(),
        takes_rule(b, dividers(b)[k], gone),
    ensures
        lines(without(b, gone)) == lines(b).remove(dividers(b)[k]),
        dividers(without(b, gone)).len() + 1 == dividers(b).len(),
        contents(without(b, gone)) == contents(b).take(k) + seq![together(b, k)] + contents(b).skip(
            k + 2,
        ),
{
    let c = without(b, gone);
    let d = dividers(b)[k];
    lemma_dividers(b);
    lemma_rules_of(b);
    lemma_lines_without(b, d, gone);
    lemma_rules_without(b, d);
    let ls = lines(b);
    let rs = rules_of(ls);
    let (x, fx) = (ls.take(d), rs.take(d));
    let (y, fy) = (ls.skip(d + 1), rs.skip(d + 1));
    assert(lines(c) =~= ls.remove(d));
    lemma_split_at(x, fx, ls[d], y, fy);
    assert(x + seq![ls[d]] + y =~= ls);
    assert(fx + seq![true] + fy =~= rs);
    lemma_split_joined(x, fx, y, fy);
    lemma_note_lines(b);
    lemma_note_lines(c);
    lemma_split_notes(b, d);
    lemma_divider_rank(b, k);
    let before = note_lines(b);
    let after = note_lines(c);
    assert(split(x, fx).len() == k + 1);
    assert(before == split(x, fx) + split(y, fy));
    assert(split(x, fx) =~= before.take(k + 1));
    assert(split(y, fy) =~= before.skip(k + 1));
    assert(after =~= before.take(k) + seq![before[k] + before[k + 1]] + before.skip(k + 2));
    lemma_contents_joined(b);
    lemma_contents_joined(c);
    lemma_joined_concat(before[k], before[k + 1]);
    lemma_block(b, k);
    lemma_block(b, k + 1);
    assert(joined(before[k]) == contents(b)[k]);
    assert(joined(before[k + 1]) == contents(b)[k + 1]);
    assert(joined(before[k] + before[k + 1]) == together(b, k));
    assert(contents(c) =~= contents(b).take(k) + seq![together(b, k)] + contents(b).skip(k + 2));
}

/// `---`.
pub open spec fn rule_line() -> Seq<u8> {
    seq![crate::ascii::DASH, crate::ascii::DASH, crate::ascii::DASH]
}

/// The notes and the rules between them are the whole document: note `k` is the
/// lines from the rule above it, or the top, to the rule below it, or the bottom;
/// no line of it is a rule; and its text lies between characters, after the text
/// of the note before.
pub proof fn law_notes_and_rules_make_the_document(b: Seq<u8>, k: int)
    requires
        valid_utf8(b),
        0 <= k <= dividers(b).len(),
    ensures
        block_first(b, 0) == 0,
        block_to(b, dividers(b).len() as int) == line_count(b),
        k > 0 ==> block_first(b, k) == block_to(b, k - 1) + 1 && divides(b, block_to(b, k - 1)),
        block_first(b, k) <= block_to(b, k),
        forall|i: int| block_first(b, k) <= i < block_to(b, k) ==> !#[trigger] divides(b, i),
        0 <= block_start(b, k) <= block_end(b, k) <= b.len(),
        boundary(b, block_start(b, k)),
        boundary(b, block_end(b, k)),
        k > 0 ==> block_end(b, k - 1) < block_start(b, k),
{
    lemma_block(b, k);
    lemma_dividers(b);
}

/// Every offset is in one note: that of its line or, on a rule, the note beneath.
pub proof fn law_every_offset_is_in_a_note(b: Seq<u8>, offset: int)
    requires
        0 <= offset <= b.len(),
    ensures
        ({
            let k = block_of(b, offset);
            let l = line_of(b, offset);
            &&& 0 <= k <= dividers(b).len()
            &&& if divides(b, l) {
                l == block_first(b, k) - 1
            } else {
                block_first(b, k) <= l < block_to(b, k)
            }
        }),
{
    let l = line_of(b, offset);
    let k = block_of(b, offset);
    lemma_line_of(b, offset);
    lemma_dividers(b);
    lemma_dividers_within(b, l + 1);
    lemma_dividers_prefix(b, l + 1, line_count(b) as int);
    let upto = dividers_within(b, l + 1);
    assert(k == upto.len());
    if k > 0 {
        assert(upto[k - 1] == dividers(b)[k - 1]);
        assert(upto.contains(upto[k - 1]));
    }
    if divides(b, l) {
        assert(upto.contains(l));
        let m = choose|m: int| 0 <= m < upto.len() && upto[m] == l;
        if m < k - 1 {
            assert(upto[m] < upto[k - 1]);
        }
    } else if k < dividers(b).len() {
        let d = dividers(b)[k];
        if d <= l {
            assert(upto.contains(d));
            let m = choose|m: int| 0 <= m < upto.len() && upto[m] == d;
            assert(dividers(b)[m] < dividers(b)[k]);
        }
    }
}

/// Blank lines never split a note, however many there are.
pub proof fn law_blank_lines_never_divide(b: Seq<u8>, i: int)
    requires
        forall|k: int|
            0 <= k < line(b, i).len() ==> crate::text::ascii_white(#[trigger] line(b, i)[k]),
    ensures
        !divides(b, i),
{
    crate::note::lemma_white_no_rule(line(b, i));
}

/// A fence that is never closed swallows nothing: a rule with no fence below it
/// divides. One between an opening fence and its closing fence is code.
pub proof fn law_only_closed_fences_hold_code(b: Seq<u8>, i: int)
    requires
        0 <= i < line_count(b),
        separator_line(line(b, i)),
    ensures
        !fence_from(fence_flags(b), i) ==> divides(b, i),
        open_before(fence_flags(b), i) && fence_from(fence_flags(b), i) ==> !divides(b, i),
        !open_before(fence_flags(b), i) ==> divides(b, i),
{
}

/// Three or more of one of `-`, `*` and `_`, and nothing else.
pub open spec fn plain_rule(r: Seq<u8>) -> bool {
    &&& r.len() >= 3
    &&& r[0] == DASH || r[0] == STAR || r[0] == UNDERSCORE
    &&& forall|k: int| 0 <= k < r.len() ==> #[trigger] r[k] == r[0]
}

proof fn lemma_plain_rule(r: Seq<u8>, n: int)
    requires
        plain_rule(r),
        0 <= n <= r.len(),
    ensures
        crate::text::copies(r, r[0], n) == n,
    decreases n,
{
    if n > 0 {
        lemma_plain_rule(r, n - 1);
        assert(r[n - 1] == r[0]);
    }
}

proof fn lemma_all_false(flags: Seq<bool>)
    requires
        forall|k: int| 0 <= k < flags.len() ==> !#[trigger] flags[k],
    ensures
        !odd(flags),
        !any(flags),
{
    lemma_odd_needs_any(flags);
}

/// Text without a backtick and a tilde has no fence in it.
proof fn lemma_no_fences(x: Seq<u8>)
    requires
        forall|k: int| 0 <= k < x.len() ==> #[trigger] x[k] != BACKTICK && x[k] != TILDE,
    ensures
        forall|i: int| 0 <= i < line_count(x) ==> !#[trigger] fences_of(lines(x))[i],
{
    assert forall|i: int| 0 <= i < line_count(x) implies !#[trigger] fences_of(lines(x))[i] by {
        lemma_line(x, i);
        let l = line(x, i);
        let at = crate::markdown::lead(l);
        crate::markdown::scan::lemma_run(l, 0, crate::ascii::SPACE);
        if fence(l) {
            assert(l[at] == x[line_start(x, i) + at]);
        }
    }
}

/// A rule on a line of its own divides: the notes of two texts with a rule between them
/// are those of the one and then those of the other, where the first has no fence
/// that could take the rule in.
pub proof fn law_a_rule_divides_two_texts(x: Seq<u8>, r: Seq<u8>, y: Seq<u8>)
    requires
        plain_rule(r),
        forall|k: int| 0 <= k < x.len() ==> #[trigger] x[k] != BACKTICK && x[k] != TILDE,
    ensures
        contents(x + seq![NEWLINE] + r + seq![NEWLINE] + y) == contents(x) + contents(y),
{
    let nl = seq![NEWLINE];
    let new = x + nl + r + nl + y;
    let lx = lines(x);
    let ly = lines(y);
    assert forall|k: int| 0 <= k < r.len() implies r[k] != NEWLINE by {
        assert(r[k] == r[0]);
    }
    assert(crate::lines::single_line(r));
    crate::lines::lemma_lines_one(r);
    lemma_lines_join(x, r);
    lemma_lines_join(x + nl + r, y);
    assert(lines(new) =~= lx + seq![r] + ly);
    lemma_plain_rule(r, r.len() as int);
    assert(crate::note::rule_of(r, r[0]));
    assert(separator_line(r));
    if fence(r) {
        crate::note::lemma_fence_is_no_separator(r);
    }
    let fx = fences_of(lx);
    let fy = fences_of(ly);
    let e = Seq::<bool>::empty();
    lemma_no_fences(x);
    let no = fx + seq![false];
    assert forall|k: int| 0 <= k < no.len() implies !#[trigger] no[k] by {
        if k < fx.len() {
            assert(!fences_of(lines(x))[k]);
        }
    }
    lemma_all_false(no);
    let all = lx + seq![r] + ly;
    assert(fences_of(all) =~= no + fy + e);
    assert(!any(e));
    let rx = rules_of(lx);
    let ry = rules_of(ly);
    assert forall|i: int| 0 <= i < all.len() implies rules_of(all)[i] == (rx + seq![true] + ry)[i] by {
        if i <= lx.len() {
            lemma_in_closed(no + fy + e, i);
            let front = (no + fy + e).take(i);
            assert forall|k: int| 0 <= k < front.len() implies !#[trigger] front[k] by {
                assert(front[k] == no[k]);
            }
            lemma_all_false(front);
            if i < lx.len() {
                assert(all[i] == lx[i]);
                lemma_in_closed(fx, i);
                let head = fx.take(i);
                assert forall|k: int| 0 <= k < head.len() implies !#[trigger] head[k] by {
                    assert(!fences_of(lines(x))[k]);
                }
                lemma_all_false(head);
            }
        } else {
            let j = i - lx.len() - 1;
            assert(all[i] == ly[j]);
            lemma_in_closed_part(no, fy, e, j);
            lemma_in_closed(fy, j);
        }
    }
    assert(rules_of(all) =~= rx + seq![true] + ry);
    lemma_split_at(lx, rx, r, ly, ry);
    lemma_note_lines(new);
    lemma_note_lines(x);
    lemma_note_lines(y);
    lemma_contents_joined(new);
    lemma_contents_joined(x);
    lemma_contents_joined(y);
    assert(note_lines(new) == note_lines(x) + note_lines(y));
    assert(contents(new) =~= contents(x) + contents(y));
}

/// Text without `-`, `*` and `_` is one note.
pub proof fn law_text_without_rules_is_one_note(x: Seq<u8>)
    requires
        forall|k: int| 0 <= k < x.len() ==> #[trigger] x[k] != DASH && x[k] != STAR && x[k] != UNDERSCORE,
    ensures
        contents(x) == seq![x],
{
    assert forall|i: int| 0 <= i < line_count(x) implies !divides(x, i) by {
        lemma_line(x, i);
        let l = line(x, i);
        assert forall|k: int| 0 <= k < l.len() implies #[trigger] l[k] != DASH && l[k] != STAR && l[k]
            != UNDERSCORE by {
            assert(l[k] == x[line_start(x, i) + k]);
        }
        crate::markdown::blocks::lemma_no_copies_of(l, DASH, l.len() as int);
        crate::markdown::blocks::lemma_no_copies_of(l, STAR, l.len() as int);
        crate::markdown::blocks::lemma_no_copies_of(l, UNDERSCORE, l.len() as int);
    }
    lemma_dividers(x);
    lemma_dividers_within(x, line_count(x) as int);
    if dividers(x).len() > 0 {
        assert(dividers(x).contains(dividers(x)[0]));
        assert(divides(x, dividers(x)[0]));
    }
    lemma_line_starts(x);
    lemma_line(x, 0);
    lemma_line(x, line_count(x) - 1);
    assert(content(x, 0) =~= x);
    assert(contents(x) =~= seq![x]);
}

/// A listed note is what stands between two rules: it says what its lines say, the rule
/// above it is a dividing line right before the first of them, and none of them divides.
pub proof fn law_a_listed_note_lies_between_its_rules(n: Block, b: Seq<u8>, k: int, l: int)
    requires
        0 <= k <= dividers(b).len(),
        n.describes(b, k),
    ensures
        n.index == k,
        contents(b)[k] == b.subrange(n.start as int, n.end as int),
        n.sep_line is None <==> k == 0,
        n.sep_line is None ==> n.first_line == 0 && n.start == 0,
        n.sep_line matches Some(r) ==> divides(b, r as int) && n.first_line == r + 1,
        n.start == line_start(b, n.first_line as int),
        n.first_line < line_count(b) && !divides(b, n.first_line as int) ==> {
            &&& n.first_line <= n.last_line < line_count(b)
            &&& n.end == line_end(b, n.last_line as int)
            &&& n.first_line <= l <= n.last_line ==> !divides(b, l)
            &&& n.last_line + 1 == line_count(b) || divides(b, n.last_line + 1)
        },
        n.first_line == line_count(b) || divides(b, n.first_line as int) ==> n.start == n.end,
{
    lemma_dividers(b);
    lemma_block(b, k);
    lemma_line_starts(b);
    lemma_line(b, 0);
    if k < dividers(b).len() {
        assert(dividers(b).contains(dividers(b)[k]));
        assert(divides(b, dividers(b)[k]));
    }
    if k > 0 {
        assert(divides(b, dividers(b)[k - 1]));
    }
}

} // verus!
