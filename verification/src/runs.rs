//! A line as runs of bytes drawn alike: its spans, with the selection and the
//! search hits washed over them.

use vstd::prelude::*;
use vstd::string::*;
use vstd::utf8::valid_utf8;

use crate::markdown::cover::{on_boundaries, tiles};
use crate::markdown::{styled, MdStyle, Span};
use crate::text::{boundary, byte_len, lemma_boundary, lemma_string_ends};

verus! {

broadcast use {vstd::seq::group_seq_axioms, vstd::string::group_string_axioms};

/// Bytes drawn alike.
#[derive(Clone, Copy, Debug, PartialEq, Eq, Structural)]
pub struct Run {
    pub len: usize,
    /// The span they belong to; `None` for plain text.
    pub span: Option<usize>,
    /// The wash over them, the last of those that cover them.
    pub wash: Option<usize>,
}

/// How one byte is drawn: its span, and its wash.
pub type Look = (Option<usize>, Option<usize>);

/// How every byte of the runs is drawn, one after the other.
pub open spec fn looks(runs: Seq<Run>) -> Seq<Look>
    decreases runs.len(),
{
    if runs.len() == 0 {
        Seq::empty()
    } else {
        let last = runs.last();
        looks(runs.drop_last()) + Seq::new(last.len as nat, |i: int| (last.span, last.wash))
    }
}

/// `all` with wash `k` over the bytes `from..to`.
pub open spec fn washed(all: Seq<Look>, from: int, to: int, k: usize) -> Seq<Look> {
    Seq::new(
        all.len(),
        |p: int|
            if from <= p < to {
                (all[p].0, Some(k))
            } else {
                all[p]
            },
    )
}

/// `all` with the first `n` washes over it, in order.
pub open spec fn all_washed(all: Seq<Look>, washes: Seq<(usize, usize)>, n: int) -> Seq<Look>
    decreases n,
{
    if n <= 0 {
        all
    } else {
        washed(
            all_washed(all, washes, n - 1),
            washes[n - 1].0 as int,
            washes[n - 1].1 as int,
            (n - 1) as usize,
        )
    }
}

/// Whether the spans cover the `shown` text exactly. They do for the line they
/// were made for, but what is shown may be a stand-in for it.
pub open spec fn fit(shown: Seq<u8>, spans: Seq<Span>) -> bool {
    spans.len() > 0 && tiles(styled(spans), 0, shown.len() as int) && on_boundaries(
        styled(spans),
        shown,
        0,
    )
}

/// The runs of the first `n` spans.
pub open spec fn span_looks(spans: Seq<Span>, n: int) -> Seq<Look>
    decreases n,
{
    if n <= 0 {
        Seq::empty()
    } else {
        let s = spans[n - 1];
        span_looks(spans, n - 1) + Seq::new(
            (s.end - s.start) as nat,
            |i: int| (Some((n - 1) as usize), None),
        )
    }
}

/// How the bytes of `shown` are drawn before any wash: by their spans or, where
/// those do not fit, plainly.
pub open spec fn bare_looks(shown: Seq<u8>, spans: Seq<Span>) -> Seq<Look> {
    if fit(shown, spans) {
        span_looks(spans, spans.len() as int)
    } else {
        Seq::new(shown.len(), |i: int| (None, None))
    }
}

/// Whether no run is empty.
pub open spec fn no_empty(runs: Seq<Run>) -> bool {
    forall|i: int| 0 <= i < runs.len() ==> (#[trigger] runs[i]).len > 0
}

/// How many bytes the runs draw.
pub open spec fn total(runs: Seq<Run>) -> int {
    looks(runs).len() as int
}

/// The part of a run from byte `from` to byte `to`; none of it where that is
/// nothing.
pub open spec fn part(run: Run, from: int, to: int) -> Seq<Run> {
    if from < to {
        seq![Run { len: (to - from) as usize, span: run.span, wash: run.wash }]
    } else {
        Seq::empty()
    }
}

/// `x`, or the end of `from..to` nearest to it.
pub open spec fn held(x: int, from: int, to: int) -> int {
    if x < from {
        from
    } else if x > to {
        to
    } else {
        x
    }
}

/// A run that starts at byte `pos`, cut at the edges of `from..to` that lie in it,
/// what is between them washed.
pub open spec fn cut_run(run: Run, pos: int, from: int, to: int, wash: usize) -> Seq<Run> {
    let end = pos + run.len;
    let a = held(from, pos, end);
    let b = held(to, a, end);
    part(run, pos, a) + part(Run { wash: Some(wash), ..run }, a, b) + part(run, b, end)
}

/// The runs, each cut at the edges of `from..to`, which is not empty.
pub open spec fn cut_runs(runs: Seq<Run>, from: int, to: int, wash: usize) -> Seq<Run>
    decreases runs.len(),
{
    if runs.len() == 0 {
        Seq::empty()
    } else {
        let front = runs.drop_last();
        cut_runs(front, from, to, wash) + cut_run(runs.last(), total(front), from, to, wash)
    }
}

/// The runs after a wash over `from..to`.
pub open spec fn wash_runs(runs: Seq<Run>, from: int, to: int, wash: usize) -> Seq<Run> {
    if from < to {
        cut_runs(runs, from, to, wash)
    } else {
        runs
    }
}

/// The runs after the first `n` washes, in order.
pub open spec fn all_wash_runs(runs: Seq<Run>, washes: Seq<(usize, usize)>, n: int) -> Seq<Run>
    decreases n,
{
    if n <= 0 {
        runs
    } else {
        wash_runs(
            all_wash_runs(runs, washes, n - 1),
            washes[n - 1].0 as int,
            washes[n - 1].1 as int,
            (n - 1) as usize,
        )
    }
}

/// The runs before any wash: one for each span or, where those do not fit, a single
/// plain one — of no bytes, if nothing is shown.
pub open spec fn bare_runs(shown: Seq<u8>, spans: Seq<Span>) -> Seq<Run> {
    if fit(shown, spans) {
        Seq::new(
            spans.len(),
            |i: int|
                Run {
                    len: (spans[i].end - spans[i].start) as usize,
                    span: Some(i as usize),
                    wash: None,
                },
        )
    } else {
        seq![Run { len: shown.len() as usize, span: None, wash: None }]
    }
}

/// Appending a run appends its bytes.
proof fn lemma_push(runs: Seq<Run>, run: Run)
    ensures
        looks(runs.push(run)) == looks(runs) + Seq::new(
            run.len as nat,
            |i: int| (run.span, run.wash),
        ),
{
    assert(runs.push(run).drop_last() =~= runs);
}

/// Whether the spans cover the shown text exactly.
fn spans_fit(shown: &str, spans: &Vec<Span>) -> (r: bool)
    ensures
        r == fit(shown.spec_bytes(), spans@),
{
    let n: usize = spans.len();
    if n == 0 {
        return false;
    }
    let ghost all = styled(spans@);
    let ghost b = shown.spec_bytes();
    proof {
        lemma_string_ends(shown@);
        assert(all[0] == spans@[0]@);
        assert(all.last() == spans@[n - 1]@);
    }
    if spans[0].start != 0 || spans[n - 1].end != byte_len(shown) {
        return false;
    }
    let mut i: usize = 0;
    while i < n
        invariant
            n == spans@.len(),
            i <= n,
            n > 0,
            all == styled(spans@),
            b == shown.spec_bytes(),
            vstd::utf8::valid_utf8(b),
            all[0].start == 0,
            all.last().end == b.len(),
            forall|k: int| 0 <= k < i ==> (#[trigger] all[k]).start < all[k].end,
            forall|k: int| 0 <= k < i ==> boundary(b, (#[trigger] all[k]).start) && boundary(b, all[k].end),
            forall|k: int, m: int|
                0 <= k && m == k + 1 && m < i ==> (#[trigger] all[k]).end == (#[trigger] all[m]).start,
        decreases n - i,
    {
        let s = spans[i];
        proof {
            assert(all[i as int] == spans@[i as int]@);
            lemma_boundary(b, s.start as int);
            lemma_boundary(b, s.end as int);
            if i > 0 {
                assert(all[i - 1] == spans@[i - 1]@);
            }
        }
        if !(s.start < s.end && shown.is_char_boundary(s.start) && shown.is_char_boundary(s.end)) {
            return false;
        }
        if i > 0 && spans[i - 1].end != s.start {
            assert(!tiles(all, 0, b.len() as int)) by {
                assert(all[i - 1].end != all[i as int].start);
            }
            return false;
        }
        i += 1;
    }
    true
}

/// Push the part `from..to` of a run, if there is any.
fn push_part(out: &mut Vec<Run>, run: Run, from: usize, to: usize)
    requires
        from <= to,
    ensures
        no_empty(old(out)@) ==> no_empty(final(out)@),
        final(out)@ == old(out)@ + part(run, from as int, to as int),
{
    if from < to {
        out.push(Run { len: to - from, span: run.span, wash: run.wash });
    }
    assert(out@ =~= old(out)@ + part(run, from as int, to as int));
}

/// Split runs at the edges of `from..to` and wash what lies between. Drawn this
/// way, a selection follows wrapped text across visual rows.
pub fn apply_wash(runs: Vec<Run>, from: usize, to: usize, wash: usize) -> (out: Vec<Run>)
    requires
        looks(runs@).len() <= usize::MAX,
    ensures
        out@ == wash_runs(runs@, from as int, to as int, wash),
        looks(out@) == washed(looks(runs@), from as int, to as int, wash),
        no_empty(runs@) ==> no_empty(out@),
{
    if from >= to {
        assert(washed(looks(runs@), from as int, to as int, wash) =~= looks(runs@));
        return runs;
    }
    let mut out: Vec<Run> = Vec::new();
    let mut pos: usize = 0;
    let mut i: usize = 0;
    assert(runs@.take(0) =~= Seq::empty());
    assert(cut_runs(runs@.take(0), from as int, to as int, wash) =~= out@);
    while i < runs.len()
        invariant
            i <= runs@.len(),
            from < to,
            no_empty(out@),
            looks(runs@).len() <= usize::MAX,
            pos == looks(runs@.take(i as int)).len(),
            out@ == cut_runs(runs@.take(i as int), from as int, to as int, wash),
        decreases runs@.len() - i,
    {
        let run = runs[i];
        proof {
            assert(runs@.take(i + 1).drop_last() =~= runs@.take(i as int));
            assert(runs@.take(i + 1).last() == run);
            lemma_looks_grow(runs@, i + 1);
        }
        let end: usize = pos + run.len;
        // The parts before, inside and behind the wash.
        let a: usize = if from < pos {
            pos
        } else if from > end {
            end
        } else {
            from
        };
        let b: usize = if to < a {
            a
        } else if to > end {
            end
        } else {
            to
        };
        let inside = Run { len: run.len, span: run.span, wash: Some(wash) };
        push_part(&mut out, run, pos, a);
        push_part(&mut out, inside, a, b);
        push_part(&mut out, run, b, end);
        assert(out@ =~= cut_runs(runs@.take(i as int), from as int, to as int, wash) + cut_run(
            run,
            pos as int,
            from as int,
            to as int,
            wash,
        ));
        pos = end;
        i += 1;
    }
    proof {
        assert(runs@.take(runs@.len() as int) =~= runs@);
        lemma_cut_looks(runs@, from as int, to as int, wash);
    }
    out
}

proof fn lemma_looks_concat(x: Seq<Run>, y: Seq<Run>)
    ensures
        looks(x + y) == looks(x) + looks(y),
    decreases y.len(),
{
    if y.len() == 0 {
        assert(x + y =~= x);
        assert(looks(x) + looks(y) =~= looks(x));
    } else {
        lemma_looks_concat(x, y.drop_last());
        assert((x + y).drop_last() =~= x + y.drop_last());
        assert(looks(x + y) =~= looks(x) + looks(y));
    }
}

proof fn lemma_part_looks(run: Run, from: int, to: int)
    requires
        0 <= from <= to <= usize::MAX,
    ensures
        looks(part(run, from, to)) == Seq::new((to - from) as nat, |i: int| (run.span, run.wash)),
{
    let none = Seq::<Run>::empty();
    if from < to {
        lemma_push(none, part(run, from, to)[0]);
        assert(none.push(part(run, from, to)[0]) =~= part(run, from, to));
        assert(looks(part(run, from, to)) =~= Seq::new(
            (to - from) as nat,
            |i: int| (run.span, run.wash),
        ));
    } else {
        assert(looks(part(run, from, to)) =~= Seq::new(
            (to - from) as nat,
            |i: int| (run.span, run.wash),
        ));
    }
}

/// Cut runs draw every byte as before, but for the wash.
proof fn lemma_cut_looks(runs: Seq<Run>, from: int, to: int, wash: usize)
    requires
        from < to,
        total(runs) <= usize::MAX,
    ensures
        looks(cut_runs(runs, from, to, wash)) == washed(looks(runs), from, to, wash),
    decreases runs.len(),
{
    if runs.len() > 0 {
        let front = runs.drop_last();
        let run = runs.last();
        lemma_cut_looks(front, from, to, wash);
        let pos = total(front);
        let end = pos + run.len;
        let a = held(from, pos, end);
        let b = held(to, a, end);
        let inside = Run { wash: Some(wash), ..run };
        let (x, y, z) = (part(run, pos, a), part(inside, a, b), part(run, b, end));
        lemma_part_looks(run, pos, a);
        lemma_part_looks(inside, a, b);
        lemma_part_looks(run, b, end);
        lemma_looks_concat(x, y);
        lemma_looks_concat(x + y, z);
        lemma_looks_concat(cut_runs(front, from, to, wash), x + y + z);
    }
    assert(looks(cut_runs(runs, from, to, wash)) =~= washed(looks(runs), from, to, wash));
}

/// The runs so far have no more bytes than all of them.
proof fn lemma_looks_grow(runs: Seq<Run>, n: int)
    requires
        0 <= n <= runs.len(),
    ensures
        looks(runs.take(n)).len() <= looks(runs).len(),
    decreases runs.len() - n,
{
    if n < runs.len() {
        lemma_looks_grow(runs, n + 1);
        assert(runs.take(n + 1).drop_last() =~= runs.take(n));
    } else {
        assert(runs.take(n) =~= runs);
    }
}

/// The runs to draw `shown` in: those of its spans, or one plain run where they do
/// not fit, with the washes over them in order.
pub fn build_runs(shown: &str, spans: &Vec<Span>, washes: &Vec<(usize, usize)>) -> (out: Vec<Run>)
    ensures
        out@ == all_wash_runs(
            bare_runs(shown.spec_bytes(), spans@),
            washes@,
            washes@.len() as int,
        ),
        looks(out@) == all_washed(
            bare_looks(shown.spec_bytes(), spans@),
            washes@,
            washes@.len() as int,
        ),
        looks(out@).len() == shown.spec_bytes().len(),
        shown.spec_bytes().len() > 0 ==> no_empty(out@),
{
    let ghost b = shown.spec_bytes();
    let len: usize = byte_len(shown);
    let mut runs: Vec<Run> = Vec::new();
    if spans_fit(shown, spans) {
        let mut i: usize = 0;
        while i < spans.len()
            invariant
                i <= spans@.len(),
                fit(b, spans@),
                no_empty(runs@),
                runs@ == bare_runs(b, spans@).take(i as int),
                looks(runs@) == span_looks(spans@, i as int),
                looks(runs@).len() == (if i == 0 {
                    0
                } else {
                    spans@[i - 1].end as int
                }),
            decreases spans@.len() - i,
        {
            let s = spans[i];
            proof {
                let all = styled(spans@);
                assert(all[i as int] == spans@[i as int]@);
                if i > 0 {
                    assert(all[i - 1] == spans@[i - 1]@);
                    assert(all[i - 1].end == all[i as int].start);
                } else {
                    assert(all[0].start == 0);
                }
            }
            let run = Run { len: s.end - s.start, span: Some(i), wash: None };
            proof {
                lemma_push(runs@, run);
                assert(looks(runs@.push(run)) =~= span_looks(spans@, i + 1));
            }
            runs.push(run);
            assert(runs@ =~= bare_runs(b, spans@).take(i + 1));
            i += 1;
        }
        assert(bare_runs(b, spans@).take(spans@.len() as int) =~= bare_runs(b, spans@));
        proof {
            assert(styled(spans@).last() == spans@[spans@.len() - 1]@);
        }
    } else {
        let run = Run { len, span: None, wash: None };
        proof {
            lemma_push(runs@, run);
            assert(looks(runs@.push(run)) =~= bare_looks(b, spans@));
        }
        runs.push(run);
        assert(runs@ =~= bare_runs(b, spans@));
    }
    let mut k: usize = 0;
    while k < washes.len()
        invariant
            k <= washes@.len(),
            len == b.len(),
            len > 0 ==> no_empty(runs@),
            looks(runs@).len() == len,
            runs@ == all_wash_runs(bare_runs(b, spans@), washes@, k as int),
            looks(runs@) == all_washed(bare_looks(b, spans@), washes@, k as int),
        decreases washes@.len() - k,
    {
        let (from, to) = washes[k];
        runs = apply_wash(runs, from, to, k);
        k += 1;
    }
    runs
}

/// Where run `k` starts: the end of the run before it.
pub open spec fn edge(runs: Seq<Run>, k: int) -> int {
    total(runs.take(k))
}

/// Whether every edge of the runs, both ends included, is one that `ok` allows.
pub open spec fn edges_are(runs: Seq<Run>, ok: spec_fn(int) -> bool) -> bool {
    forall|k: int| 0 <= k <= runs.len() ==> ok(#[trigger] edge(runs, k))
}

proof fn lemma_edges_push(runs: Seq<Run>, run: Run, ok: spec_fn(int) -> bool)
    ensures
        edges_are(runs.push(run), ok) <==> edges_are(runs, ok) && ok(total(runs) + run.len),
        total(runs.push(run)) == total(runs) + run.len,
{
    let all = runs.push(run);
    let n = runs.len() as int;
    lemma_push(runs, run);
    assert(all.take(n + 1) =~= all);
    assert(edge(all, n + 1) == total(runs) + run.len);
    assert forall|k: int| 0 <= k <= n implies #[trigger] edge(all, k) == edge(runs, k) by {
        assert(all.take(k) =~= runs.take(k));
    }
    if edges_are(all, ok) {
        assert forall|k: int| 0 <= k <= n implies ok(#[trigger] edge(runs, k)) by {
            assert(ok(edge(all, k)));
        }
    }
    if edges_are(runs, ok) && ok(total(runs) + run.len) {
        assert forall|k: int| 0 <= k <= n + 1 implies ok(#[trigger] edge(all, k)) by {
            if k <= n {
                assert(ok(edge(runs, k)));
            }
        }
    }
}

proof fn lemma_edges_part(runs: Seq<Run>, run: Run, from: int, to: int, ok: spec_fn(int) -> bool)
    requires
        edges_are(runs, ok),
        total(runs) == from,
        from <= to <= usize::MAX,
        0 <= from,
        ok(to),
    ensures
        edges_are(runs + part(run, from, to), ok),
        total(runs + part(run, from, to)) == to,
{
    if from < to {
        let piece = part(run, from, to)[0];
        assert(runs + part(run, from, to) =~= runs.push(piece));
        lemma_edges_push(runs, piece, ok);
    } else {
        assert(runs + part(run, from, to) =~= runs);
    }
}

/// A wash cuts runs at its own edges and nowhere else.
pub proof fn law_wash_cuts_at_its_edges(
    runs: Seq<Run>,
    from: int,
    to: int,
    wash: usize,
    ok: spec_fn(int) -> bool,
)
    requires
        edges_are(runs, ok),
        total(runs) <= usize::MAX,
        ok(from),
        ok(to),
    ensures
        edges_are(wash_runs(runs, from, to, wash), ok),
        total(wash_runs(runs, from, to, wash)) == total(runs),
    decreases runs.len(),
{
    if from < to && runs.len() > 0 {
        let front = runs.drop_last();
        let run = runs.last();
        assert(front.push(run) =~= runs);
        lemma_edges_push(front, run, ok);
        law_wash_cuts_at_its_edges(front, from, to, wash, ok);
        let done = cut_runs(front, from, to, wash);
        let pos = total(front);
        let end = pos + run.len;
        let a = held(from, pos, end);
        let b = held(to, a, end);
        assert(edge(front, front.len() as int) == pos) by {
            assert(front.take(front.len() as int) =~= front);
        }
        let inside = Run { wash: Some(wash), ..run };
        lemma_edges_part(done, run, pos, a, ok);
        lemma_edges_part(done + part(run, pos, a), inside, a, b, ok);
        lemma_edges_part(done + part(run, pos, a) + part(inside, a, b), run, b, end, ok);
        assert(cut_runs(runs, from, to, wash) =~= done + part(run, pos, a) + part(inside, a, b) + part(
            run,
            b,
            end,
        ));
    } else if from < to {
        assert(cut_runs(runs, from, to, wash) =~= runs);
    }
}

/// Every run ends between two characters, if every wash does.
pub proof fn law_runs_end_between_characters(
    shown: Seq<u8>,
    spans: Seq<Span>,
    washes: Seq<(usize, usize)>,
    n: int,
)
    requires
        valid_utf8(shown),
        shown.len() <= usize::MAX,
        0 <= n <= washes.len(),
        forall|i: int|
            0 <= i < n ==> boundary(shown, (#[trigger] washes[i]).0 as int) && boundary(
                shown,
                washes[i].1 as int,
            ),
    ensures
        edges_are(
            all_wash_runs(bare_runs(shown, spans), washes, n),
            |x: int| boundary(shown, x),
        ),
        total(all_wash_runs(bare_runs(shown, spans), washes, n)) == shown.len(),
    decreases n,
{
    let ok = |x: int| boundary(shown, x);
    if n > 0 {
        law_runs_end_between_characters(shown, spans, washes, n - 1);
        law_wash_cuts_at_its_edges(
            all_wash_runs(bare_runs(shown, spans), washes, n - 1),
            washes[n - 1].0 as int,
            washes[n - 1].1 as int,
            (n - 1) as usize,
            ok,
        );
    } else {
        let bare = bare_runs(shown, spans);
        let none = Seq::<Run>::empty();
        if shown.len() > 0 {
            crate::text::lemma_first_byte(shown);
        }
        assert(edges_are(none, ok)) by {
            assert(none.take(0) =~= none);
        }
        if fit(shown, spans) {
            lemma_bare_edges(shown, spans, spans.len() as int);
            assert(bare.take(spans.len() as int) =~= bare);
            assert(styled(spans).last() == spans[spans.len() - 1]@);
        } else {
            assert(none.push(bare[0]) =~= bare);
            lemma_edges_push(none, bare[0], ok);
        }
    }
}

/// The runs of the first `n` spans end where those do.
proof fn lemma_bare_edges(shown: Seq<u8>, spans: Seq<Span>, n: int)
    requires
        fit(shown, spans),
        boundary(shown, 0),
        shown.len() <= usize::MAX,
        0 <= n <= spans.len(),
    ensures
        edges_are(bare_runs(shown, spans).take(n), |x: int| boundary(shown, x)),
        total(bare_runs(shown, spans).take(n)) == (if n == 0 {
            0
        } else {
            spans[n - 1].end as int
        }),
    decreases n,
{
    let ok = |x: int| boundary(shown, x);
    let bare = bare_runs(shown, spans);
    let all = styled(spans);
    if n > 0 {
        lemma_bare_edges(shown, spans, n - 1);
        assert(bare.take(n) =~= bare.take(n - 1).push(bare[n - 1]));
        lemma_edges_push(bare.take(n - 1), bare[n - 1], ok);
        assert(all[n - 1] == spans[n - 1]@);
        if n > 1 {
            assert(all[n - 2] == spans[n - 2]@);
            assert(all[n - 2].end == all[n - 1].start);
        } else {
            assert(all[0].start == 0);
        }
    } else {
        assert(bare.take(0).take(0) =~= bare.take(0));
    }
}

/// Whether text of a style may have a background of its own under it. Inline code
/// and code blocks stand on surfaces that are painted apart, and a second band
/// behind their glyphs would cover those.
pub fn has_background(style: MdStyle) -> (r: bool)
    ensures
        r == !(style == MdStyle::Code || style == MdStyle::CodeBlock || style == MdStyle::Fence),
{
    match style {
        MdStyle::Code | MdStyle::CodeBlock | MdStyle::Fence => false,
        _ => true,
    }
}

/// A byte shows the last wash that covers it, or none where none does, and keeps its span.
pub proof fn law_the_last_wash_shows(all: Seq<Look>, washes: Seq<(usize, usize)>, n: int, p: int)
    requires
        0 <= n <= washes.len() <= usize::MAX,
        0 <= p < all.len(),
        all[p].1 is None,
    ensures
        ({
            let r = all_washed(all, washes, n);
            &&& r.len() == all.len()
            &&& r[p].0 == all[p].0
            &&& r[p].1 matches Some(k) ==> k < n && washes[k as int].0 <= p < washes[k as int].1
                && forall|j: int| k < j < n ==> !((#[trigger] washes[j]).0 <= p < washes[j].1)
            &&& r[p].1 is None ==> forall|j: int|
                0 <= j < n ==> !((#[trigger] washes[j]).0 <= p < washes[j].1)
        }),
    decreases n,
{
    if n > 0 {
        law_the_last_wash_shows(all, washes, n - 1, p);
    }
}

/// Before any wash a byte belongs to the span that covers it; where the spans are not those
/// of what is shown, it belongs to none.
pub proof fn law_a_byte_belongs_to_its_span(shown: Seq<u8>, spans: Seq<Span>, p: int)
    requires
        0 <= p < shown.len(),
        spans.len() <= usize::MAX,
    ensures
        ({
            let r = bare_looks(shown, spans);
            &&& r.len() == shown.len()
            &&& r[p].1 is None
            &&& !fit(shown, spans) ==> r[p].0 is None
            &&& fit(shown, spans) ==> (r[p].0 matches Some(i) && i < spans.len() && spans[i as int].start
                <= p < spans[i as int].end)
        }),
{
    if fit(shown, spans) {
        let n = spans.len() as int;
        let t = styled(spans);
        assert forall|k: int| 0 <= k < n implies (#[trigger] t[k]) == spans[k]@ by {}
        lemma_span_looks(shown, spans, n);
        assert(t[n - 1].end == shown.len());
    }
}

proof fn lemma_span_looks(shown: Seq<u8>, spans: Seq<Span>, n: int)
    requires
        fit(shown, spans),
        0 <= n <= spans.len() <= usize::MAX,
    ensures
        ({
            let r = span_looks(spans, n);
            &&& r.len() == if n > 0 {
                spans[n - 1].end as int
            } else {
                0
            }
            &&& forall|p: int|
                0 <= p < r.len() ==> (#[trigger] r[p]).1 is None && (r[p].0 matches Some(i) && i < n
                    && spans[i as int].start <= p < spans[i as int].end)
        }),
    decreases n,
{
    if n > 0 {
        lemma_span_looks(shown, spans, n - 1);
        let t = styled(spans);
        assert(t[n - 1] == spans[n - 1]@);
        if n > 1 {
            assert(t[n - 2] == spans[n - 2]@);
            assert(t[n - 2].end == t[n - 1].start);
        } else {
            assert(t[0].start == 0);
        }
        assert(t[n - 1].start < t[n - 1].end);
        let before = span_looks(spans, n - 1);
        let r = span_looks(spans, n);
        assert forall|p: int| 0 <= p < r.len() implies (#[trigger] r[p]).1 is None && (r[p].0 matches Some(
            i,
        ) && i < n && spans[i as int].start <= p < spans[i as int].end) by {
            if p < before.len() {
                assert(r[p] == before[p]);
            }
        }
    }
}

} // verus!
