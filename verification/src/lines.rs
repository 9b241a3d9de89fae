//! Text as lines: where each one starts and ends, and which one an offset is on.

use vstd::prelude::*;
use vstd::utf8::*;

use crate::ascii::NEWLINE;
use crate::text::{boundary, copies, lemma_ascii_boundary, lemma_copies_bound};

verus! {

broadcast use vstd::seq::group_seq_axioms;

/// Where the lines of the first `n` bytes of `b` start: at 0, and after every
/// newline.
pub open spec fn starts_within(b: Seq<u8>, n: int) -> Seq<int>
    decreases n,
{
    if n <= 0 {
        seq![0]
    } else if b[n - 1] == NEWLINE {
        starts_within(b, n - 1).push(n)
    } else {
        starts_within(b, n - 1)
    }
}

/// Where the lines of `b` start.
pub open spec fn line_starts(b: Seq<u8>) -> Seq<int> {
    starts_within(b, b.len() as int)
}

/// How many lines `b` has: one more than it has newlines.
pub open spec fn line_count(b: Seq<u8>) -> nat {
    line_starts(b).len()
}

/// The offset at which line `i` starts; the end of the text for a line past
/// the last.
pub open spec fn line_start(b: Seq<u8>, i: int) -> int {
    if i < line_count(b) {
        line_starts(b)[i]
    } else {
        b.len() as int
    }
}

/// The offset at which line `i` ends, its newline not included.
pub open spec fn line_end(b: Seq<u8>, i: int) -> int {
    if i + 1 < line_count(b) {
        line_starts(b)[i + 1] - 1
    } else {
        b.len() as int
    }
}

/// Line `i`, without its newline.
pub open spec fn line(b: Seq<u8>, i: int) -> Seq<u8> {
    b.subrange(line_start(b, i), line_end(b, i))
}

/// The line that `offset` is on; an offset past the end is on the last line. A
/// newline is on the line it ends.
pub open spec fn line_of(b: Seq<u8>, offset: int) -> int {
    copies(
        b,
        NEWLINE,
        if offset < b.len() {
            offset
        } else {
            b.len() as int
        },
    ) as int
}

/// What the starts of the first `n` bytes look like.
pub proof fn lemma_starts_within(b: Seq<u8>, n: int)
    requires
        0 <= n <= b.len(),
    ensures
        starts_within(b, n).len() == copies(b, NEWLINE, n) + 1,
        starts_within(b, n)[0] == 0,
        forall|i: int, j: int|
            0 <= i < j < starts_within(b, n).len() ==> starts_within(b, n)[i] < starts_within(b, n)[j],
        forall|i: int|
            0 <= i < starts_within(b, n).len() ==> 0 <= #[trigger] starts_within(b, n)[i] <= n,
        forall|i: int|
            1 <= i < starts_within(b, n).len() ==> #[trigger] starts_within(b, n)[i] >= 1
                && b[starts_within(b, n)[i] - 1] == NEWLINE,
        forall|i: int|
            0 <= i < starts_within(b, n).len() ==> copies(
                b,
                NEWLINE,
                #[trigger] starts_within(b, n)[i],
            ) == i,
    decreases n,
{
    if n > 0 {
        lemma_starts_within(b, n - 1);
    }
}

/// Counting newlines never goes down.
pub proof fn lemma_copies_monotonic(b: Seq<u8>, c: u8, i: int, j: int)
    requires
        0 <= i <= j,
    ensures
        copies(b, c, i) <= copies(b, c, j),
    decreases j,
{
    if i < j {
        lemma_copies_monotonic(b, c, i, j - 1);
    }
}

/// The lines of `b` start in order, each after a newline.
pub proof fn lemma_line_starts(b: Seq<u8>)
    ensures
        line_count(b) == copies(b, NEWLINE, b.len() as int) + 1,
        line_count(b) <= b.len() + 1,
        line_starts(b)[0] == 0,
        forall|i: int, j: int|
            0 <= i < j < line_count(b) ==> line_starts(b)[i] < line_starts(b)[j],
        forall|i: int| 0 <= i < line_count(b) ==> 0 <= #[trigger] line_starts(b)[i] <= b.len(),
        forall|i: int|
            1 <= i < line_count(b) ==> #[trigger] line_starts(b)[i] >= 1 && b[line_starts(b)[i] - 1]
                == NEWLINE,
        forall|i: int|
            0 <= i < line_count(b) ==> copies(b, NEWLINE, #[trigger] line_starts(b)[i]) == i,
{
    lemma_starts_within(b, b.len() as int);
    lemma_copies_bound(b, NEWLINE, b.len() as int);
}

/// Line `i` lies inside the text, and what ends it is a newline or the end.
pub proof fn lemma_line(b: Seq<u8>, i: int)
    requires
        0 <= i < line_count(b),
    ensures
        0 <= line_start(b, i) <= line_end(b, i) <= b.len(),
        line_end(b, i) < b.len() ==> b[line_end(b, i)] == NEWLINE,
        i + 1 < line_count(b) ==> line_end(b, i) < b.len() && line_start(b, i + 1) == line_end(b, i)
            + 1,
        i + 1 == line_count(b) ==> line_end(b, i) == b.len(),
        i == 0 ==> line_start(b, i) == 0,
        i > 0 ==> line_start(b, i) > 0 && b[line_start(b, i) - 1] == NEWLINE,
        forall|p: int| line_start(b, i) <= p < line_end(b, i) ==> b[p] != NEWLINE,
{
    lemma_line_starts(b);
    let s = line_start(b, i);
    let e = line_end(b, i);
    assert(copies(b, NEWLINE, s) == i);
    if i + 1 < line_count(b) {
        assert(line_starts(b)[i] < line_starts(b)[i + 1]);
        assert(copies(b, NEWLINE, e + 1) == i + 1);
    } else {
        assert(copies(b, NEWLINE, e) == i);
    }
    assert forall|p: int| s <= p < e implies b[p] != NEWLINE by {
        if b[p] == NEWLINE {
            lemma_copies_monotonic(b, NEWLINE, s, p);
            lemma_copies_monotonic(b, NEWLINE, p + 1, e);
            if i + 1 < line_count(b) {
                assert(copies(b, NEWLINE, e + 1) == copies(b, NEWLINE, e) + 1);
            }
        }
    }
}

/// A line starts at or before an offset exactly when it is not past the
/// offset's line.
pub proof fn lemma_line_of(b: Seq<u8>, offset: int)
    requires
        0 <= offset,
    ensures
        0 <= line_of(b, offset) < line_count(b),
        forall|i: int|
            0 <= i < line_count(b) ==> (#[trigger] line_starts(b)[i] <= offset <==> i <= line_of(
                b,
                offset,
            )),
        offset <= b.len() ==> line_start(b, line_of(b, offset)) <= offset <= line_end(
            b,
            line_of(b, offset),
        ),
{
    lemma_line_starts(b);
    let at = if offset < b.len() {
        offset
    } else {
        b.len() as int
    };
    let l = line_of(b, offset);
    lemma_copies_monotonic(b, NEWLINE, at, b.len() as int);
    assert forall|i: int| 0 <= i < line_count(b) implies (#[trigger] line_starts(b)[i] <= offset <==> i
        <= l) by {
        let s = line_starts(b)[i];
        assert(copies(b, NEWLINE, s) == i);
        if s <= offset {
            lemma_copies_monotonic(b, NEWLINE, s, at);
        } else {
            // `s` comes after a newline at or after the offset.
            assert(b[s - 1] == NEWLINE);
            lemma_copies_monotonic(b, NEWLINE, at, s - 1);
        }
    }
    if offset <= b.len() {
        assert(line_starts(b)[l] <= offset);
        lemma_line(b, l);
        if l + 1 < line_count(b) {
            assert(line_starts(b)[l + 1] > offset);
        }
    }
}

/// The offset of a line's content is on that line.
pub proof fn lemma_line_of_start(b: Seq<u8>, i: int, offset: int)
    requires
        0 <= i < line_count(b),
        line_start(b, i) <= offset <= line_end(b, i),
    ensures
        line_of(b, offset) == i,
{
    lemma_line(b, i);
    lemma_line_of(b, offset);
    let l = line_of(b, offset);
    assert(line_starts(b)[i] <= offset);
    if l > i {
        assert(line_starts(b)[i + 1] <= offset);
    }
}

/// Lines of UTF-8 text start and end between characters, and are UTF-8.
pub proof fn lemma_line_boundaries(b: Seq<u8>, i: int)
    requires
        valid_utf8(b),
        0 <= i,
    ensures
        boundary(b, line_start(b, i)),
        i < line_count(b) ==> boundary(b, line_end(b, i)) && valid_utf8(line(b, i)),
{
    if i < line_count(b) {
        lemma_line(b, i);
        if i == 0 {
            if b.len() > 0 {
                crate::text::lemma_first_byte(b);
            }
        } else {
            lemma_ascii_boundary(b, line_start(b, i) - 1);
        }
        if line_end(b, i) < b.len() {
            lemma_ascii_boundary(b, line_end(b, i));
        }
        crate::text::lemma_subrange_valid(b, line_start(b, i), line_end(b, i));
    }
}

/// Every entry of `s` moved by `by`.
pub open spec fn moved(s: Seq<int>, by: int) -> Seq<int> {
    Seq::new(s.len(), |k: int| s[k] + by)
}

/// Only the first `n` bytes decide where their lines start.
pub proof fn lemma_starts_prefix(a: Seq<u8>, b: Seq<u8>, n: int)
    requires
        0 <= n <= a.len(),
        n <= b.len(),
        forall|k: int| 0 <= k < n ==> a[k] == b[k],
    ensures
        starts_within(a, n) == starts_within(b, n),
        copies(a, NEWLINE, n) == copies(b, NEWLINE, n),
    decreases n,
{
    if n > 0 {
        lemma_starts_prefix(a, b, n - 1);
    }
}

/// The lines of a text followed by another: the second text's first line joins
/// the last line of the first.
pub proof fn lemma_starts_concat(a: Seq<u8>, b: Seq<u8>)
    ensures
        line_starts(a + b) == line_starts(a) + moved(line_starts(b).skip(1), a.len() as int),
        line_count(a + b) == line_count(a) + line_count(b) - 1,
{
    lemma_starts_concat_within(a, b, b.len() as int);
    lemma_line_starts(b);
}

proof fn lemma_starts_concat_within(a: Seq<u8>, b: Seq<u8>, n: int)
    requires
        0 <= n <= b.len(),
    ensures
        starts_within(a + b, a.len() + n) == line_starts(a) + moved(
            starts_within(b, n).skip(1),
            a.len() as int,
        ),
    decreases n,
{
    let c = a + b;
    lemma_starts_within(b, n);
    if n == 0 {
        lemma_starts_prefix(c, a, a.len() as int);
        assert(moved(starts_within(b, 0).skip(1), a.len() as int) =~= Seq::empty());
        assert(line_starts(a) + Seq::<int>::empty() =~= line_starts(a));
    } else {
        lemma_starts_concat_within(a, b, n - 1);
        lemma_starts_within(b, n - 1);
        assert(c[a.len() + n - 1] == b[n - 1]);
        let before = moved(starts_within(b, n - 1).skip(1), a.len() as int);
        let after = moved(starts_within(b, n).skip(1), a.len() as int);
        if b[n - 1] == NEWLINE {
            assert(after =~= before.push(a.len() + n));
            assert(line_starts(a) + after =~= (line_starts(a) + before).push(a.len() + n));
        }
    }
}

/// The lines of `b`, in order.
pub open spec fn lines(b: Seq<u8>) -> Seq<Seq<u8>> {
    Seq::new(line_count(b), |i: int| line(b, i))
}

/// Every line of `ls` followed by a newline.
pub open spec fn terminated(ls: Seq<Seq<u8>>) -> Seq<u8>
    decreases ls.len(),
{
    if ls.len() == 0 {
        Seq::empty()
    } else {
        terminated(ls.drop_last()) + ls.last() + seq![NEWLINE]
    }
}

/// No byte of `l` is a newline.
pub open spec fn single_line(l: Seq<u8>) -> bool {
    forall|k: int| 0 <= k < l.len() ==> l[k] != NEWLINE
}

pub proof fn lemma_terminated_concat(x: Seq<Seq<u8>>, y: Seq<Seq<u8>>)
    ensures
        terminated(x + y) == terminated(x) + terminated(y),
    decreases y.len(),
{
    if y.len() == 0 {
        assert(x + y =~= x);
        assert(terminated(x) + terminated(y) =~= terminated(x));
    } else {
        assert((x + y).drop_last() =~= x + y.drop_last());
        lemma_terminated_concat(x, y.drop_last());
        assert(terminated(x + y) =~= terminated(x) + terminated(y));
    }
}

pub proof fn lemma_terminated_one(l: Seq<u8>)
    ensures
        terminated(seq![l]) == l + seq![NEWLINE],
{
    reveal_with_fuel(terminated, 2);
    assert(seq![l].drop_last() =~= Seq::empty());
    assert(Seq::<u8>::empty() + l + seq![NEWLINE] =~= l + seq![NEWLINE]);
}

/// Putting a newline after every line gives the text with a newline after it,
/// and the first `k` lines take as much room as line `k`'s start says.
pub proof fn lemma_terminated_lines(b: Seq<u8>, k: int)
    requires
        0 <= k <= line_count(b),
    ensures
        k < line_count(b) ==> terminated(lines(b).take(k)) == b.subrange(0, line_start(b, k)),
        k == line_count(b) ==> terminated(lines(b).take(k)) == b + seq![NEWLINE],
        terminated(lines(b)) == b + seq![NEWLINE],
{
    lemma_terminated_take(b, k);
    lemma_terminated_take(b, line_count(b) as int);
    assert(lines(b).take(line_count(b) as int) =~= lines(b));
}

proof fn lemma_terminated_take(b: Seq<u8>, k: int)
    requires
        0 <= k <= line_count(b),
    ensures
        k < line_count(b) ==> terminated(lines(b).take(k)) == b.subrange(0, line_start(b, k)),
        k == line_count(b) ==> terminated(lines(b).take(k)) == b + seq![NEWLINE],
    decreases k,
{
    lemma_line_starts(b);
    if k == 0 {
        assert(lines(b).take(0) =~= Seq::empty());
        assert(b.subrange(0, 0) =~= Seq::empty());
    } else {
        lemma_terminated_take(b, k - 1);
        lemma_line(b, k - 1);
        let front = lines(b).take(k - 1);
        assert(lines(b).take(k).drop_last() =~= front);
        assert(lines(b).take(k).last() == line(b, k - 1));
        if k < line_count(b) {
            assert(terminated(front) + line(b, k - 1) + seq![NEWLINE] =~= b.subrange(
                0,
                line_start(b, k),
            ));
        } else {
            assert(terminated(front) + line(b, k - 1) + seq![NEWLINE] =~= b + seq![NEWLINE]);
        }
    }
}

/// A line holds no newline.
pub proof fn lemma_lines_single(b: Seq<u8>)
    ensures
        lines(b).len() > 0,
        forall|i: int| 0 <= i < lines(b).len() ==> single_line(#[trigger] lines(b)[i]),
{
    lemma_line_starts(b);
    assert forall|i: int| 0 <= i < lines(b).len() implies single_line(#[trigger] lines(b)[i]) by {
        lemma_line(b, i);
    }
}

/// Text without a newline is one line.
pub proof fn lemma_lines_one(l: Seq<u8>)
    requires
        single_line(l),
    ensures
        lines(l) == seq![l],
{
    lemma_no_newline(l, l.len() as int);
    lemma_line_starts(l);
    assert(line(l, 0) =~= l);
    assert(lines(l) =~= seq![l]);
}

proof fn lemma_no_newline(l: Seq<u8>, n: int)
    requires
        single_line(l),
        0 <= n <= l.len(),
    ensures
        copies(l, NEWLINE, n) == 0,
    decreases n,
{
    if n > 0 {
        lemma_no_newline(l, n - 1);
    }
}

/// A newline between two texts keeps their lines apart.
pub proof fn lemma_lines_join(a: Seq<u8>, c: Seq<u8>)
    ensures
        lines(a + seq![NEWLINE] + c) == lines(a) + lines(c),
{
    let nl = seq![NEWLINE];
    let all = a + nl + c;
    reveal_with_fuel(starts_within, 2);
    lemma_starts_concat(a, nl);
    lemma_starts_concat(a + nl, c);
    lemma_line_starts(a);
    lemma_line_starts(c);
    assert(line_starts(nl) =~= seq![0, 1]);
    assert(line_starts(all) == line_starts(a) + moved(seq![0, 1].skip(1), a.len() as int) + moved(
        line_starts(c).skip(1),
        a.len() as int + 1,
    ));
    let n = line_count(a) as int;
    assert forall|i: int| 0 <= i < line_count(all) implies line(all, i) == (lines(a) + lines(c))[i] by {
        if i < n {
            lemma_line(a, i);
            assert(line_start(all, i) == line_start(a, i));
            assert(line_end(all, i) == line_end(a, i));
            assert(line(all, i) =~= line(a, i));
        } else {
            let j = i - n;
            lemma_line(c, j);
            assert(line_start(all, i) == line_start(c, j) + a.len() + 1);
            assert(line_end(all, i) == line_end(c, j) + a.len() + 1);
            assert(line(all, i) =~= line(c, j));
        }
    }
    assert(lines(all) =~= lines(a) + lines(c));
}

/// Lines without newlines, each followed by one, are the lines of that text.
pub proof fn lemma_lines_of_terminated(ls: Seq<Seq<u8>>, b: Seq<u8>)
    requires
        ls.len() > 0,
        forall|i: int| 0 <= i < ls.len() ==> single_line(#[trigger] ls[i]),
        terminated(ls) == b + seq![NEWLINE],
    ensures
        lines(b) == ls,
    decreases ls.len(),
{
    let front = ls.drop_last();
    let last = ls.last();
    assert(single_line(ls[ls.len() - 1]));
    if front.len() == 0 {
        lemma_terminated_one(last);
        assert(ls =~= seq![last]);
        assert(b =~= (b + seq![NEWLINE]).drop_last());
        assert(b =~= last) by {
            assert((last + seq![NEWLINE]).drop_last() =~= last);
        }
        lemma_lines_one(last);
    } else {
        let head = terminated(front);
        assert(head == terminated(front.drop_last()) + front.last() + seq![NEWLINE]);
        let c = terminated(front.drop_last()) + front.last();
        assert(head == c + seq![NEWLINE]);
        assert forall|i: int| 0 <= i < front.len() implies single_line(#[trigger] front[i]) by {
            assert(front[i] == ls[i]);
        }
        lemma_lines_of_terminated(front, c);
        assert(b =~= (b + seq![NEWLINE]).drop_last());
        assert((head + last + seq![NEWLINE]).drop_last() =~= c + seq![NEWLINE] + last);
        lemma_lines_join(c, last);
        lemma_lines_one(last);
        assert(front + seq![last] =~= ls);
    }
}

/// Two texts with the same lines are the same text.
pub proof fn lemma_lines_injective(a: Seq<u8>, b: Seq<u8>)
    requires
        lines(a) == lines(b),
    ensures
        a == b,
{
    lemma_terminated_lines(a, 0);
    lemma_terminated_lines(b, 0);
    assert(a =~= (a + seq![NEWLINE]).drop_last());
    assert(b =~= (b + seq![NEWLINE]).drop_last());
}

/// Offsets or line numbers as unbounded integers.
pub open spec fn ints(v: Seq<usize>) -> Seq<int> {
    Seq::new(v.len(), |k: int| v[k] as int)
}

pub proof fn lemma_ints_push(v: Seq<usize>, x: usize)
    ensures
        ints(v.push(x)) == ints(v).push(x as int),
{
    assert(ints(v.push(x)) =~= ints(v).push(x as int));
}

/// Strictly increasing.
pub open spec fn ascending(s: Seq<int>) -> bool {
    forall|i: int, j: int| 0 <= i < j < s.len() ==> s[i] < s[j]
}

/// Increasing sequences with the same entries are the same.
pub proof fn lemma_ascending_unique(s: Seq<int>, t: Seq<int>)
    requires
        ascending(s),
        ascending(t),
        forall|x: int| s.contains(x) <==> t.contains(x),
    ensures
        s == t,
    decreases s.len(),
{
    if s.len() == 0 {
        if t.len() > 0 {
            assert(t.contains(t[0]));
            assert(s.contains(t[0]));
        }
        assert(s =~= t);
    } else {
        assert(s.contains(s[0]) && t.contains(s[0]));
        let m = s.last();
        assert(s.contains(m));
        assert(t.contains(m));
        assert(t.contains(t.last()));
        assert(s.contains(t.last()));
        assert(t.last() == m);
        let u = s.drop_last();
        let v = t.drop_last();
        assert forall|x: int| u.contains(x) <==> v.contains(x) by {
            if u.contains(x) {
                let i = choose|i: int| 0 <= i < u.len() && u[i] == x;
                assert(s[i] == x);
                assert(s.contains(x));
                let j = choose|j: int| 0 <= j < t.len() && t[j] == x;
                assert(v[j] == x);
            }
            if v.contains(x) {
                let i = choose|i: int| 0 <= i < v.len() && v[i] == x;
                assert(t[i] == x);
                assert(t.contains(x));
                let j = choose|j: int| 0 <= j < s.len() && s[j] == x;
                assert(u[j] == x);
            }
        }
        lemma_ascending_unique(u, v);
        assert(s =~= u.push(m));
        assert(t =~= v.push(m));
    }
}

/// What surrounds an edit keeps its lines: of `head + middle + tail`, all lines
/// of the head but its last, and all lines of the tail but its first.
pub proof fn lemma_lines_around(head: Seq<u8>, middle: Seq<u8>, tail: Seq<u8>)
    ensures
        ({
            let all = head + middle + tail;
            let h = line_count(head) as int;
            let m = line_count(middle) as int;
            &&& line_count(all) == h + m + line_count(tail) - 2
            &&& line_of(all, head.len() as int) == h - 1
            &&& forall|i: int| 0 <= i < h - 1 ==> #[trigger] line(all, i) == line(head, i)
            &&& forall|i: int|
                h + m - 1 <= i < line_count(all) ==> #[trigger] line(all, i) == line(
                    tail,
                    i - (h + m - 2),
                )
        }),
{
    let all = head + middle + tail;
    let h = line_count(head) as int;
    let m = line_count(middle) as int;
    lemma_starts_concat(head + middle, tail);
    lemma_starts_concat(head, middle);
    lemma_line_starts(head);
    lemma_line_starts(middle);
    lemma_line_starts(tail);
    lemma_starts_prefix(all, head, head.len() as int);
    let front = line_starts(head) + moved(line_starts(middle).skip(1), head.len() as int);
    let back = moved(line_starts(tail).skip(1), (head + middle).len() as int);
    assert(line_starts(all) == front + back);
    assert forall|i: int| 0 <= i < h - 1 implies #[trigger] line(all, i) == line(head, i) by {
        lemma_line(head, i);
        assert(line_starts(all)[i] == line_starts(head)[i]);
        assert(line_starts(all)[i + 1] == line_starts(head)[i + 1]);
        assert(line(all, i) =~= line(head, i));
    }
    assert forall|i: int| h + m - 1 <= i < line_count(all) implies #[trigger] line(all, i) == line(
        tail,
        i - (h + m - 2),
    ) by {
        let j = i - (h + m - 2);
        let by = (head + middle).len() as int;
        lemma_line(tail, j);
        assert(line_starts(all)[i] == line_starts(tail)[j] + by);
        if j + 1 < line_count(tail) {
            assert(line_starts(all)[i + 1] == line_starts(tail)[j + 1] + by);
        }
        assert(line(all, i) =~= line(tail, j));
    }
}

} // verus!
