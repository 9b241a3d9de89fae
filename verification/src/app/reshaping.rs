//! What the commands on whole lines do, said of the bytes themselves.

use vstd::prelude::*;
use vstd::utf8::*;

use crate::app::effects::{
    editing, law_typing_replaces_its_range, law_typing_replaces_the_selection, put_between, well_placed,
};
use crate::app::lines::{
    can_double, can_swap, doubled, lemma_newline_valid, lemma_touched_lines, lined, lines_doubled,
    lines_doubled_edit, lines_in_order, lines_moved, lines_moved_edit, lines_rewritten, lines_rewritten_edit, swap,
    touched_lines, touched_outdented,
};
use crate::app::lists::{in_indent, line_opened, tabbed, transposed};
use crate::app::{caret, lemma_replaced_boundaries, State};
use crate::ascii::{NEWLINE, SPACE};
use crate::lines::{
    lemma_line, lemma_line_boundaries, lemma_line_of, lemma_lines_join, lemma_lines_one, line, line_count,
    line_end, line_of, line_start, lines, single_line,
};
use crate::lists::outdented;
use crate::markdown::blocks::lemma_apart_at;
use crate::markdown::scan::space;
use crate::markdown::words::word_byte;
use crate::note::{divides, lemma_floor_ceil};
use crate::text::{
    boundary, bytes, lemma_bytes_concat, lemma_string_ends, lemma_subrange_valid, replaced, trimmed_start,
    white_space,
};

verus! {

broadcast use vstd::seq::group_seq_axioms;

/// The first byte of the lines the selection touches, and the one behind them.
pub open spec fn touched_range(s: State) -> (int, int) {
    (line_start(s.text, touched_lines(s).0), line_end(s.text, touched_lines(s).1))
}

/// The lines a selection touches are whole: they start after a newline and end before
/// one, and reach no further than the selection does. A selection that ends right
/// behind a newline ends with the line that newline ends.
pub proof fn law_touched_lines_are_whole(s: State)
    requires
        well_placed(s),
        s.start < s.end,
    ensures
        ({
            let (from, to) = touched_range(s);
            &&& 0 <= from <= s.start
            &&& from > 0 ==> s.text[from - 1] == NEWLINE
            &&& forall|k: int| from <= k < s.start ==> #[trigger] s.text[k] != NEWLINE
            &&& from <= to <= s.text.len()
            &&& to < s.text.len() ==> s.text[to] == NEWLINE
            &&& s.text[s.end - 1] == NEWLINE ==> to == s.end - 1
            &&& s.text[s.end - 1] != NEWLINE ==> s.end <= to && forall|k: int|
                s.end <= k < to ==> #[trigger] s.text[k] != NEWLINE
        }),
{
    let b = s.text;
    crate::lines::lemma_copies_monotonic(b, NEWLINE, s.start, s.end);
    assert(lines_in_order(s));
    lemma_touched_lines(s);
    lemma_line_of(b, s.start);
    lemma_line_of(b, s.end);
    let first = line_of(b, s.start);
    let last = line_of(b, s.end);
    lemma_line(b, first);
    lemma_line(b, last);
    if b[s.end - 1] == NEWLINE {
        if line_start(b, last) < s.end {
            assert(b[s.end - 1] != NEWLINE);
        }
        assert(last > first) by {
            if last == first {
                assert(line_start(b, first) <= s.start);
            }
        }
        lemma_line(b, last - 1);
    } else {
        if last > 0 && line_start(b, last) == s.end {
            assert(b[line_start(b, last) - 1] == NEWLINE);
        }
    }
}

/// With nothing selected the caret's line is the one that is touched.
pub proof fn law_the_carets_line_is_touched(s: State)
    requires
        well_placed(s),
        s.start == s.end,
    ensures
        ({
            let (from, to) = touched_range(s);
            &&& 0 <= from <= s.end <= to <= s.text.len()
            &&& from > 0 ==> s.text[from - 1] == NEWLINE
            &&& to < s.text.len() ==> s.text[to] == NEWLINE
            &&& forall|k: int| from <= k < to ==> #[trigger] s.text[k] != NEWLINE
        }),
{
    lemma_line_of(s.text, s.end);
    lemma_line(s.text, line_of(s.text, s.end));
}

/// ⌘D puts a newline and a second copy of the lines behind them and changes nothing
/// else; the copy is selected where the lines were. Lines that hold a rule are left
/// alone.
pub proof fn law_doubling_puts_a_copy_below(s: State, now: u64)
    requires
        well_placed(s),
        editing(s),
        s.start <= s.end,
    ensures
        ({
            let (from, to) = touched_range(s);
            let (first, last) = touched_lines(s);
            let t = lines_doubled(s, now);
            let len = to - from;
            let rules = exists|l: int| first <= l <= last && #[trigger] divides(s.text, l);
            &&& rules ==> t == s && lines_doubled_edit(s) is None
            &&& !rules ==> {
                &&& t.text == put_between(
                    s.text,
                    to,
                    to,
                    seq![NEWLINE] + s.text.subrange(from, to),
                )
                &&& s.start < s.end ==> t.start == to + 1 && t.end == to + 1 + len
                &&& s.start == s.end ==> t.start == to + 1 + len && t.end == to + 1 + len
                &&& t.text.subrange(to + 1, to + 1 + len) == s.text.subrange(from, to)
                &&& !t.grouped
            }
        }),
{
    let b = s.text;
    let (from, to) = touched_range(s);
    let (first, last) = touched_lines(s);
    crate::lines::lemma_copies_monotonic(b, NEWLINE, s.start, s.end);
    assert(lines_in_order(s));
    lemma_touched_lines(s);
    let t = lines_doubled(s, now);
    let copied = b.subrange(from, to);
    let with = seq![NEWLINE] + copied;
    assert(doubled(s) =~= with);
    if can_double(s) {
        lemma_subrange_valid(b, from, to);
        crate::markdown::shapes::lemma_ascii_valid(seq![NEWLINE]);
        crate::app::lines::lemma_joined_valid(seq![NEWLINE], copied);
        lemma_replaced_boundaries(b, to, to, with);
        crate::app::find::lemma_replaced_valid(b, to, to, with);
        let after = replaced(b, to, to, with);
        assert(after =~= put_between(b, to, to, with));
        let n = with.len() as int;
        decode_utf8_encode_utf8(with);
        lemma_string_ends(decode_utf8(with));
        crate::text::lemma_ascii_boundary(with, 0);
        assert(boundary(with, n));
        assert(boundary(after, to + 1));
        assert(boundary(after, to + n));
        lemma_floor_ceil(after, to + 1);
        lemma_floor_ceil(after, to + n);
        assert(after.subrange(to + 1, to + n) =~= copied);
        assert(!(exists|l: int| first <= l <= last && #[trigger] divides(b, l)));
    }
}

/// Lines written one under the other are those lines.
pub proof fn law_lines_joined_are_those_lines(ls: Seq<Seq<u8>>)
    requires
        ls.len() > 0,
        forall|i: int| 0 <= i < ls.len() ==> single_line(#[trigger] ls[i]),
    ensures
        lines(lined(ls)) == ls,
    decreases ls.len(),
{
    if ls.len() == 1 {
        assert(single_line(ls[0]));
        lemma_lines_one(ls[0]);
        assert(lines(lined(ls)) =~= ls);
    } else {
        let front = ls.drop_last();
        assert forall|i: int| 0 <= i < front.len() implies single_line(#[trigger] front[i]) by {
            assert(front[i] == ls[i]);
        }
        law_lines_joined_are_those_lines(front);
        assert(single_line(ls[ls.len() - 1]));
        lemma_lines_one(ls.last());
        lemma_lines_join(lined(front), ls.last());
        assert(lines(lined(ls)) =~= front + seq![ls.last()]);
        assert(front + seq![ls.last()] =~= ls);
    }
}

/// Rewriting lines writes them anew where they stood and changes nothing else; lines
/// that were selected stay so. Lines that come out as they were change nothing at all.
pub proof fn law_rewriting_writes_the_lines_anew(s: State, ls: Seq<Seq<u8>>, now: u64)
    requires
        well_placed(s),
        editing(s),
        s.start <= s.end,
        ls.len() > 0,
        valid_utf8(lined(ls)),
    ensures
        ({
            let (from, to) = touched_range(s);
            let t = lines_rewritten(s, ls, now);
            let with = lined(ls);
            &&& t.text == put_between(s.text, from, to, with)
            &&& with == s.text.subrange(from, to) ==> t == s && lines_rewritten_edit(s, ls) is None
            &&& with != s.text.subrange(from, to) ==> {
                &&& s.start < s.end ==> t.start == from && t.end == from + with.len()
                &&& lines_rewritten_edit(s, ls) matches Some(e) && e.start == from && e.removed
                    == s.text.subrange(from, to) && e.inserted == with
            }
        }),
{
    let b = s.text;
    let (from, to) = touched_range(s);
    let with = lined(ls);
    crate::lines::lemma_copies_monotonic(b, NEWLINE, s.start, s.end);
    assert(lines_in_order(s));
    lemma_touched_lines(s);
    let after = replaced(b, from, to, with);
    assert(after =~= put_between(b, from, to, with));
    if with == b.subrange(from, to) {
        assert(put_between(b, from, to, with) =~= b);
    } else {
        lemma_replaced_boundaries(b, from, to, with);
        crate::app::find::lemma_replaced_valid(b, from, to, with);
        decode_utf8_encode_utf8(with);
        lemma_string_ends(decode_utf8(with));
        assert(boundary(with, 0));
        assert(boundary(with, with.len() as int));
        assert(boundary(after, from + 0));
        assert(boundary(after, from + with.len()));
        lemma_floor_ceil(after, from);
        lemma_floor_ceil(after, from + with.len());
    }
}

/// A caret on a rewritten line stays on its character, as far as the line is there: the
/// bytes behind it are as many as they were, or the whole line where that is shorter.
pub proof fn law_a_rewritten_line_keeps_the_caret(s: State, l: Seq<u8>, now: u64)
    requires
        well_placed(s),
        editing(s),
        s.start == s.end,
        valid_utf8(l),
        single_line(l),
        l != line(s.text, line_of(s.text, s.end)),
        ({
            let to = line_end(s.text, line_of(s.text, s.end));
            boundary(l, if l.len() >= to - s.end {
                l.len() - (to - s.end)
            } else {
                0
            })
        }),
    ensures
        ({
            let (from, to) = touched_range(s);
            let t = lines_rewritten(s, seq![l], now);
            &&& t.start == t.end
            &&& l.len() >= to - s.end ==> from + l.len() - t.end == to - s.end
            &&& l.len() < to - s.end ==> t.end == from
        }),
{
    let b = s.text;
    let (from, to) = touched_range(s);
    let n = line_of(b, s.end);
    lemma_line_of(b, s.end);
    lemma_line(b, n);
    lemma_line_boundaries(b, n);
    let ls = seq![l];
    assert(lined(ls) == l);
    law_rewriting_writes_the_lines_anew(s, ls, now);
    let after = replaced(b, from, to, l);
    lemma_replaced_boundaries(b, from, to, l);
    crate::app::find::lemma_replaced_valid(b, from, to, l);
    // The line keeps its number and starts where it did.
    let head = b.subrange(0, from);
    let tail = b.subrange(to, b.len() as int);
    assert(after =~= head + l + tail);
    assert(b =~= head + line(b, n) + tail);
    lemma_same_line(s, l, after);
    let at = if l.len() >= to - s.end {
        from + l.len() - (to - s.end)
    } else {
        from
    };
    assert(boundary(after, from + (at - from)));
    lemma_floor_ceil(after, at);
}

/// The line that took another's place has its number and its start.
proof fn lemma_same_line(s: State, l: Seq<u8>, after: Seq<u8>)
    requires
        well_placed(s),
        single_line(l),
        ({
            let n = line_of(s.text, s.end);
            after == replaced(s.text, line_start(s.text, n), line_end(s.text, n), l)
        }),
    ensures
        ({
            let n = line_of(s.text, s.end);
            &&& n < line_count(after)
            &&& line_start(after, n) == line_start(s.text, n)
            &&& line_end(after, n) == line_start(s.text, n) + l.len()
        }),
{
    let b = s.text;
    let n = line_of(b, s.end);
    lemma_line_of(b, s.end);
    lemma_line(b, n);
    crate::lines::lemma_line_starts(b);
    let from = line_start(b, n);
    let to = line_end(b, n);
    let end = from + l.len();
    assert forall|k: int| 0 <= k < from implies after[k] == b[k] by {}
    crate::lines::lemma_starts_prefix(after, b, from);
    assert forall|k: int| from <= k < end implies #[trigger] after[k] != NEWLINE by {
        assert(after[k] == l[k - from]);
    }
    lemma_no_more(after, from, end);
    lemma_line_of(after, end);
    lemma_line_of(after, from);
    assert(line_of(after, from) == n);
    assert(line_of(after, end) == n);
    lemma_line(after, n);
    if end < after.len() {
        assert(after[end] == b[to]);
        assert(b[to] == NEWLINE);
        if line_end(after, n) > end {
            assert(after[end] != NEWLINE);
        }
    }
    if line_start(after, n) < from {
        assert(n > 0) by {
            if n == 0 {
                assert(from == 0);
            }
        }
        assert(b[from - 1] == NEWLINE);
        assert(after[from - 1] == b[from - 1]);
    }
}

proof fn lemma_no_more(b: Seq<u8>, from: int, to: int)
    requires
        0 <= from <= to <= b.len(),
        forall|k: int| from <= k < to ==> #[trigger] b[k] != NEWLINE,
    ensures
        crate::text::copies(b, NEWLINE, to) == crate::text::copies(b, NEWLINE, from),
    decreases to - from,
{
    if from < to {
        lemma_no_more(b, from, to - 1);
        assert(b[to - 1] != NEWLINE);
    }
}

/// ⇧⇥ takes a level of indentation off each line the selection touches.
pub proof fn law_outdenting_takes_it_line_by_line(s: State)
    requires
        well_placed(s),
        s.start <= s.end,
    ensures
        ({
            let (first, last) = touched_lines(s);
            &&& touched_outdented(s).len() == last - first + 1
            &&& forall|i: int|
                0 <= i <= last - first ==> #[trigger] touched_outdented(s)[i] == outdented(
                    line(s.text, first + i),
                )
        }),
{
    crate::lines::lemma_copies_monotonic(s.text, NEWLINE, s.start, s.end);
    assert(lines_in_order(s));
    lemma_touched_lines(s);
}

/// Lines that hold a rule stay where they are, and so do lines with nothing beyond
/// them that way.
pub proof fn law_which_lines_stay(s: State, down: bool, l: int, now: u64)
    requires
        well_placed(s),
        s.start <= s.end,
    ensures
        ({
            let b = s.text;
            let (from, to) = touched_range(s);
            let (first, last) = touched_lines(s);
            let stays = lines_moved(s, down, now) == s && lines_moved_edit(s, down) is None;
            &&& first <= l <= last && divides(b, l) ==> stays
            &&& down && to == b.len() ==> stays
            &&& !down && from == 0 ==> stays
        }),
{
    let b = s.text;
    let (first, last) = touched_lines(s);
    crate::lines::lemma_copies_monotonic(b, NEWLINE, s.start, s.end);
    assert(lines_in_order(s));
    lemma_touched_lines(s);
    lemma_line(b, first);
    lemma_line(b, last);
    if last + 1 < line_count(b) {
        lemma_line(b, last + 1);
    }
    if first > 0 {
        lemma_line(b, first - 1);
    }
}

/// What a swap of lines makes of the text.
#[verifier::rlimit(40)]
proof fn lemma_swapped_text(s: State, down: bool, now: u64)
    requires
        well_placed(s),
        s.start <= s.end,
        can_swap(s, down),
    ensures
        ({
            let w = swap(s, down);
            lines_moved(s, down, now).text == put_between(s.text, w.from, w.to, w.with)
        }),
{
    let b = s.text;
    crate::lines::lemma_copies_monotonic(b, NEWLINE, s.start, s.end);
    assert(lines_in_order(s));
    crate::app::lines::lemma_swap(s, down);
    let w = swap(s, down);
    assert(replaced(b, w.from, w.to, w.with) =~= put_between(b, w.from, w.to, w.with));
    assert(put_between(b, w.from, w.to, b.subrange(w.from, w.to)) =~= b);
}

/// Lines without a rule among them change places with the line they are moved past.
pub proof fn law_moved_lines_change_places(s: State, down: bool, now: u64)
    requires
        well_placed(s),
        editing(s),
        s.start <= s.end,
        forall|l: int| touched_lines(s).0 <= l <= touched_lines(s).1 ==> !#[trigger] divides(s.text, l),
    ensures
        ({
            let b = s.text;
            let (from, to) = touched_range(s);
            let (first, last) = touched_lines(s);
            let moved = b.subrange(from, to);
            let t = lines_moved(s, down, now);
            &&& down && last + 1 < line_count(b) ==> t.text == put_between(
                b,
                from,
                line_end(b, last + 1),
                line(b, last + 1) + seq![NEWLINE] + moved,
            )
            &&& !down && first > 0 ==> t.text == put_between(
                b,
                line_start(b, first - 1),
                to,
                moved + seq![NEWLINE] + line(b, first - 1),
            )
        }),
{
    let (first, last) = touched_lines(s);
    if (down && last + 1 < line_count(s.text)) || (!down && first > 0) {
        assert(can_swap(s, down));
        lemma_swapped_text(s, down, now);
    }
}

/// Lines that were moved with a selection are what is selected then.
pub proof fn law_moved_lines_stay_selected(s: State, down: bool, now: u64)
    requires
        well_placed(s),
        s.start < s.end,
        can_swap(s, down),
        ({
            let w = swap(s, down);
            w.with != s.text.subrange(w.from, w.to)
        }),
    ensures
        ({
            let (from, to) = touched_range(s);
            let t = lines_moved(s, down, now);
            &&& t.end - t.start == to - from
            &&& t.text.subrange(t.start, t.end) == s.text.subrange(from, to)
            &&& if down {
                t.start > from
            } else {
                t.start < from
            }
        }),
{
    let b = s.text;
    let (from, to) = touched_range(s);
    let (first, last) = touched_lines(s);
    crate::lines::lemma_copies_monotonic(b, NEWLINE, s.start, s.end);
    assert(lines_in_order(s));
    lemma_touched_lines(s);
    crate::app::lines::lemma_swap(s, down);
    let w = swap(s, down);
    let t = lines_moved(s, down, now);
    lemma_line(b, w.neighbour);
    lemma_line(b, first);
    if down {
        lemma_line(b, last);
    } else {
        lemma_line(b, first - 1);
    }
    assert(t.text.subrange(t.start, t.end) =~= b.subrange(from, to));
}

/// A caret on a line that is moved stays on its character.
pub proof fn law_a_moved_line_keeps_the_caret(s: State, down: bool, now: u64)
    requires
        well_placed(s),
        s.start == s.end,
        can_swap(s, down),
        ({
            let w = swap(s, down);
            w.with != s.text.subrange(w.from, w.to)
        }),
    ensures
        ({
            let (from, to) = touched_range(s);
            let t = lines_moved(s, down, now);
            let back = s.end - from;
            &&& t.start == t.end
            &&& back <= t.end
            &&& t.text.subrange(t.end - back, t.end - back + (to - from)) == s.text.subrange(from, to)
            &&& if down {
                t.end > s.end
            } else {
                t.end < s.end
            }
        }),
{
    let b = s.text;
    let (from, to) = touched_range(s);
    let (first, last) = touched_lines(s);
    assert(lines_in_order(s));
    lemma_touched_lines(s);
    crate::app::lines::lemma_swap(s, down);
    let w = swap(s, down);
    let t = lines_moved(s, down, now);
    lemma_line(b, w.neighbour);
    lemma_line(b, first);
    if !down {
        lemma_line(b, first - 1);
    }
    law_the_carets_line_is_touched(s);
    let at = t.end - (s.end - from);
    assert(at == w.landed);
    assert(t.text.subrange(at, at + (to - from)) =~= b.subrange(from, to));
}

// ---------------------------------------------------------------------------
// Tab and its kin
// ---------------------------------------------------------------------------
/// With nothing but spaces and tabs before it on its line, the caret is in the line's
/// indentation; behind a letter or a digit it is not.
pub proof fn law_indentation_is_what_comes_before_words(s: State, k: int)
    requires
        well_placed(s),
        ({
            let from = line_start(s.text, line_of(s.text, caret(s)));
            ||| forall|j: int| from <= j < caret(s) ==> space(#[trigger] s.text[j])
            ||| from <= k < caret(s) && word_byte(s.text[k])
        }),
    ensures
        ({
            let from = line_start(s.text, line_of(s.text, caret(s)));
            in_indent(s) <==> !(from <= k < caret(s) && word_byte(s.text[k])) && forall|j: int|
                from <= j < caret(s) ==> space(#[trigger] s.text[j])
        }),
{
    let b = s.text;
    let l = line_of(b, caret(s));
    let c = caret(s);
    lemma_line_of(b, c);
    lemma_line(b, l);
    lemma_line_boundaries(b, l);
    let from = line_start(b, l);
    let to = line_end(b, l);
    let lb = line(b, l);
    lemma_subrange_valid(b, from, to);
    if forall|j: int| from <= j < c ==> space(#[trigger] b[j]) {
        let x = b.subrange(from, c);
        let y = b.subrange(c, to);
        lemma_subrange_valid(b, c, to);
        let u = Seq::new(x.len(), |j: int| x[j] as char);
        assert forall|j: int| 0 <= j < u.len() implies (#[trigger] u[j] as int) < 128 && white_space(
            u[j],
        ) by {
            assert(space(b[from + j]));
        }
        is_ascii_chars_encode_utf8(u);
        assert forall|j: int| 0 <= j < x.len() implies #[trigger] x[j] == bytes(u)[j] by {
            assert(space(b[from + j]));
        }
        assert(bytes(u) =~= x);
        let v = decode_utf8(y);
        decode_utf8_encode_utf8(y);
        lemma_bytes_concat(u, v);
        assert(bytes(u + v) =~= lb);
        encode_utf8_decode_utf8(u + v);
        lemma_trimmed_front_white(u, v);
        if from <= k < c && word_byte(b[k]) {
            assert(space(b[k]));
        }
    } else {
        assert(lb[k - from] == b[k]);
        let (u, v) = lemma_apart_at(lb, k - from);
        let ch = b[k] as char;
        lemma_trimmed_front_word(u, ch, v);
        let w = lemma_trimmed_length(u, ch, v);
        is_ascii_chars_encode_utf8(seq![ch]);
        lemma_bytes_concat(seq![ch], v);
        assert(bytes(v).len() == to - k - 1);
        assert(bytes(trimmed_start(decode_utf8(lb))).len() >= to - k);
        assert(space(b[k]) == false);
    }
}

/// White space in front is trimmed, and then what follows.
proof fn lemma_trimmed_front_white(u: Seq<char>, v: Seq<char>)
    requires
        forall|j: int| 0 <= j < u.len() ==> white_space(#[trigger] u[j]),
    ensures
        bytes(trimmed_start(u + v)).len() <= bytes(v).len(),
    decreases u.len(),
{
    if u.len() > 0 {
        assert((u + v)[0] == u[0]);
        assert(white_space(u[0]));
        assert((u + v).drop_first() =~= u.drop_first() + v);
        lemma_trimmed_front_white(u.drop_first(), v);
    } else {
        assert(u + v =~= v);
        lemma_trimmed_no_longer(v);
    }
}

proof fn lemma_trimmed_no_longer(v: Seq<char>)
    ensures
        bytes(trimmed_start(v)).len() <= bytes(v).len(),
    decreases v.len(),
{
    if v.len() > 0 && white_space(v[0]) {
        lemma_trimmed_no_longer(v.drop_first());
        lemma_bytes_concat(seq![v[0]], v.drop_first());
        assert(seq![v[0]] + v.drop_first() =~= v);
    }
}

proof fn lemma_trimmed_front_word(u: Seq<char>, c: char, v: Seq<char>)
    requires
        !white_space(c),
    ensures
        trimmed_start(u + seq![c] + v).len() >= 1 + v.len(),
    decreases u.len(),
{
    let s = u + seq![c] + v;
    if u.len() > 0 {
        assert(s[0] == u[0]);
        assert(s.drop_first() =~= u.drop_first() + seq![c] + v);
        if white_space(s[0]) {
            lemma_trimmed_front_word(u.drop_first(), c, v);
        }
    } else {
        assert(s[0] == c);
    }
}

/// What is left starts no later than the word does.
proof fn lemma_trimmed_length(u: Seq<char>, c: char, v: Seq<char>) -> (w: Seq<char>)
    requires
        !white_space(c),
    ensures
        trimmed_start(u + seq![c] + v) == w + seq![c] + v,
        bytes(trimmed_start(u + seq![c] + v)).len() >= bytes(seq![c] + v).len(),
    decreases u.len(),
{
    let s = u + seq![c] + v;
    if u.len() > 0 && white_space(u[0]) {
        assert(s[0] == u[0]);
        assert(s.drop_first() =~= u.drop_first() + seq![c] + v);
        lemma_trimmed_length(u.drop_first(), c, v)
    } else {
        if u.len() > 0 {
            assert(s[0] == u[0]);
        } else {
            assert(s[0] == c);
        }
        lemma_bytes_concat(u, seq![c] + v);
        assert(s =~= u + (seq![c] + v));
        u
    }
}

/// ⇥ in the middle of a line puts two spaces at the caret and nothing else.
pub proof fn law_tab_puts_in_two_spaces(s: State, ls: Seq<Seq<u8>>, now: u64)
    requires
        well_placed(s),
        editing(s),
        s.marked is None,
        s.start == s.end,
        !in_indent(s),
    ensures
        ({
            let t = tabbed(s, ls, now);
            &&& t.text == put_between(s.text, s.end, s.end, seq![SPACE, SPACE])
            &&& t.start == s.end + 2 && t.end == s.end + 2
        }),
{
    reveal_strlit("  ");
    is_ascii_chars_encode_utf8("  "@);
    assert(bytes("  "@) =~= seq![SPACE, SPACE]);
    law_typing_replaces_the_selection(s, "  "@, now);
}

/// ⇥ on a selection, or in a line's indentation, rewrites the lines.
pub proof fn law_tab_rewrites_the_lines(s: State, ls: Seq<Seq<u8>>, now: u64)
    requires
        well_placed(s),
        editing(s),
        s.start < s.end || s.start == s.end && in_indent(s),
        ls.len() > 0,
        valid_utf8(lined(ls)),
    ensures
        ({
            let (from, to) = touched_range(s);
            tabbed(s, ls, now).text == put_between(s.text, from, to, lined(ls))
        }),
{
    law_rewriting_writes_the_lines_anew(s, ls, now);
}

/// ⌃O puts a newline in place of the selection and leaves the caret before it.
pub proof fn law_opening_a_line_leaves_the_caret_before_it(s: State, now: u64)
    requires
        well_placed(s),
        editing(s),
        s.marked is None,
        s.start <= s.end,
    ensures
        ({
            let t = line_opened(s, now);
            &&& t.text == put_between(s.text, s.start, s.end, seq![NEWLINE])
            &&& t.start == s.start && t.end == s.start
        }),
{
    lemma_newline_valid();
    law_typing_replaces_the_selection(s, "\n"@, now);
    let after = put_between(s.text, s.start, s.end, seq![NEWLINE]);
    lemma_replaced_boundaries(s.text, s.start, s.end, seq![NEWLINE]);
    assert(replaced(s.text, s.start, s.end, seq![NEWLINE]) =~= after);
    crate::app::find::lemma_replaced_valid(s.text, s.start, s.end, seq![NEWLINE]);
    assert(boundary(after, s.start));
    lemma_floor_ceil(after, s.start);
}

/// ⌃T puts what it is given in place of the bytes it is given of the caret's line, and
/// nothing else; a selection is left alone.
pub proof fn law_transposing_writes_over_its_range(
    s: State,
    from: int,
    to: int,
    swapped: Seq<char>,
    now: u64,
)
    requires
        well_placed(s),
        editing(s),
        s.start <= s.end,
        ({
            let at = line_start(s.text, line_of(s.text, caret(s)));
            &&& 0 <= from <= to
            &&& at + to <= s.text.len()
            &&& boundary(s.text, at + from)
            &&& boundary(s.text, at + to)
        }),
    ensures
        ({
            let at = line_start(s.text, line_of(s.text, caret(s)));
            let t = transposed(s, (from, to), swapped, now);
            &&& s.start < s.end ==> t == s
            &&& s.start == s.end ==> t.text == put_between(s.text, at + from, at + to, bytes(swapped))
        }),
{
    if s.start == s.end {
        let at = line_start(s.text, line_of(s.text, caret(s)));
        lemma_line_of(s.text, caret(s));
        lemma_line(s.text, line_of(s.text, caret(s)));
        law_typing_replaces_its_range(
            s,
            (at + from) as usize,
            (at + to) as usize,
            swapped,
            now,
        );
    }
}

/// With the keyboard elsewhere, ⇥ and ⌃O leave the note as it is; in the find bar they do
/// nothing at all.
pub proof fn law_tab_and_open_line_elsewhere(s: State, ls: Seq<Seq<u8>>, now: u64)
    requires
        !editing(s),
    ensures
        tabbed(s, ls, now).text == s.text,
        line_opened(s, now).text == s.text,
        s.find.focused ==> tabbed(s, ls, now) == s && line_opened(s, now) == s,
{
}

} // verus!
