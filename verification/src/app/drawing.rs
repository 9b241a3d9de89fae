//! What decides how a line is drawn, said of the text.

use vstd::prelude::*;
use vstd::utf8::*;

use crate::app::mouse::{press_opens, Press};
use crate::app::rows::{
    caret_in, chips_of, heading_level, hit_wash, in_indented_code, link_under, row_facts, row_text, run_opens,
    selected_part, shown_len, standing, Chip, Ink, Row, Stand, Wash,
};
use crate::app::{caret, State};
use crate::ascii::{CLOSE_BRACKET, CLOSE_PAREN, EQUALS, GREATER, HASH, OPEN_BRACKET, OPEN_PAREN, SPACE};
use crate::fences::{fence_flags, open_before};
use crate::lines::{
    lemma_line, lemma_line_of, lemma_line_starts, line, line_count, line_end, line_of, line_start, line_starts,
};
use crate::markdown::addresses::law_a_link_opens_its_address;
use crate::markdown::carry::blank;
use crate::markdown::links::target;
use crate::markdown::probes::{
    law_a_quote_is_as_deep_as_its_sigils, law_equals_signs_underline, law_four_columns_make_code, law_words_take_an_underline,
    prose_words,
};
use crate::markdown::scan::lemma_run_is;
use crate::markdown::shapes::{law_heading, law_plain_words, lemma_ascii_valid, plain, times, words};
use crate::markdown::{fence, indent_width, indented_code, lead, line_spans, sigils, MdStyle, Span};
use crate::note::divides;
use crate::text::trimmed;

verus! {

broadcast use vstd::seq::group_seq_axioms;

/// A line of ASCII that starts at the margin is no code by its indentation.
proof fn lemma_at_the_margin(b: Seq<u8>, l: int)
    requires
        l < line_count(b),
        ({
            let t = line(b, l);
            &&& t.len() > 0
            &&& t[0] != SPACE
            &&& t[0] != 0x09
            &&& valid_utf8(t)
        }),
    ensures
        !in_indented_code(b, l),
{
    let t = line(b, l);
    decode_utf8_encode_utf8(t);
    assert(indent_width(t, 0) == 0);
}

/// Every line from a fence on is code until the next, and stands on its surface; words at
/// the margin outside every fence are not, and neither stand on one.
pub proof fn law_code_is_what_is_fenced(b: Seq<u8>, l: int)
    requires
        0 <= l < line_count(b),
        prose_words(line(b, l)),
    ensures
        row_facts(b, l).code == open_before(fence_flags(b), l),
        row_facts(b, l).band == open_before(fence_flags(b), l),
        row_facts(b, l).nesting == 0,
{
    let t = line(b, l);
    assert forall|k: int| 0 <= k < t.len() implies (#[trigger] t[k]) < 128 by {
        assert(plain(t[k]));
    }
    lemma_ascii_valid(t);
    assert(plain(t[0]));
    lemma_at_the_margin(b, l);
    lemma_run_is(t, 0, 0, SPACE);
    assert(lead(t) == 0);
    assert(!fence(t));
    assert(sigils(t, 0) == 0);
}

/// Words four columns in, below a blank line or at the top, are code; below words at the
/// margin they are not.
pub proof fn law_indented_code_follows_a_blank_line(b: Seq<u8>, l: int, k: nat, t: Seq<u8>)
    requires
        0 <= l < line_count(b),
        line(b, l) == times(SPACE, k) + t,
        prose_words(t),
    ensures
        k >= 4 && (l == 0 || blank(line(b, l - 1))) ==> row_facts(b, l).code,
        k < 4 ==> row_facts(b, l).code == open_before(fence_flags(b), l),
        l > 0 && prose_words(line(b, l - 1)) ==> row_facts(b, l).code == open_before(
            fence_flags(b),
            l,
        ),
{
    law_four_columns_make_code(k, t);
    if l > 0 && prose_words(line(b, l - 1)) {
        let p = line(b, l - 1);
        law_four_columns_make_code(0, p);
        assert(times(SPACE, 0) + p =~= p);
        lemma_words_not_blank(p);
        reveal_with_fuel(crate::app::rows::run_opens, 2);
        assert(!crate::app::rows::run_opens(b, l, crate::app::rows::MAX_RUN as int));
    }
}

/// Words are not blank.
proof fn lemma_words_not_blank(p: Seq<u8>)
    requires
        words(p),
    ensures
        !blank(p),
{
    assert forall|k: int| 0 <= k < p.len() implies (#[trigger] p[k]) < 128 by {
        assert(plain(p[k]));
    }
    lemma_ascii_valid(p);
    let (x, y) = crate::markdown::blocks::lemma_apart_at(p, 0);
    let (f, g) = crate::markdown::blocks::lemma_trimmed_keeps(x, p[0] as char, y);
    assert(trimmed(decode_utf8(p)).len() > 0);
}

/// A line of one to six `#`, a space and words is a heading of that level, and words over a
/// run of equals signs are one of the first; the signs themselves are their underline.
pub proof fn law_headings_have_their_level(b: Seq<u8>, l: int, k: nat, t: Seq<u8>)
    requires
        0 <= l < line_count(b),
        1 <= k <= 6,
        words(t),
        line(b, l) == times(HASH, k) + seq![SPACE] + t,
        !open_before(fence_flags(b), l),
    ensures
        row_facts(b, l).heading == Some(k as u8),
        !row_facts(b, l).code,
        !row_facts(b, l).band,
        !row_facts(b, l).underlines,
{
    let raw = line(b, l);
    let w = (k + 1) as int;
    assert(raw[0] == HASH);
    assert forall|j: int| 0 <= j < raw.len() implies (#[trigger] raw[j]) < 128 by {
        if j >= w {
            assert(raw[j] == t[j - w]);
            assert(plain(t[j - w]));
        }
    }
    lemma_ascii_valid(raw);
    lemma_at_the_margin(b, l);
    law_heading(k, t);
    lemma_run_is(raw, 0, 0, SPACE);
    assert(lead(raw) == 0);
    assert(!fence(raw));
    assert(row_text(b, l) =~= raw);
    assert(heading_level(line_spans(raw, false), 0) == Some(k as u8));
    assert(crate::markdown::white_end(raw, 0) == 0);
    assert(crate::markdown::scan::run(raw, 0, EQUALS) == 0);
}

/// Words over a run of equals signs are a heading of the first level, and the signs are
/// their underline; without it they are none.
pub proof fn law_an_underline_makes_a_heading(b: Seq<u8>, l: int, n: nat)
    requires
        0 <= l,
        l + 1 < line_count(b),
        prose_words(line(b, l)),
        !open_before(fence_flags(b), l),
        n >= 1,
    ensures
        line(b, l + 1) == times(EQUALS, n) ==> row_facts(b, l).heading == Some(1u8) && row_facts(
            b,
            l + 1,
        ).underlines,
        words(line(b, l + 1)) ==> row_facts(b, l).heading is None && !row_facts(b, l + 1).underlines,
{
    let t = line(b, l);
    let u = line(b, l + 1);
    law_code_is_what_is_fenced(b, l);
    law_plain_words(t);
    assert(row_text(b, l) =~= t);
    assert(row_text(b, l + 1) =~= u);
    assert(heading_level(line_spans(t, false), 1) is None);
    assert(heading_level(line_spans(t, false), 0) is None);
    law_words_take_an_underline(t, Seq::empty(), seq![crate::ascii::DASH]);
    law_equals_signs_underline(0, n, 0, t);
    assert(times(SPACE, 0) + times(EQUALS, n) + times(SPACE, 0) =~= times(EQUALS, n));
    if u == times(EQUALS, n) {
        assert(u[0] == EQUALS);
        assert forall|j: int| 0 <= j < u.len() implies (#[trigger] u[j]) < 128 by {}
        lemma_ascii_valid(u);
        lemma_at_the_margin(b, l + 1);
        lemma_run_is(u, 0, 0, SPACE);
        assert(lead(u) == 0);
        assert(!fence(u));
        assert(fence_flags(b)[l] == fence(t));
        assert(open_before(fence_flags(b), l + 1) == open_before(fence_flags(b), l));
    }
    if words(u) {
        law_equals_signs_underline(0, 1, 0, u);
    }
}

/// A line follows text where the one above it has words, and not below a blank line.
pub proof fn law_what_follows_text(b: Seq<u8>, l: int)
    requires
        0 < l < line_count(b),
    ensures
        prose_words(line(b, l - 1)) ==> row_facts(b, l).follows_text,
        blank(line(b, l - 1)) ==> !row_facts(b, l).follows_text,
        !row_facts(b, 0).follows_text,
        row_facts(b, l).rule == divides(b, l),
        !row_facts(b, l).placeholder,
{
    let p = line(b, l - 1);
    if prose_words(p) {
        lemma_words_not_blank(p);
        assert forall|k: int| 0 <= k < p.len() implies (#[trigger] p[k]) < 128 by {
            assert(plain(p[k]));
        }
        lemma_ascii_valid(p);
        crate::markdown::blocks::lemma_not_a_rule(p, 0);
    }
}

/// Each sigil more in front of a quote nests it one level deeper; the first one does
/// not nest it, and in code there is no quote.
pub proof fn law_each_sigil_nests_a_quote(b: Seq<u8>, l: int, c: Seq<u8>, k: int)
    requires
        row_text(b, l) == seq![GREATER] + row_text(c, k),
        !row_facts(b, l).band,
        !row_facts(c, k).band,
    ensures
        ({
            let t = row_text(c, k);
            &&& t.len() > 0 && t[0] == GREATER ==> row_facts(b, l).nesting == row_facts(c, k).nesting + 1
            &&& t.len() == 0 || (t[0] != GREATER && t[0] != SPACE && t[0] != 0x09) ==> row_facts(
                b,
                l,
            ).nesting == 0
        }),
{
    let t = row_text(c, k);
    law_a_quote_is_as_deep_as_its_sigils(t, t);
    if t.len() > 0 && t[0] == GREATER {
        let u = t.subrange(1, t.len() as int);
        assert(t =~= seq![GREATER] + u);
        law_a_quote_is_as_deep_as_its_sigils(u, u);
    }
}

/// No quote is nested on the surface of code, and nothing there underlines a heading.
pub proof fn law_code_nests_no_quote(b: Seq<u8>, l: int)
    requires
        row_facts(b, l).band,
    ensures
        row_facts(b, l).nesting == 0,
        !row_facts(b, l).underlines,
{
}

/// The invitation stands in an empty document and nowhere else; an empty row is drawn as a
/// space, and every other as its own text.
pub proof fn law_what_stands_for_a_row(placeholder: bool, len: int)
    requires
        0 <= len,
    ensures
        standing(placeholder, len) == Stand::Invitation <==> placeholder,
        standing(placeholder, len) == Stand::Space <==> !placeholder && len == 0,
        standing(placeholder, len) == Stand::Text <==> !placeholder && len > 0,
        shown_len(Stand::Text, len) == len,
        shown_len(Stand::Space, len) == 1,
{
}

/// A byte of a row is drawn selected exactly where the selection covers it.
pub proof fn law_what_is_selected_is_drawn_so(s: State, from: int, to: int, p: int)
    requires
        0 <= s.start <= s.end,
        0 <= from <= p < to,
    ensures
        ({
            let (low, high) = selected_part(s, from, to, to - from);
            low <= p - from < high <==> s.start <= p < s.end
        }),
{
}

/// A selection that goes on past an empty row shows on it.
pub proof fn law_a_selected_empty_row_shows(s: State, at: int)
    requires
        0 <= s.start <= s.end,
        0 <= at,
    ensures
        ({
            let (low, high) = selected_part(s, at, at, 1);
            low < high <==> s.start <= at < s.end
        }),
{
}

/// A byte of a row is washed by a hit exactly where the hit covers it, and apart from the
/// others where it is the current one.
pub proof fn law_what_is_found_is_drawn_so(
    hit: (usize, usize),
    current: Option<(usize, usize)>,
    from: int,
    to: int,
    p: int,
)
    requires
        hit.0 <= hit.1,
        0 <= from <= p < to,
    ensures
        ({
            let (low, high, wash) = hit_wash(hit, current, from, to);
            &&& low <= p - from < high <==> hit.0 <= p < hit.1
            &&& 0 <= low <= high <= to - from
            &&& wash == Wash::Current <==> current == Some(hit)
            &&& wash != Wash::Selection
        }),
{
}

/// Whether `c` is the surface of one of the first `n` spans that are code or highlighted and
/// end within what is drawn.
pub open spec fn surface_of(spans: Seq<Span>, shown: int, n: int, c: (usize, usize, Chip)) -> bool {
    exists|i: int|
        0 <= i < n && c.0 == (#[trigger] spans[i]).start && c.1 == spans[i].end && spans[i].end <= shown
            && (if c.2 == Chip::Code {
            spans[i].style == MdStyle::Code
        } else {
            spans[i].style == MdStyle::Highlight
        })
}

/// Code and highlighted text stand on a surface, each where it is drawn, and nothing else
/// does.
pub proof fn law_code_and_highlights_have_a_surface(spans: Seq<Span>, shown: int, n: int)
    requires
        0 <= n <= spans.len(),
    ensures
        ({
            let chips = chips_of(spans, shown, n);
            &&& forall|k: int|
                0 <= k < chips.len() ==> surface_of(spans, shown, n, #[trigger] chips[k])
            &&& forall|i: int|
                0 <= i < n && (#[trigger] spans[i]).end <= shown && spans[i].style == MdStyle::Code
                    ==> chips.contains((spans[i].start, spans[i].end, Chip::Code))
            &&& forall|i: int|
                0 <= i < n && (#[trigger] spans[i]).end <= shown && spans[i].style
                    == MdStyle::Highlight ==> chips.contains(
                    (spans[i].start, spans[i].end, Chip::Highlight),
                )
        }),
    decreases n,
{
    if n > 0 {
        law_code_and_highlights_have_a_surface(spans, shown, n - 1);
        let before = chips_of(spans, shown, n - 1);
        let chips = chips_of(spans, shown, n);
        let s = spans[n - 1];
        assert forall|k: int| 0 <= k < chips.len() implies surface_of(
            spans,
            shown,
            n,
            #[trigger] chips[k],
        ) by {
            if k < before.len() {
                assert(chips[k] == before[k]);
                assert(surface_of(spans, shown, n - 1, before[k]));
            } else {
                assert(spans[n - 1] == s);
            }
        }
        assert forall|i: int|
            0 <= i < n && (#[trigger] spans[i]).end <= shown && spans[i].style == MdStyle::Code implies chips.contains(
        (spans[i].start, spans[i].end, Chip::Code)) by {
            let c = (spans[i].start, spans[i].end, Chip::Code);
            if i < n - 1 {
                assert(before.contains(c));
                let k = choose|k: int| 0 <= k < before.len() && before[k] == c;
                assert(chips[k] == c);
            } else {
                assert(chips[chips.len() - 1] == c);
            }
        }
        assert forall|i: int|
            0 <= i < n && (#[trigger] spans[i]).end <= shown && spans[i].style == MdStyle::Highlight implies chips.contains(
        (spans[i].start, spans[i].end, Chip::Highlight)) by {
            let c = (spans[i].start, spans[i].end, Chip::Highlight);
            if i < n - 1 {
                assert(before.contains(c));
                let k = choose|k: int| 0 <= k < before.len() && before[k] == c;
                assert(chips[k] == c);
            } else {
                assert(chips[chips.len() - 1] == c);
            }
        }
    }
}

/// In code no link opens; elsewhere the one of the line does.
pub proof fn law_no_link_opens_in_code(s: State, offset: int)
    ensures
        ({
            let l = crate::lines::line_of(s.text, offset);
            &&& row_facts(s.text, l).code ==> link_under(s, offset) is None
            &&& !row_facts(s.text, l).code ==> link_under(s, offset) == target(
                line(s.text, l),
                offset - line_start(s.text, l),
            )
        }),
{
}

/// A line that is a link opens its address where it is pressed with ⌘ held, outside every
/// fence; without ⌘ a press opens nothing.
pub proof fn law_a_press_opens_links_with_command(s: State, p: Press, t: Seq<u8>, u: Seq<u8>)
    requires
        p.at <= s.text.len(),
        words(t),
        u.len() > 0,
        forall|j: int| 0 <= j < u.len() ==> 0x21 <= #[trigger] u[j] < 0x7f && u[j] != CLOSE_PAREN,
    ensures
        !p.platform ==> press_opens(s, p) is None,
        ({
            let l = line_of(s.text, p.at as int);
            p.platform && line(s.text, l) == seq![OPEN_BRACKET] + t + seq![CLOSE_BRACKET, OPEN_PAREN] + u
                + seq![CLOSE_PAREN] && !open_before(fence_flags(s.text), l) && p.at < line_end(s.text, l)
                ==> press_opens(s, p) == Some(u)
        }),
{
    let b = s.text;
    let l = line_of(b, p.at as int);
    lemma_line_of(b, p.at as int);
    lemma_line(b, l);
    let d = seq![OPEN_BRACKET] + t + seq![CLOSE_BRACKET, OPEN_PAREN] + u + seq![CLOSE_PAREN];
    if line(b, l) == d && p.at < line_end(b, l) {
        assert forall|k: int| 0 <= k < d.len() implies (#[trigger] d[k]) < 128 by {
            if 1 <= k < 1 + t.len() {
                assert(plain(t[k - 1]));
            } else if 3 + t.len() <= k < d.len() - 1 {
                assert(u[k - 3 - t.len()] < 0x7f);
            }
        }
        lemma_ascii_valid(d);
        assert(d[0] == OPEN_BRACKET);
        lemma_at_the_margin(b, l);
        law_a_link_opens_its_address(t, u, p.at - line_start(b, l));
    }
}

/// With nothing selected the caret stands in one row and no other; with a selection it
/// stands in none.
pub proof fn law_the_caret_stands_in_one_row(s: State, l: int)
    requires
        0 <= l < line_count(s.text),
        0 <= caret(s) <= s.text.len(),
    ensures
        s.start == s.end ==> (caret_in(s, line_start(s.text, l), line_end(s.text, l)) <==> l == line_of(
            s.text,
            s.end,
        )),
        s.start < s.end ==> !caret_in(s, line_start(s.text, l), line_end(s.text, l)),
{
    let b = s.text;
    lemma_line_of(b, caret(s));
    lemma_line(b, l);
    lemma_line_starts(b);
    let at = line_of(b, caret(s));
    lemma_line(b, at);
    if l < at {
        assert(line_starts(b)[l + 1] <= caret(s));
    }
    if l > at {
        assert(line_starts(b)[l] > caret(s));
    }
}

/// The caret is drawn in the row it stands in, at its own byte, while it is lit and the note
/// has the keyboard; in no other row, and not beside a selection.
pub proof fn law_where_the_caret_is_drawn(r: Row, s: State, l: int, picture: bool, resizing: bool, blink: bool)
    requires
        r.describes(s, l, picture, resizing, blink),
        0 <= l < line_count(s.text),
        0 <= caret(s) <= s.text.len(),
        s.start <= s.end,
    ensures
        r.caret is Some <==> blink && !s.find.focused && s.start == s.end && l == line_of(s.text, s.end),
        r.caret matches Some(at) ==> s.end == line_start(s.text, l) + at,
{
    let b = s.text;
    let (from, to) = (line_start(b, l), line_end(b, l));
    lemma_line(b, l);
    law_the_caret_stands_in_one_row(s, l);
    if r.caret is Some {
        let stand = standing(row_facts(b, l).placeholder, to - from);
        if stand == Stand::Invitation {
            assert(from == 0 && to == 0);
            assert(shown_len(stand, 0) >= 0);
        }
    }
}

/// A picture stands in place of its text, unless the caret is in its row and it is not being
/// resized: then its reference is shown too. In code there are no pictures. What is hidden
/// so, and a rule, has no ink and no styles, but a picture that a selection covers is picked.
pub proof fn law_a_picture_shows_its_reference_to_the_caret(
    r: Row,
    s: State,
    l: int,
    picture: bool,
    resizing: bool,
    blink: bool,
)
    requires
        r.describes(s, l, picture, resizing, blink),
        0 <= l < line_count(s.text),
        0 <= caret(s) <= s.text.len(),
        s.start <= s.end,
    ensures
        ({
            let here = s.start == s.end && l == line_of(s.text, s.end);
            let covered = s.start < s.end && s.start <= r.from && r.to <= s.end;
            &&& picture && !r.band && here && !resizing ==> r.reveal && !r.hidden
            &&& picture && !r.band && (!here || resizing) ==> r.hidden && !r.reveal
            &&& !picture || r.band ==> !r.hidden && !r.reveal && !r.picked
            &&& picture && !r.band ==> (r.picked <==> covered)
            &&& r.hidden ==> !r.spans_shown && !r.selection_shown
            &&& !r.hidden ==> (r.selection_shown <==> !s.find.focused)
            &&& r.rule ==> !r.spans_shown && r.ink != Ink::Plain
            &&& r.ink == Ink::Plain ==> r.spans_shown
            &&& r.spans_shown ==> r.ink == Ink::Plain || r.ink == Ink::Placeholder
            &&& r.ink == Ink::Placeholder ==> s.text.len() == 0
            &&& r.hidden && s.text.len() > 0 && !row_facts(s.text, l).underlines ==> r.ink == Ink::Hidden
            &&& row_facts(s.text, l).underlines ==> r.ink == Ink::Marker && !r.spans_shown
        }),
{
    law_the_caret_stands_in_one_row(s, l);
}

/// A row reaches from where its line starts to where that ends, and is told apart as its line
/// is.
pub proof fn law_a_row_is_its_line(r: Row, s: State, l: int, picture: bool, resizing: bool, blink: bool)
    requires
        r.describes(s, l, picture, resizing, blink),
        0 <= l < line_count(s.text),
    ensures
        s.text.subrange(r.from as int, r.to as int) == line(s.text, l),
        r.rule <==> divides(s.text, l),
        r.code <==> row_facts(s.text, l).code,
        r.code ==> r.band,
        r.stand == Stand::Text <==> r.from < r.to,
        r.stand == Stand::Invitation <==> s.text.len() == 0,
        r.heading == row_facts(s.text, l).heading,
        r.follows_text == row_facts(s.text, l).follows_text,
        r.nesting == row_facts(s.text, l).nesting,
{
    lemma_line(s.text, l);
}

proof fn lemma_long_run(b: Seq<u8>, top: int, left: int)
    requires
        forall|k: int| top - left <= k < top && 0 <= k ==> #[trigger] indented_code(decode_utf8(line(b, k))),
    ensures
        run_opens(b, top, left),
    decreases left,
{
    if left > 0 && top > 0 {
        assert(indented_code(decode_utf8(line(b, top - 1))));
        lemma_long_run(b, top - 1, left - 1);
    }
}

/// A line at the end of two hundred indented ones is code whatever stands above those, and so
/// is one in a run that reaches up to the top.
pub proof fn law_a_long_indented_run_is_code(b: Seq<u8>, l: int)
    requires
        0 <= l < line_count(b),
        forall|k: int| l - 200 <= k <= l && 0 <= k ==> #[trigger] indented_code(decode_utf8(line(b, k))),
    ensures
        in_indented_code(b, l),
{
    assert(indented_code(decode_utf8(line(b, l))));
    lemma_long_run(b, l, 200);
}

} // verus!
