//! What pasting, dropping and importing write into the note.

use vstd::prelude::*;
use vstd::string::*;
use vstd::utf8::*;

use crate::app::clipboard::{
    clip_range, head_line, imported, importing, lemma_unified_run, pasted, pasted_edit, pasting, percented,
    stacked, unified,
};
use crate::app::effects::{editing, law_typing_replaces_the_selection, put_between, well_placed};
use crate::app::{ungrouped, State};
use crate::ascii::{NEWLINE, RETURN, SPACE};
use crate::lines::{lemma_line, lemma_line_of, line_count, line_end, line_of, line_start, lines};
use crate::note::divides;
use crate::text::{bytes, lemma_bytes_concat, lemma_string_ends, lemma_subrange_valid, trimmed, white_space};
use crate::web::{law_a_bare_url_is_one_word, link_text};

verus! {

broadcast use vstd::seq::group_seq_axioms;

/// A CR LF and a CR on its own each become one line feed; what comes before them stays as
/// it is.
pub proof fn law_line_ends_are_unified(x: Seq<u8>, y: Seq<u8>)
    requires
        !x.contains(RETURN),
    ensures
        unified(x, 0) == x,
        unified(x + seq![RETURN, NEWLINE] + y, 0) == x + seq![NEWLINE] + unified(y, 0),
        y.len() == 0 || y[0] != NEWLINE ==> unified(x + seq![RETURN] + y, 0) == x + seq![NEWLINE] + unified(
            y,
            0,
        ),
{
    let n = x.len() as int;
    assert forall|k: int| 0 <= k < n implies x[k] != RETURN by {
        assert(x.contains(x[k]));
    }
    lemma_unified_run(x, 0, n);
    assert(x.subrange(0, n) + unified(x, n) =~= x);
    let b = x + seq![RETURN, NEWLINE] + y;
    assert forall|k: int| 0 <= k < n implies b[k] != RETURN by {
        assert(b[k] == x[k]);
    }
    lemma_unified_run(b, 0, n);
    assert(b.subrange(0, n) =~= x);
    assert(b[n] == RETURN && b[n + 1] == NEWLINE);
    assert(b.subrange(n + 2, b.len() as int) =~= y);
    lemma_unified_tail(b, n + 2, 0);
    assert(x + (seq![NEWLINE] + unified(y, 0)) =~= x + seq![NEWLINE] + unified(y, 0));
    if y.len() == 0 || y[0] != NEWLINE {
        let c = x + seq![RETURN] + y;
        assert forall|k: int| 0 <= k < n implies c[k] != RETURN by {
            assert(c[k] == x[k]);
        }
        lemma_unified_run(c, 0, n);
        assert(c.subrange(0, n) =~= x);
        assert(c[n] == RETURN);
        if y.len() > 0 {
            assert(c[n + 1] == y[0]);
        }
        assert(c.subrange(n + 1, c.len() as int) =~= y);
        lemma_unified_tail(c, n + 1, 0);
    }
}

/// What comes of a tail does not depend on what is before it.
proof fn lemma_unified_tail(b: Seq<u8>, from: int, i: int)
    requires
        0 <= from <= b.len(),
        0 <= i,
        from + i <= b.len(),
    ensures
        unified(b, from + i) == unified(b.subrange(from, b.len() as int), i),
    decreases b.len() - i,
{
    let t = b.subrange(from, b.len() as int);
    if from + i < b.len() {
        assert(t[i] == b[from + i]);
        if b[from + i] == RETURN && from + i + 1 < b.len() {
            assert(t[i + 1] == b[from + i + 1]);
            if b[from + i + 1] == NEWLINE {
                lemma_unified_tail(b, from, i + 2);
            } else {
                lemma_unified_tail(b, from, i + 1);
            }
        } else {
            lemma_unified_tail(b, from, i + 1);
        }
    }
}

/// Text with no CR in it that is no url is pasted as it is, over the selection; so is
/// any such text where nothing is selected.
pub proof fn law_pasting_puts_the_text_in(s: State, text: Seq<char>, now: u64)
    requires
        well_placed(s),
        editing(s),
        s.marked is None,
        s.start <= s.end,
        !bytes(text).contains(RETURN),
        s.start == s.end || text.len() == 0 || (text[0] != 'h' && text[0] != 'm' && !white_space(
            text[0],
        ) && !white_space(text.last())),
    ensures
        ({
            let t = pasted(s, text, now);
            &&& t.text == put_between(s.text, s.start, s.end, bytes(text))
            &&& t.start == s.start + bytes(text).len()
            &&& t.end == t.start
            &&& !t.grouped
        }),
{
    law_line_ends_are_unified(bytes(text), Seq::empty());
    encode_utf8_decode_utf8(text);
    assert(decode_utf8(unified(bytes(text), 0)) == text);
    if s.start < s.end {
        if text.len() > 0 {
            law_a_bare_url_is_one_word(text, 0);
        } else {
            assert(trimmed(text) =~= text);
        }
    }
    assert(pasting(s, text) == text);
    law_typing_replaces_the_selection(ungrouped(s), text, now);
}

/// A url pasted over words makes them a link to it.
pub proof fn law_pasting_a_url_over_words_makes_a_link(s: State, url: Seq<char>, now: u64)
    requires
        well_placed(s),
        editing(s),
        s.marked is None,
        s.start < s.end,
        url.len() > 0,
        forall|i: int| 0 <= i < url.len() ==> !white_space(#[trigger] url[i]),
        "http://"@.is_prefix_of(url) || "https://"@.is_prefix_of(url) || "mailto:"@.is_prefix_of(url),
        ({
            let over = decode_utf8(s.text.subrange(s.start, s.end));
            &&& forall|i: int|
                0 <= i < over.len() ==> #[trigger] over[i] != '\n' && over[i] != '[' && over[i] != ']'
                    && over[i] != '(' && over[i] != ')'
            &&& over.len() > 0
            &&& !white_space(over[0])
            &&& !white_space(over.last())
            &&& over[0] != 'h'
            &&& over[0] != 'm'
        }),
    ensures
        ({
            let t = pasted(s, url, now);
            let over = s.text.subrange(s.start, s.end);
            t.text == put_between(
                s.text,
                s.start,
                s.end,
                seq![0x5bu8] + over + seq![0x5du8, 0x28u8] + bytes(url) + seq![0x29u8],
            )
        }),
{
    let b = bytes(url);
    lemma_no_returns(url);
    law_line_ends_are_unified(b, Seq::empty());
    encode_utf8_decode_utf8(url);
    let sel = s.text.subrange(s.start, s.end);
    let over = decode_utf8(sel);
    lemma_subrange_valid(s.text, s.start, s.end);
    decode_utf8_encode_utf8(sel);
    assert(white_space(url[0]) == false);
    assert(white_space(url[url.len() - 1]) == false);
    law_a_bare_url_is_one_word(url, 0);
    law_a_bare_url_is_one_word(over, 0);
    crate::markdown::blocks::lemma_nothing_trimmed(url);
    crate::markdown::blocks::lemma_nothing_trimmed(over);
    assert(!over.contains('\n'));
    assert(link_text(over));
    let p = "["@ + over + "]("@ + url + ")"@;
    assert(pasting(s, url) == p);
    reveal_strlit("[");
    reveal_strlit("](");
    reveal_strlit(")");
    is_ascii_chars_encode_utf8("["@);
    is_ascii_chars_encode_utf8("]("@);
    is_ascii_chars_encode_utf8(")"@);
    assert(bytes("["@) =~= seq![0x5bu8]);
    assert(bytes("]("@) =~= seq![0x5du8, 0x28u8]);
    assert(bytes(")"@) =~= seq![0x29u8]);
    lemma_bytes_concat("["@, over);
    lemma_bytes_concat("["@ + over, "]("@);
    lemma_bytes_concat("["@ + over + "]("@, url);
    lemma_bytes_concat("["@ + over + "]("@ + url, ")"@);
    law_typing_replaces_the_selection(ungrouped(s), p, now);
}

/// A CR is white space, and no part of another character.
proof fn lemma_no_returns(u: Seq<char>)
    requires
        forall|i: int| 0 <= i < u.len() ==> !white_space(#[trigger] u[i]),
    ensures
        !bytes(u).contains(RETURN),
    decreases u.len(),
{
    if u.len() > 0 {
        let c = u[0];
        let rest = u.drop_first();
        assert forall|i: int| 0 <= i < rest.len() implies !white_space(#[trigger] rest[i]) by {
            assert(rest[i] == u[i + 1]);
        }
        lemma_no_returns(rest);
        lemma_bytes_concat(seq![c], rest);
        assert(seq![c] + rest =~= u);
        let x = bytes(seq![c]);
        if x.contains(RETURN) {
            let k = choose|k: int| 0 <= k < x.len() && x[k] == RETURN;
            lemma_string_ends(seq![c]);
            encode_utf8_decode_utf8(seq![c]);
            let (y, z) = crate::markdown::blocks::lemma_apart_at(x, k);
            assert(y + seq![RETURN as char] + z == seq![c]);
            assert((y + seq![RETURN as char] + z)[y.len() as int] == RETURN as char);
            assert(y.len() == 0);
            assert(c == RETURN as char);
            assert(white_space(u[0]));
        }
        let all = bytes(u);
        if all.contains(RETURN) {
            let k = choose|k: int| 0 <= k < all.len() && all[k] == RETURN;
            if k < x.len() {
                assert(x[k] == RETURN);
            } else {
                assert(bytes(rest)[k - x.len()] == RETURN);
            }
        }
    } else {
        assert(bytes(u) =~= Seq::empty());
    }
}

/// The first line ends at the first newline, or with the text.
proof fn lemma_first_line(b: Seq<u8>, n: int)
    requires
        0 <= n <= b.len(),
        n < b.len() ==> b[n] == NEWLINE,
        forall|k: int| 0 <= k < n ==> b[k] != NEWLINE,
    ensures
        line_end(b, 0) == n,
{
    crate::lines::lemma_line_starts(b);
    lemma_line(b, 0);
    let e = line_end(b, 0);
    if e < n {
        assert(b[e] == NEWLINE);
    }
    if n < e {
        assert(b[n] != NEWLINE);
    }
}

/// Each piece is written with a newline behind it, one after the other.
pub proof fn law_pieces_are_stacked(a: Seq<String>, p: String, b: Seq<String>)
    ensures
        stacked(Seq::empty()).len() == 0,
        stacked(seq![p]) == p@.push('\n'),
        stacked(a + b) == stacked(a) + stacked(b),
    decreases b.len(),
{
    reveal_strlit("\n");
    let one = seq![p];
    assert(one.drop_last() =~= Seq::empty());
    assert(stacked(one.drop_last()) =~= Seq::empty());
    assert(stacked(one) =~= p@.push('\n'));
    if b.len() == 0 {
        assert(a + b =~= a);
        assert(stacked(a) + stacked(b) =~= stacked(a));
    } else {
        assert((a + b).drop_last() =~= a + b.drop_last());
        assert((a + b).last() == b.last());
        law_pieces_are_stacked(a, p, b.drop_last());
        assert(stacked(a + b) =~= stacked(a) + stacked(b));
    }
}

/// What could be imported is written in the order it came in, and nothing else.
pub proof fn law_what_could_be_imported(a: Seq<Option<String>>, r: String, b: Seq<Option<String>>)
    ensures
        imported(Seq::empty()).len() == 0,
        imported(seq![Some(r)]) == seq![r],
        imported(seq![None]).len() == 0,
        imported(a + b) == imported(a) + imported(b),
    decreases b.len(),
{
    let one = seq![Some(r)];
    assert(one.drop_last() =~= Seq::empty());
    assert(imported(one.drop_last()) =~= Seq::empty());
    assert(imported(one) =~= seq![r]);
    let none: Seq<Option<String>> = seq![None];
    assert(none.drop_last() =~= Seq::empty());
    assert(imported(none.drop_last()) =~= Seq::empty());
    if b.len() == 0 {
        assert(a + b =~= a);
        assert(imported(a) + imported(b) =~= imported(a));
    } else {
        assert((a + b).drop_last() =~= a + b.drop_last());
        assert((a + b).last() == b.last());
        law_what_could_be_imported(a, r, b.drop_last());
        assert(imported(a + b) =~= imported(a) + imported(b));
    }
}

/// An image's reference has its line to itself: where the caret is in the middle of one,
/// a newline goes first.
pub proof fn law_an_image_has_its_own_line(s: State, results: Seq<Option<String>>)
    requires
        well_placed(s),
        s.marked is None,
    ensures
        s.start == 0 || s.text[s.start - 1] == NEWLINE ==> importing(s, results) == stacked(
            imported(results),
        ),
        s.start > 0 && s.text[s.start - 1] != NEWLINE ==> importing(s, results) == seq!['\n'] + stacked(
            imported(results),
        ),
{
    reveal_strlit("\n");
    assert("\n"@ =~= seq!['\n']);
}

/// With nothing selected ⌘C takes the caret's line unless that divides notes, or is
/// empty at the end of the document.
pub proof fn law_a_line_is_taken_unless_it_is_a_rule(s: State)
    requires
        well_placed(s),
        s.start == s.end,
    ensures
        ({
            let l = line_of(s.text, s.end);
            clip_range(s) is None <==> divides(s.text, l) || (line_start(s.text, l) == s.text.len())
        }),
{
    let l = line_of(s.text, s.end);
    lemma_line_of(s.text, s.end);
    lemma_line(s.text, l);
    crate::lines::lemma_line_starts(s.text);
    if l + 1 < line_count(s.text) {
        lemma_line(s.text, l + 1);
    }
}

/// A space is written `%20`, and everything else as it is.
pub proof fn law_spaces_are_escaped(x: Seq<u8>, y: Seq<u8>)
    requires
        !x.contains(SPACE),
    ensures
        percented(x, 0) == x,
        percented(x + seq![SPACE] + y, 0) == x + seq![0x25u8, 0x32u8, 0x30u8] + percented(y, 0),
{
    let n = x.len() as int;
    assert forall|k: int| 0 <= k < n implies x[k] != SPACE by {
        assert(x.contains(x[k]));
    }
    lemma_percented_front(x, 0, n);
    assert(x.subrange(0, n) + percented(x, n) =~= x);
    let b = x + seq![SPACE] + y;
    assert forall|k: int| 0 <= k < n implies b[k] != SPACE by {
        assert(b[k] == x[k]);
    }
    lemma_percented_front(b, 0, n);
    assert(b.subrange(0, n) =~= x);
    assert(b[n] == SPACE);
    reveal_strlit("%20");
    is_ascii_chars_encode_utf8("%20"@);
    assert(bytes("%20"@) =~= seq![0x25u8, 0x32u8, 0x30u8]);
    assert(b.subrange(n + 1, b.len() as int) =~= y);
    lemma_percented_tail(b, n + 1, 0);
    assert(x + (seq![0x25u8, 0x32u8, 0x30u8] + percented(y, 0)) =~= x + seq![0x25u8, 0x32u8, 0x30u8]
        + percented(y, 0));
}

proof fn lemma_percented_front(b: Seq<u8>, i: int, j: int)
    requires
        0 <= i <= j <= b.len(),
        forall|k: int| i <= k < j ==> b[k] != SPACE,
    ensures
        percented(b, i) == b.subrange(i, j) + percented(b, j),
    decreases j - i,
{
    if i < j {
        lemma_percented_front(b, i + 1, j);
        assert(seq![b[i]] + (b.subrange(i + 1, j) + percented(b, j)) =~= b.subrange(i, j)
            + percented(b, j));
    } else {
        assert(b.subrange(i, j) + percented(b, j) =~= percented(b, j));
    }
}

proof fn lemma_percented_tail(b: Seq<u8>, from: int, i: int)
    requires
        0 <= from <= b.len(),
        0 <= i,
        from + i <= b.len(),
    ensures
        percented(b, from + i) == percented(b.subrange(from, b.len() as int), i),
    decreases b.len() - i,
{
    let t = b.subrange(from, b.len() as int);
    if from + i < b.len() {
        assert(t[i] == b[from + i]);
        lemma_percented_tail(b, from, i + 1);
    }
}

/// The first line of a text ends before its first line break, of either kind; a text without
/// one is a line itself.
pub proof fn law_a_query_is_one_line(a: Seq<u8>, rest: Seq<u8>)
    requires
        forall|k: int| 0 <= k < a.len() ==> #[trigger] a[k] != NEWLINE,
    ensures
        head_line(a) == a,
        a.len() == 0 || a.last() != RETURN ==> head_line(a + seq![NEWLINE] + rest) == a,
        head_line(a + seq![RETURN, NEWLINE] + rest) == a,
{
    let n = a.len() as int;
    lemma_first_line(a, n);
    assert(head_line(a) =~= a);
    let x = a + seq![NEWLINE] + rest;
    assert forall|k: int| 0 <= k < n implies #[trigger] x[k] != NEWLINE by {
        assert(x[k] == a[k]);
    }
    assert(x[n] == NEWLINE);
    lemma_first_line(x, n);
    if n > 0 {
        assert(x[n - 1] == a.last());
    }
    assert(x.subrange(0, n) =~= a);
    let y = a + seq![RETURN, NEWLINE] + rest;
    assert forall|k: int| 0 <= k < n + 1 implies #[trigger] y[k] != NEWLINE by {
        if k < n {
            assert(y[k] == a[k]);
        } else {
            assert(y[k] == RETURN);
        }
    }
    assert(y[n] == RETURN && y[n + 1] == NEWLINE);
    lemma_first_line(y, n + 1);
    assert(y.subrange(0, n) =~= a);
}

/// What is pasted with the keyboard in the find bar goes to the query: a first line that is
/// not empty is searched for, and the note stays as it is.
pub proof fn law_pasting_into_the_find_bar(s: State, text: Seq<char>, a: Seq<u8>, rest: Seq<u8>, now: u64)
    requires
        s.find.focused,
        s.panels.palette is None,
        !s.panels.settings_open,
        !s.panels.backups_open,
        bytes(text) == a + seq![NEWLINE] + rest,
        forall|k: int| 0 <= k < a.len() ==> #[trigger] a[k] != NEWLINE,
        a.len() > 0 ==> a.last() != RETURN,
    ensures
        ({
            let t = pasted(s, text, now);
            &&& t.text == s.text && t.start == s.start && t.end == s.end && t.saving == s.saving
            &&& pasted_edit(s, text) is None
            &&& a.len() > 0 ==> t.find.search_pending
            &&& a.len() == 0 ==> t.find == s.find
        }),
{
    law_a_query_is_one_line(a, rest);
}

} // verus!
