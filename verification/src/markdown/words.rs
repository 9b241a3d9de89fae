//! Words: what stands inside one is text.

use vstd::prelude::*;
use vstd::utf8::*;

use crate::ascii::{LOWER_H, UNDERSCORE};
use crate::markdown::inline::{emphasis, inline_spans, opens, text_span};
use crate::markdown::scan::{
    alnum_from, alnum_until, ascii_alphanumeric, autolink, closes, lemma_run, lemma_run_is, run,
};
use crate::markdown::{
    blanks_end, built, digits_end, fence, heading, lead, lemma_digits_end, line_spans, list, merged,
    quote, separator, MdStyle, Styled,
};
use crate::text::{
    bytes, lemma_ascii_boundary, lemma_bytes_concat, lemma_subrange_valid, trimmed, trimmed_end,
    trimmed_start, white_space,
};

verus! {

broadcast use vstd::seq::group_seq_axioms;

/// A byte that is an ASCII letter or digit.
pub open spec fn word_byte(c: u8) -> bool {
    c < 128 && ascii_alphanumeric(c as char)
}

/// Text that ends in an ASCII letter or digit ends in a letter or digit.
proof fn lemma_after_word_byte(b: Seq<u8>, i: int)
    requires
        valid_utf8(b),
        0 < i <= b.len(),
        word_byte(b[i - 1]),
    ensures
        alnum_until(b, i),
{
    let front = b.subrange(0, i - 1);
    let c = b[i - 1] as char;
    let s = decode_utf8(front);
    lemma_ascii_boundary(b, i - 1);
    if b.len() > 0 {
        crate::text::lemma_first_byte(b);
    }
    lemma_subrange_valid(b, 0, i - 1);
    decode_utf8_encode_utf8(front);
    is_ascii_chars_encode_utf8(seq![c]);
    lemma_bytes_concat(s, seq![c]);
    assert(bytes(seq![c]) =~= seq![b[i - 1]]);
    assert(bytes(s + seq![c]) =~= b.subrange(0, i));
    encode_utf8_decode_utf8(s + seq![c]);
    assert(decode_utf8(b.subrange(0, i)).last() == c);
}

/// No bare url starts right after a letter or a digit.
pub proof fn law_no_url_starts_inside_a_word(b: Seq<u8>, i: int)
    requires
        valid_utf8(b),
        0 < i <= b.len(),
        word_byte(b[i - 1]),
    ensures
        autolink(b, i) is None,
{
    lemma_after_word_byte(b, i);
}

/// No underscore right after a letter or a digit opens an emphasis.
pub proof fn law_no_underscore_opens_inside_a_word(b: Seq<u8>, i: int)
    requires
        valid_utf8(b),
        0 < i < b.len(),
        b[i] == UNDERSCORE,
        word_byte(b[i - 1]),
    ensures
        !opens(b, i),
        emphasis(b, i) is None,
{
    lemma_after_word_byte(b, i);
}

/// Text that starts with an ASCII letter or digit starts with a letter or digit.
proof fn lemma_before_word_byte(b: Seq<u8>, i: int)
    requires
        valid_utf8(b),
        0 <= i < b.len(),
        word_byte(b[i]),
    ensures
        alnum_from(b, i),
{
    let n = b.len() as int;
    let c = b[i] as char;
    let rest = b.subrange(i + 1, n);
    lemma_ascii_boundary(b, i);
    lemma_subrange_valid(b, i + 1, n);
    let s = decode_utf8(rest);
    decode_utf8_encode_utf8(rest);
    is_ascii_chars_encode_utf8(seq![c]);
    lemma_bytes_concat(seq![c], s);
    assert(bytes(seq![c]) =~= seq![b[i]]);
    assert(bytes(seq![c] + s) =~= b.subrange(i, n));
    encode_utf8_decode_utf8(seq![c] + s);
    assert(decode_utf8(b.subrange(i, n))[0] == c);
}

/// No run of underscores right before a letter or a digit closes an emphasis.
pub proof fn law_no_underscore_closes_inside_a_word(b: Seq<u8>, from: int, j: int, need: nat)
    requires
        valid_utf8(b),
        0 <= j < b.len(),
        b[j] == UNDERSCORE,
        j + run(b, j, UNDERSCORE) < b.len(),
        word_byte(b[j + run(b, j, UNDERSCORE)]),
    ensures
        !closes(b, from, j, UNDERSCORE, need, true),
{
    lemma_before_word_byte(b, j + run(b, j, UNDERSCORE));
}

/// A name: letters and digits, and underscores between or behind them.
pub open spec fn name_like(b: Seq<u8>) -> bool {
    &&& b.len() > 0
    &&& word_byte(b[0])
    &&& forall|k: int| 0 <= k < b.len() ==> word_byte(#[trigger] b[k]) || b[k] == UNDERSCORE
}

/// The scanner finds nothing in a name.
proof fn lemma_name_scanned(b: Seq<u8>, i: int)
    requires
        valid_utf8(b),
        name_like(b),
        0 <= i <= b.len(),
        i < b.len() && b[i] == UNDERSCORE ==> i > 0 && word_byte(b[i - 1]),
    ensures
        inline_spans(b, 0, 0, i, 0) == text_span(0, 0, b.len() as int),
    decreases b.len() - i,
{
    if i < b.len() {
        assert(word_byte(b[i]) || b[i] == UNDERSCORE);
        if b[i] == UNDERSCORE {
            let r = run(b, i, UNDERSCORE) as int;
            lemma_run(b, i, UNDERSCORE);
            law_no_underscore_opens_inside_a_word(b, i);
            lemma_name_scanned(b, i + r);
        } else {
            if b[i] == LOWER_H && autolink(b, i) is Some {
                if i + 4 < b.len() {
                    assert(word_byte(b[i + 4]) || b[i + 4] == UNDERSCORE);
                }
                if i + 5 < b.len() {
                    assert(word_byte(b[i + 5]) || b[i + 5] == UNDERSCORE);
                }
            }
            assert(inline_spans(b, 0, 0, i, 0) == inline_spans(b, 0, 0, i + 1, 0));
            lemma_name_scanned(b, i + 1);
        }
    } else {
        assert(inline_spans(b, 0, 0, i, 0) == text_span(0, 0, b.len() as int));
    }
}

proof fn lemma_trimmed_end_keeps(u: Seq<char>)
    requires
        u.len() > 0,
        !white_space(u[0]),
    ensures
        trimmed_end(u).len() > 0,
        trimmed_end(u).len() <= u.len(),
        forall|k: int| 0 <= k < trimmed_end(u).len() ==> #[trigger] trimmed_end(u)[k] == u[k],
    decreases u.len(),
{
    if white_space(u.last()) {
        assert(u.len() > 1);
        lemma_trimmed_end_keeps(u.drop_last());
    }
}

/// A name is no rule.
proof fn lemma_name_is_no_rule(b: Seq<u8>)
    requires
        name_like(b),
    ensures
        !separator(decode_utf8(b)),
{
    let u = Seq::new(b.len(), |k: int| b[k] as char);
    assert forall|k: int| 0 <= k < u.len() implies (#[trigger] u[k] as int) < 128 by {
        assert(word_byte(b[k]) || b[k] == UNDERSCORE);
    }
    is_ascii_chars_encode_utf8(u);
    assert(bytes(u) =~= b);
    encode_utf8_decode_utf8(u);
    assert(!white_space(u[0]));
    assert(trimmed_start(u) == u);
    lemma_trimmed_end_keeps(u);
    let t = trimmed(u);
    is_ascii_chars_encode_utf8(t);
    assert(bytes(t)[0] == b[0]);
}

/// A name on a line of its own, such as `snake_case_name`, is drawn as plain text
/// throughout.
pub proof fn law_a_name_is_plain_text(b: Seq<u8>)
    requires
        valid_utf8(b),
        name_like(b),
    ensures
        line_spans(b, false) == seq![
            Styled { start: 0, end: b.len() as int, style: MdStyle::Text },
        ],
{
    let n = b.len() as int;
    lemma_run_is(b, 0, 0, crate::ascii::SPACE);
    lemma_run_is(b, 0, 0, crate::ascii::HASH);
    assert(lead(b) == 0);
    assert(!fence(b));
    lemma_name_is_no_rule(b);
    assert(heading(b) is None);
    assert(quote(b) is None);
    assert(list(b) is None) by {
        assert(blanks_end(b, 0) == 0);
        lemma_digits_end(b, 0);
        let j = digits_end(b, 0);
        if j < n {
            assert(word_byte(b[j]) || b[j] == UNDERSCORE);
        }
    }
    lemma_name_scanned(b, 0);
    let spans = built(b, false);
    assert(spans =~= seq![Styled { start: 0, end: n, style: MdStyle::Text }]);
    reveal_with_fuel(merged, 2);
    assert(spans.drop_last() =~= Seq::empty());
    assert(merged(spans) =~= spans);
}

} // verus!
