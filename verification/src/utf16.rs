//! Offsets counted in UTF-16 code units, the way the system's text input counts
//! them, and offsets in UTF-8 bytes.

use vstd::prelude::*;
use vstd::string::*;
use vstd::utf8::*;

use crate::text::{
    boundary, byte_len, bytes, lemma_bytes_concat, lemma_bytes_injective, lemma_char_split,
    lemma_string_ends, lemma_subrange_valid, slice, width,
};

verus! {

broadcast use {vstd::seq::group_seq_axioms, vstd::string::group_string_axioms};

/// How many UTF-16 code units `c` takes.
pub open spec fn units(c: char) -> int {
    if (c as u32) < 0x10000 {
        1
    } else {
        2
    }
}

/// How many UTF-16 code units `s` takes.
pub open spec fn unit_count(s: Seq<char>) -> int
    decreases s.len(),
{
    if s.len() == 0 {
        0
    } else {
        unit_count(s.drop_last()) + units(s.last())
    }
}

/// How many characters of `s` it takes, from character `k` on, to reach `n` code
/// units; all of them where there are too few. A surrogate pair is never split.
pub open spec fn chars_to_reach(s: Seq<char>, k: int, n: int) -> int
    decreases s.len() - k,
{
    if k < 0 || k >= s.len() || unit_count(s.take(k)) >= n {
        k
    } else {
        chars_to_reach(s, k + 1, n)
    }
}

/// The byte offset in `s` that is `n` code units from its start.
pub open spec fn unit_offset(s: Seq<char>, n: int) -> int {
    bytes(s.take(chars_to_reach(s, 0, n))).len() as int
}

fn units_of(c: char) -> (r: usize)
    ensures
        r == units(c),
{
    if (c as u32) < 0x10000 {
        1
    } else {
        2
    }
}

/// One more character, its code units more.
proof fn lemma_unit_count_step(s: Seq<char>, k: int)
    requires
        0 <= k < s.len(),
    ensures
        unit_count(s.take(k + 1)) == unit_count(s.take(k)) + units(s[k]),
{
    assert(s.take(k + 1).drop_last() =~= s.take(k));
    assert(s.take(k + 1).last() == s[k]);
}

/// Counting stays inside the text.
pub proof fn lemma_chars_to_reach(s: Seq<char>, k: int, n: int)
    requires
        0 <= k <= s.len(),
    ensures
        k <= chars_to_reach(s, k, n) <= s.len(),
        chars_to_reach(s, k, n) < s.len() ==> unit_count(s.take(chars_to_reach(s, k, n))) >= n,
        forall|j: int| k <= j < chars_to_reach(s, k, n) ==> unit_count(#[trigger] s.take(j)) < n,
    decreases s.len() - k,
{
    if k < s.len() && unit_count(s.take(k)) < n {
        lemma_chars_to_reach(s, k + 1, n);
    }
}

/// Code units never outnumber bytes.
proof fn lemma_unit_count_bound(s: Seq<char>)
    ensures
        0 <= unit_count(s) <= bytes(s).len(),
    decreases s.len(),
{
    if s.len() > 0 {
        let k = s.len() - 1;
        lemma_unit_count_bound(s.drop_last());
        assert(s.take(k) =~= s.drop_last());
        assert(s.take(k + 1) =~= s);
        lemma_char_split(s, k);
        char_is_scalar(s[k]);
        let u = s[k] as u32;
        assert(encode_scalar(u).len() >= 1);
        assert(u >= 0x10000 ==> encode_scalar(u).len() == 4);
    }
}

/// Convert a UTF-16 unit offset into a UTF-8 byte offset **within** `s` only.
pub fn utf16_offset_in(s: &str, utf16_units: usize) -> (r: usize)
    ensures
        r == unit_offset(s@, utf16_units as int),
        boundary(s.spec_bytes(), r as int),
{
    let mut seen: usize = 0;
    let mut byte: usize = 0;
    let n: usize = byte_len(s);
    proof {
        assert(s@.take(0) =~= Seq::empty());
    }
    for c in it: s.chars()
        invariant
            it.seq() == s@,
            n == s.spec_bytes().len(),
            byte == bytes(s@.take(it.index() as int)).len(),
            seen == unit_count(s@.take(it.index() as int)),
            chars_to_reach(s@, 0, utf16_units as int) == chars_to_reach(
                s@,
                it.index() as int,
                utf16_units as int,
            ),
    {
        let ghost k = it.index() as int;
        proof {
            lemma_char_split(s@, k);
            lemma_char_split(s@, k + 1);
            lemma_unit_count_step(s@, k);
            lemma_unit_count_bound(s@.take(k + 1));
        }
        if seen >= utf16_units {
            return byte;
        }
        seen += units_of(c);
        byte += width(c);
    }
    proof {
        lemma_char_split(s@, s@.len() as int);
    }
    byte
}

/// How many code units of `s` come before byte offset `at`.
pub fn to_utf16(s: &str, at: usize) -> (r: usize)
    requires
        boundary(s.spec_bytes(), at as int),
    ensures
        r == unit_count(decode_utf8(s.spec_bytes().subrange(0, at as int))),
{
    proof {
        lemma_string_ends(s@);
    }
    let head = slice(s, 0, at);
    proof {
        encode_utf8_decode_utf8(head@);
    }
    let n: usize = byte_len(head);
    let mut seen: usize = 0;
    assert(head@.take(0) =~= Seq::empty());
    for c in it: head.chars()
        invariant
            it.seq() == head@,
            n == head.spec_bytes().len(),
            seen == unit_count(head@.take(it.index() as int)),
    {
        let ghost k = it.index() as int;
        proof {
            lemma_unit_count_step(head@, k);
            lemma_unit_count_bound(head@.take(k + 1));
            lemma_char_split(head@, k + 1);
        }
        seen += units_of(c);
    }
    assert(head@.take(head@.len() as int) =~= head@);
    seen
}

/// Counting a place in code units and then finding it again by that count leads
/// back to where it was.
pub proof fn law_utf16_round_trip(s: Seq<char>, at: int)
    requires
        boundary(bytes(s), at),
    ensures
        unit_offset(s, unit_count(decode_utf8(bytes(s).subrange(0, at)))) == at,
{
    lemma_string_ends(s);
    lemma_subrange_valid(bytes(s), 0, at);
    lemma_subrange_valid(bytes(s), at, bytes(s).len() as int);
    let head = decode_utf8(bytes(s).subrange(0, at));
    let tail = decode_utf8(bytes(s).subrange(at, bytes(s).len() as int));
    decode_utf8_encode_utf8(bytes(s).subrange(0, at));
    decode_utf8_encode_utf8(bytes(s).subrange(at, bytes(s).len() as int));
    lemma_bytes_concat(head, tail);
    assert(bytes(head + tail) =~= bytes(s));
    lemma_bytes_injective(head + tail, s);
    let k = head.len() as int;
    assert(s.take(k) =~= head);
    let n = unit_count(s.take(k));
    lemma_chars_to_reach(s, 0, n);
    let j = chars_to_reach(s, 0, n);
    if j < k {
        lemma_unit_count_grows(s, j, k);
    }
    if j > k {
        assert(unit_count(s.take(k)) < n);
    }
}

/// More characters, more code units.
proof fn lemma_unit_count_grows(s: Seq<char>, j: int, k: int)
    requires
        0 <= j < k <= s.len(),
    ensures
        unit_count(s.take(j)) < unit_count(s.take(k)),
    decreases k - j,
{
    lemma_unit_count_step(s, k - 1);
    if j < k - 1 {
        lemma_unit_count_grows(s, j, k - 1);
    }
}

/// A character takes one code unit, or two where it is beyond the basic plane, and a text
/// takes those of its parts.
pub proof fn law_code_units_add_up(s: Seq<char>, t: Seq<char>, c: char)
    ensures
        unit_count(Seq::empty()) == 0,
        unit_count(seq![c]) == if c as int <= 0xffff {
            1int
        } else {
            2
        },
        unit_count(s + t) == unit_count(s) + unit_count(t),
    decreases t.len(),
{
    let one = seq![c];
    assert(one.drop_last() =~= Seq::empty());
    assert(unit_count(one.drop_last()) == 0);
    if t.len() == 0 {
        assert(s + t =~= s);
    } else {
        assert((s + t).drop_last() =~= s + t.drop_last());
        law_code_units_add_up(s, t.drop_last(), c);
    }
}

} // verus!
