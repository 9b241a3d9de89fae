//! UTF-8 text as bytes: character boundaries, slicing, lines.

use vstd::prelude::*;
use vstd::string::*;
use vstd::utf8::*;

use crate::ascii::{FORM_FEED, NEWLINE, RETURN, SPACE, TAB};

verus! {

broadcast use {vstd::seq::group_seq_axioms, vstd::string::group_string_axioms};

/// The bytes of a string.
pub open spec fn bytes(s: Seq<char>) -> Seq<u8> {
    encode_utf8(s)
}

/// Whether byte offset `i` of UTF-8 text `b` lies between two characters (or
/// at either end).
pub open spec fn boundary(b: Seq<u8>, i: int) -> bool {
    0 <= i <= b.len() && (i < b.len() ==> !is_continuation_byte(b[i]))
}

/// Valid UTF-8 never opens with a continuation byte.
pub proof fn lemma_first_byte(b: Seq<u8>)
    requires
        valid_utf8(b),
        b.len() > 0,
    ensures
        !is_continuation_byte(b[0]),
{
}

/// [`boundary`] is the standard library's notion of a character boundary.
pub proof fn lemma_boundary(b: Seq<u8>, i: int)
    requires
        valid_utf8(b),
    ensures
        boundary(b, i) <==> is_char_boundary(b, i),
{
    if i < 0 || i > b.len() {
        reveal_with_fuel(is_char_boundary, 1);
    } else if i == b.len() {
        is_char_boundary_start_end_of_seq(b);
    } else {
        is_char_boundary_iff_not_is_continuation_byte(b, i);
    }
}

/// Cutting valid UTF-8 at two boundaries leaves valid UTF-8.
pub proof fn lemma_subrange_valid(b: Seq<u8>, from: int, to: int)
    requires
        valid_utf8(b),
        boundary(b, from),
        boundary(b, to),
        from <= to,
    ensures
        valid_utf8(b.subrange(from, to)),
{
    lemma_boundary(b, to);
    valid_utf8_split(b, to);
    let head = b.subrange(0, to);
    assert(boundary(head, from));
    lemma_boundary(head, from);
    valid_utf8_split(head, from);
    assert(head.subrange(from, head.len() as int) =~= b.subrange(from, to));
}

/// An ASCII byte is a character of its own: there is a boundary on both sides.
pub proof fn lemma_ascii_boundary(b: Seq<u8>, i: int)
    requires
        valid_utf8(b),
        0 <= i < b.len(),
        b[i] < 0x80,
    ensures
        boundary(b, i),
        boundary(b, i + 1),
{
    if i + 1 < b.len() {
        lemma_subrange_valid(b, i, b.len() as int);
        let tail = b.subrange(i, b.len() as int);
        assert(tail[0] == b[i]);
        assert(valid_first_scalar(tail));
        let rest = pop_first_scalar(tail);
        assert(rest[0] == b[i + 1]);
        lemma_first_byte(rest);
    }
}

/// Two strings with the same bytes are the same string.
pub proof fn lemma_bytes_injective(s: Seq<char>, t: Seq<char>)
    requires
        bytes(s) == bytes(t),
    ensures
        s == t,
{
    encode_utf8_decode_utf8(s);
    encode_utf8_decode_utf8(t);
}

/// The bytes of a concatenation are the concatenated bytes.
pub proof fn lemma_bytes_concat(s: Seq<char>, t: Seq<char>)
    ensures
        bytes(s + t) == bytes(s) + bytes(t),
    decreases s.len(),
{
    if s.len() == 0 {
        assert(s + t =~= t);
        assert(bytes(s) + bytes(t) =~= bytes(t));
    } else {
        lemma_bytes_concat(s.drop_first(), t);
        assert((s + t).drop_first() =~= s.drop_first() + t);
        assert(bytes(s + t) =~= bytes(s) + bytes(t));
    }
}

/// A string is empty exactly when it has no bytes.
pub proof fn lemma_bytes_empty(s: Seq<char>)
    ensures
        s.len() == 0 <==> bytes(s).len() == 0,
{
    if s.len() > 0 {
        char_is_scalar(s[0]);
    }
}

/// The bytes of a string are valid UTF-8, and both its ends are boundaries.
pub proof fn lemma_string_ends(s: Seq<char>)
    ensures
        valid_utf8(bytes(s)),
        boundary(bytes(s), 0),
        boundary(bytes(s), bytes(s).len() as int),
{
    encode_utf8_valid_utf8(s);
    if bytes(s).len() > 0 {
        lemma_first_byte(bytes(s));
    }
}

/// The length of `s` in bytes.
pub fn byte_len(s: &str) -> (n: usize)
    ensures
        n == s.spec_bytes().len(),
{
    s.as_bytes().len()
}

/// The bytes `from..to` of `s`, as a string.
pub fn slice<'a>(s: &'a str, from: usize, to: usize) -> (r: &'a str)
    requires
        from <= to <= s.spec_bytes().len(),
        boundary(s.spec_bytes(), from as int),
        boundary(s.spec_bytes(), to as int),
    ensures
        r.spec_bytes() == s.spec_bytes().subrange(from as int, to as int),
{
    proof {
        encode_utf8_valid_utf8(s@);
        lemma_boundary(s.spec_bytes(), to as int);
    }
    let (head, _tail) = s.split_at(to);
    proof {
        encode_utf8_valid_utf8(head@);
        assert(boundary(head.spec_bytes(), from as int));
        lemma_boundary(head.spec_bytes(), from as int);
    }
    let (_front, middle) = head.split_at(from);
    assert(middle.spec_bytes() =~= s.spec_bytes().subrange(from as int, to as int));
    middle
}

/// `s` with the bytes `from..to` replaced by `with`.
pub fn spliced(s: &str, from: usize, to: usize, with: &str) -> (r: String)
    requires
        from <= to <= s.spec_bytes().len(),
        boundary(s.spec_bytes(), from as int),
        boundary(s.spec_bytes(), to as int),
    ensures
        bytes(r@) == replaced(s.spec_bytes(), from as int, to as int, with.spec_bytes()),
{
    let n: usize = byte_len(s);
    proof {
        lemma_string_ends(s@);
    }
    let head = slice(s, 0, from);
    let tail = slice(s, to, n);
    let mut r = String::from_str(head);
    r.append(with);
    r.append(tail);
    proof {
        lemma_bytes_concat(head@ + with@, tail@);
        lemma_bytes_concat(head@, with@);
    }
    r
}

/// Byte sequence `b` with `from..to` replaced by `with`.
pub open spec fn replaced(b: Seq<u8>, from: int, to: int, with: Seq<u8>) -> Seq<u8> {
    b.subrange(0, from) + with + b.subrange(to, b.len() as int)
}

/// Unicode's White_Space property.
pub open spec fn white_space(c: char) -> bool {
    let u = c as int;
    ||| 0x09 <= u <= 0x0D
    ||| u == 0x20
    ||| u == 0x85
    ||| u == 0xA0
    ||| u == 0x1680
    ||| 0x2000 <= u <= 0x200A
    ||| u == 0x2028
    ||| u == 0x2029
    ||| u == 0x202F
    ||| u == 0x205F
    ||| u == 0x3000
}

/// Does `c` have Unicode's White_Space property?
pub fn is_white_space(c: char) -> (r: bool)
    ensures
        r == white_space(c),
{
    let u: u32 = c as u32;
    (0x09 <= u && u <= 0x0D) || u == 0x20 || u == 0x85 || u == 0xA0 || u == 0x1680 || (0x2000 <= u && u
        <= 0x200A) || u == 0x2028 || u == 0x2029 || u == 0x202F || u == 0x205F || u == 0x3000
}

/// `s` without the white space in front.
pub open spec fn trimmed_start(s: Seq<char>) -> Seq<char>
    decreases s.len(),
{
    if s.len() > 0 && white_space(s[0]) {
        trimmed_start(s.drop_first())
    } else {
        s
    }
}

/// `s` without the white space at the end.
pub open spec fn trimmed_end(s: Seq<char>) -> Seq<char>
    decreases s.len(),
{
    if s.len() > 0 && white_space(s.last()) {
        trimmed_end(s.drop_last())
    } else {
        s
    }
}

/// `s` without the white space at either end.
pub open spec fn trimmed(s: Seq<char>) -> Seq<char> {
    trimmed_end(trimmed_start(s))
}

/// How many bytes `c` takes in UTF-8.
pub fn width(c: char) -> (r: usize)
    ensures
        r == encode_scalar(c as u32).len(),
        1 <= r <= 4,
{
    proof {
        char_is_scalar(c);
    }
    let u: u32 = c as u32;
    if u < 0x80 {
        1
    } else if u < 0x800 {
        2
    } else if u < 0x10000 {
        3
    } else {
        4
    }
}

/// The bytes of a single character.
pub proof fn lemma_bytes_single(c: char)
    ensures
        bytes(seq![c]) == encode_scalar(c as u32),
{
    reveal_with_fuel(encode_utf8, 2);
    let one = seq![c];
    assert(one.drop_first().len() == 0);
    assert(encode_scalar(c as u32) + Seq::<u8>::empty() =~= encode_scalar(c as u32));
}

/// A string's bytes split where its characters split.
pub proof fn lemma_char_split(s: Seq<char>, k: int)
    requires
        0 <= k <= s.len(),
    ensures
        bytes(s) == bytes(s.take(k)) + bytes(s.skip(k)),
        boundary(bytes(s), bytes(s.take(k)).len() as int),
        k < s.len() ==> bytes(s.take(k + 1)).len() == bytes(s.take(k)).len() + encode_scalar(
            s[k] as u32,
        ).len(),
{
    assert(s =~= s.take(k) + s.skip(k));
    lemma_bytes_concat(s.take(k), s.skip(k));
    lemma_string_ends(s.skip(k));
    let at = bytes(s.take(k)).len() as int;
    if at < bytes(s).len() {
        assert(bytes(s)[at] == bytes(s.skip(k))[0]);
    }
    if k < s.len() {
        assert(s.take(k + 1) =~= s.take(k) + seq![s[k]]);
        lemma_bytes_concat(s.take(k), seq![s[k]]);
        lemma_bytes_single(s[k]);
    }
}

/// The tail of `s` from byte offset `at`, which is where its character `k` starts.
fn tail_from<'a>(s: &'a str, at: usize, Ghost(k): Ghost<int>) -> (r: &'a str)
    requires
        0 <= k <= s@.len(),
        at == bytes(s@.take(k)).len(),
    ensures
        r@ == s@.skip(k),
{
    let n: usize = byte_len(s);
    proof {
        lemma_char_split(s@, k);
        lemma_string_ends(s@);
    }
    let r = slice(s, at, n);
    proof {
        assert(r.spec_bytes() =~= bytes(s@.skip(k)));
        lemma_bytes_injective(r@, s@.skip(k));
    }
    r
}

/// The head of `s` up to byte offset `at`, which is where its character `k` starts.
fn head_until<'a>(s: &'a str, at: usize, Ghost(k): Ghost<int>) -> (r: &'a str)
    requires
        0 <= k <= s@.len(),
        at == bytes(s@.take(k)).len(),
    ensures
        r@ == s@.take(k),
{
    proof {
        lemma_char_split(s@, k);
        lemma_string_ends(s@);
    }
    let r = slice(s, 0, at);
    proof {
        assert(r.spec_bytes() =~= bytes(s@.take(k)));
        lemma_bytes_injective(r@, s@.take(k));
    }
    r
}

/// `s` without its leading white space.
pub fn trim_start<'a>(s: &'a str) -> (r: &'a str)
    ensures
        r@ == trimmed_start(s@),
{
    let mut at: usize = 0;
    let n: usize = byte_len(s);
    assert(s@.skip(0) =~= s@);
    for c in it: s.chars()
        invariant
            it.seq() == s@,
            n == s.spec_bytes().len(),
            at == bytes(s@.take(it.index() as int)).len(),
            trimmed_start(s@.skip(it.index() as int)) == trimmed_start(s@),
    {
        let ghost k = it.index() as int;
        proof {
            lemma_char_split(s@, k);
            lemma_char_split(s@, k + 1);
            assert(s@.skip(k)[0] == s@[k]);
            assert(s@.skip(k).drop_first() =~= s@.skip(k + 1));
        }
        if !is_white_space(c) {
            return tail_from(s, at, Ghost(k));
        }
        at += width(c);
    }
    tail_from(s, at, Ghost(s@.len() as int))
}

/// `s` without its trailing white space.
pub fn trim_end<'a>(s: &'a str) -> (r: &'a str)
    ensures
        r@ == trimmed_end(s@),
{
    // `at` is the offset of the next character, `end` the end of the last one
    // that is not white space, and `m` counts the characters up to there.
    let mut at: usize = 0;
    let mut end: usize = 0;
    let ghost mut m: int = 0;
    let n: usize = byte_len(s);
    for c in it: s.chars()
        invariant
            it.seq() == s@,
            n == s.spec_bytes().len(),
            0 <= m <= it.index() <= s@.len(),
            at == bytes(s@.take(it.index() as int)).len(),
            end == bytes(s@.take(m)).len(),
            trimmed_end(s@.take(it.index() as int)) == s@.take(m),
    {
        let ghost k = it.index() as int;
        proof {
            lemma_char_split(s@, k);
            lemma_char_split(s@, k + 1);
            assert(s@.take(k + 1).drop_last() =~= s@.take(k));
            assert(s@.take(k + 1).last() == s@[k]);
        }
        at += width(c);
        if !is_white_space(c) {
            end = at;
            proof {
                m = k + 1;
            }
        }
    }
    assert(s@.take(s@.len() as int) =~= s@);
    head_until(s, end, Ghost(m))
}

/// `s` without the white space at either end.
pub fn trim<'a>(s: &'a str) -> (r: &'a str)
    ensures
        r@ == trimmed(s@),
{
    trim_end(trim_start(s))
}

/// `s` without its last character.
pub fn without_last<'a>(s: &'a str) -> (r: &'a str)
    ensures
        r@ == (if s@.len() > 0 {
            s@.drop_last()
        } else {
            s@
        }),
{
    // `at` is the offset of the next character, `last` that of the one before.
    let mut at: usize = 0;
    let mut last: usize = 0;
    let n: usize = byte_len(s);
    for c in it: s.chars()
        invariant
            it.seq() == s@,
            n == s.spec_bytes().len(),
            at == bytes(s@.take(it.index() as int)).len(),
            it.index() == 0 ==> last == 0,
            it.index() > 0 ==> last == bytes(s@.take(it.index() - 1)).len(),
    {
        proof {
            lemma_char_split(s@, it.index() as int);
            lemma_char_split(s@, it.index() + 1);
        }
        last = at;
        at += width(c);
    }
    let ghost k = if s@.len() > 0 {
        s@.len() - 1
    } else {
        0
    };
    assert(s@.len() > 0 ==> s@.take(k) =~= s@.drop_last());
    assert(s@.len() == 0 ==> s@.take(k) =~= s@);
    head_until(s, last, Ghost(k))
}

/// The characters of `s`.
pub fn chars_of(s: &str) -> (r: Vec<char>)
    ensures
        r@ == s@,
{
    let mut r: Vec<char> = Vec::new();
    for c in it: s.chars()
        invariant
            it.seq() == s@,
            r@ =~= s@.take(it.index() as int),
    {
        r.push(c);
    }
    assert(s@.take(s@.len() as int) =~= s@);
    r
}

/// Whether `s` holds a line break.
pub fn has_newline(s: &str) -> (r: bool)
    ensures
        r == s@.contains('\n'),
{
    for c in it: s.chars()
        invariant
            it.seq() == s@,
            forall|k: int| 0 <= k < it.index() ==> #[trigger] s@[k] != '\n',
    {
        if c == '\n' {
            assert(s@[it.index() as int] == '\n');
            return true;
        }
    }
    false
}

/// Whether `a` and `b` are the same text.
pub fn same_text(a: &str, b: &str) -> (r: bool)
    ensures
        r == (a@ == b@),
        r == (a.spec_bytes() == b.spec_bytes()),
{
    let x = a.as_bytes();
    let y = b.as_bytes();
    if x.len() != y.len() {
        return false;
    }
    let mut i: usize = 0;
    while i < x.len()
        invariant
            x@ == a.spec_bytes(),
            y@ == b.spec_bytes(),
            x@.len() == y@.len(),
            i <= x@.len(),
            forall|k: int| 0 <= k < i ==> #[trigger] x@[k] == y@[k],
        decreases x@.len() - i,
    {
        if x[i] != y[i] {
            assert(x@[i as int] != y@[i as int]);
            return false;
        }
        i += 1;
    }
    proof {
        assert(x@ =~= y@);
        lemma_bytes_injective(a@, b@);
    }
    true
}

/// ASCII white space: space, tab, line feed, form feed, carriage return.
pub open spec fn ascii_white(c: u8) -> bool {
    c == SPACE || c == TAB || c == NEWLINE || c == FORM_FEED || c == RETURN
}

/// Is `c` ASCII white space?
pub fn is_ascii_white(c: u8) -> (r: bool)
    ensures
        r == ascii_white(c),
{
    c == SPACE || c == TAB || c == NEWLINE || c == FORM_FEED || c == RETURN
}

/// How many of the first `n` bytes of `b` are `c`.
pub open spec fn copies(b: Seq<u8>, c: u8, n: int) -> nat
    decreases n,
{
    if n <= 0 {
        0
    } else if b[n - 1] == c {
        copies(b, c, n - 1) + 1
    } else {
        copies(b, c, n - 1)
    }
}

/// There are no more copies than bytes.
pub proof fn lemma_copies_bound(b: Seq<u8>, c: u8, n: int)
    requires
        0 <= n,
    ensures
        copies(b, c, n) <= n,
    decreases n,
{
    if n > 0 {
        lemma_copies_bound(b, c, n - 1);
    }
}

/// A byte that is among the first `n` counts.
pub proof fn lemma_copies_positive(b: Seq<u8>, c: u8, k: int, n: int)
    requires
        0 <= k < n,
        b[k] == c,
    ensures
        copies(b, c, n) > 0,
    decreases n,
{
    if k < n - 1 {
        lemma_copies_positive(b, c, k, n - 1);
    }
}

} // verus!
