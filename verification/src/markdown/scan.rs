//! Byte probes of the inline scanner: runs, closers, links and bare urls.

use vstd::prelude::*;
use vstd::string::*;
use vstd::utf8::*;

use crate::ascii::{
    APOSTROPHE, BACKTICK, BANG, CLOSE_BRACE, CLOSE_BRACKET, CLOSE_PAREN, COLON, COMMA, DOT, GREATER,
    LESS, LOWER_H, LOWER_P, LOWER_S, LOWER_T, OPEN_BRACKET, OPEN_PAREN, QUESTION, QUOTE, SEMICOLON, SLASH,
    SPACE, TAB,
};
use crate::text::{
    boundary, lemma_ascii_boundary, lemma_boundary, lemma_first_byte, lemma_string_ends,
    lemma_subrange_valid, slice,
};

verus! {

broadcast use {vstd::seq::group_seq_axioms, vstd::string::group_string_axioms};

/// How many copies of `c` stand in a row at offset `i`.
pub open spec fn run(b: Seq<u8>, i: int, c: u8) -> nat
    decreases b.len() - i,
{
    if 0 <= i < b.len() && b[i] == c {
        1 + run(b, i + 1, c)
    } else {
        0
    }
}

/// A run stays inside the text, holds only `c`, and is maximal.
pub proof fn lemma_run(b: Seq<u8>, i: int, c: u8)
    requires
        0 <= i <= b.len(),
    ensures
        i + run(b, i, c) <= b.len(),
        forall|k: int| i <= k < i + run(b, i, c) ==> b[k] == c,
        i + run(b, i, c) < b.len() ==> b[i + run(b, i, c)] != c,
        run(b, i, c) > 0 <==> i < b.len() && b[i] == c,
    decreases b.len() - i,
{
    if i < b.len() && b[i] == c {
        lemma_run(b, i + 1, c);
    }
}

/// A stretch of `c` that cannot be extended is a run.
pub proof fn lemma_run_is(b: Seq<u8>, i: int, j: int, c: u8)
    requires
        0 <= i <= j <= b.len(),
        forall|k: int| i <= k < j ==> b[k] == c,
        j < b.len() ==> b[j] != c,
    ensures
        run(b, i, c) == j - i,
    decreases j - i,
{
    if i < j {
        assert(b[i] == c);
        lemma_run_is(b, i + 1, j, c);
    }
}

/// Length of the run of `c` starting at `i`.
pub fn run_len(b: &[u8], i: usize, c: u8) -> (r: usize)
    requires
        i <= b@.len(),
    ensures
        r == run(b@, i as int, c),
        i + r <= b@.len(),
{
    let mut j: usize = i;
    while j < b.len() && b[j] == c
        invariant
            i <= j <= b@.len(),
            forall|k: int| i <= k < j ==> b@[k] == c,
        ensures
            i <= j <= b@.len(),
            forall|k: int| i <= k < j ==> b@[k] == c,
            j < b@.len() ==> b@[j as int] != c,
        decreases b@.len() - j,
    {
        j += 1;
    }
    proof {
        lemma_run_is(b@, i as int, j as int, c);
    }
    j - i
}

/// Space or tab.
pub open spec fn space(c: u8) -> bool {
    c == SPACE || c == TAB
}

/// Is `c` a space or a tab?
pub fn is_space(c: u8) -> (r: bool)
    ensures
        r == space(c),
{
    c == SPACE || c == TAB
}

/// Unicode's Alphabetic or Numeric property, as the standard library reads it.
pub uninterp spec fn unicode_alphanumeric(c: char) -> bool;

/// An ASCII letter or digit.
pub open spec fn ascii_alphanumeric(c: char) -> bool {
    '0' <= c <= '9' || 'A' <= c <= 'Z' || 'a' <= c <= 'z'
}

/// A letter or a digit, of any script.
pub open spec fn alphanumeric(c: char) -> bool {
    if (c as int) < 128 {
        ascii_alphanumeric(c)
    } else {
        unicode_alphanumeric(c)
    }
}

/// `char::is_alphanumeric`: whether a character has one of Unicode's Alphabetic
/// and Numeric properties. The answer depends on the character alone and is
/// named [`unicode_alphanumeric`]. Of ASCII it is said that exactly the letters and
/// the digits have one; which other characters do is not stated.
#[verifier::external_body]
fn is_alphanumeric(c: char) -> (r: bool)
    ensures
        r == unicode_alphanumeric(c),
        (c as int) < 128 ==> r == ascii_alphanumeric(c),
{
    c.is_alphanumeric()
}

/// Whether the character that starts at offset `i` is alphanumeric.
pub open spec fn alnum_from(b: Seq<u8>, i: int) -> bool {
    i < b.len() && alphanumeric(decode_utf8(b.subrange(i, b.len() as int))[0])
}

/// Whether the character that ends at offset `i` is alphanumeric.
pub open spec fn alnum_until(b: Seq<u8>, i: int) -> bool {
    0 < i && alphanumeric(decode_utf8(b.subrange(0, i)).last())
}

/// The first character of a nonempty string.
fn first_char(s: &str) -> (c: char)
    requires
        s@.len() > 0,
    ensures
        c == s@[0],
{
    let mut it = s.chars();
    it.next().unwrap()
}

/// Is the char starting at byte offset `i` alphanumeric?
pub fn alnum_at(s: &str, i: usize) -> (r: bool)
    requires
        boundary(s.spec_bytes(), i as int),
    ensures
        r == alnum_from(s.spec_bytes(), i as int),
{
    let n: usize = s.as_bytes().len();
    if i >= n {
        return false;
    }
    proof {
        lemma_string_ends(s@);
    }
    let tail = slice(s, i, n);
    proof {
        crate::text::lemma_bytes_empty(tail@);
        encode_utf8_decode_utf8(tail@);
    }
    is_alphanumeric(first_char(tail))
}

/// Valid UTF-8 without an inner boundary is a single character.
proof fn lemma_single_char(b: Seq<u8>)
    requires
        valid_utf8(b),
        b.len() > 0,
        forall|k: int| 0 < k < b.len() ==> is_continuation_byte(b[k]),
    ensures
        decode_utf8(b).len() == 1,
{
    let w = length_of_first_scalar(b);
    let rest = pop_first_scalar(b);
    if rest.len() > 0 {
        assert(rest[0] == b[w]);
        lemma_first_byte(rest);
        assert(false);
    }
    assert(decode_utf8(rest) =~= seq![]);
}

/// Is the char immediately before byte offset `i` alphanumeric?
pub fn alnum_before(s: &str, i: usize) -> (r: bool)
    requires
        boundary(s.spec_bytes(), i as int),
    ensures
        r == alnum_until(s.spec_bytes(), i as int),
{
    if i == 0 {
        return false;
    }
    let ghost sb = s.spec_bytes();
    let ghost head = sb.subrange(0, i as int);
    proof {
        lemma_string_ends(s@);
        lemma_subrange_valid(sb, 0, i as int);
    }
    let b = s.as_bytes();
    let mut k: usize = i - 1;
    while k > 0 && 0x80 <= b[k] && b[k] <= 0xBF
        invariant
            b@ == sb,
            k < i <= sb.len(),
            forall|m: int| k < m < i ==> is_continuation_byte(sb[m]),
        ensures
            k < i,
            forall|m: int| k < m < i ==> is_continuation_byte(sb[m]),
            k > 0 ==> !is_continuation_byte(sb[k as int]),
        decreases k,
    {
        k -= 1;
    }
    proof {
        if k == 0 {
            lemma_first_byte(sb);
        }
        assert(boundary(sb, k as int));
    }
    let last = slice(s, k, i);
    proof {
        crate::text::lemma_bytes_empty(last@);
        encode_utf8_decode_utf8(last@);
        lemma_subrange_valid(sb, k as int, i as int);
        lemma_single_char(sb.subrange(k as int, i as int));
        assert(boundary(head, k as int));
        lemma_boundary(head, k as int);
        decode_utf8_split(head, k as int);
        assert(head.subrange(k as int, head.len() as int) =~= sb.subrange(k as int, i as int));
        assert(decode_utf8(head).last() == last@[0]);
    }
    is_alphanumeric(first_char(last))
}

/// The first run of exactly `need` copies of `c` at or after `j`, which does
/// not stand in the middle of a run.
pub open spec fn exact_run(b: Seq<u8>, j: int, c: u8, need: nat) -> Option<int>
    decreases b.len() - j,
{
    if j < 0 || j >= b.len() {
        None
    } else if b[j] != c {
        exact_run(b, j + 1, c, need)
    } else if run(b, j, c) == need {
        Some(j)
    } else {
        proof {
            lemma_run(b, j, c);
        }
        exact_run(b, j + run(b, j, c), c, need)
    }
}

/// What [`exact_run`] finds is a run of that length.
pub proof fn lemma_exact_run(b: Seq<u8>, j: int, c: u8, need: nat)
    requires
        0 <= j <= b.len(),
        exact_run(b, j, c, need) is Some,
    ensures
        j <= exact_run(b, j, c, need)->0 < b.len(),
        exact_run(b, j, c, need)->0 + need <= b.len(),
        run(b, exact_run(b, j, c, need)->0, c) == need,
        need > 0,
    decreases b.len() - j,
{
    if j < b.len() {
        lemma_run(b, j, c);
        if b[j] != c {
            lemma_exact_run(b, j + 1, c, need);
        } else if run(b, j, c) != need {
            lemma_exact_run(b, j + run(b, j, c), c, need);
        }
    }
}

/// Find a run of exactly `need` copies of `c` at or after `from`.
pub fn find_exact_run(b: &[u8], from: usize, c: u8, need: usize) -> (r: Option<usize>)
    requires
        from <= b@.len(),
    ensures
        r is Some <==> exact_run(b@, from as int, c, need as nat) is Some,
        r matches Some(j) ==> exact_run(b@, from as int, c, need as nat) == Some(j as int),
{
    let mut j: usize = from;
    while j < b.len()
        invariant
            j <= b@.len(),
            exact_run(b@, j as int, c, need as nat) == exact_run(b@, from as int, c, need as nat),
        decreases b@.len() - j,
    {
        if b[j] == c {
            let r: usize = run_len(b, j, c);
            if r == need {
                return Some(j);
            }
            j += r;
        } else {
            j += 1;
        }
    }
    None
}

/// Whether the run of `c` at `j` closes an emphasis whose content starts at
/// `from`: long enough, not empty, not after a space and, for underscores, not
/// inside a word.
pub open spec fn closes(b: Seq<u8>, from: int, j: int, c: u8, need: nat, underscore: bool) -> bool {
    &&& run(b, j, c) >= need
    &&& j > from
    &&& !space(b[j - 1])
    &&& !(underscore && alnum_from(b, j + run(b, j, c)))
}

/// The first run at or after `j` that closes an emphasis opened at `from`.
pub open spec fn emph_close(
    b: Seq<u8>,
    from: int,
    j: int,
    c: u8,
    need: nat,
    underscore: bool,
) -> Option<int>
    decreases b.len() - j,
{
    if j < 0 || j >= b.len() {
        None
    } else if b[j] != c {
        emph_close(b, from, j + 1, c, need, underscore)
    } else if closes(b, from, j, c, need, underscore) {
        Some(j)
    } else {
        proof {
            lemma_run(b, j, c);
        }
        emph_close(b, from, j + run(b, j, c), c, need, underscore)
    }
}

/// What [`emph_close`] finds is a closing run past the content's start.
pub proof fn lemma_emph_close(
    b: Seq<u8>,
    from: int,
    j: int,
    c: u8,
    need: nat,
    underscore: bool,
)
    requires
        0 <= from <= j <= b.len(),
        emph_close(b, from, j, c, need, underscore) is Some,
    ensures
        ({
            let k = emph_close(b, from, j, c, need, underscore)->0;
            &&& j <= k < b.len()
            &&& from < k
            &&& b[k] == c
            &&& k + need <= k + run(b, k, c) <= b.len()
            &&& closes(b, from, k, c, need, underscore)
        }),
    decreases b.len() - j,
{
    if j < b.len() {
        lemma_run(b, j, c);
        if b[j] != c {
            lemma_emph_close(b, from, j + 1, c, need, underscore);
        } else if !closes(b, from, j, c, need, underscore) {
            lemma_emph_close(b, from, j + run(b, j, c), c, need, underscore);
        }
    }
}

/// Find a closing emphasis run of at least `need` copies of `c` at or after
/// `from`. `underscore` enables the intra-word guard.
pub fn find_emph_close(s: &str, from: usize, c: u8, need: usize, underscore: bool) -> (r: Option<
    usize,
>)
    requires
        from <= s.spec_bytes().len(),
        c < 0x80,
    ensures
        r is Some <==> emph_close(
            s.spec_bytes(),
            from as int,
            from as int,
            c,
            need as nat,
            underscore,
        ) is Some,
        r matches Some(j) ==> emph_close(
            s.spec_bytes(),
            from as int,
            from as int,
            c,
            need as nat,
            underscore,
        ) == Some(j as int),
{
    let b = s.as_bytes();
    let mut j: usize = from;
    while j < b.len()
        invariant
            b@ == s.spec_bytes(),
            from <= j <= b@.len(),
            c < 0x80,
            emph_close(b@, from as int, j as int, c, need as nat, underscore) == emph_close(
                b@,
                from as int,
                from as int,
                c,
                need as nat,
                underscore,
            ),
        decreases b@.len() - j,
    {
        if b[j] == c {
            let r: usize = run_len(b, j, c);
            proof {
                lemma_run(b@, j as int, c);
                encode_utf8_valid_utf8(s@);
                lemma_ascii_boundary(b@, j + r - 1);
            }
            if r >= need && j > from && !is_space(b[j - 1]) && (!underscore || !alnum_at(s, j + r)) {
                return Some(j);
            }
            j += r;
        } else {
            j += 1;
        }
    }
    None
}

/// The first `]` at or after `j`, unless a `[` comes before it.
pub open spec fn label_end(b: Seq<u8>, j: int) -> Option<int>
    decreases b.len() - j,
{
    if j < 0 || j >= b.len() || b[j] == OPEN_BRACKET {
        None
    } else if b[j] == CLOSE_BRACKET {
        Some(j)
    } else {
        label_end(b, j + 1)
    }
}

/// The first `)` at or after `j`.
pub open spec fn paren_end(b: Seq<u8>, j: int) -> Option<int>
    decreases b.len() - j,
{
    if j < 0 || j >= b.len() {
        None
    } else if b[j] == CLOSE_PAREN {
        Some(j)
    } else {
        paren_end(b, j + 1)
    }
}

/// `(close_bracket, close_paren)` of the `[text](url)` whose `[` is at `open`.
pub open spec fn link(b: Seq<u8>, open: int) -> Option<(int, int)> {
    match label_end(b, open + 1) {
        Some(rb) => if rb + 1 < b.len() && b[rb + 1] == OPEN_PAREN {
            match paren_end(b, rb + 2) {
                Some(rp) => Some((rb, rp)),
                None => None,
            }
        } else {
            None
        },
        None => None,
    }
}

pub proof fn lemma_label_end(b: Seq<u8>, j: int)
    requires
        label_end(b, j) is Some,
    ensures
        j <= label_end(b, j)->0 < b.len(),
        b[label_end(b, j)->0] == CLOSE_BRACKET,
        forall|k: int| j <= k < label_end(b, j)->0 ==> b[k] != OPEN_BRACKET && b[k] != CLOSE_BRACKET,
    decreases b.len() - j,
{
    if b[j] != CLOSE_BRACKET {
        lemma_label_end(b, j + 1);
    }
}

pub proof fn lemma_paren_end(b: Seq<u8>, j: int)
    requires
        paren_end(b, j) is Some,
    ensures
        j <= paren_end(b, j)->0 < b.len(),
        b[paren_end(b, j)->0] == CLOSE_PAREN,
    decreases b.len() - j,
{
    if b[j] != CLOSE_PAREN {
        lemma_paren_end(b, j + 1);
    }
}

/// The parts of a link lie in order inside the text.
pub proof fn lemma_link(b: Seq<u8>, open: int)
    requires
        0 <= open,
        link(b, open) is Some,
    ensures
        ({
            let (rb, rp) = link(b, open)->0;
            &&& open < rb
            &&& rb + 2 <= rp < b.len()
            &&& b[rb] == CLOSE_BRACKET
            &&& b[rb + 1] == OPEN_PAREN
            &&& b[rp] == CLOSE_PAREN
        }),
{
    lemma_label_end(b, open + 1);
    lemma_paren_end(b, (link(b, open)->0).0 + 2);
}

/// `(close_bracket, close_paren)` for a `[text](url)` starting at `open`.
pub fn find_link(b: &[u8], open: usize) -> (r: Option<(usize, usize)>)
    requires
        open < b@.len(),
    ensures
        r is Some <==> link(b@, open as int) is Some,
        r matches Some((rb, rp)) ==> link(b@, open as int) == Some((rb as int, rp as int)),
{
    let n: usize = b.len();
    let mut rb: usize = open + 1;
    while rb < n && b[rb] != CLOSE_BRACKET
        invariant
            n == b@.len(),
            open < rb <= n,
            label_end(b@, rb as int) == label_end(b@, open + 1),
        ensures
            open < rb <= n,
            label_end(b@, rb as int) == label_end(b@, open + 1),
            rb < n ==> b@[rb as int] == CLOSE_BRACKET,
        decreases n - rb,
    {
        // Bail on a nested `[` rather than mis-pairing across it.
        if b[rb] == OPEN_BRACKET {
            return None;
        }
        rb += 1;
    }
    if rb >= n || n - rb <= 1 || b[rb + 1] != OPEN_PAREN {
        return None;
    }
    let mut rp: usize = rb + 2;
    while rp < n && b[rp] != CLOSE_PAREN
        invariant
            n == b@.len(),
            rb + 2 <= rp <= n,
            paren_end(b@, rp as int) == paren_end(b@, rb + 2),
        ensures
            rb + 2 <= rp <= n,
            paren_end(b@, rp as int) == paren_end(b@, rb + 2),
            rp < n ==> b@[rp as int] == CLOSE_PAREN,
        decreases n - rp,
    {
        rp += 1;
    }
    if rp >= n {
        return None;
    }
    Some((rb, rp))
}

/// Whether `b` reads `http` at offset `i`.
pub open spec fn http_at(b: Seq<u8>, i: int) -> bool {
    &&& i + 4 <= b.len()
    &&& b[i] == LOWER_H
    &&& b[i + 1] == LOWER_T
    &&& b[i + 2] == LOWER_T
    &&& b[i + 3] == LOWER_P
}

/// Whether `b` reads `://` at offset `i`.
pub open spec fn slashes_at(b: Seq<u8>, i: int) -> bool {
    &&& i + 3 <= b.len()
    &&& b[i] == COLON
    &&& b[i + 1] == SLASH
    &&& b[i + 2] == SLASH
}

/// Length of the `http://` or `https://` at offset `i`; 0 where there is none.
pub open spec fn scheme_len(b: Seq<u8>, i: int) -> int {
    if !http_at(b, i) {
        0
    } else if slashes_at(b, i + 4) {
        7
    } else if i + 4 < b.len() && b[i + 4] == LOWER_S && slashes_at(b, i + 5) {
        8
    } else {
        0
    }
}

/// A byte that ends a bare url.
pub open spec fn url_stop(c: u8) -> bool {
    c == SPACE || c == TAB || c == LESS || c == GREATER || c == QUOTE || c == BACKTICK
}

/// Sentence punctuation that is not part of the url it trails.
pub open spec fn url_trail(c: u8) -> bool {
    ||| c == DOT
    ||| c == COMMA
    ||| c == SEMICOLON
    ||| c == COLON
    ||| c == BANG
    ||| c == QUESTION
    ||| c == CLOSE_PAREN
    ||| c == CLOSE_BRACKET
    ||| c == CLOSE_BRACE
    ||| c == APOSTROPHE
}

/// The first offset at or after `j` whose byte ends a bare url.
pub open spec fn url_run(b: Seq<u8>, j: int) -> int
    decreases b.len() - j,
{
    if 0 <= j < b.len() && !url_stop(b[j]) {
        url_run(b, j + 1)
    } else {
        j
    }
}

/// `end` moved back to `low` at most, past trailing punctuation.
pub open spec fn url_trimmed(b: Seq<u8>, low: int, end: int) -> int
    decreases end - low,
{
    if low < end && url_trail(b[end - 1]) {
        url_trimmed(b, low, end - 1)
    } else {
        end
    }
}

/// The end of the bare url that starts at `i`, if one does.
pub open spec fn autolink(b: Seq<u8>, i: int) -> Option<int> {
    let scheme = scheme_len(b, i);
    if scheme == 0 || alnum_until(b, i) {
        None
    } else {
        Some(url_trimmed(b, i + scheme, url_run(b, i + scheme)))
    }
}

pub proof fn lemma_url_run(b: Seq<u8>, j: int)
    requires
        0 <= j <= b.len(),
    ensures
        j <= url_run(b, j) <= b.len(),
        url_run(b, j) < b.len() ==> url_stop(b[url_run(b, j)]),
    decreases b.len() - j,
{
    if j < b.len() && !url_stop(b[j]) {
        lemma_url_run(b, j + 1);
    }
}

pub proof fn lemma_url_trimmed(b: Seq<u8>, low: int, end: int)
    requires
        0 <= low <= end <= b.len(),
        end < b.len() ==> b[end] < 0x80,
    ensures
        low <= url_trimmed(b, low, end) <= end,
        url_trimmed(b, low, end) < b.len() ==> b[url_trimmed(b, low, end)] < 0x80,
    decreases end - low,
{
    if low < end && url_trail(b[end - 1]) {
        lemma_url_trimmed(b, low, end - 1);
    }
}

/// A bare url is not empty and ends on a boundary.
pub proof fn lemma_autolink(b: Seq<u8>, i: int)
    requires
        0 <= i <= b.len(),
        autolink(b, i) is Some,
    ensures
        i + 7 <= autolink(b, i)->0 <= b.len(),
        boundary(b, autolink(b, i)->0),
{
    let scheme = scheme_len(b, i);
    lemma_url_run(b, i + scheme);
    lemma_url_trimmed(b, i + scheme, url_run(b, i + scheme));
}

/// End offset of a bare `http://` / `https://` run starting at `i`.
pub fn autolink_end(s: &str, i: usize) -> (r: Option<usize>)
    requires
        boundary(s.spec_bytes(), i as int),
    ensures
        r is Some <==> autolink(s.spec_bytes(), i as int) is Some,
        r matches Some(end) ==> autolink(s.spec_bytes(), i as int) == Some(end as int),
{
    let b = s.as_bytes();
    let n: usize = b.len();
    let left: usize = n - i;
    if left < 7 || b[i] != LOWER_H || b[i + 1] != LOWER_T || b[i + 2] != LOWER_T || b[i + 3]
        != LOWER_P {
        return None;
    }
    let scheme: usize = if b[i + 4] == COLON && b[i + 5] == SLASH && b[i + 6] == SLASH {
        7
    } else if left >= 8 && b[i + 4] == LOWER_S && b[i + 5] == COLON && b[i + 6] == SLASH && b[i + 7]
        == SLASH {
        8
    } else {
        return None;
    };
    if alnum_before(s, i) {
        return None;
    }
    let low: usize = i + scheme;
    let mut end: usize = low;
    while end < n && b[end] != SPACE && b[end] != TAB && b[end] != LESS && b[end] != GREATER && b[end]
        != QUOTE && b[end] != BACKTICK
        invariant
            n == b@.len(),
            low <= end <= n,
            url_run(b@, end as int) == url_run(b@, low as int),
        ensures
            low <= end <= n,
            end == url_run(b@, low as int),
        decreases n - end,
    {
        end += 1;
    }
    // Sentence punctuation that trails the url is not part of it.
    let ghost stop = end as int;
    while end > low && is_url_trail(b[end - 1])
        invariant
            n == b@.len(),
            low <= end <= n,
            url_trimmed(b@, low as int, end as int) == url_trimmed(b@, low as int, stop),
        ensures
            low <= end <= n,
            end == url_trimmed(b@, low as int, stop),
        decreases end,
    {
        end -= 1;
    }
    Some(end)
}

fn is_url_trail(c: u8) -> (r: bool)
    ensures
        r == url_trail(c),
{
    c == DOT || c == COMMA || c == SEMICOLON || c == COLON || c == BANG || c == QUESTION || c
        == CLOSE_PAREN || c == CLOSE_BRACKET || c == CLOSE_BRACE || c == APOSTROPHE
}

} // verus!
