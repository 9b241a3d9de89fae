//! Words fitted to the room there is for them.

use vstd::prelude::*;
use vstd::string::*;

use crate::text::{boundary, byte_len, bytes, lemma_bytes_injective, lemma_char_split, slice, width};

verus! {

broadcast use {vstd::seq::group_seq_axioms, vstd::string::group_string_axioms};

/// `text` cut to `room` characters, with an ellipsis standing for the middle —
/// the end of a file name says more than the middle of it.
pub open spec fn ellipsised(text: Seq<char>, room: int) -> Seq<char> {
    if text.len() <= room {
        text
    } else if room < 4 {
        text.take(room)
    } else {
        let tail = (room - 1) / 2;
        let head = room - 1 - tail;
        text.take(head) + "…"@ + text.skip(text.len() - tail)
    }
}

/// How many characters `text` has.
pub fn char_count(text: &str) -> (r: usize)
    ensures
        r == text@.len(),
{
    let mut n: usize = 0;
    let len: usize = byte_len(text);
    for c in it: text.chars()
        invariant
            it.seq() == text@,
            len == text.spec_bytes().len(),
            n == it.index(),
            n <= bytes(text@.take(it.index() as int)).len(),
    {
        proof {
            lemma_char_split(text@, it.index() as int);
            lemma_char_split(text@, it.index() + 1);
            vstd::utf8::char_is_scalar(text@[it.index() as int]);
        }
        n += 1;
    }
    n
}

/// The byte offset at which character `k` of `text` starts.
fn offset_of(text: &str, k: usize) -> (r: usize)
    requires
        k <= text@.len(),
    ensures
        r == bytes(text@.take(k as int)).len(),
        boundary(text.spec_bytes(), r as int),
{
    let mut seen: usize = 0;
    let mut at: usize = 0;
    let len: usize = byte_len(text);
    assert(text@.take(0) =~= Seq::empty());
    for c in it: text.chars()
        invariant
            it.seq() == text@,
            len == text.spec_bytes().len(),
            seen == it.index() <= k,
            at == bytes(text@.take(it.index() as int)).len(),
    {
        proof {
            lemma_char_split(text@, it.index() as int);
            lemma_char_split(text@, it.index() + 1);
        }
        if seen == k {
            return at;
        }
        seen += 1;
        at += width(c);
    }
    proof {
        lemma_char_split(text@, text@.len() as int);
    }
    at
}

/// The characters `from..to` of `text`.
fn char_slice<'a>(text: &'a str, from: usize, to: usize) -> (r: &'a str)
    requires
        from <= to <= text@.len(),
    ensures
        r@ == text@.subrange(from as int, to as int),
{
    let a: usize = offset_of(text, from);
    let b: usize = offset_of(text, to);
    proof {
        let s = text@;
        lemma_char_split(s, from as int);
        lemma_char_split(s, to as int);
        assert(s.take(to as int) =~= s.take(from as int) + s.subrange(from as int, to as int));
        crate::text::lemma_bytes_concat(s.take(from as int), s.subrange(from as int, to as int));
    }
    let r = slice(text, a, b);
    proof {
        assert(r.spec_bytes() =~= bytes(text@.subrange(from as int, to as int)));
        lemma_bytes_injective(r@, text@.subrange(from as int, to as int));
    }
    r
}

/// `text` cut to `room` characters, with an ellipsis standing for the middle.
pub fn ellipsise(text: &str, room: usize) -> (r: String)
    ensures
        r@ == ellipsised(text@, room as int),
{
    let n: usize = char_count(text);
    if n <= room {
        return String::from_str(text);
    }
    if room < 4 {
        let head = char_slice(text, 0, room);
        assert(text@.subrange(0, room as int) =~= text@.take(room as int));
        return String::from_str(head);
    }
    let tail: usize = (room - 1) / 2;
    let head: usize = room - 1 - tail;
    let mut r = String::from_str(char_slice(text, 0, head));
    r.append("…");
    r.append(char_slice(text, n - tail, n));
    proof {
        assert(text@.subrange(0, head as int) =~= text@.take(head as int));
        assert(text@.subrange(n - tail, n as int) =~= text@.skip(n - tail));
    }
    r
}

/// What is written in place of a picture that is not in the store, where `room`
/// characters fit: its name, as much of it as fits or, where nothing to recognise
/// it by would, a mark.
pub open spec fn missing(name: Seq<char>, room: int) -> Seq<char> {
    if room < 13 {
        "?"@
    } else if room >= name.len() + 9 {
        "missing: "@ + name
    } else {
        "missing: "@ + ellipsised(name, room - 9)
    }
}

/// What is written in place of a picture that is not in the store.
pub fn missing_label(name: &str, room: usize) -> (r: String)
    ensures
        r@ == missing(name@, room as int),
{
    if room < 13 {
        return String::from_str("?");
    }
    let mut r = String::from_str("missing: ");
    if room - 9 >= char_count(name) {
        r.append(name);
    } else {
        let cut = ellipsise(name, room - 9);
        r.append(cut.as_str());
    }
    r
}

/// What is cut fits, and what fits is not cut.
pub proof fn law_ellipsis_fits(text: Seq<char>, room: int)
    requires
        0 <= room,
    ensures
        ellipsised(text, room).len() <= room,
        text.len() <= room ==> ellipsised(text, room) == text,
        text.len() >= room ==> ellipsised(text, room).len() == room,
{
    reveal_strlit("…");
}

/// What is cut keeps its two ends, the head no shorter than the tail and at most one
/// character longer, with an ellipsis between them; where there is no room for that the
/// head is all there is.
pub proof fn law_both_ends_are_kept(text: Seq<char>, room: int)
    requires
        0 <= room < text.len(),
    ensures
        ({
            let r = ellipsised(text, room);
            let n = text.len() as int;
            let head = if room < 4 {
                room
            } else {
                room / 2
            };
            &&& forall|k: int| 0 <= k < head ==> #[trigger] r[k] == text[k]
            &&& room >= 4 ==> r[head] == '…'
            &&& forall|k: int| head < k < room ==> #[trigger] r[k] == text[n - room + k]
        }),
{
    reveal_strlit("…");
}

/// A missing picture is named, whole where there is room for that; where there is not even
/// room for the beginning of a name, a mark stands for it.
pub proof fn law_a_missing_picture_is_named(name: Seq<char>, room: int)
    requires
        0 <= room,
    ensures
        room < 13 ==> missing(name, room) == seq!['?'],
        room >= 13 ==> missing(name, room).len() <= room && missing(name, room).take(9) == "missing: "@,
        room >= 13 && room >= 9 + name.len() ==> missing(name, room).skip(9) == name,
        room >= 13 && room < 9 + name.len() ==> missing(name, room).skip(9) == ellipsised(
            name,
            room - 9,
        ),
{
    reveal_strlit("?");
    reveal_strlit("missing: ");
    assert("?"@ =~= seq!['?']);
    let r = missing(name, room);
    if room >= 13 {
        law_ellipsis_fits(name, room - 9);
        assert(r.take(9) =~= "missing: "@);
        if room >= name.len() + 9 {
            assert(r.skip(9) =~= name);
        } else {
            assert(r.skip(9) =~= ellipsised(name, room - 9));
        }
    }
}

} // verus!
