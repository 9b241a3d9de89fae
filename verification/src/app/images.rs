//! Pictures in the note: a line that is nothing but a reference into the image
//! store, and the size it records.

use vstd::prelude::*;
use vstd::string::*;
use vstd::utf8::*;

use crate::app::{
    edited, holder, kept, lemma_replaced_boundaries, record_of, ungrouped, Edit, EditState, Holder,
    NoteApp, State,
};
use crate::decimal::{decimal, to_decimal};
use crate::lines::{lemma_line, lemma_line_boundaries, line, line_count, line_end, line_start};
use crate::text::{
    boundary, byte_len, bytes, lemma_char_split, lemma_string_ends, replaced, same_text, slice,
    width,
};

verus! {

broadcast use {vstd::seq::group_seq_axioms, vstd::string::group_string_axioms};

/// A reference into the image store: the alternative text, which ends in the
/// recorded size if there is one, the file's name, and the size.
#[derive(Debug, PartialEq, Eq)]
pub struct Reference {
    pub alt: String,
    pub name: String,
    pub size: Option<(u32, u32)>,
}

/// What the reader wrote of an alternative text: all but the last of the fields
/// that `|` parts it into, if it has more than one.
pub open spec fn written_alt(alt: Seq<char>) -> Seq<char>
    decreases alt.len(),
{
    if !alt.contains('|') || alt.len() == 0 {
        alt
    } else if alt.last() == '|' {
        alt.drop_last()
    } else {
        written_alt(alt.drop_last())
    }
}

/// The reference to `name` at `size`, its files being under `prefix`.
pub open spec fn reference_text(
    alt: Seq<char>,
    size: Option<(u32, u32)>,
    prefix: Seq<char>,
    name: Seq<char>,
) -> Seq<char> {
    match size {
        Some((w, h)) => "!["@ + alt + "|"@ + decode_utf8(decimal(w as nat)) + "x"@ + decode_utf8(
            decimal(h as nat),
        ) + "]("@ + prefix + name + ")"@,
        None => "!["@ + alt + "]("@ + prefix + name + ")"@,
    }
}

/// Where an offset goes when the reference `start..end` is written anew with
/// `len` bytes. Its end stays its end, so that a picture that was selected stays
/// so; the middle of a reference is nowhere to be.
pub open spec fn kept_place(offset: int, start: int, end: int, len: int) -> int {
    if offset >= end {
        offset - end + start + len
    } else if offset > start {
        start
    } else {
        offset
    }
}

/// The text that takes the place of a picture's line.
pub open spec fn resized_text(r: Reference, size: Option<(u32, u32)>, prefix: Seq<char>) -> Seq<char> {
    reference_text(written_alt(r.alt@), size, prefix, r.name@)
}

/// Whether writing the reference on line `l` anew changes anything.
pub open spec fn resizes(s: State, l: int, r: Reference, size: Option<(u32, u32)>, prefix: Seq<char>) -> bool {
    &&& holder(s) == Holder::Note
    &&& l < line_count(s.text)
    &&& r.size != size
    &&& line(s.text, l) != bytes(resized_text(r, size, prefix))
}

/// The selection then: restored rather than moved to the picture's line, where
/// the caret would be the cue to show its reference.
pub open spec fn resized_selection(s: State, l: int, len: int) -> (int, int) {
    let from = line_start(s.text, l);
    let to = line_end(s.text, l);
    (kept_place(s.start, from, to, len), kept_place(s.end, from, to, len))
}

/// `s` with the picture on line `l` at another size.
pub open spec fn resized(
    s: State,
    l: int,
    r: Reference,
    size: Option<(u32, u32)>,
    prefix: Seq<char>,
    now: u64,
) -> State {
    let with = bytes(resized_text(r, size, prefix));
    let (start, end) = resized_selection(s, l, with.len() as int);
    if resizes(s, l, r, size, prefix) {
        ungrouped(
            edited(
                ungrouped(s),
                line_start(s.text, l),
                line_end(s.text, l),
                with,
                start,
                end,
                now,
            ),
        )
    } else {
        s
    }
}

/// What undo keeps of that.
pub open spec fn resized_edit(
    s: State,
    l: int,
    r: Reference,
    size: Option<(u32, u32)>,
    prefix: Seq<char>,
) -> Option<EditState> {
    let with = bytes(resized_text(r, size, prefix));
    let (start, end) = resized_selection(s, l, with.len() as int);
    if resizes(s, l, r, size, prefix) {
        Some(
            record_of(
                ungrouped(s),
                line_start(s.text, l),
                line_end(s.text, l),
                with,
                start,
                end,
            ),
        )
    } else {
        None
    }
}

fn same_size(a: Option<(u32, u32)>, b: Option<(u32, u32)>) -> (r: bool)
    ensures
        r == (a == b),
{
    match (a, b) {
        (Some((w, h)), Some((x, y))) => w == x && h == y,
        (None, None) => true,
        _ => false,
    }
}

/// What the reader wrote of an alternative text.
fn written<'a>(alt: &'a str) -> (r: &'a str)
    ensures
        r@ == written_alt(alt@),
{
    // `at` is the offset of the next character, `cut` that of the last `|`.
    let mut at: usize = 0;
    let mut cut: Option<usize> = None;
    let ghost mut k: int = -1;
    let n: usize = byte_len(alt);
    for c in it: alt.chars()
        invariant
            it.seq() == alt@,
            n == alt.spec_bytes().len(),
            at == bytes(alt@.take(it.index() as int)).len(),
            match cut {
                Some(p) => 0 <= k < it.index() && alt@[k] == '|' && p == bytes(alt@.take(k)).len()
                    && forall|j: int| k < j < it.index() ==> #[trigger] alt@[j] != '|',
                None => forall|j: int| 0 <= j < it.index() ==> #[trigger] alt@[j] != '|',
            },
    {
        proof {
            lemma_char_split(alt@, it.index() as int);
            lemma_char_split(alt@, it.index() + 1);
        }
        if c == '|' {
            cut = Some(at);
            proof {
                k = it.index() as int;
            }
        }
        at += width(c);
    }
    match cut {
        Some(p) => {
            proof {
                lemma_char_split(alt@, k);
                lemma_string_ends(alt@);
                lemma_written(alt@, k);
            }
            let head = slice(alt, 0, p);
            proof {
                assert(head.spec_bytes() =~= bytes(alt@.take(k)));
                crate::text::lemma_bytes_injective(head@, alt@.take(k));
            }
            head
        },
        None => {
            assert(!alt@.contains('|'));
            alt
        },
    }
}

/// What stands before the last `|`.
proof fn lemma_written(alt: Seq<char>, k: int)
    requires
        0 <= k < alt.len(),
        alt[k] == '|',
        forall|j: int| k < j < alt.len() ==> #[trigger] alt[j] != '|',
    ensures
        written_alt(alt) == alt.take(k),
    decreases alt.len(),
{
    assert(alt.contains('|'));
    if k == alt.len() - 1 {
        assert(alt.take(k) =~= alt.drop_last());
    } else {
        lemma_written(alt.drop_last(), k);
        assert(alt.drop_last().take(k) =~= alt.take(k));
    }
}

/// The reference to `name` at `size`.
fn write_reference(alt: &str, size: Option<(u32, u32)>, prefix: &str, name: &str) -> (r: String)
    ensures
        r@ == reference_text(alt@, size, prefix@, name@),
{
    let mut r = String::from_str("![");
    r.append(alt);
    if let Some((w, h)) = size {
        let wide = to_decimal(w as u64);
        let high = to_decimal(h as u64);
        proof {
            encode_utf8_decode_utf8(wide@);
            encode_utf8_decode_utf8(high@);
        }
        r.append("|");
        r.append(wide.as_str());
        r.append("x");
        r.append(high.as_str());
    }
    r.append("](");
    r.append(prefix);
    r.append(name);
    r.append(")");
    r
}

/// A selection keeps its order and its boundaries when a reference is written
/// anew.
proof fn lemma_kept_place(b: Seq<u8>, offset: int, start: int, end: int, with: Seq<u8>)
    requires
        valid_utf8(b),
        valid_utf8(with),
        boundary(b, offset),
        boundary(b, start),
        boundary(b, end),
        start <= end,
    ensures
        boundary(replaced(b, start, end, with), kept_place(offset, start, end, with.len() as int)),
        kept_place(offset, start, end, with.len() as int) <= replaced(b, start, end, with).len(),
{
    lemma_replaced_boundaries(b, start, end, with);
    if offset >= end {
        assert(boundary(
            replaced(b, start, end, with),
            offset - end + start + with.len(),
        ));
    } else if offset > start {
        assert(boundary(replaced(b, start, end, with), start));
    } else {
        assert(boundary(replaced(b, start, end, with), offset));
    }
}

impl NoteApp {
    /// Write the reference `r`, which is line `l`, anew with the size `size`. The
    /// caret and the selection stay where they are, and the edit is an undo step
    /// of its own.
    pub fn rewrite_image_line(
        &mut self,
        l: usize,
        r: &Reference,
        size: Option<(u32, u32)>,
        prefix: &str,
        now: u64,
    ) -> (edit: Option<Edit>)
        requires
            old(self).wf(),
        ensures
            final(self).wf(),
            final(self)@ == resized(old(self)@, l as int, *r, size, prefix@, now),
            kept(edit) == resized_edit(old(self)@, l as int, *r, size, prefix@),
    {
        let ghost s = self@;
        match self.keyboard() {
            Holder::Note => {},
            _ => {
                return None;
            },
        }
        if l >= self.index.line_count() || same_size(r.size, size) {
            return None;
        }
        proof {
            self.lemma_wf();
            lemma_line(s.text, l as int);
            lemma_line_boundaries(s.text, l as int);
        }
        let from: usize = self.index.line_start(l);
        let to: usize = self.index.line_end(l);
        let text = write_reference(written(r.alt.as_str()), size, prefix, r.name.as_str());
        if same_text(slice(self.note.text(), from, to), text.as_str()) {
            return None;
        }
        proof {
            lemma_string_ends(text@);
            lemma_kept_place(s.text, s.start, from as int, to as int, bytes(text@));
            lemma_kept_place(s.text, s.end, from as int, to as int, bytes(text@));
        }
        Some(self.rewrite_in_place(from, to, text.as_str(), now))
    }

    /// Write `from..to` anew as an undo step of its own, the selection kept.
    fn rewrite_in_place(&mut self, from: usize, to: usize, with: &str, now: u64) -> (edit: Edit)
        requires
            old(self).wf(),
            from <= to,
            boundary(old(self)@.text, from as int),
            boundary(old(self)@.text, to as int),
        ensures
            final(self).wf(),
            ({
                let s = old(self)@;
                let n = with.spec_bytes().len() as int;
                let start = kept_place(s.start, from as int, to as int, n);
                let end = kept_place(s.end, from as int, to as int, n);
                &&& final(self)@ == ungrouped(
                    edited(
                        ungrouped(s),
                        from as int,
                        to as int,
                        with.spec_bytes(),
                        start,
                        end,
                        now,
                    ),
                )
                &&& edit@ == record_of(
                    ungrouped(s),
                    from as int,
                    to as int,
                    with.spec_bytes(),
                    start,
                    end,
                )
            }),
    {
        let ghost s = self@;
        let (start, end): (usize, usize) = (self.start, self.end);
        let n: usize = byte_len(with);
        proof {
            self.lemma_wf();
            lemma_string_ends(with@);
            lemma_kept_place(s.text, s.start, from as int, to as int, with.spec_bytes());
            lemma_kept_place(s.text, s.end, from as int, to as int, with.spec_bytes());
        }
        self.break_group();
        let mut edit = self.put(from, to, with, now);
        proof {
            self.lemma_wf();
        }
        self.start = Self::keep_place(start, from, to, n);
        self.end = Self::keep_place(end, from, to, n);
        edit.after = (self.start, self.end);
        self.break_group();
        edit
    }

    fn keep_place(offset: usize, start: usize, end: usize, len: usize) -> (r: usize)
        requires
            start <= end,
            kept_place(offset as int, start as int, end as int, len as int) <= usize::MAX,
            start + len <= usize::MAX,
        ensures
            r == kept_place(offset as int, start as int, end as int, len as int),
    {
        if offset >= end {
            (offset - end) + (start + len)
        } else if offset > start {
            start
        } else {
            offset
        }
    }

    /// The end of a drag on the grip of the picture `name` in line `l`, where the
    /// reference `found` is now. Only a drag that travelled is a resize, and only
    /// if the line is still that picture.
    pub fn end_image_drag(
        &mut self,
        l: usize,
        found: &Option<Reference>,
        name: &str,
        travelled: bool,
        size: (u32, u32),
        prefix: &str,
        now: u64,
    ) -> (edit: Option<Edit>)
        requires
            old(self).wf(),
        ensures
            final(self).wf(),
            match *found {
                Some(r) if travelled && r.name@ == name@ => {
                    &&& final(self)@ == resized(old(self)@, l as int, r, Some(size), prefix@, now)
                    &&& kept(edit) == resized_edit(old(self)@, l as int, r, Some(size), prefix@)
                },
                _ => edit is None && final(self)@ == old(self)@,
            },
    {
        if !travelled {
            return None;
        }
        match found {
            Some(r) => {
                if !same_text(r.name.as_str(), name) {
                    return None;
                }
                self.rewrite_image_line(l, r, Some(size), prefix, now)
            },
            None => None,
        }
    }
}

/// The size goes from the end of an alternative text: what stands before the last bar is
/// what was written. Without a bar all of it was.
pub proof fn law_the_size_is_behind_the_last_bar(a: Seq<char>, b: Seq<char>)
    requires
        !b.contains('|'),
    ensures
        written_alt(b) == b,
        written_alt(a + seq!['|'] + b) == a,
    decreases b.len(),
{
    let s = a + seq!['|'] + b;
    assert(s[a.len() as int] == '|');
    assert(s.contains('|'));
    if b.len() == 0 {
        assert(s.last() == '|');
        assert(s.drop_last() =~= a);
    } else {
        let front = b.drop_last();
        assert(!front.contains('|')) by {
            if front.contains('|') {
                let k = choose|k: int| 0 <= k < front.len() && front[k] == '|';
                assert(b[k] == '|');
            }
        }
        assert(s.last() == b.last());
        if b.last() == '|' {
            assert(b[b.len() - 1] == '|');
        }
        assert(s.drop_last() =~= a + seq!['|'] + front);
        law_the_size_is_behind_the_last_bar(a, front);
    }
}

/// A reference is an exclamation mark, the alternative text in brackets, with the width and
/// the height behind a bar where they are known, and the file in parentheses.
pub proof fn law_a_reference_is_written_out(
    alt: Seq<char>,
    w: u32,
    h: u32,
    prefix: Seq<char>,
    name: Seq<char>,
)
    ensures
        reference_text(alt, None, prefix, name) == seq!['!', '['] + alt + seq![']', '('] + prefix + name
            + seq![')'],
        reference_text(alt, Some((w, h)), prefix, name) == seq!['!', '['] + alt + seq!['|']
            + decode_utf8(decimal(w as nat)) + seq!['x'] + decode_utf8(decimal(h as nat)) + seq![
            ']',
            '(',
        ] + prefix + name + seq![')'],
{
    reveal_strlit("![");
    reveal_strlit("|");
    reveal_strlit("x");
    reveal_strlit("](");
    reveal_strlit(")");
    assert("!["@ =~= seq!['!', '[']);
    assert("|"@ =~= seq!['|']);
    assert("x"@ =~= seq!['x']);
    assert("]("@ =~= seq![']', '(']);
    assert(")"@ =~= seq![')']);
}

/// Resizing a picture writes its line anew and changes nothing else. A selection that ends
/// before the line, or with it or behind it, keeps its distance; one that starts inside
/// goes to the line's start.
pub proof fn law_resizing_writes_the_line_anew(
    s: State,
    l: int,
    r: Reference,
    size: Option<(u32, u32)>,
    prefix: Seq<char>,
    now: u64,
)
    requires
        0 <= l < line_count(s.text),
        holder(s) == Holder::Note,
        r.size != size,
        line(s.text, l) != bytes(resized_text(r, size, prefix)),
        0 <= s.start <= s.text.len(),
        0 <= s.end <= s.text.len(),
    ensures
        ({
            let from = line_start(s.text, l);
            let to = line_end(s.text, l);
            let with = bytes(resized_text(r, size, prefix));
            let t = resized(s, l, r, size, prefix, now);
            &&& t.text == s.text.subrange(0, from) + with + s.text.subrange(to, s.text.len() as int)
            &&& s.start <= from && s.start < to ==> t.start == s.start
            &&& from < s.start < to ==> t.start == from
            &&& s.start >= to ==> t.text.len() - t.start == s.text.len() - s.start
            &&& s.end <= from && s.end < to ==> t.end == s.end
            &&& from < s.end < to ==> t.end == from
            &&& s.end >= to ==> t.text.len() - t.end == s.text.len() - s.end
            &&& t.marked is None
            &&& !t.grouped
            &&& t.saving.dirty_since == Some(now)
        }),
{
    lemma_line(s.text, l);
}

/// A picture that has the size already, and one whose line says so already, is left alone.
pub proof fn law_a_picture_of_that_size_is_left_alone(
    s: State,
    l: int,
    r: Reference,
    size: Option<(u32, u32)>,
    prefix: Seq<char>,
    now: u64,
)
    requires
        r.size == size || l >= line_count(s.text) || line(s.text, l) == bytes(
            resized_text(r, size, prefix),
        ),
    ensures
        resized(s, l, r, size, prefix, now) == s,
        resized_edit(s, l, r, size, prefix) is None,
{
}

} // verus!
