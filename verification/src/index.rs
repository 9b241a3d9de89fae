//! A line index: the byte offset at which every line starts.

use vstd::prelude::*;
use vstd::string::*;

use crate::ascii::NEWLINE;
use crate::lines::{
    ints, lemma_ints_push, lemma_line_of, lemma_line_starts, lemma_starts_concat,
    lemma_starts_within, line_count, line_end, line_of, line_start, line_starts, moved,
    starts_within,
};
use crate::text::replaced;

verus! {

broadcast use {vstd::seq::group_seq_axioms, vstd::string::group_string_axioms};

/// Where every line of a text starts. It answers line lookups without scanning
/// the text, and is patched, not rebuilt, after an edit.
#[derive(Clone, Debug, PartialEq, Eq)]
pub struct LineIndex {
    starts: Vec<usize>,
    len: usize,
}

impl LineIndex {
    /// Whether this is the index of text `b`.
    pub closed spec fn indexes(&self, b: Seq<u8>) -> bool {
        ints(self.starts@) == line_starts(b) && self.len == b.len()
    }

    /// A text that has an index has no more lines, and no more bytes, than a machine
    /// word counts.
    pub proof fn lemma_line_count(&self, b: Seq<u8>)
        requires
            self.indexes(b),
        ensures
            line_count(b) <= usize::MAX,
            b.len() <= usize::MAX,
    {
        assert(self.starts.len() == self.starts@.len());
        assert(ints(self.starts@).len() == self.starts@.len());
    }

    /// The index of `text`.
    pub fn new(text: &str) -> (r: LineIndex)
        ensures
            r.indexes(text.spec_bytes()),
    {
        let b = text.as_bytes();
        let n: usize = b.len();
        let mut starts: Vec<usize> = Vec::new();
        starts.push(0);
        assert(ints(starts@) =~= seq![0]);
        Self::push_starts(b, 0, &mut starts);
        proof {
            lemma_line_starts(b@);
            assert(seq![0] + moved(line_starts(b@).skip(1), 0) =~= line_starts(b@));
        }
        LineIndex { starts, len: n }
    }

    /// Append the line starts of `b`, which begins at `base`, but for the first.
    fn push_starts(b: &[u8], base: usize, starts: &mut Vec<usize>)
        requires
            base + b@.len() <= usize::MAX,
        ensures
            ints(final(starts)@) == ints(old(starts)@) + moved(line_starts(b@).skip(1), base as int),
    {
        let n: usize = b.len();
        let mut i: usize = 0;
        let ghost before = ints(starts@);
        assert(before + moved(starts_within(b@, 0).skip(1), base as int) =~= before);
        while i < n
            invariant
                n == b@.len(),
                i <= n,
                base + n <= usize::MAX,
                ints(starts@) == before + moved(starts_within(b@, i as int).skip(1), base as int),
            decreases n - i,
        {
            proof {
                lemma_starts_within(b@, i as int);
            }
            if b[i] == NEWLINE {
                proof {
                    lemma_ints_push(starts@, (base + i + 1) as usize);
                    let so_far = moved(starts_within(b@, i as int).skip(1), base as int);
                    assert(moved(starts_within(b@, i + 1).skip(1), base as int) =~= so_far.push(
                        base + i + 1,
                    ));
                    assert((before + so_far).push(base + i + 1) =~= before + so_far.push(
                        base + i + 1,
                    ));
                }
                starts.push(base + i + 1);
            }
            i += 1;
        }
    }

    /// How many bytes the text has.
    pub fn len(&self) -> (r: usize)
        ensures
            forall|b: Seq<u8>| self.indexes(b) ==> r == b.len(),
    {
        self.len
    }

    /// How many lines the text has.
    pub fn line_count(&self) -> (r: usize)
        ensures
            forall|b: Seq<u8>| self.indexes(b) ==> r == line_count(b),
    {
        assert forall|b: Seq<u8>| self.indexes(b) implies self.starts@.len() == line_count(b) by {
            assert(ints(self.starts@).len() == self.starts@.len());
        }
        self.starts.len()
    }

    /// The line that byte `offset` is on; the last line for an offset past the
    /// end.
    pub fn line_at(&self, offset: usize) -> (r: usize)
        requires
            exists|b: Seq<u8>| self.indexes(b),
        ensures
            forall|b: Seq<u8>| self.indexes(b) ==> r == line_of(b, offset as int),
    {
        let ghost text = choose|b: Seq<u8>| self.indexes(b);
        let ghost starts = ints(self.starts@);
        proof {
            lemma_line_starts(text);
            assert(starts.len() == self.starts@.len());
        }
        // The answer lies in `lo..hi`: its start is at or before the offset.
        let mut lo: usize = 0;
        let mut hi: usize = self.starts.len();
        while hi - lo > 1
            invariant
                starts == ints(self.starts@),
                starts == line_starts(text),
                lo < hi <= self.starts@.len(),
                starts[lo as int] <= offset,
                hi < self.starts@.len() ==> starts[hi as int] > offset,
            decreases hi - lo,
        {
            let mid: usize = lo + (hi - lo) / 2;
            assert(starts[mid as int] == self.starts@[mid as int]);
            if self.starts[mid] <= offset {
                lo = mid;
            } else {
                hi = mid;
            }
        }
        assert forall|b: Seq<u8>| self.indexes(b) implies lo == line_of(b, offset as int) by {
            lemma_line_of(b, offset as int);
            let l = line_of(b, offset as int);
            assert(line_starts(b)[lo as int] <= offset);
            if lo + 1 < line_count(b) {
                assert(line_starts(b)[lo + 1] > offset);
            }
        }
        lo
    }

    /// The byte offset at which `line` starts; the end of the text for a line
    /// past the last.
    pub fn line_start(&self, line: usize) -> (r: usize)
        ensures
            forall|b: Seq<u8>| self.indexes(b) ==> r == line_start(b, line as int),
    {
        assert(ints(self.starts@).len() == self.starts@.len());
        if line < self.starts.len() {
            assert(ints(self.starts@)[line as int] == self.starts@[line as int]);
            self.starts[line]
        } else {
            self.len
        }
    }

    /// The byte offset at which `line` ends, its newline not included; the end
    /// of the text for a line past the last.
    pub fn line_end(&self, line: usize) -> (r: usize)
        requires
            exists|b: Seq<u8>| self.indexes(b),
        ensures
            forall|b: Seq<u8>| self.indexes(b) ==> r == line_end(b, line as int),
    {
        proof {
            let b = choose|b: Seq<u8>| self.indexes(b);
            lemma_line_starts(b);
            assert(ints(self.starts@).len() == self.starts@.len());
            if line + 1 < line_count(b) {
                assert(line_starts(b)[line + 1] == self.starts@[line + 1]);
            }
        }
        if line < self.starts.len() && line + 1 < self.starts.len() {
            self.starts[line + 1] - 1
        } else {
            self.len
        }
    }

    /// The byte range of `line` without its newline; `None` past the last line.
    pub fn line_range(&self, line: usize) -> (r: Option<(usize, usize)>)
        requires
            exists|b: Seq<u8>| self.indexes(b),
        ensures
            forall|b: Seq<u8>|
                self.indexes(b) ==> r == (if line < line_count(b) {
                    Some((line_start(b, line as int) as usize, line_end(b, line as int) as usize))
                } else {
                    None
                }),
    {
        if line < self.line_count() {
            Some((self.line_start(line), self.line_end(line)))
        } else {
            None
        }
    }

    /// Patch the index after an edit: `text` is what the text has become, with
    /// `inserted` standing at `at` where `removed` stood before.
    pub fn splice(&mut self, text: &str, at: usize, removed: &str, inserted: &str)
        requires
            at + inserted.spec_bytes().len() <= text.spec_bytes().len(),
            text.spec_bytes().subrange(at as int, at + inserted.spec_bytes().len())
                == inserted.spec_bytes(),
            old(self).indexes(
                replaced(
                    text.spec_bytes(),
                    at as int,
                    at + inserted.spec_bytes().len(),
                    removed.spec_bytes(),
                ),
            ),
        ensures
            final(self).indexes(text.spec_bytes()),
    {
        let new_len: usize = text.as_bytes().len();
        let gone = removed.as_bytes();
        let come = inserted.as_bytes();
        let gone_len: usize = gone.len();
        let come_len: usize = come.len();
        let ghost after = text.spec_bytes();
        let ghost head = after.subrange(0, at as int);
        let ghost tail = after.subrange(at + come_len, after.len() as int);
        let ghost before = replaced(after, at as int, at + come_len, gone@);
        proof {
            assert(before =~= head + gone@ + tail);
            assert(after =~= head + come@ + tail);
            lemma_starts_concat(head + gone@, tail);
            lemma_starts_concat(head, gone@);
            lemma_starts_concat(head + come@, tail);
            lemma_starts_concat(head, come@);
            lemma_line_starts(head);
            lemma_line_starts(gone@);
            lemma_line_starts(come@);
            lemma_line_starts(tail);
            lemma_line_starts(before);
        }
        let ghost kept = line_starts(head);
        let ghost dropped = moved(line_starts(gone@).skip(1), at as int);
        let ghost added = moved(line_starts(come@).skip(1), at as int);
        let ghost rest = line_starts(tail).skip(1);
        proof {
            lemma_line_of(before, at as int);
            lemma_kept_count(head, gone@, tail);
            assert(ints(self.starts@).len() == self.starts@.len());
            assert(self.starts.len() == self.starts@.len());
        }
        let first: usize = self.line_at(at) + 1;
        proof {
            assert(line_starts(before) == kept + dropped + moved(rest, at + gone_len));
            assert(line_starts(after) == kept + added + moved(rest, at + come_len));
        }
        let skip: usize = count_newlines(gone);
        let old_starts = self.starts.clone();
        let mut starts: Vec<usize> = Vec::new();
        let mut k: usize = 0;
        while k < first
            invariant
                first == kept.len(),
                first <= old_starts@.len(),
                ints(old_starts@) == kept + dropped + moved(rest, at + gone_len),
                k <= first,
                ints(starts@) == kept.take(k as int),
            decreases first - k,
        {
            assert(ints(old_starts@)[k as int] == kept[k as int]);
            proof {
                lemma_ints_push(starts@, old_starts@[k as int]);
                assert(kept.take(k as int).push(kept[k as int]) =~= kept.take(k + 1));
            }
            starts.push(old_starts[k]);
            k += 1;
        }
        assert(kept.take(first as int) =~= kept);
        Self::push_starts(come, at, &mut starts);
        let mut m: usize = first + skip;
        assert(moved(rest, at + come_len).take(0) =~= Seq::empty());
        assert(ints(starts@) + moved(rest, at + come_len).take(0) =~= kept + added);
        while m < old_starts.len()
            invariant
                first + skip <= m <= old_starts@.len(),
                first == kept.len(),
                skip == dropped.len(),
                ints(old_starts@) == kept + dropped + moved(rest, at + gone_len),
                old_starts@.len() == first + skip + rest.len(),
                tail.len() + at + come_len == new_len,
                forall|i: int| 0 <= i < rest.len() ==> 0 <= #[trigger] rest[i] <= tail.len(),
                ints(starts@) == kept + added + moved(rest, at + come_len).take(m - first - skip),
            decreases old_starts@.len() - m,
        {
            let ghost i = m - first - skip;
            proof {
                assert(ints(old_starts@)[m as int] == moved(rest, at + gone_len)[i]);
                assert(old_starts@[m as int] == rest[i] + at + gone_len);
                lemma_ints_push(starts@, (rest[i] + at + come_len) as usize);
                let shifted = moved(rest, at + come_len);
                assert((kept + added + shifted.take(i)).push(shifted[i]) =~= kept + added + shifted.take(
                    i + 1,
                ));
            }
            starts.push(old_starts[m] - gone_len + come_len);
            m += 1;
        }
        assert(moved(rest, at + come_len).take(rest.len() as int) =~= moved(rest, at + come_len));
        self.starts = starts;
        self.len = new_len;
    }
}

/// How many newlines `b` holds.
pub fn count_newlines(b: &[u8]) -> (r: usize)
    ensures
        r == line_count(b@) - 1,
{
    let n: usize = b.len();
    let mut i: usize = 0;
    let mut count: usize = 0;
    while i < n
        invariant
            n == b@.len(),
            count <= i <= n,
            count == crate::text::copies(b@, NEWLINE, i as int),
        decreases n - i,
    {
        if b[i] == NEWLINE {
            count += 1;
        }
        i += 1;
    }
    proof {
        lemma_line_starts(b@);
    }
    count
}

/// The line that the end of `head` is on is the last of the head's own lines.
proof fn lemma_kept_count(head: Seq<u8>, middle: Seq<u8>, tail: Seq<u8>)
    ensures
        line_of(head + middle + tail, head.len() as int) + 1 == line_count(head),
{
    let all = head + middle + tail;
    lemma_line_starts(head);
    crate::lines::lemma_starts_prefix(all, head, head.len() as int);
}

} // verus!
