//! Indentation of list items. A level is a tab, or two spaces.

use vstd::prelude::*;
use vstd::string::*;

use crate::ascii::{SPACE, TAB};
use crate::markdown::scan::{is_space, lemma_run, run, run_len, space};
use crate::markdown::{blanks_end, lemma_blanks_end, skip_blanks};
use crate::text::{bytes, lemma_ascii_boundary, lemma_string_ends, slice};

verus! {

broadcast use {vstd::seq::group_seq_axioms, vstd::string::group_string_axioms};

/// The spaces and tabs that `line` starts with.
pub fn indent_of<'a>(line: &'a str) -> (r: &'a str)
    ensures
        r.spec_bytes() == line.spec_bytes().subrange(0, blanks_end(line.spec_bytes(), 0)),
{
    let b = line.as_bytes();
    let end: usize = skip_blanks(b, 0);
    proof {
        lemma_string_ends(line@);
        lemma_blanks_end(b@, 0);
        if end > 0 {
            lemma_ascii_boundary(b@, end - 1);
        }
    }
    slice(line, 0, end)
}

/// Whether `line` is indented at all.
pub open spec fn indented(b: Seq<u8>) -> bool {
    b.len() > 0 && space(b[0])
}

/// The bytes one level of indentation takes at the head of `b`.
pub open spec fn level(b: Seq<u8>) -> int {
    if b.len() > 0 && b[0] == TAB {
        1
    } else if run(b, 0, SPACE) < 2 {
        run(b, 0, SPACE) as int
    } else {
        2
    }
}

/// `b` one level further out.
pub open spec fn outdented(b: Seq<u8>) -> Seq<u8> {
    b.subrange(level(b), b.len() as int)
}

/// Outdenting takes something off exactly where there is indentation to take.
pub proof fn law_outdenting_takes_what_is_there(b: Seq<u8>)
    ensures
        0 <= level(b) <= b.len(),
        level(b) > 0 <==> indented(b),
{
    lemma_run(b, 0, SPACE);
}

/// Outdenting takes a tab off, or two spaces, or the one space there is; a line that
/// starts with neither stays as it is.
pub proof fn law_outdenting_takes_a_tab_or_two_spaces(rest: Seq<u8>)
    ensures
        outdented(seq![TAB] + rest) == rest,
        outdented(seq![SPACE, SPACE] + rest) == rest,
        rest.len() == 0 || rest[0] != SPACE ==> outdented(seq![SPACE] + rest) == rest,
        rest.len() == 0 || (rest[0] != SPACE && rest[0] != TAB) ==> outdented(rest) == rest,
{
    let a = seq![TAB] + rest;
    assert(a[0] == TAB);
    assert(outdented(a) =~= rest);
    let b = seq![SPACE, SPACE] + rest;
    assert(b[0] == SPACE && b[1] == SPACE);
    assert(run(b, 0, SPACE) == 1 + run(b, 1, SPACE));
    assert(run(b, 1, SPACE) == 1 + run(b, 2, SPACE));
    assert(outdented(b) =~= rest);
    if rest.len() == 0 || rest[0] != SPACE {
        let c = seq![SPACE] + rest;
        assert(c[0] == SPACE);
        if rest.len() > 0 {
            assert(c[1] == rest[0]);
        }
        assert(run(c, 0, SPACE) == 1 + run(c, 1, SPACE));
        assert(run(c, 1, SPACE) == 0);
        assert(outdented(c) =~= rest);
    }
    if rest.len() == 0 || (rest[0] != SPACE && rest[0] != TAB) {
        assert(run(rest, 0, SPACE) == 0);
        assert(outdented(rest) =~= rest);
    }
}

/// Whether there is a level of indentation to take off `line`.
pub fn can_outdent(line: &str) -> (r: bool)
    ensures
        r == indented(line.spec_bytes()),
{
    let b = line.as_bytes();
    b.len() > 0 && is_space(b[0])
}

/// `line` with one level of indentation taken off.
pub fn outdent(line: &str) -> (r: String)
    ensures
        bytes(r@) == outdented(line.spec_bytes()),
{
    let b = line.as_bytes();
    let n: usize = b.len();
    let at: usize = if n > 0 && b[0] == TAB {
        1
    } else {
        let spaces: usize = run_len(b, 0, SPACE);
        if spaces < 2 {
            spaces
        } else {
            2
        }
    };
    proof {
        lemma_string_ends(line@);
        lemma_run(b@, 0, SPACE);
        if at > 0 {
            lemma_ascii_boundary(b@, at - 1);
        }
    }
    String::from_str(slice(line, at, n))
}

} // verus!
