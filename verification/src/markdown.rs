//! Lightweight markdown highlighter.

use vstd::prelude::*;
use vstd::string::*;
use vstd::utf8::*;

use crate::ascii::{
    BACKTICK, CLOSE_BRACKET, CLOSE_PAREN, DASH, DOT, EQUALS, GREATER, HASH, LOWER_X, NINE, OPEN_BRACKET,
    PLUS, SPACE, STAR, TAB, TILDE, UNDERSCORE, UPPER_X, ZERO,
};
use crate::markdown::cover::{
    covers_range, lemma_inline_covers, lemma_join, lemma_one, lemma_recoloured, lemma_widen,
    lemma_wrapped_covers, on_boundaries, tiles,
};
use crate::markdown::inline::{
    highlight_inline, highlight_wrapped, inline_spans, one, push, recoloured, wrapped_spans,
};
use crate::markdown::painted::{contiguous, joined_up, law_merging};
use crate::markdown::scan::{is_space, lemma_run, run, run_len, space};
use crate::text::{
    ascii_white, boundary, byte_len, bytes, copies, is_ascii_white, lemma_ascii_boundary,
    lemma_bytes_empty, lemma_string_ends, lemma_subrange_valid, slice, trim, trim_start, trimmed, trimmed_start,
};

pub mod addresses;
pub mod blocks;
pub mod carry;
pub mod clicks;
pub mod closing;
pub mod cover;
pub mod inline;
pub mod items;
pub mod links;
pub mod margins;
pub mod painted;
pub mod probes;
pub mod scan;
pub mod sentences;
pub mod shapes;
pub mod words;

pub use crate::markdown::carry::{continuation, Continuation};
pub use crate::markdown::links::link_at;

verus! {

broadcast use {vstd::seq::group_seq_axioms, vstd::string::group_string_axioms};

/// The visual role of a byte range on a line.
#[derive(Clone, Copy, Debug, PartialEq, Eq, Structural)]
pub enum MdStyle {
    /// Ordinary prose.
    Text,
    /// Heading body text; the u8 is the level 1..=6.
    Heading(u8),
    /// The `###` sigil and the space after it, for a heading of that level.
    HeadingMarker(u8),
    Bold,
    Italic,
    BoldItalic,
    Strikethrough,
    /// `==marked==`.
    Highlight,
    /// Inline `code`, backticks included.
    Code,
    /// Text inside a fenced code block.
    CodeBlock,
    /// The ``` fence line itself.
    Fence,
    /// Punctuation that is markup, not content: `*`, `_`, `~`, `=`, `[`, `]`,
    /// `(`, `)`. Rendered dim.
    Marker,
    /// The visible text of a `[text](url)` link.
    LinkText,
    /// A bare autolink.
    LinkUrl,
    /// The `- `, `* `, `+ `, `1. ` bullet at the head of a list item.
    ListMarker,
    /// An unchecked `[ ]` task box.
    TaskOpen,
    /// A checked `[x]` task box.
    TaskDone,
    /// The `>` blockquote sigil.
    QuoteMarker,
    /// Text inside a blockquote.
    Quote,
    /// A thematic-break line: `---`, `***`, `___`.
    Separator,
}

/// A styled byte range of a single line.
#[derive(Clone, Copy, Debug, PartialEq, Eq, Structural)]
pub struct Span {
    /// Byte offset into the LINE (not the document).
    pub start: usize,
    /// Byte offset into the LINE, exclusive.
    pub end: usize,
    pub style: MdStyle,
}

/// A [`Span`] over unbounded integers.
pub struct Styled {
    pub start: int,
    pub end: int,
    pub style: MdStyle,
}

impl View for Span {
    type V = Styled;

    open spec fn view(&self) -> Styled {
        Styled { start: self.start as int, end: self.end as int, style: self.style }
    }
}

/// The spans of a vector, each by its view.
pub open spec fn styled(spans: Seq<Span>) -> Seq<Styled> {
    Seq::new(spans.len(), |k: int| spans[k]@)
}

impl Span {
    /// The span of `style` over `start..end`.
    pub fn new(start: usize, end: usize, style: MdStyle) -> (r: Self)
        ensures
            r@ == (Styled { start: start as int, end: end as int, style }),
    {
        Span { start, end, style }
    }
}

// ---------------------------------------------------------------------------
// Block-level probes
// ---------------------------------------------------------------------------
/// How many `>` stand at offset `i`, with spaces and tabs between them.
pub open spec fn sigils(b: Seq<u8>, i: int) -> nat
    decreases b.len() - i,
{
    if i < 0 || i >= b.len() {
        0
    } else if b[i] == GREATER {
        1 + sigils(b, i + 1)
    } else if space(b[i]) {
        sigils(b, i + 1)
    } else {
        0
    }
}

/// How many `>` sigils a blockquote line opens with, counting through the
/// spaces between them. `0` for anything that is not a quote.
pub fn quote_depth(line: &str) -> (depth: usize)
    ensures
        depth == sigils(line.spec_bytes(), 0),
{
    let b = line.as_bytes();
    let n: usize = b.len();
    let mut depth: usize = 0;
    let mut i: usize = 0;
    while i < n && (b[i] == GREATER || is_space(b[i]))
        invariant
            n == b@.len(),
            depth <= i <= n,
            depth + sigils(b@, i as int) == sigils(b@, 0),
        ensures
            depth == sigils(b@, 0),
        decreases n - i,
    {
        if b[i] == GREATER {
            depth += 1;
        }
        i += 1;
    }
    depth
}

/// The width of the spaces and tabs at offset `i`, a tab counting four.
pub open spec fn indent_width(b: Seq<u8>, i: int) -> int
    decreases b.len() - i,
{
    if i < 0 || i >= b.len() {
        0
    } else if b[i] == TAB {
        4 + indent_width(b, i + 1)
    } else if b[i] == SPACE {
        1 + indent_width(b, i + 1)
    } else {
        0
    }
}

proof fn lemma_indent_width(b: Seq<u8>, i: int)
    ensures
        indent_width(b, i) >= 0,
    decreases b.len() - i,
{
    if 0 <= i < b.len() {
        lemma_indent_width(b, i + 1);
    }
}

/// Indented code: four columns of indentation in front of something that is
/// not a list item, a quote, a heading, a fence or a rule.
pub open spec fn indented_code(line: Seq<char>) -> bool {
    let b = bytes(line);
    let rest = bytes(trimmed_start(line));
    &&& indent_width(b, 0) >= 4
    &&& rest.len() > 0
    &&& list(b) is None
    &&& rest[0] != GREATER
    &&& heading(rest) is None
    &&& !fence(rest)
    &&& !separator(line)
}

/// Whether `line` is an indented code block: four spaces or a tab of
/// indentation, and nothing that would make it something else.
///
/// The caller supplies whether the line above is blank or itself indented code,
/// because a run of indented lines is one block and only its first line can be
/// decided on its own. A list marker, a quote, a heading or a rule always wins,
/// and the run must start after a blank line.
pub fn is_indented_code(line: &str, after_blank_or_code: bool) -> (r: bool)
    ensures
        r == (after_blank_or_code && indented_code(line@)),
{
    if !after_blank_or_code {
        return false;
    }
    let b = line.as_bytes();
    let n: usize = b.len();
    let mut indent: usize = 0;
    let mut i: usize = 0;
    proof {
        lemma_indent_width(b@, 0);
    }
    while i < n && indent < 4 && is_space(b[i])
        invariant
            n == b@.len(),
            i <= n,
            indent <= 7,
            indent_width(b@, i as int) >= 0,
            indent + indent_width(b@, i as int) == indent_width(b@, 0),
        ensures
            indent >= 4 <==> indent_width(b@, 0) >= 4,
        decreases n - i,
    {
        if b[i] == TAB {
            indent += 4;
        } else {
            indent += 1;
        }
        i += 1;
        proof {
            lemma_indent_width(b@, i as int);
        }
    }
    if indent < 4 {
        return false;
    }
    let rest = trim_start(line);
    let rb = rest.as_bytes();
    if rb.len() == 0 {
        return false;
    }
    list_marker_end(line).is_none() && rb[0] != GREATER && heading_at(rest).is_none() && !is_fence(
        rest,
    ) && !is_separator(line)
}

/// Where the ASCII white space that starts at `i` ends.
pub open spec fn white_end(b: Seq<u8>, i: int) -> int
    decreases b.len() - i,
{
    if 0 <= i < b.len() && ascii_white(b[i]) {
        white_end(b, i + 1)
    } else {
        i
    }
}

/// A run of `=` with nothing but ASCII white space around it.
pub open spec fn underline(b: Seq<u8>) -> bool {
    let from = white_end(b, 0);
    let to = from + run(b, from, EQUALS);
    from < to && white_end(b, to) == b.len()
}

/// Offset of the first byte at or after `from` that is not ASCII white space.
fn skip_white(b: &[u8], from: usize) -> (r: usize)
    requires
        from <= b@.len(),
    ensures
        r == white_end(b@, from as int),
        from <= r <= b@.len(),
{
    let n: usize = b.len();
    let mut i: usize = from;
    while i < n && is_ascii_white(b[i])
        invariant
            n == b@.len(),
            from <= i <= n,
            white_end(b@, i as int) == white_end(b@, from as int),
        ensures
            from <= i <= n,
            i == white_end(b@, from as int),
        decreases n - i,
    {
        i += 1;
    }
    i
}

/// Whether `line` is a run of `=`, which underlines the line above it into a
/// heading. `None` for anything else.
///
/// **Only `=`, though markdown also allows `-`.** A run of dashes is a note
/// separator.
///
/// Whether the line above is ordinary text is a question about the document
/// rather than about this line — [`takes_setext_underline`] answers that half.
pub fn setext_level(line: &str) -> (r: Option<u8>)
    ensures
        r == (if underline(line.spec_bytes()) {
            Some(1u8)
        } else {
            None
        }),
{
    let b = line.as_bytes();
    let n: usize = b.len();
    let from: usize = skip_white(b, 0);
    let run: usize = run_len(b, from, EQUALS);
    if run > 0 && skip_white(b, from + run) == n {
        Some(1)
    } else {
        None
    }
}

/// Whether `line` can carry a setext underline: ordinary prose, not blank, not
/// itself a rule, a fence, a heading, a quote or a list item.
pub open spec fn underlinable(line: Seq<char>) -> bool {
    let b = bytes(line);
    let rest = bytes(trimmed(line));
    &&& rest.len() > 0
    &&& !underline(b)
    &&& !fence(b)
    &&& !separator(line)
    &&& heading(b) is None
    &&& rest[0] != GREATER
    &&& list(b) is None
}

/// Whether `line` can carry a setext underline.
pub fn takes_setext_underline(line: &str) -> (r: bool)
    ensures
        r == underlinable(line@),
{
    let rb = trim(line).as_bytes();
    if rb.len() == 0 {
        return false;
    }
    setext_level(line).is_none() && !is_fence(line) && !is_separator(line) && heading_at(
        line,
    ).is_none() && rb[0] != GREATER && list_marker_end(line).is_none()
}

/// The spaces a block construct may be indented by: three at most.
pub open spec fn lead(b: Seq<u8>) -> int {
    if run(b, 0, SPACE) < 3 {
        run(b, 0, SPACE) as int
    } else {
        3
    }
}

/// How many spaces lead the line, counting three at most.
fn lead_len(b: &[u8]) -> (r: usize)
    ensures
        r == lead(b@),
        r <= b@.len(),
{
    let run: usize = run_len(b, 0, SPACE);
    if run < 3 {
        run
    } else {
        3
    }
}

/// A fence line: three or more of `` ` `` or `~`, indented by three spaces at
/// most; an info string after backticks holds no backtick.
pub open spec fn fence(b: Seq<u8>) -> bool {
    let i = lead(b);
    let r = run(b, i, b[i]);
    &&& i < b.len()
    &&& b[i] == BACKTICK || b[i] == TILDE
    &&& r >= 3
    &&& b[i] == BACKTICK ==> forall|k: int| i + r <= k < b.len() ==> b[k] != BACKTICK
}

/// True when `line` opens or closes a fenced code block (``` or ~~~, 3+ chars,
/// optionally indented up to 3 spaces, optionally followed by an info string).
pub fn is_fence(line: &str) -> (r: bool)
    ensures
        r == fence(line.spec_bytes()),
{
    let b = line.as_bytes();
    let n: usize = b.len();
    let i: usize = lead_len(b);
    if i >= n {
        return false;
    }
    let c = b[i];
    if c != BACKTICK && c != TILDE {
        return false;
    }
    let run: usize = run_len(b, i, c);
    if run < 3 {
        return false;
    }
    if c == BACKTICK {
        // The info string may not itself contain a backtick.
        let mut k: usize = i + run;
        while k < n
            invariant
                b@ == line.spec_bytes(),
                n == b@.len(),
                i == lead(b@),
                i < n,
                b@[i as int] == BACKTICK,
                run == crate::markdown::scan::run(b@, i as int, BACKTICK),
                i + run <= k <= n,
                forall|m: int| i + run <= m < k ==> b@[m] != BACKTICK,
            decreases n - k,
        {
            if b[k] == BACKTICK {
                return false;
            }
            k += 1;
        }
    }
    true
}

/// The three characters a thematic break is made of.
pub open spec fn rule_char(c: u8) -> bool {
    c == DASH || c == STAR || c == UNDERSCORE
}

/// A thematic break: once trimmed, three or more of one rule character with
/// nothing but spaces and tabs between them.
pub open spec fn separator(line: Seq<char>) -> bool {
    let t = bytes(trimmed(line));
    &&& t.len() > 0
    &&& rule_char(t[0])
    &&& forall|k: int| 0 <= k < t.len() ==> #[trigger] t[k] == t[0] || space(t[k])
    &&& copies(t, t[0], t.len() as int) >= 3
}

/// True when `line` is a thematic break (3+ of `-`, `*`, or `_`, possibly
/// space-separated, after trimming).
pub fn is_separator(line: &str) -> (r: bool)
    ensures
        r == separator(line@),
{
    let b = trim(line).as_bytes();
    let n: usize = b.len();
    if n == 0 {
        return false;
    }
    let c = b[0];
    if c != DASH && c != STAR && c != UNDERSCORE {
        return false;
    }
    let mut count: usize = 0;
    let mut i: usize = 0;
    while i < n
        invariant
            n == b@.len(),
            c == b@[0],
            n > 0,
            b@ == bytes(trimmed(line@)),
            count <= i <= n,
            count == copies(b@, c, i as int),
            forall|k: int| 0 <= k < i ==> #[trigger] b@[k] == c || space(b@[k]),
        decreases n - i,
    {
        if b[i] == c {
            count += 1;
        } else if !is_space(b[i]) {
            return false;
        }
        i += 1;
    }
    count >= 3
}

/// `(level, marker_end)` of the ATX heading that the line opens.
pub open spec fn heading(b: Seq<u8>) -> Option<(int, int)> {
    let i = lead(b);
    let level = run(b, i, HASH) as int;
    let end = i + level;
    if level < 1 || level > 6 {
        None
    } else if end == b.len() {
        Some((level, end))
    } else if space(b[end]) {
        Some((level, end + 1))
    } else {
        None
    }
}

/// `(level, marker_end)` when the line opens an ATX heading.
fn heading_at(line: &str) -> (r: Option<(u8, usize)>)
    ensures
        r is Some <==> heading(line.spec_bytes()) is Some,
        r matches Some((level, end)) ==> heading(line.spec_bytes()) == Some((level as int, end as int)),
{
    let b = line.as_bytes();
    let i: usize = lead_len(b);
    let level: usize = run_len(b, i, HASH);
    if level == 0 || level > 6 {
        return None;
    }
    let end: usize = i + level;
    if end == b.len() {
        return Some((level as u8, end));
    }
    if is_space(b[end]) {
        return Some((level as u8, end + 1));
    }
    None
}

/// The end of the `>` run at `i`, one space taken after each sigil.
pub open spec fn sigils_end(b: Seq<u8>, i: int) -> int
    decreases b.len() - i,
{
    if 0 <= i < b.len() && b[i] == GREATER {
        if i + 1 < b.len() && b[i + 1] == SPACE {
            sigils_end(b, i + 2)
        } else {
            sigils_end(b, i + 1)
        }
    } else {
        i
    }
}

/// End offset of the blockquote sigil run (`>`, `> `, `>> `, `> > `), if any.
pub open spec fn quote(b: Seq<u8>) -> Option<int> {
    let i = lead(b);
    if i < b.len() && b[i] == GREATER {
        Some(sigils_end(b, i))
    } else {
        None
    }
}

proof fn lemma_sigils_end(b: Seq<u8>, i: int)
    requires
        0 <= i <= b.len(),
    ensures
        i <= sigils_end(b, i) <= b.len(),
        sigils_end(b, i) > i ==> b[sigils_end(b, i) - 1] < 0x80,
        i < b.len() && b[i] == GREATER ==> sigils_end(b, i) > i,
    decreases b.len() - i,
{
    if i < b.len() && b[i] == GREATER {
        if i + 1 < b.len() && b[i + 1] == SPACE {
            lemma_sigils_end(b, i + 2);
        } else {
            lemma_sigils_end(b, i + 1);
        }
    }
}

/// The sigil run is not empty and ends on a boundary.
pub proof fn lemma_quote(b: Seq<u8>)
    requires
        quote(b) is Some,
    ensures
        0 < quote(b)->0 <= b.len(),
        valid_utf8(b) ==> boundary(b, quote(b)->0),
{
    lemma_run(b, 0, SPACE);
    lemma_sigils_end(b, lead(b));
    if valid_utf8(b) {
        lemma_ascii_boundary(b, quote(b)->0 - 1);
    }
}

/// End offset of the blockquote sigil run (`>`, `> `, `>> `, `> > `), if any.
fn quote_at(line: &str) -> (r: Option<usize>)
    ensures
        r is Some <==> quote(line.spec_bytes()) is Some,
        r matches Some(end) ==> quote(line.spec_bytes()) == Some(end as int),
{
    let b = line.as_bytes();
    let n: usize = b.len();
    let start: usize = lead_len(b);
    if start >= n || b[start] != GREATER {
        return None;
    }
    let mut i: usize = start;
    while i < n && b[i] == GREATER
        invariant
            n == b@.len(),
            i <= n,
            sigils_end(b@, i as int) == sigils_end(b@, start as int),
        ensures
            i == sigils_end(b@, start as int),
        decreases n - i,
    {
        i += 1;
        if i < n && b[i] == SPACE {
            i += 1;
        }
    }
    Some(i)
}

/// Where the spaces and tabs that start at `i` end.
pub open spec fn blanks_end(b: Seq<u8>, i: int) -> int
    decreases b.len() - i,
{
    if 0 <= i < b.len() && space(b[i]) {
        blanks_end(b, i + 1)
    } else {
        i
    }
}

/// An ASCII digit.
pub open spec fn digit(c: u8) -> bool {
    ZERO <= c <= NINE
}

/// Where the digits that start at `i` end.
pub open spec fn digits_end(b: Seq<u8>, i: int) -> int
    decreases b.len() - i,
{
    if 0 <= i < b.len() && digit(b[i]) {
        digits_end(b, i + 1)
    } else {
        i
    }
}

pub proof fn lemma_blanks_end(b: Seq<u8>, i: int)
    requires
        0 <= i <= b.len(),
    ensures
        i <= blanks_end(b, i) <= b.len(),
        forall|k: int| i <= k < blanks_end(b, i) ==> space(b[k]),
        blanks_end(b, i) < b.len() ==> !space(b[blanks_end(b, i)]),
    decreases b.len() - i,
{
    if i < b.len() && space(b[i]) {
        lemma_blanks_end(b, i + 1);
    }
}

pub proof fn lemma_digits_end(b: Seq<u8>, i: int)
    requires
        0 <= i <= b.len(),
    ensures
        i <= digits_end(b, i) <= b.len(),
        forall|k: int| i <= k < digits_end(b, i) ==> digit(b[k]),
        digits_end(b, i) < b.len() ==> !digit(b[digits_end(b, i)]),
    decreases b.len() - i,
{
    if i < b.len() && digit(b[i]) {
        lemma_digits_end(b, i + 1);
    }
}

/// End of the bullet that starts at `i` — `-`, `*`, `+`, or up to nine digits
/// with `.` or `)` — without the blank after it.
pub open spec fn bullet(b: Seq<u8>, i: int) -> Option<int> {
    if i >= b.len() {
        None
    } else if b[i] == DASH || b[i] == STAR || b[i] == PLUS {
        Some(i + 1)
    } else {
        let j = digits_end(b, i);
        if 1 <= j - i <= 9 && j < b.len() && (b[j] == DOT || b[j] == CLOSE_PAREN) {
            Some(j + 1)
        } else {
            None
        }
    }
}

/// End offset of a list bullet including its trailing space, if any.
pub open spec fn list(b: Seq<u8>) -> Option<int> {
    match bullet(b, blanks_end(b, 0)) {
        Some(after) => if after < b.len() && space(b[after]) {
            Some(after + 1)
        } else {
            None
        },
        None => None,
    }
}

/// The bullet ends inside the line, on a boundary.
pub proof fn lemma_list(b: Seq<u8>)
    requires
        list(b) is Some,
    ensures
        2 <= list(b)->0 <= b.len(),
        blanks_end(b, 0) + 2 <= list(b)->0,
        space(b[list(b)->0 - 1]),
        valid_utf8(b) ==> boundary(b, list(b)->0),
{
    lemma_blanks_end(b, 0);
    lemma_digits_end(b, blanks_end(b, 0));
    if valid_utf8(b) {
        lemma_ascii_boundary(b, list(b)->0 - 1);
    }
}

/// End offset of a list bullet including its trailing space, if any.
pub fn list_marker_end(line: &str) -> (r: Option<usize>)
    ensures
        r is Some <==> list(line.spec_bytes()) is Some,
        r matches Some(end) ==> list(line.spec_bytes()) == Some(end as int),
{
    list_at(line)
}

/// Offset of the first byte at or after `from` that is not a space or tab.
pub(crate) fn skip_blanks(b: &[u8], from: usize) -> (r: usize)
    requires
        from <= b@.len(),
    ensures
        r == blanks_end(b@, from as int),
        from <= r <= b@.len(),
{
    let n: usize = b.len();
    let mut i: usize = from;
    while i < n && is_space(b[i])
        invariant
            n == b@.len(),
            from <= i <= n,
            blanks_end(b@, i as int) == blanks_end(b@, from as int),
        ensures
            from <= i <= n,
            i == blanks_end(b@, from as int),
        decreases n - i,
    {
        i += 1;
    }
    i
}

/// Offset of the first byte at or after `from` that is not an ASCII digit.
fn skip_digits(b: &[u8], from: usize) -> (r: usize)
    requires
        from <= b@.len(),
    ensures
        r == digits_end(b@, from as int),
        from <= r <= b@.len(),
{
    let n: usize = b.len();
    let mut i: usize = from;
    while i < n && ZERO <= b[i] && b[i] <= NINE
        invariant
            n == b@.len(),
            from <= i <= n,
            digits_end(b@, i as int) == digits_end(b@, from as int),
        ensures
            from <= i <= n,
            i == digits_end(b@, from as int),
        decreases n - i,
    {
        i += 1;
    }
    i
}

fn list_at(line: &str) -> (r: Option<usize>)
    ensures
        r is Some <==> list(line.spec_bytes()) is Some,
        r matches Some(end) ==> list(line.spec_bytes()) == Some(end as int),
{
    let b = line.as_bytes();
    let n: usize = b.len();
    let i: usize = skip_blanks(b, 0);
    if i >= n {
        return None;
    }
    let after: usize = if b[i] == DASH || b[i] == STAR || b[i] == PLUS {
        i + 1
    } else {
        let j: usize = skip_digits(b, i);
        if j == i || j - i > 9 {
            return None;
        }
        if j < n && (b[j] == DOT || b[j] == CLOSE_PAREN) {
            j + 1
        } else {
            return None;
        }
    };
    if after < n && is_space(b[after]) {
        Some(after + 1)
    } else {
        None
    }
}

/// `(end, style)` of the `[ ]` / `[x]` task box at the head of `b`.
pub open spec fn task(b: Seq<u8>) -> Option<(int, MdStyle)> {
    if b.len() < 3 || b[0] != OPEN_BRACKET || b[2] != CLOSE_BRACKET {
        None
    } else {
        let end: int = if b.len() > 3 && b[3] == SPACE {
            4
        } else {
            3
        };
        if b[1] == SPACE {
            Some((end, MdStyle::TaskOpen))
        } else if b[1] == LOWER_X || b[1] == UPPER_X {
            Some((end, MdStyle::TaskDone))
        } else {
            None
        }
    }
}

/// `(end, style)` for a `[ ]` / `[x]` task box at the head of `rest`.
fn task_at(rest: &str) -> (r: Option<(usize, MdStyle)>)
    ensures
        r is Some <==> task(rest.spec_bytes()) is Some,
        r matches Some((end, style)) ==> task(rest.spec_bytes()) == Some((end as int, style)),
{
    let b = rest.as_bytes();
    if b.len() < 3 || b[0] != OPEN_BRACKET || b[2] != CLOSE_BRACKET {
        return None;
    }
    let style = if b[1] == SPACE {
        MdStyle::TaskOpen
    } else if b[1] == LOWER_X || b[1] == UPPER_X {
        MdStyle::TaskDone
    } else {
        return None;
    };
    let end: usize = if b.len() > 3 && b[3] == SPACE {
        4
    } else {
        3
    };
    Some((end, style))
}

// ---------------------------------------------------------------------------
// Line entry point
// ---------------------------------------------------------------------------
/// `spans` followed by `span`, which is absorbed by the last span where that
/// has the same style and ends where `span` starts.
pub open spec fn merge_push(spans: Seq<Styled>, span: Styled) -> Seq<Styled> {
    if spans.len() > 0 && spans.last().style == span.style && spans.last().end == span.start {
        spans.drop_last().push(
            Styled { start: spans.last().start, end: span.end, style: span.style },
        )
    } else {
        spans.push(span)
    }
}

/// `spans` with neighbours of one style joined.
pub open spec fn merged(spans: Seq<Styled>) -> Seq<Styled>
    decreases spans.len(),
{
    if spans.len() == 0 {
        Seq::empty()
    } else {
        merge_push(merged(spans.drop_last()), spans.last())
    }
}

/// `spans` with every style replaced by a strike.
pub open spec fn struck(spans: Seq<Styled>) -> Seq<Styled> {
    Seq::new(
        spans.len(),
        |k: int|
            Styled { start: spans[k].start, end: spans[k].end, style: MdStyle::Strikethrough },
    )
}

/// `spans` moved right by `by`.
pub open spec fn shifted(spans: Seq<Styled>, by: int) -> Seq<Styled> {
    Seq::new(
        spans.len(),
        |k: int|
            Styled { start: spans[k].start + by, end: spans[k].end + by, style: spans[k].style },
    )
}

/// The spans of a list item from its bullet on.
pub open spec fn list_spans(b: Seq<u8>, marker_end: int) -> Seq<Styled> {
    let n = b.len() as int;
    let bullet_span = one(0, 0, marker_end, MdStyle::ListMarker);
    match task(b.subrange(marker_end, n)) {
        Some((len, style)) => {
            let at = marker_end + len;
            let content = inline_spans(b.subrange(at, n), at, 0, 0, 0);
            bullet_span + one(0, marker_end, at, style) + (if style == MdStyle::TaskDone {
                struck(content)
            } else {
                content
            })
        },
        None => bullet_span + inline_spans(b.subrange(marker_end, n), marker_end, 0, 0, 0),
    }
}

/// The spans of a nonempty line before neighbours of one style are joined.
pub open spec fn built(b: Seq<u8>, in_code_block: bool) -> Seq<Styled>
    decreases b.len(), 0int,
{
    let n = b.len() as int;
    if fence(b) {
        one(0, 0, n, MdStyle::Fence)
    } else if in_code_block {
        one(0, 0, n, MdStyle::CodeBlock)
    } else if separator(decode_utf8(b)) {
        one(0, 0, n, MdStyle::Separator)
    } else if heading(b) is Some {
        let (level, end) = heading(b)->0;
        one(0, 0, end, MdStyle::HeadingMarker(level as u8)) + (if end < n {
            wrapped_spans(b.subrange(end, n), end, MdStyle::Heading(level as u8), 0)
        } else {
            Seq::empty()
        })
    } else if quote(b) is Some {
        let end = quote(b)->0;
        proof {
            lemma_quote(b);
        }
        one(0, 0, end, MdStyle::QuoteMarker) + recoloured(
            shifted(line_spans(b.subrange(end, n), false), end),
            MdStyle::Quote,
        )
    } else if list(b) is Some {
        list_spans(b, list(b)->0)
    } else {
        inline_spans(b, 0, 0, 0, 0)
    }
}

/// The spans of a line.
pub open spec fn line_spans(b: Seq<u8>, in_code_block: bool) -> Seq<Styled>
    decreases b.len(), 1int,
{
    if b.len() == 0 {
        Seq::empty()
    } else {
        merged(built(b, in_code_block))
    }
}

/// No two neighbours have the same style.
pub open spec fn distinct_neighbours(spans: Seq<Styled>) -> bool {
    forall|k: int, m: int|
        0 <= k && m == k + 1 && m < spans.len() ==> (#[trigger] spans[k]).style != (
        #[trigger] spans[m]).style
}

proof fn lemma_merged(spans: Seq<Styled>, b: Seq<u8>, lo: int, hi: int)
    requires
        covers_range(spans, b, 0, lo, hi),
    ensures
        covers_range(merged(spans), b, 0, lo, hi),
        distinct_neighbours(merged(spans)),
        merged(spans).len() <= spans.len(),
        spans.len() > 0 ==> merged(spans).len() > 0,
    decreases spans.len(),
{
    if spans.len() > 0 {
        let front = spans.drop_last();
        let last = spans.last();
        let mid = last.start;
        assert forall|k: int, m: int| 0 <= k && m == k + 1 && m < front.len() implies (
        #[trigger] front[k]).end == (#[trigger] front[m]).start by {
            assert(front[k] == spans[k] && front[m] == spans[m]);
        }
        assert forall|k: int| 0 <= k < front.len() implies (#[trigger] front[k]).start < front[k].end
            && boundary(b, front[k].start) && boundary(b, front[k].end) by {
            assert(front[k] == spans[k]);
        }
        if front.len() > 0 {
            assert(front.last() == spans[spans.len() - 2]);
            assert(front.last().end == mid);
            assert(front[0] == spans[0]);
        } else {
            assert(last == spans[0]);
        }
        assert(covers_range(front, b, 0, lo, mid));
        lemma_merged(front, b, lo, mid);
        let done = merged(front);
        let all = merged(spans);
        if done.len() > 0 && done.last().style == last.style {
            let joint = Styled { start: done.last().start, end: last.end, style: last.style };
            assert(all == done.drop_last().push(joint));
            assert forall|k: int| 0 <= k < all.len() implies (#[trigger] all[k]).start < all[k].end
                && boundary(b, all[k].start) && boundary(b, all[k].end) by {
                assert(boundary(b, done[k].start) && boundary(b, done[k].end));
                assert(boundary(b, spans[spans.len() - 1].end));
            }
            assert forall|k: int, m: int| 0 <= k && m == k + 1 && m < all.len() implies (
            #[trigger] all[k]).end == (#[trigger] all[m]).start && all[k].style != all[m].style by {
                assert(done[k].end == done[m].start && done[k].style != done[m].style);
            }
            if all.len() > 1 {
                assert(all[0] == done[0]);
            }
        } else {
            assert(all == done.push(last));
            assert(boundary(b, spans[spans.len() - 1].start) && boundary(b, spans[spans.len() - 1].end));
            assert forall|k: int| 0 <= k < all.len() implies (#[trigger] all[k]).start < all[k].end
                && boundary(b, all[k].start) && boundary(b, all[k].end) by {
                if k < done.len() {
                    assert(boundary(b, done[k].start) && boundary(b, done[k].end));
                }
            }
            assert forall|k: int, m: int| 0 <= k && m == k + 1 && m < all.len() implies (
            #[trigger] all[k]).end == (#[trigger] all[m]).start && all[k].style != all[m].style by {
                if m < done.len() {
                    assert(done[k].end == done[m].start && done[k].style != done[m].style);
                }
            }
            if done.len() > 0 {
                assert(all[0] == done[0]);
            }
        }
    }
}

proof fn lemma_struck(spans: Seq<Styled>, b: Seq<u8>, lo: int, hi: int)
    requires
        covers_range(spans, b, 0, lo, hi),
    ensures
        covers_range(struck(spans), b, 0, lo, hi),
{
    let u = struck(spans);
    assert forall|k: int| 0 <= k < u.len() implies (#[trigger] u[k]).start == spans[k].start && u[k].end
        == spans[k].end by {}
}

proof fn lemma_shifted(spans: Seq<Styled>, b: Seq<u8>, by: int)
    requires
        0 <= by <= b.len(),
        boundary(b, by),
        boundary(b, b.len() as int),
        covers_range(spans, b.subrange(by, b.len() as int), 0, 0, b.len() - by),
    ensures
        covers_range(shifted(spans, by), b, 0, by, b.len() as int),
{
    let u = shifted(spans, by);
    let tail = b.subrange(by, b.len() as int);
    assert forall|k: int| 0 <= k < u.len() implies (#[trigger] u[k]).start == spans[k].start + by
        && u[k].end == spans[k].end + by by {}
    assert forall|k: int| 0 <= k < u.len() implies boundary(tail, (#[trigger] u[k]).start - by)
        && boundary(tail, u[k].end - by) by {
        assert(boundary(tail, spans[k].start) && boundary(tail, spans[k].end));
    }
    lemma_widen(u, b, 0, by, b.len() as int);
}

/// Inline markup on the tail of a line covers that tail.
proof fn lemma_tail_inline(b: Seq<u8>, at: int)
    requires
        valid_utf8(b),
        0 <= at <= b.len(),
        boundary(b, at),
    ensures
        covers_range(
            inline_spans(b.subrange(at, b.len() as int), at, 0, 0, 0),
            b,
            0,
            at,
            b.len() as int,
        ),
{
    let n = b.len() as int;
    let tail = b.subrange(at, n);
    crate::text::lemma_subrange_valid(b, at, n);
    if tail.len() > 0 {
        crate::text::lemma_first_byte(tail);
    }
    lemma_inline_covers(tail, at, 0, 0, 0);
    lemma_widen(inline_spans(tail, at, 0, 0, 0), b, 0, at, n);
}

proof fn lemma_list_covers(b: Seq<u8>)
    requires
        valid_utf8(b),
        list(b) is Some,
    ensures
        covers_range(list_spans(b, list(b)->0), b, 0, 0, b.len() as int),
{
    let n = b.len() as int;
    let end = list(b)->0;
    let tail = b.subrange(end, n);
    crate::text::lemma_first_byte(b);
    lemma_list(b);
    let marker_span = one(0, 0, end, MdStyle::ListMarker);
    lemma_one(b, 0, 0, end, MdStyle::ListMarker);
    match task(tail) {
        Some((len, style)) => {
            let at = end + len;
            assert(tail[len - 1] == b[at - 1]);
            lemma_ascii_boundary(b, at - 1);
            let content = inline_spans(b.subrange(at, n), at, 0, 0, 0);
            lemma_tail_inline(b, at);
            lemma_struck(content, b, at, n);
            lemma_one(b, 0, end, at, style);
            let boxed = one(0, end, at, style);
            lemma_join(marker_span, boxed, b, 0, 0, end, at);
            lemma_join(
                marker_span + boxed,
                if style == MdStyle::TaskDone {
                    struck(content)
                } else {
                    content
                },
                b,
                0,
                0,
                at,
                n,
            );
        },
        None => {
            lemma_tail_inline(b, end);
            lemma_join(
                marker_span,
                inline_spans(tail, end, 0, 0, 0),
                b,
                0,
                0,
                end,
                n,
            );
        },
    }
}

proof fn lemma_built_covers(b: Seq<u8>, in_code_block: bool)
    requires
        valid_utf8(b),
        b.len() > 0,
    ensures
        covers_range(built(b, in_code_block), b, 0, 0, b.len() as int),
    decreases b.len(), 0int,
{
    let n = b.len() as int;
    crate::text::lemma_first_byte(b);
    if fence(b) {
        lemma_one(b, 0, 0, n, MdStyle::Fence);
    } else if in_code_block {
        lemma_one(b, 0, 0, n, MdStyle::CodeBlock);
    } else if separator(decode_utf8(b)) {
        lemma_one(b, 0, 0, n, MdStyle::Separator);
    } else if heading(b) is Some {
        let (level, end) = heading(b)->0;
        lemma_run(b, 0, SPACE);
        lemma_run(b, lead(b), HASH);
        lemma_ascii_boundary(b, end - 1);
        let head = one(0, 0, end, MdStyle::HeadingMarker(level as u8));
        lemma_one(b, 0, 0, end, MdStyle::HeadingMarker(level as u8));
        if end < n {
            let tail = b.subrange(end, n);
            let style = MdStyle::Heading(level as u8);
            crate::text::lemma_subrange_valid(b, end, n);
            lemma_wrapped_covers(tail, end, style, 0);
            lemma_widen(wrapped_spans(tail, end, style, 0), b, 0, end, n);
            lemma_join(head, wrapped_spans(tail, end, style, 0), b, 0, 0, end, n);
        } else {
            lemma_join(head, Seq::empty(), b, 0, 0, end, n);
        }
    } else if quote(b) is Some {
        let end = quote(b)->0;
        lemma_quote(b);
        let tail = b.subrange(end, n);
        crate::text::lemma_subrange_valid(b, end, n);
        lemma_line_covers(tail, false);
        let inner = line_spans(tail, false);
        lemma_shifted(inner, b, end);
        lemma_recoloured(shifted(inner, end), MdStyle::Quote, b, 0, end, n);
        lemma_one(b, 0, 0, end, MdStyle::QuoteMarker);
        lemma_join(
            one(0, 0, end, MdStyle::QuoteMarker),
            recoloured(shifted(inner, end), MdStyle::Quote),
            b,
            0,
            0,
            end,
            n,
        );
    } else if list(b) is Some {
        lemma_list_covers(b);
    } else {
        lemma_inline_covers(b, 0, 0, 0, 0);
    }
}

/// The spans of any line cover it exactly: sorted, gapless, without overlap or
/// empty span, every edge on a character boundary, and no two neighbours of one
/// style. An empty line has none.
pub proof fn lemma_line_covers(b: Seq<u8>, in_code_block: bool)
    requires
        valid_utf8(b),
    ensures
        b.len() == 0 ==> line_spans(b, in_code_block).len() == 0,
        tiles(line_spans(b, in_code_block), 0, b.len() as int),
        on_boundaries(line_spans(b, in_code_block), b, 0),
        distinct_neighbours(line_spans(b, in_code_block)),
    decreases b.len(), 1int,
{
    if b.len() > 0 {
        lemma_built_covers(b, in_code_block);
        lemma_merged(built(b, in_code_block), b, 0, b.len() as int);
    }
}

/// Highlight a single line. `in_code_block` is true when the PREVIOUS lines put
/// us inside a fenced code block (the fence line itself is passed with the state
/// that was active BEFORE it).
pub fn highlight_line(line: &str, in_code_block: bool) -> (out: Vec<Span>)
    ensures
        styled(out@) == line_spans(line.spec_bytes(), in_code_block),
        tiles(styled(out@), 0, line.spec_bytes().len() as int),
        on_boundaries(styled(out@), line.spec_bytes(), 0),
        distinct_neighbours(styled(out@)),
{
    let ghost b = line.spec_bytes();
    proof {
        lemma_string_ends(line@);
        lemma_line_covers(b, in_code_block);
        assert(b.subrange(0, b.len() as int) =~= b);
    }
    let n: usize = byte_len(line);
    let (starts, at) = quote_levels(line, in_code_block);
    let code = in_code_block && starts.len() == 0;
    let mut out = highlight_level(slice(line, at, n), code);
    let mut low: usize = at;
    let mut k: usize = starts.len();
    while k > 0
        invariant
            b == line.spec_bytes(),
            valid_utf8(b),
            n == b.len(),
            k <= starts@.len(),
            nested(b, in_code_block, starts@, at as int),
            low == level_start(starts@, at as int, k as int),
            styled(out@) == line_spans(
                b.subrange(low as int, n as int),
                in_code_block && k == 0,
            ),
        decreases k,
    {
        k -= 1;
        let start: usize = starts[k];
        let end: usize = low - start;
        let ghost t = b.subrange(start as int, n as int);
        let ghost inner = b.subrange(low as int, n as int);
        proof {
            assert(quote_level(t, in_code_block && k == 0));
            lemma_quote(t);
            assert(t.subrange(end as int, t.len() as int) =~= inner);
            lemma_subrange_valid(b, low as int, n as int);
            lemma_line_covers(inner, false);
        }
        out = quote_around(&out, end, n - low);
        low = start;
    }
    out
}

/// The spans of a quote whose sigils end at `end`, around the spans `inner` of its
/// text, which is `len` bytes long.
fn quote_around(inner: &Vec<Span>, end: usize, len: usize) -> (out: Vec<Span>)
    requires
        tiles(styled(inner@), 0, len as int),
        end + len <= usize::MAX,
    ensures
        styled(out@) == merged(
            one(0, 0, end as int, MdStyle::QuoteMarker) + recoloured(
                shifted(styled(inner@), end as int),
                MdStyle::Quote,
            ),
        ),
{
    let mut out: Vec<Span> = Vec::new();
    push(&mut out, 0, end, MdStyle::QuoteMarker);
    push_quoted(inner, end, len, &mut out);
    assert(styled(out@) =~= one(0, 0, end as int, MdStyle::QuoteMarker) + recoloured(
        shifted(styled(inner@), end as int),
        MdStyle::Quote,
    ));
    merge(&mut out);
    out
}

/// Whether a line is a quote, and nothing that comes before one.
pub open spec fn quote_level(b: Seq<u8>, in_code_block: bool) -> bool {
    &&& b.len() > 0
    &&& !fence(b)
    &&& !in_code_block
    &&& !separator(decode_utf8(b))
    &&& heading(b) is None
    &&& quote(b) is Some
}

/// Where level `k` of a quote starts: at `starts[k]`, or at `at`, where the text
/// inside all of them does.
spec fn level_start(starts: Seq<usize>, at: int, k: int) -> int {
    if k < starts.len() {
        starts[k] as int
    } else {
        at
    }
}

/// Whether `starts` are where the quotes of `b`, each inside the one before, start,
/// and `at` is where the innermost one's text does.
spec fn nested(b: Seq<u8>, in_code_block: bool, starts: Seq<usize>, at: int) -> bool {
    &&& level_start(starts, at, 0) == 0
    &&& 0 <= at <= b.len()
    &&& boundary(b, at)
    &&& forall|k: int|
        0 <= k < starts.len() ==> {
            let t = b.subrange(#[trigger] starts[k] as int, b.len() as int);
            &&& starts[k] < level_start(starts, at, k + 1) <= b.len()
            &&& boundary(b, level_start(starts, at, k + 1))
            &&& quote_level(t, in_code_block && k == 0)
            &&& quote(t) == Some(level_start(starts, at, k + 1) - starts[k])
        }
}

/// The end of the sigils of a line that is a quote.
fn quote_level_end(line: &str, in_code_block: bool) -> (r: Option<usize>)
    ensures
        r is Some <==> quote_level(line.spec_bytes(), in_code_block),
        r matches Some(end) ==> quote(line.spec_bytes()) == Some(end as int),
{
    proof {
        encode_utf8_decode_utf8(line@);
        lemma_bytes_empty(line@);
    }
    if line.is_empty() || is_fence(line) || in_code_block || is_separator(line) || heading_at(
        line,
    ).is_some() {
        return None;
    }
    quote_at(line)
}

/// Where each of the quotes that a line opens one inside another starts, and
/// where the text inside them does.
fn quote_levels(line: &str, in_code_block: bool) -> (r: (Vec<usize>, usize))
    ensures
        nested(line.spec_bytes(), in_code_block, r.0@, r.1 as int),
        !quote_level(
            line.spec_bytes().subrange(r.1 as int, line.spec_bytes().len() as int),
            in_code_block && r.0@.len() == 0,
        ),
{
    let ghost b = line.spec_bytes();
    let n: usize = byte_len(line);
    let mut starts: Vec<usize> = Vec::new();
    let mut at: usize = 0;
    let mut code = in_code_block;
    let mut more = true;
    proof {
        lemma_string_ends(line@);
    }
    while more
        invariant
            b == line.spec_bytes(),
            valid_utf8(b),
            boundary(b, n as int),
            n == b.len(),
            code == (in_code_block && starts@.len() == 0),
            nested(b, in_code_block, starts@, at as int),
            !more ==> !quote_level(b.subrange(at as int, n as int), code),
        decreases n - at, if more { 1int } else { 0int },
    {
        let ghost before = starts@;
        let ghost t = b.subrange(at as int, n as int);
        match quote_level_end(slice(line, at, n), code) {
            Some(end) => {
                proof {
                    lemma_subrange_valid(b, at as int, n as int);
                    lemma_quote(t);
                    lemma_subrange_boundary(b, at as int, end as int);
                }
                starts.push(at);
                let ghost from = at as int;
                at = at + end;
                code = false;
                proof {
                    assert forall|k: int| 0 <= k < starts@.len() implies {
                        let t = b.subrange(#[trigger] starts@[k] as int, b.len() as int);
                        &&& starts@[k] < level_start(starts@, at as int, k + 1) <= b.len()
                        &&& boundary(b, level_start(starts@, at as int, k + 1))
                        &&& quote_level(t, in_code_block && k == 0)
                        &&& quote(t) == Some(level_start(starts@, at as int, k + 1) - starts@[k])
                    } by {
                        if k < before.len() {
                            assert(before[k] == starts@[k]);
                            assert(level_start(before, from, k + 1) == level_start(
                                starts@,
                                at as int,
                                k + 1,
                            ));
                        }
                    }
                    assert(level_start(starts@, at as int, 0) == level_start(before, from, 0));
                }
            },
            None => {
                more = false;
            },
        }
    }
    (starts, at)
}

/// A boundary of a piece is one of the whole.
proof fn lemma_subrange_boundary(b: Seq<u8>, from: int, at: int)
    requires
        0 <= from <= b.len(),
        0 <= at <= b.len() - from,
        boundary(b.subrange(from, b.len() as int), at),
        at == 0 ==> boundary(b, from),
    ensures
        boundary(b, from + at),
{
    if from + at < b.len() {
        assert(b.subrange(from, b.len() as int)[at] == b[from + at]);
    }
}

/// Highlight a line that is no quote.
fn highlight_level(line: &str, in_code_block: bool) -> (out: Vec<Span>)
    requires
        !quote_level(line.spec_bytes(), in_code_block),
    ensures
        styled(out@) == line_spans(line.spec_bytes(), in_code_block),
{
    proof {
        lemma_bytes_empty(line@);
    }
    let mut out: Vec<Span> = Vec::new();
    if line.is_empty() {
        assert(styled(out@) =~= Seq::empty());
        return out;
    }
    assert(styled(out@) + built(line.spec_bytes(), in_code_block) =~= built(
        line.spec_bytes(),
        in_code_block,
    ));
    build_line(line, in_code_block, &mut out);
    merge(&mut out);
    out
}

/// Append the spans of a nonempty line that is no quote, unmerged.
fn build_line(line: &str, in_code_block: bool, out: &mut Vec<Span>)
    requires
        line.spec_bytes().len() > 0,
        !quote_level(line.spec_bytes(), in_code_block),
    ensures
        styled(final(out)@) == styled(old(out)@) + built(line.spec_bytes(), in_code_block),
{
    let n: usize = line.as_bytes().len();
    let ghost b = line.spec_bytes();
    proof {
        lemma_string_ends(line@);
        encode_utf8_decode_utf8(line@);
    }
    if is_fence(line) {
        push(out, 0, n, MdStyle::Fence);
        return;
    }
    if in_code_block {
        push(out, 0, n, MdStyle::CodeBlock);
        return;
    }
    if is_separator(line) {
        push(out, 0, n, MdStyle::Separator);
        return;
    }
    if let Some((level, end)) = heading_at(line) {
        proof {
            lemma_run(b, 0, SPACE);
            lemma_run(b, lead(b), HASH);
            lemma_ascii_boundary(b, end - 1);
        }
        push(out, 0, end, MdStyle::HeadingMarker(level));
        let ghost head = one(0, 0, end as int, MdStyle::HeadingMarker(level));
        let ghost tail = if end < n {
            wrapped_spans(b.subrange(end as int, n as int), end as int, MdStyle::Heading(level), 0)
        } else {
            Seq::empty()
        };
        if end < n {
            // Only the heading's plain prose takes the heading style.
            highlight_wrapped(slice(line, end, n), end, MdStyle::Heading(level), 0, out);
        }
        assert(styled(out@) =~= styled(old(out)@) + (head + tail));
        return;
    }
    if let Some(end) = list_at(line) {
        build_list(line, end, out);
        return;
    }
    highlight_inline(line, 0, 0, out);
}

/// Append a quote's inner spans, moved right past the sigils, their plain text
/// recoloured.
fn push_quoted(inner: &Vec<Span>, by: usize, len: usize, out: &mut Vec<Span>)
    requires
        by + len <= usize::MAX,
        tiles(styled(inner@), 0, len as int),
    ensures
        styled(final(out)@) == styled(old(out)@) + recoloured(
            shifted(styled(inner@), by as int),
            MdStyle::Quote,
        ),
{
    let ghost quoted = recoloured(shifted(styled(inner@), by as int), MdStyle::Quote);
    let mut k: usize = 0;
    assert(styled(out@) + quoted.take(0) =~= styled(out@));
    while k < inner.len()
        invariant
            k <= inner@.len(),
            by + len <= usize::MAX,
            tiles(styled(inner@), 0, len as int),
            quoted == recoloured(shifted(styled(inner@), by as int), MdStyle::Quote),
            styled(out@) == styled(old(out)@) + quoted.take(k as int),
        decreases inner@.len() - k,
    {
        let span = inner[k];
        proof {
            lemma_tiles_bound(styled(inner@), 0, len as int, k as int);
            assert(styled(inner@)[k as int] == span@);
        }
        let style = if span.style == MdStyle::Text {
            MdStyle::Quote
        } else {
            span.style
        };
        push(out, span.start + by, span.end + by, style);
        assert(quoted.take(k + 1) =~= quoted.take(k as int).push(quoted[k as int]));
        assert(styled(out@) =~= styled(old(out)@) + quoted.take(k + 1));
        k += 1;
    }
    assert(quoted.take(inner@.len() as int) =~= quoted);
}

/// Every span of a cover lies inside what is covered.
pub proof fn lemma_tiles_bound(spans: Seq<Styled>, lo: int, hi: int, k: int)
    requires
        tiles(spans, lo, hi),
        0 <= k < spans.len(),
    ensures
        lo <= spans[k].start < spans[k].end <= hi,
{
    lemma_tiles_below(spans, lo, hi, k);
    lemma_tiles_above(spans, lo, hi, k);
}

proof fn lemma_tiles_below(spans: Seq<Styled>, lo: int, hi: int, k: int)
    requires
        tiles(spans, lo, hi),
        0 <= k < spans.len(),
    ensures
        lo <= spans[k].start,
    decreases k,
{
    if k > 0 {
        lemma_tiles_below(spans, lo, hi, k - 1);
        assert(spans[k - 1].end == spans[k].start);
    }
}

proof fn lemma_tiles_above(spans: Seq<Styled>, lo: int, hi: int, k: int)
    requires
        tiles(spans, lo, hi),
        0 <= k < spans.len(),
    ensures
        spans[k].end <= hi,
    decreases spans.len() - k,
{
    if k < spans.len() - 1 {
        lemma_tiles_above(spans, lo, hi, k + 1);
        assert(spans[k].end == spans[k + 1].start);
    }
}

/// Append the spans of a list item whose bullet ends at `end`.
fn build_list(line: &str, end: usize, out: &mut Vec<Span>)
    requires
        list(line.spec_bytes()) == Some(end as int),
    ensures
        styled(final(out)@) == styled(old(out)@) + list_spans(line.spec_bytes(), end as int),
{
    let n: usize = line.as_bytes().len();
    let ghost b = line.spec_bytes();
    let ghost before = styled(old(out)@);
    proof {
        lemma_string_ends(line@);
        lemma_list(b);
    }
    push(out, 0, end, MdStyle::ListMarker);
    let rest = slice(line, end, n);
    match task_at(rest) {
        Some((len, style)) => {
            let at: usize = end + len;
            proof {
                assert(rest.spec_bytes()[len - 1] == b[at - 1]);
                lemma_ascii_boundary(b, at - 1);
            }
            push(out, end, at, style);
            let from: usize = out.len();
            let ghost marked = styled(out@);
            highlight_inline(slice(line, at, n), at, 0, out);
            let ghost content = inline_spans(b.subrange(at as int, n as int), at as int, 0, 0, 0);
            // A done item is struck end to end, its code and emphasis included;
            // only the bullet and the box keep their own styling.
            if style == MdStyle::TaskDone {
                assert(styled(out@).len() == marked.len() + content.len());
                strike_from(out, from);
                assert(styled(out@) =~= marked + struck(content));
                assert(styled(out@) =~= before + (one(0, 0, end as int, MdStyle::ListMarker) + one(
                    0,
                    end as int,
                    at as int,
                    style,
                ) + struck(content)));
            } else {
                assert(styled(out@) =~= before + (one(0, 0, end as int, MdStyle::ListMarker) + one(
                    0,
                    end as int,
                    at as int,
                    style,
                ) + content));
            }
        },
        None => {
            highlight_inline(rest, end, 0, out);
            assert(styled(out@) =~= before + (one(0, 0, end as int, MdStyle::ListMarker)
                + inline_spans(b.subrange(end as int, n as int), end as int, 0, 0, 0)));
        },
    }
}

/// Strike every span from index `from` on.
fn strike_from(out: &mut Vec<Span>, from: usize)
    requires
        from <= old(out)@.len(),
    ensures
        styled(final(out)@) == styled(old(out)@).take(from as int) + struck(
            styled(old(out)@).skip(from as int),
        ),
{
    let n: usize = out.len();
    let ghost before = styled(old(out)@);
    let mut k: usize = from;
    while k < n
        invariant
            from <= k <= n,
            n == out@.len(),
            before.len() == n,
            before == styled(old(out)@),
            forall|m: int| 0 <= m < from ==> (#[trigger] out@[m])@ == before[m],
            forall|m: int| from <= m < k ==> (#[trigger] out@[m])@ == struck(before)[m],
            forall|m: int| k <= m < n ==> (#[trigger] out@[m])@ == before[m],
        decreases n - k,
    {
        let mut span = out[k];
        span.style = MdStyle::Strikethrough;
        out.set(k, span);
        k += 1;
    }
    assert(styled(out@) =~= before.take(from as int) + struck(before.skip(from as int)));
}

/// Collapse adjacent spans that share a style. Of contiguous spans nothing else
/// changes, and there is nothing left to collapse.
pub fn merge(spans: &mut Vec<Span>)
    ensures
        styled(final(spans)@) == merged(styled(old(spans)@)),
        contiguous(styled(old(spans)@)) ==> {
            &&& joined_up(styled(old(spans)@), styled(final(spans)@))
            &&& merged(styled(final(spans)@)) == styled(final(spans)@)
        },
{
    let n: usize = spans.len();
    let ghost all = styled(old(spans)@);
    proof {
        if contiguous(all) {
            law_merging(all);
        }
    }
    if n == 0 {
        assert(styled(spans@) =~= Seq::empty());
        return;
    }
    let mut write: usize = 0;
    let mut read: usize = 1;
    proof {
        reveal_with_fuel(merged, 2);
        assert(all.take(1).drop_last() =~= Seq::empty());
        assert(styled(spans@).take(1) =~= merged(all.take(1)));
    }
    while read < n
        invariant
            write < read <= n,
            n == spans@.len(),
            all.len() == n,
            styled(spans@).take(write + 1) == merged(all.take(read as int)),
            forall|m: int| read <= m < n ==> (#[trigger] spans@[m])@ == all[m],
        decreases n - read,
    {
        let cur = spans[read];
        let mut last = spans[write];
        let ghost done = merged(all.take(read as int));
        proof {
            assert(all.take(read + 1).drop_last() =~= all.take(read as int));
            assert(all.take(read + 1).last() == cur@);
            assert(styled(spans@).take(write + 1).last() == last@);
        }
        if last.style == cur.style && last.end == cur.start {
            last.end = cur.end;
            spans.set(write, last);
            assert(styled(spans@).take(write + 1) =~= done.drop_last().push(last@));
        } else {
            write += 1;
            spans.set(write, cur);
            assert(styled(spans@).take(write + 1) =~= done.push(cur@));
        }
        read += 1;
    }
    spans.truncate(write + 1);
    proof {
        assert(all.take(n as int) =~= all);
        assert(styled(spans@) =~= merged(all));
    }
}

/// Whether an odd number of the lines before `i` are fences.
pub open spec fn fence_open(lines: Seq<Seq<u8>>, i: int) -> bool
    decreases i,
{
    if i <= 0 {
        false
    } else {
        fence_open(lines, i - 1) != fence(lines[i - 1])
    }
}

/// The bytes of each string of a sequence.
pub open spec fn line_bytes(lines: Seq<&str>) -> Seq<Seq<u8>> {
    Seq::new(lines.len(), |k: int| lines[k].spec_bytes())
}

/// Highlight a whole document, tracking fence state across lines.
/// `out[i]` corresponds to `lines[i]`.
pub fn highlight_document(lines: &[&str]) -> (out: Vec<Vec<Span>>)
    ensures
        out@.len() == lines@.len(),
        forall|k: int|
            0 <= k < lines@.len() ==> styled((#[trigger] out@[k])@) == line_spans(
                lines@[k].spec_bytes(),
                fence_open(line_bytes(lines@), k),
            ),
{
    let mut in_code_block = false;
    let mut out: Vec<Vec<Span>> = Vec::new();
    let mut i: usize = 0;
    while i < lines.len()
        invariant
            i <= lines@.len(),
            out@.len() == i,
            in_code_block == fence_open(line_bytes(lines@), i as int),
            forall|k: int|
                0 <= k < i ==> styled((#[trigger] out@[k])@) == line_spans(
                    lines@[k].spec_bytes(),
                    fence_open(line_bytes(lines@), k),
                ),
        decreases lines@.len() - i,
    {
        let line = lines[i];
        out.push(highlight_line(line, in_code_block));
        if is_fence(line) {
            in_code_block = !in_code_block;
        }
        i += 1;
    }
    out
}

} // verus!
