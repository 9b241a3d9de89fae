//! The inline scanner: code, emphasis, links, images and bare urls.

use vstd::prelude::*;
use vstd::string::*;
use vstd::utf8::*;

use crate::ascii::{
    BACKTICK, BANG, EQUALS, LOWER_H, OPEN_BRACKET, STAR, TILDE, UNDERSCORE,
};
use crate::markdown::scan::{
    alnum_before, alnum_until, autolink, autolink_end, emph_close, exact_run, find_emph_close,
    find_exact_run, find_link, is_space, lemma_autolink, lemma_emph_close, lemma_exact_run,
    lemma_link, lemma_run, link, run, run_len, space,
};
use crate::markdown::{styled, MdStyle, Span, Styled};
use crate::text::{lemma_ascii_boundary, lemma_string_ends, slice};

verus! {

broadcast use {vstd::seq::group_seq_axioms, vstd::string::group_string_axioms};

/// How deep inline markup may nest before the remaining content is drawn flat.
/// Real markdown never nests near this; the cap bounds the recursion on a
/// pathological line.
pub const MAX_INLINE_NEST: u8 = 8;

/// One span, or none where it would be empty.
pub open spec fn text_span(base: int, from: int, to: int) -> Seq<Styled> {
    if from < to {
        seq![Styled { start: base + from, end: base + to, style: MdStyle::Text }]
    } else {
        Seq::empty()
    }
}

/// A single span of `style` over `from..to`.
pub open spec fn one(base: int, from: int, to: int, style: MdStyle) -> Seq<Styled> {
    seq![Styled { start: base + from, end: base + to, style }]
}

/// `spans` with plain text recoloured to `wrap`; every other style stays.
pub open spec fn recoloured(spans: Seq<Styled>, wrap: MdStyle) -> Seq<Styled> {
    Seq::new(
        spans.len(),
        |k: int|
            if spans[k].style == MdStyle::Text {
                Styled { start: spans[k].start, end: spans[k].end, style: wrap }
            } else {
                spans[k]
            },
    )
}

/// The four characters that open and close emphasis.
pub open spec fn emphasis_char(c: u8) -> bool {
    c == STAR || c == UNDERSCORE || c == TILDE || c == EQUALS
}

/// `~` and `=` mark up in pairs only.
pub open spec fn paired(c: u8) -> bool {
    c == TILDE || c == EQUALS
}

/// The shortest run of `c` that opens an emphasis.
pub open spec fn least_need(c: u8) -> int {
    if paired(c) {
        2
    } else {
        1
    }
}

/// The longest emphasis a run of `c` of length `r` can open.
pub open spec fn most_need(c: u8, r: int) -> int {
    if paired(c) {
        if r < 2 {
            r
        } else {
            2
        }
    } else if r < 3 {
        r
    } else {
        3
    }
}

/// Whether the run at `i` can open an emphasis: long enough, with content
/// right after it and, for underscores, not inside a word.
pub open spec fn opens(b: Seq<u8>, i: int) -> bool {
    let c = b[i];
    let r = run(b, i, c);
    &&& r >= least_need(c)
    &&& i + r < b.len()
    &&& !space(b[i + r])
    &&& !(c == UNDERSCORE && alnum_until(b, i))
}

/// The longest emphasis of at most `need` markers that opens at `i` and closes:
/// its marker count and the offset of the closing run.
pub open spec fn longest_emphasis(b: Seq<u8>, i: int, need: int) -> Option<(int, int)>
    decreases need,
{
    let c = b[i];
    if need < least_need(c) {
        None
    } else {
        match emph_close(b, i + need, i + need, c, need as nat, c == UNDERSCORE) {
            Some(j) => Some((need, j)),
            None => longest_emphasis(b, i, need - 1),
        }
    }
}

/// The emphasis that the run at `i` opens, if any.
pub open spec fn emphasis(b: Seq<u8>, i: int) -> Option<(int, int)> {
    if opens(b, i) {
        longest_emphasis(b, i, most_need(b[i], run(b, i, b[i]) as int))
    } else {
        None
    }
}

/// What `need` copies of `c` on either side make of the text between them.
pub open spec fn emphasis_style(c: u8, need: int) -> MdStyle {
    if c == TILDE {
        MdStyle::Strikethrough
    } else if c == EQUALS {
        MdStyle::Highlight
    } else if need == 3 {
        MdStyle::BoldItalic
    } else if need == 2 {
        MdStyle::Bold
    } else {
        MdStyle::Italic
    }
}

proof fn lemma_longest_emphasis(b: Seq<u8>, i: int, need: int)
    requires
        0 <= i < b.len(),
        need <= run(b, i, b[i]),
        longest_emphasis(b, i, need) is Some,
    ensures
        ({
            let (k, j) = longest_emphasis(b, i, need)->0;
            &&& 1 <= k <= need
            &&& i + k < j
            &&& j + k <= b.len()
            &&& b[j] == b[i]
            &&& run(b, j, b[i]) >= k
        }),
    decreases need,
{
    let c = b[i];
    lemma_run(b, i, c);
    match emph_close(b, i + need, i + need, c, need as nat, c == UNDERSCORE) {
        Some(j) => {
            lemma_emph_close(b, i + need, i + need, c, need as nat, c == UNDERSCORE);
        },
        None => {
            lemma_longest_emphasis(b, i, need - 1);
        },
    }
}

/// The two marker runs of an emphasis lie apart inside the text.
pub proof fn lemma_emphasis(b: Seq<u8>, i: int)
    requires
        0 <= i < b.len(),
        emphasis(b, i) is Some,
    ensures
        ({
            let (k, j) = emphasis(b, i)->0;
            &&& 1 <= k <= run(b, i, b[i])
            &&& i + k < j
            &&& j + k <= b.len()
            &&& b[j] == b[i]
            &&& run(b, j, b[i]) >= k
        }),
{
    lemma_longest_emphasis(b, i, most_need(b[i], run(b, i, b[i]) as int));
}

/// Where the `[` of a link or image starting at `i` stands.
pub open spec fn link_open(b: Seq<u8>, i: int) -> int {
    if b[i] == BANG {
        i + 1
    } else {
        i
    }
}

/// `(close_bracket, close_paren)` of the link or image starting at `i`.
pub open spec fn link_from(b: Seq<u8>, i: int) -> Option<(int, int)> {
    let open = link_open(b, i);
    if open < b.len() && b[open] == OPEN_BRACKET {
        link(b, open)
    } else {
        None
    }
}

/// The spans of `b` from offset `i` on, where everything from `text_start` to
/// `i` is plain text not yet emitted. `base` is where `b` starts in its line.
pub open spec fn inline_spans(b: Seq<u8>, base: int, depth: int, i: int, text_start: int) -> Seq<
    Styled,
>
    decreases b.len(), b.len() - i,
{
    if i < 0 || i >= b.len() {
        text_span(base, text_start, b.len() as int)
    } else if b[i] == BACKTICK {
        let r = run(b, i, BACKTICK) as int;
        proof {
            lemma_run(b, i, BACKTICK);
        }
        match exact_run(b, i + r, BACKTICK, r as nat) {
            Some(j) => {
                proof {
                    lemma_exact_run(b, i + r, BACKTICK, r as nat);
                }
                text_span(base, text_start, i) + one(base, i, j + r, MdStyle::Code) + inline_spans(
                    b,
                    base,
                    depth,
                    j + r,
                    j + r,
                )
            },
            None => inline_spans(b, base, depth, i + r, text_start),
        }
    } else if emphasis_char(b[i]) {
        proof {
            lemma_run(b, i, b[i]);
        }
        match emphasis(b, i) {
            Some((need, j)) => {
                proof {
                    lemma_emphasis(b, i);
                }
                text_span(base, text_start, i) + one(base, i, i + need, MdStyle::Marker)
                    + wrapped_spans(
                    b.subrange(i + need, j),
                    base + i + need,
                    emphasis_style(b[i], need),
                    depth,
                ) + one(base, j, j + need, MdStyle::Marker) + inline_spans(
                    b,
                    base,
                    depth,
                    j + need,
                    j + need,
                )
            },
            None => inline_spans(b, base, depth, i + run(b, i, b[i]), text_start),
        }
    } else if b[i] == BANG || b[i] == OPEN_BRACKET {
        let open = link_open(b, i);
        match link_from(b, i) {
            Some((rb, rp)) => {
                proof {
                    lemma_link(b, open);
                }
                text_span(base, text_start, i) + one(base, i, open + 1, MdStyle::Marker) + (if rb > open
                    + 1 {
                    wrapped_spans(
                        b.subrange(open + 1, rb),
                        base + open + 1,
                        MdStyle::LinkText,
                        depth,
                    )
                } else {
                    Seq::empty()
                }) + one(base, rb, rb + 2, MdStyle::Marker) + (if rp > rb + 2 {
                    one(base, rb + 2, rp, MdStyle::Marker)
                } else {
                    Seq::empty()
                }) + one(base, rp, rp + 1, MdStyle::Marker) + inline_spans(
                    b,
                    base,
                    depth,
                    rp + 1,
                    rp + 1,
                )
            },
            None => inline_spans(b, base, depth, i + 1, text_start),
        }
    } else if b[i] == LOWER_H {
        match autolink(b, i) {
            Some(end) => {
                proof {
                    lemma_autolink(b, i);
                }
                text_span(base, text_start, i) + one(base, i, end, MdStyle::LinkUrl) + inline_spans(
                    b,
                    base,
                    depth,
                    end,
                    end,
                )
            },
            None => inline_spans(b, base, depth, i + 1, text_start),
        }
    } else {
        inline_spans(b, base, depth, i + 1, text_start)
    }
}

/// The spans of `b` inside markup that gives plain text the style `wrap`.
pub open spec fn wrapped_spans(b: Seq<u8>, base: int, wrap: MdStyle, depth: int) -> Seq<Styled>
    decreases b.len(), b.len() + 1,
{
    if depth >= MAX_INLINE_NEST {
        one(base, 0, b.len() as int, wrap)
    } else {
        recoloured(inline_spans(b, base, depth + 1, 0, 0), wrap)
    }
}

/// Append plain text over `start..end`, unless that is empty.
fn push_text(out: &mut Vec<Span>, base: usize, start: usize, end: usize)
    requires
        base + end <= usize::MAX,
        base + start <= usize::MAX,
    ensures
        styled(final(out)@) == styled(old(out)@) + text_span(base as int, start as int, end as int),
{
    if start < end {
        push(out, base + start, base + end, MdStyle::Text);
    }
    assert(styled(out@) =~= styled(old(out)@) + text_span(base as int, start as int, end as int));
}

/// Append one span.
pub(crate) fn push(out: &mut Vec<Span>, start: usize, end: usize, style: MdStyle)
    ensures
        styled(final(out)@) == styled(old(out)@) + one(0, start as int, end as int, style),
{
    out.push(Span::new(start, end, style));
    assert(styled(out@) =~= styled(old(out)@) + one(0, start as int, end as int, style));
}

/// The length of the emphasis that opens at `i`, and where it closes.
pub(crate) fn find_emphasis(s: &str, i: usize) -> (r: Option<(usize, usize)>)
    requires
        i < s.spec_bytes().len(),
        emphasis_char(s.spec_bytes()[i as int]),
    ensures
        r is Some <==> emphasis(s.spec_bytes(), i as int) is Some,
        r matches Some((need, j)) ==> emphasis(s.spec_bytes(), i as int) == Some(
            (need as int, j as int),
        ),
{
    let b = s.as_bytes();
    let n: usize = b.len();
    let c = b[i];
    let run: usize = run_len(b, i, c);
    let underscore = c == UNDERSCORE;
    let pair = c == TILDE || c == EQUALS;
    let min: usize = if pair {
        2
    } else {
        1
    };
    let max: usize = if pair {
        2
    } else {
        3
    };
    proof {
        lemma_string_ends(s@);
        lemma_ascii_boundary(b@, i as int);
        lemma_run(b@, i as int, c);
    }
    if run < min || n - i <= run || is_space(b[i + run]) || (underscore && alnum_before(s, i)) {
        return None;
    }
    let mut need: usize = if max < run {
        max
    } else {
        run
    };
    while need >= min
        invariant
            b@ == s.spec_bytes(),
            c == b@[i as int],
            c < 0x80,
            i + run <= n,
            n == b@.len(),
            need <= run,
            min == least_need(c),
            min >= 1,
            underscore == (c == UNDERSCORE),
            longest_emphasis(b@, i as int, need as int) == emphasis(b@, i as int),
        decreases need,
    {
        if let Some(j) = find_emph_close(s, i + need, c, need, underscore) {
            return Some((need, j));
        }
        need -= 1;
    }
    None
}

fn emphasis_style_of(c: u8, need: usize) -> (r: MdStyle)
    ensures
        r == emphasis_style(c, need as int),
{
    if c == TILDE {
        MdStyle::Strikethrough
    } else if c == EQUALS {
        MdStyle::Highlight
    } else if need == 3 {
        MdStyle::BoldItalic
    } else if need == 2 {
        MdStyle::Bold
    } else {
        MdStyle::Italic
    }
}

/// Highlight `inner` (a substring at byte offset `base` within the line) and
/// append its spans, recolouring only its plain text to `wrap`.
///
/// This is how inline markup nests: code, links and further emphasis found
/// inside a heading, a link label or an emphasis run keep their own style,
/// while the surrounding prose takes the wrapper's. At [`MAX_INLINE_NEST`] it
/// stops recursing and draws `inner` as one flat span.
pub(crate) fn highlight_wrapped(
    inner: &str,
    base: usize,
    wrap: MdStyle,
    depth: u8,
    out: &mut Vec<Span>,
)
    requires
        base + inner.spec_bytes().len() <= usize::MAX,
    ensures
        styled(final(out)@) == styled(old(out)@) + wrapped_spans(
            inner.spec_bytes(),
            base as int,
            wrap,
            depth as int,
        ),
    decreases inner.spec_bytes().len(), 3int,
{
    if depth >= MAX_INLINE_NEST {
        let n: usize = inner.as_bytes().len();
        push(out, base, base + n, wrap);
        assert(one(0, base as int, base + n, wrap) =~= one(base as int, 0, n as int, wrap));
        return;
    }
    let from: usize = out.len();
    highlight_inline(inner, base, depth + 1, out);
    let ghost plain = inline_spans(inner.spec_bytes(), base as int, depth + 1, 0, 0);
    let ghost before = styled(old(out)@);
    let n: usize = out.len();
    let mut k: usize = from;
    assert(styled(out@).len() == before.len() + plain.len());
    assert forall|m: int| 0 <= m < from implies out@[m]@ == before[m] by {
        assert(styled(out@)[m] == (before + plain)[m]);
    }
    assert forall|m: int| from <= m < n implies out@[m]@ == plain[m - from] by {
        assert(styled(out@)[m] == (before + plain)[m]);
    }
    while k < n
        invariant
            from <= k <= n,
            n == out@.len(),
            from == before.len(),
            n == from + plain.len(),
            forall|m: int| 0 <= m < from ==> (#[trigger] out@[m])@ == before[m],
            forall|m: int| from <= m < k ==> (#[trigger] out@[m])@ == recoloured(plain, wrap)[m - from],
            forall|m: int| k <= m < n ==> (#[trigger] out@[m])@ == plain[m - from],
        decreases n - k,
    {
        let mut span = out[k];
        assert(out@[k as int]@ == plain[k - from]);
        if span.style == MdStyle::Text {
            span.style = wrap;
        }
        out.set(k, span);
        k += 1;
    }
    assert(styled(out@) =~= before + recoloured(plain, wrap));
}

/// Everything emitted once the scan of `b` has gone on from `i` to the end.
spec fn completed(
    out: Seq<Styled>,
    b: Seq<u8>,
    base: int,
    depth: int,
    i: int,
    text_start: int,
) -> Seq<Styled> {
    out + inline_spans(b, base, depth, i, text_start)
}

/// One step of the scan at a backtick.
fn step_code(s: &str, base: usize, depth: u8, i: usize, text_start: usize, out: &mut Vec<Span>) -> (r:
    (usize, usize))
    requires
        base + s.spec_bytes().len() <= usize::MAX,
        text_start <= i < s.spec_bytes().len(),
        s.spec_bytes()[i as int] == BACKTICK,
    ensures
        r.1 <= r.0,
        i < r.0 <= s.spec_bytes().len(),
        completed(
            styled(final(out)@),
            s.spec_bytes(),
            base as int,
            depth as int,
            r.0 as int,
            r.1 as int,
        ) == completed(
            styled(old(out)@),
            s.spec_bytes(),
            base as int,
            depth as int,
            i as int,
            text_start as int,
        ),
{
    let b = s.as_bytes();
    let n: usize = b.len();
    let run: usize = run_len(b, i, BACKTICK);
    proof {
        lemma_run(b@, i as int, BACKTICK);
    }
    match find_exact_run(b, i + run, BACKTICK, run) {
        Some(j) => {
            proof {
                lemma_exact_run(b@, i + run, BACKTICK, run as nat);
            }
            push_text(out, base, text_start, i);
            // Backticks included, so the chip has no ragged edge.
            push(out, base + i, base + j + run, MdStyle::Code);
            let ghost rest = inline_spans(b@, base as int, depth as int, j + run, j + run);
            assert(styled(out@) + rest =~= styled(old(out)@) + (text_span(
                base as int,
                text_start as int,
                i as int,
            ) + one(base as int, i as int, j + run, MdStyle::Code) + rest));
            (j + run, j + run)
        },
        None => (i + run, text_start),
    }
}

/// One step of the scan at `*`, `_`, `~` or `=`.
fn step_emphasis(
    s: &str,
    base: usize,
    depth: u8,
    i: usize,
    text_start: usize,
    out: &mut Vec<Span>,
) -> (r: (usize, usize))
    requires
        base + s.spec_bytes().len() <= usize::MAX,
        text_start <= i < s.spec_bytes().len(),
        emphasis_char(s.spec_bytes()[i as int]),
    ensures
        r.1 <= r.0,
        i < r.0 <= s.spec_bytes().len(),
        completed(
            styled(final(out)@),
            s.spec_bytes(),
            base as int,
            depth as int,
            r.0 as int,
            r.1 as int,
        ) == completed(
            styled(old(out)@),
            s.spec_bytes(),
            base as int,
            depth as int,
            i as int,
            text_start as int,
        ),
    decreases s.spec_bytes().len(), 0int,
{
    let b = s.as_bytes();
    let n: usize = b.len();
    let c = b[i];
    proof {
        lemma_run(b@, i as int, c);
        lemma_string_ends(s@);
    }
    match find_emphasis(s, i) {
        Some((need, j)) => {
            proof {
                lemma_emphasis(b@, i as int);
                lemma_run(b@, j as int, c);
                lemma_ascii_boundary(b@, i + need - 1);
                lemma_ascii_boundary(b@, j as int);
            }
            let style = emphasis_style_of(c, need);
            push_text(out, base, text_start, i);
            push(out, base + i, base + i + need, MdStyle::Marker);
            // The content nests; it is never empty, since a close stands
            // strictly after its open.
            highlight_wrapped(slice(s, i + need, j), base + i + need, style, depth, out);
            push(out, base + j, base + j + need, MdStyle::Marker);
            let ghost rest = inline_spans(b@, base as int, depth as int, j + need, j + need);
            assert(styled(out@) + rest =~= styled(old(out)@) + (text_span(
                base as int,
                text_start as int,
                i as int,
            ) + one(base as int, i as int, i + need, MdStyle::Marker) + wrapped_spans(
                b@.subrange(i + need, j as int),
                base + i + need,
                style,
                depth as int,
            ) + one(base as int, j as int, j + need, MdStyle::Marker) + rest));
            (j + need, j + need)
        },
        None => (i + run_len(b, i, c), text_start),
    }
}

/// The spans of the link or image at `i`, after the text before it.
spec fn link_spans(
    b: Seq<u8>,
    base: int,
    depth: int,
    i: int,
    text_start: int,
    rb: int,
    rp: int,
) -> Seq<Styled> {
    let open = link_open(b, i);
    text_span(base, text_start, i) + one(base, i, open + 1, MdStyle::Marker) + (if rb > open + 1 {
        wrapped_spans(b.subrange(open + 1, rb), base + open + 1, MdStyle::LinkText, depth)
    } else {
        Seq::empty()
    }) + one(base, rb, rb + 2, MdStyle::Marker) + (if rp > rb + 2 {
        one(base, rb + 2, rp, MdStyle::Marker)
    } else {
        Seq::empty()
    }) + one(base, rp, rp + 1, MdStyle::Marker)
}

proof fn lemma_assoc(a: Seq<Styled>, b: Seq<Styled>, c: Seq<Styled>)
    ensures
        (a + b) + c == a + (b + c),
        a + Seq::<Styled>::empty() == a,
{
    assert((a + b) + c =~= a + (b + c));
    assert(a + Seq::<Styled>::empty() =~= a);
}

/// Append the spans of a link or image whose parts are known.
fn push_link(
    s: &str,
    base: usize,
    depth: u8,
    i: usize,
    text_start: usize,
    rb: usize,
    rp: usize,
    out: &mut Vec<Span>,
)
    requires
        base + s.spec_bytes().len() <= usize::MAX,
        text_start <= i < s.spec_bytes().len(),
        link_from(s.spec_bytes(), i as int) == Some((rb as int, rp as int)),
    ensures
        styled(final(out)@) == styled(old(out)@) + link_spans(
            s.spec_bytes(),
            base as int,
            depth as int,
            i as int,
            text_start as int,
            rb as int,
            rp as int,
        ),
    decreases s.spec_bytes().len(), 0int,
{
    let b = s.as_bytes();
    let open: usize = if b[i] == BANG {
        i + 1
    } else {
        i
    };
    proof {
        lemma_string_ends(s@);
        lemma_link(b@, open as int);
        lemma_ascii_boundary(b@, open as int);
        lemma_ascii_boundary(b@, rb as int);
    }
    let n: usize = b.len();
    let ghost before = styled(old(out)@);
    let ghost text = text_span(base as int, text_start as int, i as int);
    let ghost bracket = one(base as int, i as int, open + 1, MdStyle::Marker);
    push_text(out, base, text_start, i);
    // `!` + `[`
    push(out, base + i, base + open + 1, MdStyle::Marker);
    let ghost label_spans = if rb > open + 1 {
        wrapped_spans(
            b@.subrange(open + 1, rb as int),
            base + open + 1,
            MdStyle::LinkText,
            depth as int,
        )
    } else {
        Seq::empty()
    };
    let ghost opened = text + bracket;
    proof {
        lemma_assoc(before, text, bracket);
        lemma_assoc(before, opened, label_spans);
    }
    if rb > open + 1 {
        // The label nests too. A nested `[` is barred, so no link recurses
        // inside a link.
        let label = slice(s, open + 1, rb);
        highlight_wrapped(label, base + open + 1, MdStyle::LinkText, depth, out);
    }
    let ghost labelled = opened + label_spans;
    // `](`
    push(out, base + rb, base + rb + 2, MdStyle::Marker);
    let ghost turn = one(base as int, rb as int, rb + 2, MdStyle::Marker);
    let ghost url_spans = if rp > rb + 2 {
        one(base as int, rb + 2, rp as int, MdStyle::Marker)
    } else {
        Seq::empty()
    };
    proof {
        lemma_assoc(before, labelled, turn);
        lemma_assoc(before, labelled + turn, url_spans);
    }
    if rp > rb + 2 {
        push(out, base + rb + 2, base + rp, MdStyle::Marker);
    }
    let ghost addressed = labelled + turn + url_spans;
    push(out, base + rp, base + rp + 1, MdStyle::Marker);
    proof {
        lemma_assoc(before, addressed, one(base as int, rp as int, rp + 1, MdStyle::Marker));
    }
}

/// One step of the scan at `!` or `[`.
fn step_link(s: &str, base: usize, depth: u8, i: usize, text_start: usize, out: &mut Vec<Span>) -> (r:
    (usize, usize))
    requires
        base + s.spec_bytes().len() <= usize::MAX,
        text_start <= i < s.spec_bytes().len(),
        s.spec_bytes()[i as int] == BANG || s.spec_bytes()[i as int] == OPEN_BRACKET,
    ensures
        r.1 <= r.0,
        i < r.0 <= s.spec_bytes().len(),
        completed(
            styled(final(out)@),
            s.spec_bytes(),
            base as int,
            depth as int,
            r.0 as int,
            r.1 as int,
        ) == completed(
            styled(old(out)@),
            s.spec_bytes(),
            base as int,
            depth as int,
            i as int,
            text_start as int,
        ),
    decreases s.spec_bytes().len(), 1int,
{
    let b = s.as_bytes();
    let n: usize = b.len();
    let open: usize = if b[i] == BANG {
        i + 1
    } else {
        i
    };
    let found = if open < n && b[open] == OPEN_BRACKET {
        find_link(b, open)
    } else {
        None
    };
    match found {
        Some((rb, rp)) => {
            proof {
                lemma_link(b@, open as int);
            }
            push_link(s, base, depth, i, text_start, rb, rp, out);
            proof {
                lemma_assoc(
                    styled(old(out)@),
                    link_spans(
                        b@,
                        base as int,
                        depth as int,
                        i as int,
                        text_start as int,
                        rb as int,
                        rp as int,
                    ),
                    inline_spans(b@, base as int, depth as int, rp + 1, rp + 1),
                );
            }
            (rp + 1, rp + 1)
        },
        None => (i + 1, text_start),
    }
}

/// One step of the scan at `h`, which may start a bare url.
fn step_url(s: &str, base: usize, depth: u8, i: usize, text_start: usize, out: &mut Vec<Span>) -> (r:
    (usize, usize))
    requires
        base + s.spec_bytes().len() <= usize::MAX,
        text_start <= i < s.spec_bytes().len(),
        s.spec_bytes()[i as int] == LOWER_H,
    ensures
        r.1 <= r.0,
        i < r.0 <= s.spec_bytes().len(),
        completed(
            styled(final(out)@),
            s.spec_bytes(),
            base as int,
            depth as int,
            r.0 as int,
            r.1 as int,
        ) == completed(
            styled(old(out)@),
            s.spec_bytes(),
            base as int,
            depth as int,
            i as int,
            text_start as int,
        ),
{
    let ghost b = s.spec_bytes();
    proof {
        lemma_string_ends(s@);
        lemma_ascii_boundary(b, i as int);
    }
    match autolink_end(s, i) {
        Some(end) => {
            proof {
                lemma_autolink(b, i as int);
            }
            push_text(out, base, text_start, i);
            push(out, base + i, base + end, MdStyle::LinkUrl);
            let ghost rest = inline_spans(b, base as int, depth as int, end as int, end as int);
            assert(styled(out@) + rest =~= styled(old(out)@) + (text_span(
                base as int,
                text_start as int,
                i as int,
            ) + one(base as int, i as int, end as int, MdStyle::LinkUrl) + rest));
            (end, end)
        },
        None => (i + 1, text_start),
    }
}

/// Scan `s` left to right, appending contiguous spans covering
/// `base..base + s.len()`. `depth` is the inline-nesting level, threaded so
/// [`highlight_wrapped`] can cap recursion.
pub(crate) fn highlight_inline(s: &str, base: usize, depth: u8, out: &mut Vec<Span>)
    requires
        base + s.spec_bytes().len() <= usize::MAX,
    ensures
        styled(final(out)@) == styled(old(out)@) + inline_spans(
            s.spec_bytes(),
            base as int,
            depth as int,
            0,
            0,
        ),
    decreases s.spec_bytes().len(), 2int,
{
    let b = s.as_bytes();
    let n: usize = b.len();
    let mut i: usize = 0;
    let mut text_start: usize = 0;
    let ghost whole = completed(styled(old(out)@), b@, base as int, depth as int, 0, 0);
    while i < n
        invariant
            b@ == s.spec_bytes(),
            n == b@.len(),
            base + n <= usize::MAX,
            text_start <= i <= n,
            completed(
                styled(out@),
                b@,
                base as int,
                depth as int,
                i as int,
                text_start as int,
            ) == whole,
        decreases n - i,
    {
        let c = b[i];
        let (next, start) = if c == BACKTICK {
            step_code(s, base, depth, i, text_start, out)
        } else if c == STAR || c == UNDERSCORE || c == TILDE || c == EQUALS {
            step_emphasis(s, base, depth, i, text_start, out)
        } else if c == BANG || c == OPEN_BRACKET {
            step_link(s, base, depth, i, text_start, out)
        } else if c == LOWER_H {
            step_url(s, base, depth, i, text_start, out)
        } else {
            (i + 1, text_start)
        };
        i = next;
        text_start = start;
    }
    push_text(out, base, text_start, n);
}

} // verus!
