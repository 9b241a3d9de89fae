//! What a click on a line opens.

use vstd::prelude::*;
use vstd::utf8::*;

use crate::ascii::{
    BACKTICK, BANG, CLOSE_BRACKET, CLOSE_PAREN, COLON, HASH, LOWER_H, LOWER_P, LOWER_S, LOWER_T, OPEN_BRACKET,
    OPEN_PAREN, SLASH, SPACE,
};
use crate::markdown::blocks::{lemma_not_a_rule, lemma_nothing_trimmed};
use crate::markdown::inline::link_from;
use crate::markdown::links::{address, inline_target, target};
use crate::markdown::probes::prose_words;
use crate::markdown::scan::{autolink, lemma_run_is, url_run, url_stop, url_trimmed};
use crate::markdown::shapes::{
    lemma_ascii_valid, lemma_label_end, lemma_paren_end, lemma_url_run_is, plain, scheme, words,
};
use crate::markdown::words::word_byte;
use crate::markdown::{blanks_end, digits_end, fence, heading, lead, list, quote, separator};
use crate::text::{bytes, white_space};

verus! {

broadcast use vstd::seq::group_seq_axioms;

/// Nothing opens where nothing is marked up.
proof fn lemma_nothing_opens(b: Seq<u8>, depth: int, i: int, at: int)
    requires
        0 <= i <= b.len(),
        forall|k: int| i <= k < b.len() ==> plain(#[trigger] b[k]),
    ensures
        inline_target(b, depth, i, at) is None,
    decreases b.len() - i,
{
    if i < b.len() {
        assert(plain(b[i]));
        if b[i] == LOWER_H && autolink(b, i) is Some {
            if i + 4 < b.len() {
                assert(plain(b[i + 4]));
            }
            if i + 5 < b.len() {
                assert(plain(b[i + 5]));
            }
        }
        assert(inline_target(b, depth, i, at) == inline_target(b, depth, i + 1, at));
        lemma_nothing_opens(b, depth, i + 1, at);
    }
}

/// Words open nothing.
pub proof fn law_words_open_nothing(t: Seq<u8>, at: int)
    requires
        prose_words(t),
    ensures
        target(t, at) is None,
{
    assert forall|k: int| 0 <= k < t.len() implies (#[trigger] t[k]) < 128 by {
        assert(plain(t[k]));
    }
    lemma_ascii_valid(t);
    lemma_margin(t);
    lemma_nothing_opens(t, 0, 0, at);
}

/// What starts with a letter, a bracket or an exclamation mark is no block.
proof fn lemma_margin(b: Seq<u8>)
    requires
        valid_utf8(b),
        b.len() > 0,
        b[0] == OPEN_BRACKET || b[0] == BANG || word_byte(b[0]) && !(0x30 <= b[0] <= 0x39),
    ensures
        !fence(b),
        !separator(decode_utf8(b)),
        heading(b) is None,
        quote(b) is None,
        list(b) is None,
{
    lemma_not_a_rule(b, 0);
    lemma_run_is(b, 0, 0, SPACE);
    lemma_run_is(b, 0, 0, HASH);
    assert(lead(b) == 0);
    assert(blanks_end(b, 0) == 0);
    assert(digits_end(b, 0) == 0);
}

/// A `[text](url)` opens its url wherever it is clicked, from its first bracket through its
/// last.
pub proof fn law_a_link_opens_its_address(t: Seq<u8>, u: Seq<u8>, at: int)
    requires
        words(t),
        u.len() > 0,
        forall|j: int| 0 <= j < u.len() ==> 0x21 <= #[trigger] u[j] < 0x7f && u[j] != CLOSE_PAREN,
        0 <= at < 4 + t.len() + u.len(),
    ensures
        target(seq![OPEN_BRACKET] + t + seq![CLOSE_BRACKET, OPEN_PAREN] + u + seq![CLOSE_PAREN], at)
            == Some(u),
{
    let n = t.len() as int;
    let b = seq![OPEN_BRACKET] + t + seq![CLOSE_BRACKET, OPEN_PAREN] + u + seq![CLOSE_PAREN];
    let rb = 1 + n;
    let rp = b.len() - 1;
    assert forall|j: int| 1 <= j < rb implies #[trigger] b[j] == t[j - 1] by {}
    assert forall|j: int| rb + 2 <= j < rp implies #[trigger] b[j] == u[j - rb - 2] by {}
    assert(b[0] == OPEN_BRACKET && b[rb] == CLOSE_BRACKET && b[rb + 1] == OPEN_PAREN && b[rp]
        == CLOSE_PAREN);
    assert forall|j: int| 0 <= j < b.len() implies (#[trigger] b[j]) < 128 by {
        if 1 <= j < rb {
            assert(plain(t[j - 1]));
        } else if rb + 2 <= j < rp {
            assert(u[j - rb - 2] < 0x7f);
        }
    }
    lemma_ascii_valid(b);
    lemma_margin(b);
    assert forall|j: int| 1 <= j < rb implies #[trigger] b[j] != CLOSE_BRACKET && b[j] != OPEN_BRACKET by {
        assert(plain(t[j - 1]));
    }
    lemma_label_end(b, 1, rb);
    assert forall|j: int| rb + 2 <= j < rp implies #[trigger] b[j] != CLOSE_PAREN by {
        assert(b[j] == u[j - rb - 2]);
    }
    lemma_paren_end(b, rb + 2, rp);
    assert(link_from(b, 0) == Some((rb, rp)));
    assert(b.subrange(rb + 2, rp) =~= u);
    let v = Seq::new(u.len(), |k: int| u[k] as char);
    assert forall|k: int| 0 <= k < v.len() implies (#[trigger] v[k] as int) < 128 && !white_space(v[k]) by {
        assert(u[k] < 0x7f);
    }
    is_ascii_chars_encode_utf8(v);
    assert(bytes(v) =~= u) by {
        assert forall|k: int| 0 <= k < u.len() implies bytes(v)[k] == u[k] by {
            assert(u[k] < 0x7f);
        }
    }
    encode_utf8_decode_utf8(v);
    assert(!white_space(v[0]) && !white_space(v[v.len() - 1]));
    lemma_nothing_trimmed(v);
    assert(address(b, rb, rp) == u);
}

/// A picture opens its address from its first bracket through its last; the mark in front
/// of it opens nothing.
pub proof fn law_a_picture_opens_its_address(t: Seq<u8>, u: Seq<u8>, at: int)
    requires
        words(t),
        u.len() > 0,
        forall|j: int| 0 <= j < u.len() ==> 0x21 <= #[trigger] u[j] < 0x7f && u[j] != CLOSE_PAREN,
        0 <= at < 5 + t.len() + u.len(),
    ensures
        target(
            seq![BANG, OPEN_BRACKET] + t + seq![CLOSE_BRACKET, OPEN_PAREN] + u + seq![CLOSE_PAREN],
            at,
        ) == (if at == 0 {
            None
        } else {
            Some(u)
        }),
{
    let n = t.len() as int;
    let b = seq![BANG, OPEN_BRACKET] + t + seq![CLOSE_BRACKET, OPEN_PAREN] + u + seq![CLOSE_PAREN];
    let rb = 2 + n;
    let rp = b.len() - 1;
    assert forall|j: int| 2 <= j < rb implies #[trigger] b[j] == t[j - 2] by {}
    assert forall|j: int| rb + 2 <= j < rp implies #[trigger] b[j] == u[j - rb - 2] by {}
    assert(b[0] == BANG && b[1] == OPEN_BRACKET && b[rb] == CLOSE_BRACKET && b[rb + 1] == OPEN_PAREN && b[rp]
        == CLOSE_PAREN);
    assert forall|j: int| 0 <= j < b.len() implies (#[trigger] b[j]) < 128 by {
        if 2 <= j < rb {
            assert(plain(t[j - 2]));
        } else if rb + 2 <= j < rp {
            assert(u[j - rb - 2] < 0x7f);
        }
    }
    lemma_ascii_valid(b);
    lemma_margin(b);
    assert forall|j: int| 2 <= j < rb implies #[trigger] b[j] != CLOSE_BRACKET && b[j] != OPEN_BRACKET by {
        assert(plain(t[j - 2]));
    }
    lemma_label_end(b, 2, rb);
    assert forall|j: int| rb + 2 <= j < rp implies #[trigger] b[j] != CLOSE_PAREN by {
        assert(b[j] == u[j - rb - 2]);
    }
    lemma_paren_end(b, rb + 2, rp);
    assert(link_from(b, 0) == Some((rb, rp)));
    assert(b.subrange(rb + 2, rp) =~= u);
    let v = Seq::new(u.len(), |k: int| u[k] as char);
    assert forall|k: int| 0 <= k < v.len() implies (#[trigger] v[k] as int) < 128 && !white_space(v[k]) by {
        assert(u[k] < 0x7f);
    }
    is_ascii_chars_encode_utf8(v);
    assert(bytes(v) =~= u) by {
        assert forall|k: int| 0 <= k < u.len() implies bytes(v)[k] == u[k] by {
            assert(u[k] < 0x7f);
        }
    }
    encode_utf8_decode_utf8(v);
    assert(!white_space(v[0]) && !white_space(v[v.len() - 1]));
    lemma_nothing_trimmed(v);
    assert(address(b, rb, rp) == u);
    assert(inline_target(b, 0, rp + 1, at) is None);
}

/// A bare url opens itself, from its scheme to its end; the words behind it open nothing.
pub proof fn law_a_bare_url_opens_itself(secure: bool, u: Seq<u8>, t: Seq<u8>, at: int)
    requires
        u.len() > 0,
        forall|j: int|
            0 <= j < u.len() ==> 0x21 <= #[trigger] u[j] < 0x7f && u[j] != 0x22 && u[j] != 0x3c && u[j]
                != 0x3e && u[j] != BACKTICK,
        word_byte(u[u.len() - 1]) || u[u.len() - 1] == SLASH,
        words(t),
        0 <= at,
    ensures
        target(scheme(secure) + u + seq![SPACE] + t, at) == if at < scheme(secure).len() + u.len() {
            Some(scheme(secure) + u)
        } else {
            None
        },
{
    let sch = scheme(secure);
    let w = sch.len() as int;
    let m = w + u.len();
    let b = sch + u + seq![SPACE] + t;
    let n = b.len() as int;
    assert forall|j: int| w <= j < m implies #[trigger] b[j] == u[j - w] by {}
    assert forall|j: int| m < j < n implies #[trigger] b[j] == t[j - m - 1] by {}
    assert forall|j: int| 0 <= j < w implies #[trigger] b[j] == sch[j] by {}
    assert(b[m] == SPACE);
    assert forall|j: int| 0 <= j < n implies (#[trigger] b[j]) < 128 by {
        if w <= j < m {
            assert(u[j - w] < 0x7f);
        } else if m < j {
            assert(plain(t[j - m - 1]));
        }
    }
    lemma_ascii_valid(b);
    assert(b[0] == LOWER_H && b[1] == LOWER_T && b[2] == LOWER_T && b[3] == LOWER_P);
    assert(b[4] == if secure { LOWER_S } else { COLON });
    assert(b[5] == if secure { COLON } else { SLASH });
    assert(b[6] == SLASH);
    if secure {
        assert(b[7] == SLASH);
    }
    lemma_margin(b);
    assert forall|k: int| w <= k < m implies !url_stop(#[trigger] b[k]) by {
        assert(b[k] == u[k - w]);
    }
    lemma_url_run_is(b, w, m);
    assert(b[m - 1] == u[u.len() - 1]);
    assert(url_trimmed(b, w, m) == m);
    assert(autolink(b, 0) == Some(m));
    assert(b.subrange(0, m) =~= sch + u);
    assert forall|k: int| m <= k < n implies plain(#[trigger] b[k]) by {
        if m < k {
            assert(plain(t[k - m - 1]));
        }
    }
    lemma_nothing_opens(b, 0, m, at);
    assert(target(b, at) == inline_target(b, 0, 0, at));
}

/// Sentence punctuation behind a bare url is none of it.
pub proof fn law_punctuation_is_no_part_of_a_url(b: Seq<u8>, i: int)
    requires
        0 <= i < b.len(),
        autolink(b, i) is Some,
    ensures
        ({
            let e = autolink(b, i)->0;
            let s = crate::markdown::scan::scheme_len(b, i);
            &&& i + s <= e <= b.len()
            &&& forall|k: int| i + s <= k < e ==> !url_stop(#[trigger] b[k])
            &&& e > i + s ==> {
                let c = b[e - 1];
                c != 0x2e && c != 0x2c && c != 0x3b && c != 0x3a && c != 0x21 && c != 0x3f && c != 0x29
                    && c != 0x5d && c != 0x7d && c != 0x27
            }
        }),
{
    let s = crate::markdown::scan::scheme_len(b, i);
    lemma_url_bytes(b, i + s);
    lemma_url_cut(b, i + s, url_run(b, i + s));
}

proof fn lemma_url_bytes(b: Seq<u8>, j: int)
    requires
        0 <= j <= b.len(),
    ensures
        j <= url_run(b, j) <= b.len(),
        forall|k: int| j <= k < url_run(b, j) ==> !url_stop(#[trigger] b[k]),
    decreases b.len() - j,
{
    if j < b.len() && !url_stop(b[j]) {
        lemma_url_bytes(b, j + 1);
    }
}

proof fn lemma_url_cut(b: Seq<u8>, low: int, end: int)
    requires
        0 <= low <= end <= b.len(),
    ensures
        low <= url_trimmed(b, low, end) <= end,
        url_trimmed(b, low, end) > low ==> !crate::markdown::scan::url_trail(
            b[url_trimmed(b, low, end) - 1],
        ),
    decreases end - low,
{
    if low < end && crate::markdown::scan::url_trail(b[end - 1]) {
        lemma_url_cut(b, low, end - 1);
    }
}

} // verus!
