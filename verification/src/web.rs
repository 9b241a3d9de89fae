//! Links out of the note: which text is a link, and which links may be opened.

use vstd::prelude::*;
use vstd::string::*;

use crate::palette::{fold, folded};
use crate::text::{chars_of, has_newline, is_white_space, trim, trimmed, trimmed_start, white_space};

verus! {

broadcast use {vstd::seq::group_seq_axioms, vstd::string::group_string_axioms};

/// Whether `text` is one bare URL and nothing else — the shape a paste can turn
/// into a link without having to guess.
pub open spec fn bare_url(text: Seq<char>) -> bool {
    let t = trimmed(text);
    &&& t.len() > 0
    &&& forall|i: int| 0 <= i < t.len() ==> !white_space(#[trigger] t[i])
    &&& "http://"@.is_prefix_of(t) || "https://"@.is_prefix_of(t) || "mailto:"@.is_prefix_of(t)
}

/// Whether `c` is one of the characters a link is made of.
pub open spec fn bracket(c: char) -> bool {
    c == '[' || c == ']' || c == '(' || c == ')'
}

/// Whether a selection is something a URL can be wrapped around: one line of
/// ordinary words. Not markup, which may be a link already, and not a URL.
pub open spec fn link_text(selected: Seq<char>) -> bool {
    &&& selected.len() > 0
    &&& !selected.contains('\n')
    &&& trimmed(selected).len() > 0
    &&& forall|i: int| 0 <= i < selected.len() ==> !bracket(#[trigger] selected[i])
    &&& !bare_url(selected)
}

/// Whether `s` starts with `p`.
pub fn starts_with(s: &str, p: &str) -> (r: bool)
    ensures
        r == p@.is_prefix_of(s@),
{
    let have = chars_of(s);
    let want = chars_of(p);
    if want.len() > have.len() {
        return false;
    }
    let mut i: usize = 0;
    while i < want.len()
        invariant
            have@ == s@,
            want@ == p@,
            i <= want@.len() <= have@.len(),
            forall|k: int| 0 <= k < i ==> have@[k] == want@[k],
        decreases want@.len() - i,
    {
        if have[i] != want[i] {
            assert(have@.subrange(0, want@.len() as int)[i as int] != want@[i as int]);
            return false;
        }
        i += 1;
    }
    assert(want@ =~= have@.subrange(0, want@.len() as int));
    true
}

/// Whether `text` is one bare URL and nothing else.
pub fn is_bare_url(text: &str) -> (r: bool)
    ensures
        r == bare_url(text@),
{
    let t = trim(text);
    if t.is_empty() {
        return false;
    }
    for c in it: t.chars()
        invariant
            it.seq() == t@,
            t@ == trimmed(text@),
            forall|k: int| 0 <= k < it.index() ==> !white_space(#[trigger] t@[k]),
    {
        if is_white_space(c) {
            assert(white_space(t@[it.index() as int]));
            return false;
        }
    }
    starts_with(t, "http://") || starts_with(t, "https://") || starts_with(t, "mailto:")
}

/// Whether a selection is something a URL can be wrapped around.
pub fn is_link_text(selected: &str) -> (r: bool)
    ensures
        r == link_text(selected@),
{
    if selected.is_empty() || has_newline(selected) || trim(selected).is_empty() {
        return false;
    }
    for c in it: selected.chars()
        invariant
            it.seq() == selected@,
            forall|k: int| 0 <= k < it.index() ==> !bracket(#[trigger] selected@[k]),
    {
        if c == '[' || c == ']' || c == '(' || c == ')' {
            assert(bracket(selected@[it.index() as int]));
            return false;
        }
    }
    !is_bare_url(selected)
}

/// Whether what stands before the first colon of `url` is a scheme: it is not
/// empty, and holds nothing that only an address holds.
pub open spec fn has_scheme(url: Seq<char>) -> bool {
    exists|i: int| #[trigger] first_colon(url, i) && i > 0 && plain(url, i)
}

/// Whether character `i` of `url` is its first colon.
pub open spec fn first_colon(url: Seq<char>, i: int) -> bool {
    0 <= i < url.len() && url[i] == ':' && forall|k: int| 0 <= k < i ==> url[k] != ':'
}

/// Whether none of the first `n` characters of `url` belong in an address only.
pub open spec fn plain(url: Seq<char>, n: int) -> bool {
    forall|k: int|
        0 <= k < n ==> !(url[k] == '/' || url[k] == ' ' || url[k] == '.' || url[k] == '?')
}

/// Whether the scheme of `url` is `name`, in whatever case.
pub open spec fn scheme_is(url: Seq<char>, name: Seq<char>) -> bool {
    &&& first_colon(url, name.len() as int)
    &&& forall|k: int| 0 <= k < name.len() ==> folded(url[k]) == folded(#[trigger] name[k])
}

/// Whether `url` names a scheme that opens something other than a web page or a
/// mail.
pub open spec fn refused(url: Seq<char>) -> bool {
    has_scheme(url) && !scheme_is(url, "http"@) && !scheme_is(url, "https"@) && !scheme_is(
        url,
        "mailto"@,
    )
}

/// What to do with a link that was clicked.
pub enum Opening {
    /// The link is empty.
    Nothing,
    /// It is refused; what to say.
    Refused(String),
    /// Hand this to the system.
    Open(String),
}

/// The place of the first colon of `url`.
fn find_colon(url: &Vec<char>) -> (r: Option<usize>)
    ensures
        match r {
            Some(i) => first_colon(url@, i as int),
            None => forall|k: int| 0 <= k < url@.len() ==> #[trigger] url@[k] != ':',
        },
{
    let mut i: usize = 0;
    while i < url.len()
        invariant
            i <= url@.len(),
            forall|k: int| 0 <= k < i ==> #[trigger] url@[k] != ':',
        decreases url@.len() - i,
    {
        if url[i] == ':' {
            return Some(i);
        }
        i += 1;
    }
    None
}

/// Whether the first `n` characters of `url` hold nothing that only an address
/// holds.
fn is_plain(url: &Vec<char>, n: usize) -> (r: bool)
    requires
        n <= url@.len(),
    ensures
        r == plain(url@, n as int),
{
    let mut i: usize = 0;
    while i < n
        invariant
            i <= n <= url@.len(),
            plain(url@, i as int),
        decreases n - i,
    {
        let c = url[i];
        if c == '/' || c == ' ' || c == '.' || c == '?' {
            assert(url@[i as int] == c);
            return false;
        }
        i += 1;
    }
    true
}

/// Whether the scheme of `url`, which ends at `end`, is `name`.
fn is_scheme(url: &Vec<char>, end: usize, name: &str) -> (r: bool)
    requires
        first_colon(url@, end as int),
    ensures
        r == scheme_is(url@, name@),
{
    let want = chars_of(name);
    if want.len() != end {
        proof {
            if scheme_is(url@, name@) {
                let n = name@.len() as int;
                assert(url@[n] == ':' && url@[end as int] == ':');
            }
        }
        return false;
    }
    let mut i: usize = 0;
    while i < end
        invariant
            i <= end,
            end == want@.len(),
            want@ == name@,
            end < url@.len(),
            forall|k: int| 0 <= k < i ==> folded(url@[k]) == folded(#[trigger] name@[k]),
        decreases end - i,
    {
        if fold(url[i]) != fold(want[i]) {
            assert(folded(url@[i as int]) != folded(name@[i as int]));
            return false;
        }
        i += 1;
    }
    true
}

/// Open a link. A document can carry a link that is not a web page, and the
/// system would launch an application for whatever scheme something has
/// registered; so the scheme is judged on what the note says, before an address
/// with none is given `https://`.
pub fn open_link(url: &str) -> (r: Opening)
    ensures
        ({
            let t = trimmed(url@);
            if t.len() == 0 {
                r is Nothing
            } else if refused(t) {
                r matches Opening::Refused(text) && text@ == "Not opening "@ + t
                    + " — only web and mail links open from a note."@
            } else if has_scheme(t) {
                r matches Opening::Open(target) && target@ == t
            } else {
                r matches Opening::Open(target) && target@ == "https://"@ + t
            }
        }),
{
    let t = trim(url);
    if t.is_empty() {
        return Opening::Nothing;
    }
    let chars = chars_of(t);
    let scheme: Option<usize> = match find_colon(&chars) {
        Some(i) => if i > 0 && is_plain(&chars, i) {
            Some(i)
        } else {
            None
        },
        None => None,
    };
    proof {
        assert forall|i: int, j: int| first_colon(t@, i) && first_colon(t@, j) implies i == j by {
            if i < j {
                assert(t@[i] != ':');
            }
            if j < i {
                assert(t@[j] != ':');
            }
        }
    }
    match scheme {
        Some(i) => {
            assert(first_colon(t@, i as int));
            if is_scheme(&chars, i, "http") || is_scheme(&chars, i, "https") || is_scheme(
                &chars,
                i,
                "mailto",
            ) {
                Opening::Open(String::from_str(t))
            } else {
                let mut text = String::from_str("Not opening ");
                text.append(t);
                text.append(" — only web and mail links open from a note.");
                Opening::Refused(text)
            }
        },
        None => {
            let mut target = String::from_str("https://");
            target.append(t);
            Opening::Open(target)
        },
    }
}

/// What is opened starts with a scheme that is judged harmless: `http`, `https`
/// or `mailto`.
pub proof fn law_only_web_and_mail(url: Seq<char>)
    ensures
        !refused(url) ==> ({
            let target = if has_scheme(url) {
                url
            } else {
                "https://"@ + url
            };
            scheme_is(target, "http"@) || scheme_is(target, "https"@) || scheme_is(
                target,
                "mailto"@,
            )
        }),
{
    if !has_scheme(url) {
        let target = "https://"@ + url;
        reveal_strlit("https://");
        reveal_strlit("https");
        assert(target[5] == ':');
        assert forall|k: int| 0 <= k < 5 implies folded(target[k]) == folded(#[trigger] "https"@[k])
            && target[k] != ':' by {
            assert(target[k] == "https://"@[k]);
        }
        assert(first_colon(target, 5));
    }
}

/// Small ASCII letters.
pub open spec fn small_letters(name: Seq<char>) -> bool {
    forall|k: int| 0 <= k < name.len() ==> 'a' <= #[trigger] name[k] <= 'z'
}

/// A link with letters and a colon in front names a scheme, and opens unless that is
/// another than `http`, `https` and `mailto`; one without a colon names none.
pub proof fn law_other_schemes_are_refused(name: Seq<char>, rest: Seq<char>)
    requires
        name.len() > 0,
        small_letters(name),
    ensures
        has_scheme(name + seq![':'] + rest),
        refused(name + seq![':'] + rest) <==> name != "http"@ && name != "https"@ && name
            != "mailto"@,
        !rest.contains(':') ==> !has_scheme(rest) && !refused(rest),
{
    let url = name + seq![':'] + rest;
    let n = name.len() as int;
    assert(url[n] == ':');
    assert forall|k: int| 0 <= k < n implies url[k] != ':' by {
        assert(url[k] == name[k]);
        assert('a' <= name[k] <= 'z');
    }
    assert(first_colon(url, n));
    assert forall|k: int| 0 <= k < n implies !(url[k] == '/' || url[k] == ' ' || url[k] == '.' || url[k]
        == '?') by {
        assert(url[k] == name[k]);
        assert('a' <= name[k] <= 'z');
    }
    assert(plain(url, n));
    reveal_strlit("http");
    reveal_strlit("https");
    reveal_strlit("mailto");
    lemma_scheme_is(name, rest, "http"@);
    lemma_scheme_is(name, rest, "https"@);
    lemma_scheme_is(name, rest, "mailto"@);
    if !rest.contains(':') && has_scheme(rest) {
        let i = choose|i: int| #[trigger] first_colon(rest, i) && i > 0 && plain(rest, i);
        assert(rest[i] == ':');
    }
}

proof fn lemma_scheme_is(name: Seq<char>, rest: Seq<char>, want: Seq<char>)
    requires
        small_letters(name),
        small_letters(want),
        first_colon(name + seq![':'] + rest, name.len() as int),
    ensures
        scheme_is(name + seq![':'] + rest, want) <==> name == want,
{
    let url = name + seq![':'] + rest;
    if scheme_is(url, want) {
        let n = name.len() as int;
        let m = want.len() as int;
        assert(url[n] == ':' && url[m] == ':');
        assert(n == m);
        assert forall|k: int| 0 <= k < n implies name[k] == want[k] by {
            assert(folded(url[k]) == folded(want[k]));
            assert(url[k] == name[k]);
            assert('a' <= name[k] <= 'z' && 'a' <= want[k] <= 'z');
        }
        assert(name =~= want);
    }
    if name == want {
        assert forall|k: int| 0 <= k < want.len() implies folded(url[k]) == folded(
            #[trigger] want[k],
        ) by {
            assert(url[k] == name[k]);
        }
    }
}

/// A word that starts as a web or a mail address does, without white space in it, is a
/// bare url; one that starts otherwise, and what holds white space, is none.
pub proof fn law_a_bare_url_is_one_word(t: Seq<char>, k: int)
    requires
        t.len() > 0,
        !white_space(t[0]),
        !white_space(t.last()),
    ensures
        (forall|i: int| 0 <= i < t.len() ==> !white_space(#[trigger] t[i])) && ("http://"@.is_prefix_of(t)
            || "https://"@.is_prefix_of(t) || "mailto:"@.is_prefix_of(t)) ==> bare_url(t),
        0 <= k < t.len() && white_space(t[k]) ==> !bare_url(t),
        t[0] != 'h' && t[0] != 'm' ==> !bare_url(t),
{
    crate::markdown::blocks::lemma_nothing_trimmed(t);
    reveal_strlit("http://");
    reveal_strlit("https://");
    reveal_strlit("mailto:");
    if "http://"@.is_prefix_of(t) {
        assert(t.subrange(0, "http://"@.len() as int)[0] == t[0]);
    }
    if "https://"@.is_prefix_of(t) {
        assert(t.subrange(0, "https://"@.len() as int)[0] == t[0]);
    }
    if "mailto:"@.is_prefix_of(t) {
        assert(t.subrange(0, "mailto:"@.len() as int)[0] == t[0]);
    }
}

/// White space alone is trimmed away.
proof fn lemma_white_is_trimmed(t: Seq<char>)
    requires
        forall|i: int| 0 <= i < t.len() ==> white_space(#[trigger] t[i]),
    ensures
        trimmed_start(t).len() == 0,
        trimmed(t).len() == 0,
    decreases t.len(),
{
    if t.len() > 0 {
        assert(white_space(t[0]));
        assert forall|i: int| 0 <= i < t.drop_first().len() implies white_space(
            #[trigger] t.drop_first()[i],
        ) by {
            assert(white_space(t[i + 1]));
        }
        lemma_white_is_trimmed(t.drop_first());
    }
}

/// A link goes around one line of words: around nothing blank, nothing that holds a
/// bracket or a line break, and no url. Every other selection can be its text.
pub proof fn law_what_a_link_goes_around(t: Seq<char>, k: int)
    ensures
        0 <= k < t.len() && (t[k] == '[' || t[k] == ']' || t[k] == '(' || t[k] == ')' || t[k] == '\n')
            ==> !link_text(t),
        (forall|i: int| 0 <= i < t.len() ==> white_space(#[trigger] t[i])) ==> !link_text(t),
        t.len() > 0 && !white_space(t[0]) && !white_space(t.last()) && t[0] != 'h' && t[0] != 'm' && (
        forall|i: int|
            0 <= i < t.len() ==> (#[trigger] t[i]) != '[' && t[i] != ']' && t[i] != '(' && t[i] != ')'
                && t[i] != '\n') ==> link_text(t),
        t.len() > 0 && (forall|i: int| 0 <= i < t.len() ==> !white_space(#[trigger] t[i])) && (
        "http://"@.is_prefix_of(t) || "https://"@.is_prefix_of(t) || "mailto:"@.is_prefix_of(t))
            ==> !link_text(t),
{
    if 0 <= k < t.len() && t[k] == '\n' {
        assert(t.contains('\n'));
    }
    if 0 <= k < t.len() && link_text(t) {
        assert(!bracket(t[k]));
    }
    if t.len() > 0 && !white_space(t[0]) && !white_space(t.last()) {
        law_a_bare_url_is_one_word(t, k);
        crate::markdown::blocks::lemma_nothing_trimmed(t);
    }
    if forall|i: int| 0 <= i < t.len() ==> white_space(#[trigger] t[i]) {
        lemma_white_is_trimmed(t);
    }
}

} // verus!
