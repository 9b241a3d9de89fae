//! The command palette: every command the menus hold, filtered as you type.

use vstd::prelude::*;
use vstd::string::*;

use crate::text::{has_newline, without_last};

verus! {

broadcast use {vstd::seq::group_seq_axioms, vstd::string::group_string_axioms};

/// How many commands the palette shows at a time.
pub const VISIBLE: usize = 9;

/// The code of `c`, ASCII capitals made small.
pub open spec fn folded(c: char) -> u32 {
    if 65 <= c as u32 && c as u32 <= 90 {
        (c as u32 + 32) as u32
    } else {
        c as u32
    }
}

pub fn fold(c: char) -> (r: u32)
    ensures
        r == folded(c),
{
    let u: u32 = c as u32;
    if 65 <= u && u <= 90 {
        u + 32
    } else {
        u
    }
}

/// Whether the characters of `query` stand in `text` at the places `at`, in
/// order, whatever their case.
pub open spec fn stands_at(text: Seq<char>, query: Seq<char>, at: Seq<int>) -> bool {
    &&& at.len() == query.len()
    &&& forall|i: int, j: int| 0 <= i < j < at.len() ==> at[i] < at[j]
    &&& forall|i: int|
        0 <= i < at.len() ==> 0 <= #[trigger] at[i] < text.len() && folded(text[at[i]]) == folded(
            query[i],
        )
}

/// Whether every character of `query` appears in `text`, in order.
pub open spec fn loosely(text: Seq<char>, query: Seq<char>) -> bool {
    exists|at: Seq<int>| stands_at(text, query, at)
}

/// How many characters of `query` are found when each is looked for right after
/// the one before it.
spec fn found(text: Seq<char>, query: Seq<char>) -> int
    decreases text.len(),
{
    if text.len() == 0 {
        0
    } else {
        let so_far = found(text.drop_last(), query);
        if so_far < query.len() && folded(text.last()) == folded(query[so_far]) {
            so_far + 1
        } else {
            so_far
        }
    }
}

/// What is found in a row stands somewhere.
proof fn lemma_found_stands(text: Seq<char>, query: Seq<char>) -> (at: Seq<int>)
    ensures
        0 <= found(text, query) <= query.len(),
        stands_at(text, query.take(found(text, query)), at),
    decreases text.len(),
{
    if text.len() == 0 {
        assert(query.take(0) =~= Seq::empty());
        Seq::empty()
    } else {
        let so_far = found(text.drop_last(), query);
        let head = lemma_found_stands(text.drop_last(), query);
        assert forall|i: int| 0 <= i < head.len() implies 0 <= #[trigger] head[i] < text.len() - 1
            && text[head[i]] == text.drop_last()[head[i]] by {}
        if found(text, query) > so_far {
            head.push(text.len() - 1)
        } else {
            head
        }
    }
}

/// Nothing that stands in the text is passed over.
proof fn lemma_found_most(text: Seq<char>, query: Seq<char>, m: int, at: Seq<int>)
    requires
        0 <= m <= query.len(),
        stands_at(text, query.take(m), at),
    ensures
        m <= found(text, query),
    decreases text.len(),
{
    if m > 0 && text.len() > 0 {
        let last = text.len() - 1;
        assert(query.take(m)[m - 1] == query[m - 1]);
        if at[m - 1] == last {
            let shorter = at.drop_last();
            assert(query.take(m - 1) =~= query.take(m).drop_last());
            assert forall|i: int| 0 <= i < shorter.len() implies 0 <= #[trigger] shorter[i] < last
                && text.drop_last()[shorter[i]] == text[at[i]] by {
                assert(at[i] < at[m - 1]);
            }
            assert(stands_at(text.drop_last(), query.take(m - 1), shorter));
            lemma_found_most(text.drop_last(), query, m - 1, shorter);
        } else {
            assert forall|i: int| 0 <= i < at.len() implies 0 <= #[trigger] at[i] < last
                && text.drop_last()[at[i]] == text[at[i]] by {
                if i < m - 1 {
                    assert(at[i] < at[m - 1]);
                }
            }
            assert(stands_at(text.drop_last(), query.take(m), at));
            lemma_found_most(text.drop_last(), query, m, at);
        }
    } else if m > 0 {
        assert(0 <= at[0] < text.len());
    } else {
        let any = lemma_found_stands(text, query);
    }
}

/// Whether every character of `query` appears in `text`, in order, whatever
/// their case — the loose match a palette wants, so "nn" finds "New Note".
pub fn subsequence(text: &str, query: &str) -> (r: bool)
    ensures
        r == loosely(text@, query@),
{
    let mut wanted: Vec<u32> = Vec::new();
    for c in it: query.chars()
        invariant
            it.seq() == query@,
            wanted@.len() == it.index(),
            forall|i: int| 0 <= i < wanted@.len() ==> #[trigger] wanted@[i] == folded(query@[i]),
    {
        wanted.push(fold(c));
    }
    let mut hits: usize = 0;
    assert(text@.take(0) =~= Seq::empty());
    for c in it: text.chars()
        invariant
            it.seq() == text@,
            wanted@.len() == query@.len(),
            forall|i: int| 0 <= i < wanted@.len() ==> #[trigger] wanted@[i] == folded(query@[i]),
            hits <= wanted@.len(),
            hits == found(text@.take(it.index() as int), query@),
    {
        proof {
            let k = it.index() as int;
            assert(text@.take(k + 1).drop_last() =~= text@.take(k));
            assert(text@.take(k + 1).last() == text@[k]);
        }
        if hits < wanted.len() && fold(c) == wanted[hits] {
            hits += 1;
        }
    }
    proof {
        assert(text@.take(text@.len() as int) =~= text@);
        assert(query@.take(query@.len() as int) =~= query@);
        let at = lemma_found_stands(text@, query@);
        if hits == query@.len() {
            assert(stands_at(text@, query@, at));
        }
        if loosely(text@, query@) {
            let there = choose|there: Seq<int>| stands_at(text@, query@, there);
            lemma_found_most(text@, query@, query@.len() as int, there);
        }
    }
    hits == wanted.len()
}

/// What has been typed into the palette, and which of the matches it points at.
#[derive(Clone, Debug, PartialEq, Eq)]
pub struct Palette {
    pub query: String,
    pub selected: usize,
}

/// A [`Palette`] over characters.
pub struct PaletteState {
    pub query: Seq<char>,
    pub selected: int,
}

impl View for Palette {
    type V = PaletteState;

    open spec fn view(&self) -> PaletteState {
        PaletteState { query: self.query@, selected: self.selected as int }
    }
}

/// The places among the first `n` of `names` whose names match the query.
pub open spec fn matching(names: Seq<&str>, query: Seq<char>, n: int) -> Seq<int>
    decreases n,
{
    if n <= 0 {
        Seq::empty()
    } else if loosely(names[n - 1]@, query) {
        matching(names, query, n - 1).push(n - 1)
    } else {
        matching(names, query, n - 1)
    }
}

/// The match that a step leads to; it wraps, so holding ↓ walks the list round
/// rather than sticking.
pub open spec fn stepped(selected: int, forward: bool, count: int) -> int {
    if count <= 0 {
        0
    } else if forward {
        (selected + 1) % count
    } else {
        (selected - 1) % count
    }
}

/// The first match shown, of `count`, when `selected` is chosen.
pub open spec fn window_start(selected: int, count: int) -> int {
    let low = if selected >= VISIBLE {
        selected - (VISIBLE - 1)
    } else {
        0
    };
    let high = if count >= VISIBLE {
        count - VISIBLE
    } else {
        0
    };
    if low < high {
        low
    } else {
        high
    }
}

impl Palette {
    /// A palette nothing has been typed into yet.
    pub fn new() -> (r: Self)
        ensures
            r@ == (PaletteState { query: Seq::empty(), selected: 0 }),
    {
        let r = Palette { query: String::new(), selected: 0 };
        assert(r.query@ =~= Seq::empty());
        r
    }

    /// The commands whose names match the query, in order.
    pub fn palette_matches(&self, names: &Vec<&str>) -> (r: Vec<usize>)
        ensures
            crate::lines::ints(r@) == matching(names@, self.query@, names@.len() as int),
    {
        let mut r: Vec<usize> = Vec::new();
        let mut i: usize = 0;
        assert(crate::lines::ints(r@) =~= Seq::empty());
        while i < names.len()
            invariant
                i <= names@.len(),
                crate::lines::ints(r@) == matching(names@, self.query@, i as int),
            decreases names@.len() - i,
        {
            if subsequence(names[i], self.query.as_str()) {
                proof {
                    crate::lines::lemma_ints_push(r@, i);
                }
                r.push(i);
            }
            i += 1;
        }
        r
    }

    /// Move the choice among `count` matches one down, or one up.
    pub fn move_palette(&mut self, forward: bool, count: usize)
        ensures
            final(self)@ == (PaletteState {
                selected: stepped(old(self)@.selected, forward, count as int),
                ..old(self)@
            }),
    {
        if count == 0 {
            self.selected = 0;
            return;
        }
        let at: usize = self.selected % count;
        proof {
            let n = count as int;
            let s = self.selected as int;
            vstd::arithmetic::div_mod::lemma_fundamental_div_mod(s, n);
            if forward {
                vstd::arithmetic::div_mod::lemma_add_mod_noop(s, 1, n);
                vstd::arithmetic::div_mod::lemma_add_mod_noop(s % n, 1, n);
                vstd::arithmetic::div_mod::lemma_mod_twice(s, n);
                if at + 1 < n {
                    vstd::arithmetic::div_mod::lemma_small_mod((at + 1) as nat, n as nat);
                } else {
                    vstd::arithmetic::div_mod::lemma_mod_self_0(n);
                }
            } else {
                vstd::arithmetic::div_mod::lemma_sub_mod_noop(s, 1, n);
                vstd::arithmetic::div_mod::lemma_sub_mod_noop(s % n, 1, n);
                vstd::arithmetic::div_mod::lemma_mod_twice(s, n);
                if at > 0 {
                    vstd::arithmetic::div_mod::lemma_small_mod((at - 1) as nat, n as nat);
                } else {
                    vstd::arithmetic::div_mod::lemma_mod_add_multiples_vanish(-1, n);
                    vstd::arithmetic::div_mod::lemma_small_mod((n - 1) as nat, n as nat);
                }
            }
        }
        if forward {
            self.selected = if at + 1 < count {
                at + 1
            } else {
                0
            };
        } else {
            self.selected = if at > 0 {
                at - 1
            } else {
                count - 1
            };
        }
    }

    /// What is typed goes into the query, and the first match is chosen again; a
    /// line break does not.
    pub fn insert(&mut self, new_text: &str) -> (r: bool)
        ensures
            r == (new_text@.len() > 0 && !new_text@.contains('\n')),
            final(self)@ == (if r {
                PaletteState { query: old(self)@.query + new_text@, selected: 0 }
            } else {
                old(self)@
            }),
    {
        if new_text.is_empty() || has_newline(new_text) {
            return false;
        }
        self.query.append(new_text);
        self.selected = 0;
        true
    }

    /// Take the last character typed back out.
    pub fn backspace(&mut self)
        ensures
            final(self)@ == (PaletteState {
                query: if old(self)@.query.len() > 0 {
                    old(self)@.query.drop_last()
                } else {
                    old(self)@.query
                },
                selected: 0,
            }),
    {
        let shorter = String::from_str(without_last(self.query.as_str()));
        self.query = shorter;
        self.selected = 0;
    }

    /// The first of `count` matches to show: a window of rows around the choice
    /// rather than all of them.
    pub fn first_visible(&self, count: usize) -> (r: usize)
        ensures
            r == window_start(self.selected as int, count as int),
    {
        let low: usize = if self.selected >= VISIBLE {
            self.selected - (VISIBLE - 1)
        } else {
            0
        };
        let high: usize = if count >= VISIBLE {
            count - VISIBLE
        } else {
            0
        };
        if low < high {
            low
        } else {
            high
        }
    }
}

/// The chosen match is always among the rows shown, and those are all matches.
pub proof fn law_choice_is_visible(selected: int, count: int)
    requires
        0 <= selected < count,
    ensures
        0 <= window_start(selected, count) <= selected < window_start(selected, count) + VISIBLE,
        count >= VISIBLE ==> window_start(selected, count) + VISIBLE <= count,
{
}

/// A step down and a step up lead back.
pub proof fn law_steps_cancel(selected: int, count: int)
    requires
        0 <= selected < count,
    ensures
        stepped(stepped(selected, true, count), false, count) == selected,
        stepped(stepped(selected, false, count), true, count) == selected,
{
    if selected + 1 < count {
        vstd::arithmetic::div_mod::lemma_small_mod((selected + 1) as nat, count as nat);
    } else {
        vstd::arithmetic::div_mod::lemma_mod_self_0(count);
        vstd::arithmetic::div_mod::lemma_mod_add_multiples_vanish(-1, count);
    }
    vstd::arithmetic::div_mod::lemma_small_mod(selected as nat, count as nat);
    if selected > 0 {
        vstd::arithmetic::div_mod::lemma_small_mod((selected - 1) as nat, count as nat);
    } else {
        vstd::arithmetic::div_mod::lemma_mod_add_multiples_vanish(-1, count);
        vstd::arithmetic::div_mod::lemma_small_mod((count - 1) as nat, count as nat);
        vstd::arithmetic::div_mod::lemma_mod_self_0(count);
    }
}

/// A letter is looked for whatever its case, and every other character as it is.
pub open spec fn same_letter(c: char, d: char) -> bool {
    ||| c == d
    ||| 'A' <= c <= 'Z' && d as int == c as int + 32
    ||| 'A' <= d <= 'Z' && c as int == d as int + 32
}

/// Folding tells two characters apart unless they are the two cases of one ASCII letter.
pub proof fn law_folding_takes_case_away(c: char, d: char)
    ensures
        folded(c) == folded(d) <==> same_letter(c, d),
{
}

/// Nothing but an empty query is found in an empty text, and an empty query in any; and
/// the last character of a text is either the last of the query, whatever its case, or
/// not needed.
pub proof fn law_a_query_is_found_letter_by_letter(
    text: Seq<char>,
    query: Seq<char>,
    c: char,
    d: char,
)
    ensures
        loosely(Seq::empty(), query) <==> query.len() == 0,
        loosely(text, Seq::empty()),
        same_letter(c, d) ==> (loosely(text.push(c), query.push(d)) <==> loosely(text, query)),
        !same_letter(c, d) ==> (loosely(text.push(c), query.push(d)) <==> loosely(
            text,
            query.push(d),
        )),
{
    let none = Seq::<int>::empty();
    assert(stands_at(text, Seq::empty(), none));
    if query.len() == 0 {
        assert(stands_at(Seq::empty(), query, none));
    }
    if loosely(Seq::empty(), query) {
        let at = choose|at: Seq<int>| stands_at(Seq::empty(), query, at);
        if query.len() > 0 {
            assert(0 <= at[0] < Seq::<char>::empty().len());
        }
    }
    let t = text.push(c);
    let q = query.push(d);
    law_folding_takes_case_away(c, d);
    if loosely(t, q) {
        let at = choose|at: Seq<int>| stands_at(t, q, at);
        let front = at.drop_last();
        let last = at[at.len() - 1];
        assert forall|i: int| 0 <= i < front.len() implies 0 <= #[trigger] front[i] < text.len()
            && folded(text[front[i]]) == folded(query[i]) by {
            assert(front[i] == at[i]);
            assert(at[i] < last);
            assert(folded(t[at[i]]) == folded(q[i]));
        }
        assert(stands_at(text, query, front));
        if !same_letter(c, d) {
            assert(folded(t[last]) == folded(q[q.len() - 1]));
            assert(last < text.len());
            assert forall|i: int| 0 <= i < at.len() implies 0 <= #[trigger] at[i] < text.len()
                && folded(text[at[i]]) == folded(q[i]) by {
                if i < at.len() - 1 {
                    assert(at[i] < last);
                }
                assert(folded(t[at[i]]) == folded(q[i]));
            }
            assert(stands_at(text, q, at));
        }
    }
    if same_letter(c, d) && loosely(text, query) {
        let at = choose|at: Seq<int>| stands_at(text, query, at);
        let more = at.push(text.len() as int);
        assert(stands_at(t, q, more));
    }
    if loosely(text, q) {
        let at = choose|at: Seq<int>| stands_at(text, q, at);
        assert(stands_at(t, q, at));
    }
}

/// The commands shown are those whose names hold the query, in the order they have.
pub proof fn law_the_palette_shows_what_matches(names: Seq<&str>, query: Seq<char>, n: int)
    requires
        0 <= n <= names.len(),
    ensures
        ({
            let m = matching(names, query, n);
            &&& forall|k: int|
                0 <= k < m.len() ==> 0 <= #[trigger] m[k] < n && loosely(names[m[k]]@, query)
            &&& forall|j: int| 0 <= j < n && loosely(#[trigger] names[j]@, query) ==> m.contains(j)
            &&& forall|i: int, j: int| 0 <= i < j < m.len() ==> m[i] < m[j]
        }),
    decreases n,
{
    if n > 0 {
        law_the_palette_shows_what_matches(names, query, n - 1);
        let below = matching(names, query, n - 1);
        let m = matching(names, query, n);
        assert forall|j: int| 0 <= j < n && loosely(#[trigger] names[j]@, query) implies m.contains(
            j,
        ) by {
            if j < n - 1 {
                assert(below.contains(j));
                let k = choose|k: int| 0 <= k < below.len() && below[k] == j;
                assert(m[k] == j);
            } else {
                assert(m[m.len() - 1] == j);
            }
        }
    }
}

/// A step goes to the next match, or the one before, and round at either end.
pub proof fn law_steps_go_round(selected: int, count: int)
    requires
        0 <= selected < count,
    ensures
        stepped(selected, true, count) == if selected == count - 1 {
            0
        } else {
            selected + 1
        },
        stepped(selected, false, count) == if selected == 0 {
            count - 1
        } else {
            selected - 1
        },
{
    if selected + 1 < count {
        vstd::arithmetic::div_mod::lemma_small_mod((selected + 1) as nat, count as nat);
    } else {
        vstd::arithmetic::div_mod::lemma_mod_self_0(count);
    }
    if selected > 0 {
        vstd::arithmetic::div_mod::lemma_small_mod((selected - 1) as nat, count as nat);
    } else {
        vstd::arithmetic::div_mod::lemma_mod_add_multiples_vanish(-1, count);
        vstd::arithmetic::div_mod::lemma_small_mod((count - 1) as nat, count as nat);
    }
}

/// Nine rows are shown: the first nine until the choice is further down, and then the
/// choice is the last of them.
pub proof fn law_the_window_follows_the_choice(selected: int, count: int)
    requires
        0 <= selected < count,
    ensures
        window_start(selected, count) == if selected < 9 {
            0
        } else {
            selected - 8
        },
{
}

} // verus!
