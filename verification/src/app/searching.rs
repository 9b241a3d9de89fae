//! What searching and replacing do, said of the bytes and of the bar.

use vstd::prelude::*;
use vstd::utf8::*;

use crate::app::effects::{editing, put_between};
use crate::app::find::{
    all_replaced, escaped, find_closed, find_opened, first_at, in_order, lemma_all_replaced,
    match_replaced, matches_replaced, matches_replaced_edit, opening_query, searched_now, ticks,
};
use crate::app::input::{search_scheduled, typing};
use crate::app::notes::history_taken;
use crate::app::{caret, FindState, PanelState, State};
use crate::note::lemma_floor_ceil;
use crate::text::{boundary, replaced, trimmed, white_space};

verus! {

broadcast use vstd::seq::group_seq_axioms;

/// How much longer the text is before match `i` once matches `k..i` are each `w` long.
pub open spec fn grown(ms: Seq<(usize, usize)>, k: int, i: int, w: int) -> int
    decreases i - k,
{
    if i <= k {
        0
    } else {
        grown(ms, k, i - 1, w) + w - (ms[i - 1].1 - ms[i - 1].0)
    }
}

proof fn lemma_grown_front(ms: Seq<(usize, usize)>, k: int, i: int, w: int)
    requires
        0 <= k < i <= ms.len(),
    ensures
        grown(ms, k, i, w) == w - (ms[k].1 - ms[k].0) + grown(ms, k + 1, i, w),
    decreases i - k,
{
    if i > k + 1 {
        lemma_grown_front(ms, k, i - 1, w);
    } else {
        assert(grown(ms, k, k, w) == 0);
        assert(grown(ms, k + 1, k + 1, w) == 0);
    }
}

/// What follows a match stays behind it.
proof fn lemma_grown_behind(ms: Seq<(usize, usize)>, b: Seq<u8>, k: int, i: int, w: int)
    requires
        0 <= k <= i <= ms.len(),
        0 <= w,
        in_order(b, ms),
    ensures
        i < ms.len() ==> ms[i].0 + grown(ms, k, i, w) >= ms[k].0,
        i > k ==> ms[i - 1].1 + grown(ms, k, i, w) >= ms[k].0 + w,
    decreases i - k,
{
    if i > k {
        lemma_grown_behind(ms, b, k, i - 1, w);
        assert(ms[i - 1].0 + grown(ms, k, i - 1, w) >= ms[k].0);
        if i < ms.len() {
            assert(ms[i - 1].1 <= ms[i].0);
        }
    }
}

/// The bytes of a text whose matches from the `k`th on were replaced.
proof fn lemma_replaced_bytes(b: Seq<u8>, ms: Seq<(usize, usize)>, k: int, with: Seq<u8>)
    requires
        in_order(b, ms),
        0 <= k <= ms.len(),
    ensures
        ({
            let t = all_replaced(b, ms, k, with);
            let w = with.len() as int;
            let n = ms.len() as int;
            &&& t.len() == b.len() + grown(ms, k, n, w)
            &&& forall|i: int, q: int|
                k <= i < n && 0 <= q < w ==> t[ms[i].0 + #[trigger] grown(ms, k, i, w) + q]
                    == #[trigger] with[q]
            &&& forall|i: int, p: int|
                k <= i <= n && (if i == k {
                    0
                } else {
                    ms[i - 1].1 as int
                }) <= p < (if i == n {
                    b.len() as int
                } else {
                    ms[i].0 as int
                }) ==> t[p + #[trigger] grown(ms, k, i, w)] == #[trigger] b[p]
        }),
    decreases ms.len() - k,
{
    let w = with.len() as int;
    let n = ms.len() as int;
    let t = all_replaced(b, ms, k, with);
    if k < n {
        lemma_replaced_bytes(b, ms, k + 1, with);
        let u = all_replaced(b, ms, k + 1, with);
        let from = ms[k].0 as int;
        let to = ms[k].1 as int;
        lemma_grown_front(ms, k, n, w);
        assert(grown(ms, k + 1, k + 1, w) == 0);
        assert(from <= to <= b.len());
        assert(to <= u.len()) by {
            if k + 1 < n {
                lemma_grown_behind(ms, b, k + 1, n, w);
                assert(ms[k].1 <= ms[k + 1].0);
                assert(ms[n - 1].1 <= b.len());
            }
        }
        assert(t == replaced(u, from, to, with));
        assert forall|i: int, q: int| k <= i < n && 0 <= q < w implies t[ms[i].0
            + #[trigger] grown(ms, k, i, w) + q] == #[trigger] with[q] by {
            if i > k {
                lemma_grown_front(ms, k, i, w);
                lemma_grown_behind(ms, b, k + 1, i, w);
                assert(ms[k].1 <= ms[k + 1].0);
                let old = ms[i].0 + grown(ms, k + 1, i, w) + q;
                assert(u[old] == with[q]);
                assert(old >= to);
                lemma_within(b, ms, k + 1, i, w, u.len() as int);
                assert(t[old + w - (to - from)] == u[old]);
            }
        }
        assert forall|i: int, p: int|
            k <= i <= n && (if i == k {
                0
            } else {
                ms[i - 1].1 as int
            }) <= p < (if i == n {
                b.len() as int
            } else {
                ms[i].0 as int
            }) implies t[p + #[trigger] grown(ms, k, i, w)] == #[trigger] b[p] by {
            if i == k {
                if k + 1 < n {
                    assert(ms[k].1 <= ms[k + 1].0);
                }
                assert(u[p + grown(ms, k + 1, k + 1, w)] == b[p]);
                assert(t[p] == u[p]);
            } else {
                lemma_grown_front(ms, k, i, w);
                let old = p + grown(ms, k + 1, i, w);
                if i == k + 1 {
                    assert(p >= to);
                } else {
                    lemma_grown_behind(ms, b, k + 1, i, w);
                    assert(ms[k].1 <= ms[k + 1].0);
                }
                assert(u[p + grown(ms, k + 1, i, w)] == b[p]);
                lemma_within_gap(b, ms, k + 1, i, p, w, u.len() as int);
                assert(t[old + w - (to - from)] == u[old]);
            }
        }
    }
}

/// A replacement lies in the text.
proof fn lemma_within(b: Seq<u8>, ms: Seq<(usize, usize)>, k: int, i: int, w: int, len: int)
    requires
        in_order(b, ms),
        0 <= k <= i < ms.len(),
        0 <= w,
        len == b.len() + grown(ms, k, ms.len() as int, w),
    ensures
        ms[i].0 + grown(ms, k, i, w) + w <= len,
{
    lemma_grown_tail(b, ms, k, i + 1, w);
}

proof fn lemma_within_gap(b: Seq<u8>, ms: Seq<(usize, usize)>, k: int, i: int, p: int, w: int, len: int)
    requires
        in_order(b, ms),
        0 <= k <= i <= ms.len(),
        0 <= w,
        len == b.len() + grown(ms, k, ms.len() as int, w),
        p < (if i == ms.len() {
            b.len() as int
        } else {
            ms[i].0 as int
        }),
    ensures
        p + grown(ms, k, i, w) < len,
{
    if i < ms.len() {
        lemma_grown_tail(b, ms, k, i + 1, w);
    }
}

/// What stands behind the first `i` matches reaches no further than the text does.
proof fn lemma_grown_tail(b: Seq<u8>, ms: Seq<(usize, usize)>, k: int, i: int, w: int)
    requires
        in_order(b, ms),
        0 <= k < i <= ms.len(),
        0 <= w,
    ensures
        ms[i - 1].1 + grown(ms, k, i, w) <= b.len() + grown(ms, k, ms.len() as int, w),
    decreases ms.len() - i,
{
    if i < ms.len() {
        lemma_grown_tail(b, ms, k, i + 1, w);
        assert(ms[i - 1].1 <= ms[i].0);
    } else {
        assert(ms[i - 1].1 <= b.len());
    }
}

/// Replacing every match puts the replacement in place of each, and keeps every byte
/// that is in none of them, in its order: match `i` starts where it did, moved by as
/// much as the matches before it grew.
pub proof fn law_replacing_all_replaces_each(b: Seq<u8>, ms: Seq<(usize, usize)>, with: Seq<u8>)
    requires
        in_order(b, ms),
    ensures
        ({
            let t = all_replaced(b, ms, 0, with);
            let w = with.len() as int;
            let n = ms.len() as int;
            &&& t.len() == b.len() + grown(ms, 0, n, w)
            &&& forall|i: int, q: int|
                0 <= i < n && 0 <= q < w ==> t[ms[i].0 + #[trigger] grown(ms, 0, i, w) + q]
                    == #[trigger] with[q]
            &&& forall|i: int, p: int|
                0 <= i <= n && (if i == 0 {
                    0
                } else {
                    ms[i - 1].1 as int
                }) <= p < (if i == n {
                    b.len() as int
                } else {
                    ms[i].0 as int
                }) ==> t[p + #[trigger] grown(ms, 0, i, w)] == #[trigger] b[p]
        }),
{
    lemma_replaced_bytes(b, ms, 0, with);
}

/// Replacing all leaves nothing selected and the caret where the selection began, as near
/// as the text allows; a search of the old text is not owed any more, and a save is.
pub proof fn law_replacing_all_keeps_the_caret(
    s: State,
    ms: Seq<(usize, usize)>,
    with: Seq<u8>,
    now: u64,
)
    requires
        valid_utf8(s.text),
        valid_utf8(with),
        in_order(s.text, ms),
        boundary(s.text, s.start),
        ms.len() > 0,
    ensures
        ({
            let t = matches_replaced(s, ms, with, now);
            &&& t.text == all_replaced(s.text, ms, 0, with)
            &&& t.start == t.end && t.start <= s.start && caret(t) == t.start
            &&& s.start <= ms[0].0 ==> t.start == s.start
            &&& boundary(t.text, s.start) ==> t.start == s.start
            &&& t.marked is None
            &&& t.find.dirty_since is None
            &&& t.saving.dirty_since == Some(now)
            &&& t.saving.notice matches Some(n) && !n.alert && n.since == now
            &&& t.panels == s.panels && t.killed == s.killed
        }),
{
    lemma_all_replaced(s.text, ms, 0, with);
    lemma_floor_ceil(all_replaced(s.text, ms, 0, with), s.start);
}

/// Replacing one match puts the replacement in its place and the caret behind it.
pub proof fn law_replacing_a_match(s: State, from: int, to: int, with: Seq<u8>, now: u64)
    requires
        0 <= from <= to <= s.text.len(),
    ensures
        ({
            let t = match_replaced(s, from, to, with, now);
            &&& t.text == put_between(s.text, from, to, with)
            &&& t.start == from + with.len() && t.end == t.start && caret(t) == t.start
            &&& !t.grouped
            &&& t.find.dirty_since is None
            &&& t.marked is None
            &&& t.saving.dirty_since == Some(now)
        }),
{
}

/// Opening the find bar gives it the keyboard and remembers the selection it was opened
/// on; the text and the selection stay as they are.
pub proof fn law_the_find_bar_opens(s: State)
    ensures
        ({
            let t = find_opened(s);
            &&& t.find.open && t.find.focused
            &&& t == (State { find: t.find, ..s })
            &&& !s.find.open ==> t.find.find_return == Some(
                (s.start as usize, s.end as usize, s.reversed),
            )
            &&& s.find.open ==> t.find.find_return == s.find.find_return
            &&& t.find.last_query == s.find.last_query
            &&& t.find.note_only == s.find.note_only
            &&& !t.find.search_pending && t.find.dirty_since is None
            &&& t.find.search_gen != s.find.search_gen
        }),
{
}

/// A bar that is open keeps its query. One that opens on a selected word searches for
/// that; on nothing selected, or on several lines, for what was searched for last.
pub proof fn law_what_is_searched_for(s: State, query: Seq<char>, k: int)
    ensures
        ({
            let over = decode_utf8(s.text.subrange(s.start, s.end));
            &&& s.find.open ==> opening_query(s, query) == query
            &&& !s.find.open && s.start >= s.end ==> opening_query(s, query) == s.find.last_query
            &&& !s.find.open && over.contains('\n') ==> opening_query(s, query) == s.find.last_query
            &&& !s.find.open && s.start < s.end && !over.contains('\n') && 0 <= k < over.len()
                && !white_space(over[k]) ==> opening_query(s, query) == over
        }),
{
    let over = decode_utf8(s.text.subrange(s.start, s.end));
    if 0 <= k < over.len() && !white_space(over[k]) {
        let (f, g) = crate::markdown::blocks::lemma_trimmed_keeps(
            over.take(k),
            over[k],
            over.skip(k + 1),
        );
        assert(over =~= over.take(k) + seq![over[k]] + over.skip(k + 1));
        assert(trimmed(over).len() > 0);
    }
}

/// Typing in the bar sets a search for later; a search that runs sets aside every one
/// that was set before it.
pub proof fn law_only_the_last_search_runs(f: FindState)
    ensures
        ({
            let g = search_scheduled(f);
            &&& g.search_pending
            &&& g.search_gen != f.search_gen
            &&& g == (FindState { search_pending: true, search_gen: g.search_gen, ..f })
        }),
        ({
            let g = searched_now(f);
            &&& !g.search_pending && g.dirty_since is None
            &&& g.search_gen != f.search_gen
            &&& g == (FindState {
                search_pending: false,
                dirty_since: None,
                search_gen: g.search_gen,
                ..f
            })
        }),
{
}

/// Closing the bar puts the selection back that it was opened on; without one the
/// selection stays. The text stays either way.
pub proof fn law_the_find_bar_closes(s: State, query: Seq<char>)
    requires
        valid_utf8(s.text),
        s.find.find_return matches Some((from, to, _)) ==> from <= to && boundary(s.text, from as int)
            && boundary(s.text, to as int),
    ensures
        ({
            let t = find_closed(s, query);
            &&& !t.find.open && !t.find.focused
            &&& t == (State { find: t.find, start: t.start, end: t.end, reversed: t.reversed, ..s })
            &&& s.find.find_return matches Some((from, to, reversed)) ==> t.start == from && t.end == to
                && t.reversed == reversed
            &&& s.find.find_return is None ==> t.start == s.start && t.end == s.end && t.reversed
                == s.reversed
        }),
{
    if let Some((from, to, _)) = s.find.find_return {
        lemma_floor_ceil(s.text, from as int);
        lemma_floor_ceil(s.text, to as int);
    }
}

/// Escape puts away one thing, the most transient: the menu at the pointer, or else the
/// palette, or else the backups, or else the settings, or else the find bar.
pub proof fn law_escape_puts_away_one_thing(s: State, query: Seq<char>)
    ensures
        ({
            let t = escaped(s, query);
            let p = s.panels;
            &&& p.context_menu ==> t == (State {
                panels: PanelState { context_menu: false, ..p },
                ..s
            })
            &&& !p.context_menu && p.palette is Some ==> t == (State {
                panels: PanelState { palette: None, ..p },
                ..s
            })
            &&& !p.context_menu && p.palette is None && p.backups_open ==> t == (State {
                panels: PanelState { backups_open: false, ..p },
                ..s
            })
            &&& !p.context_menu && p.palette is None && !p.backups_open && p.settings_open ==> t == (
            State { panels: PanelState { settings_open: false, recording_shortcut: false, ..p }, ..s })
            &&& !p.context_menu && p.palette is None && !p.backups_open && !p.settings_open ==> t
                == find_closed(s, query)
            &&& t.text == s.text
        }),
{
}

// ---------------------------------------------------------------------------
// The rail
// ---------------------------------------------------------------------------
proof fn lemma_first(at: Seq<usize>, bucket: int, i: int)
    requires
        0 <= i <= at.len(),
    ensures
        match first_at(at, bucket, i) {
            Some(m) => i <= m < at.len() && at[m] == bucket && forall|k: int|
                i <= k < m ==> #[trigger] at[k] != bucket,
            None => forall|k: int| i <= k < at.len() ==> #[trigger] at[k] != bucket,
        },
    decreases at.len() - i,
{
    if i < at.len() && at[i] != bucket {
        lemma_first(at, bucket, i + 1);
    }
}

/// Every match has its mark on the rail and every mark is one's: it leads to the first
/// match there, and the current one is set apart. The marks go down the rail in order.
pub proof fn law_every_match_has_its_mark(at: Seq<usize>, current: Option<usize>, buckets: int)
    requires
        0 <= buckets <= usize::MAX,
        at.len() <= usize::MAX,
    ensures
        ({
            let r = ticks(at, current, buckets);
            &&& forall|j: int|
                0 <= j < r.len() ==> {
                    let t = #[trigger] r[j];
                    &&& t.bucket < buckets
                    &&& t.match_index < at.len()
                    &&& at[t.match_index as int] == t.bucket
                    &&& t.current == (current == Some(t.bucket))
                    &&& forall|k: int| 0 <= k < t.match_index ==> #[trigger] at[k] != t.bucket
                }
            &&& forall|i: int|
                0 <= i < at.len() && at[i] < buckets ==> exists|j: int|
                    0 <= j < r.len() && (#[trigger] r[j]).bucket == #[trigger] at[i]
            &&& forall|i: int, j: int| 0 <= i < j < r.len() ==> r[i].bucket < r[j].bucket
        }),
    decreases buckets,
{
    if buckets > 0 {
        law_every_match_has_its_mark(at, current, buckets - 1);
        lemma_first(at, buckets - 1, 0);
        let below = ticks(at, current, buckets - 1);
        let r = ticks(at, current, buckets);
        assert forall|j: int| 0 <= j < r.len() implies {
            let t = #[trigger] r[j];
            &&& t.bucket < buckets
            &&& t.match_index < at.len()
            &&& at[t.match_index as int] == t.bucket
            &&& t.current == (current == Some(t.bucket))
            &&& forall|k: int| 0 <= k < t.match_index ==> #[trigger] at[k] != t.bucket
        } by {
            if j < below.len() {
                assert(r[j] == below[j]);
            }
        }
        assert forall|i: int| 0 <= i < at.len() && at[i] < buckets implies exists|j: int|
            0 <= j < r.len() && (#[trigger] r[j]).bucket == #[trigger] at[i] by {
            if at[i] < buckets - 1 {
                let j = choose|j: int| 0 <= j < below.len() && (#[trigger] below[j]).bucket == at[i];
                assert(r[j] == below[j]);
            } else {
                assert(first_at(at, buckets - 1, 0) is Some);
                assert(r[below.len() as int].bucket == at[i]);
            }
        }
        assert forall|i: int, j: int| 0 <= i < j < r.len() implies r[i].bucket < r[j].bucket by {
            if j < below.len() {
                assert(r[i] == below[i] && r[j] == below[j]);
            } else {
                assert(r[i] == below[i]);
            }
        }
    }
}

/// With the find bar open, an edit owes its matches a new search from then on; with it
/// closed, none.
pub proof fn law_an_edit_owes_the_find_bar_a_search(
    s: State,
    range: Option<(usize, usize)>,
    text: Seq<char>,
    back: Seq<u8>,
    selection: (int, int),
    now: u64,
)
    requires
        editing(s),
    ensures
        ({
            let t = typing(s, range, text, now);
            let u = history_taken(s, back, true, selection, now);
            &&& s.find.open ==> t.find.dirty_since == Some(now) && u.find.dirty_since == Some(now)
            &&& !s.find.open ==> t.find == s.find && u.find == s.find
            &&& t.find.open == s.find.open && u.find.open == s.find.open
        }),
{
}

/// Replacing every match is one step for undo: the first of its edits starts it, the others
/// go with that one, all of them give back the selection there was, and redoing the last
/// leaves the caret where the command left it.
pub proof fn law_replacing_all_is_one_step(
    s: State,
    ms: Seq<(usize, usize)>,
    with: Seq<u8>,
    i: int,
    now: u64,
)
    requires
        0 <= i < ms.len(),
    ensures
        ({
            let t = matches_replaced(s, ms, with, now);
            let e = matches_replaced_edit(s, ms, with, i);
            let m = ms[ms.len() - 1 - i];
            &&& e.joins <==> i > 0
            &&& e.before == (s.start, s.end)
            &&& e.start == m.0 && e.removed == s.text.subrange(m.0 as int, m.1 as int) && e.inserted == with
            &&& i == ms.len() - 1 ==> e.after == (t.start, t.end)
            &&& i < ms.len() - 1 ==> e.after == (e.start + with.len(), e.start + with.len())
        }),
{
}

} // verus!
