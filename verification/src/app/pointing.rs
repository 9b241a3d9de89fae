//! What a press of the button does, and what is drawn under the pointer.

use vstd::prelude::*;
use vstd::utf8::*;

use crate::app::effects::{put_between, well_placed};
use crate::app::mouse::{
    box_hit, closes_at, drag_of, on_box, placed, press_ticks, pressed, ticked, ticked_edit,
    DragGranularity, Press,
};
use crate::app::find::find_closed;
use crate::app::{caret, State};
use crate::ascii::{CLOSE_BRACKET, LOWER_X, OPEN_BRACKET, SPACE, UPPER_X};
use crate::fences::{fence_flags, open_before};
use crate::lines::{lemma_line, lemma_line_of, line, line_end, line_of, line_start};
use crate::markdown::shapes::{blanks, item_mark, law_list_item, law_task, task_box, words};
use crate::markdown::line_spans;
use crate::note::lemma_floor_ceil;
use crate::text::boundary;

verus! {

broadcast use vstd::seq::group_seq_axioms;

/// The box of a task is its three characters, brackets included; the space behind them,
/// the bullet before them and the words are not.
pub proof fn law_a_box_is_its_brackets(x: Seq<u8>, m: Seq<u8>, tick: u8, t: Seq<u8>, at: int)
    requires
        blanks(x),
        item_mark(m),
        words(t),
        tick == SPACE || tick == LOWER_X || tick == UPPER_X,
    ensures
        ({
            let w = (x.len() + m.len() + 1) as int;
            box_hit(x + m + seq![SPACE] + (task_box(tick) + t), at) <==> w <= at <= w + 2
        }),
{
    let w = (x.len() + m.len() + 1) as int;
    let l = x + m + seq![SPACE] + (task_box(tick) + t);
    law_task(x, m, tick, t);
    let spans = line_spans(l, false);
    assert(l[w] == OPEN_BRACKET && l[w + 1] == tick && l[w + 2] == CLOSE_BRACKET);
    assert(closes_at(l, spans[1], w + 2));
    if w <= at <= w + 2 {
        assert(on_box(l, spans[1], at));
    }
    if box_hit(l, at) {
        let i = choose|i: int| 0 <= i < spans.len() && on_box(l, #[trigger] spans[i], at);
        assert(i == 1);
        let close = choose|close: int|
            #[trigger] closes_at(l, spans[i], close) && spans[i].start <= at <= close;
        if close > w + 2 {
            assert(l[w + 2] != CLOSE_BRACKET);
        }
    }
}

/// An item without a box has none to press.
pub proof fn law_an_item_without_a_box(x: Seq<u8>, m: Seq<u8>, t: Seq<u8>, at: int)
    requires
        blanks(x),
        item_mark(m),
        words(t),
    ensures
        !box_hit(x + m + seq![SPACE] + t, at),
{
    let l = x + m + seq![SPACE] + t;
    law_list_item(x, m, t);
    let spans = line_spans(l, false);
    if box_hit(l, at) {
        let i = choose|i: int| 0 <= i < spans.len() && on_box(l, #[trigger] spans[i], at);
        assert(i == 0 || i == 1);
    }
}

/// A press ticks where it is on a box outside every open fence, alone and without shift,
/// and where ticking changes the line.
pub proof fn law_what_a_press_ticks(s: State, p: Press, toggled: Seq<u8>)
    ensures
        ({
            let l = line_of(s.text, p.at as int);
            press_ticks(s, p, toggled) <==> p.clicks == 1 && !p.shift && !open_before(
                fence_flags(s.text),
                l,
            ) && box_hit(line(s.text, l), p.at - line_start(s.text, l)) && toggled != line(s.text, l)
        }),
{
}

/// Ticking writes the line anew and changes nothing else; the caret stays where the press
/// put it, as far as the line reaches.
pub proof fn law_ticking_writes_the_line_anew(s: State, offset: int, toggled: Seq<u8>, now: u64)
    requires
        0 <= offset <= s.text.len(),
    ensures
        ({
            let from = line_start(s.text, line_of(s.text, offset));
            let to = line_end(s.text, line_of(s.text, offset));
            let t = ticked(s, offset, toggled, now);
            let e = ticked_edit(s, offset, toggled);
            &&& t.text == put_between(s.text, from, to, toggled)
            &&& t.start == t.end && caret(t) == t.end
            &&& toggled.len() >= offset - from ==> t.end == offset
            &&& toggled.len() < offset - from ==> t.end == from + toggled.len()
            &&& t.marked is None
            &&& !t.grouped
            &&& t.saving.dirty_since == Some(now)
            &&& e.start == from && e.removed == s.text.subrange(from, to) && e.inserted == toggled
        }),
{
    lemma_line_of(s.text, offset);
    lemma_line(s.text, line_of(s.text, offset));
}

/// A press that ticks nothing puts the caret under the pointer; with shift the selection
/// reaches there from its other end; a multiple click selects the word or paragraph. The
/// text stays as it is.
pub proof fn law_a_press_places_the_caret(s: State, p: Press)
    requires
        well_placed(s),
        s.start <= s.end,
        boundary(s.text, p.at as int),
        p.unit matches Some((from, to)) ==> from <= to && boundary(s.text, from as int) && boundary(
            s.text,
            to as int,
        ),
    ensures
        ({
            let t = placed(s, p);
            &&& t.text == s.text
            &&& p.shift ==> caret(t) == p.at && (if s.reversed {
                t.end == s.end || t.start == s.end
            } else {
                t.start == s.start || t.end == s.start
            })
            &&& !p.shift && p.unit is None ==> t.start == p.at && t.end == p.at
            &&& !p.shift ==> (p.unit matches Some((from, to)) ==> t.start == from && t.end == to)
            &&& !t.grouped
        }),
{
    lemma_floor_ceil(s.text, p.at as int);
    if let Some((from, to)) = p.unit {
        lemma_floor_ceil(s.text, from as int);
        lemma_floor_ceil(s.text, to as int);
    }
}

/// A drag goes on by words after a double click, by paragraphs after a triple one, and
/// otherwise by characters.
pub proof fn law_a_drag_goes_on_by_what_was_clicked(p: Press)
    ensures
        drag_of(p) == DragGranularity::Char <==> p.shift || p.unit is None,
        !p.shift && p.unit is Some ==> (drag_of(p) == DragGranularity::Word <==> p.clicks == 2),
{
}

/// A press gives the note the keyboard and takes the menu at the pointer away; nothing
/// else changes.
pub proof fn law_a_press_gives_the_note_the_keyboard(s: State)
    requires
        s.find.focused ==> s.find.open,
    ensures
        ({
            let t = pressed(s);
            &&& !t.find.focused
            &&& t.find.open == s.find.open && t.find.last_query == s.find.last_query
            &&& !t.panels.context_menu
            &&& t == (State { find: t.find, panels: t.panels, ..s })
            &&& t.panels.settings_open == s.panels.settings_open
            &&& t.panels.backups_open == s.panels.backups_open
            &&& t.panels.palette == s.panels.palette
        }),
{
}

/// A press in the note takes the keyboard out of the find bar, which stays; leaving the bar
/// from then on leaves the selection where it is.
pub proof fn law_a_press_settles_the_search(s: State, query: Seq<char>)
    requires
        s.find.open,
        s.find.focused,
    ensures
        ({
            let t = pressed(s);
            let u = find_closed(t, query);
            &&& t.find.open && !t.find.focused
            &&& !t.panels.context_menu
            &&& t.text == s.text && t.start == s.start && t.end == s.end
            &&& u.start == t.start && u.end == t.end && u.reversed == t.reversed
        }),
{
}

} // verus!
