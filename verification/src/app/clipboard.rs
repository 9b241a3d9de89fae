//! What goes out of the note and comes into it whole: cut, copy and paste, files
//! dropped on the window, and images put into the store.

use vstd::prelude::*;
use vstd::string::*;
use vstd::utf8::*;

use crate::app::input::{search_scheduled, typing, typing_edit};
use crate::app::lines::lemma_newline_valid;
use crate::app::lists::caret_line;
use crate::app::{caret, holder, kept, ungrouped, Edit, EditState, FindState, Holder, NoteApp, PanelState, State};
use crate::ascii::{NEWLINE, RETURN, SPACE};
use crate::decimal::{decimal, to_decimal};
use crate::lines::{
    lemma_line, lemma_line_boundaries, lemma_line_of, line_count, line_end, line_start,
};
use crate::note::{divides, lemma_floor_ceil};
use crate::note::store::decode;
use crate::session::{alerting, Notice, SavingState};
use crate::text::{
    boundary, bytes, lemma_ascii_boundary, lemma_bytes_concat, lemma_string_ends, slice, trim,
    trimmed,
};
use crate::web::{bare_url, is_bare_url, is_link_text, link_text};

verus! {

broadcast use {vstd::seq::group_seq_axioms, vstd::string::group_string_axioms};

/// The largest dropped file whose contents go into the note.
pub const MAX_INLINE: u64 = 2097152;

/// `b` from byte `i` on, with every way to end a line made a line feed: CR LF, and
/// a CR on its own.
pub open spec fn unified(b: Seq<u8>, i: int) -> Seq<u8>
    decreases b.len() - i,
{
    if i < 0 || i >= b.len() {
        Seq::empty()
    } else if b[i] == RETURN {
        seq![NEWLINE] + unified(
            b,
            if i + 1 < b.len() && b[i + 1] == NEWLINE {
                i + 2
            } else {
                i + 1
            },
        )
    } else {
        seq![b[i]] + unified(b, i + 1)
    }
}

/// A run without a CR is kept as it is.
pub proof fn lemma_unified_run(b: Seq<u8>, i: int, j: int)
    requires
        0 <= i <= j <= b.len(),
        forall|k: int| i <= k < j ==> b[k] != RETURN,
    ensures
        unified(b, i) == b.subrange(i, j) + unified(b, j),
    decreases j - i,
{
    if i < j {
        lemma_unified_run(b, i + 1, j);
        assert(seq![b[i]] + (b.subrange(i + 1, j) + unified(b, j)) =~= b.subrange(i, j) + unified(
            b,
            j,
        ));
    } else {
        assert(b.subrange(i, j) + unified(b, j) =~= unified(b, j));
    }
}

/// `text` with every way to end a line made a line feed. A CR LF would leave a
/// stray CR at the end of every line, saved and carried forever; a lone CR is no
/// line break to a note at all.
pub fn unify_newlines(text: &str) -> (r: String)
    ensures
        bytes(r@) == unified(text.spec_bytes(), 0),
{
    let b = text.as_bytes();
    let n: usize = b.len();
    let mut r = String::new();
    let mut i: usize = 0;
    proof {
        lemma_string_ends(text@);
        lemma_newline_valid();
        assert(r@ =~= Seq::empty());
        assert(bytes(r@) =~= Seq::empty());
        assert(bytes(r@) + unified(b@, 0) =~= unified(b@, 0));
    }
    while i < n
        invariant
            b@ == text.spec_bytes(),
            n == b@.len(),
            i <= n,
            valid_utf8(b@),
            boundary(b@, i as int),
            bytes("\n"@) == seq![NEWLINE],
            bytes(r@) + unified(b@, i as int) == unified(b@, 0),
        decreases n - i,
    {
        let mut j: usize = i;
        while j < n && b[j] != RETURN
            invariant
                n == b@.len(),
                i <= j <= n,
                forall|k: int| i <= k < j ==> b@[k] != RETURN,
            decreases n - j,
        {
            j += 1;
        }
        proof {
            if j < n {
                lemma_ascii_boundary(b@, j as int);
            }
            assert(boundary(b@, j as int));
            lemma_unified_run(b@, i as int, j as int);
        }
        let piece = slice(text, i, j);
        let ghost before = r@;
        r.append(piece);
        proof {
            lemma_bytes_concat(before, piece@);
            assert(bytes(before) + (piece.spec_bytes() + unified(b@, j as int)) =~= bytes(r@)
                + unified(b@, j as int));
        }
        i = j;
        if j < n {
            let ghost so_far = r@;
            r.append("\n");
            i = if j + 1 < n && b[j + 1] == NEWLINE {
                j + 2
            } else {
                j + 1
            };
            proof {
                lemma_bytes_concat(so_far, "\n"@);
                assert(bytes(so_far) + (seq![NEWLINE] + unified(b@, i as int)) =~= bytes(r@)
                    + unified(b@, i as int));
                if i == j + 2 {
                    lemma_ascii_boundary(b@, j + 1);
                }
            }
        }
    }
    assert(bytes(r@) + unified(b@, n as int) =~= bytes(r@));
    r
}

/// The first line of `b`, without the CR LF or LF that ends it.
pub open spec fn head_line(b: Seq<u8>) -> Seq<u8> {
    let end = line_end(b, 0);
    if end < b.len() && end > 0 && b[end - 1] == RETURN {
        b.subrange(0, end - 1)
    } else {
        b.subrange(0, end)
    }
}

/// What is selected.
pub open spec fn selected(s: State) -> Seq<u8> {
    s.text.subrange(s.start, s.end)
}

/// What a paste of `text` puts into the note: the text, its lines ended in one
/// way; or, if it is a URL and words are selected, those words as a link to it.
pub open spec fn pasting(s: State, text: Seq<char>) -> Seq<char> {
    let t = decode_utf8(unified(bytes(text), 0));
    let over = decode_utf8(selected(s));
    if s.start < s.end && bare_url(t) && link_text(over) {
        "["@ + over + "]("@ + trimmed(t) + ")"@
    } else {
        t
    }
}

/// `s` after `text` was pasted. Into the find bar goes its first line; a paste is
/// an undo step of its own.
pub open spec fn pasted(s: State, text: Seq<char>, now: u64) -> State {
    match holder(s) {
        Holder::Panel => s,
        Holder::Query => if head_line(bytes(text)).len() > 0 {
            State { find: search_scheduled(s.find), ..ungrouped(s) }
        } else {
            ungrouped(s)
        },
        Holder::Note => ungrouped(typing(ungrouped(s), None, pasting(s, text), now)),
    }
}

/// What undo keeps of that.
pub open spec fn pasted_edit(s: State, text: Seq<char>) -> Option<EditState> {
    typing_edit(ungrouped(s), None, pasting(s, text))
}

/// The caret's whole line with its line break; `None` on a rule, which would
/// merge two notes if it went, with nothing on screen to show why.
pub open spec fn whole_line(s: State) -> Option<(usize, usize)> {
    let l = caret_line(s);
    if divides(s.text, l) {
        None
    } else {
        Some((line_start(s.text, l) as usize, line_start(s.text, l + 1) as usize))
    }
}

/// What ⌘C and ⌘X take: the selection, or the caret's whole line.
pub open spec fn clip_range(s: State) -> Option<(usize, usize)> {
    if s.start < s.end {
        Some((s.start as usize, s.end as usize))
    } else {
        match whole_line(s) {
            Some((from, to)) if from < to => Some((from, to)),
            _ => None,
        }
    }
}

/// Where ⌘X writes: over the selection, or over the caret's line.
pub open spec fn cut_place(s: State) -> Option<(usize, usize)> {
    if s.start < s.end {
        None
    } else {
        clip_range(s)
    }
}

/// `s` after ⌘X.
pub open spec fn cutting(s: State, now: u64) -> State {
    if holder(s) == Holder::Note && clip_range(s) is Some {
        typing(s, cut_place(s), Seq::empty(), now)
    } else {
        s
    }
}

/// What undo keeps of that.
pub open spec fn cutting_edit(s: State) -> Option<EditState> {
    if holder(s) == Holder::Note && clip_range(s) is Some {
        typing_edit(s, cut_place(s), Seq::empty())
    } else {
        None
    }
}

/// The find bar with the keyboard handed back to the note. It stays on screen.
pub open spec fn blurred(f: FindState) -> FindState {
    if f.open {
        FindState { focused: false, find_return: None, ..f }
    } else {
        f
    }
}

/// The pieces, a line break after each.
pub open spec fn stacked(pieces: Seq<String>) -> Seq<char>
    decreases pieces.len(),
{
    if pieces.len() == 0 {
        Seq::empty()
    } else {
        stacked(pieces.drop_last()) + pieces.last()@ + "\n"@
    }
}

/// `s` after files came to `pieces` were dropped on the window.
pub open spec fn dropped(s: State, pieces: Seq<String>, now: u64) -> State {
    let t = State {
        find: if s.find.focused {
            blurred(s.find)
        } else {
            s.find
        },
        ..s
    };
    if holder(s) == Holder::Panel {
        s
    } else if pieces.len() == 0 {
        t
    } else {
        ungrouped(typing(ungrouped(t), None, stacked(pieces), now))
    }
}

/// What undo keeps of that.
pub open spec fn dropped_edit(s: State, pieces: Seq<String>) -> Option<EditState> {
    let t = State {
        find: if s.find.focused {
            blurred(s.find)
        } else {
            s.find
        },
        ..s
    };
    if holder(s) == Holder::Panel || pieces.len() == 0 {
        None
    } else {
        typing_edit(ungrouped(t), None, stacked(pieces))
    }
}

/// The references among the results of an import.
pub open spec fn imported(results: Seq<Option<String>>) -> Seq<String>
    decreases results.len(),
{
    if results.len() == 0 {
        Seq::empty()
    } else {
        match results.last() {
            Some(reference) => imported(results.drop_last()).push(reference),
            None => imported(results.drop_last()),
        }
    }
}

/// What is said of `failed` files that are no image.
pub open spec fn import_failure(failed: nat) -> Seq<char> {
    decode_utf8(decimal(failed)) + if failed == 1 {
        " file could not be read as an image"@
    } else {
        " files could not be read as an image"@
    }
}

/// `s` with what is said about an import.
pub open spec fn import_noticed(s: State, results: Seq<Option<String>>, now: u64) -> State {
    let failed = (results.len() - imported(results).len()) as nat;
    if failed > 0 {
        State {
            saving: SavingState { notice: alerting(import_failure(failed), now), ..s.saving },
            ..s
        }
    } else {
        s
    }
}

/// `s` with the keyboard back in the note: the import ran in the background, and
/// the keyboard may have moved somewhere modal since.
pub open spec fn import_ready(s: State) -> State {
    State {
        panels: PanelState { settings_open: false, backups_open: false, ..s.panels },
        find: if s.find.focused {
            blurred(s.find)
        } else {
            s.find
        },
        ..s
    }
}

/// Whether the place an insertion lands is in the middle of a line: a reference
/// has to have its line to itself, or it is prose that mentions an image.
pub open spec fn lands_mid_line(s: State) -> bool {
    let from = match s.marked {
        Some((from, _)) => from as int,
        None => s.start,
    };
    let at = if from < s.text.len() {
        from
    } else {
        s.text.len() as int
    };
    at > 0 && s.text[at - 1] != NEWLINE
}

/// What an import writes into the note.
pub open spec fn importing(s: State, results: Seq<Option<String>>) -> Seq<char> {
    if lands_mid_line(s) {
        "\n"@ + stacked(imported(results))
    } else {
        stacked(imported(results))
    }
}

impl NoteApp {
    /// What is selected, if anything is.
    pub fn selected_text_safe(&self) -> (r: Option<String>)
        requires
            self.wf(),
        ensures
            r is Some <==> self@.start < self@.end,
            r matches Some(text) ==> bytes(text@) == selected(self@),
    {
        if self.start < self.end {
            Some(String::from_str(slice(self.note.text(), self.start, self.end)))
        } else {
            None
        }
    }

    /// The caret's whole line with its line break, unless it is a rule.
    pub fn current_line_range(&self) -> (r: Option<(usize, usize)>)
        requires
            self.wf(),
        ensures
            r == whole_line(self@),
            r matches Some((from, to)) ==> from <= to && boundary(self@.text, from as int) && boundary(
                self@.text,
                to as int,
            ),
    {
        let (l, from, _to) = self.caret_line();
        proof {
            self.lemma_wf();
            lemma_line_of(self@.text, caret(self@));
            lemma_line(self@.text, l as int);
            lemma_line_boundaries(self@.text, l + 1);
        }
        if self.is_rule_line(l) {
            return None;
        }
        let count: usize = self.index.line_count();
        let to: usize = if l + 1 < count {
            self.index.line_start(l + 1)
        } else {
            self.index.len()
        };
        Some((from, to))
    }

    /// What ⌘C and ⌘X take.
    fn clip(&self) -> (r: Option<(usize, usize)>)
        requires
            self.wf(),
        ensures
            r == clip_range(self@),
            r matches Some((from, to)) ==> from <= to && boundary(self@.text, from as int) && boundary(
                self@.text,
                to as int,
            ),
    {
        if self.start < self.end {
            return Some((self.start, self.end));
        }
        match self.current_line_range() {
            Some((from, to)) => if from < to {
                Some((from, to))
            } else {
                None
            },
            None => None,
        }
    }

    /// ⌘C: the selection, or the caret's whole line. While the find bar has the
    /// keyboard it is the query that is copied, and while a panel is up nothing.
    pub fn copy(&self) -> (r: Option<String>)
        requires
            self.wf(),
        ensures
            r is Some <==> holder(self@) == Holder::Note && clip_range(self@) is Some,
            r matches Some(text) ==> bytes(text@) == self@.text.subrange(
                (clip_range(self@)->0).0 as int,
                (clip_range(self@)->0).1 as int,
            ),
            holder(self@) == Holder::Note && self@.start < self@.end ==> (r matches Some(text)
                && bytes(text@) == self@.text.subrange(self@.start, self@.end)),
    {
        proof {
            self.lemma_wf();
        }
        match self.keyboard() {
            Holder::Note => match self.clip() {
                Some((from, to)) => Some(String::from_str(slice(self.note.text(), from, to))),
                None => None,
            },
            _ => None,
        }
    }

    /// ⌘X: the same, and it goes.
    pub fn cut(&mut self, now: u64) -> (r: Option<(String, Edit)>)
        requires
            old(self).wf(),
        ensures
            final(self).wf(),
            ({
                let s = old(self)@;
                match clip_range(s) {
                    Some(range) if holder(s) == Holder::Note => {
                        let at = if s.start < s.end {
                            None
                        } else {
                            Some(range)
                        };
                        &&& r matches Some((text, edit)) && bytes(text@) == s.text.subrange(
                            range.0 as int,
                            range.1 as int,
                        ) && Some(edit@) == typing_edit(s, at, Seq::empty())
                        &&& final(self)@ == typing(s, at, Seq::empty(), now)
                    },
                    _ => r is None && final(self)@ == s,
                }
            }),
            final(self)@ == cutting(old(self)@, now),
            r matches Some((_, edit)) ==> cutting_edit(old(self)@) == Some(edit@),
            r is None ==> cutting_edit(old(self)@) is None,
            r matches Some((text, edit)) ==> (old(self)@.marked is None || old(self)@.start
                >= old(self)@.end) ==> edit@.removed == bytes(text@),
    {
        match self.keyboard() {
            Holder::Note => {},
            _ => {
                return None;
            },
        }
        let range = match self.clip() {
            Some(range) => range,
            None => {
                return None;
            },
        };
        let text = String::from_str(slice(self.note.text(), range.0, range.1));
        let at = if self.start < self.end {
            None
        } else {
            Some(range)
        };
        proof {
            reveal_strlit("");
            assert(""@ =~= Seq::empty());
            self.lemma_wf();
            lemma_floor_ceil(self@.text, range.0 as int);
            lemma_floor_ceil(self@.text, range.1 as int);
        }
        match self.type_text(at, "", now) {
            Some(edit) => Some((text, edit)),
            None => None,
        }
    }

    /// The line of pasted text that goes into the query, which is one line.
    pub fn pasted_query<'a>(text: &'a str) -> (r: &'a str)
        ensures
            r.spec_bytes() == head_line(text.spec_bytes()),
    {
        let index = crate::index::LineIndex::new(text);
        let b = text.as_bytes();
        let n: usize = b.len();
        proof {
            lemma_string_ends(text@);
            lemma_line_of(b@, 0);
            lemma_line(b@, 0);
            lemma_line_boundaries(b@, 0);
        }
        let end: usize = index.line_end(0);
        let to: usize = if end < n && end > 0 && b[end - 1] == RETURN {
            end - 1
        } else {
            end
        };
        proof {
            if to < end {
                lemma_ascii_boundary(b@, to as int);
            }
        }
        slice(text, 0, to)
    }

    /// ⌘V: paste `text`. `Some` where the note was edited; while the find bar has
    /// the keyboard, [`NoteApp::pasted_query`] is what to put into the query.
    pub fn paste(&mut self, text: &str, now: u64) -> (r: Option<Edit>)
        requires
            old(self).wf(),
        ensures
            final(self).wf(),
            final(self)@ == pasted(old(self)@, text@, now),
            kept(r) == pasted_edit(old(self)@, text@),
    {
        match self.keyboard() {
            Holder::Panel => {
                return None;
            },
            Holder::Query => {
                self.break_group();
                let line = Self::pasted_query(text);
                proof {
                    crate::text::lemma_bytes_empty(line@);
                }
                if !line.is_empty() {
                    self.schedule_query_search();
                }
                return None;
            },
            Holder::Note => {},
        }
        let text = self.paste_text(text);
        self.insert_alone(text.as_str(), now)
    }

    /// What a paste of `text` puts into the note.
    fn paste_text(&self, text: &str) -> (r: String)
        requires
            self.wf(),
        ensures
            r@ == pasting(self@, text@),
    {
        let t = unify_newlines(text);
        proof {
            encode_utf8_decode_utf8(t@);
        }
        if let Some(over) = self.selected_text_safe() {
            proof {
                encode_utf8_decode_utf8(over@);
            }
            if is_bare_url(t.as_str()) && is_link_text(over.as_str()) {
                let mut link = String::from_str("[");
                link.append(over.as_str());
                link.append("](");
                link.append(trim(t.as_str()));
                link.append(")");
                return link;
            }
        }
        t
    }

    /// Hand the keyboard back to the note without closing the find bar.
    pub fn blur_find(&mut self)
        requires
            old(self).wf(),
        ensures
            final(self).wf(),
            final(self)@ == (State { find: blurred(old(self)@.find), ..old(self)@ }),
    {
        if self.find.open {
            self.find.focused = false;
            self.find.find_return = None;
        }
    }

    /// Files dropped on the window go in at the caret, one piece of text for each.
    pub fn drop_files(&mut self, pieces: &Vec<String>, now: u64) -> (r: Option<Edit>)
        requires
            old(self).wf(),
        ensures
            final(self).wf(),
            final(self)@ == dropped(old(self)@, pieces@, now),
            kept(r) == dropped_edit(old(self)@, pieces@),
    {
        if self.modal_open() {
            return None;
        }
        if self.find.focused {
            self.blur_find();
        }
        if pieces.len() == 0 {
            return None;
        }
        let insert = stack(pieces);
        self.insert_alone(insert.as_str(), now)
    }

    /// Write the references for a finished import, one result for each file, and
    /// report what could not be read rather than dropping it in silence.
    pub fn insert_imported(&mut self, results: Vec<Option<String>>, now: u64) -> (r: Option<Edit>)
        requires
            old(self).wf(),
        ensures
            final(self).wf(),
            ({
                let s = import_noticed(old(self)@, results@, now);
                let t = import_ready(s);
                if imported(results@).len() == 0 {
                    final(self)@ == s && r is None
                } else {
                    &&& final(self)@ == ungrouped(
                        typing(ungrouped(t), None, importing(t, results@), now),
                    )
                    &&& kept(r) == typing_edit(ungrouped(t), None, importing(t, results@))
                }
            }),
    {
        let references = self.note_import(&results, now);
        if references.len() == 0 {
            return None;
        }
        self.take_keyboard();
        let stacked_up = stack(&references);
        proof {
            lemma_stacked_same(references@, imported(results@));
        }
        let insert = if self.lands_in_line() {
            let mut insert = String::from_str("\n");
            insert.append(stacked_up.as_str());
            insert
        } else {
            stacked_up
        };
        self.insert_alone(insert.as_str(), now)
    }

    /// Say what could not be imported; the references to what could.
    fn note_import(&mut self, results: &Vec<Option<String>>, now: u64) -> (r: Vec<String>)
        requires
            old(self).wf(),
        ensures
            final(self).wf(),
            final(self)@ == import_noticed(old(self)@, results@, now),
            r@.len() == imported(results@).len(),
            forall|i: int| 0 <= i < r@.len() ==> (#[trigger] r@[i])@ == imported(results@)[i]@,
    {
        let n: usize = results.len();
        let references = sort_out(results);
        let failed: usize = n - references.len();
        if failed > 0 {
            let mut text = to_decimal(failed as u64);
            proof {
                encode_utf8_decode_utf8(text@);
            }
            if failed == 1 {
                text.append(" file could not be read as an image");
            } else {
                text.append(" files could not be read as an image");
            }
            self.saving.notice = Some(Notice::alert(text, now));
        }
        references
    }

    /// Bring the keyboard back to the note.
    fn take_keyboard(&mut self)
        requires
            old(self).wf(),
        ensures
            final(self).wf(),
            final(self)@ == import_ready(old(self)@),
    {
        self.panels.settings_open = false;
        self.panels.backups_open = false;
        if self.find.focused {
            self.blur_find();
        }
    }

    /// Type `text` as an undo step of its own.
    fn insert_alone(&mut self, text: &str, now: u64) -> (r: Option<Edit>)
        requires
            old(self).wf(),
        ensures
            final(self).wf(),
            final(self)@ == ungrouped(typing(ungrouped(old(self)@), None, text@, now)),
            kept(r) == typing_edit(ungrouped(old(self)@), None, text@),
    {
        self.break_group();
        let r = self.type_text(None, text, now);
        self.break_group();
        r
    }

    /// Whether the place an insertion lands is in the middle of a line.
    fn lands_in_line(&self) -> (r: bool)
        requires
            self.wf(),
        ensures
            r == lands_mid_line(self@),
    {
        let from: usize = match self.marked {
            Some((from, _)) => from,
            None => self.start,
        };
        let b = self.note.text().as_bytes();
        let n: usize = b.len();
        let at: usize = if from < n {
            from
        } else {
            n
        };
        at > 0 && b[at - 1] != NEWLINE
    }
}

/// The references among the results.
fn sort_out(results: &Vec<Option<String>>) -> (r: Vec<String>)
    ensures
        r@.len() == imported(results@).len() <= results@.len(),
        forall|i: int| 0 <= i < r@.len() ==> (#[trigger] r@[i])@ == imported(results@)[i]@,
{
    let mut r: Vec<String> = Vec::new();
    let mut i: usize = 0;
    assert(results@.take(0) =~= Seq::empty());
    while i < results.len()
        invariant
            i <= results@.len(),
            r@.len() == imported(results@.take(i as int)).len() <= i,
            forall|k: int|
                0 <= k < r@.len() ==> (#[trigger] r@[k])@ == imported(results@.take(i as int))[k]@,
        decreases results@.len() - i,
    {
        proof {
            assert(results@.take(i + 1).drop_last() =~= results@.take(i as int));
            assert(results@.take(i + 1).last() == results@[i as int]);
        }
        if let Some(reference) = &results[i] {
            r.push(String::from_str(reference.as_str()));
        }
        i += 1;
    }
    assert(results@.take(results@.len() as int) =~= results@);
    r
}

/// Stacking looks at the characters alone.
proof fn lemma_stacked_same(a: Seq<String>, b: Seq<String>)
    requires
        a.len() == b.len(),
        forall|i: int| 0 <= i < a.len() ==> (#[trigger] a[i])@ == b[i]@,
    ensures
        stacked(a) == stacked(b),
    decreases a.len(),
{
    if a.len() > 0 {
        lemma_stacked_same(a.drop_last(), b.drop_last());
    }
}

/// The pieces, a line break after each.
fn stack(pieces: &Vec<String>) -> (r: String)
    ensures
        r@ == stacked(pieces@),
{
    let mut r = String::new();
    let mut i: usize = 0;
    proof {
        assert(r@ =~= Seq::empty());
        assert(pieces@.take(0) =~= Seq::empty());
    }
    while i < pieces.len()
        invariant
            i <= pieces@.len(),
            r@ == stacked(pieces@.take(i as int)),
        decreases pieces@.len() - i,
    {
        proof {
            assert(pieces@.take(i + 1).drop_last() =~= pieces@.take(i as int));
            assert(pieces@.take(i + 1).last() == pieces@[i as int]);
        }
        r.append(pieces[i].as_str());
        r.append("\n");
        i += 1;
    }
    assert(pieces@.take(pieces@.len() as int) =~= pieces@);
    r
}

/// The text a dropped file comes to: its contents where it is a text small enough
/// to put in whole, and else its path. `read` is what reading it came to.
pub fn dropped_text(size: Option<u64>, read: Option<Vec<u8>>, path: &str) -> (r: String)
    ensures
        match (size, read) {
            (Some(n), Some(b)) => if n <= MAX_INLINE && valid_utf8(b@) {
                bytes(r@) == b@
            } else {
                r@ == path@
            },
            _ => r@ == path@,
        },
{
    if let Some(n) = size {
        if n <= MAX_INLINE {
            if let Some(b) = read {
                if let Ok(text) = decode(b) {
                    return text;
                }
            }
        }
    }
    String::from_str(path)
}

/// `b` from byte `i` on, its spaces written as `%20`.
pub open spec fn percented(b: Seq<u8>, i: int) -> Seq<u8>
    decreases b.len() - i,
{
    if i < 0 || i >= b.len() {
        Seq::empty()
    } else if b[i] == SPACE {
        bytes("%20"@) + percented(b, i + 1)
    } else {
        seq![b[i]] + percented(b, i + 1)
    }
}

/// A run without a space is kept as it is.
proof fn lemma_percented_run(b: Seq<u8>, i: int, j: int)
    requires
        0 <= i <= j <= b.len(),
        forall|k: int| i <= k < j ==> b[k] != SPACE,
    ensures
        percented(b, i) == b.subrange(i, j) + percented(b, j),
    decreases j - i,
{
    if i < j {
        lemma_percented_run(b, i + 1, j);
        assert(seq![b[i]] + (b.subrange(i + 1, j) + percented(b, j)) =~= b.subrange(i, j)
            + percented(b, j));
    } else {
        assert(b.subrange(i, j) + percented(b, j) =~= percented(b, j));
    }
}

/// What the system's dictionary is asked for `term`: nothing for white space.
pub fn look_up(term: &str) -> (r: Option<String>)
    ensures
        r is Some <==> trimmed(term@).len() > 0,
        r matches Some(address) ==> bytes(address@) == bytes("dict://"@) + percented(
            bytes(trimmed(term@)),
            0,
        ),
{
    let text = trim(term);
    if text.is_empty() {
        return None;
    }
    let b = text.as_bytes();
    let n: usize = b.len();
    let mut r = String::from_str("dict://");
    let ghost head = bytes("dict://"@);
    let mut i: usize = 0;
    proof {
        lemma_string_ends(text@);
    }
    while i < n
        invariant
            b@ == text.spec_bytes(),
            n == b@.len(),
            i <= n,
            valid_utf8(b@),
            boundary(b@, i as int),
            bytes(r@) + percented(b@, i as int) == head + percented(b@, 0),
        decreases n - i,
    {
        let mut j: usize = i;
        while j < n && b[j] != SPACE
            invariant
                n == b@.len(),
                i <= j <= n,
                forall|k: int| i <= k < j ==> b@[k] != SPACE,
            decreases n - j,
        {
            j += 1;
        }
        proof {
            if j < n {
                lemma_ascii_boundary(b@, j as int);
            }
            assert(boundary(b@, j as int));
            lemma_percented_run(b@, i as int, j as int);
        }
        let piece = slice(text, i, j);
        let ghost before = r@;
        r.append(piece);
        proof {
            lemma_bytes_concat(before, piece@);
            assert(bytes(before) + (piece.spec_bytes() + percented(b@, j as int)) =~= bytes(r@)
                + percented(b@, j as int));
        }
        i = j;
        if j < n {
            let ghost so_far = r@;
            r.append("%20");
            i = j + 1;
            proof {
                lemma_bytes_concat(so_far, "%20"@);
                assert(bytes(so_far) + (bytes("%20"@) + percented(b@, i as int)) =~= bytes(r@)
                    + percented(b@, i as int));
            }
        }
    }
    assert(bytes(r@) + percented(b@, n as int) =~= bytes(r@));
    Some(r)
}

/// Text pasted into the note holds no CR: every line ends in one way.
pub proof fn law_pasted_lines_end_one_way(b: Seq<u8>, i: int)
    requires
        0 <= i,
    ensures
        !unified(b, i).contains(RETURN),
        (forall|k: int| i <= k < b.len() ==> b[k] != RETURN) && i <= b.len() ==> unified(b, i)
            == b.subrange(i, b.len() as int),
    decreases b.len() - i,
{
    if i < b.len() {
        let next = if b[i] == RETURN && i + 1 < b.len() && b[i + 1] == NEWLINE {
            i + 2
        } else {
            i + 1
        };
        law_pasted_lines_end_one_way(b, next);
        let u = unified(b, i);
        assert forall|k: int| 0 <= k < u.len() implies u[k] != RETURN by {
            if k > 0 {
                assert(u[k] == unified(b, next)[k - 1]);
            }
        }
        if forall|k: int| i <= k < b.len() ==> b[k] != RETURN {
            lemma_unified_run(b, i, b.len() as int);
            assert(b.subrange(i, b.len() as int) + unified(b, b.len() as int) =~= b.subrange(
                i,
                b.len() as int,
            ));
        }
    } else if i == b.len() {
        assert(unified(b, i) =~= b.subrange(i, i));
    }
}

} // verus!
