//! The panels laid over the note — Settings, the backups, the command palette —
//! and what is on screen at any moment.

use vstd::prelude::*;
use vstd::string::*;

use crate::app::find::find_closed;
use crate::app::notes::find_dismissed;
use crate::app::{NoteApp, PanelState, State};
use crate::lines::ints;
use crate::palette::{matching, stepped, window_start, Palette, PaletteState, VISIBLE};
use crate::session::{alerting, remarking, said, Notice, SavingState};
use crate::shortcuts;
use crate::shortcuts::{
    chord_of, lowered, modifier_key, shadow_text, shadows, Hotkey, Modifiers, Recorded,
};

verus! {

broadcast use {vstd::seq::group_seq_axioms, vstd::string::group_string_axioms};

/// Settings put away, a recording cancelled along the way.
pub open spec fn settings_closed(p: PanelState) -> PanelState {
    PanelState { settings_open: false, recording_shortcut: false, ..p }
}

/// `s` after ⌘, which opens Settings or closes it. An open find bar goes: they
/// share the top strip and the one input path.
pub open spec fn settings_toggled(s: State, query: Seq<char>) -> State {
    if s.panels.settings_open {
        State { panels: settings_closed(s.panels), ..s }
    } else {
        State {
            panels: PanelState {
                settings_open: true,
                backups_open: false,
                recording_shortcut: false,
                context_menu: false,
                ..s.panels
            },
            find: if s.find.open {
                find_dismissed(s.find, query)
            } else {
                s.find
            },
            ..s
        }
    }
}

/// `s` after the command that shows the backups, or puts them — or the palette —
/// away.
pub open spec fn backups_toggled(s: State, query: Seq<char>) -> State {
    if s.panels.palette is Some {
        State { panels: PanelState { palette: None, ..s.panels }, ..s }
    } else if s.panels.backups_open {
        State { panels: PanelState { backups_open: false, ..s.panels }, ..s }
    } else {
        State {
            panels: PanelState {
                settings_open: false,
                backups_open: true,
                recording_shortcut: false,
                context_menu: false,
                ..s.panels
            },
            find: if s.find.open {
                find_dismissed(s.find, query)
            } else {
                s.find
            },
            ..s
        }
    }
}

/// `s` after ⌘⇧P, which opens the palette or closes it.
pub open spec fn palette_toggled(s: State, query: Seq<char>) -> State {
    if s.panels.palette is Some {
        State { panels: PanelState { palette: None, ..s.panels }, ..s }
    } else {
        let t = if s.find.open {
            find_closed(s, query)
        } else {
            s
        };
        State {
            panels: PanelState {
                settings_open: false,
                backups_open: false,
                context_menu: false,
                palette: Some(PaletteState { query: Seq::empty(), selected: 0 }),
                ..t.panels
            },
            ..t
        }
    }
}

/// Whose key bindings are in force. Switching the context means that the note's
/// own bindings stop by construction while another has the keyboard.
#[derive(Clone, Copy, Debug, PartialEq, Eq, Structural)]
pub enum KeyContext {
    Palette,
    Settings,
    Find,
    Note,
}

/// Whose key bindings are in force in `s`.
pub open spec fn context_of(s: State) -> KeyContext {
    if s.panels.palette is Some {
        KeyContext::Palette
    } else if s.panels.settings_open || s.panels.backups_open {
        KeyContext::Settings
    } else if s.find.focused {
        KeyContext::Find
    } else {
        KeyContext::Note
    }
}

/// A row of the palette: which command it is, and whether it is chosen.
#[derive(Clone, Copy, Debug, PartialEq, Eq, Structural)]
pub struct PaletteRow {
    pub command: usize,
    pub chosen: bool,
}

/// The rows the palette shows, of the commands `names`.
pub open spec fn palette_rows(p: PaletteState, names: Seq<&str>) -> Seq<PaletteRow> {
    let all = matching(names, p.query, names.len() as int);
    let first = window_start(p.selected, all.len() as int);
    let shown = if all.len() - first < VISIBLE {
        all.len() - first
    } else {
        VISIBLE as int
    };
    Seq::new(
        shown as nat,
        |i: int|
            PaletteRow { command: all[first + i] as usize, chosen: first + i == p.selected },
    )
}

/// What the find bar shows of a search.
#[derive(Clone, Copy, Debug, PartialEq, Eq, Structural)]
pub struct FindView {
    /// Whether the query finds nothing: the field and its count are tinted.
    pub no_matches: bool,
    /// Whether the count and the clear chip have something to be about.
    pub has_query: bool,
    /// Which of the two fields the caret is in; neither while the bar is blurred.
    pub query_caret: bool,
    pub replace_caret: bool,
    /// Whether the current match, or every match, can be replaced.
    pub can_replace: bool,
    pub can_replace_all: bool,
}

/// How an editable field of one line is drawn around its caret.
#[derive(Clone, Copy, Debug, PartialEq, Eq, Structural)]
pub enum FieldView {
    /// The caret, if it is shown, and the words that stand for an empty field.
    Empty { caret: bool },
    /// The text before, in and behind the selection, which stands for the caret.
    Selected { from: usize, to: usize },
    /// The text before and behind the caret.
    Caret { at: usize },
    /// The text alone.
    Plain,
}

impl NoteApp {
    /// ⌘, — open Settings, or close it. `query` is the query of an open find bar.
    pub fn open_settings(&mut self, query: &str)
        requires
            old(self).wf(),
        ensures
            final(self).wf(),
            final(self)@ == settings_toggled(old(self)@, query@),
    {
        if self.panels.settings_open {
            self.close_settings();
            return;
        }
        if self.find.open {
            self.dismiss_find(query);
        }
        self.panels.context_menu = false;
        self.panels.backups_open = false;
        self.panels.settings_open = true;
        self.panels.recording_shortcut = false;
    }

    /// Put Settings away.
    pub fn close_settings(&mut self)
        requires
            old(self).wf(),
        ensures
            final(self).wf(),
            final(self)@ == (State { panels: settings_closed(old(self)@.panels), ..old(self)@ }),
    {
        self.panels.settings_open = false;
        self.panels.recording_shortcut = false;
    }

    /// Start to record a shortcut, or stop.
    pub fn toggle_recording(&mut self)
        requires
            old(self).wf(),
        ensures
            final(self).wf(),
            final(self)@ == (State {
                panels: PanelState {
                    recording_shortcut: !old(self)@.panels.recording_shortcut,
                    ..old(self)@.panels
                },
                ..old(self)@
            }),
    {
        self.panels.recording_shortcut = !self.panels.recording_shortcut;
    }

    /// Show the backups, or put them away; whether the list is to be read.
    pub fn open_backups(&mut self, query: &str) -> (r: bool)
        requires
            old(self).wf(),
        ensures
            final(self).wf(),
            final(self)@ == backups_toggled(old(self)@, query@),
            r == (old(self)@.panels.palette is None && !old(self)@.panels.backups_open),
    {
        if self.panels.palette.is_some() {
            self.panels.palette = None;
            return false;
        }
        if self.panels.backups_open {
            self.panels.backups_open = false;
            return false;
        }
        if self.find.open {
            self.dismiss_find(query);
        }
        self.panels.context_menu = false;
        self.panels.settings_open = false;
        // Settings may be in the middle of a recording, which takes every key,
        // the Escape that would close this panel among them.
        self.panels.recording_shortcut = false;
        self.panels.backups_open = true;
        true
    }

    /// ⌘⇧P — open the palette, or close it.
    pub fn open_palette(&mut self, query: &str)
        requires
            old(self).wf(),
        ensures
            final(self).wf(),
            final(self)@ == palette_toggled(old(self)@, query@),
    {
        if self.panels.palette.is_some() {
            self.panels.palette = None;
            return;
        }
        if self.find.open {
            self.close_find_bar(query);
        }
        self.panels.settings_open = false;
        self.panels.backups_open = false;
        self.panels.context_menu = false;
        self.panels.palette = Some(Palette::new());
    }

    /// ↑ and ↓ in the palette, over the commands `names`.
    pub fn palette_step(&mut self, forward: bool, names: &Vec<&str>)
        requires
            old(self).wf(),
        ensures
            final(self).wf(),
            final(self)@ == (match old(self)@.panels.palette {
                Some(p) => State {
                    panels: PanelState {
                        palette: Some(
                            PaletteState {
                                selected: stepped(
                                    p.selected,
                                    forward,
                                    matching(names@, p.query, names@.len() as int).len() as int,
                                ),
                                ..p
                            },
                        ),
                        ..old(self)@.panels
                    },
                    ..old(self)@
                },
                None => old(self)@,
            }),
    {
        if let Some(palette) = &mut self.panels.palette {
            let matches = palette.palette_matches(names);
            assert(ints(matches@).len() == matches@.len());
            palette.move_palette(forward, matches.len());
        }
    }

    /// ⏎ in the palette: the chosen command, the palette put away first — the
    /// command acts on the note, and half of them refuse while a panel is up.
    pub fn palette_run(&mut self, names: &Vec<&str>) -> (r: Option<usize>)
        requires
            old(self).wf(),
        ensures
            final(self).wf(),
            ({
                let s = old(self)@;
                let chosen = match s.panels.palette {
                    Some(p) => {
                        let all = matching(names@, p.query, names@.len() as int);
                        if p.selected < all.len() {
                            Some(all[p.selected])
                        } else {
                            None
                        }
                    },
                    None => None,
                };
                match chosen {
                    Some(c) => {
                        &&& r is Some && r->0 == c
                        &&& final(self)@ == (State {
                            panels: PanelState { palette: None, ..s.panels },
                            ..s
                        })
                    },
                    None => r is None && final(self)@ == s,
                }
            }),
    {
        let chosen: Option<usize> = match &self.panels.palette {
            Some(palette) => {
                let matches = palette.palette_matches(names);
                proof {
                    assert(ints(matches@).len() == matches@.len());
                    if palette.selected < matches@.len() {
                        assert(ints(matches@)[palette.selected as int]
                            == matches@[palette.selected as int]);
                    }
                }
                if palette.selected < matches.len() {
                    Some(matches[palette.selected])
                } else {
                    None
                }
            },
            None => None,
        };
        if chosen.is_some() {
            self.panels.palette = None;
        }
        chosen
    }

    /// The rows the palette shows; none while it is closed.
    pub fn palette_view(&self, names: &Vec<&str>) -> (r: Vec<PaletteRow>)
        ensures
            match self@.panels.palette {
                Some(p) => r@ == palette_rows(p, names@),
                None => r@.len() == 0,
            },
    {
        let mut r: Vec<PaletteRow> = Vec::new();
        if let Some(palette) = &self.panels.palette {
            let matches = palette.palette_matches(names);
            let ghost all = matching(names@, palette.query@, names@.len() as int);
            let n: usize = matches.len();
            let first: usize = palette.first_visible(n);
            assert(ints(matches@).len() == matches@.len());
            let mut i: usize = first;
            let end: usize = if n - first < VISIBLE {
                n
            } else {
                first + VISIBLE
            };
            while i < end
                invariant
                    n == matches@.len(),
                    ints(matches@) == all,
                    n == all.len(),
                    first <= i <= end <= n,
                    first == window_start(palette.selected as int, n as int),
                    r@.len() == i - first,
                    forall|k: int|
                        0 <= k < r@.len() ==> #[trigger] r@[k] == (PaletteRow {
                            command: all[first + k] as usize,
                            chosen: first + k == palette.selected,
                        }),
                decreases end - i,
            {
                assert(ints(matches@)[i as int] == matches@[i as int]);
                r.push(PaletteRow { command: matches[i], chosen: i == palette.selected });
                i += 1;
            }
            assert(r@ =~= palette_rows(palette@, names@));
        }
        r
    }

    /// Whose key bindings are in force.
    pub fn key_context(&self) -> (r: KeyContext)
        ensures
            r == context_of(self@),
    {
        if self.panels.palette.is_some() {
            KeyContext::Palette
        } else if self.panels.settings_open || self.panels.backups_open {
            KeyContext::Settings
        } else if self.find.focused {
            KeyContext::Find
        } else {
            KeyContext::Note
        }
    }

    /// What the find bar shows of a search: whether there is a query, how many
    /// matches it has, whether its pattern is broken, whether one of the matches
    /// is the current one, and whether the replacement is the field being edited.
    pub fn find_view(
        &self,
        has_query: bool,
        matches: usize,
        broken: bool,
        has_current: bool,
        on_replacement: bool,
    ) -> (r: FindView)
        ensures
            ({
                let no_matches = has_query && (matches == 0 || broken);
                r == (FindView {
                    no_matches,
                    has_query,
                    query_caret: self@.find.focused && !on_replacement,
                    replace_caret: self@.find.focused && on_replacement,
                    can_replace: has_current,
                    can_replace_all: has_query && !no_matches,
                })
            }),
    {
        let no_matches = has_query && (matches == 0 || broken);
        FindView {
            no_matches,
            has_query,
            query_caret: self.find.focused && !on_replacement,
            replace_caret: self.find.focused && on_replacement,
            can_replace: has_current,
            can_replace_all: has_query && !no_matches,
        }
    }

    /// Put an alert away that the user has answered by hand. A sticky one, and a
    /// remark, which leaves on its own, cannot be.
    pub fn dismiss_notice(&mut self)
        requires
            old(self).wf(),
        ensures
            final(self).wf(),
            final(self)@ == (match old(self)@.saving.notice {
                Some(n) if n.alert && !n.sticky => State {
                    saving: SavingState { notice: None, ..old(self)@.saving },
                    ..old(self)@
                },
                _ => old(self)@,
            }),
    {
        let dismissable = match &self.saving.notice {
            Some(n) => n.dismissable(),
            None => false,
        };
        if dismissable {
            self.saving.notice = None;
        }
    }

    /// Say something: the notice `notice` goes up.
    pub fn say(&mut self, notice: Notice)
        requires
            old(self).wf(),
        ensures
            final(self).wf(),
            final(self)@ == (State {
                saving: SavingState { notice: Some(notice@), ..old(self)@.saving },
                ..old(self)@
            }),
    {
        self.saving.notice = Some(notice);
    }

    /// A key pressed while a shortcut is recorded; see
    /// [`record_shortcut`](crate::shortcuts::record_shortcut). Whatever it comes
    /// to, but for a modifier on its own, ends the recording. The chord is the key
    /// in small letters with the modifiers `m`; `label` is its name, and
    /// `registrable` whether the system takes it.
    pub fn record_shortcut(
        &mut self,
        pressed: &str,
        m: Modifiers,
        label: &str,
        registrable: bool,
        now: u64,
    ) -> (r: Option<(Hotkey, Option<Notice>)>)
        requires
            old(self).wf(),
        ensures
            final(self).wf(),
            ({
                let s = old(self)@;
                let over = State {
                    panels: PanelState { recording_shortcut: false, ..s.panels },
                    ..s
                };
                let refused = |text: Seq<char>|
                    State {
                        saving: SavingState { notice: alerting(text, now), ..s.saving },
                        ..over
                    };
                if modifier_key(pressed@) {
                    r is None && final(self)@ == s
                } else if pressed@ == "escape"@ {
                    r is None && final(self)@ == over
                } else if !(m.cmd || m.ctrl || m.alt || m.shift) {
                    r is None && final(self)@ == refused(
                        "A global shortcut needs at least one of ⌘ ⌃ ⌥ ⇧. Try again."@,
                    )
                } else if !registrable {
                    r is None && final(self)@ == refused(
                        label@ + " is not a key GravityNote can register globally. Try another."@,
                    )
                } else {
                    &&& final(self)@ == over
                    &&& r matches Some((hotkey, notice)) && chord_of(hotkey, lowered(pressed@), m)
                        && said(notice) == (match shadows(hotkey) {
                        Some(what) => remarking(shadow_text(label@, what), now),
                        None => None,
                    })
                }
            }),
    {
        let h = shortcuts::chord(pressed, m);
        match shortcuts::record_shortcut(pressed, h, label, registrable, now) {
            Recorded::Waiting => None,
            Recorded::Cancelled => {
                self.panels.recording_shortcut = false;
                None
            },
            Recorded::Refused(notice) => {
                self.panels.recording_shortcut = false;
                self.saving.notice = Some(notice);
                None
            },
            Recorded::Taken(hotkey, notice) => {
                self.panels.recording_shortcut = false;
                Some((hotkey, notice))
            },
        }
    }

    /// A short orientation, since there is no help book.
    pub fn show_help(&mut self, now: u64)
        requires
            old(self).wf(),
        ensures
            final(self).wf(),
            final(self)@ == (State {
                saving: SavingState {
                    notice: remarking(
                        "Commands live in the menu bar. ⌘F finds, ⌥⌘F replaces, ⌘, opens Settings, ⌃A shows/hides the window."@,
                        now,
                    ),
                    ..old(self)@.saving
                },
                ..old(self)@
            }),
    {
        self.saving.notice = Some(
            Notice::remark(
                String::from_str(
                    "Commands live in the menu bar. ⌘F finds, ⌥⌘F replaces, ⌘, opens Settings, ⌃A shows/hides the window.",
                ),
                now,
            ),
        );
    }
}

/// How a field of one line is drawn: `selection` is what is selected in it, if
/// anything is, and `show_caret` says that it holds the keyboard.
pub fn field_view(empty: bool, at: usize, selection: Option<(usize, usize)>, show_caret: bool) -> (r: FieldView)
    ensures
        r == (if empty {
            FieldView::Empty { caret: show_caret }
        } else if !show_caret {
            FieldView::Plain
        } else {
            match selection {
                Some((from, to)) => FieldView::Selected { from, to },
                None => FieldView::Caret { at },
            }
        }),
{
    if empty {
        return FieldView::Empty { caret: show_caret };
    }
    if !show_caret {
        return FieldView::Plain;
    }
    match selection {
        Some((from, to)) => FieldView::Selected { from, to },
        None => FieldView::Caret { at },
    }
}

/// No panel stacks on another: a command that opens the backups or the palette
/// puts every other panel and the menu away, and one that opens Settings the
/// backups and the menu.
pub proof fn law_panels_do_not_stack(s: State, query: Seq<char>)
    ensures
        ({
            let t = backups_toggled(s, query);
            t.panels.backups_open && !s.panels.backups_open ==> !t.panels.settings_open
                && t.panels.palette is None && !t.panels.context_menu
        }),
        ({
            let t = palette_toggled(s, query);
            t.panels.palette is Some ==> !t.panels.settings_open && !t.panels.backups_open
                && !t.panels.context_menu
        }),
        ({
            let t = settings_toggled(s, query);
            t.panels.settings_open ==> !t.panels.backups_open && !t.panels.context_menu
        }),
{
}

/// ⌘, opens Settings, or closes it and whatever was being recorded in it. Opening it puts
/// the backups, the menu and the find bar away. The note stays as it is.
pub proof fn law_settings_open_and_close(s: State, query: Seq<char>)
    ensures
        ({
            let t = settings_toggled(s, query);
            let p = s.panels;
            &&& t == (State { panels: t.panels, find: t.find, ..s })
            &&& t.panels.settings_open == !p.settings_open
            &&& !t.panels.recording_shortcut
            &&& t.panels.palette == p.palette
            &&& p.settings_open ==> t.panels.backups_open == p.backups_open && t.panels.context_menu
                == p.context_menu && t.find == s.find
            &&& !p.settings_open ==> !t.panels.backups_open && !t.panels.context_menu && !t.find.open
                && (s.find.open ==> !t.find.focused && t.find.last_query == query) && (!s.find.open
                ==> t.find == s.find)
        }),
{
}

/// The command for the backups puts an open palette away, or else the backups, or else shows
/// the backups with everything else put away.
pub proof fn law_backups_open_and_close(s: State, query: Seq<char>)
    ensures
        ({
            let t = backups_toggled(s, query);
            let p = s.panels;
            &&& t == (State { panels: t.panels, find: t.find, ..s })
            &&& p.palette is Some ==> t.panels == (PanelState { palette: None, ..p }) && t.find == s.find
            &&& p.palette is None && p.backups_open ==> t.panels == (PanelState {
                backups_open: false,
                ..p
            }) && t.find == s.find
            &&& p.palette is None && !p.backups_open ==> t.panels.backups_open && !t.panels.settings_open
                && !t.panels.recording_shortcut && !t.panels.context_menu && t.panels.palette is None
                && !t.find.open && (s.find.open ==> !t.find.focused && t.find.last_query == query) && (
            !s.find.open ==> t.find == s.find)
        }),
{
}

/// ⌘⇧P opens the palette with nothing typed in it, or closes it. Opening it puts every other
/// panel away, and the find bar, whose selection comes back.
pub proof fn law_the_palette_opens_and_closes(s: State, query: Seq<char>)
    ensures
        ({
            let t = palette_toggled(s, query);
            let p = s.panels;
            &&& t.text == s.text
            &&& p.palette is Some ==> t == (State { panels: PanelState { palette: None, ..p }, ..s })
            &&& p.palette is None ==> {
                &&& t.panels.palette matches Some(q) && q.query.len() == 0 && q.selected == 0
                &&& !t.panels.settings_open && !t.panels.backups_open && !t.panels.context_menu
                &&& t.panels.recording_shortcut == p.recording_shortcut
                &&& !t.find.open
                &&& s.find.open ==> t.find.last_query == query && !t.find.focused
                &&& !s.find.open ==> t.find == s.find && t.start == s.start && t.end == s.end
            }
        }),
{
}

/// The keys are the palette's where it is up, else those of the panel that is, else the
/// find bar's where it has the keyboard, and else the note's; and the note has them exactly
/// where nothing is laid over it and the bar does not have the keyboard.
pub proof fn law_whose_keys_they_are(s: State)
    ensures
        context_of(s) == KeyContext::Palette <==> s.panels.palette is Some,
        context_of(s) == KeyContext::Settings <==> s.panels.palette is None && (s.panels.settings_open
            || s.panels.backups_open),
        context_of(s) == KeyContext::Find <==> s.panels.palette is None && !s.panels.settings_open
            && !s.panels.backups_open && s.find.focused,
        context_of(s) == KeyContext::Note <==> crate::app::holder(s) == crate::app::Holder::Note,
{
}

/// The palette shows nine of the commands that match at most, in order, and the one that is
/// chosen among them.
pub proof fn law_the_palette_shows_its_choice(p: PaletteState, names: Seq<&str>)
    requires
        0 <= p.selected < matching(names, p.query, names.len() as int).len(),
    ensures
        ({
            let rows = palette_rows(p, names);
            let all = matching(names, p.query, names.len() as int);
            let first = if p.selected < 9 {
                0
            } else {
                p.selected - 8
            };
            &&& rows.len() == if all.len() - first < 9 {
                all.len() - first
            } else {
                9
            }
            &&& forall|k: int|
                0 <= k < rows.len() ==> (#[trigger] rows[k]).command == all[first + k] as usize
                    && rows[k].chosen == (first + k == p.selected)
            &&& p.selected - first < rows.len()
        }),
{
}

} // verus!
