//! What the clock does: fade a remark, search again, look at the file, save.

use vstd::prelude::*;

use crate::app::{FindState, NoteApp, State};
use crate::note::store::LoadOutcome;
use crate::session::{
    begun, fades, looks, settled, starts, DiskCopy, SavingState, AUTOSAVE_DEBOUNCE, FIND_DEBOUNCE,
};
use crate::text::{lemma_bytes_injective, same_text};

verus! {

/// What a tick asks for, before the file is looked at.
#[derive(Clone, Copy, Debug, PartialEq, Eq, Structural)]
pub struct Pulse {
    /// A remark was taken off the screen.
    pub faded: bool,
    /// The text under an open find bar is to be searched again.
    pub search: bool,
    /// The file is to be looked at.
    pub look: bool,
}

/// What a tick at `now` asks for.
pub open spec fn pulse(s: State, now: u64) -> Pulse {
    Pulse {
        faded: s.saving.notice matches Some(n) && fades(n, now),
        search: settled(s.find.dirty_since, FIND_DEBOUNCE, now),
        look: looks(s.saving, false, now),
    }
}

/// `s` after it.
pub open spec fn ticked(s: State, now: u64) -> State {
    let p = pulse(s, now);
    State {
        saving: SavingState {
            notice: if p.faded {
                None
            } else {
                s.saving.notice
            },
            disk_checked: if p.look {
                Some(now)
            } else {
                s.saving.disk_checked
            },
            ..s.saving
        },
        find: FindState {
            dirty_since: if p.search {
                None
            } else {
                s.find.dirty_since
            },
            ..s.find
        },
        ..s
    }
}

/// What a tick asks for once the file was looked at: whether to write the note,
/// and whether it may be backed up.
pub open spec fn tock(s: State, blocked: bool, disk_changed: bool, on_disk_already: bool, now: u64) -> (
    bool,
    bool,
) {
    (
        settled(s.saving.dirty_since, AUTOSAVE_DEBOUNCE, now) && !blocked && starts(
            s.saving,
            disk_changed,
            on_disk_already,
        ),
        s.saving.allow_autosave && s.saving.note_on_disk,
    )
}

/// `s` after that.
pub open spec fn tocked(s: State, blocked: bool, disk_changed: bool, on_disk_already: bool, now: u64) -> State {
    if settled(s.saving.dirty_since, AUTOSAVE_DEBOUNCE, now) && !blocked {
        State { saving: begun(s.saving, disk_changed, on_disk_already), ..s }
    } else {
        s
    }
}

/// What a file that reads as `loaded` is to a note that holds `b`. One that has
/// vanished, cannot be read or is not text is not read at all.
pub open spec fn disk_copy(b: Seq<u8>, loaded: LoadOutcome) -> DiskCopy {
    match loaded {
        LoadOutcome::Loaded(note) => if note@ == b {
            DiskCopy::Same
        } else {
            DiskCopy::Different
        },
        _ => DiskCopy::Unreadable,
    }
}

impl NoteApp {
    /// What a file that changed is to the note.
    pub fn compare_disk(&self, loaded: &LoadOutcome) -> (r: DiskCopy)
        requires
            self.wf(),
        ensures
            r == disk_copy(self@.text, *loaded),
    {
        match loaded {
            LoadOutcome::Loaded(note) => {
                let theirs = note.text();
                let ours = self.text();
                proof {
                    if note@ == self@.text {
                        lemma_bytes_injective(theirs@, ours@);
                    }
                }
                if same_text(theirs, ours) {
                    DiskCopy::Same
                } else {
                    DiskCopy::Different
                }
            },
            _ => DiskCopy::Unreadable,
        }
    }

    /// The first half of a tick: remarks fade, an edited document is searched
    /// again, and the file is looked at before anything is written over it.
    pub fn tick(&mut self, now: u64) -> (r: Pulse)
        requires
            old(self).wf(),
        ensures
            final(self).wf(),
            r == pulse(old(self)@, now),
            final(self)@ == ticked(old(self)@, now),
    {
        let faded = self.saving.fade_notice(now);
        let search = self.find_due(now);
        let look = self.saving.should_look(false, now);
        Pulse { faded, search, look }
    }

    /// The second half: whether to start a write, and whether the note may be
    /// backed up. `blocked` says that the file holds something that could not be
    /// kept, `disk_changed` that it changed since it was last looked at, and
    /// `on_disk_already` that it holds the note as it stands.
    pub fn tock(&mut self, blocked: bool, disk_changed: bool, on_disk_already: bool, now: u64) -> (r: (
        bool,
        bool,
    ))
        requires
            old(self).wf(),
        ensures
            final(self).wf(),
            r == tock(old(self)@, blocked, disk_changed, on_disk_already, now),
            final(self)@ == tocked(old(self)@, blocked, disk_changed, on_disk_already, now),
    {
        let save = self.saving.save_due(blocked, now) && self.saving.save_soon(
            disk_changed,
            on_disk_already,
        );
        (save, self.saving.may_back_up())
    }
}

/// While a conflict holds saving back, no tick starts a write.
pub proof fn law_blocked_tick_writes_nothing(s: State, disk_changed: bool, on_disk_already: bool, now: u64)
    ensures
        !tock(s, true, disk_changed, on_disk_already, now).0,
        tocked(s, true, disk_changed, on_disk_already, now) == s,
{
}

/// A tick starts at most one write until it lands: two never race to replace the
/// file.
pub proof fn law_writes_never_overlap(
    s: State,
    blocked: bool,
    disk_changed: bool,
    on_disk_already: bool,
    now: u64,
    later: u64,
)
    requires
        tock(s, blocked, disk_changed, on_disk_already, now).0,
    ensures
        ({
            let writing = tocked(s, blocked, disk_changed, on_disk_already, now);
            forall|b: bool, d: bool, o: bool| !(#[trigger] tock(writing, b, d, o, later)).0
        }),
{
}

/// A tick takes a remark off once it was up for four seconds, searches again once typing
/// under an open find bar has rested for 120 milliseconds, and looks at the file of a
/// note that may be saved once a second. It changes nothing but what it keeps of these.
pub proof fn law_a_tick_asks_for_what_is_due(s: State, now: u64)
    ensures
        pulse(s, now).faded <==> (s.saving.notice matches Some(n) && !n.alert && now - n.since
            >= 4000),
        pulse(s, now).search <==> (s.find.dirty_since matches Some(t) && now - t >= 120),
        s.saving.reconcile_backoff is None ==> (s.saving.disk_checked matches Some(t) ==> (pulse(
            s,
            now,
        ).look <==> s.saving.allow_autosave && s.saving.note_on_disk && now - t >= 1000)),
        ({
            let t = ticked(s, now);
            let p = pulse(s, now);
            &&& t == (State { saving: t.saving, find: t.find, ..s })
            &&& t.find == (FindState { dirty_since: t.find.dirty_since, ..s.find })
            &&& t.find.dirty_since == if p.search {
                None
            } else {
                s.find.dirty_since
            }
            &&& t.saving == (SavingState {
                notice: t.saving.notice,
                disk_checked: t.saving.disk_checked,
                ..s.saving
            })
            &&& t.saving.notice == if p.faded {
                None
            } else {
                s.saving.notice
            }
            &&& t.saving.disk_checked == if p.look {
                Some(now)
            } else {
                s.saving.disk_checked
            }
        }),
{
}

/// A tick writes the note exactly where typing has rested for 400 milliseconds and
/// nothing forbids it: no conflict, no refused load, no write in flight, no change of
/// the file, and something in the note that the file does not hold. The note itself
/// is never touched, and it stays dirty until the write has landed.
pub proof fn law_a_tick_saves_what_has_rested(
    s: State,
    blocked: bool,
    disk_changed: bool,
    on_disk_already: bool,
    now: u64,
)
    ensures
        ({
            let (save, back_up) = tock(s, blocked, disk_changed, on_disk_already, now);
            let t = tocked(s, blocked, disk_changed, on_disk_already, now);
            &&& save <==> (s.saving.dirty_since matches Some(at) && now - at >= 400) && !blocked
                && !disk_changed && !on_disk_already && s.saving.allow_autosave && !s.saving.saving
            &&& back_up <==> s.saving.allow_autosave && s.saving.note_on_disk
            &&& t == (State { saving: t.saving, ..s })
            &&& t.saving.saving == (s.saving.saving || save)
            &&& save ==> t.saving.dirty_since == s.saving.dirty_since
            &&& t.saving == (SavingState {
                saving: t.saving.saving,
                dirty_since: t.saving.dirty_since,
                ..s.saving
            })
            &&& t.saving.dirty_since != s.saving.dirty_since ==> t.saving.dirty_since is None && (
            !s.saving.allow_autosave || on_disk_already && !disk_changed)
        }),
{
}

} // verus!
