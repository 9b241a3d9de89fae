//! Opening the note, saving it, and living with other programs that write it.
//!
//! Everything here is a decision: which text to show, whether a write may
//! start, what a finished write means, what to do about a file that changed on
//! disk. Times are milliseconds of one steady clock.

use vstd::prelude::*;
use vstd::string::*;

use crate::note::{LoadOutcome, Note};
use crate::text::bytes;

pub mod laws;

verus! {

broadcast use {vstd::seq::group_seq_axioms, vstd::string::group_string_axioms};

/// How long typing has to rest before the note is written.
pub const AUTOSAVE_DEBOUNCE: u64 = 400;

/// How long typing has to rest before an open search looks again.
pub const FIND_DEBOUNCE: u64 = 120;

/// How often the note's file is looked at for a change from outside.
pub const DISK_CHECK: u64 = 1000;

/// How long a remark stays before it fades.
pub const NOTICE_LINGER: u64 = 4000;

/// What a first run shows.
pub const WELCOME: &'static str = "# My notes\n\nStart typing here. Everything saves automatically.";

/// The time from `since` to `now`; none where the clock reads earlier.
pub open spec fn elapsed(since: u64, now: u64) -> int {
    if now >= since {
        now - since
    } else {
        0
    }
}

fn time_since(since: u64, now: u64) -> (r: u64)
    ensures
        r == elapsed(since, now),
{
    if now >= since {
        now - since
    } else {
        0
    }
}

/// Whether something that happened at `at`, if it did, is `rest` old by `now`.
pub open spec fn settled(at: Option<u64>, rest: u64, now: u64) -> bool {
    at is Some && elapsed(at->0, now) >= rest
}

/// Whether something that happened at `at`, if it did, has rested long enough.
pub fn has_settled(at: Option<u64>, rest: u64, now: u64) -> (r: bool)
    ensures
        r == settled(at, rest, now),
{
    match at {
        Some(t) => time_since(t, now) >= rest,
        None => false,
    }
}

/// A line of feedback at the foot of the window.
///
/// Two kinds, because they answer different questions. An alert reports
/// something the user has to know about their note and stays until it is
/// resolved; a remark confirms something they just asked for and gets out of
/// the way on its own.
#[derive(Clone, Debug, PartialEq, Eq)]
pub struct Notice {
    pub text: String,
    pub alert: bool,
    /// Whether the condition behind it is still true and re-checked elsewhere. A
    /// sticky alert cannot be waved away.
    pub sticky: bool,
    pub since: u64,
}

/// A [`Notice`] over its characters.
pub struct NoticeState {
    pub text: Seq<char>,
    pub alert: bool,
    pub sticky: bool,
    pub since: u64,
}

impl View for Notice {
    type V = NoticeState;

    open spec fn view(&self) -> NoticeState {
        NoticeState { text: self.text@, alert: self.alert, sticky: self.sticky, since: self.since }
    }
}

/// The alert `text`, put up at `now`.
pub open spec fn alerting(text: Seq<char>, now: u64) -> Option<NoticeState> {
    Some(NoticeState { text, alert: true, sticky: false, since: now })
}

/// The sticky alert `text`, put up at `now`.
pub open spec fn sticking(text: Seq<char>, now: u64) -> Option<NoticeState> {
    Some(NoticeState { text, alert: true, sticky: true, since: now })
}

/// The remark `text`, put up at `now`.
pub open spec fn remarking(text: Seq<char>, now: u64) -> Option<NoticeState> {
    Some(NoticeState { text, alert: false, sticky: false, since: now })
}

/// What an optional notice says.
pub open spec fn said(notice: Option<Notice>) -> Option<NoticeState> {
    match notice {
        Some(n) => Some(n@),
        None => None,
    }
}

impl Notice {
    /// Something the user has to know about their note. Stays put.
    pub fn alert(text: String, now: u64) -> (r: Self)
        ensures
            Some(r@) == alerting(text@, now),
    {
        Notice { text, alert: true, sticky: false, since: now }
    }

    /// An alert that stands for a condition the app keeps checking.
    pub fn sticky(text: String, now: u64) -> (r: Self)
        ensures
            Some(r@) == sticking(text@, now),
    {
        Notice { text, alert: true, sticky: true, since: now }
    }

    /// Confirmation of something the user just asked for. Fades.
    pub fn remark(text: String, now: u64) -> (r: Self)
        ensures
            Some(r@) == remarking(text@, now),
    {
        Notice { text, alert: false, sticky: false, since: now }
    }

    /// Whether a remark has been up long enough. An alert never expires.
    pub fn expired(&self, now: u64) -> (r: bool)
        ensures
            r == fades(self@, now),
    {
        !self.alert && time_since(self.since, now) >= NOTICE_LINGER
    }

    /// Whether the user may put it away by hand.
    pub fn dismissable(&self) -> (r: bool)
        ensures
            r == (self.alert && !self.sticky),
    {
        self.alert && !self.sticky
    }
}

/// Whether notice `n` has been up long enough.
pub open spec fn fades(n: NoticeState, now: u64) -> bool {
    !n.alert && elapsed(n.since, now) >= NOTICE_LINGER
}

/// What a file looked like: when it was written, and how long it is.
#[derive(Clone, Copy, Debug, PartialEq, Eq, Structural)]
pub struct Stamp {
    pub modified: u64,
    pub len: u64,
}

/// The state of saving.
#[derive(Clone, Debug, PartialEq, Eq)]
pub struct Saving {
    /// When false, refuse autosave so a failed load never overwrites the file.
    pub allow_autosave: bool,
    /// Whether the file exists on disk yet. Until it does there is nothing worth
    /// backing up.
    pub note_on_disk: bool,
    /// Set on every edit; the tick writes once it has settled.
    pub dirty_since: Option<u64>,
    /// Whether a background write is in flight. One at a time.
    pub saving: bool,
    /// The look of an external change that could not be backed up. While the
    /// file still has it, saving stays blocked.
    pub reconcile_backoff: Option<Stamp>,
    /// When the file was last looked at for an external change.
    pub disk_checked: Option<u64>,
    /// The one line of chrome the window ever shows.
    pub notice: Option<Notice>,
}

/// A [`Saving`] over characters.
pub struct SavingState {
    pub allow_autosave: bool,
    pub note_on_disk: bool,
    pub dirty_since: Option<u64>,
    pub saving: bool,
    pub reconcile_backoff: Option<Stamp>,
    pub disk_checked: Option<u64>,
    pub notice: Option<NoticeState>,
}

impl View for Saving {
    type V = SavingState;

    open spec fn view(&self) -> SavingState {
        SavingState {
            allow_autosave: self.allow_autosave,
            note_on_disk: self.note_on_disk,
            dirty_since: self.dirty_since,
            saving: self.saving,
            reconcile_backoff: self.reconcile_backoff,
            disk_checked: self.disk_checked,
            notice: said(self.notice),
        }
    }
}

/// What starting up comes to.
pub struct Opened {
    pub note: Note,
    pub saving: Saving,
    /// Whether what is on screen is what is on disk, to be taken as the baseline
    /// that the next save is compared with.
    pub adopt: bool,
}

/// What is said when the note's folder is gone.
pub open spec fn folder_gone(folder: Seq<char>) -> Seq<char> {
    "The note folder "@ + folder
        + " is not there — nothing will be saved until it is back. Change Note Folder… picks another."@
}

/// What is said about a note that is not UTF-8.
pub open spec fn not_utf8() -> Seq<char> {
    "Note is not valid UTF-8. Shown with the bad bytes replaced; saving is off until you edit it."@
}

/// The text that is shown at first.
pub open spec fn opening_text(missing_folder: bool, loaded: LoadOutcome) -> Seq<u8> {
    match loaded {
        LoadOutcome::Missing => if missing_folder {
            Seq::empty()
        } else {
            bytes(WELCOME@)
        },
        LoadOutcome::Loaded(n) => n@,
        LoadOutcome::Lossy(n) => n@,
        LoadOutcome::IoError { .. } => Seq::empty(),
    }
}

/// What is said at first.
pub open spec fn opening_notice(missing_folder: Option<Seq<char>>, loaded: LoadOutcome, now: u64) -> Option<
    NoticeState,
> {
    match loaded {
        LoadOutcome::Lossy(_) => sticking(not_utf8(), now),
        LoadOutcome::IoError { message } => sticking(
            "Could not load note (won't overwrite): "@ + message@,
            now,
        ),
        _ => match missing_folder {
            Some(folder) => sticking(folder_gone(folder), now),
            None => None,
        },
    }
}

/// The saving state to start with: nothing is written over a file that could
/// not be read as it stands, nor into a folder that is not there.
pub open spec fn opening(missing_folder: Option<Seq<char>>, loaded: LoadOutcome, now: u64) -> SavingState {
    SavingState {
        allow_autosave: loaded is Loaded || (loaded is Missing && missing_folder is None),
        note_on_disk: !(loaded is Missing),
        dirty_since: if loaded is Missing {
            Some(now)
        } else {
            None
        },
        saving: false,
        reconcile_backoff: None,
        disk_checked: None,
        notice: opening_notice(missing_folder, loaded, now),
    }
}

/// Open the app on what reading the note came to.
///
/// `missing_folder` names the chosen note folder where it is not there: a volume
/// that is not mounted is missing, not empty, so nothing is written. A lossy
/// decode or a read error shows what it can and refuses to save until an edit
/// says otherwise.
pub fn open(missing_folder: Option<String>, loaded: LoadOutcome, now: u64) -> (r: Opened)
    ensures
        r.note@ == opening_text(missing_folder is Some, loaded),
        r.saving@ == opening(
            match missing_folder {
                Some(folder) => Some(folder@),
                None => None,
            },
            loaded,
            now,
        ),
        r.adopt == (loaded is Loaded),
{
    let folder_missing = missing_folder.is_some();
    let mut notice: Option<Notice> = match missing_folder {
        Some(folder) => {
            let mut text = String::from_str("The note folder ");
            text.append(folder.as_str());
            text.append(
                " is not there — nothing will be saved until it is back. Change Note Folder… picks another.",
            );
            Some(Notice::sticky(text, now))
        },
        None => None,
    };
    let (note, allow_autosave, note_on_disk) = match loaded {
        LoadOutcome::Missing => if folder_missing {
            (Note::new(), false, false)
        } else {
            (Note::from_text(WELCOME), true, false)
        },
        LoadOutcome::Loaded(n) => (n, true, true),
        LoadOutcome::Lossy(n) => {
            notice = Some(
                Notice::sticky(
                    String::from_str(
                        "Note is not valid UTF-8. Shown with the bad bytes replaced; saving is off until you edit it.",
                    ),
                    now,
                ),
            );
            (n, false, true)
        },
        LoadOutcome::IoError { message } => {
            let mut text = String::from_str("Could not load note (won't overwrite): ");
            text.append(message.as_str());
            notice = Some(Notice::sticky(text, now));
            (Note::new(), false, true)
        },
    };
    let dirty_since = if note_on_disk {
        None
    } else {
        Some(now)
    };
    Opened {
        note,
        saving: Saving {
            allow_autosave,
            note_on_disk,
            dirty_since,
            saving: false,
            reconcile_backoff: None,
            disk_checked: None,
            notice,
        },
        adopt: note_on_disk && allow_autosave,
    }
}

/// What the disk holds of a note that changed from outside.
#[derive(Clone, Copy, Debug, PartialEq, Eq, Structural)]
pub enum DiskCopy {
    /// Vanished, unreadable, or not UTF-8 right now.
    Unreadable,
    /// The very text on screen.
    Same,
    /// Another text.
    Different,
}

/// What to do about a note that changed from outside.
#[derive(Clone, Copy, Debug, PartialEq, Eq, Structural)]
pub enum Resolve {
    /// Take note of the file's new look; the next autosave rewrites it.
    Restamp,
    /// Take the disk copy as the baseline; nothing on screen changes.
    Adopt,
    /// Keep the external copy in a backup before anything else.
    BackUp,
    /// Show the disk copy.
    Reload,
}

/// What looking at the file came to.
#[derive(Clone, Copy, Debug, PartialEq, Eq, Structural)]
pub enum Looked {
    /// Nothing stands in the way of a save.
    Clear,
    /// A conflict stands that could not be resolved: no save may start.
    Blocked,
    /// The file changed: read it, and decide.
    Changed,
}

/// `s` after an edit at `now`. The first edit after a failed load turns saving
/// back on, and says so.
pub open spec fn touched(s: SavingState, now: u64) -> SavingState {
    SavingState {
        allow_autosave: true,
        dirty_since: Some(now),
        notice: if s.allow_autosave {
            s.notice
        } else {
            remarking("Editing enabled save (previous file was not overwritten)."@, now)
        },
        ..s
    }
}

/// `s` after the question whether a save may start.
pub open spec fn asked_to_save(s: SavingState) -> SavingState {
    SavingState {
        dirty_since: if s.allow_autosave {
            s.dirty_since
        } else {
            None
        },
        ..s
    }
}

/// Whether a write starts now.
pub open spec fn starts(s: SavingState, disk_changed: bool, on_disk_already: bool) -> bool {
    !s.saving && s.allow_autosave && !disk_changed && !on_disk_already
}

/// `s` after a write was asked for. Text that is on disk already owes no write.
pub open spec fn begun(s: SavingState, disk_changed: bool, on_disk_already: bool) -> SavingState {
    if s.saving {
        s
    } else if !s.allow_autosave || (!disk_changed && on_disk_already) {
        SavingState { dirty_since: None, ..s }
    } else {
        SavingState { saving: !disk_changed, ..s }
    }
}

/// `s` after a write came to `failure`, or worked. A save that worked answers
/// whatever the last alert was about, but not a sticky one, which describes a
/// state the app is still in. A failed one keeps the note dirty, so that it is
/// tried again.
pub open spec fn recorded(
    s: SavingState,
    published: bool,
    failure: Option<Seq<char>>,
    still_dirty: bool,
    now: u64,
) -> SavingState {
    match failure {
        Some(err) => SavingState { notice: alerting("Save failed: "@ + err, now), ..s },
        None => if !published {
            s
        } else {
            SavingState {
                dirty_since: if still_dirty {
                    s.dirty_since
                } else {
                    None
                },
                notice: match s.notice {
                    Some(n) => if n.alert && !n.sticky {
                        None
                    } else {
                        s.notice
                    },
                    None => None,
                },
                note_on_disk: true,
                ..s
            }
        },
    }
}

/// Whether the file is looked at now. Nothing is, before the note exists on disk
/// or after a refused load; otherwise the file is asked after on its own clock —
/// every tick while a conflict stands, and always when `force` says this is the
/// last chance.
pub open spec fn looks(s: SavingState, force: bool, now: u64) -> bool {
    s.allow_autosave && s.note_on_disk && (force || s.reconcile_backoff is Some
        || s.disk_checked is None || settled(s.disk_checked, DISK_CHECK, now))
}

/// What the file's look means: `changed` is its stamp where that is not the one
/// last written or adopted.
pub open spec fn seen(s: SavingState, changed: Option<Stamp>) -> Looked {
    match changed {
        None => Looked::Clear,
        Some(stamp) => if s.reconcile_backoff == Some(stamp) {
            Looked::Blocked
        } else {
            Looked::Changed
        },
    }
}

/// `s` after that look: a conflict that could not be resolved is remembered for
/// as long as the file looks the same.
pub open spec fn looked(s: SavingState, changed: Option<Stamp>) -> SavingState {
    SavingState {
        reconcile_backoff: if seen(s, changed) == Looked::Blocked {
            s.reconcile_backoff
        } else {
            None
        },
        ..s
    }
}

/// What to do about a file that changed. The disk copy is shown only where the
/// buffer holds nothing unsaved, and the buffer wins only once the disk copy is
/// backed up.
pub open spec fn resolution(disk: DiskCopy, buffer_dirty: bool) -> Resolve {
    match disk {
        DiskCopy::Unreadable => Resolve::Restamp,
        DiskCopy::Same => Resolve::Adopt,
        DiskCopy::Different => if buffer_dirty {
            Resolve::BackUp
        } else {
            Resolve::Reload
        },
    }
}

/// `s` after that was decided: a buffer the file holds already is owed no save.
pub open spec fn resolved(s: SavingState, disk: DiskCopy) -> SavingState {
    if disk == DiskCopy::Same {
        SavingState { dirty_since: None, ..s }
    } else {
        s
    }
}

/// `s` after the external copy was backed up, or could not be.
pub open spec fn kept_aside(s: SavingState, kept: bool, stamp: Stamp, now: u64) -> SavingState {
    if kept {
        SavingState {
            notice: alerting(
                "note.md changed on disk; that version was saved to backups. Your unsaved edits are kept and will save."@,
                now,
            ),
            ..s
        }
    } else {
        SavingState {
            reconcile_backoff: Some(stamp),
            notice: sticking(
                "note.md changed on disk. Autosave is paused until the other version can be backed up, so nothing is lost."@,
                now,
            ),
            ..s
        }
    }
}

/// `s` after the disk copy replaced the buffer: nothing is owed a save.
pub open spec fn reloaded(s: SavingState, now: u64) -> SavingState {
    SavingState {
        allow_autosave: true,
        dirty_since: None,
        notice: remarking("Reloaded — note.md changed on disk."@, now),
        ..s
    }
}

impl Saving {
    /// Mark the buffer as changed; the tick writes once typing settles.
    pub fn touch(&mut self, now: u64)
        ensures
            final(self)@ == touched(old(self)@, now),
    {
        if !self.allow_autosave {
            self.allow_autosave = true;
            self.notice = Some(
                Notice::remark(
                    String::from_str("Editing enabled save (previous file was not overwritten)."),
                    now,
                ),
            );
        }
        self.dirty_since = Some(now);
    }

    /// Whether a save may start: not after a refused load, and never over an
    /// external change that has not been reconciled.
    pub fn may_save(&mut self, disk_changed: bool) -> (r: bool)
        ensures
            r == (old(self).allow_autosave && !disk_changed),
            final(self)@ == asked_to_save(old(self)@),
    {
        if !self.allow_autosave {
            self.dirty_since = None;
            return false;
        }
        !disk_changed
    }

    /// Whether to start a write now. A write already in flight is left to
    /// finish, so saves never overtake each other.
    pub fn save_soon(&mut self, disk_changed: bool, on_disk_already: bool) -> (r: bool)
        ensures
            r == starts(old(self)@, disk_changed, on_disk_already),
            final(self)@ == begun(old(self)@, disk_changed, on_disk_already),
    {
        if self.saving || !self.may_save(disk_changed) {
            return false;
        }
        if on_disk_already {
            self.dirty_since = None;
            return false;
        }
        self.saving = true;
        true
    }

    /// What a finished write means for the rest of the app. `published` is
    /// whether the write put its text in place, rather than standing down for
    /// newer text; `still_dirty` whether the buffer holds something else by now.
    pub fn record_save(&mut self, published: bool, failure: Option<String>, still_dirty: bool, now: u64)
        ensures
            final(self)@ == recorded(
                old(self)@,
                published,
                match failure {
                    Some(err) => Some(err@),
                    None => None,
                },
                still_dirty,
                now,
            ),
    {
        match failure {
            Some(err) => {
                let mut text = String::from_str("Save failed: ");
                text.append(err.as_str());
                self.notice = Some(Notice::alert(text, now));
            },
            None => {
                if published {
                    if !still_dirty {
                        self.dirty_since = None;
                    }
                    let answered = match &self.notice {
                        Some(n) => n.alert && !n.sticky,
                        None => false,
                    };
                    if answered {
                        self.notice = None;
                    }
                    self.note_on_disk = true;
                }
            },
        }
    }

    /// A background write landed.
    pub fn finish_save(&mut self, published: bool, failure: Option<String>, still_dirty: bool, now: u64)
        ensures
            final(self)@ == (SavingState {
                saving: false,
                ..recorded(
                    old(self)@,
                    published,
                    match failure {
                        Some(err) => Some(err@),
                        None => None,
                    },
                    still_dirty,
                    now,
                )
            }),
    {
        self.saving = false;
        self.record_save(published, failure, still_dirty, now);
    }

    /// Whether the tick should start a write: typing has settled, and no
    /// conflict with the disk stands in the way.
    pub fn save_due(&self, blocked: bool, now: u64) -> (r: bool)
        ensures
            r == (settled(self.dirty_since, AUTOSAVE_DEBOUNCE, now) && !blocked),
    {
        has_settled(self.dirty_since, AUTOSAVE_DEBOUNCE, now) && !blocked
    }

    /// Take an expired remark off the screen; whether there was one.
    pub fn fade_notice(&mut self, now: u64) -> (r: bool)
        ensures
            r == (old(self)@.notice matches Some(n) && fades(n, now)),
            final(self)@ == (SavingState {
                notice: if r {
                    None
                } else {
                    old(self)@.notice
                },
                ..old(self)@
            }),
    {
        let over = match &self.notice {
            Some(n) => n.expired(now),
            None => false,
        };
        if over {
            self.notice = None;
        }
        over
    }

    /// Whether the note may be backed up on the hour.
    pub fn may_back_up(&self) -> (r: bool)
        ensures
            r == (self.allow_autosave && self.note_on_disk),
    {
        self.allow_autosave && self.note_on_disk
    }

    /// Whether the file should be looked at now.
    pub fn should_look(&mut self, force: bool, now: u64) -> (r: bool)
        ensures
            r == looks(old(self)@, force, now),
            final(self)@ == (if r {
                SavingState { disk_checked: Some(now), ..old(self)@ }
            } else {
                old(self)@
            }),
    {
        if !(self.allow_autosave && self.note_on_disk) {
            return false;
        }
        if !force && self.reconcile_backoff.is_none() && self.disk_checked.is_some() && !has_settled(
            self.disk_checked,
            DISK_CHECK,
            now,
        ) {
            return false;
        }
        self.disk_checked = Some(now);
        true
    }

    /// What the file's look means: `changed` is its stamp where that is not the
    /// one last written or adopted.
    pub fn look(&mut self, changed: Option<Stamp>) -> (r: Looked)
        ensures
            r == seen(old(self)@, changed),
            final(self)@ == looked(old(self)@, changed),
    {
        match changed {
            None => {
                self.reconcile_backoff = None;
                Looked::Clear
            },
            Some(stamp) => {
                if let Some(held) = self.reconcile_backoff {
                    if held == stamp {
                        return Looked::Blocked;
                    }
                }
                self.reconcile_backoff = None;
                Looked::Changed
            },
        }
    }

    /// What to do about a file that changed: it errs toward never destroying
    /// either copy.
    pub fn resolve(&mut self, disk: DiskCopy, buffer_dirty: bool) -> (r: Resolve)
        ensures
            r == resolution(disk, buffer_dirty),
            final(self)@ == (if disk == DiskCopy::Same {
                SavingState { dirty_since: None, ..old(self)@ }
            } else {
                old(self)@
            }),
            final(self)@ == resolved(old(self)@, disk),
            r != Resolve::Adopt ==> final(self)@ == old(self)@,
    {
        match disk {
            DiskCopy::Unreadable => Resolve::Restamp,
            DiskCopy::Same => {
                self.dirty_since = None;
                Resolve::Adopt
            },
            DiskCopy::Different => if buffer_dirty {
                Resolve::BackUp
            } else {
                Resolve::Reload
            },
        }
    }

    /// What it means that the external copy was backed up, or could not be:
    /// whether this tick's save must be held. A copy that could not be kept
    /// blocks saving for as long as the file looks like `stamp`.
    pub fn backed_up(&mut self, kept: bool, stamp: Stamp, now: u64) -> (blocked: bool)
        ensures
            blocked == !kept,
            final(self)@ == kept_aside(old(self)@, kept, stamp, now),
    {
        if kept {
            self.notice = Some(
                Notice::alert(
                    String::from_str(
                        "note.md changed on disk; that version was saved to backups. Your unsaved edits are kept and will save.",
                    ),
                    now,
                ),
            );
            false
        } else {
            self.reconcile_backoff = Some(stamp);
            self.notice = Some(
                Notice::sticky(
                    String::from_str(
                        "note.md changed on disk. Autosave is paused until the other version can be backed up, so nothing is lost.",
                    ),
                    now,
                ),
            );
            true
        }
    }

    /// The buffer now equals the disk copy: nothing is owed a save.
    pub fn reload(&mut self, now: u64)
        ensures
            final(self)@ == reloaded(old(self)@, now),
    {
        self.allow_autosave = true;
        self.dirty_since = None;
        self.notice = Some(
            Notice::remark(String::from_str("Reloaded — note.md changed on disk."), now),
        );
    }
}

/// A conflict whose other copy could not be kept blocks saving at every later
/// look, through any number of edits, for as long as the file looks the same.
/// A write starts only after a look that found nothing new, or after the other
/// copy was kept.
pub proof fn law_unkept_copy_blocks(s: SavingState, stamp: Stamp, now: u64, edit: u64, later: u64)
    requires
        s.note_on_disk,
    ensures
        ({
            let held = kept_aside(s, false, stamp, now);
            let edited = touched(held, edit);
            &&& looks(edited, false, later)
            &&& seen(edited, Some(stamp)) == Looked::Blocked
            &&& looked(edited, Some(stamp)) == edited
            &&& forall|on_disk: bool| !#[trigger] starts(edited, true, on_disk)
        }),
{
}

/// A note that could not be read as it stands is never written over: no write
/// starts until an edit asks for one.
pub proof fn law_refused_load_is_not_saved(
    missing_folder: Option<Seq<char>>,
    loaded: LoadOutcome,
    now: u64,
    edit: u64,
)
    requires
        loaded is Lossy || loaded is IoError || (loaded is Missing && missing_folder is Some),
    ensures
        ({
            let s = opening(missing_folder, loaded, now);
            &&& forall|changed: bool, on_disk: bool| !#[trigger] starts(s, changed, on_disk)
            &&& begun(s, false, false).dirty_since is None
            &&& starts(touched(s, edit), false, false)
        }),
{
}

/// Typing while a write is in flight is not lost: the note stays dirty when the
/// older text lands, and the next write may start.
pub proof fn law_late_typing_is_saved(s: SavingState, edit: u64, landed: u64)
    requires
        starts(s, false, false),
    ensures
        ({
            let writing = touched(begun(s, false, false), edit);
            let after = SavingState {
                saving: false,
                ..recorded(writing, true, None, true, landed)
            };
            &&& !starts(writing, false, false)
            &&& after.dirty_since == Some(edit)
            &&& starts(after, false, false)
        }),
{
}

} // verus!
