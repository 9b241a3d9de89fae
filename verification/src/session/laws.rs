//! What opening, saving and looking at the file keep and change.

use vstd::prelude::*;

use crate::note::LoadOutcome;
use crate::session::{
    asked_to_save, begun, fades, kept_aside, looked, looks, opening, opening_text, recorded, reloaded,
    seen, settled, starts, touched, Looked, NoticeState, SavingState, Stamp, WELCOME,
};
use crate::text::bytes;

verus! {

/// Something has settled once as much time went by as it has to rest; what never
/// happened never settles, and a clock that reads earlier settles nothing.
pub proof fn law_settled_is_old_enough(at: Option<u64>, rest: u64, now: u64)
    requires
        rest > 0,
    ensures
        settled(at, rest, now) <==> (at matches Some(t) && now - t >= rest),
{
}

/// A remark fades once it was up for four seconds; an alert never does.
pub proof fn law_remarks_fade(n: NoticeState, now: u64)
    ensures
        fades(n, now) <==> !n.alert && now - n.since >= 4000,
{
}

/// A note that was read is shown as it is and may be saved; one that is not there is
/// the welcome and is owed its first save; and what could not be read as it stands, or
/// belongs in a folder that is not there, is never saved by itself.
pub proof fn law_opening_shows_what_there_is(folder: Option<Seq<char>>, loaded: LoadOutcome, now: u64)
    ensures
        ({
            let s = opening(folder, loaded, now);
            let text = opening_text(folder is Some, loaded);
            &&& !s.saving && s.reconcile_backoff is None && s.disk_checked is None
            &&& loaded matches LoadOutcome::Loaded(n) ==> {
                &&& text == n@
                &&& s.allow_autosave && s.note_on_disk && s.dirty_since is None
            }
            &&& loaded matches LoadOutcome::Lossy(n) ==> {
                &&& text == n@
                &&& !s.allow_autosave && s.note_on_disk && s.dirty_since is None
                &&& s.notice matches Some(notice) && notice.alert && notice.sticky
            }
            &&& loaded is IoError ==> {
                &&& text.len() == 0
                &&& !s.allow_autosave && s.note_on_disk && s.dirty_since is None
                &&& s.notice matches Some(notice) && notice.alert && notice.sticky
            }
            &&& loaded is Missing && folder is Some ==> {
                &&& text.len() == 0
                &&& !s.allow_autosave && !s.note_on_disk
                &&& s.notice matches Some(notice) && notice.alert && notice.sticky
            }
            &&& loaded is Missing && folder is None ==> {
                &&& text == bytes(WELCOME@)
                &&& s.allow_autosave && !s.note_on_disk && s.dirty_since == Some(now)
                &&& s.notice is None
            }
            &&& loaded is Loaded && folder is None ==> s.notice is None
            &&& s.notice matches Some(notice) ==> notice.since == now
        }),
{
}

/// What is said at first names what it is about: the folder that is gone, or what the
/// system said of the file.
pub proof fn law_opening_says_what_is_wrong(folder: Seq<char>, loaded: LoadOutcome, now: u64)
    ensures
        loaded is Loaded || loaded is Missing ==> (opening(Some(folder), loaded, now).notice matches Some(
            n,
        ) && exists|i: int| 0 <= i && i + folder.len() <= n.text.len() && #[trigger] n.text.subrange(
            i,
            i + folder.len(),
        ) == folder),
        loaded matches LoadOutcome::IoError { message } ==> (opening(Some(folder), loaded, now).notice matches Some(
            n,
        ) && n.text.len() >= message@.len() && n.text.skip(n.text.len() - message@.len()) == message@),
{
    if loaded is Loaded || loaded is Missing {
        let a = "The note folder "@;
        let n = opening(Some(folder), loaded, now).notice->0;
        let i = a.len() as int;
        assert(n.text.subrange(i, i + folder.len()) =~= folder);
    }
    if loaded is IoError {
        let message = loaded->IoError_message;
        let n = opening(Some(folder), loaded, now).notice->0;
        assert(n.text.skip(n.text.len() - message@.len()) =~= message@);
    }
}

/// An edit owes a save from then on, and allows it; beside that it puts up a remark
/// where saving was refused, and changes nothing.
pub proof fn law_an_edit_owes_a_save(s: SavingState, now: u64)
    ensures
        ({
            let t = touched(s, now);
            &&& t.dirty_since == Some(now)
            &&& t.allow_autosave
            &&& t.note_on_disk == s.note_on_disk
            &&& t.saving == s.saving
            &&& t.reconcile_backoff == s.reconcile_backoff
            &&& t.disk_checked == s.disk_checked
            &&& s.allow_autosave ==> t.notice == s.notice
            &&& !s.allow_autosave ==> (t.notice matches Some(n) && !n.alert && !n.sticky && n.since
                == now)
        }),
{
}

/// A write starts only where saving is allowed, none is in flight, and the file is
/// neither changed nor up to date. Starting one keeps the note dirty until the write
/// has landed; the note is owed no save any more exactly where saving is refused or
/// the file holds it already.
pub proof fn law_a_write_starts(s: SavingState, disk_changed: bool, on_disk: bool)
    ensures
        starts(s, disk_changed, on_disk) <==> s.allow_autosave && !s.saving && !disk_changed && !on_disk,
        ({
            let t = begun(s, disk_changed, on_disk);
            let quiet = !s.saving && (!s.allow_autosave || on_disk && !disk_changed);
            &&& t.saving == (s.saving || starts(s, disk_changed, on_disk))
            &&& quiet ==> t.dirty_since is None
            &&& !quiet ==> t.dirty_since == s.dirty_since
            &&& t == (SavingState { saving: t.saving, dirty_since: t.dirty_since, ..s })
        }),
        asked_to_save(s) == (SavingState { dirty_since: asked_to_save(s).dirty_since, ..s }),
        s.allow_autosave ==> asked_to_save(s).dirty_since == s.dirty_since,
        !s.allow_autosave ==> asked_to_save(s).dirty_since is None,
{
}

/// A failed write keeps the note dirty and says so. One that landed settles what is owed,
/// unless there was typing since, and takes away the alert it answers; a sticky one and
/// a remark stay. A write that was not published changes nothing.
pub proof fn law_a_write_lands(
    s: SavingState,
    published: bool,
    failure: Option<Seq<char>>,
    still_dirty: bool,
    now: u64,
)
    ensures
        ({
            let t = recorded(s, published, failure, still_dirty, now);
            &&& t.allow_autosave == s.allow_autosave
            &&& t.saving == s.saving
            &&& t.reconcile_backoff == s.reconcile_backoff
            &&& t.disk_checked == s.disk_checked
            &&& failure matches Some(err) ==> {
                &&& t.dirty_since == s.dirty_since
                &&& t.note_on_disk == s.note_on_disk
                &&& t.notice matches Some(n) && n.alert && !n.sticky && n.since == now && n.text
                    == "Save failed: "@ + err
            }
            &&& failure is None && !published ==> t == s
            &&& failure is None && published ==> {
                &&& t.note_on_disk
                &&& still_dirty ==> t.dirty_since == s.dirty_since
                &&& !still_dirty ==> t.dirty_since is None
                &&& (s.notice matches Some(n) && (!n.alert || n.sticky)) ==> t.notice == s.notice
                &&& (s.notice matches Some(n) && n.alert && !n.sticky) ==> t.notice is None
                &&& s.notice is None ==> t.notice is None
            }
        }),
{
}

/// The file is looked at where it exists and may be saved: at once where that was
/// never done, where a conflict stands or where it is the last chance, and otherwise
/// once a second.
pub proof fn law_the_file_is_looked_at(s: SavingState, force: bool, now: u64)
    ensures
        looks(s, force, now) ==> s.allow_autosave && s.note_on_disk,
        s.allow_autosave && s.note_on_disk && (force || s.reconcile_backoff is Some
            || s.disk_checked is None) ==> looks(s, force, now),
        s.allow_autosave && s.note_on_disk && !force && s.reconcile_backoff is None ==> (
        s.disk_checked matches Some(t) ==> (looks(s, force, now) <==> now - t >= 1000)),
{
}

/// A look blocks saving exactly where the file still looks as it did when its copy could
/// not be kept, and is forgotten as soon as it looks otherwise.
pub proof fn law_a_look_decides(s: SavingState, changed: Option<Stamp>)
    ensures
        seen(s, changed) == Looked::Clear <==> changed is None,
        seen(s, changed) == Looked::Blocked <==> changed is Some && s.reconcile_backoff == changed,
        seen(s, changed) == Looked::Changed <==> changed is Some && s.reconcile_backoff != changed,
        looked(s, changed) == (SavingState {
            reconcile_backoff: looked(s, changed).reconcile_backoff,
            ..s
        }),
        changed is Some && s.reconcile_backoff == changed ==> looked(s, changed) == s,
        !(changed is Some && s.reconcile_backoff == changed) ==> looked(
            s,
            changed,
        ).reconcile_backoff is None,
{
}

/// Whether the other copy could be kept or not, what is owed a save stays owed. One that
/// could not be kept is remembered by its look and stays on screen; one that could is
/// reported.
pub proof fn law_the_other_copy_is_kept(s: SavingState, kept: bool, stamp: Stamp, now: u64)
    ensures
        ({
            let t = kept_aside(s, kept, stamp, now);
            &&& t.dirty_since == s.dirty_since
            &&& t.allow_autosave == s.allow_autosave
            &&& t.note_on_disk == s.note_on_disk
            &&& t.saving == s.saving
            &&& t.disk_checked == s.disk_checked
            &&& t.reconcile_backoff == if kept {
                s.reconcile_backoff
            } else {
                Some(stamp)
            }
            &&& t.notice matches Some(n) && n.alert && n.since == now && n.sticky == !kept
        }),
{
}

/// Showing the file's text owes no save and allows the next, and says that it happened.
pub proof fn law_reloading_owes_nothing(s: SavingState, now: u64)
    ensures
        ({
            let t = reloaded(s, now);
            &&& t.dirty_since is None
            &&& t.allow_autosave
            &&& t.note_on_disk == s.note_on_disk
            &&& t.saving == s.saving
            &&& t.reconcile_backoff == s.reconcile_backoff
            &&& t.disk_checked == s.disk_checked
            &&& t.notice matches Some(n) && !n.alert && !n.sticky && n.since == now
        }),
{
}

/// What is said of each of these is said in these words.
pub proof fn law_what_is_said(s: SavingState, folder: Seq<char>, message: String, stamp: Stamp, now: u64)
    ensures
        opening(Some(folder), LoadOutcome::Missing, now).notice->0.text == "The note folder "@ + folder
            + " is not there — nothing will be saved until it is back. Change Note Folder… picks another."@,
        opening(None, LoadOutcome::IoError { message }, now).notice->0.text
            == "Could not load note (won't overwrite): "@ + message@,
        !s.allow_autosave ==> touched(s, now).notice->0.text
            == "Editing enabled save (previous file was not overwritten)."@,
        kept_aside(s, true, stamp, now).notice->0.text
            == "note.md changed on disk; that version was saved to backups. Your unsaved edits are kept and will save."@,
        kept_aside(s, false, stamp, now).notice->0.text
            == "note.md changed on disk. Autosave is paused until the other version can be backed up, so nothing is lost."@,
        reloaded(s, now).notice->0.text == "Reloaded — note.md changed on disk."@,
{
}

/// A note that is not UTF-8 is opened with these words, whatever bytes it holds.
pub proof fn law_what_is_said_of_other_bytes(folder: Option<Seq<char>>, loaded: LoadOutcome, now: u64)
    requires
        loaded is Lossy,
    ensures
        opening(folder, loaded, now).notice->0.text
            == "Note is not valid UTF-8. Shown with the bad bytes replaced; saving is off until you edit it."@,
{
}

} // verus!
