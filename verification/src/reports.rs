//! What is said of things done outside the note: backups, exports, the images no
//! note refers to, and the folder the note lives in.

use vstd::prelude::*;
use vstd::string::*;
use vstd::utf8::*;

use crate::decimal::{decimal, to_decimal};
use crate::session::{alerting, elapsed, remarking, sticking, Notice};

verus! {

broadcast use {vstd::seq::group_seq_axioms, vstd::string::group_string_axioms};

/// How long the offer to delete unused images stands before it has to be made
/// again.
pub const RECLAIM_CONFIRM: u64 = 20000;

/// What a backup came to.
pub enum Backup {
    /// It was written to the file of this name.
    Made(String),
    /// The newest backup already holds this very text.
    Unchanged,
    /// It could not be written; why.
    Failed(String),
}

/// What is said of a backup.
pub fn backup_report(backup: &Backup, now: u64) -> (r: Notice)
    ensures
        Some(r@) == (match backup {
            Backup::Made(name) => remarking("Backed up to "@ + name@, now),
            Backup::Unchanged => remarking("Nothing has changed since the last backup."@, now),
            Backup::Failed(err) => alerting("Backup failed: "@ + err@, now),
        }),
{
    match backup {
        Backup::Made(name) => {
            let mut text = String::from_str("Backed up to ");
            text.append(name.as_str());
            Notice::remark(text, now)
        },
        Backup::Unchanged => Notice::remark(
            String::from_str("Nothing has changed since the last backup."),
            now,
        ),
        Backup::Failed(err) => {
            let mut text = String::from_str("Backup failed: ");
            text.append(err.as_str());
            Notice::alert(text, now)
        },
    }
}

/// What is said of an export to the file `name`, or of its failure.
pub fn export_report(name: &str, failure: Option<&str>, now: u64) -> (r: Notice)
    ensures
        Some(r@) == (match failure {
            None => remarking("Exported to "@ + name@, now),
            Some(err) => alerting("Export failed: "@ + err@, now),
        }),
{
    match failure {
        None => {
            let mut text = String::from_str("Exported to ");
            text.append(name);
            Notice::remark(text, now)
        },
        Some(err) => {
            let mut text = String::from_str("Export failed: ");
            text.append(err);
            Notice::alert(text, now)
        },
    }
}

/// What is said once opening at login was turned on or off.
pub fn login_report(on: bool, failure: Option<&str>, now: u64) -> (r: Notice)
    ensures
        Some(r@) == (match failure {
            Some(err) => alerting("Could not change open at login: "@ + err@, now),
            None => if on {
                remarking("GravityNote will open at login."@, now)
            } else {
                remarking("GravityNote will no longer open at login."@, now)
            },
        }),
{
    match failure {
        Some(err) => {
            let mut text = String::from_str("Could not change open at login: ");
            text.append(err);
            Notice::alert(text, now)
        },
        None => if on {
            Notice::remark(String::from_str("GravityNote will open at login."), now)
        } else {
            Notice::remark(String::from_str("GravityNote will no longer open at login."), now)
        },
    }
}

/// The menu's label for opening at login; a tick in the name stands for the
/// checkmark that the menu cannot have.
pub fn open_at_login_label(on: bool) -> (r: String)
    ensures
        r@ == (if on {
            "✓ Open at Login"@
        } else {
            "Open at Login"@
        }),
{
    if on {
        String::from_str("✓ Open at Login")
    } else {
        String::from_str("Open at Login")
    }
}

/// What the command that deletes unused images does next.
pub enum Reclaim {
    /// There is nothing to delete, or the offer is made; what to say.
    Say(Notice),
    /// Delete the images.
    Delete,
}

/// What the offer says of `count` unused images that take up `size`.
pub open spec fn offer_text(count: nat, size: Seq<char>) -> Seq<char> {
    decode_utf8(decimal(count)) + (if count == 1 {
        " image"@
    } else {
        " images"@
    }) + " no longer used by the note or any backup, "@ + size
        + ". Choose Reclaim Unused Images again to delete them."@
}

/// Whether an offer made at `offered` still stands.
pub open spec fn stands(offered: Option<u64>, now: u64) -> bool {
    offered is Some && elapsed(offered->0, now) < RECLAIM_CONFIRM
}

/// The next step of deleting `count` unused images that take up `size`, and when
/// the offer was made. Two presses rather than a dialog: the first says what would
/// go, the second does it.
pub fn reclaim_step(offered: Option<u64>, count: u64, size: &str, now: u64) -> (r: (Reclaim, Option<u64>))
    ensures
        if count == 0 {
            &&& r.0 matches Reclaim::Say(n) && Some(n@) == remarking(
                "Every image in the store is still used by the note."@,
                now,
            )
            &&& r.1 == offered
        } else if stands(offered, now) {
            r.0 is Delete && r.1 is None
        } else {
            &&& r.0 matches Reclaim::Say(n) && Some(n@) == sticking(
                offer_text(count as nat, size@),
                now,
            )
            &&& r.1 == Some(now)
        },
{
    if count == 0 {
        return (
            Reclaim::Say(
                Notice::remark(
                    String::from_str("Every image in the store is still used by the note."),
                    now,
                ),
            ),
            offered,
        );
    }
    let offer_stands = match offered {
        Some(at) => now < at || now - at < RECLAIM_CONFIRM,
        None => false,
    };
    if offer_stands {
        return (Reclaim::Delete, None);
    }
    let mut text = to_decimal(count);
    proof {
        encode_utf8_decode_utf8(text@);
    }
    if count == 1 {
        text.append(" image");
    } else {
        text.append(" images");
    }
    text.append(" no longer used by the note or any backup, ");
    text.append(size);
    text.append(". Choose Reclaim Unused Images again to delete them.");
    (Reclaim::Say(Notice::sticky(text, now)), Some(now))
}

/// What is said once `count` images of `size` were deleted but for `failed`.
pub fn reclaimed_report(failed: u64, count: u64, size: &str, now: u64) -> (r: Notice)
    ensures
        Some(r@) == (if failed == 0 {
            remarking("Reclaimed "@ + size@ + "."@, now)
        } else {
            alerting(
                decode_utf8(decimal(failed as nat)) + " of "@ + decode_utf8(decimal(count as nat))
                    + " images could not be deleted."@,
                now,
            )
        }),
{
    if failed == 0 {
        let mut text = String::from_str("Reclaimed ");
        text.append(size);
        text.append(".");
        return Notice::remark(text, now);
    }
    let mut text = to_decimal(failed);
    let all = to_decimal(count);
    proof {
        encode_utf8_decode_utf8(text@);
        encode_utf8_decode_utf8(all@);
    }
    text.append(" of ");
    text.append(all.as_str());
    text.append(" images could not be deleted.");
    Notice::alert(text, now)
}

/// The steps of moving the note to another folder, in order. Each can fail, and
/// until the folder is remembered a failure leaves everything as it was.
#[derive(Clone, Copy, Debug, PartialEq, Eq, Structural)]
pub enum Moving {
    /// Is it another folder at all?
    Compare,
    /// Is no write of the old file in the air?
    Wait,
    /// Write what is on screen out to the old file.
    Flush,
    /// Prove that the folder can be written to.
    Probe,
    /// Read a note that is already there.
    Inspect,
    /// Keep access to the folder.
    Remember,
    /// Keep the choice in the settings.
    Store,
    /// Move the pictures.
    Pictures,
    /// Open the note there.
    Settle,
}

/// What to do after a step.
pub enum Onward {
    /// Go on with the next step; what to say first.
    Go(Moving, Option<Notice>),
    /// Stop; what to say.
    Stop(Notice),
}

/// The step after `at`.
pub open spec fn next_step(at: Moving) -> Moving {
    match at {
        Moving::Compare => Moving::Wait,
        Moving::Wait => Moving::Flush,
        Moving::Flush => Moving::Probe,
        Moving::Probe => Moving::Inspect,
        Moving::Inspect => Moving::Remember,
        Moving::Remember => Moving::Store,
        Moving::Store => Moving::Pictures,
        Moving::Pictures => Moving::Settle,
        Moving::Settle => Moving::Settle,
    }
}

/// What is said when step `at` fails with `err`; `place` is the new folder or,
/// for the pictures, where they still are.
pub open spec fn failure_text(at: Moving, err: Seq<char>, place: Seq<char>) -> Seq<char> {
    match at {
        Moving::Compare => "The note is already in that folder."@,
        Moving::Wait => "A save is in progress — try changing the folder again in a moment."@,
        Moving::Flush => "The note could not be saved where it is now, so it was not moved."@,
        Moving::Probe => "Cannot write to that folder: "@ + err,
        Moving::Inspect => "There is a note.md in "@ + place
            + " that cannot be read. Nothing was moved."@,
        Moving::Remember => "Could not keep access to that folder: "@ + err,
        Moving::Store => "Could not save the folder: "@ + err,
        Moving::Pictures => "The note moved, but its images could not: "@ + err
            + ". They are still in "@ + place + "."@,
        Moving::Settle => err,
    }
}

fn say_failure(at: Moving, err: &str, place: &str) -> (r: String)
    ensures
        r@ == failure_text(at, err@, place@),
{
    match at {
        Moving::Compare => String::from_str("The note is already in that folder."),
        Moving::Wait => String::from_str(
            "A save is in progress — try changing the folder again in a moment.",
        ),
        Moving::Flush => String::from_str(
            "The note could not be saved where it is now, so it was not moved.",
        ),
        Moving::Probe => {
            let mut text = String::from_str("Cannot write to that folder: ");
            text.append(err);
            text
        },
        Moving::Inspect => {
            let mut text = String::from_str("There is a note.md in ");
            text.append(place);
            text.append(" that cannot be read. Nothing was moved.");
            text
        },
        Moving::Remember => {
            let mut text = String::from_str("Could not keep access to that folder: ");
            text.append(err);
            text
        },
        Moving::Store => {
            let mut text = String::from_str("Could not save the folder: ");
            text.append(err);
            text
        },
        Moving::Pictures => {
            let mut text = String::from_str("The note moved, but its images could not: ");
            text.append(err);
            text.append(". They are still in ");
            text.append(place);
            text.append(".");
            text
        },
        Moving::Settle => String::from_str(err),
    }
}

/// What to do after step `at` of moving the note, which failed with `failure` or
/// went well. Pictures that cannot be moved are told of and can be moved by hand;
/// every other failure ends the move.
pub fn move_onward(at: Moving, failure: Option<&str>, place: &str, now: u64) -> (r: Onward)
    ensures
        match failure {
            None => r matches Onward::Go(next, notice) && next == next_step(at) && notice is None,
            Some(err) => if at == Moving::Pictures {
                r matches Onward::Go(next, notice) && next == Moving::Settle
                    && crate::session::said(notice) == alerting(
                    failure_text(at, err@, place@),
                    now,
                )
            } else if at == Moving::Compare {
                r matches Onward::Stop(n) && Some(n@) == remarking(
                    failure_text(at, err@, place@),
                    now,
                )
            } else {
                r matches Onward::Stop(n) && Some(n@) == alerting(
                    failure_text(at, err@, place@),
                    now,
                )
            },
        },
{
    let next = match at {
        Moving::Compare => Moving::Wait,
        Moving::Wait => Moving::Flush,
        Moving::Flush => Moving::Probe,
        Moving::Probe => Moving::Inspect,
        Moving::Inspect => Moving::Remember,
        Moving::Remember => Moving::Store,
        Moving::Store => Moving::Pictures,
        Moving::Pictures => Moving::Settle,
        Moving::Settle => Moving::Settle,
    };
    match failure {
        None => Onward::Go(next, None),
        Some(err) => {
            let text = say_failure(at, err, place);
            match at {
                Moving::Pictures => Onward::Go(next, Some(Notice::alert(text, now))),
                Moving::Compare => Onward::Stop(Notice::remark(text, now)),
                _ => Onward::Stop(Notice::alert(text, now)),
            }
        },
    }
}

/// An offer stands for twenty seconds, and one that was never made
/// does not stand at all.
pub proof fn law_an_offer_stands_for_a_while(offered: Option<u64>, now: u64)
    ensures
        stands(offered, now) <==> (offered matches Some(at) && now - at < 20000),
        offered matches Some(at) ==> now <= at ==> stands(offered, now),
{
}

/// Moving the note goes through all of its steps, each once, and ends with the last.
pub proof fn law_moving_goes_step_by_step()
    ensures
        ({
            let order = seq![
                Moving::Compare,
                Moving::Wait,
                Moving::Flush,
                Moving::Probe,
                Moving::Inspect,
                Moving::Remember,
                Moving::Store,
                Moving::Pictures,
                Moving::Settle,
            ];
            &&& forall|at: Moving| order.contains(at)
            &&& forall|i: int| 0 <= i < 8 ==> next_step(#[trigger] order[i]) == order[i + 1]
            &&& next_step(Moving::Settle) == Moving::Settle
        }),
{
    let order = seq![
        Moving::Compare,
        Moving::Wait,
        Moving::Flush,
        Moving::Probe,
        Moving::Inspect,
        Moving::Remember,
        Moving::Store,
        Moving::Pictures,
        Moving::Settle,
    ];
    assert forall|at: Moving| order.contains(at) by {
        match at {
            Moving::Compare => assert(order[0] == at),
            Moving::Wait => assert(order[1] == at),
            Moving::Flush => assert(order[2] == at),
            Moving::Probe => assert(order[3] == at),
            Moving::Inspect => assert(order[4] == at),
            Moving::Remember => assert(order[5] == at),
            Moving::Store => assert(order[6] == at),
            Moving::Pictures => assert(order[7] == at),
            Moving::Settle => assert(order[8] == at),
        }
    }
}

/// What is said of a step that failed: why, and what became of the note.
pub proof fn law_what_is_said_of_a_failed_move(err: Seq<char>, place: Seq<char>)
    ensures
        failure_text(Moving::Compare, err, place) == "The note is already in that folder."@,
        failure_text(Moving::Wait, err, place)
            == "A save is in progress — try changing the folder again in a moment."@,
        failure_text(Moving::Flush, err, place)
            == "The note could not be saved where it is now, so it was not moved."@,
        failure_text(Moving::Probe, err, place) == "Cannot write to that folder: "@ + err,
        failure_text(Moving::Inspect, err, place) == "There is a note.md in "@ + place
            + " that cannot be read. Nothing was moved."@,
        failure_text(Moving::Remember, err, place) == "Could not keep access to that folder: "@ + err,
        failure_text(Moving::Store, err, place) == "Could not save the folder: "@ + err,
        failure_text(Moving::Pictures, err, place) == "The note moved, but its images could not: "@ + err
            + ". They are still in "@ + place + "."@,
        failure_text(Moving::Settle, err, place) == err,
{
}

/// The offer counts the images, one of them in the singular, and says how much room
/// they take up.
pub proof fn law_the_offer_counts(count: nat, size: Seq<char>)
    ensures
        offer_text(1, size) == decode_utf8(decimal(1))
            + " image no longer used by the note or any backup, "@ + size
            + ". Choose Reclaim Unused Images again to delete them."@,
        count != 1 ==> offer_text(count, size) == decode_utf8(decimal(count))
            + " images no longer used by the note or any backup, "@ + size
            + ". Choose Reclaim Unused Images again to delete them."@,
{
    reveal_strlit(" image");
    reveal_strlit(" images");
    reveal_strlit(" no longer used by the note or any backup, ");
    reveal_strlit(" image no longer used by the note or any backup, ");
    reveal_strlit(" images no longer used by the note or any backup, ");
    let rest = " no longer used by the note or any backup, "@;
    assert(" image"@ + rest =~= " image no longer used by the note or any backup, "@);
    assert(" images"@ + rest =~= " images no longer used by the note or any backup, "@);
    let end = ". Choose Reclaim Unused Images again to delete them."@;
    let one = decode_utf8(decimal(1));
    let n = decode_utf8(decimal(count));
    assert(one + " image"@ + rest + size + end =~= one + (" image"@ + rest) + size + end);
    assert(n + " images"@ + rest + size + end =~= n + (" images"@ + rest) + size + end);
}

} // verus!
