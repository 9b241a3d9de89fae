use gravitynote::app::NoteApp;
use gravitynote::note::store::{load_note, FileRead, LoadOutcome};
use gravitynote::note::Note;
use gravitynote::session::{
    has_settled, open, DiskCopy, Looked, Notice, Resolve, Saving, Stamp, AUTOSAVE_DEBOUNCE, DISK_CHECK,
    FIND_DEBOUNCE, NOTICE_LINGER, WELCOME,
};

fn saving() -> Saving {
    open(None, LoadOutcome::Loaded(Note::from_text("a")), 0).saving
}

fn text(notice: &Option<Notice>) -> &str {
    &notice.as_ref().unwrap().text
}

#[test]
fn a_written_note_reads_back() {
    let text = "# Über\n\n日本語 😀\r\n---\n";
    match load_note(FileRead::Bytes(text.as_bytes().to_vec())) {
        LoadOutcome::Loaded(note) => assert_eq!(note.text(), text),
        other => panic!("{other:?}"),
    }
}

#[test]
fn bytes_that_are_not_text_are_replaced() {
    match load_note(FileRead::Bytes(vec![b'a', 0xff, b'b', 0xe6, 0x97])) {
        LoadOutcome::Lossy(note) => assert_eq!(note.text(), "a\u{fffd}b\u{fffd}"),
        other => panic!("{other:?}"),
    }
}

#[test]
fn a_failed_read_keeps_its_message() {
    match load_note(FileRead::Failed { message: "denied".to_string() }) {
        LoadOutcome::IoError { message } => assert_eq!(message, "denied"),
        other => panic!("{other:?}"),
    }
}

#[test]
fn a_first_launch_welcomes() {
    let o = open(None, LoadOutcome::Missing, 0);
    assert_eq!(o.note.text(), WELCOME);
    assert!(o.saving.allow_autosave);
    assert!(!o.saving.note_on_disk);
    assert!(o.saving.notice.is_none());
}

#[test]
fn a_refused_load_is_never_written_over() {
    for read in [
        load_note(FileRead::Bytes(vec![0xff])),
        load_note(FileRead::Failed { message: "denied".to_string() }),
    ] {
        let mut s = open(None, read, 0).saving;
        assert!(!s.allow_autosave);
        assert!(s.notice.is_some());
        assert!(!s.save_soon(false, false));
        assert!(!s.saving);
        // An edit asks for saving, and says so.
        s.touch(9);
        assert!(s.save_soon(false, false));
        assert_eq!(text(&s.notice), "Editing enabled save (previous file was not overwritten).");
    }
}

#[test]
fn a_missing_folder_is_not_filled() {
    let mut s = open(Some("/Volumes/Gone".to_string()), LoadOutcome::Missing, 0).saving;
    assert!(!s.save_soon(false, false));
    assert!(text(&s.notice).contains("/Volumes/Gone"));
}

#[test]
fn typing_settles_before_it_is_written() {
    let mut s = saving();
    s.touch(1000);
    assert!(!s.save_due(false, 1000 + AUTOSAVE_DEBOUNCE - 1));
    assert!(s.save_due(false, 1000 + AUTOSAVE_DEBOUNCE));
    assert!(!s.save_due(true, 1000 + AUTOSAVE_DEBOUNCE));
    assert!(!has_settled(None, 0, 5));
    // A clock that went back has not moved on.
    assert!(!has_settled(Some(10), 5, 3));
}

#[test]
fn writes_never_overtake_each_other() {
    let mut s = saving();
    s.touch(1);
    assert!(s.save_soon(false, false));
    assert!(!s.save_soon(false, false));
    // Typing while the write is out is owed another one.
    s.touch(2);
    s.finish_save(true, None, true, 3);
    assert_eq!(s.dirty_since, Some(2));
    assert!(s.save_soon(false, false));
    s.finish_save(true, None, false, 4);
    assert_eq!(s.dirty_since, None);
    assert!(s.note_on_disk);
}

#[test]
fn a_failed_write_is_tried_again() {
    let mut s = saving();
    s.touch(1);
    assert!(s.save_soon(false, false));
    s.finish_save(false, Some("disk full".to_string()), true, 2);
    assert_eq!(text(&s.notice), "Save failed: disk full");
    assert_eq!(s.dirty_since, Some(1));
    // The write that works answers the alert.
    assert!(s.save_soon(false, false));
    s.finish_save(true, None, false, 3);
    assert!(s.notice.is_none());
}

#[test]
fn text_on_disk_already_owes_no_write() {
    let mut s = saving();
    s.touch(1);
    assert!(!s.save_soon(false, true));
    assert_eq!(s.dirty_since, None);
    // A file that changed since is not written over.
    s.touch(2);
    assert!(!s.save_soon(true, false));
    assert_eq!(s.dirty_since, Some(2));
}

#[test]
fn remarks_fade_and_alerts_stay() {
    let remark = Notice::remark("hi".to_string(), 10);
    assert!(!remark.expired(10 + NOTICE_LINGER - 1));
    assert!(remark.expired(10 + NOTICE_LINGER));
    let alert = Notice::alert("no".to_string(), 10);
    assert!(!alert.expired(u64::MAX));
    assert!(alert.dismissable());
    assert!(!Notice::sticky("paused".to_string(), 10).dismissable());
    let mut s = saving();
    s.notice = Some(remark);
    assert!(!s.fade_notice(11));
    assert!(s.fade_notice(10 + NOTICE_LINGER));
    assert!(s.notice.is_none());
}

#[test]
fn the_file_is_looked_at_on_its_own_clock() {
    let mut s = saving();
    s.note_on_disk = true;
    assert!(s.should_look(false, 5));
    assert!(!s.should_look(false, 5 + DISK_CHECK - 1));
    assert!(s.should_look(true, 6));
    assert!(s.should_look(false, 6 + DISK_CHECK));
    s.note_on_disk = false;
    assert!(!s.should_look(true, 99999));
}

#[test]
fn a_conflict_that_cannot_be_kept_blocks_saving() {
    let mut s = saving();
    s.note_on_disk = true;
    s.touch(1);
    let stamp = Stamp { modified: 7, len: 3 };
    assert!(matches!(s.look(Some(stamp)), Looked::Changed));
    assert!(matches!(s.resolve(DiskCopy::Different, true), Resolve::BackUp));
    assert!(s.backed_up(false, stamp, 2));
    assert!(s.notice.as_ref().unwrap().sticky);
    s.touch(3);
    assert!(s.should_look(false, 4));
    assert!(matches!(s.look(Some(stamp)), Looked::Blocked));
    // Kept at last: the edits may be written.
    assert!(!s.backed_up(true, stamp, 5));
    assert!(!s.notice.as_ref().unwrap().sticky);
    // Another change is looked at afresh.
    assert!(matches!(s.look(Some(Stamp { modified: 8, len: 3 })), Looked::Changed));
    assert!(matches!(s.look(None), Looked::Clear));
}

#[test]
fn the_disk_copy_is_taken_when_nothing_is_unsaved() {
    let mut s = saving();
    s.touch(1);
    assert!(matches!(s.resolve(DiskCopy::Unreadable, true), Resolve::Restamp));
    assert!(matches!(s.resolve(DiskCopy::Different, false), Resolve::Reload));
    assert!(matches!(s.resolve(DiskCopy::Same, true), Resolve::Adopt));
    assert_eq!(s.dirty_since, None);
}

#[test]
fn a_tick_fades_searches_looks_and_saves() {
    let o = open(None, LoadOutcome::Loaded(Note::from_text("a")), 0);
    let mut app = NoteApp::new(o.note, o.saving, 1);
    app.saving.note_on_disk = true;
    app.open_find("");
    app.close_find("");
    app.replace_text_in_range(None, "b", 1000);
    app.saving.notice = Some(Notice::remark("hi".to_string(), 1000));
    app.find.dirty_since = Some(1000);
    let p = app.tick(1000 + FIND_DEBOUNCE - 1);
    assert!(!p.faded && !p.search && p.look);
    assert_eq!(app.tock(false, false, false, 1000 + FIND_DEBOUNCE), (false, true));
    let p = app.tick(1000 + NOTICE_LINGER);
    assert!(p.faded && p.search && p.look);
    assert_eq!(app.tock(true, false, false, 1000 + NOTICE_LINGER), (false, true));
    assert_eq!(app.tock(false, false, false, 1000 + NOTICE_LINGER), (true, true));
    // One write is out: no tick starts another.
    assert_eq!(app.tock(false, false, false, 9000), (false, true));
}
