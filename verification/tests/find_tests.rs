use gravitynote::app::find::{update_match_rail, Step};
use gravitynote::app::panels::{field_view, FieldView, KeyContext};
use gravitynote::app::{Holder, NoteApp};
use gravitynote::note::store::{load_note, FileRead};
use gravitynote::session::{open, Notice, FIND_DEBOUNCE};
use gravitynote::shortcuts::Modifiers;

fn editor(text: &str, caret: usize) -> NoteApp {
    let read = load_note(FileRead::Bytes(text.as_bytes().to_vec()));
    let opened = open(None, read, 0);
    NoteApp::new(opened.note, opened.saving, caret)
}

fn names() -> Vec<&'static str> {
    vec!["New Note", "Find…", "Find Next", "Bring Note Up", "Duplicate Lines"]
}

#[test]
fn find_offers_the_selection_then_the_last_query() {
    let mut app = editor("one two", 0);
    app.set_selection(4, 7);
    assert_eq!(app.open_find(""), ("two".to_string(), 4));
    assert!(app.find.open && app.find.focused);
    // An open bar keeps its query.
    assert_eq!(app.open_find("tw").0, "tw");
    app.close_find("tw");
    app.move_to(0);
    assert_eq!(app.open_find("").0, "tw");
    // A selection of several lines is no query.
    let mut app = editor("a\nb", 0);
    app.set_selection(0, 3);
    assert_eq!(app.open_find("").0, "");
}

#[test]
fn escape_returns_the_caret() {
    let mut app = editor("one two", 2);
    app.extend_selection(1);
    app.open_find("");
    app.jump_to_match(Some((4, 7)));
    assert_eq!(app.selection(), (4, 7, false));
    app.close_find("two");
    assert_eq!(app.selection(), (1, 2, true));
    assert!(!app.find.open && !app.find.focused);
    assert_eq!(app.find.last_query, "two");
}

#[test]
fn escape_puts_the_most_transient_thing_away_first() {
    let mut app = editor("one", 0);
    app.open_find("");
    app.panels.context_menu = true;
    app.close_find("");
    assert!(!app.panels.context_menu);
    assert!(app.find.open);
    app.close_find("");
    assert!(!app.find.open);
}

#[test]
fn a_query_has_the_keyboard_while_the_bar_is_focused() {
    let mut app = editor("one", 0);
    app.open_find("");
    assert!(matches!(app.keyboard(), Holder::Query));
    assert!(app.replace_text_in_range(None, "x", 0).is_none());
    assert_eq!(app.text(), "one");
    assert!(app.find.search_pending);
    let generation = app.find.search_gen;
    assert!(app.search_is_due(generation));
    app.replace_text_in_range(None, "y", 0);
    // Only the latest timer may run.
    assert!(!app.search_is_due(generation));
    app.blur_find();
    assert!(app.replace_text_in_range(None, "x", 0).is_some());
    app.focus_find();
    assert!(app.find.focused);
}

#[test]
fn an_unsettled_search_lands_before_it_steps() {
    let mut app = editor("one", 0);
    assert!(matches!(app.step_find(), Step::Nothing));
    app.open_find("");
    app.replace_text_in_range(None, "o", 0);
    assert!(matches!(app.step_find(), Step::Search));
    assert!(matches!(app.step_find(), Step::Go));
}

#[test]
fn an_edit_under_the_bar_is_searched_once_it_settles() {
    let mut app = editor("one", 0);
    app.open_find("");
    app.blur_find();
    app.replace_text_in_range(None, "x", 500);
    assert!(!app.find_due(500 + FIND_DEBOUNCE - 1));
    assert!(app.find_due(500 + FIND_DEBOUNCE));
    assert!(!app.find_due(500 + FIND_DEBOUNCE));
}

#[test]
fn searching_can_be_kept_to_the_note() {
    let mut app = editor("a\n---\nbb\n---\nc", 7);
    assert_eq!(app.find_scope(), None);
    app.open_find("");
    app.toggle_note_scope();
    assert_eq!(app.find_scope(), Some((6, 8)));
    app.toggle_note_scope();
    assert_eq!(app.find_scope(), None);
}

#[test]
fn the_selection_becomes_the_query_without_the_keyboard() {
    let mut app = editor("one two", 0);
    assert_eq!(app.use_selection_for_find("one").as_deref(), Some("one"));
    assert!(app.find.open && !app.find.focused);
    app.set_selection(4, 7);
    assert_eq!(app.use_selection_for_find("one").as_deref(), Some("two"));
    app.move_to(0);
    assert_eq!(app.use_selection_for_find("  "), None);
}

#[test]
fn the_replace_field_opens_the_bar() {
    let mut app = editor("one two", 0);
    app.set_selection(0, 3);
    assert_eq!(app.toggle_replace(), Some(("one".to_string(), 0)));
    assert!(app.find.open && app.find.focused);
    app.blur_find();
    assert_eq!(app.toggle_replace(), None);
    assert!(app.find.focused);
}

#[test]
fn one_match_is_replaced_in_a_step_of_its_own() {
    let mut app = editor("one two one", 0);
    app.open_find("");
    let edit = app.replace_and_find(4, 7, "2", 0);
    assert_eq!(app.text(), "one 2 one");
    assert_eq!(app.selection(), (5, 5, false));
    assert!(!edit.joins);
}

#[test]
fn every_match_is_replaced_in_one_step() {
    let mut app = editor("a-a-a", 5);
    app.open_find("");
    let edits = app.replace_all(&vec![(0, 1), (2, 3), (4, 5)], "bb", 0);
    assert_eq!(app.text(), "bb-bb-bb");
    assert_eq!(edits.len(), 3);
    // The last match first, all of them one undo step.
    assert_eq!(edits[0].start, 4);
    assert!(!edits[0].joins && edits[1].joins && edits[2].joins);
    assert_eq!(app.saving.notice.as_ref().unwrap().text, "Replaced 3 occurrences");
    let mut app = editor("a", 0);
    app.replace_all(&vec![(0, 1)], "b", 0);
    assert_eq!(app.saving.notice.as_ref().unwrap().text, "Replaced 1 occurrence");
}

#[test]
fn the_rail_marks_the_first_match_of_each_bucket() {
    let ticks = update_match_rail(&vec![0, 0, 5, 899, 899], Some(899));
    let seen: Vec<(usize, usize, bool)> =
        ticks.iter().map(|t| (t.bucket, t.match_index, t.current)).collect();
    assert_eq!(seen, vec![(0, 0, false), (5, 2, false), (899, 3, true)]);
    assert!(update_match_rail(&vec![], None).is_empty());
}

#[test]
fn panels_do_not_stack() {
    let mut app = editor("one", 0);
    app.open_find("");
    app.open_settings("q");
    assert!(app.panels.settings_open && !app.find.open);
    assert!(matches!(app.key_context(), KeyContext::Settings));
    app.toggle_recording();
    assert!(app.panels.recording_shortcut);
    assert!(app.open_backups("q"));
    assert!(app.panels.backups_open && !app.panels.settings_open);
    assert!(!app.panels.recording_shortcut);
    app.open_palette("q");
    assert!(app.panels.palette.is_some());
    assert!(!app.panels.backups_open && !app.panels.settings_open);
    assert!(matches!(app.key_context(), KeyContext::Palette));
    app.open_palette("q");
    assert!(app.panels.palette.is_none());
    assert!(matches!(app.key_context(), KeyContext::Note));
    app.open_find("");
    assert!(matches!(app.key_context(), KeyContext::Find));
}

#[test]
fn the_palette_filters_as_you_type() {
    let mut app = editor("one", 0);
    app.open_palette("");
    app.replace_text_in_range(None, "fnd", 0);
    assert_eq!(app.text(), "one");
    let rows = app.palette_view(&names());
    let seen: Vec<(usize, bool)> = rows.iter().map(|r| (r.command, r.chosen)).collect();
    assert_eq!(seen, vec![(1, true), (2, false)]);
    app.palette_step(true, &names());
    assert_eq!(app.palette_run(&names()), Some(2));
    assert!(app.panels.palette.is_none());
    // Nothing to run when nothing matches.
    app.open_palette("");
    app.replace_text_in_range(None, "zzz", 0);
    assert_eq!(app.palette_run(&names()), None);
}

#[test]
fn the_find_bar_shows_what_can_be_done() {
    let mut app = editor("one", 0);
    app.open_find("");
    let v = app.find_view(true, 0, false, false, false);
    assert!(v.no_matches && v.has_query && v.query_caret && !v.replace_caret);
    assert!(!v.can_replace && !v.can_replace_all);
    let v = app.find_view(true, 3, false, true, true);
    assert!(!v.no_matches && !v.query_caret && v.replace_caret);
    assert!(v.can_replace && v.can_replace_all);
    app.blur_find();
    assert!(!app.find_view(true, 3, false, true, true).replace_caret);
    assert!(matches!(field_view(true, 0, None, true), FieldView::Empty { caret: true }));
    assert!(matches!(field_view(false, 2, Some((1, 3)), true), FieldView::Selected { from: 1, to: 3 }));
    assert!(matches!(field_view(false, 2, None, true), FieldView::Caret { at: 2 }));
    assert!(matches!(field_view(false, 2, None, false), FieldView::Plain));
}

#[test]
fn recording_a_shortcut_ends_with_any_real_key() {
    let mut app = editor("one", 0);
    app.open_settings("");
    app.toggle_recording();
    let held = |cmd: bool| Modifiers { cmd, ctrl: false, alt: false, shift: false };
    assert!(app.record_shortcut("cmd", held(true), "⌘", true, 0).is_none());
    assert!(app.panels.recording_shortcut);
    assert!(app.record_shortcut("k", held(false), "K", true, 0).is_none());
    assert!(!app.panels.recording_shortcut);
    assert!(app.saving.notice.as_ref().unwrap().alert);
    app.toggle_recording();
    let (taken, notice) = app.record_shortcut("K", held(true), "⌘K", true, 0).unwrap();
    assert_eq!(taken.key, "k");
    assert!(taken.cmd && !taken.ctrl && !taken.alt && !taken.shift);
    assert!(notice.is_none());
    // A chord is judged by its key in small letters.
    app.toggle_recording();
    let (taken, notice) = app.record_shortcut("Q", held(true), "⌘Q", true, 0).unwrap();
    assert_eq!(taken.key, "q");
    assert!(notice.is_some());
}

#[test]
fn only_an_alert_that_does_not_stick_is_waved_away() {
    let mut app = editor("one", 0);
    app.show_help(0);
    assert!(app.saving.notice.is_some());
    app.dismiss_notice();
    assert!(app.saving.notice.is_some());
    app.say(Notice::sticky("paused".to_string(), 0));
    app.dismiss_notice();
    assert!(app.saving.notice.is_some());
    app.say(Notice::alert("failed".to_string(), 0));
    app.dismiss_notice();
    assert!(app.saving.notice.is_none());
}

#[test]
fn replacing_every_match_can_be_taken_back() {
    let text = "one two one\n---\none";
    let mut app = editor(text, 3);
    let edits = app.replace_all(&vec![(0, 3), (8, 11), (16, 19)], "1", 0);
    assert_eq!(app.text(), "1 two 1\n---\n1");
    let mut undone = app.text().to_string();
    for edit in edits.iter().rev() {
        undone.replace_range(edit.start..edit.start + edit.inserted.len(), &edit.removed);
    }
    assert_eq!(undone, text);
}
