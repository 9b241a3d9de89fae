use gravitynote::app::clipboard::{dropped_text, look_up, unify_newlines};
use gravitynote::app::images::Reference;
use gravitynote::app::mouse::{DragGranularity, Press};
use gravitynote::app::{Edit, Holder, NoteApp};
use gravitynote::note::store::{load_note, FileRead};
use gravitynote::note::Note;
use gravitynote::reports::Backup;
use gravitynote::session::open;

/// An editor on `text` with the caret at `caret`, nothing else open.
fn editor(text: &str, caret: usize) -> NoteApp {
    let read = load_note(FileRead::Bytes(text.as_bytes().to_vec()));
    let opened = open(None, read, 0);
    NoteApp::new(opened.note, opened.saving, caret)
}

/// The same with `from..to` selected.
fn selecting(text: &str, from: usize, to: usize) -> NoteApp {
    let mut app = editor(text, from);
    app.set_selection(from, to);
    app
}

/// Take `edit` back.
fn undone(after: &str, edit: &Edit) -> String {
    let mut text = after.to_string();
    text.replace_range(edit.start..edit.start + edit.inserted.len(), &edit.removed);
    text
}

#[test]
fn typing_goes_in_at_the_caret() {
    let mut app = editor("ab", 1);
    let edit = app.replace_text_in_range(None, "é", 7).unwrap();
    assert_eq!(app.text(), "aéb");
    assert_eq!(app.selection(), (3, 3, false));
    assert_eq!((edit.start, edit.removed.as_str(), edit.inserted.as_str()), (1, "", "é"));
    assert_eq!((edit.before, edit.after), ((1, 1), (3, 3)));
    assert!(!edit.joins);
    assert_eq!(app.saving.dirty_since, Some(7));
    assert_eq!(app.revision(), 1);
    // The next keystroke goes on with the same undo group, a caret move ends it.
    assert!(app.replace_text_in_range(None, "c", 8).unwrap().joins);
    app.move_to(0);
    assert!(!app.replace_text_in_range(None, "d", 9).unwrap().joins);
    assert_eq!(app.text(), "daécb");
}

#[test]
fn typing_replaces_the_selection() {
    let mut app = selecting("one two", 4, 7);
    app.replace_text_in_range(None, "2", 0);
    assert_eq!(app.text(), "one 2");
    assert_eq!(app.selection(), (5, 5, false));
}

#[test]
fn a_typed_range_is_counted_in_utf16() {
    // "😀" is two UTF-16 units and four bytes.
    let mut app = editor("😀ab", 0);
    app.replace_text_in_range(Some((2, 3)), "X", 0);
    assert_eq!(app.text(), "😀Xb");
    assert_eq!(app.range_to_utf16(4, 5), (2, 3));
    assert_eq!(app.range_from_utf16(2, 3), (4, 5));
    assert_eq!(app.text_for_range(0, 2), ("😀".to_string(), (0, 2)));
    assert_eq!(app.selected_text_range(), ((3, 3), false));
}

#[test]
fn every_edit_can_be_taken_back() {
    let text = "one\ntwo\nthree\n---\nfour";
    let mut app = selecting(text, 2, 9);
    let edit = app.replace_text_in_range(None, "X\nY\nZ", 0).unwrap();
    assert_eq!(undone(app.text(), &edit), text);
    assert_eq!(edit.before, (2, 9));
    // Rows 0..3 gave way to three rows.
    assert_eq!(edit.rows, Some((0, 3, 3)));
    assert_eq!(app.line_count(), 5);
}

#[test]
fn rows_follow_the_lines() {
    let mut app = editor("a\nb\nc", 3);
    let edit = app.replace_text_in_range(None, "\n", 0).unwrap();
    assert_eq!(edit.rows, Some((1, 2, 2)));
    assert_eq!(app.line_count(), 4);
}

#[test]
fn composition_marks_what_it_inserts() {
    let mut app = editor("ab", 1);
    app.replace_and_mark_text_in_range(None, "にほ", Some((1, 1)), 0);
    assert_eq!(app.text(), "aにほb");
    assert_eq!(app.marked(), Some((1, 7)));
    assert_eq!(app.selection(), (4, 4, false));
    // The next composition replaces the marked text.
    app.replace_and_mark_text_in_range(None, "日", None, 0);
    assert_eq!(app.text(), "a日b");
    assert_eq!(app.marked(), Some((1, 4)));
    app.unmark_text();
    assert_eq!(app.marked(), None);
}

#[test]
fn a_composition_takes_the_selection_as_it_is_given() {
    let mut app = editor("ab", 1);
    app.replace_and_mark_text_in_range(None, "にほん", Some((2, 1)), 0);
    assert_eq!(app.selection(), (7, 4, false));
    // With its ends the other way round nothing is selected.
    assert_eq!(app.selected_text_safe(), None);
    assert_eq!(app.selected_text_range(), ((3, 2), false));
    assert_eq!(app.cursor_offset(), 4);
    assert_eq!(app.selected_lines(), (0, 0));
    app.open_line(0);
    assert_eq!(app.text(), "a\nb");
    // Across lines, the lines are out of order too.
    let mut app = editor("ab", 1);
    app.replace_and_mark_text_in_range(None, "x\ny", Some((3, 0)), 0);
    assert_eq!(app.selection(), (4, 1, false));
    assert_eq!(app.selected_lines(), (1, 0));
    // A move of the far end puts the two in order.
    app.extend_selection(0);
    assert_eq!(app.selection(), (0, 4, true));
}

#[test]
fn line_commands_work_from_a_caret_given_backwards() {
    let mut app = editor("one\n\nthree", 4);
    app.replace_and_mark_text_in_range(None, "two", Some((3, 1)), 0);
    assert_eq!(app.selection(), (7, 5, false));
    app.move_lines(true, 0);
    assert_eq!(app.text(), "one\nthree\ntwo");
    assert_eq!(app.selection(), (13, 13, false));
}

#[test]
fn a_new_note_ends_the_composition() {
    let mut app = editor("ab", 1);
    app.replace_and_mark_text_in_range(None, "x", None, 0);
    assert_eq!(app.marked(), Some((1, 2)));
    app.new_note(0);
    assert_eq!(app.text(), "\n---\naxb");
    assert_eq!(app.marked(), None);
}

#[test]
fn a_panel_guards_the_note() {
    let text = "one\ntwo";
    let mut app = editor(text, 2);
    app.open_settings("");
    assert!(app.modal_open());
    assert!(matches!(app.keyboard(), Holder::Panel));
    assert!(app.replace_text_in_range(None, "x", 0).is_none());
    assert!(app.paste("x", 0).is_none());
    assert!(app.new_note(0).is_none());
    assert!(app.move_lines(true, 0).is_none());
    assert!(app.duplicate_lines(0).is_none());
    assert!(app.backspace(1, 0).is_none());
    assert!(app.cut(0).is_none());
    assert!(app.copy().is_none());
    assert_eq!(app.text(), text);
    app.close_settings();
    assert!(app.replace_text_in_range(None, "x", 0).is_some());
}

#[test]
fn arrows_collapse_a_selection_first() {
    let mut app = selecting("one two", 1, 5);
    app.left(0);
    assert_eq!(app.selection(), (1, 1, false));
    app.left(0);
    assert_eq!(app.selection(), (0, 0, false));
    let mut app = selecting("one two", 1, 5);
    app.right(6);
    assert_eq!(app.selection(), (5, 5, false));
    let app = selecting("one two", 1, 5);
    assert_eq!(app.word_from(false), 1);
    assert_eq!(app.word_from(true), 5);
}

#[test]
fn extending_turns_round_at_the_anchor() {
    let mut app = editor("abcdef", 3);
    app.extend_selection(5);
    assert_eq!(app.selection(), (3, 5, false));
    assert_eq!(app.cursor_offset(), 5);
    app.extend_selection(1);
    assert_eq!(app.selection(), (1, 3, true));
    assert_eq!(app.cursor_offset(), 1);
}

#[test]
fn the_caret_never_lands_inside_a_character() {
    let mut app = editor("aéb", 0);
    app.move_to(2);
    assert_eq!(app.cursor_offset(), 1);
    app.move_to(99);
    assert_eq!(app.cursor_offset(), 4);
}

#[test]
fn select_all_takes_the_whole_note() {
    let mut app = editor("one\ntwo", 2);
    assert!(matches!(app.select_all(), Holder::Note));
    assert_eq!(app.selection(), (0, 7, false));
}

#[test]
fn paragraphs_are_stepped_over() {
    let text = "a\nb\n\n\nc\nd";
    let app = editor(text, 0);
    assert_eq!(app.paragraph_target(true), 6);
    let app = editor(text, 6);
    assert_eq!(app.paragraph_target(true), 9);
    assert_eq!(app.paragraph_target(false), 0);
    let app = editor(text, 8);
    assert_eq!(app.paragraph_target(false), 6);
}

#[test]
fn the_window_keeps_lines_around_the_caret() {
    let app = editor("0\n1\n2\n3\n4\n5\n6\n7\n8\n9", 10);
    assert_eq!(app.lines_around_caret(2), (7, 3));
    assert_eq!(app.lines_around_caret(30), (9, 0));
    assert_eq!(app.center_caret(4), (7, 3));
    assert_eq!(app.center_caret(0), (6, 4));
    assert_eq!(app.kept_line(4), 4);
    assert_eq!(app.kept_line(99), 9);
}

#[test]
fn moving_lines_changes_only_their_order() {
    let mut app = editor("a\nbb\nc", 0);
    let edit = app.move_lines(true, 0).unwrap();
    assert_eq!(app.text(), "bb\na\nc");
    assert_eq!(app.selection(), (3, 3, false));
    assert_eq!(undone(app.text(), &edit), "a\nbb\nc");
    app.move_lines(false, 0);
    assert_eq!(app.text(), "a\nbb\nc");
    assert!(app.move_lines(false, 0).is_none());
    // A selection travels with its lines.
    let mut app = selecting("a\nb\nc", 0, 3);
    app.move_lines(true, 0);
    assert_eq!(app.text(), "c\na\nb");
    assert_eq!(app.selection(), (2, 5, false));
}

#[test]
fn identical_lines_let_the_caret_travel() {
    let mut app = editor("ab\nab", 1);
    assert!(app.move_lines(true, 0).is_none());
    assert_eq!(app.text(), "ab\nab");
    assert_eq!(app.selection(), (4, 4, false));
}

#[test]
fn a_rule_does_not_move_and_is_not_copied() {
    let mut app = editor("a\n---\nb", 3);
    assert!(app.is_rule_line(1));
    assert!(app.move_lines(true, 0).is_none());
    assert!(app.duplicate_lines(0).is_none());
    assert_eq!(app.text(), "a\n---\nb");
}

#[test]
fn duplicating_copies_below() {
    let mut app = editor("a\nb", 0);
    app.duplicate_lines(0);
    assert_eq!(app.text(), "a\na\nb");
    // With a selection, the copy is left selected.
    let mut app = selecting("a\nb\nc", 0, 3);
    app.duplicate_lines(0);
    assert_eq!(app.text(), "a\nb\na\nb\nc");
    assert_eq!(app.selection(), (4, 7, false));
}

#[test]
fn rewriting_lines_keeps_the_caret_on_its_character() {
    let mut app = editor("one\ntwo", 5);
    app.transform_lines(&vec!["- two".to_string()], 0);
    assert_eq!(app.text(), "one\n- two");
    assert_eq!(app.selection(), (7, 7, false));
    let mut app = selecting("one\ntwo", 1, 7);
    app.transform_lines(&vec!["1".to_string(), "22".to_string()], 0);
    assert_eq!(app.text(), "1\n22");
    assert_eq!(app.selection(), (0, 4, false));
    // Nothing changed: no edit.
    let mut app = editor("one", 1);
    assert!(app.transform_lines(&vec!["one".to_string()], 0).is_none());
}

#[test]
fn outdenting_takes_a_level_off() {
    let mut app = editor("    a", 5);
    app.outdent(0);
    assert_eq!(app.text(), "  a");
    assert_eq!(app.selection(), (3, 3, false));
}

#[test]
fn enter_carries_a_list_on() {
    let mut app = editor("- a", 3);
    app.enter(0);
    assert_eq!(app.text(), "- a\n- ");
    // An empty item at the margin leaves the list.
    app.enter(0);
    assert_eq!(app.text(), "- a\n");
    assert_eq!(app.selection(), (4, 4, false));
    app.enter(0);
    assert_eq!(app.text(), "- a\n\n");
}

#[test]
fn enter_steps_out_of_a_nested_item() {
    let mut app = editor("- a\n  - ", 8);
    app.enter(0);
    assert_eq!(app.text(), "- a\n- ");
    assert_eq!(app.selection(), (6, 6, false));
}

#[test]
fn enter_inside_a_fence_is_a_line_break() {
    let mut app = editor("```\n- a", 7);
    app.enter(0);
    assert_eq!(app.text(), "```\n- a\n");
}

#[test]
fn a_line_is_opened_below_the_caret() {
    let mut app = editor("ab", 1);
    app.open_line(0);
    assert_eq!(app.text(), "a\nb");
    assert_eq!(app.selection(), (1, 1, false));
}

#[test]
fn transposing_swaps_around_the_caret() {
    let mut app = editor("x\nab", 3);
    app.transpose((0, 2), "ba", 0);
    assert_eq!(app.text(), "x\nba");
    assert_eq!(app.selection(), (4, 4, false));
}

#[test]
fn tab_indents_from_the_lines_head_only() {
    assert!(editor("  plain", 1).indents_line());
    assert!(editor("  plain", 2).indents_line());
    assert!(!editor("  plain", 3).indents_line());
    assert!(editor("x\n\ny", 2).indents_line());
    let mut app = editor("plain", 3);
    app.indent(&vec!["  plain".to_string()], 0);
    assert_eq!(app.text(), "pla  in");
    let mut app = editor("plain", 0);
    app.indent(&vec!["  plain".to_string()], 0);
    assert_eq!(app.text(), "  plain");
}

#[test]
fn backspace_takes_what_is_before_the_caret() {
    let mut app = editor("aé", 3);
    app.backspace(1, 0);
    assert_eq!(app.text(), "a");
    let mut app = selecting("one two", 3, 7);
    app.backspace(2, 0);
    assert_eq!(app.text(), "one");
}

#[test]
fn backspace_at_a_notes_start_takes_the_rule() {
    let mut app = editor("a\n---\nb", 6);
    let edit = app.backspace(5, 0).unwrap();
    assert_eq!(app.text(), "a\nb");
    // Undo hands back a caret, not a selected rule.
    assert_eq!(edit.before.0, edit.before.1);
}

#[test]
fn forward_delete_at_a_notes_end_takes_the_rule() {
    let mut app = editor("a\n---\nb", 1);
    app.delete_key(2, 0);
    assert_eq!(app.text(), "a\nb");
}

#[test]
fn a_word_delete_stops_at_a_rule() {
    let mut app = editor("one\n---\ntwo", 11);
    app.delete_word_back((2, 11), 0);
    assert_eq!(app.text(), "one\n---\n");
    let mut app = editor("one\n---\ntwo", 0);
    app.delete_word_forward((0, 10), 0);
    assert_eq!(app.text(), "\n---\ntwo");
}

#[test]
fn what_is_killed_can_be_yanked() {
    let mut app = editor("one two", 3);
    app.kill_to_end(7, 4, 0);
    assert_eq!(app.text(), "one");
    app.yank(0);
    assert_eq!(app.text(), "one two");
    // At the end of a line, the line break goes — but not across a rule.
    let mut app = editor("a\nb", 1);
    app.kill_to_end(1, 2, 0);
    assert_eq!(app.text(), "ab");
    let mut app = editor("a\n---\nb", 1);
    app.kill_to_end(1, 2, 0);
    assert_eq!(app.text(), "a\n---\nb");
}

#[test]
fn deleting_to_the_row_start() {
    let mut app = editor("one\ntwo", 6);
    app.delete_to_line_start(4, (3, 6), 0);
    assert_eq!(app.text(), "one\no");
    // At the row's start, the line's own range is taken.
    let mut app = editor("one\ntwo", 4);
    app.delete_to_line_start(4, (3, 4), 0);
    assert_eq!(app.text(), "onetwo");
}

#[test]
fn cut_and_paste_put_the_text_back() {
    let mut app = selecting("one two", 4, 7);
    let (clip, edit) = app.cut(0).unwrap();
    assert_eq!(clip, "two");
    assert_eq!(app.text(), "one ");
    assert_eq!(edit.removed, "two");
    app.paste(&clip, 0);
    assert_eq!(app.text(), "one two");
}

#[test]
fn copy_and_cut_without_a_selection_take_the_line() {
    let mut app = editor("one\ntwo\nthree", 5);
    assert_eq!(app.copy().as_deref(), Some("two\n"));
    assert_eq!(app.cut(0).unwrap().0, "two\n");
    assert_eq!(app.text(), "one\nthree");
    let mut app = editor("a\n---\nb", 3);
    assert_eq!(app.copy(), None);
    assert!(app.cut(0).is_none());
    let app = editor("", 0);
    assert_eq!(app.copy(), None);
}

#[test]
fn pasted_line_breaks_are_unified() {
    assert_eq!(unify_newlines("a\r\nb\rc\n\r\n"), "a\nb\nc\n\n");
    let mut app = editor("", 0);
    app.paste("a\r\nb", 0);
    assert_eq!(app.text(), "a\nb");
}

#[test]
fn an_address_pasted_over_words_makes_a_link() {
    let mut app = selecting("see docs here", 4, 8);
    app.paste(" https://x.org ", 0);
    assert_eq!(app.text(), "see [docs](https://x.org) here");
    // Not over text that is itself an address, nor over several lines.
    let mut app = selecting("http://a.b", 0, 10);
    app.paste("https://x.org", 0);
    assert_eq!(app.text(), "https://x.org");
    let mut app = selecting("a\nb", 0, 3);
    app.paste("https://x.org", 0);
    assert_eq!(app.text(), "https://x.org");
}

#[test]
fn a_query_is_one_line() {
    assert_eq!(NoteApp::pasted_query("one\ntwo"), "one");
    assert_eq!(NoteApp::pasted_query("one\r\ntwo"), "one");
    assert_eq!(NoteApp::pasted_query(""), "");
}

#[test]
fn files_drop_as_their_text() {
    assert_eq!(dropped_text(Some(5), Some(b"hello".to_vec()), "/a"), "hello");
    // What is not text, or too large, drops as its path.
    assert_eq!(dropped_text(Some(2), Some(vec![0xff, 0xfe]), "/a"), "/a");
    assert_eq!(dropped_text(Some(2097153), None, "/big"), "/big");
    assert_eq!(dropped_text(None, None, "/gone"), "/gone");
    let mut app = editor("ab", 1);
    app.drop_files(&vec!["x".to_string(), "y".to_string()], 0);
    assert_eq!(app.text(), "ax\ny\nb");
}

#[test]
fn looking_up_asks_the_dictionary() {
    assert_eq!(look_up("naïve word").as_deref(), Some("dict://naïve%20word"));
    assert_eq!(look_up("  "), None);
}

#[test]
fn a_new_note_goes_on_top() {
    let mut app = editor("one", 3);
    let edit = app.new_note(0).unwrap();
    assert_eq!(app.text(), "\n---\none");
    assert_eq!(app.selection(), (0, 0, false));
    assert_eq!((edit.start, edit.inserted.as_str()), (0, "\n---\n"));
    assert!(editor("", 0).new_note(0).is_none());
}

#[test]
fn notes_move_up() {
    let text = "a\n---\nb\n---\nc";
    let mut app = editor(text, 12);
    assert_eq!(app.current_note_range(), (12, 13));
    app.bring_note_up(0);
    assert_eq!(app.text(), "c\n---\na\n---\nb");
    assert_eq!(app.selection(), (0, 0, false));
    let mut app = editor(text, 12);
    app.move_note_up(0);
    assert_eq!(app.text(), "a\n---\nc\n---\nb");
    // The first note has nowhere to go.
    assert!(editor(text, 0).bring_note_up(0).is_none());
    let mut app = editor(text, 0);
    app.promote_block_below_separator(1, "", 0);
    assert_eq!(app.text(), "b\n---\na\n---\nc");
}

#[test]
fn a_reload_starts_at_the_top() {
    let mut app = editor("one two three", 12);
    app.replace_text_in_range(None, "!", 1);
    app.adopt_reloaded_note(Note::from_text("short"), 5);
    assert_eq!(app.text(), "short");
    assert_eq!(app.selection(), (0, 0, false));
    assert_eq!(app.saving.dirty_since, None);
    assert_eq!(
        app.saving.notice.as_ref().unwrap().text,
        "Reloaded — note.md changed on disk."
    );
}

#[test]
fn settling_in_a_folder_says_which_note_it_is() {
    let mut app = editor("mine", 0);
    app.settle_in_folder(None, "~/Notes", 3);
    assert_eq!(app.text(), "mine");
    assert_eq!(app.saving.dirty_since, Some(3));
    assert_eq!(app.saving.notice.as_ref().unwrap().text, "The note now lives in ~/Notes.");
    app.settle_in_folder(Some(Note::from_text("theirs")), "~/Other", 4);
    assert_eq!(app.text(), "theirs");
    assert_eq!(
        app.saving.notice.as_ref().unwrap().text,
        "Now using the note already in ~/Other."
    );
}

#[test]
fn history_puts_back_text_and_selection() {
    let mut app = editor("one two", 7);
    app.replace_text_in_range(None, "!", 0);
    app.after_history("one two", Some((7, "!".to_string(), String::new())), (2, 5), 9);
    assert_eq!(app.text(), "one two");
    assert_eq!(app.selection(), (2, 5, false));
    // A restored text that no edit describes rebuilds everything.
    app.after_history("x\ny\nz", None, (1, 1), 9);
    assert_eq!(app.line_count(), 3);
}

#[test]
fn a_click_places_the_caret_and_more_clicks_select() {
    let mut app = editor("one two", 0);
    let press = |clicks, shift, unit| Press { at: 5, clicks, shift, platform: false, unit };
    let done = app.on_mouse_down(press(1, false, None), "", 0);
    assert!(done.edit.is_none() && done.link.is_none());
    assert!(matches!(done.drag, Some(DragGranularity::Char)));
    assert_eq!(app.selection(), (5, 5, false));
    let done = app.on_mouse_down(press(2, false, Some((4, 7))), "", 0);
    assert!(matches!(done.drag, Some(DragGranularity::Word)));
    assert_eq!(app.selection(), (4, 7, false));
    app.move_to(1);
    app.on_mouse_down(press(1, true, None), "", 0);
    assert_eq!(app.selection(), (1, 5, false));
}

#[test]
fn a_command_click_opens_the_link_and_leaves_the_caret() {
    let text = "see [docs](x.org) now";
    let press = |at, platform| Press { at, clicks: 1, shift: false, platform, unit: None };
    let mut app = editor(text, 0);
    let done = app.on_mouse_down(press(6, true), "", 0);
    assert_eq!(done.link.as_deref(), Some("x.org"));
    assert!(done.edit.is_none() && done.drag.is_none());
    assert_eq!(app.selection(), (0, 0, false));
    // Without the modifier, or beside the link, a press places the caret.
    let done = app.on_mouse_down(press(6, false), "", 0);
    assert_eq!(done.link, None);
    assert_eq!(app.selection(), (6, 6, false));
    let done = app.on_mouse_down(press(1, true), "", 0);
    assert_eq!(done.link, None);
    assert_eq!(app.selection(), (1, 1, false));
    // Under a panel nothing opens.
    app.open_settings("");
    assert_eq!(app.on_mouse_down(press(6, true), "", 0).link, None);
}

#[test]
fn a_right_click_keeps_a_selection_it_hits() {
    let mut app = selecting("one two", 4, 7);
    app.on_right_mouse_down(5);
    assert_eq!(app.selection(), (4, 7, false));
    app.on_right_mouse_down(1);
    assert_eq!(app.selection(), (1, 1, false));
}

#[test]
fn a_click_on_a_box_ticks_it() {
    let mut app = editor("- [ ] a", 7);
    let edit = app.toggle_task_box_at(3, "- [x] a", 0);
    assert!(edit.is_some());
    assert_eq!(app.text(), "- [x] a");
    // A click past the box does not.
    assert!(app.toggle_task_box_at(6, "- [ ] a", 0).is_none());
}

#[test]
fn resizing_a_picture_rewrites_its_reference() {
    let line = "![cat](images/a.png)";
    let mut app = editor(line, 0);
    let found = Reference { alt: "cat".to_string(), name: "a.png".to_string(), size: None };
    app.rewrite_image_line(0, &found, Some((420, 263)), "images/", 0);
    assert_eq!(app.text(), "![cat|420x263](images/a.png)");
    // The words the reader wrote stay, the size goes.
    let found = Reference {
        alt: "cat|420x263".to_string(),
        name: "a.png".to_string(),
        size: Some((420, 263)),
    };
    app.rewrite_image_line(0, &found, None, "images/", 0);
    assert_eq!(app.text(), line);
}

#[test]
fn a_drag_resizes_only_what_it_took_hold_of() {
    let line = "![cat](images/a.png)";
    let mut app = editor(line, 0);
    let found = Some(Reference { alt: "cat".to_string(), name: "a.png".to_string(), size: None });
    assert!(app.end_image_drag(0, &found, "a.png", false, (9, 9), "images/", 0).is_none());
    assert!(app.end_image_drag(0, &found, "b.png", true, (9, 9), "images/", 0).is_none());
    assert!(app.end_image_drag(0, &None, "a.png", true, (9, 9), "images/", 0).is_none());
    assert_eq!(app.text(), line);
    app.end_image_drag(0, &found, "a.png", true, (9, 8), "images/", 0);
    assert_eq!(app.text(), "![cat|9x8](images/a.png)");
}

#[test]
fn imported_pictures_stand_on_lines_of_their_own() {
    let mut app = editor("ab", 1);
    app.insert_imported(vec![Some("![](images/x.png)".to_string())], 0);
    assert_eq!(app.text(), "a\n![](images/x.png)\nb");
    let mut app = editor("", 0);
    assert!(app.insert_imported(vec![None], 0).is_none());
    assert!(app.saving.notice.is_some());
}

#[test]
fn vertical_moves_start_at_the_near_edge() {
    let mut app = selecting("one two", 1, 5);
    app.collapse_for_vertical(false);
    assert_eq!(app.selection(), (1, 1, false));
    let mut app = selecting("one two", 1, 5);
    app.collapse_for_vertical(true);
    assert_eq!(app.selection(), (5, 5, false));
}

#[test]
fn a_drag_by_words_takes_whole_words() {
    let mut app = selecting("one two three", 4, 7);
    app.extend_selection_granular((0, 7), true);
    assert_eq!(app.selection(), (0, 7, true));
    assert_eq!(app.cursor_offset(), 0);
}

#[test]
fn a_restored_backup_says_where_the_note_went() {
    let mut app = editor("now", 0);
    app.panels.backups_open = true;
    assert!(!app.restore_backup(Err("gone".to_string()), Backup::Unchanged, "a.md", 2));
    assert_eq!(app.saving.notice.as_ref().unwrap().text, "Could not read that backup: gone");
    assert!(!app.panels.backups_open);
    let then = || Ok(Note::from_text("then"));
    assert!(!app.restore_backup(then(), Backup::Failed("full".to_string()), "a.md", 3));
    assert_eq!(app.text(), "now");
    assert!(app.restore_backup(then(), Backup::Made("b.md".to_string()), "a.md", 4));
    assert_eq!(app.text(), "then");
    assert_eq!(app.saving.dirty_since, Some(4));
    let said = &app.saving.notice.as_ref().unwrap().text;
    assert!(said.contains("a.md") && said.contains("b.md"));
}

#[test]
fn the_note_can_be_written_in_place() {
    let mut note = Note::from_text("a");
    note.text_mut().push('b');
    assert_eq!(note.text(), "ab");
    assert_eq!(note.len(), 2);
}

#[test]
fn enter_after_enter_reaches_the_margin() {
    for item in ["      - ", "\t  1. ", "   > ", "    - [ ] "] {
        let mut app = editor(item, item.len());
        let mut presses = 0;
        while !app.text().is_empty() {
            let before = app.text().len();
            app.enter(0);
            assert!(app.text().len() < before);
            presses += 1;
        }
        assert!(presses >= 2);
    }
}

#[test]
fn a_move_up_undoes_a_move_down_unless_the_line_became_a_rule() {
    let mut app = editor("a\nb\nc", 2);
    app.move_lines(true, 0);
    assert_eq!(app.text(), "a\nc\nb");
    app.move_lines(false, 0);
    assert_eq!(app.text(), "a\nb\nc");
    // Out of its fence the line divides two notes, and a rule does not move.
    let mut app = editor("```\n---\n```", 5);
    app.move_lines(true, 0);
    assert_eq!(app.text(), "```\n```\n---");
    assert!(app.move_lines(false, 0).is_none());
}
