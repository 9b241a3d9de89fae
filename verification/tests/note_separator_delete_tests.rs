use gravitynote::fences::FenceMap;
use gravitynote::index::LineIndex;
use gravitynote::note::{
    boundary_lines, clamp_within_note, clamp_within_note_forward, separator_after, separator_before,
};

fn at(text: &str, offset: usize) -> (LineIndex, usize) {
    (LineIndex::new(text), offset)
}

fn fences_for(text: &str, index: &LineIndex) -> FenceMap {
    FenceMap::new(text, index)
}

#[test]
fn backspace_at_a_notes_start_takes_the_whole_rule() {
    let text = "first note\n---\nsecond note";
    let (index, caret) = at(text, 15); // start of "second note"
    let fences = fences_for(text, &index);
    let rule = separator_before(text, &index, &fences, caret).expect("a rule above");
    let mut merged = text.to_string();
    merged.replace_range(rule, "");
    assert_eq!(merged, "first note\nsecond note", "no stray dashes");
}

#[test]
fn forward_delete_at_a_notes_end_takes_the_whole_rule() {
    let text = "first note\n---\nsecond note";
    let (index, caret) = at(text, 10); // end of "first note"
    let fences = fences_for(text, &index);
    let rule = separator_after(text, &index, &fences, caret).expect("a rule below");
    let mut merged = text.to_string();
    merged.replace_range(rule, "");
    assert_eq!(merged, "first note\nsecond note");
}

#[test]
fn there_is_no_rule_to_take_in_the_middle_of_a_line() {
    let text = "first note\n---\nsecond note";
    let index = LineIndex::new(text);
    let fences = fences_for(text, &index);
    assert_eq!(separator_before(text, &index, &fences, 18), None);
    assert_eq!(separator_after(text, &index, &fences, 5), None);
    // Nor at the very start or end of the document.
    assert_eq!(separator_before(text, &index, &fences, 0), None);
    assert_eq!(separator_after(text, &index, &fences, text.len()), None);
}

/// ⌥⌫ at the head of a note used to scan past the rule and eat the last
/// word of the note above.
#[test]
fn a_word_delete_cannot_reach_back_through_a_rule() {
    let text = "first note\n---\nsecond note";
    let index = LineIndex::new(text);
    let fences = fences_for(text, &index);
    let caret = 22; // inside "second note", after "second"
    // A scan that reached back to offset 6 must stop at the note's start.
    assert_eq!(clamp_within_note(text, &index, &fences, 6, caret), 15);
    // Within one note it changes nothing.
    assert_eq!(clamp_within_note(text, &index, &fences, 15, caret), 15);
}

/// ⌥⌦ at the end of a note used to scan *forward* past the rule and eat the
/// first word of the note below, merging the two.
#[test]
fn a_word_delete_cannot_reach_forward_through_a_rule() {
    let text = "first note\n---\nsecond note";
    let index = LineIndex::new(text);
    let fences = fences_for(text, &index);
    let caret = 4; // inside "first note", before " note"
    // A forward scan reaching to 22 (into "second note") must stop at the
    // end of the first note's content, offset 10.
    assert_eq!(clamp_within_note_forward(text, &index, &fences, caret, 22), 10);
    // Within one note it changes nothing.
    assert_eq!(clamp_within_note_forward(text, &index, &fences, caret, 10), 10);
}

/// A `---` inside a code fence is code. Deleting next to it must not take
/// the whole line as though it were a rule dividing two notes.
#[test]
fn a_rule_inside_a_fence_is_not_a_note_edge() {
    let text = "note\n\n```\n---\nbody\n```\n";
    let index = LineIndex::new(text);
    let fences = fences_for(text, &index);
    assert_eq!(boundary_lines(text), Vec::<usize>::new(), "no rules here");
    let body = text.find("body").unwrap();
    assert_eq!(separator_before(text, &index, &fences, body), None);
    let fence_open_end = text.find("\n---").unwrap();
    assert_eq!(separator_after(text, &index, &fences, fence_open_end), None);
    // And a word delete inside the block is not clamped by it.
    assert_eq!(clamp_within_note(text, &index, &fences, 6, body + 4), 6);
}

#[test]
fn a_deleted_rule_joins_the_two_notes_beside_it() {
    let text = "a\n---\nb\n---\n---\n```\n---\n```\nc";
    let index = LineIndex::new(text);
    let fences = fences_for(text, &index);
    let rules = boundary_lines(text);
    assert_eq!(rules, vec![1, 3, 4]);
    let lines: Vec<&str> = text.split('\n').collect();
    for &rule in &rules {
        let mut left = lines.clone();
        left.remove(rule);
        let joined = left.join("\n");
        let above = separator_before(text, &index, &fences, index.line_start(rule + 1)).unwrap();
        let below = separator_after(text, &index, &fences, index.line_end(rule - 1)).unwrap();
        for range in [above, below] {
            let mut merged = text.to_string();
            merged.replace_range(range, "");
            assert_eq!(merged, joined);
        }
        assert_eq!(boundary_lines(&joined).len(), 2);
    }
}
