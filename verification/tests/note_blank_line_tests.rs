use gravitynote::index::LineIndex;
use gravitynote::note::{boundary_lines, Note};

/// Blank lines are punctuation inside a note, never a split. A note is
/// allowed to breathe.
#[test]
fn no_number_of_blank_lines_separates_notes() {
    for text in [
        "a\n\nb",
        "a\n\n\nb",
        "a\n\n\n\nb",
        "a\n\n\n\n\n\n\n\nb",
        "  \n  \n  \n  \nx",
        "a\n\n\n\n",
        "\n\n\n\na",
    ] {
        assert_eq!(boundary_lines(text), Vec::<usize>::new(), "text {text:?}");
        assert_eq!(Note::from_text(text).blocks().len(), 1, "text {text:?}");
    }
}

#[test]
fn only_a_rule_splits_a_note() {
    let note = Note::from_text("one\n\n\n\ntwo\n---\nthree");
    let blocks = note.blocks();
    assert_eq!(blocks.len(), 2);
    assert_eq!(
        &note.text()[blocks[0].start..blocks[0].end],
        "one\n\n\n\ntwo"
    );
    assert_eq!(&note.text()[blocks[1].start..blocks[1].end], "three");
}

#[test]
fn blank_lines_travel_with_the_note_they_belong_to() {
    let mut note = Note::from_text("first\n\n\n\nstill first\n---\nsecond");
    assert_eq!(note.blocks().len(), 2);
    let ni = LineIndex::new(note.text());
    let planned = note.plan_bring_block_up(&ni, 1).expect("a move to make");
    note.apply_move(&planned);
    assert_eq!(note.text(), "second\n---\nfirst\n\n\n\nstill first");
}

#[test]
fn block_at_agrees_with_the_reference_around_blank_lines() {
    for text in [
        "a\n\n\n\nb",
        "a\n\n\n\n\n\nb\n---\nc",
        "\n\n\n\na",
        "a\n\n\n\n",
        "  \n  \n  \n  \nx",
        "a\n\nb\n\nc",
    ] {
        let note = Note::from_text(text);
        let index = LineIndex::new(note.text());
        for offset in 0..=note.len() {
            if !note.text().is_char_boundary(offset) {
                continue;
            }
            assert_eq!(
                note.block_at(&index, offset).0,
                note.block_index_at(offset),
                "index at {offset} in {text:?}"
            );
            assert_eq!(
                note.block_at(&index, offset).1,
                note.block_start_offset(offset),
                "start at {offset} in {text:?}"
            );
        }
    }
}
