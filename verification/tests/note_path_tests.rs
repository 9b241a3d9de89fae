use std::path::PathBuf;

use gravitynote::note::{default_note_path, Note};

#[test]
fn the_note_is_a_markdown_file_in_application_support() {
    let path = PathBuf::from(default_note_path("/Users/someone", false));
    assert_eq!(path.file_name().unwrap(), "note.md");
    assert!(
        path.to_string_lossy()
            .contains("Application Support/gravitynote-gpui"),
        "unexpected location: {path:?}"
    );
}

#[test]
fn typing_after_a_new_block_lands_inside_it() {
    let mut note = Note::from_text("existing");
    let caret = note.new_block_at_top();
    note.replace_range(caret, caret, "fresh");
    assert_eq!(note.text(), "fresh\n---\nexisting");
    assert_eq!(note.blocks().len(), 2);
    assert_eq!(note.block_index_at(caret), 0);
}
