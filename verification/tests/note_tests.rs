use gravitynote::fences::FenceMap;
use gravitynote::index::LineIndex;
use gravitynote::note::{is_separator_line, load_note, FileRead, LoadOutcome, Note};

#[test]
fn empty_note_has_one_empty_line() {
    let n = Note::new();
    assert_eq!(n.lines(), vec![""]);
    assert_eq!(n.line_count(), 1);
}


#[test]
fn delete_range_removes_bytes() {
    let mut n = Note::from_text("hello world");
    n.delete_range(5, 11);
    assert_eq!(n.text(), "hello");
}

#[test]
fn replace_range_edits_middle() {
    let mut n = Note::from_text("hello world");
    n.replace_range(6, 11, "rust");
    assert_eq!(n.text(), "hello rust");
}






#[test]
fn line_index_at_boundaries() {
    let n = Note::from_text("aa\nbb\ncc");
    assert_eq!(n.line_index_at(0), 0);
    assert_eq!(n.line_index_at(1), 0);
    assert_eq!(n.line_index_at(2), 0);
    assert_eq!(n.line_index_at(3), 1);
    assert_eq!(n.line_index_at(5), 1);
    assert_eq!(n.line_index_at(6), 2);
    assert_eq!(n.line_index_at(n.len()), 2);
}



#[test]
fn unicode_line_index_and_ranges() {
    let n = Note::from_text("α\nββ\nγ");
    // α is 2 bytes, then \n, then ββ (4 bytes), \n, γ (2 bytes)
    let (s0, e0) = n.line_byte_range(0).unwrap();
    assert_eq!(&n.text()[s0..e0], "α");
    let (s1, e1) = n.line_byte_range(1).unwrap();
    assert_eq!(&n.text()[s1..e1], "ββ");
    assert_eq!(n.line_index_at(s1 + 1), 1); // mid first β → still line 1 after clamp conceptually
    assert_eq!(n.line_index_at(e1), 1); // on newline after ββ
}

#[test]
fn clamp_offset_and_replace_mid_char() {
    let mut n = Note::from_text("αβ");
    // mid-byte of α (offset 1) should clamp for replace
    n.replace_range(1, 1, "X");
    // floor start, ceil end → start=0 end=0 after clamp of empty?
    // start floor(1)=0, end ceil(1)=2 (end of α), so replaces α with X
    assert_eq!(n.text(), "Xβ");
}

#[test]
fn clamp_offset_mid_multibyte() {
    let n = Note::from_text("αβ");
    assert_eq!(n.clamp_offset(1), 0); // inside α
    assert_eq!(n.clamp_offset(2), 2); // boundary between α and β
    assert_eq!(n.clamp_offset(3), 2); // inside β → floor to 2
    assert_eq!(n.clamp_offset(4), 4);
}

#[test]
fn load_missing_is_missing() {
    assert!(matches!(load_note(FileRead::NotFound), LoadOutcome::Missing));
}


// ---- separator detection --------------------------------------------

#[test]
fn separator_lines_recognised() {
    for line in [
        "---",
        "----",
        "***",
        "___",
        "- - -",
        "* * * *",
        "_ _ _",
        "  ---  ",
        "\t---\t",
        "-- -",
        "---\r", // CRLF leftover: trailing \r is ASCII whitespace
        "          ---",
    ] {
        assert!(is_separator_line(line), "expected separator: {line:?}");
    }
}

#[test]
fn non_separator_lines_rejected() {
    for line in [
        "", "   ", "\t", "--", "**", "__", "-", "-*-", "---a", "a---", "- - ", "===", " -_-",
        "text", "—-—", "###",
    ] {
        assert!(!is_separator_line(line), "expected non-separator: {line:?}");
    }
}

// ---- block invariants -------------------------------------------------

/// Every structural guarantee `blocks()` must uphold.
fn assert_block_invariants(text: &str) {
    let n = Note::from_text(text);
    let blocks = n.blocks();
    assert!(!blocks.is_empty(), "blocks() empty for {text:?}");
    assert_eq!(blocks.len(), n.blocks().len(), "block_count for {text:?}");
    assert_eq!(
        blocks.len(),
        n.separator_line_indices().len() + 1,
        "blocks == separators + 1 for {text:?}"
    );
    let mut prev_end = 0usize;
    for (i, b) in blocks.iter().enumerate() {
        assert_eq!(b.index, i, "index for {text:?}");
        assert!(b.start <= b.end, "start<=end for {text:?} block {i}");
        assert!(b.end <= n.len(), "end<=len for {text:?} block {i}");
        assert!(
            n.text().is_char_boundary(b.start) && n.text().is_char_boundary(b.end),
            "char boundaries for {text:?} block {i}"
        );
        assert!(
            b.start >= prev_end,
            "ascending/non-overlapping for {text:?} block {i}"
        );
        prev_end = b.end;
        // Slicing must not panic and must equal the joined content lines.
        let slice = &n.text()[b.start..b.end];
        if b.start < b.end {
            let lines = n.lines();
            let expected = lines[b.first_line..=b.last_line].join("\n");
            assert_eq!(slice, expected, "content for {text:?} block {i}");
            for line in &lines[b.first_line..=b.last_line] {
                assert!(
                    !is_separator_line(line),
                    "block content contains a separator for {text:?}"
                );
            }
        }
        assert_eq!(
            b.sep_line.is_none(),
            i == 0,
            "sep_line presence for {text:?} block {i}"
        );
        if let Some(s) = b.sep_line {
            assert!(
                is_separator_line(n.lines()[s]),
                "sep_line points at a separator"
            );
            assert_eq!(n.separator_line_indices()[i - 1], s);
        }
    }
    // Every byte offset maps to an in-range block index.
    for off in 0..=n.len() {
        let idx = n.block_index_at(off);
        assert!(idx < blocks.len(), "block_index_at({off}) for {text:?}");
    }
}

const FIXTURES: &[&str] = &[
    "",
    "one line",
    "a\nb\nc",
    "---",
    "---\n---",
    "---\nafter",
    "before\n---",
    "a\n---\nb",
    "a\n---\n---\nb",
    "a\n---\n\n---\nb",
    // A note whose own first line is blank: `moved_to` used to point at that
    // blank line's newline rather than at the note.
    "a\n---\n\nhello\n---\nb",
    "a\n---\nb\n---\n\nc",
    "  ---  \nbody",
    "α\n---\nβγ\n---\nδ",
    "a\n***\nb\n___\nc",
    "\n",
    "\n---\n",
    "多行\n内容\n---\n第二块",
];

#[test]
fn block_invariants_hold_for_fixtures() {
    for t in FIXTURES {
        assert_block_invariants(t);
    }
}

#[test]
fn empty_document_is_one_empty_block() {
    let n = Note::new();
    let blocks = n.blocks();
    assert_eq!(blocks.len(), 1);
    assert_eq!(blocks[0].start, 0);
    assert_eq!(blocks[0].end, 0);
    assert_eq!(blocks[0].sep_line, None);
    assert_eq!(blocks[0].first_line, 0);
    assert_eq!(blocks[0].last_line, 0);
    assert_eq!(n.blocks().len(), 1);
    assert_eq!(n.block_index_at(0), 0);
    assert_eq!(n.block_start_offset(0), 0);
}

#[test]
fn document_without_separators_is_one_block() {
    let text = "title\nbody line\n\nmore";
    let n = Note::from_text(text);
    let blocks = n.blocks();
    assert_eq!(blocks.len(), 1);
    assert_eq!((blocks[0].start, blocks[0].end), (0, text.len()));
    assert_eq!(&n.text()[blocks[0].start..blocks[0].end], text);
    assert_eq!(blocks[0].first_line, 0);
    assert_eq!(blocks[0].last_line, n.line_count() - 1);
}

#[test]
fn multi_block_offsets_and_contents() {
    let n = Note::from_text("alpha\nline2\n---\nbeta\n---\ngamma");
    let blocks = n.blocks();
    assert_eq!(blocks.len(), 3);
    assert_eq!(&n.text()[blocks[0].start..blocks[0].end], "alpha\nline2");
    assert_eq!(&n.text()[blocks[1].start..blocks[1].end], "beta");
    assert_eq!(&n.text()[blocks[2].start..blocks[2].end], "gamma");
    assert_eq!(blocks[0].sep_line, None);
    assert_eq!(blocks[1].sep_line, Some(2));
    assert_eq!(blocks[2].sep_line, Some(4));
    assert_eq!((blocks[1].first_line, blocks[1].last_line), (3, 3));
    assert_eq!(n.separator_line_indices(), vec![2, 4]);
}

#[test]
fn document_that_is_only_a_separator() {
    let n = Note::from_text("---");
    let blocks = n.blocks();
    assert_eq!(blocks.len(), 2);
    assert_eq!((blocks[0].start, blocks[0].end), (0, 0));
    assert_eq!((blocks[1].start, blocks[1].end), (3, 3));
    assert_eq!(blocks[0].sep_line, None);
    assert_eq!(blocks[1].sep_line, Some(0));
    // The separator belongs to the block under it.
    assert_eq!(n.block_index_at(0), 1);
    assert_eq!(n.block_index_at(3), 1);
}

#[test]
fn leading_separator_makes_empty_first_block() {
    let n = Note::from_text("---\nbody");
    let blocks = n.blocks();
    assert_eq!(blocks.len(), 2);
    assert_eq!((blocks[0].start, blocks[0].end), (0, 0));
    assert_eq!(&n.text()[blocks[1].start..blocks[1].end], "body");
    assert_eq!(blocks[1].sep_line, Some(0));
    assert_eq!(blocks[1].first_line, 1);
}

#[test]
fn trailing_separator_makes_empty_last_block() {
    let n = Note::from_text("body\n---");
    let blocks = n.blocks();
    assert_eq!(blocks.len(), 2);
    assert_eq!(&n.text()[blocks[0].start..blocks[0].end], "body");
    assert_eq!((blocks[1].start, blocks[1].end), (n.len(), n.len()));
    assert_eq!(blocks[1].sep_line, Some(1));
    // Empty trailing block: first_line is one past the last line.
    assert_eq!(blocks[1].first_line, n.line_count());
}

#[test]
fn adjacent_separators_make_an_empty_middle_block() {
    let n = Note::from_text("a\n---\n---\nb");
    let blocks = n.blocks();
    assert_eq!(blocks.len(), 3);
    assert_eq!(&n.text()[blocks[0].start..blocks[0].end], "a");
    assert_eq!(blocks[1].start, blocks[1].end);
    assert_eq!(blocks[1].sep_line, Some(1));
    assert_eq!(&n.text()[blocks[2].start..blocks[2].end], "b");
    assert_eq!(blocks[2].sep_line, Some(2));
    assert_eq!(n.separator_line_indices(), vec![1, 2]);
}

#[test]
fn separator_with_surrounding_whitespace_splits() {
    let n = Note::from_text("a\n   ---   \nb");
    assert_eq!(n.blocks().len(), 2);
    let blocks = n.blocks();
    assert_eq!(&n.text()[blocks[0].start..blocks[0].end], "a");
    assert_eq!(&n.text()[blocks[1].start..blocks[1].end], "b");
}

#[test]
fn whitespace_only_line_is_not_a_separator() {
    let n = Note::from_text("a\n   \nb");
    assert_eq!(n.blocks().len(), 1);
    assert_eq!(n.blocks()[0].end, n.len());
}

#[test]
fn alternate_separator_glyphs_split_blocks() {
    let n = Note::from_text("a\n***\nb\n___\nc\n- - -\nd");
    assert_eq!(n.blocks().len(), 4);
    assert_eq!(n.separator_line_indices(), vec![1, 3, 5]);
}

#[test]
fn unicode_block_offsets() {
    let n = Note::from_text("αβ\n---\nγδε\n---\nζ");
    let blocks = n.blocks();
    assert_eq!(blocks.len(), 3);
    assert_eq!(&n.text()[blocks[0].start..blocks[0].end], "αβ");
    assert_eq!(&n.text()[blocks[1].start..blocks[1].end], "γδε");
    assert_eq!(&n.text()[blocks[2].start..blocks[2].end], "ζ");
    assert_eq!(blocks[0].start, 0);
    assert_eq!(blocks[0].end, 4); // 2 chars × 2 bytes
    assert_eq!(blocks[1].start, 4 + 1 + 3 + 1); // "\n" + "---" + "\n"
}

#[test]
fn block_index_at_separator_returns_following_block() {
    let n = Note::from_text("a\n---\nb");
    // line 0 = "a" (0..1), line 1 = "---" (2..5), line 2 = "b" (6..7)
    assert_eq!(n.block_index_at(0), 0);
    assert_eq!(n.block_index_at(1), 0); // newline of line 0
    assert_eq!(n.block_index_at(2), 1); // start of separator
    assert_eq!(n.block_index_at(4), 1);
    assert_eq!(n.block_index_at(5), 1); // newline of the separator
    assert_eq!(n.block_index_at(6), 1);
    assert_eq!(n.block_index_at(7), 1);
    assert_eq!(n.block_index_at(9999), 1); // clamped
}

#[test]
fn block_index_at_every_offset_of_fixture() {
    let n = Note::from_text("one\n---\ntwo\nlines\n---\nthree");
    let count = n.blocks().len();
    let expected_at_end = count - 1;
    for off in 0..=n.len() {
        assert!(n.block_index_at(off) < count);
    }
    assert_eq!(n.block_index_at(n.len()), expected_at_end);
    assert_eq!(n.block_index_at(0), 0);
}

#[test]
fn block_start_offset_returns_containing_block_start() {
    let n = Note::from_text("aaa\n---\nbbb\nccc");
    let blocks = n.blocks();
    assert_eq!(n.block_start_offset(1), blocks[0].start);
    assert_eq!(n.block_start_offset(4), blocks[1].start); // on the separator
    assert_eq!(n.block_start_offset(n.len()), blocks[1].start);
}

// ---- block moves ------------------------------------------------------

/// The moves take the caller's line index, which every caller already has.
fn promote(n: &mut Note, idx: usize) -> Option<usize> {
    let index = LineIndex::new(n.text());
    let planned = n.plan_bring_block_up(&index, idx)?;
    n.apply_move(&planned);
    Some(planned.moved_to)
}

fn nudge(n: &mut Note, idx: usize) -> Option<usize> {
    let index = LineIndex::new(n.text());
    let planned = n.plan_move_block_up_one(&index, idx)?;
    n.apply_move(&planned);
    Some(planned.moved_to)
}

/// Every block's content, in document order.
fn contents(n: &Note) -> Vec<String> {
    n.blocks()
        .iter()
        .map(|b| n.text()[b.start..b.end].to_string())
        .collect()
}

#[test]
fn bring_block_up_moves_block_to_top() {
    let mut n = Note::from_text("one\n---\ntwo\n---\nthree");
    assert_eq!(promote(&mut n, 2), Some(0));
    assert_eq!(n.text(), "three\n---\none\n---\ntwo");
    assert_eq!(n.blocks().len(), 3);
}

#[test]
fn bring_block_up_preserves_multiline_content() {
    let mut n = Note::from_text("a1\na2\n---\nb1\nb2\nb3\n---\nc");
    assert_eq!(promote(&mut n, 1), Some(0));
    assert_eq!(n.text(), "b1\nb2\nb3\n---\na1\na2\n---\nc");
    let blocks = n.blocks();
    assert_eq!(&n.text()[blocks[0].start..blocks[0].end], "b1\nb2\nb3");
}

#[test]
fn bring_block_up_noop_on_first_or_oob() {
    let mut n = Note::from_text("a\n---\nb");
    assert_eq!(promote(&mut n, 0), None);
    assert_eq!(n.text(), "a\n---\nb");
    assert_eq!(promote(&mut n, 2), None);
    assert_eq!(promote(&mut n, 99), None);
    assert_eq!(n.text(), "a\n---\nb");
}

/// Moving one note must not rewrite the separators of the notes it passes.
/// Rebuilding the document did: a `***` you typed came back as `---`.
#[test]
fn bring_block_up_leaves_separator_glyphs_alone() {
    let mut n = Note::from_text("a\n***\nb\n___\nc");
    assert_eq!(promote(&mut n, 2), Some(0));
    assert_eq!(n.text(), "c\n___\na\n***\nb");
}

#[test]
fn bring_block_up_with_unicode() {
    let mut n = Note::from_text("α\n---\nββ\n---\nγ");
    assert_eq!(promote(&mut n, 2), Some(0));
    assert_eq!(n.text(), "γ\n---\nα\n---\nββ");
    let blocks = n.blocks();
    assert_eq!(&n.text()[blocks[0].start..blocks[0].end], "γ");
    assert_eq!(&n.text()[blocks[2].start..blocks[2].end], "ββ");
}

#[test]
fn bring_block_up_keeps_empty_blocks() {
    let mut n = Note::from_text("a\n---\n---\nb");
    // Move the empty middle block to the top; it stays an empty block, and
    // the rule it travelled with is now the document's first line.
    assert_eq!(promote(&mut n, 1), Some(0));
    assert_eq!(n.text(), "---\na\n---\nb");
    assert_eq!(n.blocks().len(), 3);
    assert_eq!(n.blocks()[0].start, n.blocks()[0].end);

    // Moving the last block up keeps the empty block, now trailing.
    let mut n = Note::from_text("a\n---\n---\nb");
    assert_eq!(promote(&mut n, 2), Some(0));
    assert_eq!(n.text(), "b\n---\na\n---");
    assert_eq!(n.blocks().len(), 3);
    let blocks = n.blocks();
    assert_eq!((blocks[2].start, blocks[2].end), (n.len(), n.len()));
}

#[test]
fn move_block_up_one_swaps_with_previous() {
    let mut n = Note::from_text("A\n---\nB\n---\nC");
    let off = nudge(&mut n, 2).unwrap();
    assert_eq!(n.text(), "A\n---\nC\n---\nB");
    assert_eq!(off, 6); // "A\n---\n"
    assert_eq!(&n.text()[off..off + 1], "C");
    assert_eq!(n.blocks()[1].start, off);
}

#[test]
fn move_block_up_one_to_the_top() {
    let mut n = Note::from_text("A\n---\nB");
    assert_eq!(nudge(&mut n, 1), Some(0));
    assert_eq!(n.text(), "B\n---\nA");
}

#[test]
fn move_block_up_one_noop_on_first_or_oob() {
    let mut n = Note::from_text("A\n---\nB");
    assert_eq!(nudge(&mut n, 0), None);
    assert_eq!(nudge(&mut n, 2), None);
    assert_eq!(nudge(&mut n, 42), None);
    assert_eq!(n.text(), "A\n---\nB");
}

#[test]
fn move_block_up_one_offset_with_unicode() {
    let mut n = Note::from_text("αα\n---\nβ\n---\nγ");
    let off = nudge(&mut n, 2).unwrap();
    assert_eq!(n.text(), "αα\n---\nγ\n---\nβ");
    assert_eq!(&n.text()[off..off + "γ".len()], "γ");
}

/// A move has two contracts, and both are checked here on every fixture.
///
/// 1. **It reports the two edits it made.** Applying the cut and then the
///    insertion to the old text reproduces the new text exactly — the app
///    replays them into its line index, its fence map and its undo history,
///    and the failure mode of getting that wrong is silent corruption.
/// 2. **It only reorders notes.** The blocks afterwards are the blocks
///    before, permuted — no note's content is altered, gained or lost.
#[test]
fn a_move_reports_the_two_edits_it_made() {
    for text in FIXTURES {
        let base = Note::from_text(*text);
        let count = base.blocks().len();
        for idx in 0..count + 1 {
            for to_top in [true, false] {
                let mut n = base.clone();
                let index = LineIndex::new(n.text());
                let before = n.text().to_string();
                let was = contents(&n);
                let Some(moved) = (if to_top {
                    n.plan_bring_block_up(&index, idx)
                } else {
                    n.plan_move_block_up_one(&index, idx)
                }) else {
                    assert_eq!(n.text(), before, "a refused move changed the text");
                    continue;
                };
                n.apply_move(&moved);
                let mut replayed = before.clone();
                assert_eq!(
                    replayed.get(moved.cut_at..moved.cut_at + moved.cut_text.len()),
                    Some(moved.cut_text.as_str()),
                    "the cut says it took bytes that were not there ({text:?}, block {idx})"
                );
                replayed.replace_range(moved.cut_at..moved.cut_at + moved.cut_text.len(), "");
                replayed.insert_str(moved.insert_at, &moved.insert_text);
                assert_eq!(
                    replayed,
                    n.text(),
                    "replaying the reported edits did not reproduce the move \
                     ({text:?}, block {idx}, to_top {to_top})"
                );

                // The caret is put on `moved_to`, so it has to be the first
                // byte of the note that moved — not the newline in front of
                // it, which is a rule line the caret would land on instead.
                assert!(
                    n.text().is_char_boundary(moved.moved_to),
                    "moved_to split a character ({text:?}, block {idx})"
                );
                assert!(
                    n.text()[moved.moved_to..].starts_with(was[idx].as_str()),
                    "moved_to points at {:?}, not at the note that moved ({:?}) \
                     ({text:?}, block {idx}, to_top {to_top})",
                    &n.text()[moved.moved_to..],
                    was[idx]
                );

                let (mut sorted_was, mut sorted_now) = (was.clone(), contents(&n));
                sorted_was.sort();
                sorted_now.sort();
                assert_eq!(
                    sorted_was, sorted_now,
                    "a move changed what the notes say ({text:?}, block {idx}, \
                     to_top {to_top}): {was:?} became {:?}",
                    contents(&n)
                );
            }
        }
    }
}

#[test]
fn new_block_at_top_on_empty_doc_is_noop() {
    let mut n = Note::new();
    assert_eq!(n.new_block_at_top(), 0);
    assert_eq!(n.text(), "");
    assert_eq!(n.blocks().len(), 1);
}

#[test]
fn new_block_at_top_prepends_empty_block() {
    let mut n = Note::from_text("existing\nnote");
    assert_eq!(n.new_block_at_top(), 0);
    assert_eq!(n.text(), "\n---\nexisting\nnote");
    let blocks = n.blocks();
    assert_eq!(blocks.len(), 2);
    assert_eq!((blocks[0].start, blocks[0].end), (0, 0));
    assert_eq!(&n.text()[blocks[1].start..blocks[1].end], "existing\nnote");
    assert_eq!(n.block_index_at(0), 0);
}


#[test]
fn new_block_at_top_on_multi_block_doc() {
    let mut n = Note::from_text("a\n---\nb");
    assert_eq!(n.new_block_at_top(), 0);
    assert_eq!(n.text(), "\n---\na\n---\nb");
    assert_eq!(n.blocks().len(), 3);
}

/// Starting a new note must not rewrite the rest of the document. A `***`
/// is a separator the user typed, and it stays one.
#[test]
fn new_block_at_top_leaves_the_separators_below_it_alone() {
    for text in ["a\n***\nb", "a\n___\nb", "a\n- - -\nb", "a\n  ---  \nb"] {
        let mut n = Note::from_text(text);
        n.new_block_at_top();
        assert_eq!(
            n.text(),
            format!("\n---\n{text}"),
            "starting a note rewrote {text:?}"
        );
        assert_eq!(n.blocks().len(), 3);
    }
}

/// The app applies a move as two edits and *splices* its line index and
/// fence map between them rather than rebuilding either. That is the same
/// arrangement `index` and `fences` have their own differential tests for,
/// so the move's two halves get one too: patch, then compare against a
/// rebuild. Getting this wrong corrupts a document silently.
#[test]
fn a_move_can_be_spliced_into_the_derived_state() {
    for text in FIXTURES {
        let base = Note::from_text(*text);
        for idx in 0..base.blocks().len() + 1 {
            for to_top in [true, false] {
                let mut n = base.clone();
                let mut index = LineIndex::new(n.text());
                let mut fences = FenceMap::new(n.text(), &index);
                let Some(planned) = (if to_top {
                    n.plan_bring_block_up(&index, idx)
                } else {
                    n.plan_move_block_up_one(&index, idx)
                }) else {
                    continue;
                };

                // Exactly what `NoteApp::commit_block_move` does.
                let splice = |n: &Note,
                              index: &mut LineIndex,
                              fences: &mut FenceMap,
                              at: usize,
                              removed: &str,
                              inserted: &str| {
                    let first_line = index.line_at(at);
                    let removed_lines = removed.matches('\n').count();
                    let inserted_lines = inserted.matches('\n').count();
                    index.splice(n.text(), at, removed, inserted);
                    fences.splice(n.text(), index, first_line, removed_lines, inserted_lines);
                };

                let cut_end = planned.cut_at + planned.cut_text.len();
                n.replace_range(planned.cut_at, cut_end, "");
                splice(
                    &n,
                    &mut index,
                    &mut fences,
                    planned.cut_at,
                    &planned.cut_text,
                    "",
                );
                n.replace_range(planned.insert_at, planned.insert_at, &planned.insert_text);
                splice(
                    &n,
                    &mut index,
                    &mut fences,
                    planned.insert_at,
                    "",
                    &planned.insert_text,
                );

                let rebuilt = LineIndex::new(n.text());
                assert_eq!(
                    index.line_count(),
                    rebuilt.line_count(),
                    "spliced line count is wrong after moving block {idx} of {text:?}"
                );
                for line in 0..rebuilt.line_count() {
                    assert_eq!(
                        index.line_range(line),
                        rebuilt.line_range(line),
                        "spliced line {line} is wrong after moving block {idx} of {text:?}"
                    );
                }
                let rebuilt_fences = FenceMap::new(n.text(), &rebuilt);
                for line in 0..rebuilt.line_count() {
                    assert_eq!(
                        fences.is_open(line),
                        rebuilt_fences.is_open(line),
                        "spliced fence state for line {line} is wrong after moving \
                         block {idx} of {text:?}"
                    );
                }
            }
        }
    }
}

#[test]
fn moves_keep_block_invariants() {
    for t in FIXTURES {
        let base = Note::from_text(*t);
        for idx in 0..base.blocks().len() + 1 {
            let mut a = base.clone();
            let ai = LineIndex::new(a.text());
            if let Some(m) = a.plan_bring_block_up(&ai, idx) {
                a.apply_move(&m);
            }
            assert_block_invariants(a.text());
            let mut b = base.clone();
            let bi = LineIndex::new(b.text());
            if let Some(m) = b.plan_move_block_up_one(&bi, idx) {
                b.apply_move(&m);
            }
            assert_block_invariants(b.text());
            let mut c = base.clone();
            c.new_block_at_top();
            assert_block_invariants(c.text());
        }
    }
}

#[test]
fn round_trip_rebuild_is_stable_for_canonical_documents() {
    let n = Note::from_text("a\n---\nb\n---\nc");
    let mut m = n.clone();
    // Moving a block up and back down again returns the original text.
    assert_eq!(nudge(&mut m, 1), Some(0));
    assert_eq!(nudge(&mut m, 1), Some(0));
    assert_eq!(m.text(), n.text());
}

// ---- persistence paths / migration -----------------------------------

#[test]
fn a_moved_note_takes_the_rule_above_it_and_the_newline_before() {
    let note = Note::from_text("A\n---\nB\n---\nC".to_string());
    let index = LineIndex::new(note.text());
    let moved = note.plan_move_block_up_one(&index, 1).unwrap();
    assert_eq!(moved.cut_at, 1);
    assert_eq!(moved.cut_text, "\n---\nB");
    // With the rule on the first line, the newline after goes instead.
    let note = Note::from_text("---\nB\n---\nC".to_string());
    let index = LineIndex::new(note.text());
    let moved = note.plan_move_block_up_one(&index, 1).unwrap();
    assert_eq!(moved.cut_at, 0);
    assert_eq!(moved.cut_text, "---\nB\n");
}
