use gravitynote::index::LineIndex;
use gravitynote::note::Note;

/// `block_at` is an optimisation of two existing calls; it must agree with
/// them at every byte offset, not just the easy ones.
fn assert_agrees(text: &str) {
    let note = Note::from_text(text);
    let index = LineIndex::new(note.text());
    for offset in 0..=note.len() {
        if !note.text().is_char_boundary(offset) {
            continue;
        }
        let (fast_idx, fast_start) = note.block_at(&index, offset);
        assert_eq!(
            fast_idx,
            note.block_index_at(offset),
            "block index at {offset} in {text:?}"
        );
        assert_eq!(
            fast_start,
            note.block_start_offset(offset),
            "block start at {offset} in {text:?}"
        );
    }
}

#[test]
fn agrees_with_the_reference_on_fixtures() {
    for text in [
        "",
        "a",
        "one\ntwo\nthree",
        "---",
        "---\n",
        "\n---\n",
        "a\n---\nb",
        "a\n---\n---\nb",
        "---\na",
        "a\n---",
        "a\n---\nb\n---\nc",
        "# h\n\nbody\n---\n# h2\n\nbody2\n",
        "α\n---\nββ\n---\nγ",
        "🎉 party\n---\n日本語\n---\ncafé",
        "a\n***\nb\n___\nc",
        "  ---  \nindented separator",
        "a\n\n\n---\n\n\nb",
    ] {
        assert_agrees(text);
    }
}

/// `notes` notes of varying shape: headings, prose, blank lines, lists, code and
/// other scripts, divided by every kind of rule.
fn corpus(notes: usize) -> String {
    let rules = ["---", "***", "___", "- - -", "  ---  "];
    let lines = [
        "# a heading",
        "some plain prose, long enough to be a sentence of its own",
        "",
        "- a bullet",
        "- [x] a done task",
        "αβγ δεζ",
        "日本語のメモ 🎉",
        "> a quote",
        "    indented",
    ];
    let mut seed: u64 = 0x9E37_79B9_7F4A_7C15;
    let mut text = String::new();
    for note in 0..notes {
        if note > 0 {
            text.push('\n');
            text.push_str(rules[note % rules.len()]);
            text.push('\n');
        }
        seed = seed.wrapping_mul(6364136223846793005).wrapping_add(1442695040888963407);
        let count = (seed >> 33) as usize % 9;
        for line in 0..count {
            if line > 0 {
                text.push('\n');
            }
            seed = seed.wrapping_mul(6364136223846793005).wrapping_add(1442695040888963407);
            text.push_str(lines[(seed >> 33) as usize % lines.len()]);
        }
        if note % 7 == 3 {
            text.push_str("\n```\n---\ncode\n```");
        }
    }
    text
}

#[test]
fn agrees_with_the_reference_on_a_generated_corpus() {
    let text = corpus(400);
    let note = Note::from_text(text);
    let index = LineIndex::new(note.text());
    // Every offset would be ~100k reference scans; sample densely instead,
    // including every block boundary and both sides of every separator.
    let mut offsets: Vec<usize> = note
        .blocks()
        .iter()
        .flat_map(|b| [b.start, b.end, b.start + 1])
        .collect();
    // Both sides of every separator line — the tie-break lives there.
    for line in note.separator_line_indices() {
        offsets.push(index.line_start(line));
        offsets.push(index.line_end(line));
        offsets.push(index.line_end(line) + 1);
    }
    offsets.retain(|&o| o <= note.len() && note.text().is_char_boundary(o));
    offsets.sort_unstable();
    offsets.dedup();

    for offset in offsets {
        assert_eq!(
            note.block_at(&index, offset).0,
            note.block_index_at(offset),
            "block index at {offset}"
        );
        assert_eq!(
            note.block_at(&index, offset).1,
            note.block_start_offset(offset),
            "block start at {offset}"
        );
    }
}
