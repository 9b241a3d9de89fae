use gravitynote::fences::FenceMap;
use gravitynote::index::LineIndex;
use gravitynote::note::{boundary_lines, is_boundary_line, Note};

/// The renderer answers "is this a boundary?" per visible row, from the line
/// and the fence state it already has. That has to agree with the walk over
/// the whole document — it is the only thing keeping segmentation off the
/// frame path.
#[test]
fn boundaries_agree_with_the_per_line_check() {
    for text in [
        "",
        "a",
        "a\nb",
        "a\n\n\n\nb",
        "---",
        "a\n---\nb",
        "a\n***\nb",
        "  ---  ",
        "a\n---\n\n\n---\nb",
        "```\n---\n```",
        "a\n```\n---\n---\n```\nb",
        "a\n---\n```\n---\n```\n---\nb",
        "```rust\nlet x = 1;\n---\n```",
        "~~~\n---\n~~~",
        "```\n---",
        "```\n---\nunclosed",
        "a\n---\n```\nstill open",
        "```\n```\n---\n```\nopen again",
        "α\n---\nβ",
    ] {
        let index = LineIndex::new(text);
        let fences = FenceMap::new(text, &index);
        let expected = boundary_lines(text);
        let got: Vec<usize> = (0..index.line_count())
            .filter(|&i| is_boundary_line(text, &index, i, fences.in_closed_fence(i)))
            .collect();
        assert_eq!(got, expected, "text {text:?}");
    }
}

/// A fence that was opened and never closed is a code block being written,
/// not one that exists. Treating it as code makes every note below merge
/// into it the moment you type ``` — and un-merge when you close it.
#[test]
fn an_unclosed_fence_does_not_swallow_the_notes_below_it() {
    assert_eq!(boundary_lines("```\ncode\n---\nnote"), vec![2]);
    assert_eq!(Note::from_text("```\ncode\n---\nnote").blocks().len(), 2);
    // Closing it makes the same `---` code again.
    assert_eq!(boundary_lines("```\ncode\n---\n```"), Vec::<usize>::new());
}

/// A `---` inside a fenced block is code. Splitting there would cut the
/// block in half the next time a note was moved.
#[test]
fn a_rule_inside_a_code_fence_is_not_a_boundary() {
    assert_eq!(boundary_lines("```\n---\n```"), Vec::<usize>::new());
    assert_eq!(Note::from_text("```\n---\n```").blocks().len(), 1);
    // ...but the same rule after the block closes still splits.
    assert_eq!(boundary_lines("```\n---\n```\n---\nx"), vec![3]);
}

#[test]
fn out_of_range_lines_are_not_boundaries() {
    let text = "a\nb";
    let index = LineIndex::new(text);
    assert!(!is_boundary_line(text, &index, 99, false));
}
