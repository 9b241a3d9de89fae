use gravitynote::markdown::{
    continuation, highlight_document, highlight_line, is_fence, is_indented_code, is_separator, link_at, quote_depth,
    setext_level, takes_setext_underline, Continuation, MdStyle, Span,
};

/// Adversarial corpus. Every entry is checked against invariants 1-5 for
/// both values of `in_code_block`.
const CASES: &[&str] = &[
    "",
    " ",
    "   ",
    "\t",
    "plain text",
    "trailing spaces   ",
    "   leading spaces",
    "*",
    "**",
    "***",
    "****",
    "*****",
    "*a*",
    "**a**",
    "***bold italic***",
    "***unclosed",
    "**a*",
    "*a**",
    "a * b * c",
    "_",
    "__",
    "___",
    "_x_",
    "__x__",
    "___x___",
    "snake_case_ident",
    "a_b_c_d",
    "_leading underscore",
    "`code`",
    "`",
    "``",
    "```",
    "~~~",
    "~~~rust",
    "```rust",
    "```rust```",
    "`` a `` b",
    "`unterminated",
    "a `b` c `d",
    "~",
    "~~",
    "~~strike~~",
    "~~unclosed",
    "[a](b)",
    "[a](",
    "[a]",
    "[",
    "]",
    "[](",
    "[]()",
    "![img](u)",
    "![](u)",
    "!not a link",
    "[nested [x]](y)",
    "[a](b) and [c](d)",
    "- [ ] todo",
    "- [x] done",
    "- [X] DONE",
    "- [ ]",
    "* [ ] star todo",
    "+ plus item",
    "- item",
    "- ",
    "-",
    "1. item",
    "12) item",
    "1.",
    "99999999999999. too many digits",
    "  - nested item",
    "\t- tabbed item",
    "> quote",
    ">> nested",
    "> > spaced nested",
    ">",
    "> ",
    "> **bold** in quote",
    "> - list in quote",
    "> # heading in quote",
    "# h1",
    "## h2",
    "### h3",
    "#### h4",
    "##### h5",
    "###### h6",
    "####### seven hashes",
    "#nohash",
    "#",
    "###",
    "#  ",
    "   # indented heading",
    "    # over-indented",
    "---",
    "***",
    "___",
    "- - -",
    "* * *",
    "_ _ _",
    "--",
    "----------",
    "http://x.y",
    "https://example.com/a?b=c#d",
    "see https://example.com. done",
    "nohttp://x.y",
    "http://",
    "**a** _b_ `c`",
    "mixed **bold `code` inside** tail",
    "emoji 🎉🎉 *star* 🚀",
    "👨‍👩‍👧‍👦 family",
    "中文字符测试",
    "**中文粗体**",
    "`日本語コード`",
    "e\u{301}\u{301}combining",
    "a\u{0301}*b*",
    "ünïcödé _emphasis_",
    "🎉*🎉*🎉",
    "> 🎉 **quote** with emoji",
    "- [ ] 中文 todo `code`",
    "\u{200b}zero width",
    "text with ) and ( parens",
    "|table|cell|",
    "<html>tag</html>",
    "&amp; entity",
    "\\*escaped\\*",
    "a*b*c",
    "**",
    "*_*_*",
    "[*a*](b)",
    "**[link](url)**",
    // Nested inline markup (item 38): every one of these must still tile.
    "# **bold**",
    "# a `code` b",
    "## _em_ and `c`",
    "### **[x](y)** z",
    "**`code`**",
    "*a `b` c*",
    "_`c`_",
    "~~`s`~~",
    "**_a_**",
    "**_`x`_**",
    "***`nested`***",
    "**[*a*](b)**",
    "`**not bold**`",
    "> # **q**",
    "> **`c`**",
    "- [x] fix `bug`",
    "- [x] **done** and `code`",
    "# `*`",
    "**",
    "*`*`*",
    "[`a`](b)",
    "# ",
    "***`***",
];

fn check(line: &str, in_code_block: bool) {
    let spans = highlight_line(line, in_code_block);

    // 1. empty line -> empty spans
    if line.is_empty() {
        assert!(spans.is_empty(), "empty line produced spans");
        return;
    }
    assert!(
        !spans.is_empty(),
        "non-empty line {:?} produced no spans",
        line
    );

    // 2. contiguous exact cover
    assert_eq!(spans[0].start, 0, "line {:?} does not start at 0", line);
    assert_eq!(
        spans[spans.len() - 1].end,
        line.len(),
        "line {:?} does not end at len",
        line
    );
    for w in spans.windows(2) {
        assert_eq!(
            w[0].end, w[1].start,
            "gap/overlap in {:?}: {:?}",
            line, spans
        );
        assert!(w[0].start < w[1].start, "unsorted in {:?}", line);
    }

    for s in &spans {
        // 3. char boundaries
        assert!(
            line.is_char_boundary(s.start) && line.is_char_boundary(s.end),
            "non-boundary span {:?} in {:?}",
            s,
            line
        );
        // 4. non-empty
        assert!(s.start < s.end, "empty span {:?} in {:?}", s, line);
        // slicing must not panic
        let _ = &line[s.start..s.end];
    }

    // adjacent spans never share a style
    for w in spans.windows(2) {
        assert_ne!(w[0].style, w[1].style, "unmerged run in {:?}", line);
    }
}

fn check_both(line: &str) {
    check(line, false);
    check(line, true);
}

#[test]
fn corpus_holds_invariants() {
    assert!(CASES.len() >= 60, "corpus too small: {}", CASES.len());
    for case in CASES {
        check_both(case);
    }
}

#[test]
fn corpus_prefixes_and_suffixes_hold_invariants() {
    // Every char-boundary prefix and suffix of every case is also a line.
    for case in CASES {
        for (i, _) in case.char_indices() {
            check_both(&case[..i]);
            check_both(&case[i..]);
        }
    }
}

#[test]
fn corpus_pairs_hold_invariants() {
    for a in CASES.iter().take(40) {
        for b in CASES.iter().take(40) {
            let joined = format!("{} {}", a, b);
            check_both(&joined);
            let tight = format!("{}{}", a, b);
            check_both(&tight);
        }
    }
}

#[test]
fn very_long_lines() {
    let long: String = "*".repeat(5000);
    check_both(&long);

    let mut mixed = String::new();
    for i in 0..1000 {
        mixed.push_str(match i % 7 {
            0 => "**bold** ",
            1 => "`code` ",
            2 => "[a](b) ",
            3 => "🎉中文 ",
            4 => "_em_ ",
            5 => "~~s~~ ",
            _ => "plain ",
        });
    }
    assert!(mixed.len() > 4000);
    check_both(&mixed);

    check_both(&"a".repeat(5000));
    check_both(&"`".repeat(5000));
    // Deeply nested inline markup must not recurse the stack into an
    // overflow: the scanner caps nesting and draws the rest flat, but the
    // cover still has to tile. `*_*_…x…_*_*` alternates delimiters so each
    // pair genuinely nests inside the last.
    let deep = format!("{}x{}", "*_".repeat(4000), "_*".repeat(4000));
    check_both(&deep);
    check_both(&format!("# {}", "*_".repeat(4000)));
    check_both(&"[".repeat(2000));
    check_both(&"🎉".repeat(2000));
    check_both(&format!("> {}", "_".repeat(3000)));
    check_both(&format!("- [ ] {}", "*x* ".repeat(1000)));
}

#[test]
fn pseudo_random_soup() {
    // Deterministic LCG over a nasty alphabet.
    const ALPHABET: &[&str] = &[
        "*", "_", "`", "~", "[", "]", "(", ")", "!", "#", ">", "-", "+", "1", ".", " ", "a",
        "🎉", "中", "\u{301}", "h", "t", "p", ":", "/", "\t", "x", "\\",
    ];
    let mut state: u64 = 0x2545_F491_4F6C_DD1D;
    for _ in 0..4000 {
        let mut line = String::new();
        let len = {
            state = state
                .wrapping_mul(6364136223846793005)
                .wrapping_add(1442695040888963407);
            (state >> 33) as usize % 40
        };
        for _ in 0..len {
            state = state
                .wrapping_mul(6364136223846793005)
                .wrapping_add(1442695040888963407);
            line.push_str(ALPHABET[(state >> 33) as usize % ALPHABET.len()]);
        }
        check_both(&line);
    }
}

// -- behaviour ---------------------------------------------------------

fn styles(line: &str) -> Vec<(usize, usize, MdStyle)> {
    highlight_line(line, false)
        .into_iter()
        .map(|s| (s.start, s.end, s.style))
        .collect()
}

#[test]
fn empty_line_is_empty() {
    assert!(highlight_line("", false).is_empty());
    assert!(highlight_line("", true).is_empty());
}

#[test]
fn fences() {
    assert!(is_fence("```"));
    assert!(is_fence("```rust"));
    assert!(is_fence("~~~"));
    assert!(is_fence("~~~toml"));
    assert!(is_fence("   ```"));
    assert!(!is_fence("    ```"));
    assert!(!is_fence("``"));
    assert!(!is_fence("```a```"));
    assert!(!is_fence("text"));

    assert_eq!(styles("```rust"), vec![(0, 7, MdStyle::Fence)]);
    assert_eq!(
        highlight_line("```", true),
        vec![Span::new(0, 3, MdStyle::Fence)]
    );
    assert_eq!(
        highlight_line("# not a heading here", true),
        vec![Span::new(0, 20, MdStyle::CodeBlock)]
    );
}

#[test]
fn separators() {
    assert!(is_separator("---"));
    assert!(is_separator("***"));
    assert!(is_separator("___"));
    assert!(is_separator("- - -"));
    assert!(is_separator("  ***  "));
    assert!(!is_separator("--"));
    assert!(!is_separator("-*-"));
    assert!(!is_separator(""));
    assert!(!is_separator("   "));
    assert!(!is_separator("---a"));
    assert_eq!(styles("---"), vec![(0, 3, MdStyle::Separator)]);
}

#[test]
fn headings() {
    assert_eq!(
        styles("# h1"),
        vec![
            (0, 2, MdStyle::HeadingMarker(1)),
            (2, 4, MdStyle::Heading(1))
        ]
    );
    assert_eq!(
        styles("###### h6"),
        vec![
            (0, 7, MdStyle::HeadingMarker(6)),
            (7, 9, MdStyle::Heading(6))
        ]
    );
    assert_eq!(styles("#"), vec![(0, 1, MdStyle::HeadingMarker(1))]);
    assert_eq!(styles("#nohash"), vec![(0, 7, MdStyle::Text)]);
    assert_eq!(styles("####### x"), vec![(0, 9, MdStyle::Text)]);
}

#[test]
fn quotes() {
    let s = styles("> hi");
    assert_eq!(s[0], (0, 2, MdStyle::QuoteMarker));
    assert_eq!(s[1], (2, 4, MdStyle::Quote));

    let s = styles(">> deep");
    assert_eq!(s[0].2, MdStyle::QuoteMarker);
    assert_eq!(s[0].1, 3);

    // Text inside a quote becomes Quote, but markup keeps its own style.
    let s = styles("> **b**");
    assert_eq!(s[0].2, MdStyle::QuoteMarker);
    assert!(s.iter().any(|x| x.2 == MdStyle::Bold));
    assert_eq!(styles(">"), vec![(0, 1, MdStyle::QuoteMarker)]);
}

#[test]
fn lists_and_tasks() {
    assert_eq!(
        styles("- item"),
        vec![(0, 2, MdStyle::ListMarker), (2, 6, MdStyle::Text)]
    );
    assert_eq!(
        styles("1. item"),
        vec![(0, 3, MdStyle::ListMarker), (3, 7, MdStyle::Text)]
    );
    assert_eq!(
        styles("12) item"),
        vec![(0, 4, MdStyle::ListMarker), (4, 8, MdStyle::Text)]
    );
    assert_eq!(
        styles("- [ ] todo"),
        vec![
            (0, 2, MdStyle::ListMarker),
            (2, 6, MdStyle::TaskOpen),
            (6, 10, MdStyle::Text)
        ]
    );
    assert_eq!(
        styles("- [x] done"),
        vec![
            (0, 2, MdStyle::ListMarker),
            (2, 6, MdStyle::TaskDone),
            // Struck through: the point of ⌘⏎ is that you can see it.
            (6, 10, MdStyle::Strikethrough)
        ]
    );
    assert_eq!(styles("- "), vec![(0, 2, MdStyle::ListMarker)]);
    assert_eq!(styles("-"), vec![(0, 1, MdStyle::Text)]);
}

/// A run of indented lines is one block; the app's own two-space outline is
/// not code, however deep it goes.
#[test]
fn indented_code_leaves_outlines_alone() {
    assert!(is_indented_code("    print(1)", true));
    assert!(is_indented_code("\tprint(1)", true));
    // Not the first line of a run.
    assert!(!is_indented_code("    print(1)", false));
    // Two spaces a level is this app's indent, not code.
    assert!(!is_indented_code("  overview", true));
    // A list item at any depth stays a list item.
    assert!(!is_indented_code("    - a nested bullet", true));
    assert!(!is_indented_code("      1. a nested number", true));
    assert!(!is_indented_code("    > a quote", true));
    assert!(!is_indented_code("    # a heading", true));
    assert!(!is_indented_code("    ```", true));
    assert!(!is_indented_code("        ", true), "blank is not code");
}

#[test]
fn quote_depth_counts_sigils() {
    assert_eq!(quote_depth("no quote"), 0);
    assert_eq!(quote_depth("> one"), 1);
    assert_eq!(quote_depth("> > two"), 2);
    assert_eq!(quote_depth(">>> three"), 3);
    assert_eq!(quote_depth("  > indented one"), 1);
}

/// `==marked==` is the extension a note app is expected to have.
#[test]
fn highlight_marks() {
    let s = styles("say ==this== please");
    assert!(
        s.iter().any(|x| x.2 == MdStyle::Highlight),
        "no highlight span in {s:?}"
    );
    // A single `=` is arithmetic, not markup.
    let plain = styles("a = b");
    assert!(plain.iter().all(|x| x.2 != MdStyle::Highlight));
}

/// A run of `=` underlines the line above into a heading; a run of `-` is
/// this app's note separator and deliberately stays one.
#[test]
fn only_equals_underlines_a_heading() {
    assert!(
        !takes_setext_underline("---"),
        "a rule is not something an underline turns into a heading"
    );
    assert!(!takes_setext_underline("***"));
    assert_eq!(setext_level("==="), Some(1));
    assert_eq!(setext_level("  ====  "), Some(1));
    assert_eq!(setext_level("---"), None, "a dash run is a rule here");
    assert_eq!(setext_level(""), None);
    assert_eq!(setext_level("=a="), None);

    assert!(takes_setext_underline("A title"));
    assert!(!takes_setext_underline(""));
    assert!(!takes_setext_underline("# already a heading"));
    assert!(!takes_setext_underline("- a list item"));
    assert!(!takes_setext_underline("> a quote"));
    assert!(!takes_setext_underline("```"));
}

#[test]
fn inline_code() {
    assert_eq!(
        styles("`x`"),
        vec![
            // One span: the chip includes its own ticks, so its edge is not
            // ragged around the first and last character.
            (0, 3, MdStyle::Code)
        ]
    );
    assert_eq!(styles("`x"), vec![(0, 2, MdStyle::Text)]);
}

#[test]
fn emphasis() {
    assert_eq!(
        styles("*i*"),
        vec![
            (0, 1, MdStyle::Marker),
            (1, 2, MdStyle::Italic),
            (2, 3, MdStyle::Marker)
        ]
    );
    assert_eq!(
        styles("**b**"),
        vec![
            (0, 2, MdStyle::Marker),
            (2, 3, MdStyle::Bold),
            (3, 5, MdStyle::Marker)
        ]
    );
    assert_eq!(
        styles("***bi***"),
        vec![
            (0, 3, MdStyle::Marker),
            (3, 5, MdStyle::BoldItalic),
            (5, 8, MdStyle::Marker)
        ]
    );
    assert_eq!(
        styles("~~s~~"),
        vec![
            (0, 2, MdStyle::Marker),
            (2, 3, MdStyle::Strikethrough),
            (3, 5, MdStyle::Marker)
        ]
    );
    // snake_case must stay plain
    assert_eq!(styles("snake_case_x"), vec![(0, 12, MdStyle::Text)]);
    assert!(styles("a_b_c").iter().all(|s| s.2 == MdStyle::Text));
    // but a word-boundary underscore emphasises
    assert!(styles("_x_").iter().any(|s| s.2 == MdStyle::Italic));
    // lone markers stay text
    assert_eq!(styles("*"), vec![(0, 1, MdStyle::Text)]);
    assert_eq!(styles("a * b"), vec![(0, 5, MdStyle::Text)]);
}

#[test]
fn links() {
    assert_eq!(
        styles("[a](b)"),
        vec![
            (0, 1, MdStyle::Marker),
            (1, 2, MdStyle::LinkText),
            // The URL is plumbing, like the brackets around it: the label
            // is what a person reads, and it should not be the quieter of
            // the two. Being the same style, it merges with them.
            (2, 6, MdStyle::Marker)
        ]
    );
    assert_eq!(
        styles("![a](b)"),
        vec![
            (0, 2, MdStyle::Marker),
            (2, 3, MdStyle::LinkText),
            // As above: the url is markup now, so it merges with the
            // punctuation either side of it.
            (3, 7, MdStyle::Marker)
        ]
    );
    assert_eq!(styles("[a]("), vec![(0, 4, MdStyle::Text)]);
    assert_eq!(styles("[a]"), vec![(0, 3, MdStyle::Text)]);
}

#[test]
fn inline_markup_nests() {
    // Emphasis, code and links parse inside a heading; only the prose takes
    // the heading style, the `**` no longer show through as literal text.
    let s = styles("# **bold**");
    assert_eq!(s[0].2, MdStyle::HeadingMarker(1));
    assert!(s.iter().any(|x| x.2 == MdStyle::Bold), "heading bold: {s:?}");
    // The `**` are dimmed markup now, not literal prose at heading size.
    assert!(s.iter().any(|x| x.2 == MdStyle::Marker), "dim markers: {s:?}");
    // A code span keeps its own style inside a heading.
    assert!(styles("# a `code` b")
        .iter()
        .any(|x| x.2 == MdStyle::Code));

    // Code nested inside emphasis keeps its chip rather than turning bold.
    let s = styles("**`code`**");
    assert_eq!(s[0].2, MdStyle::Marker);
    assert!(s.iter().any(|x| x.2 == MdStyle::Code), "code in bold: {s:?}");
    assert_eq!(s.last().unwrap().2, MdStyle::Marker);

    // Emphasis around code: the prose italicises, the code stays code.
    let s = styles("*a `b` c*");
    assert!(s.iter().any(|x| x.2 == MdStyle::Italic));
    assert!(s.iter().any(|x| x.2 == MdStyle::Code));

    // A link label emphasises its inner span.
    assert!(styles("[*a*](b)")
        .iter()
        .any(|x| x.2 == MdStyle::Italic));

    // Code is opaque: markup inside a code span stays literal code.
    assert_eq!(styles("`**not bold**`"), vec![(0, 14, MdStyle::Code)]);

    // A quoted heading nests too, and still exposes its HeadingMarker so the
    // renderer enlarges it (item 37).
    let s = styles("> # **q**");
    assert!(s.iter().any(|x| matches!(x.2, MdStyle::HeadingMarker(1))));
    assert!(s.iter().any(|x| x.2 == MdStyle::Bold));
}

#[test]
fn a_done_task_strikes_all_of_its_content() {
    // Not only the plain prose: the code span is struck as well, so the
    // whole item reads as done. Bullet and box keep their own styling.
    assert_eq!(
        styles("- [x] fix `bug`"),
        vec![
            (0, 2, MdStyle::ListMarker),
            (2, 6, MdStyle::TaskDone),
            (6, 15, MdStyle::Strikethrough),
        ]
    );
    // Emphasis and code both collapse into the strike.
    let s = styles("- [x] **a** `b`");
    assert_eq!(s[0].2, MdStyle::ListMarker);
    assert_eq!(s[1].2, MdStyle::TaskDone);
    assert!(s[2..].iter().all(|x| x.2 == MdStyle::Strikethrough));
    assert_eq!(s.len(), 3, "content should merge to one strike: {s:?}");
    // An open task is untouched — its code still reads as code.
    assert!(styles("- [ ] fix `bug`")
        .iter()
        .any(|x| x.2 == MdStyle::Code));
}

#[test]
fn autolinks() {
    assert_eq!(styles("http://x.y"), vec![(0, 10, MdStyle::LinkUrl)]);
    let s = styles("see https://a.b/c. ok");
    assert_eq!(s[0], (0, 4, MdStyle::Text));
    assert_eq!(s[1], (4, 17, MdStyle::LinkUrl));
    assert_eq!(s[2], (17, 21, MdStyle::Text));
    assert!(styles("nohttp://x.y").iter().all(|s| s.2 == MdStyle::Text));
}

#[test]
fn link_at_offsets() {
    // A bare autolink is clickable across its whole run, but not the text
    // around it.
    let line = "see http://a.b/c ok";
    assert_eq!(link_at(line, 0), None);
    assert_eq!(link_at(line, 4).as_deref(), Some("http://a.b/c"));
    assert_eq!(link_at(line, 15).as_deref(), Some("http://a.b/c"));
    assert_eq!(link_at(line, 17), None);

    // An inline `[text](url)` opens the url from anywhere in the construct —
    // the visible text or the parenthesised url.
    let line = "a [docs](https://x.y/z) b";
    assert_eq!(link_at(line, 0), None); // "a "
    assert_eq!(link_at(line, 4).as_deref(), Some("https://x.y/z")); // in "docs"
    assert_eq!(link_at(line, 12).as_deref(), Some("https://x.y/z")); // in the url
    assert_eq!(link_at(line, 22).as_deref(), Some("https://x.y/z")); // the ')'
    assert_eq!(link_at(line, 24), None); // "b"

    // A relative or scheme-less url still resolves; the opener adds https://.
    assert_eq!(link_at("[x](/rel)", 1).as_deref(), Some("/rel"));
    // Not a link: an empty target, or plain text.
    assert_eq!(link_at("[x]()", 1), None);
    assert_eq!(link_at("plain text", 3), None);
}

#[test]
fn document_tracks_fence_state() {
    let lines = ["# t", "```", "# not a heading", "```", "# t2"];
    let doc = highlight_document(&lines);
    assert_eq!(doc.len(), 5);
    assert_eq!(doc[0][0].style, MdStyle::HeadingMarker(1));
    assert_eq!(doc[1][0].style, MdStyle::Fence);
    assert_eq!(doc[2][0].style, MdStyle::CodeBlock);
    assert_eq!(doc[2].len(), 1);
    assert_eq!(doc[3][0].style, MdStyle::Fence);
    assert_eq!(doc[4][0].style, MdStyle::HeadingMarker(1));
}

#[test]
fn document_invariants() {
    let doc_lines: Vec<&str> = CASES.to_vec();
    let doc = highlight_document(&doc_lines);
    assert_eq!(doc.len(), doc_lines.len());
    for (line, spans) in doc_lines.iter().zip(doc.iter()) {
        if line.is_empty() {
            assert!(spans.is_empty());
            continue;
        }
        assert_eq!(spans[0].start, 0);
        assert_eq!(spans[spans.len() - 1].end, line.len());
        for w in spans.windows(2) {
            assert_eq!(w[0].end, w[1].start);
        }
    }
}

#[test]
fn empty_document() {
    assert!(highlight_document(&[]).is_empty());
    assert_eq!(highlight_document(&[""]), vec![Vec::<Span>::new()]);
}

/// Enter at the end of `line` continues it with `expect`.
fn continues(line: &str, expect: &str) {
    assert_eq!(
        continuation(line, line.len()),
        Some(Continuation::Next(expect.to_string())),
        "continuing {line:?}"
    );
}

/// Enter at the end of `line` leaves the list rather than continuing it.
fn clears(line: &str) {
    assert_eq!(
        continuation(line, line.len()),
        Some(Continuation::Clear),
        "clearing {line:?}"
    );
}

#[test]
fn bullets_carry_over() {
    continues("- milk", "- ");
    continues("* milk", "* ");
    continues("+ milk", "+ ");
    continues("   - indented", "   - ");
    continues("\t- tabbed", "\t- ");
}

#[test]
fn ordered_lists_count_up() {
    continues("1. first", "2. ");
    continues("9. ninth", "10. ");
    continues("1) paren", "2) ");
    continues("  12. indented", "  13. ");
}

#[test]
fn tasks_carry_over_unticked() {
    continues("- [ ] open", "- [ ] ");
    continues("- [x] done", "- [ ] ");
    continues("- [X] done", "- [ ] ");
    continues("2. [x] numbered task", "3. [ ] ");
}

#[test]
fn quotes_carry_over_and_keep_their_list() {
    continues("> quoted", "> ");
    continues(">> twice", ">> ");
    continues("> - quoted bullet", "> - ");
    continues("> 1. quoted item", "> 2. ");
}

#[test]
fn an_empty_item_ends_the_list() {
    clears("- ");
    clears("1. ");
    clears("- [ ] ");
    clears("- [x] ");
    clears("> ");
    clears("> - ");
    // Whitespace after the marker is still an empty item.
    clears("-    ");
}

/// Enter at the end of `line` steps a nested empty item out one level.
fn outdents(line: &str, expect: &str) {
    assert_eq!(
        continuation(line, line.len()),
        Some(Continuation::Outdent(expect.to_string())),
        "outdenting {line:?}"
    );
}

#[test]
fn an_empty_nested_item_outdents_one_level_before_it_clears() {
    // A single level of nesting: outdent to the margin, then clear.
    outdents("  - ", "- ");
    assert_eq!(continuation("- ", 2), Some(Continuation::Clear));
    // Two levels come out one press at a time.
    outdents("    - ", "  - ");
    outdents("  1. ", "1. ");
    // A hand-made tab is one whole level.
    outdents("\t- ", "- ");
    // A task box nested one level.
    outdents("  - [ ] ", "- [ ] ");
    // Trailing whitespace is still an empty item; it outdents too.
    outdents("  -    ", "-    ");
    // A partial indent still steps out to the margin.
    outdents(" - ", "- ");
    // A non-empty nested item carries its marker as before, never outdents.
    continues("  - milk", "  - ");
}

#[test]
fn enter_keeps_the_indentation_you_are_working_at() {
    assert_eq!(
        continuation("    a nested thought", 20),
        Some(Continuation::Next("    ".to_string()))
    );
    assert_eq!(
        continuation("\tby a tab", 9),
        Some(Continuation::Next("\t".to_string()))
    );
    // At the margin there is nothing to carry.
    assert_eq!(continuation("at the margin", 13), None);
    // A blank line is not an indent to preserve.
    assert_eq!(continuation("     ", 5), None);
    // Inside the indentation itself, Enter just breaks the line.
    assert_eq!(continuation("    text", 2), None);
}

#[test]
fn a_thematic_break_is_not_a_list_to_continue() {
    for rule in ["---", "- - -", "***", "* * *", "___", "  ---  "] {
        assert_eq!(continuation(rule, rule.len()), None, "rule {rule:?}");
    }
}

#[test]
fn plain_lines_are_left_alone() {
    assert_eq!(continuation("", 0), None);
    assert_eq!(continuation("just text", 9), None);
    assert_eq!(continuation("# Heading", 9), None);
    assert_eq!(continuation("-no space", 9), None);
    assert_eq!(continuation("2024. not a list", 16), Some(Continuation::Next("2025. ".into())));
}

#[test]
fn the_caret_inside_the_marker_just_breaks_the_line() {
    assert_eq!(continuation("- milk", 0), None);
    assert_eq!(continuation("- milk", 1), None);
    // At the end of the marker there is an item to continue.
    continues_at("- milk", 2, "- ");
    assert_eq!(continuation("- [ ] task", 3), None);
    continues_at("- [ ] task", 6, "- [ ] ");
}

fn continues_at(line: &str, caret: usize, expect: &str) {
    assert_eq!(
        continuation(line, caret),
        Some(Continuation::Next(expect.to_string())),
        "continuing {line:?} at {caret}"
    );
}

/// Splitting an item mid-text carries the marker; the tail moves down with
/// it, which is what every editor does.
#[test]
fn splitting_an_item_carries_the_marker() {
    continues_at("- milk and eggs", 7, "- ");
    continues_at("1. first and second", 9, "2. ");
}

#[test]
fn what_is_no_heading_may_be_code_or_take_an_underline() {
    assert!(!is_indented_code("    ---", true));
    assert!(!is_indented_code("    * * *", true));
    assert!(is_indented_code("    #include <stdio.h>", true));
    assert!(!is_indented_code("    # a heading", true));
    assert!(takes_setext_underline("#nohash"));
    assert!(takes_setext_underline("####### seven"));
    assert!(!takes_setext_underline("# a heading"));
}

#[test]
fn enter_carries_a_prefix_again_and_again() {
    for line in ["- a", "  * a", "> a", "> > - a", ">- [x] a", "- [ ] a", "\t+ a"] {
        let Some(Continuation::Next(prefix)) = continuation(line, line.len()) else {
            panic!("{line:?}");
        };
        let next = format!("{prefix}x");
        assert_eq!(continuation(&next, next.len()), Some(Continuation::Next(prefix)), "{line:?}");
    }
    // A number counts up instead.
    assert_eq!(continuation("1. a", 4), Some(Continuation::Next("2. ".to_string())));
    assert_eq!(continuation("2. x", 4), Some(Continuation::Next("3. ".to_string())));
}
