use gravitynote::app::rows::{chips, Chip, Ink, Stand, Wash};
use gravitynote::app::NoteApp;
use gravitynote::labels::{char_count, ellipsise, missing_label};
use gravitynote::markdown::{
    highlight_line, is_separator, link_at, merge, takes_setext_underline, MdStyle, Span,
};
use gravitynote::moment::{backup_when, Moment};
use gravitynote::note::store::{load_note, FileRead};
use gravitynote::note::{is_separator_line, Note};
use gravitynote::palette::{subsequence, Palette};
use gravitynote::reports::{
    backup_report, export_report, login_report, move_onward, open_at_login_label, reclaim_step,
    reclaimed_report, Backup, Moving, Onward, Reclaim, RECLAIM_CONFIRM,
};
use gravitynote::runs::{apply_wash, build_runs, has_background, Run};
use gravitynote::session::open;
use gravitynote::shortcuts::{
    chord as chord_of, common_shortcut_conflict, record_shortcut, shortcut_prompt, shortcut_report,
    Hotkey, Modifiers, Recorded,
};
use gravitynote::text::{is_white_space, trim, trim_end, trim_start, width};
use gravitynote::utf16::{to_utf16, utf16_offset_in};
use gravitynote::web::{is_bare_url, is_link_text, open_link, Opening};

fn editor(text: &str, caret: usize) -> NoteApp {
    let read = load_note(FileRead::Bytes(text.as_bytes().to_vec()));
    let opened = open(None, read, 0);
    NoteApp::new(opened.note, opened.saving, caret)
}

fn styles(line: &str) -> Vec<(String, MdStyle)> {
    highlight_line(line, false)
        .iter()
        .map(|s| (line[s.start..s.end].to_string(), s.style))
        .collect()
}

#[test]
fn white_space_is_what_the_standard_says() {
    for u in 0..=0x10ffff {
        if let Some(c) = char::from_u32(u) {
            assert_eq!(is_white_space(c), c.is_whitespace(), "{u:x}");
            assert_eq!(width(c), c.len_utf8());
        }
    }
    for s in ["", " a ", "\u{3000}a\u{a0}", "\t\n", "é\u{85}"] {
        assert_eq!(trim(s), s.trim());
        assert_eq!(trim_start(s), s.trim_start());
        assert_eq!(trim_end(s), s.trim_end());
    }
}

#[test]
fn underscores_inside_words_of_any_script_are_text() {
    assert_eq!(styles("snake_case_name"), vec![("snake_case_name".to_string(), MdStyle::Text)]);
    assert_eq!(styles("α_β_γ"), vec![("α_β_γ".to_string(), MdStyle::Text)]);
    assert_eq!(styles("日_本_語"), vec![("日_本_語".to_string(), MdStyle::Text)]);
    assert_eq!(styles("—_x_—")[2].1, MdStyle::Italic);
}

#[test]
fn what_reads_as_a_link_opens() {
    // Every byte in link colours opens, and what opens is part of a link.
    for line in [
        "plain",
        "see [docs](https://x.org) now",
        "https://x.org, then [a](b)",
        "[a](b)[c](d)",
        "no_link [a] (b)",
        "**http://x.y** and *[a](b)*",
        "# [a](b) and `http://x.y`",
        "> > - [ ] ~~http://x.y~~ ![a](b)",
        "- [x] [a](b) http://x.y",
        "`[a](b)`",
        "---",
    ] {
        let spans = highlight_line(line, false);
        for at in 0..line.len() {
            let style = spans.iter().find(|s| s.start <= at && at < s.end).unwrap().style;
            let url = link_at(line, at);
            if style == MdStyle::LinkText || style == MdStyle::LinkUrl {
                assert!(url.is_some(), "{line:?} at {at}");
            }
            if style == MdStyle::Code || style == MdStyle::Text || style == MdStyle::Strikethrough {
                assert_eq!(url, None, "{line:?} at {at}");
            }
        }
    }
    assert_eq!(link_at("see [docs](https://x.org) now", 5).as_deref(), Some("https://x.org"));
    // Inside emphasis, headings and quotes the address alone opens.
    assert_eq!(link_at("**http://x.y**", 5).as_deref(), Some("http://x.y"));
    assert_eq!(link_at("**http://x.y**", 0), None);
    assert_eq!(link_at("**http://x.y**", 13), None);
    assert_eq!(link_at("# [a](b)", 3).as_deref(), Some("b"));
    assert_eq!(link_at("> > - [ ] [a](b)", 11).as_deref(), Some("b"));
    // An image's text is its link; the mark in front of it is not.
    assert_eq!(link_at("![a](b)", 0), None);
    assert_eq!(link_at("![a](b)", 2).as_deref(), Some("b"));
    // What is code, or done with, is not drawn as a link and does not open.
    assert_eq!(link_at("`[a](b)`", 2), None);
    assert_eq!(link_at("`http://x.y`", 4), None);
    assert_eq!(link_at("- [x] [a](b)", 7), None);
    // The text of a link without an address leads nowhere.
    assert_eq!(link_at("[a]( )", 1), None);
    assert_eq!(link_at("", 0), None);
    assert_eq!(link_at("http://x.y", 99), None);
}

#[test]
fn quotes_may_nest_as_deep_as_they_like() {
    let line = format!("{}http://x.y", " >".repeat(3000));
    let spans = highlight_line(&line, false);
    assert_eq!(spans.last().unwrap().style, MdStyle::LinkUrl);
    assert_eq!(link_at(&line, line.len() - 1).as_deref(), Some("http://x.y"));
}

#[test]
fn merging_draws_the_same_with_fewer_spans() {
    let span = |start, end, style| Span::new(start, end, style);
    let mut spans = vec![
        span(3, 4, MdStyle::Text),
        span(4, 6, MdStyle::Text),
        span(6, 7, MdStyle::Bold),
        span(7, 9, MdStyle::Bold),
        span(9, 10, MdStyle::Text),
    ];
    merge(&mut spans);
    let once = vec![span(3, 6, MdStyle::Text), span(6, 9, MdStyle::Bold), span(9, 10, MdStyle::Text)];
    assert_eq!(spans, once);
    merge(&mut spans);
    assert_eq!(spans, once);
    let mut none: Vec<Span> = Vec::new();
    merge(&mut none);
    assert!(none.is_empty());
    // Spans with a gap between them stay apart.
    let mut apart = vec![span(0, 1, MdStyle::Text), span(2, 3, MdStyle::Text)];
    merge(&mut apart);
    assert_eq!(apart.len(), 2);
}

#[test]
fn words_are_plain() {
    let plain = |line: &str| vec![(line.to_string(), MdStyle::Text)];
    for line in ["snake_case_name", "a__b__c", "x_1_y_", "httpd", "9lives", "xhttp"] {
        assert_eq!(styles(line), plain(line));
    }
    assert_eq!(styles("xhttp://y.z"), plain("xhttp://y.z"));
    assert_eq!(styles("1http://y.z"), plain("1http://y.z"));
    assert_eq!(styles("-http://y.z")[1].1, MdStyle::LinkUrl);
    assert_eq!(styles("_a_b"), plain("_a_b"));
}

#[test]
fn quoting_a_line_shifts_and_recolours_it() {
    for line in ["plain *text*", "# head", "- [x] done", "`code`", "---", "  > deeper", "```"] {
        let mut wanted = vec![Span::new(0, 2, MdStyle::QuoteMarker)];
        for s in highlight_line(line, false) {
            let style = if s.style == MdStyle::Text { MdStyle::Quote } else { s.style };
            wanted.push(Span::new(s.start + 2, s.end + 2, style));
        }
        merge(&mut wanted);
        assert_eq!(highlight_line(&format!("> {line}"), false), wanted, "{line:?}");
    }
}

#[test]
fn what_takes_an_underline_is_drawn_as_prose() {
    for line in ["plain", "a *b* `c`", "#nohash", "    # x", "[a](b)", "1.x", " http://x.y"] {
        assert!(takes_setext_underline(line), "{line:?}");
        for (_, style) in styles(line) {
            assert!(!matches!(
                style,
                MdStyle::Heading(_)
                    | MdStyle::HeadingMarker(_)
                    | MdStyle::ListMarker
                    | MdStyle::QuoteMarker
                    | MdStyle::Quote
                    | MdStyle::Fence
                    | MdStyle::Separator
            ));
        }
    }
    for line in ["- a", "> a", "# a", "---", "```", "===", ""] {
        assert!(!takes_setext_underline(line), "{line:?}");
    }
}

#[test]
fn the_two_tests_for_a_rule_agree() {
    for line in ["---", "- - -", "\t***  ", "_ _\t_", "--", "-*-", "---a", "", "  ", "é---", "— — —"] {
        assert_eq!(is_separator(line), is_separator_line(line), "{line:?}");
    }
    // Other white space parts them.
    assert!(is_separator("\u{a0}---") && !is_separator_line("\u{a0}---"));
    assert!(!is_separator("-\r--") && is_separator_line("-\r--"));
}

#[test]
fn no_two_neighbouring_spans_share_a_style() {
    for line in ["a [b](c) d", "> > *a* b", "- [x] **a** `b`", "a_b_c *d*", "# a `b`"] {
        let spans = highlight_line(line, false);
        assert!(spans.windows(2).all(|w| w[0].end == w[1].start && w[0].style != w[1].style));
    }
}

#[test]
fn utf16_offsets_round_trip() {
    let text = "aé日😀z";
    for (at, _) in text.char_indices() {
        assert_eq!(utf16_offset_in(text, to_utf16(text, at)), at);
    }
    assert_eq!(to_utf16(text, 10), 5);
    assert_eq!(utf16_offset_in(text, 3), 6);
    // Half a pair belongs to the character it is in.
    assert_eq!(utf16_offset_in("😀z", 1), 4);
    assert_eq!(utf16_offset_in(text, 99), text.len());
}

#[test]
fn a_loose_query_keeps_its_order() {
    assert!(subsequence("Bring Note Up", "bnu"));
    assert!(subsequence("Bring Note Up", ""));
    assert!(!subsequence("Bring Note Up", "unb"));
    assert!(!subsequence("", "a"));
}

#[test]
fn palette_steps_wrap_and_cancel() {
    let mut p = Palette::new();
    p.move_palette(false, 4);
    assert_eq!(p.selected, 3);
    p.move_palette(true, 4);
    assert_eq!(p.selected, 0);
    p.move_palette(true, 0);
    assert_eq!(p.selected, 0);
    assert!(p.insert("né"));
    assert!(!p.insert("a\nb"));
    assert_eq!(p.query, "né");
    p.backspace();
    assert_eq!(p.query, "n");
}

#[test]
fn the_choice_is_always_visible() {
    let mut p = Palette::new();
    for selected in 0..30 {
        p.selected = selected;
        let first = p.first_visible(30);
        assert!(first <= selected && selected < first + 9);
    }
}

#[test]
fn only_web_and_mail_addresses_open() {
    assert!(is_bare_url(" https://x.org/a "));
    assert!(is_bare_url("mailto:a@b.c"));
    assert!(!is_bare_url("https://x.org and more"));
    assert!(!is_bare_url("ftp://x.org"));
    assert!(is_link_text("two words"));
    assert!(!is_link_text("[a](b)"));
    assert!(!is_link_text(" "));
    assert!(matches!(open_link("https://x.org"), Opening::Open(u) if u == "https://x.org"));
    assert!(matches!(open_link("MAILTO:a@b.c"), Opening::Open(_)));
    assert!(matches!(open_link("x.org/a"), Opening::Open(u) if u == "https://x.org/a"));
    assert!(matches!(open_link("file:///etc/passwd"), Opening::Refused(_)));
    assert!(matches!(open_link("  "), Opening::Nothing));
}

#[test]
fn a_wash_splits_the_runs_it_covers() {
    let whole = vec![Run { len: 6, span: Some(0), wash: None }];
    let runs = apply_wash(whole, 2, 4, 7);
    let seen: Vec<(usize, Option<usize>)> = runs.iter().map(|r| (r.len, r.wash)).collect();
    assert_eq!(seen, vec![(2, None), (2, Some(7)), (2, None)]);
    // A wash that ends at a run's edge makes no empty run, and one that covers
    // two runs keeps them apart.
    let two = vec![Run { len: 3, span: Some(0), wash: None }, Run { len: 3, span: Some(1), wash: None }];
    let seen: Vec<(usize, Option<usize>, Option<usize>)> =
        apply_wash(two, 1, 6, 7).iter().map(|r| (r.len, r.span, r.wash)).collect();
    assert_eq!(seen, vec![(1, Some(0), None), (2, Some(0), Some(7)), (3, Some(1), Some(7))]);
    // The last wash wins, and every byte is drawn once.
    let line = "a **b** c";
    let spans = highlight_line(line, false);
    let runs = build_runs(line, &spans, &vec![(0, 5), (3, 9)]);
    assert_eq!(runs.iter().map(|r| r.len).sum::<usize>(), line.len());
    assert_eq!(runs[0].wash, Some(0));
    assert_eq!(runs[runs.len() - 1].wash, Some(1));
    // Spans that do not tile the text degrade to plain.
    let runs = build_runs("abc", &vec![Span::new(0, 2, MdStyle::Bold)], &vec![]);
    assert_eq!(runs.len(), 1);
    assert_eq!(runs[0].span, None);
    // Code stands on a surface of its own.
    assert!(!has_background(MdStyle::Code));
    assert!(!has_background(MdStyle::CodeBlock));
    assert!(!has_background(MdStyle::Fence));
    assert!(has_background(MdStyle::Text) && has_background(MdStyle::Highlight));
}

#[test]
fn labels_are_cut_in_the_middle() {
    assert_eq!(ellipsise("abcdefgh", 8), "abcdefgh");
    assert_eq!(ellipsise("abcdefgh", 5), "ab…gh");
    assert_eq!(ellipsise("äbcdefgh", 6), "äbc…gh");
    assert_eq!(ellipsise("abcdefgh", 3), "abc");
    assert_eq!(missing_label("cat.png", 16), "missing: cat.png");
    assert_eq!(missing_label("a-long-name.png", 14), "missing: a-…ng");
    assert_eq!(missing_label("cat.png", 12), "?");
    assert_eq!(char_count("äö"), 2);
}

fn chord(key: &str, cmd: bool, shift: bool) -> Hotkey {
    Hotkey { key: key.to_string(), cmd, ctrl: false, alt: false, shift }
}

#[test]
fn shortcuts_warn_about_what_they_shadow() {
    assert_eq!(common_shortcut_conflict(&chord("q", true, false)), Some("Quit"));
    assert_eq!(common_shortcut_conflict(&chord("q", true, true)), None);
    assert_eq!(common_shortcut_conflict(&chord("j", true, false)), None);
    assert!(matches!(record_shortcut("shift", chord("shift", false, true), "⇧", true, 0), Recorded::Waiting));
    assert!(matches!(record_shortcut("escape", chord("escape", true, false), "⌘⎋", true, 0), Recorded::Cancelled));
    assert!(matches!(record_shortcut("k", chord("k", false, false), "K", true, 0), Recorded::Refused(_)));
    match record_shortcut("f13", chord("f13", true, false), "⌘F13", false, 0) {
        Recorded::Refused(n) => assert_eq!(
            n.text,
            "⌘F13 is not a key GravityNote can register globally. Try another."
        ),
        _ => panic!(),
    }
    match record_shortcut("q", chord("q", true, false), "⌘Q", true, 0) {
        Recorded::Taken(_, Some(n)) => assert_eq!(
            n.text,
            "⌘Q is now Show / Hide — it will override “Quit” everywhere while GravityNote is running."
        ),
        _ => panic!(),
    }
    let made = chord_of("ÄQ", Modifiers { cmd: true, ctrl: false, alt: true, shift: false });
    assert_eq!(made, Hotkey { key: "äq".to_string(), cmd: true, ctrl: false, alt: true, shift: false });
    assert_eq!(shortcut_prompt(true, Some("⌘K")), "Press keys…");
    assert_eq!(shortcut_prompt(false, Some("⌘K")), "⌘K");
    assert_eq!(shortcut_prompt(false, None), "Off");
    assert_eq!(shortcut_report(Some("⌘K"), None, 0).text, "Show / Hide is now ⌘K");
    assert_eq!(shortcut_report(None, None, 0).text, "Global show / hide shortcut is off");
    assert!(shortcut_report(None, Some("taken"), 0).alert);
}

#[test]
fn reports_say_what_happened() {
    assert_eq!(backup_report(&Backup::Made("b.md".to_string()), 0).text, "Backed up to b.md");
    assert_eq!(
        backup_report(&Backup::Unchanged, 0).text,
        "Nothing has changed since the last backup."
    );
    assert_eq!(backup_report(&Backup::Failed("full".to_string()), 0).text, "Backup failed: full");
    assert_eq!(export_report("n.md", None, 0).text, "Exported to n.md");
    assert!(export_report("n.md", Some("no"), 0).alert);
    assert_eq!(login_report(true, None, 0).text, "GravityNote will open at login.");
    assert!(login_report(true, Some("no"), 0).alert);
    assert_eq!(open_at_login_label(true), "✓ Open at Login");
}

#[test]
fn unused_images_are_deleted_on_the_second_asking() {
    let (said, offered) = reclaim_step(None, 1, "12 KB", 5);
    match said {
        Reclaim::Say(n) => assert_eq!(
            n.text,
            "1 image no longer used by the note or any backup, 12 KB. Choose Reclaim Unused Images again to delete them."
        ),
        Reclaim::Delete => panic!(),
    }
    assert_eq!(offered, Some(5));
    assert!(matches!(reclaim_step(offered, 1, "12 KB", 4 + RECLAIM_CONFIRM), (Reclaim::Delete, None)));
    // The offer lapses.
    assert!(matches!(reclaim_step(offered, 1, "12 KB", 5 + RECLAIM_CONFIRM), (Reclaim::Say(_), Some(_))));
    assert!(matches!(reclaim_step(None, 0, "", 0), (Reclaim::Say(_), None)));
    assert_eq!(reclaimed_report(0, 3, "12 KB", 0).text, "Reclaimed 12 KB.");
    assert_eq!(reclaimed_report(2, 3, "12 KB", 0).text, "2 of 3 images could not be deleted.");
}

#[test]
fn a_note_moves_step_by_step() {
    let mut at = Moving::Compare;
    let mut steps = 0;
    while at != Moving::Settle {
        at = match move_onward(at, None, "~/N", 0) {
            Onward::Go(next, None) => next,
            _ => panic!(),
        };
        steps += 1;
    }
    assert_eq!(steps, 8);
    match move_onward(Moving::Probe, Some("denied"), "~/N", 0) {
        Onward::Stop(n) => assert_eq!(n.text, "Cannot write to that folder: denied"),
        _ => panic!(),
    }
    // Pictures that stay behind do not stop the note.
    assert!(matches!(
        move_onward(Moving::Pictures, Some("busy"), "~/N", 0),
        Onward::Go(Moving::Settle, Some(_))
    ));
}

#[test]
fn rows_are_drawn_by_what_stands_around_them() {
    let app = editor("Title\n=====\n\n---\n```\ncode\n```\n> > q\n", 0);
    let row = |l| app.row(l, false, false, true);
    assert_eq!(row(0).heading, Some(1));
    assert_eq!(row(0).caret, Some(0));
    assert_eq!(row(1).ink, Ink::Marker);
    assert!(!row(1).spans_shown);
    assert_eq!(row(2).stand, Stand::Space);
    assert!(row(3).rule);
    assert_eq!(row(3).ink, Ink::Hidden);
    assert!(row(4).band && !row(4).code);
    assert!(row(5).band && row(5).code);
    assert_eq!(row(7).nesting, 1);
    let empty = editor("", 0).row(0, false, false, false);
    assert_eq!((empty.stand, empty.ink, empty.caret), (Stand::Invitation, Ink::Placeholder, None));
}

#[test]
fn indented_code_needs_a_blank_line_above_it() {
    let app = editor("prose\n    not code\n\n    code\n    code", 0);
    assert!(!app.starts_indented_code(1));
    assert!(app.starts_indented_code(3));
    assert!(app.starts_indented_code(4));
    assert!(!app.starts_indented_code(99));
}

#[test]
fn a_row_is_washed_by_hits_and_the_selection() {
    let mut app = editor("one\ntwo\nthree", 0);
    app.set_selection(5, 9);
    let row = app.row(1, false, false, true);
    assert_eq!((row.selected_from, row.selected_to), (1, 3));
    assert_eq!(
        row.washes(&vec![(2, 5), (6, 7)], Some((6, 7))),
        vec![(0, 1, Wash::Match), (2, 3, Wash::Current), (1, 3, Wash::Selection)]
    );
    // A picture in place of its reference is washed by nothing.
    let row = app.row(1, true, false, true);
    assert!(row.hidden);
    assert!(row.washes(&vec![(4, 5)], None).is_empty());
    let line = "a `b` ==c==";
    assert_eq!(
        chips(&highlight_line(line, false), line.len()),
        vec![(2, 5, Chip::Code), (8, 9, Chip::Highlight)]
    );
}

#[test]
fn a_picture_shows_its_reference_under_the_caret() {
    let app = editor("x\n![](a.png)\ny", 4);
    assert!(app.row(1, true, false, true).reveal);
    assert!(!app.row(1, true, true, true).reveal);
    let mut app = editor("x\n![](a.png)\ny", 0);
    assert!(!app.row(1, true, false, true).reveal);
    app.set_selection(0, 14);
    assert!(app.row(1, true, false, true).picked);
}

#[test]
fn links_inside_a_fence_are_text() {
    let app = editor("[a](b)\n```\n[a](b)\n```", 0);
    assert_eq!(app.link_at_offset(1).as_deref(), Some("b"));
    assert_eq!(app.link_at_offset(12), None);
}

#[test]
fn backups_say_when_they_were_made() {
    let at = |year, month, day, hour, minute| Moment { year, month, day, hour, minute };
    assert_eq!(backup_when(at(2024, 2, 29, 9, 5)).as_deref(), Some("Thu 29 Feb, 09:05"));
    assert_eq!(backup_when(at(2023, 1, 1, 0, 0)).as_deref(), Some("Sun 1 Jan, 00:00"));
    assert_eq!(backup_when(at(1999, 12, 31, 23, 59)).as_deref(), Some("Fri 31 Dec, 23:59"));
    assert_eq!(backup_when(at(1900, 3, 1, 0, 0)).as_deref(), Some("Thu 1 Mar, 00:00"));
    assert_eq!(backup_when(at(1600, 2, 29, 0, 0)).as_deref(), Some("Tue 29 Feb, 00:00"));
    assert_eq!(backup_when(at(1, 1, 1, 0, 0)).as_deref(), Some("Mon 1 Jan, 00:00"));
    // The calendar repeats every four hundred years, before its first one too.
    assert_eq!(backup_when(at(-1, 3, 1, 0, 0)).as_deref(), Some("Mon 1 Mar, 00:00"));
    // Every month's last day is there, and no day after it.
    for year in [1900, 2000, 2023, 2024, -4] {
        let leap = year % 4 == 0 && (year % 100 != 0 || year % 400 == 0);
        let days = [31, if leap { 29 } else { 28 }, 31, 30, 31, 30, 31, 31, 30, 31, 30, 31];
        for (i, last) in days.iter().enumerate() {
            assert!(backup_when(at(year, i as u32 + 1, *last, 12, 0)).is_some());
            assert!(backup_when(at(year, i as u32 + 1, *last + 1, 12, 0)).is_none());
        }
    }
    assert_eq!(backup_when(at(2024, 0, 1, 0, 0)), None);
    assert_eq!(backup_when(at(2024, 13, 1, 0, 0)), None);
    assert_eq!(backup_when(at(2024, 1, 0, 0, 0)), None);
    assert_eq!(backup_when(at(2024, 1, 1, 24, 0)), None);
    assert_eq!(backup_when(at(2024, 1, 1, 0, 60)), None);
    assert!(backup_when(at(262142, 12, 31, 0, 0)).is_some());
    assert_eq!(backup_when(at(262143, 1, 1, 0, 0)), None);
    assert!(backup_when(at(-262143, 1, 1, 0, 0)).is_some());
    assert_eq!(backup_when(at(-262144, 12, 31, 0, 0)), None);
}

#[test]
fn notes_and_rules_make_the_document() {
    for text in ["", "a", "---", "a\n---\nb\n\n---\n", "```\n---\n```\n---\nx", "é\n***\n日"] {
        let note = Note::from_text(text);
        let blocks = note.blocks();
        let mut next = 0;
        for block in &blocks {
            assert!(text.is_char_boundary(block.start) && text.is_char_boundary(block.end));
            if let Some(rule) = block.sep_line {
                assert_eq!(rule, next);
                next += 1;
            }
            assert_eq!(block.first_line, next);
            next = if block.start < block.end || note.lines()[next..].first() == Some(&"") {
                block.last_line + 1
            } else {
                next
            };
        }
        assert_eq!(next, note.line_count());
        for at in 0..=text.len() {
            assert!(note.block_index_at(at) < blocks.len());
        }
    }
}
