use tomesole::history::{Disk, Entry};
use tomesole::model::Book;
use tomesole::term::{display_width, terminal_width, Style};
use tomesole::ui::{
    complaint, flex_widths, json_escape, json_history, json_results, prompt_selection, prompt_text,
    render_history, render_results, Reply, ATTEMPTS,
};

const NOW: u64 = 1_700_000_000;

fn width() -> usize {
    terminal_width(None, &None)
}

fn nowhere() -> Disk {
    Disk { files: Vec::new() }
}

fn books() -> Vec<Book> {
    vec![
        Book {
            md5: "1b9159991f7fb1b3910c0be9ebf7e595".into(),
            title: "The Rust Programming Language".into(),
            authors: Some("Klabnik, Steve;Nichols, Carol".into()),
            year: Some("2019".into()),
            language: Some("English".into()),
            extension: Some("epub".into()),
            size_bytes: Some(19 * 1024),
            ..Default::default()
        },
        Book {
            md5: "0000000000000000000000000000abcd".into(),
            title: "A Very Long Title That Will Certainly Need To Be Truncated Somewhere".into(),
            authors: None,
            ..Default::default()
        },
    ]
}

#[test]
fn table_has_a_row_per_book_plus_headers() {
    let rendered = render_results(&books(), width(), &Style::plain());
    let lines: Vec<&str> = rendered.lines().collect();
    assert_eq!(lines.len(), 4, "header, rule, two rows");
    assert!(lines[2].contains("Rust Programming"));
    assert!(lines[2].contains("epub"));
    assert!(lines[2].contains("Klabnik"));
}

#[test]
fn rows_never_exceed_the_terminal_width() {
    let width = width();
    let rendered = render_results(&books(), width, &Style::plain());
    for line in rendered.lines() {
        assert!(
            display_width(line) <= width,
            "line of {} exceeds {width}: {line:?}",
            display_width(line)
        );
    }
}

/// Records really do carry values like `2016;2014` in the year column.
#[test]
fn overlong_fixed_width_fields_do_not_shift_the_row() {
    let mut list = books();
    list[0].year = Some("2016;2014;2011".into());
    list[0].language = Some("English, French, German".into());
    list[0].extension = Some("verylongformat".into());
    let width = width();
    let rendered = render_results(&list, width, &Style::plain());

    let lines: Vec<&str> = rendered.lines().collect();
    for line in &lines {
        assert!(display_width(line) <= width, "{line:?}");
    }
    // The row must keep the same column layout as the header rule.
    assert!(
        !lines[2].contains("2016;2014;2011"),
        "year was not truncated"
    );
}

#[test]
fn missing_metadata_renders_blank_not_none() {
    let rendered = render_results(&books(), width(), &Style::plain());
    assert!(!rendered.contains("None"));
}

#[test]
fn wide_titles_stay_aligned() {
    let mut list = books();
    list[0].title = "日本語のタイトル".repeat(10);
    let width = width();
    let rendered = render_results(&list, width, &Style::plain());
    for line in rendered.lines() {
        assert!(display_width(line) <= width, "{line:?}");
    }
}

fn history_entries() -> Vec<Entry> {
    vec![
        Entry {
            at: NOW - 7200,
            md5: "1b9159991f7fb1b3910c0be9ebf7e595".into(),
            // Long enough that anything appended to it is truncated away.
            path: "/definitely/not/here/a.epub".into(),
            size: 3 * 1024 * 1024,
            verified: true,
            title: "Saga Dune 1-6. La mayor epopeya de todos los tiempos: edición estuche".into(),
            authors: Some("Herbert, Frank;Herbert, Brian".into()),
            extension: Some("epub".into()),
        },
        Entry {
            at: 0,
            md5: "0".repeat(32),
            path: "/definitely/not/here/b.pdf".into(),
            size: 0,
            verified: false,
            title: String::new(),
            authors: None,
            extension: None,
        },
    ]
}

#[test]
fn the_history_table_lines_up() {
    let width = width();
    let rendered = render_history(&history_entries(), &nowhere(), NOW, width, &Style::plain());
    let lines: Vec<&str> = rendered.lines().collect();
    assert_eq!(lines.len(), 4, "header, rule, two rows");
    assert!(lines[2].contains("Saga Dune"));
    assert!(lines[2].contains("2h ago"), "{:?}", lines[2]);
    // Only the first of several authors fits.
    assert!(lines[2].contains("Herbert, Frank") && !lines[2].contains("Brian"));

    for line in &lines {
        assert!(display_width(line) <= width, "{line:?}");
    }
}

/// The mark for a file that has gone missing has to survive truncation — the row
/// that most needs it is the one with the longest title.
#[test]
fn a_missing_file_is_marked_even_with_a_long_title() {
    let rendered = render_history(
        &history_entries(),
        &nowhere(),
        NOW,
        width(),
        &Style::plain(),
    );
    for line in rendered.lines().skip(2) {
        assert!(
            line.split_whitespace().nth(1) == Some("!"),
            "no missing mark on: {line:?}"
        );
    }
}

#[test]
fn an_entry_with_nothing_in_it_still_renders() {
    let last = history_entries().split_off(1);
    let rendered = render_history(&last, &nowhere(), NOW, width(), &Style::plain());
    assert!(!rendered.contains("None"));
    assert_eq!(rendered.lines().count(), 3);
}

#[test]
fn history_json_carries_both_forms_of_the_time() {
    let json = json_history(&history_entries(), &nowhere());
    assert!(json.contains("\"downloaded_at\": "));
    assert!(json.contains("\"downloaded_at_utc\": \""));
    assert!(json.contains("\"present\": false"));
    assert!(json.contains("\"verified\": true"));
    // Absent optional fields are omitted rather than nulled.
    assert!(!json.contains("\"authors\": \"\""));
    assert_eq!(json_history(&vec![], &nowhere()).trim(), "[\n]");
}

#[test]
fn json_is_well_formed_and_escaped() {
    let mut list = books();
    list[0].title = "Quote \" backslash \\ newline \n".into();
    let json = json_results(&list);
    assert!(json.starts_with("[\n"));
    assert!(json.trim_end().ends_with(']'));
    assert!(json.contains(r#"\" backslash \\ newline \n"#));
    // Optional fields that are absent are omitted rather than null.
    assert!(!json.contains("\"authors\": \"\""));
}

#[test]
fn json_escapes_control_characters() {
    assert_eq!(json_escape("a\u{1}b"), "a\\u0001b");
    assert_eq!(json_escape("tab\there"), "tab\\there");
}

#[test]
fn empty_results_produce_an_empty_json_array() {
    assert_eq!(json_results(&vec![]).trim(), "[\n]");
}

#[test]
fn flex_widths_stay_positive_on_narrow_terminals() {
    for width in [40usize, 60, 80, 100, 200] {
        let (title, author) = flex_widths(width);
        assert!(
            title >= 20 && author >= 12,
            "width {width} gave {title}/{author}"
        );
    }
}

#[test]
fn a_present_file_carries_no_mark() {
    let disk = Disk {
        files: vec!["/definitely/not/here/a.epub".to_string()],
    };
    let rendered = render_history(&history_entries(), &disk, NOW, width(), &Style::plain());
    let first = rendered.lines().nth(2).unwrap();
    assert_eq!(first.split_whitespace().nth(1), Some("Saga"));
}

#[test]
fn the_question_counts_the_choices() {
    assert_eq!(
        prompt_text(7, &Style::plain()),
        "\n  Select 1-7 (e.g. 3, or 1-4; Enter to cancel) › "
    );
}

#[test]
fn an_answer_is_taken_refused_or_given_up_on() {
    let said = |s: &str, attempt| prompt_selection(&Some(s.to_string()), 5, attempt);
    assert!(matches!(prompt_selection(&None, 5, 0), Reply::Decline));
    for s in ["", " \n", "q\n", "Q"] {
        assert!(matches!(said(s, 0), Reply::Decline), "{s:?}");
    }
    match said("4, 1-2\n", 0) {
        Reply::Picks(picks) => assert_eq!(picks, [0, 1, 3]),
        other => panic!("{other:?}"),
    }
    match said("9", 0) {
        Reply::Again(reason) => {
            assert_eq!(reason, "`9` is outside 1-5");
            assert_eq!(
                complaint(&reason, &Style::plain()),
                "  ✗ `9` is outside 1-5\n"
            );
        }
        other => panic!("{other:?}"),
    }
    match said("many", ATTEMPTS - 1) {
        Reply::GiveUp(reason) => assert_eq!(reason, "`many` is not a number"),
        other => panic!("{other:?}"),
    }
}

fn overlong() -> Vec<Book> {
    let mut list = books();
    list[0].title = "日本語のタイトル".repeat(10);
    list[0].year = Some("2016;2014;2011".into());
    list[0].language = Some("English, French, German".into());
    list[1].extension = Some("verylongformat".into());
    list
}

#[test]
fn no_line_of_the_results_exceeds_any_terminal() {
    for width in [0usize, 1, 6, 20, 40, 60, 73, 74, 75, 100, 200] {
        for list in [books(), overlong()] {
            let rendered = render_results(&list, width, &Style::plain());
            let lines: Vec<&str> = rendered.lines().collect();
            assert_eq!(lines.len(), 4, "at {width}");
            for line in &lines {
                assert!(display_width(line) <= width, "at {width}: {line:?}");
            }
            if width >= 6 {
                assert!(lines[2].starts_with("    1"), "{:?}", lines[2]);
                assert!(lines[3].starts_with("    2"), "{:?}", lines[3]);
            }
        }
    }
}

#[test]
fn no_line_of_the_history_exceeds_any_terminal() {
    for width in [0usize, 1, 6, 20, 40, 60, 73, 74, 75, 100, 200] {
        let rendered = render_history(&history_entries(), &nowhere(), NOW, width, &Style::plain());
        let lines: Vec<&str> = rendered.lines().collect();
        assert_eq!(lines.len(), 4, "at {width}");
        for line in &lines {
            assert!(display_width(line) <= width, "at {width}: {line:?}");
        }
        if width >= 6 {
            assert!(lines[2].starts_with("    1"), "{:?}", lines[2]);
        }
    }
}

#[test]
fn a_narrow_table_is_cut_at_the_edge() {
    let rendered = render_results(&books(), 40, &Style::plain());
    let lines: Vec<&str> = rendered.lines().collect();
    assert_eq!(lines[0], "    #  Title                 Author    …");
    assert_eq!(lines[1], "  ───  ────────────────────  ──────────…");
    assert_eq!(lines[2], "    1  The Rust Programmin…  Klabnik, S…");
    assert_eq!(lines[3], "    2  A Very Long Title T…  Unknown");
}

fn without_colour(s: &str) -> String {
    let mut out = String::new();
    let mut inside = false;
    for c in s.chars() {
        if inside {
            inside = c != 'm';
        } else if c == '\u{1b}' {
            inside = true;
        } else {
            out.push(c);
        }
    }
    out
}

#[test]
fn colour_does_not_change_what_a_table_says() {
    let colour = Style { enabled: true };
    for width in [20usize, 40, 60, 73, 74, 80, 120] {
        let plain = render_results(&books(), width, &Style::plain());
        let painted = render_results(&books(), width, &colour);
        assert!(painted.contains("\u{1b}["));
        for (a, b) in plain.lines().zip(painted.lines()) {
            let bare = without_colour(b);
            assert!(display_width(&bare) <= width, "{bare:?}");
            assert_eq!(bare.trim_end(), a, "at {width}");
        }
    }
}

/// A reader that takes nothing on trust: no bare quote, no control character,
/// no escape that JSON does not have.
fn read_string(s: &str) -> Option<String> {
    let inside = s.strip_prefix('"')?.strip_suffix('"')?;
    let mut out = String::new();
    let mut rest = inside.chars();
    while let Some(c) = rest.next() {
        out.push(match c {
            '"' => return None,
            c if (c as u32) < 0x20 => return None,
            '\\' => match rest.next()? {
                c @ ('"' | '\\' | '/') => c,
                'n' => '\n',
                'r' => '\r',
                't' => '\t',
                'b' => '\u{8}',
                'f' => '\u{c}',
                'u' => {
                    let digits: String = rest.by_ref().take(4).collect();
                    if digits.len() != 4 {
                        return None;
                    }
                    char::from_u32(u32::from_str_radix(&digits, 16).ok()?)?
                }
                _ => return None,
            },
            c => c,
        });
    }
    Some(out)
}

#[test]
fn a_strict_reader_gets_the_text_back() {
    let mut texts: Vec<String> = ["", "\\", "\\\"", "\"\\\\\"", "a\\u0041", "日本語 🦀", "x\\"]
        .iter()
        .map(|s| s.to_string())
        .collect();
    texts.push((0u8..=127).map(|b| b as char).collect());
    for text in texts {
        let quoted = format!("\"{}\"", json_escape(&text));
        assert_eq!(read_string(&quoted), Some(text.clone()), "{text:?}");
    }
}
