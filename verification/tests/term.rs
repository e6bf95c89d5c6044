use tomesole::term::{
    align_left, align_right, char_width, display_width, format_eta, pad, pad_left, parse_selection,
    terminal_size, terminal_width, truncate, Progress, Spinner, Style,
};

#[test]
fn styles_are_inert_when_disabled() {
    let s = Style::plain();
    assert_eq!(s.bold("x"), "x");
    assert_eq!(s.red("x"), "x");
}

#[test]
fn styles_wrap_when_enabled() {
    let s = Style { enabled: true };
    assert_eq!(s.bold("x"), "\x1b[1mx\x1b[0m");
}

#[test]
fn measures_wide_characters() {
    assert_eq!(display_width("abc"), 3);
    assert_eq!(display_width("日本語"), 6);
    assert_eq!(display_width(""), 0);
    // Combining acute accent adds no width.
    assert_eq!(display_width("e\u{0301}"), 1);
}

#[test]
fn truncation_respects_display_width() {
    assert_eq!(truncate("hello", 10), "hello");
    assert_eq!(truncate("hello world", 8), "hello w…");
    assert_eq!(display_width(&truncate("hello world", 8)), 8);
    // Never splits a wide char across the boundary.
    let t = truncate("日本語テスト", 5);
    assert!(display_width(&t) <= 5);
}

#[test]
fn padding_uses_display_width() {
    assert_eq!(pad("ab", 5), "ab   ");
    assert_eq!(display_width(&pad("日本", 6)), 6);
    assert_eq!(pad_left("7", 3), "  7");
    // Over-long input is returned unchanged rather than truncated.
    assert_eq!(pad("abcdef", 3), "abcdef");
}

#[test]
fn parses_selection_forms() {
    assert_eq!(parse_selection("3", 10).unwrap(), [2]);
    assert_eq!(parse_selection("1,3", 10).unwrap(), [0, 2]);
    assert_eq!(parse_selection("2-4", 10).unwrap(), [1, 2, 3]);
    assert_eq!(parse_selection("1-2, 5", 10).unwrap(), [0, 1, 4]);
    assert_eq!(parse_selection(" 4 ", 10).unwrap(), [3]);
    // Duplicates collapse.
    assert_eq!(parse_selection("2,2,2", 10).unwrap(), [1]);
}

#[test]
fn rejects_out_of_range_and_malformed_selections() {
    assert!(parse_selection("0", 10).is_err());
    assert!(parse_selection("11", 10).is_err());
    assert!(parse_selection("abc", 10).is_err());
    assert!(parse_selection("", 10).is_err());
    assert!(parse_selection("5-2", 10).is_err());
    assert!(parse_selection("1-99", 10).is_err());
}

#[test]
fn formats_eta_readably() {
    assert_eq!(format_eta(5), "5s");
    assert_eq!(format_eta(65), "1m05s");
    assert_eq!(format_eta(3700), "1h01m");
}

#[test]
fn terminal_width_is_always_sane() {
    for window in [None, Some((0, 0)), Some((1000, 1000)), Some((90, 30))] {
        for columns in [None, Some("7".to_string()), Some("rubbish".to_string())] {
            let w = terminal_width(window, &columns);
            assert!((40..=200).contains(&w), "got {w}");
        }
    }
}

#[test]
fn a_window_comes_before_the_environment() {
    let some = |s: &str| Some(s.to_string());
    assert_eq!(
        terminal_size(Some((120, 50)), &some("80"), &some("24")),
        (120, 50)
    );
    assert_eq!(terminal_size(None, &some("80"), &some("24")), (80, 24));
    assert_eq!(terminal_size(None, &None, &None), (90, 30));
}

#[test]
fn selection_faults_say_what_is_wrong() {
    assert_eq!(parse_selection("", 10).unwrap_err(), "nothing entered");
    assert_eq!(parse_selection("x", 10).unwrap_err(), "`x` is not a number");
    assert_eq!(parse_selection("11", 10).unwrap_err(), "`11` is outside 1-10");
    assert_eq!(
        parse_selection("5-2", 10).unwrap_err(),
        "`5-2` counts backwards"
    );
}

#[test]
fn control_characters_take_no_room() {
    assert_eq!(char_width('\u{7}'), 0);
    assert_eq!(char_width('字'), 2);
    assert_eq!(char_width('a'), 1);
}

#[test]
fn aligning_counts_characters() {
    assert_eq!(align_left("ab", 4), "ab  ");
    assert_eq!(align_right("7", 3), "  7");
    assert_eq!(align_right("1234", 3), "1234");
}

#[test]
fn a_bar_draws_on_a_terminal_and_not_too_often() {
    let style = Style::plain();
    let second = 1_000_000_000;
    let mut bar = Progress::new("Dune".to_string(), Some(2048), style, 0, true, 80);
    let line = bar.set(1024, None, second).expect("the first draw is due");
    assert!(line.starts_with("\r\x1b[2K  Dune "), "{line:?}");
    assert!(line.contains(" 50%  1.00 KB / 2.00 KB  1.00 KB/s  eta 1s"), "{line:?}");
    assert_eq!(line.matches('█').count(), line.matches('░').count());
    assert!(bar.set(1100, None, second + 1_000_000).is_none());
    assert!(bar.set(1100, None, 2 * second).is_some());

    let mut quiet = Progress::new("Dune".to_string(), Some(2048), style, 0, false, 80);
    assert!(quiet.set(1024, None, second).is_none());
}

#[test]
fn a_status_line_is_written_and_taken_away() {
    let style = Style::plain();
    let (spinner, line) = Spinner::start("probing", style, true);
    assert_eq!(line.as_deref(), Some("\r\x1b[2K  · probing"));
    assert_eq!(
        spinner.update("searching", style).as_deref(),
        Some("\r\x1b[2K  · searching")
    );
    assert_eq!(spinner.clear().as_deref(), Some("\r\x1b[2K"));
    assert!(Spinner::start("probing", style, false).1.is_none());
}

#[test]
fn widths_add_up() {
    let texts = ["", "a", "日本語", "naïve", "tab\there", "e\u{301}", "🦀 crab"];
    for a in texts {
        assert!(display_width(a) <= 2 * a.chars().count());
        for b in texts {
            let both = format!("{a}{b}");
            assert_eq!(display_width(&both), display_width(a) + display_width(b));
        }
    }
    assert_eq!(display_width(""), 0);
}
