use ratatui::backend::TestBackend;
use ratatui::layout::{Alignment, Constraint};
use ratatui::style::{Color, Modifier};
use ratatui::widgets::{Block, BorderType, Cell, Clear, Paragraph, Table, Wrap};
use ratatui::{Frame, Terminal};

use tomesole::commands::Settings;
use tomesole::graphics;
use tomesole::graphics::{Protocol, Rgb};
use tomesole::history::{Disk, Entry};
use tomesole::jpeg;
use tomesole::keyed::Keyed;
use tomesole::model::Book;
use tomesole::net::NetPolicy;
use tomesole::order::{Order, Sorting};
use tomesole::screen::{frame_parts, side_by_side, Align, Line, Rect, Span, Widget, Width};
use tomesole::theme;
use tomesole::theme::Look;
use tomesole::tui::{Action, App, Art, Ev, Job, Key, KeyCode, Mode, Slot, Tab, TableState};
use tomesole::view::{job_label, progress_bar, Screen};

/// Seconds since the epoch, as the tests have it.
const NOW: u64 = 1_700_000_000;

/// Milliseconds on the interface's own clock.
const TICK: u64 = 10_000;

/// A list nobody has sorted.
const AS_IT_CAME: Sorting = Sorting {
    order: Order::Natural,
    backwards: false,
};

/// A 24×24 JPEG of four coloured quadrants: red, green, blue and white.
const COLOUR: &[u8] = &[
    0xFF, 0xD8, 0xFF, 0xE0, 0x00, 0x10, 0x4A, 0x46, 0x49, 0x46, 0x00, 0x01, 0x01, 0x00, 0x00, 0x01,
    0x00, 0x01, 0x00, 0x00, 0xFF, 0xDB, 0x00, 0x43, 0x00, 0x06, 0x06, 0x06, 0x06, 0x09, 0x09, 0x09,
    0x09, 0x0C, 0x0C, 0x0C, 0x0C, 0x0F, 0x0F, 0x0F, 0x0F, 0x12, 0x12, 0x12, 0x12, 0x15, 0x15, 0x15,
    0x15, 0x18, 0x18, 0x18, 0x18, 0x1B, 0x1B, 0x1B, 0x1B, 0x1E, 0x1E, 0x1E, 0x1E, 0x21, 0x21, 0x21,
    0x21, 0x24, 0x24, 0x24, 0x24, 0x27, 0x27, 0x27, 0x27, 0x2A, 0x2A, 0x2A, 0x2A, 0x2D, 0x2D, 0x2D,
    0x2D, 0x30, 0x30, 0x30, 0x30, 0x33, 0x33, 0x33, 0x33, 0xFF, 0xC0, 0x00, 0x11, 0x08, 0x00, 0x18,
    0x00, 0x18, 0x03, 0x01, 0x22, 0x00, 0x02, 0x11, 0x00, 0x03, 0x11, 0x00, 0xFF, 0xC4, 0x00, 0x1F,
    0x00, 0x00, 0x01, 0x05, 0x01, 0x01, 0x01, 0x01, 0x01, 0x01, 0x00, 0x00, 0x00, 0x00, 0x00, 0x00,
    0x00, 0x00, 0x01, 0x02, 0x03, 0x04, 0x05, 0x06, 0x07, 0x08, 0x09, 0x0A, 0x0B, 0xFF, 0xC4, 0x00,
    0x3C, 0x10, 0x00, 0x00, 0x00, 0x00, 0x00, 0x29, 0x00, 0x00, 0x00, 0x00, 0x00, 0x00, 0x00, 0x00,
    0x00, 0x00, 0x00, 0x01, 0x02, 0x03, 0x04, 0x05, 0x06, 0x07, 0x11, 0x12, 0x13, 0x14, 0x15, 0x17,
    0x21, 0x23, 0x31, 0x33, 0x35, 0x41, 0x42, 0x43, 0x45, 0x52, 0x53, 0x61, 0x62, 0x64, 0x81, 0x83,
    0x84, 0xA1, 0xA2, 0xA3, 0xB1, 0xB2, 0xC1, 0xC3, 0xD1, 0xE1, 0xE2, 0xFF, 0xDA, 0x00, 0x0C, 0x03,
    0x01, 0x00, 0x02, 0x00, 0x03, 0x00, 0x00, 0x3F, 0x00, 0xE1, 0x00, 0xD2, 0x15, 0xEA, 0xC7, 0x12,
    0x40, 0xE7, 0x0B, 0xF6, 0x87, 0xF3, 0x80, 0xF4, 0x91, 0xDE, 0x8C, 0xE1, 0x9E, 0x2F, 0xCF, 0xC5,
    0xB9, 0x44, 0xA2, 0xA2, 0x4E, 0x44, 0x9C, 0x9D, 0x98, 0x49, 0x02, 0x04, 0x00, 0xAC, 0x26, 0x8C,
    0x90, 0xD0, 0x08, 0xE1, 0x90, 0xB0, 0xF0, 0x70, 0x47, 0x25, 0x09, 0x09, 0x20, 0x44, 0x19, 0x38,
    0x6C, 0x1A, 0x10, 0x60, 0x81, 0x26, 0x0A, 0x03, 0xB9, 0x1B, 0x41, 0xA1, 0x14, 0xE2, 0xC4, 0x53,
    0x09, 0x82, 0x18, 0x8C, 0x1E, 0x2A, 0x87, 0x43, 0x85, 0x22, 0x50, 0x92, 0x50, 0xB0, 0x92, 0x24,
    0xA1, 0xC0, 0x90, 0xA0, 0x67, 0x42, 0x81, 0x02, 0x04, 0x80, 0x10, 0x34, 0xE0, 0x65, 0x00, 0x01,
    0xEB, 0xC6, 0xAB, 0x6F, 0xE1, 0x34, 0x60, 0x06, 0xAB, 0x6F, 0xE1, 0x34, 0x60, 0x60, 0x18, 0xE1,
    0x31, 0x71, 0xF8, 0x29, 0xA0, 0x78, 0x31, 0x83, 0x16, 0x8C, 0x28, 0x20, 0x99, 0xA0, 0x7C, 0xBA,
    0x07, 0xBF, 0x8E, 0x2D, 0x6D, 0xBC, 0x92, 0xD0, 0x3C, 0x00, 0x0F, 0x7F, 0x1C, 0x5A, 0xDB, 0x79,
    0x25, 0xA0, 0x7D, 0x12, 0x35, 0x29, 0x2C, 0x4A, 0x75, 0xC7, 0x84, 0x81, 0xD6, 0x08, 0xC8, 0xC0,
    0x97, 0x31, 0x00, 0xFA, 0x00, 0x00, 0x00, 0x00, 0x0F, 0x1E, 0x03, 0x50, 0x0F, 0xFF, 0xD9,
];

fn settings() -> Settings {
    Settings {
        policy: NetPolicy {
            allow_http: false,
            allow_private_hosts: false,
            connect_timeout: 10,
            request_timeout: 45,
            max_redirects: 8,
        },
        dest_dir: "/tmp".to_string(),
        max_bytes: 1 << 30,
        verify: true,
        force: false,
        resume: true,
        mirrors: Vec::new(),
        refresh_mirrors: false,
        quiet: false,
        json: false,
        output: None,
        reader: None,
        history: false,
        covers: false,
    }
}

fn app() -> App {
    App {
        settings: settings(),
        tab: Tab::Search,
        mode: Mode::Editing,
        query: String::new(),
        filter: String::new(),
        caret: 0,
        results: Vec::new(),
        visible: Vec::new(),
        fmt_filter: None,
        lang_filter: None,
        sorting: AS_IT_CAME,
        shelving: AS_IT_CAME,
        menu: 0,
        table: TableState { row: None },
        marked: Vec::new(),
        jobs: Keyed::new(),
        mirrors: Vec::new(),
        mirror_label: String::new(),
        status: String::new(),
        error: None,
        busy: false,
        downloading: false,
        pending_search: false,
        quit: false,
        library: Vec::new(),
        shown: Vec::new(),
        library_table: TableState { row: None },
        // Tests draw to an off-screen buffer, so nothing may try to write an
        // escape sequence to a terminal that is not there.
        protocol: Protocol::Nothing,
        covers: Keyed::new(),
        cover_due: None,
        painted: None,
        cover_area: None,
        actions: Vec::new(),
    }
}

fn press(app: &mut App, code: KeyCode) {
    app.on_key(Key { code, ctrl: false }, TICK, &Vec::new());
}

fn press_ctrl(app: &mut App, c: char) {
    let key = Key {
        code: KeyCode::Char(c),
        ctrl: true,
    };
    app.on_key(key, TICK, &Vec::new());
}

fn tell(app: &mut App, ev: Ev) {
    app.handle(ev, TICK, &Vec::new());
}

fn books(n: usize) -> Vec<Book> {
    (0..n)
        .map(|i| Book {
            md5: format!("{i:032x}"),
            title: format!("Book {i}"),
            ..Default::default()
        })
        .collect()
}

/// Put results in place the way a finished search would, so the visible-index
/// mapping is always consistent with what the table believes.
fn install(a: &mut App, list: Vec<Book>) {
    a.marked = vec![false; list.len()];
    a.results = list;
    a.table.select(None);
    a.refine(TICK);
}

#[test]
fn typing_builds_the_query() {
    let mut a = app();
    for c in "dune".chars() {
        press(&mut a, KeyCode::Char(c));
    }
    assert_eq!(a.query, "dune");
    assert_eq!(a.caret, 4);
}

#[test]
fn editing_respects_the_caret() {
    let mut a = app();
    for c in "dune".chars() {
        press(&mut a, KeyCode::Char(c));
    }
    press(&mut a, KeyCode::Home);
    press(&mut a, KeyCode::Char('_'));
    assert_eq!(a.query, "_dune");
    press(&mut a, KeyCode::End);
    press(&mut a, KeyCode::Backspace);
    assert_eq!(a.query, "_dun");
}

/// Editing is by character, so a multi-byte query must not panic or split.
#[test]
fn editing_handles_multibyte_text() {
    let mut a = app();
    for c in "naïve 日本".chars() {
        press(&mut a, KeyCode::Char(c));
    }
    assert_eq!(a.query, "naïve 日本");
    press(&mut a, KeyCode::Backspace);
    assert_eq!(a.query, "naïve 日");
    press(&mut a, KeyCode::Home);
    press(&mut a, KeyCode::Delete);
    assert_eq!(a.query, "aïve 日");
}

#[test]
fn ctrl_w_deletes_a_word() {
    let mut a = app();
    for c in "the rust book".chars() {
        press(&mut a, KeyCode::Char(c));
    }
    press_ctrl(&mut a, 'w');
    assert_eq!(a.query, "the rust ");
}

#[test]
fn ctrl_u_clears_the_line() {
    let mut a = app();
    for c in "dune".chars() {
        press(&mut a, KeyCode::Char(c));
    }
    press_ctrl(&mut a, 'u');
    assert_eq!(a.query, "");
    assert_eq!(a.caret, 0);
}

#[test]
fn navigation_stays_in_bounds() {
    let mut a = app();
    a.mode = Mode::Browsing;
    install(&mut a, books(3));

    press(&mut a, KeyCode::Up); // already at the top
    assert_eq!(a.table.selected(), Some(0));
    for _ in 0..10 {
        press(&mut a, KeyCode::Down);
    }
    assert_eq!(a.table.selected(), Some(2), "must not run off the end");
    press(&mut a, KeyCode::Home);
    assert_eq!(a.table.selected(), Some(0));
    press(&mut a, KeyCode::End);
    assert_eq!(a.table.selected(), Some(2));
}

#[test]
fn navigation_on_an_empty_list_is_harmless() {
    let mut a = app();
    a.mode = Mode::Browsing;
    press(&mut a, KeyCode::Down);
    press(&mut a, KeyCode::Up);
    press(&mut a, KeyCode::Enter);
    assert_eq!(a.table.selected(), None);
    assert!(!a.quit);
}

#[test]
fn space_marks_and_advances() {
    let mut a = app();
    a.mode = Mode::Browsing;
    install(&mut a, books(3));

    press(&mut a, KeyCode::Char(' '));
    assert_eq!(a.marked, [true, false, false]);
    assert_eq!(
        a.table.selected(),
        Some(1),
        "space moves on for fast marking"
    );
}

#[test]
fn a_toggles_every_mark() {
    let mut a = app();
    a.mode = Mode::Browsing;
    install(&mut a, books(3));
    press(&mut a, KeyCode::Char('a'));
    assert_eq!(a.marked, [true, true, true]);
    press(&mut a, KeyCode::Char('a'));
    assert_eq!(a.marked, [false, false, false]);
}

#[test]
fn mode_switching_and_quitting() {
    let mut a = app();
    a.mode = Mode::Browsing;
    press(&mut a, KeyCode::Char('/'));
    assert_eq!(a.mode, Mode::Editing);
    press(&mut a, KeyCode::Esc);
    assert_eq!(a.mode, Mode::Browsing);

    press(&mut a, KeyCode::Char('?'));
    assert_eq!(a.mode, Mode::Help);
    press(&mut a, KeyCode::Char('x'));
    assert_eq!(a.mode, Mode::Browsing, "any key closes help");

    press(&mut a, KeyCode::Char('q'));
    assert!(a.quit);
}

#[test]
fn ctrl_c_quits_from_editing_too() {
    let mut a = app();
    a.mode = Mode::Editing;
    press_ctrl(&mut a, 'c');
    assert!(a.quit);
}

/// Letters must reach the query rather than triggering browse shortcuts.
#[test]
fn shortcut_letters_are_literal_while_editing() {
    let mut a = app();
    a.mode = Mode::Editing;
    for c in "qajm".chars() {
        press(&mut a, KeyCode::Char(c));
    }
    assert_eq!(a.query, "qajm");
    assert!(!a.quit);
}

#[test]
fn search_without_a_mirror_is_deferred_not_lost() {
    let mut a = app();
    a.query = "dune".into();
    a.spawn_search();
    assert!(
        a.pending_search,
        "the search should run once a mirror appears"
    );
}

#[test]
fn empty_search_is_reported_not_sent() {
    let mut a = app();
    a.query = "   ".into();
    a.spawn_search();
    assert!(a.error.is_some());
    assert!(!a.pending_search);
}

#[test]
fn results_reset_selection_and_marks() {
    let mut a = app();
    a.marked = vec![true, true];
    tell(&mut a, Ev::Results(Ok((books(2), "libgen.li".into()))));
    assert_eq!(a.marked, [false, false]);
    assert_eq!(a.table.selected(), Some(0));
    assert_eq!(a.mirror_label, "libgen.li");
    assert_eq!(a.mode, Mode::Browsing);
}

#[test]
fn empty_results_leave_nothing_selected() {
    let mut a = app();
    tell(&mut a, Ev::Results(Ok((Vec::new(), "libgen.li".into()))));
    assert_eq!(a.table.selected(), None);
    assert!(a.status.contains("nothing found"));
}

#[test]
fn finishing_the_last_job_clears_the_busy_flag() {
    let mut a = app();
    a.downloading = true;
    a.jobs.insert(
        "abc".into(),
        Job::Running {
            done: 1,
            total: None,
        },
    );
    tell(
        &mut a,
        Ev::Finished {
            md5: "abc".into(),
            outcome: Ok("book.epub".into()),
        },
    );
    assert!(!a.downloading);
    assert!(matches!(a.jobs.get("abc"), Some(Job::Saved(_))));
}

#[test]
fn a_failure_is_surfaced_rather_than_swallowed() {
    let mut a = app();
    tell(
        &mut a,
        Ev::Finished {
            md5: "abc".into(),
            outcome: Err("integrity check failed\nsecond line".into()),
        },
    );
    assert_eq!(a.error.as_deref(), Some("integrity check failed"));
    assert!(matches!(a.jobs.get("abc"), Some(Job::Failed(_))));
}

fn colour(c: Rgb) -> Color {
    Color::Rgb(c.0, c.1, c.2)
}

fn style(look: &Look) -> ratatui::style::Style {
    let mut s = ratatui::style::Style::new();
    if let Some(c) = look.fg {
        s = s.fg(colour(c));
    }
    if let Some(c) = look.bg {
        s = s.bg(colour(c));
    }
    if look.bold {
        s = s.add_modifier(Modifier::BOLD);
    }
    s
}

fn ink(s: &Span) -> ratatui::text::Span<'static> {
    ratatui::text::Span::styled(s.text.clone(), style(&s.look))
}

fn text_line(l: &Line) -> ratatui::text::Line<'static> {
    ratatui::text::Line::from(l.spans.iter().map(ink).collect::<Vec<_>>())
}

fn place(r: &Rect) -> ratatui::layout::Rect {
    ratatui::layout::Rect::new(r.x, r.y, r.width, r.height)
}

fn width(w: &Width) -> Constraint {
    match w {
        Width::Cells(n) => Constraint::Length(*n),
        Width::Share(n) => Constraint::Fill(*n),
    }
}

/// Put a frame's widgets on a terminal.
fn paint(frame: &mut Frame, screen: &Screen) {
    for w in &screen.widgets {
        match w {
            Widget::Canvas { area, look } => {
                frame.render_widget(Block::new().style(style(look)), place(area));
            }
            Widget::Clear { area } => frame.render_widget(Clear, place(area)),
            Widget::Border {
                area,
                colour: c,
                look,
                title,
                right_title,
            } => {
                let block = Block::bordered()
                    .border_type(BorderType::Rounded)
                    .border_style(ratatui::style::Style::new().fg(colour(*c)))
                    .style(style(look))
                    .title(text_line(title))
                    .title_top(text_line(right_title).right_aligned());
                frame.render_widget(block, place(area));
            }
            Widget::Text {
                area,
                lines,
                look,
                align,
                wrap,
            } => {
                let mut p = Paragraph::new(lines.iter().map(text_line).collect::<Vec<_>>())
                    .style(style(look))
                    .alignment(match align {
                        Align::Left => Alignment::Left,
                        Align::Center => Alignment::Center,
                        Align::Right => Alignment::Right,
                    });
                if *wrap {
                    p = p.wrap(Wrap { trim: true });
                }
                frame.render_widget(p, place(area));
            }
            Widget::Table {
                area,
                header,
                widths,
                rows,
                selected,
            } => {
                let head = ratatui::widgets::Row::new(
                    header.iter().map(|h| Cell::from(*h)).collect::<Vec<_>>(),
                )
                .style(style(&theme::header()));
                let rows = rows.iter().map(|r| {
                    ratatui::widgets::Row::new(
                        r.cells
                            .iter()
                            .map(|c| Cell::from(c.text.clone()).style(style(&c.look)))
                            .collect::<Vec<_>>(),
                    )
                    .style(ratatui::style::Style::new().bg(colour(r.bg)))
                });
                let table = Table::new(rows, widths.iter().map(width).collect::<Vec<_>>())
                    .header(head)
                    .column_spacing(1)
                    .row_highlight_style(style(&theme::selected_row()))
                    .highlight_symbol(ratatui::text::Span::styled(
                        theme::CURSOR,
                        style(&theme::bold_ink(theme::ACCENT)),
                    ));
                let mut state = ratatui::widgets::TableState::new();
                state.select(*selected);
                frame.render_stateful_widget(table, place(area), &mut state);
            }
            Widget::Cursor { x, y } => frame.set_cursor_position((*x, *y)),
        }
    }
}

fn frame_of(width: u16, height: u16) -> Rect {
    Rect {
        x: 0,
        y: 0,
        width,
        height,
    }
}

/// Draw the app to an off-screen buffer and return it as text.
fn draw(a: &mut App, width: u16, height: u16) -> String {
    let nothing = Disk { files: Vec::new() };
    draw_on(a, width, height, &nothing)
}

fn draw_on(a: &mut App, width: u16, height: u16, disk: &Disk) -> String {
    let screen = a.render(frame_of(width, height), disk, NOW);
    let mut terminal = Terminal::new(TestBackend::new(width, height)).unwrap();
    terminal.draw(|f| paint(f, &screen)).unwrap();
    let buffer = terminal.backend().buffer().clone();
    (0..buffer.area.height)
        .map(|y| {
            (0..buffer.area.width)
                .map(|x| buffer[(x, y)].symbol().to_string())
                .collect::<String>()
        })
        .collect::<Vec<_>>()
        .join("\n")
}

#[test]
fn renders_results_and_details() {
    let mut a = app();
    a.mode = Mode::Browsing;
    a.mirror_label = "libgen.li".into();
    install(
        &mut a,
        vec![Book {
            md5: "1b9159991f7fb1b3910c0be9ebf7e595".into(),
            title: "The Rust Programming Language".into(),
            authors: Some("Klabnik, Steve;Nichols, Carol".into()),
            year: Some("2019".into()),
            language: Some("English".into()),
            extension: Some("epub".into()),
            size_bytes: Some(3 * 1024 * 1024),
            ..Default::default()
        }],
    );

    let screen = draw(&mut a, 100, 24);
    assert!(screen.contains("SEARCH"), "tab bar missing: {screen}");
    assert!(screen.contains("libgen.li"), "{screen}");
    assert!(screen.contains("The Rust Programming Language"), "{screen}");
    assert!(screen.contains("Klabnik"), "{screen}");
    assert!(screen.contains("epub"), "{screen}");
    // The details pane shows the hash of the highlighted row.
    assert!(
        screen.contains("1b9159991f7fb1b3910c0be9ebf7e595"),
        "{screen}"
    );
    assert!(screen.contains("download"), "hints missing: {screen}");
}

#[test]
fn renders_at_awkward_sizes_without_panicking() {
    // A layout that assumes it has room is a crash waiting for a small
    // terminal, so exercise the extremes.
    for (w, h) in [(20u16, 8u16), (40, 10), (80, 24), (200, 60), (250, 12)] {
        let mut a = app();
        a.mode = Mode::Browsing;
        install(&mut a, books(30));
        a.table.select(Some(29));
        let _ = draw(&mut a, w, h);

        a.mode = Mode::Help;
        let _ = draw(&mut a, w, h);
    }
}

#[test]
fn renders_the_empty_and_error_states() {
    let mut a = app();
    a.status = "finding a working mirror".into();
    a.busy = true;
    let screen = draw(&mut a, 80, 20);
    assert!(screen.contains("finding a working mirror"), "{screen}");

    a.error = Some("every mirror failed".into());
    let screen = draw(&mut a, 80, 20);
    assert!(screen.contains("every mirror failed"), "{screen}");
}

#[test]
fn help_overlay_lists_the_keys() {
    let mut a = app();
    a.mode = Mode::Help;
    let screen = draw(&mut a, 90, 24);
    assert!(screen.contains("keys"), "{screen}");
    assert!(screen.contains("download"), "{screen}");
    assert!(screen.contains("quit"), "{screen}");
}

#[test]
fn download_state_is_visible_in_the_row_and_detail() {
    let mut a = app();
    a.mode = Mode::Browsing;
    install(&mut a, books(1));
    a.jobs.insert(
        a.results[0].md5.clone(),
        Job::Running {
            done: 512 * 1024,
            total: Some(1024 * 1024),
        },
    );
    let screen = draw(&mut a, 100, 20);
    assert!(screen.contains("50%"), "row progress missing: {screen}");
    assert!(screen.contains("█"), "detail bar missing: {screen}");
}

#[test]
fn progress_bar_renders_within_its_width() {
    let bar = progress_bar(50, Some(100), 10);
    assert_eq!(bar.chars().filter(|c| *c == '█').count(), 5);
    assert_eq!(bar.chars().filter(|c| *c == '░').count(), 5);
    // Unknown totals must not divide by zero or panic.
    assert!(progress_bar(50, None, 10).contains("downloading"));
    assert!(progress_bar(50, Some(0), 10).contains("downloading"));
}

fn entries(n: usize) -> Vec<Entry> {
    (0..n)
        .map(|i| Entry {
            at: NOW - (i as u64 * 3600),
            md5: format!("{i:032x}"),
            path: format!("/books/Book {i}.epub"),
            size: 1024 * 1024,
            verified: true,
            title: format!("Book {i}"),
            authors: Some("Frank Herbert".into()),
            extension: Some("epub".into()),
        })
        .collect()
}

/// Put the app on the library tab with a fixed set of books.
fn with_library(a: &mut App, entries: Vec<Entry>) {
    a.tab = Tab::Library;
    a.mode = Mode::Browsing;
    a.library = entries;
    a.refilter();
}

#[test]
fn moving_in_the_library_arms_a_cover_lookup() {
    let mut a = app();
    a.protocol = Protocol::Blocks;
    with_library(&mut a, entries(3));
    a.cover_due = None;
    press(&mut a, KeyCode::Down);
    assert!(
        a.cover_due.is_some(),
        "a settled library selection is worth a cover, just like search"
    );
}

#[test]
fn a_library_book_shows_its_cover_in_both_layouts() {
    let mut a = app();
    a.protocol = Protocol::Blocks;
    with_library(&mut a, entries(3));
    a.library_table.select(Some(0));

    // Stand in for a cover pulled out of the file on disk.
    let image = jpeg::decode(COLOUR).unwrap();
    let md5 = a.selected_entry().unwrap().md5.clone();
    a.covers.insert(
        md5,
        Slot::Ready(Art {
            encoded: Vec::new(),
            pixels: Some(image),
        }),
    );

    // Wide: the poster panel, with the cover and the file facts beside it.
    let wide = draw(&mut a, 130, 40);
    assert!(
        wide.contains(graphics::UPPER_HALF),
        "the library cover should draw as half blocks: {wide}"
    );
    assert!(wide.contains("Book 0"), "{wide}");
    assert!(wide.contains("saved to"), "{wide}");

    // Narrow: the bottom strip grows a cover column too.
    let narrow = draw(&mut a, 90, 24);
    assert!(
        narrow.contains(graphics::UPPER_HALF),
        "the narrow strip should still show the cover: {narrow}"
    );
}

#[test]
fn a_library_cover_with_no_local_source_falls_back_to_a_mirror() {
    // The whole point of the fallback: a book whose file carries no jacket and
    // that was never searched must still get a cover off a mirror, the same way
    // the Search tab does. With no mirror there is nothing to ask, so it comes
    // back empty rather than erroring.
    let entry = &entries(1)[0];
    assert!(
        App::fetch_library_cover(&Vec::new(), entry).is_none(),
        "no mirror, no cover, but no error either"
    );
    let asked = App::fetch_library_cover(&vec!["https://libgen.li".to_string()], entry);
    let (base, book) = asked.unwrap();
    assert_eq!(base, "https://libgen.li");
    assert_eq!(book.md5, entry.md5);
}

#[test]
fn a_mirror_arriving_revives_library_covers_that_had_none_to_ask() {
    // Open the library before the mirror pool resolves: a book with no local
    // cover comes up blank because there was nobody to ask. When the mirror
    // lands, that blank must be dropped and the selection re-armed so the cover
    // is looked up for real.
    let mut a = app();
    a.protocol = Protocol::Kitty;
    with_library(&mut a, entries(1));
    a.library_table.select(Some(0));
    let md5 = a.selected_entry().unwrap().md5.clone();

    // Stands in for the empty result of a mirror-less first look.
    a.covers.insert(md5.clone(), Slot::Nothing);
    a.cover_due = None;

    tell(&mut a, Ev::Mirrors(Ok(vec!["https://libgen.li".to_string()])));

    assert!(
        !a.covers.contains_key(&md5),
        "the blank cover should be dropped so it can be looked up again"
    );
    assert!(
        a.cover_due.is_some(),
        "the selection should be re-armed to fetch now a mirror exists"
    );
}

#[test]
fn the_library_reuses_a_cover_across_tabs_by_md5() {
    // A cover fetched while searching is keyed by MD5; the same book in the
    // library must find it under the same key rather than looking again.
    let mut a = app();
    a.protocol = Protocol::Blocks;
    let md5 = format!("{:032x}", 0);
    a.covers.insert(md5.clone(), Slot::Nothing);
    with_library(&mut a, entries(1));
    a.library_table.select(Some(0));
    assert_eq!(a.selected_entry().unwrap().md5, md5);
    // Already known, so a poll starts no new lookup and leaves it be.
    a.cover_due = Some(TICK);
    a.poll_cover(TICK);
    assert!(matches!(a.covers.get(&md5), Some(Slot::Nothing)));
    assert!(a.actions.is_empty());
}

#[test]
fn the_library_tab_lists_past_downloads() {
    let mut a = app();
    with_library(&mut a, entries(3));

    let screen = draw(&mut a, 100, 24);
    assert!(screen.contains("Book 0"), "{screen}");
    assert!(screen.contains("Herbert"), "{screen}");
    assert!(screen.contains("/books/Book 0.epub"), "{screen}");
    // These files do not exist, and the view says so rather than pretending.
    assert!(screen.contains("missing"), "{screen}");
    assert!(screen.contains("forget"), "hints missing: {screen}");
}

#[test]
fn the_library_tab_navigates() {
    let mut a = app();
    with_library(&mut a, entries(3));

    press(&mut a, KeyCode::Up); // already at the top
    assert_eq!(a.library_table.selected(), Some(0));
    for _ in 0..10 {
        press(&mut a, KeyCode::Down);
    }
    assert_eq!(
        a.library_table.selected(),
        Some(2),
        "must not run off the end"
    );
    press(&mut a, KeyCode::Home);
    assert_eq!(a.library_table.selected(), Some(0));
}

/// The library was once reachable only from the results list, so a fresh session
/// — which opens in the editor with no results — had no way to reach it at all.
/// Tab must always work.
#[test]
fn the_library_is_reachable_before_any_search() {
    let mut a = app();
    assert_eq!(a.tab, Tab::Search);
    assert_eq!(a.mode, Mode::Editing, "a fresh session starts typing");

    // Tab reaches the library even mid-edit, with nothing searched yet.
    press(&mut a, KeyCode::Tab);
    assert_eq!(a.tab, Tab::Library);
    press(&mut a, KeyCode::Tab);
    assert_eq!(a.tab, Tab::Search);

    // And the number keys jump straight there when not typing.
    a.mode = Mode::Browsing;
    press(&mut a, KeyCode::Char('2'));
    assert_eq!(a.tab, Tab::Library);
    press(&mut a, KeyCode::Char('1'));
    assert_eq!(a.tab, Tab::Search);
}

#[test]
fn q_quits_from_the_library_tab_too() {
    let mut a = app();
    with_library(&mut a, entries(3));
    press(&mut a, KeyCode::Char('q'));
    assert!(a.quit, "the library is a peer of search, not a detour");
}

#[test]
fn the_filter_narrows_the_library_as_you_type() {
    let mut a = app();
    with_library(&mut a, entries(3));
    // entries() titles are "Book 0", "Book 1", "Book 2"; filter to one.
    press(&mut a, KeyCode::Char('/'));
    assert_eq!(a.mode, Mode::Editing);
    for c in "Book 1".chars() {
        press(&mut a, KeyCode::Char(c));
    }
    assert_eq!(a.shown.len(), 1, "only one title matches");
    assert_eq!(
        a.selected_entry().map(|e| e.title.clone()).as_deref(),
        Some("Book 1")
    );

    let screen = draw(&mut a, 100, 24);
    assert!(screen.contains("Book 1"), "{screen}");
    assert!(!screen.contains("Book 0"), "filtered out: {screen}");

    // Clearing the box brings everyone back.
    press_ctrl(&mut a, 'u');
    assert_eq!(a.shown.len(), 3);
}

#[test]
fn a_filter_that_matches_nothing_says_so() {
    let mut a = app();
    with_library(&mut a, entries(3));
    a.filter = "nonesuch".into();
    a.refilter();
    assert!(a.shown.is_empty());
    assert!(a.selected_entry().is_none());
    let screen = draw(&mut a, 100, 24);
    assert!(screen.contains("No book matches"), "{screen}");
}

#[test]
fn an_empty_library_tab_is_harmless_and_explains_itself() {
    let mut a = app();
    a.tab = Tab::Library;
    a.mode = Mode::Browsing;
    press(&mut a, KeyCode::Down);
    press(&mut a, KeyCode::Enter);
    press(&mut a, KeyCode::Char('d'));
    assert_eq!(a.library_table.selected(), None);
    let screen = draw(&mut a, 80, 20);
    assert!(screen.contains("library is empty"), "{screen}");
    // It points the way out rather than leaving a dead end.
    assert!(screen.contains("Tab"), "{screen}");
}

#[test]
fn the_tab_bar_shows_both_tabs_and_the_count() {
    let mut a = app();
    a.library = entries(4);
    let screen = draw(&mut a, 100, 24);
    assert!(screen.contains("SEARCH"), "{screen}");
    assert!(screen.contains("LIBRARY"), "{screen}");
    // The count rides along in the tab label so it is visible before you go.
    assert!(screen.contains("LIBRARY 4"), "{screen}");
}

#[test]
fn opening_a_result_that_was_never_downloaded_says_so() {
    let mut a = app();
    a.mode = Mode::Browsing;
    install(&mut a, books(1));
    press(&mut a, KeyCode::Char('o'));
    assert_eq!(
        a.error.as_deref(),
        Some("that one has not been downloaded yet")
    );
}

#[test]
fn a_query_of_nothing_but_filters_is_refused() {
    let mut a = app();
    a.query = "ext:epub lang:english".into();
    a.mirrors = vec!["https://libgen.li".to_string()];
    a.spawn_search();
    assert!(a.error.is_some(), "there is nothing here to search for");
    assert!(!a.busy);
}

/// The half-block path is the one that renders as text, so it is the one that
/// can be checked on an off-screen buffer.
#[test]
fn a_cover_is_drawn_as_blocks_when_there_is_no_image_protocol() {
    let mut a = app();
    a.mode = Mode::Browsing;
    a.protocol = Protocol::Blocks;
    install(&mut a, books(1));

    let image = jpeg::decode(COLOUR).unwrap();
    a.covers.insert(
        a.results[0].md5.clone(),
        Slot::Ready(Art {
            encoded: Vec::new(),
            pixels: Some(image),
        }),
    );

    let screen = draw(&mut a, 100, 28);
    assert!(
        screen.contains(graphics::UPPER_HALF),
        "the cover should be drawn as half blocks: {screen}"
    );
    // The book's details are still there beside it.
    assert!(screen.contains("Book 0"), "{screen}");
}

/// The kitty and iTerm2 paths write outside the frame, so what they would write
/// is checked directly.
#[test]
fn a_pixel_cover_is_placed_once_and_not_repainted() {
    let mut a = app();
    a.mode = Mode::Browsing;
    a.protocol = Protocol::Kitty;
    install(&mut a, books(2));

    let image = jpeg::decode(COLOUR).unwrap();
    a.covers.insert(
        a.results[0].md5.clone(),
        Slot::Ready(Art {
            encoded: Vec::new(),
            pixels: Some(image),
        }),
    );

    // Nothing is placed until a frame has said where the space is.
    assert_eq!(a.cover_escape(), None);

    let _ = draw(&mut a, 100, 30);
    let escape = a.cover_escape().expect("a cover should be placed");
    assert!(escape.contains("\x1b["), "no cursor placement: {escape:?}");
    assert!(escape.contains("\x1b_Ga=T"), "no kitty image: {escape:?}");
    assert!(
        !escape.contains("a=d"),
        "nothing was on screen to delete yet"
    );

    // An unchanged screen must not be redrawn — the picture would flicker on
    // every keystroke and every 250 ms tick.
    let _ = draw(&mut a, 100, 30);
    assert_eq!(a.cover_escape(), None, "a settled cover is left alone");

    // Moving to a book with no cover takes the old one down.
    press(&mut a, KeyCode::Down);
    let _ = draw(&mut a, 100, 30);
    let escape = a.cover_escape().expect("the old cover must be removed");
    assert!(escape.contains("a=d"), "no delete: {escape:?}");
    assert!(!escape.contains("a=T"), "nothing to draw: {escape:?}");
}

#[test]
fn a_cover_never_squeezes_out_the_results() {
    let mut a = app();
    a.mode = Mode::Browsing;
    a.protocol = Protocol::Blocks;
    install(&mut a, books(20));
    a.covers.insert(a.results[0].md5.clone(), Slot::Looking);

    for (w, h) in [(20u16, 8u16), (40, 10), (80, 24), (200, 60)] {
        let area = frame_of(w, h);
        let details = a.details_height(area);
        assert!(
            details <= h.saturating_sub(4).max(7),
            "{w}×{h} gave a {details}-row detail pane"
        );
        let _ = draw(&mut a, w, h);
    }
}

#[test]
fn covers_are_only_looked_up_after_the_selection_settles() {
    let mut a = app();
    a.protocol = Protocol::Blocks;
    a.mode = Mode::Browsing;
    install(&mut a, books(3));

    press(&mut a, KeyCode::Down);
    assert!(a.cover_due.is_some(), "moving should arm the lookup");
    // Nothing is due yet, so nothing is started.
    a.poll_cover(TICK);
    assert!(a.covers.entries.is_empty());

    // With no mirror there is nothing to ask, and it must not spin.
    a.cover_due = Some(TICK);
    a.poll_cover(TICK);
    assert!(a.covers.entries.is_empty(), "a lookup needs a mirror first");
}

#[test]
fn a_terminal_without_graphics_never_reserves_cover_space() {
    let mut a = app();
    a.mode = Mode::Browsing;
    install(&mut a, books(1));
    a.covers.insert(
        a.results[0].md5.clone(),
        Slot::Ready(Art {
            encoded: Vec::new(),
            pixels: None,
        }),
    );
    assert!(!a.cover_visible());
    press(&mut a, KeyCode::Down);
    assert!(a.cover_due.is_none(), "no protocol, no lookups");
}

/// A result set shaped like the Das Kapital problem: one work, many languages
/// and formats mixed together.
fn polyglot() -> Vec<Book> {
    let entry = |i: usize, lang: &str, ext: &str| Book {
        md5: format!("{i:032x}"),
        title: format!("Das Kapital {i}"),
        language: Some(lang.into()),
        extension: Some(ext.into()),
        ..Default::default()
    };
    vec![
        entry(0, "German", "pdf"),
        entry(1, "German", "epub"),
        entry(2, "English", "epub"),
        entry(3, "German", "pdf"),
        entry(4, "English", "pdf"),
        entry(5, "Spanish", "djvu"),
    ]
}

#[test]
fn cycling_the_language_filter_narrows_the_results() {
    let mut a = app();
    a.mode = Mode::Browsing;
    install(&mut a, polyglot());
    assert_eq!(a.visible.len(), 6);

    // Options come most-common-first, so one press lands on German…
    press(&mut a, KeyCode::Char('l'));
    assert_eq!(a.lang_filter.as_deref(), Some("German"));
    assert_eq!(a.visible.len(), 3);

    // …and the next lands on English: the whole point of the feature.
    press(&mut a, KeyCode::Char('l'));
    assert_eq!(a.lang_filter.as_deref(), Some("English"));
    assert_eq!(a.visible.len(), 2);
    assert!(a
        .visible
        .iter()
        .all(|&i| a.results[i].language.as_deref() == Some("English")));

    // Cycling past the end returns to everything.
    press(&mut a, KeyCode::Char('l')); // Spanish
    press(&mut a, KeyCode::Char('l')); // back to all
    assert_eq!(a.lang_filter, None);
    assert_eq!(a.visible.len(), 6);
}

#[test]
fn a_filter_goes_round_either_way() {
    let mut a = app();
    install(&mut a, polyglot());
    for (step, language) in [
        (-1, Some("Spanish")),
        (2, Some("German")),
        (-9, None),
        (10, Some("English")),
    ] {
        a.cycle_filter(false, step, 0);
        assert_eq!(a.lang_filter.as_deref(), language, "{step}");
    }
}

#[test]
fn the_two_filters_compose_and_x_clears_them() {
    let mut a = app();
    a.mode = Mode::Browsing;
    install(&mut a, polyglot());

    press(&mut a, KeyCode::Char('l')); // German (most common)
    press(&mut a, KeyCode::Char('e')); // pdf (most common among German)
    assert_eq!(a.fmt_filter.as_deref(), Some("pdf"));
    assert_eq!(a.visible.len(), 2, "German pdfs only");

    press(&mut a, KeyCode::Char('x'));
    assert_eq!(a.fmt_filter, None);
    assert_eq!(a.lang_filter, None);
    assert_eq!(a.visible.len(), 6);
}

#[test]
fn facet_counts_respect_the_other_filter() {
    let mut a = app();
    install(&mut a, polyglot());
    a.lang_filter = Some("English".into());
    a.refine(TICK);
    // With English active there is 1 epub and 1 pdf to offer, not 2 and 3.
    let formats = a.facet_options(true);
    assert!(formats.iter().all(|(_, n)| *n == 1), "{formats:?}");
}

#[test]
fn filters_survive_a_new_search() {
    let mut a = app();
    a.mode = Mode::Browsing;
    install(&mut a, polyglot());
    press(&mut a, KeyCode::Char('l'));
    press(&mut a, KeyCode::Char('l'));
    assert_eq!(a.lang_filter.as_deref(), Some("English"));

    tell(&mut a, Ev::Results(Ok((polyglot(), "libgen.li".into()))));
    assert_eq!(
        a.lang_filter.as_deref(),
        Some("English"),
        "a standing preference"
    );
    assert_eq!(a.visible.len(), 2);
    assert!(a.status.contains("2 of 6"), "{}", a.status);
}

#[test]
fn selection_downloads_and_marks_follow_the_visible_rows() {
    let mut a = app();
    a.mode = Mode::Browsing;
    install(&mut a, polyglot());
    press(&mut a, KeyCode::Char('l'));
    press(&mut a, KeyCode::Char('l')); // English: results 2 and 4

    assert_eq!(
        a.selected().map(|b| b.md5.clone()).as_deref(),
        Some("00000000000000000000000000000002")
    );
    press(&mut a, KeyCode::Down);
    assert_eq!(
        a.selected().map(|b| b.md5.clone()).as_deref(),
        Some("00000000000000000000000000000004")
    );
    press(&mut a, KeyCode::Down);
    assert_eq!(a.table.selected(), Some(1), "two rows showing, no further");

    // `a` marks only what is showing.
    press(&mut a, KeyCode::Char('a'));
    assert_eq!(a.marked, [false, false, true, false, true, false]);
}

#[test]
fn the_filter_keeps_the_highlighted_book_when_it_survives() {
    let mut a = app();
    a.mode = Mode::Browsing;
    install(&mut a, polyglot());
    // Highlight the English pdf (index 4), then filter to pdfs: the book
    // survives the cut, so the highlight must stay on it.
    for _ in 0..4 {
        press(&mut a, KeyCode::Down);
    }
    press(&mut a, KeyCode::Char('e')); // pdf, the most common format
    assert_eq!(a.fmt_filter.as_deref(), Some("pdf"));
    assert_eq!(
        a.selected().map(|b| b.md5.clone()).as_deref(),
        Some("00000000000000000000000000000004"),
        "the highlight should follow the book, not the row number"
    );
    assert_eq!(a.table.selected(), Some(2), "the book moved up the list");
}

#[test]
fn the_filter_bar_reports_the_narrowing() {
    let mut a = app();
    a.mode = Mode::Browsing;
    install(&mut a, polyglot());
    let screen = draw(&mut a, 100, 24);
    assert!(screen.contains("6 results"), "{screen}");
    assert!(screen.contains("format"), "{screen}");
    assert!(screen.contains("language"), "{screen}");

    press(&mut a, KeyCode::Char('l'));
    press(&mut a, KeyCode::Char('l'));
    let screen = draw(&mut a, 100, 24);
    assert!(screen.contains("English"), "{screen}");
    assert!(screen.contains("2 of 6 shown"), "{screen}");
    assert!(screen.contains("clear"), "{screen}");
}

#[test]
fn an_over_narrow_filter_pair_explains_itself() {
    let mut a = app();
    a.mode = Mode::Browsing;
    install(&mut a, polyglot());
    a.lang_filter = Some("Spanish".into());
    a.fmt_filter = Some("epub".into());
    a.refine(TICK);
    assert!(a.visible.is_empty());
    let screen = draw(&mut a, 100, 24);
    assert!(screen.contains("none of the 6 results"), "{screen}");
    assert!(screen.contains("epub + Spanish"), "{screen}");
    assert!(screen.contains("clears"), "{screen}");
}

#[test]
fn a_wide_terminal_gets_the_side_panel() {
    let mut a = app();
    a.mode = Mode::Browsing;
    install(
        &mut a,
        vec![Book {
            md5: "1b9159991f7fb1b3910c0be9ebf7e595".into(),
            title: "The Dispossessed".into(),
            authors: Some("Ursula K. Le Guin".into()),
            publisher: Some("Harper & Row".into()),
            year: Some("1974".into()),
            language: Some("English".into()),
            extension: Some("epub".into()),
            pages: Some("341".into()),
            size_bytes: Some(2 * 1024 * 1024),
            ..Default::default()
        }],
    );

    // Wide: the record reads as labelled rows in the right-hand panel.
    let screen = draw(&mut a, 130, 40);
    assert!(screen.contains("publisher"), "{screen}");
    assert!(screen.contains("Harper & Row"), "{screen}");
    assert!(
        screen.contains("1b9159991f7fb1b3910c0be9ebf7e595"),
        "{screen}"
    );

    // Narrow: the old bottom strip, nothing lost.
    let screen = draw(&mut a, 90, 24);
    assert!(screen.contains("The Dispossessed"), "{screen}");
    assert!(
        screen.contains("1b9159991f7fb1b3910c0be9ebf7e595"),
        "{screen}"
    );
}

#[test]
fn job_labels_cover_every_state() {
    assert_eq!(job_label(None), "");
    assert_eq!(job_label(Some(&Job::Queued)), "queued");
    assert_eq!(job_label(Some(&Job::Saved("x".into()))), "saved");
    assert_eq!(job_label(Some(&Job::Failed("x".into()))), "failed");
    assert_eq!(
        job_label(Some(&Job::Running {
            done: 25,
            total: Some(100)
        })),
        " 25%"
    );
}

// --- what holds of every session -------------------------------------------

#[test]
fn a_session_begins_with_what_was_asked_for() {
    let a = App::new(
        settings(),
        Some("dune".to_string()),
        Protocol::Blocks,
        &entries(2),
    );
    assert_eq!(a.query, "dune");
    assert_eq!(a.caret, 4);
    assert_eq!(a.library.len(), 2);
    assert!(a.pending_search);
    assert!(matches!(
        a.actions[0],
        Action::ResolveMirrors { refresh: false }
    ));
}

#[test]
fn a_deferred_search_is_run_when_a_mirror_turns_up() {
    let mut a = app();
    a.query = "dune ext:epub".into();
    a.spawn_search();
    assert!(a.actions.is_empty());
    tell(&mut a, Ev::Mirrors(Ok(vec!["https://libgen.li".to_string()])));
    assert_eq!(a.mirror_label, "libgen.li");
    match a.actions.last() {
        Some(Action::Search(q)) => {
            assert_eq!(q.terms, "dune");
            assert_eq!(q.extension.as_deref(), Some("epub"));
        }
        other => panic!("expected a search, got {other:?}"),
    }
}

#[test]
fn a_mirror_that_is_no_url_has_no_name() {
    let mut a = app();
    tell(&mut a, Ev::Mirrors(Ok(vec!["not a url".to_string()])));
    assert_eq!(a.mirror_label, "none");
    tell(&mut a, Ev::Mirrors(Err("all down\nsee below".to_string())));
    assert_eq!(a.mirror_label, "unavailable");
    assert_eq!(a.error.as_deref(), Some("all down"));
}

#[test]
fn downloads_run_one_at_a_time() {
    let mut a = app();
    a.mode = Mode::Browsing;
    install(&mut a, books(2));
    press(&mut a, KeyCode::Enter);
    assert!(a.downloading);
    assert_eq!(a.actions.len(), 1);
    press(&mut a, KeyCode::Enter);
    assert_eq!(a.actions.len(), 1, "the second waits its turn");
    assert!(a.error.is_some());
}

#[test]
fn a_choice_leaves_as_many_as_its_count_says() {
    let mut a = app();
    install(&mut a, polyglot());
    a.lang_filter = Some("German".into());
    a.refine(TICK);
    for (name, count) in a.facet_options(true) {
        a.fmt_filter = Some(name);
        a.refine(TICK);
        assert_eq!(a.visible.len(), count);
    }
}

#[test]
fn cycling_back_undoes_cycling_on() {
    let mut a = app();
    a.mode = Mode::Browsing;
    install(&mut a, polyglot());
    press(&mut a, KeyCode::Char('e'));
    press(&mut a, KeyCode::Char('E'));
    assert_eq!(a.fmt_filter, None);
    press(&mut a, KeyCode::Char('L'));
    assert_eq!(a.lang_filter.as_deref(), Some("Spanish"), "from the far end");
}

#[test]
fn typing_and_erasing_leaves_the_box_as_it_was() {
    let mut a = app();
    a.query = "naïve".into();
    a.caret = 3;
    press(&mut a, KeyCode::Char('日'));
    press(&mut a, KeyCode::Backspace);
    assert_eq!(a.query, "naïve");
    assert_eq!(a.caret, 3);
}

#[test]
fn a_saved_book_joins_the_library_at_once() {
    let mut a = app();
    a.handle(
        Ev::Finished {
            md5: "abc".into(),
            outcome: Ok("book.epub".into()),
        },
        TICK,
        &entries(3),
    );
    assert_eq!(a.library.len(), 3);
    assert_eq!(a.status, "saved book.epub");
}

#[test]
fn forgetting_leaves_the_file_and_says_so() {
    let mut a = app();
    with_library(&mut a, entries(2));
    press(&mut a, KeyCode::Char('d'));
    assert!(matches!(a.actions.last(), Some(Action::Forget { .. })));
    a.handle(
        Ev::Forgotten {
            name: "Book 0.epub".into(),
            outcome: Ok(()),
        },
        TICK,
        &entries(1),
    );
    assert_eq!(a.status, "forgot Book 0.epub — the file is still there");
    assert_eq!(a.shown.len(), 1);
}

#[test]
fn a_long_error_is_cut_to_one_line() {
    let mut a = app();
    let long = "é".repeat(300);
    tell(&mut a, Ev::Results(Err(format!("{long}\nmore"))));
    assert_eq!(a.error, Some(format!("{}…", "é".repeat(100))));
    assert_eq!(a.status, "search failed");
}

#[test]
fn a_present_book_can_be_opened_and_a_missing_one_forgotten() {
    let mut a = app();
    with_library(&mut a, entries(2));
    let here = Disk {
        files: vec!["/books/Book 0.epub".to_string()],
    };
    let screen = draw_on(&mut a, 100, 24, &here);
    assert!(screen.contains("f reveal in file manager"), "{screen}");
    assert!(screen.contains("Book 1 (missing)"), "{screen}");
    press(&mut a, KeyCode::Down);
    let screen = draw_on(&mut a, 100, 24, &here);
    assert!(screen.contains("press d to forget it"), "{screen}");
}

// --- the frame --------------------------------------------------------------

#[test]
fn a_frame_with_room_is_shared_out_exactly() {
    for details in [0u16, 3, 4, 12, 14] {
        for filters in [0u16, 1] {
            for height in 7 + filters + details..=150 {
                let area = Rect {
                    x: 2,
                    y: 5,
                    width: 90,
                    height,
                };
                let parts = frame_parts(area, filters, details);
                let row = |y: u16, height: u16| Rect {
                    x: 2,
                    y,
                    width: 90,
                    height,
                };
                let list = height - 4 - filters - details;
                assert_eq!(parts.input, row(5, 3));
                assert_eq!(parts.filters, row(8, filters));
                assert_eq!(parts.list, row(8 + filters, list));
                assert_eq!(parts.details, row(8 + filters + list, details));
                assert_eq!(parts.hints, row(4 + height, 1));
            }
        }
    }
}

#[test]
fn a_panel_takes_its_columns_from_the_right() {
    for width in 82u16..=400 {
        let area = Rect {
            x: 3,
            y: 1,
            width,
            height: 20,
        };
        let (list, panel) = side_by_side(area);
        assert_eq!(
            list,
            Rect {
                width: width - 42,
                ..area
            }
        );
        assert_eq!(
            panel,
            Rect {
                x: 3 + width - 42,
                width: 42,
                ..area
            }
        );
    }
}

#[test]
fn a_small_frame_still_has_all_its_parts() {
    for height in 0..12u16 {
        let area = frame_of(40, height);
        let parts = frame_parts(area, 1, 3);
        for part in [parts.input, parts.filters, parts.list, parts.details, parts.hints] {
            assert_eq!((part.x, part.width), (0, 40));
            assert!(part.y + part.height <= height, "{part:?} of {height}");
        }
        let (list, panel) = side_by_side(Rect {
            x: 2,
            y: 0,
            width: 7 * height,
            height,
        });
        for part in [list, panel] {
            assert!(part.x >= 2 && part.x + part.width <= 2 + 7 * height);
        }
    }
}

#[test]
fn the_parts_of_a_frame_leave_no_gap() {
    for details in [0u16, 1, 3, 7, 14] {
        for filters in [0u16, 1] {
            for height in 0..=24u16 {
                for y in [0u16, 3] {
                    let area = Rect {
                        x: 0,
                        y,
                        width: 40,
                        height,
                    };
                    let p = frame_parts(area, filters, details);
                    let mut at = y;
                    for part in [p.input, p.filters, p.list, p.details, p.hints] {
                        assert_eq!(part.y, at, "{p:?} of {area:?}");
                        at += part.height;
                    }
                    assert_eq!(at, y + height, "{p:?} of {area:?}");
                }
            }
        }
    }
    for width in 0..=100u16 {
        let area = Rect {
            x: 5,
            y: 1,
            width,
            height: 9,
        };
        let (list, panel) = side_by_side(area);
        assert_eq!((list.x, panel.x), (5, 5 + list.width));
        assert_eq!(panel.x + panel.width, 5 + width);
    }
}

#[test]
fn the_keys_of_the_tabs_close_the_help_too() {
    for (key, tab) in [('1', Tab::Search), ('2', Tab::Library)] {
        for from in [Tab::Search, Tab::Library] {
            let mut a = app();
            a.show(from, 0, &vec![]);
            a.mode = Mode::Help;
            press(&mut a, KeyCode::Char(key));
            assert_eq!(a.mode, Mode::Browsing);
            assert_eq!(a.tab, tab);
        }
    }
}

#[test]
fn the_help_is_named_after_the_program() {
    let mut a = app();
    a.mode = Mode::Help;
    let screen = draw(&mut a, 100, 50);
    assert!(screen.contains(" tomesole · keys "), "{screen}");
    assert!(screen.contains("isbn:"), "the tags are listed: {screen}");
}

#[test]
fn the_cursor_follows_the_caret() {
    let mut a = app();
    a.query = "日本 x".into();
    a.caret = 2;
    let widgets = a.render_input(frame_of(40, 3));
    // Past the border, the prompt and two wide characters.
    assert_eq!(widgets.last(), Some(&Widget::Cursor { x: 7, y: 1 }));
}

#[test]
fn a_poster_keeps_its_shape() {
    let mut a = app();
    a.mode = Mode::Browsing;
    a.protocol = Protocol::Kitty;
    install(&mut a, books(1));
    a.covers.insert(
        a.results[0].md5.clone(),
        Slot::Ready(Art {
            encoded: Vec::new(),
            pixels: Some(graphics::Image::new(2, 2, vec![0; 12])),
        }),
    );
    let inner = Rect {
        x: 1,
        y: 1,
        width: 40,
        height: 30,
    };
    let (screen, top) = a.place_cover(inner, &a.results[0].md5.clone());
    // A square picture, in cells twice as tall as they are wide.
    assert_eq!(
        screen.cover,
        Some(Rect {
            x: 2,
            y: 1,
            width: 38,
            height: 19,
        })
    );
    assert_eq!(top, 21);
}

#[test]
fn a_book_without_a_cover_gets_an_empty_jacket() {
    let mut a = app();
    a.mode = Mode::Browsing;
    a.protocol = Protocol::Blocks;
    install(&mut a, books(1));
    let screen = draw(&mut a, 130, 40);
    assert!(screen.contains("no cover"), "{screen}");
    assert_eq!(a.cover_area, None);
}

// --- sorting -----------------------------------------------------------------

fn varied() -> Vec<Book> {
    let book = |title: &str, author: &str, year: &str, size: u64, i: usize| Book {
        md5: format!("{i:032x}"),
        title: title.into(),
        authors: Some(author.into()),
        year: Some(year.into()),
        size_bytes: Some(size),
        extension: Some("epub".into()),
        ..Default::default()
    };
    vec![
        book("Dune", "Herbert, Frank", "1965", 900, 0),
        book("children of time", "Tchaikovsky, Adrian", "2015;2016", 700, 1),
        book("Babel", "Kuang, R. F.", "2022", 900, 2),
        book("Annihilation", "VanderMeer, Jeff", "", 1200, 3),
    ]
}

fn sorted_app() -> App {
    let mut a = app();
    a.mode = Mode::Browsing;
    install(&mut a, varied());
    a
}

/// Choose the entry of the sort menu so many places down.
fn pick_order(a: &mut App, down: usize) {
    press(a, KeyCode::Char('s'));
    assert_eq!(a.mode, Mode::Sorting);
    while a.menu > 0 {
        press(a, KeyCode::Up);
    }
    for _ in 0..down {
        press(a, KeyCode::Down);
    }
    press(a, KeyCode::Enter);
    assert_eq!(a.mode, Mode::Browsing);
}

#[test]
fn the_sort_menu_orders_the_results() {
    let mut a = sorted_app();
    assert_eq!(a.visible, [0, 1, 2, 3]);
    pick_order(&mut a, 1);
    assert_eq!(a.visible, [3, 2, 1, 0], "by title, whatever its case");
    pick_order(&mut a, 2);
    assert_eq!(a.visible, [0, 2, 1, 3], "by author");
    pick_order(&mut a, 3);
    assert_eq!(a.visible, [2, 1, 0, 3], "newest first, the unknown last");
    pick_order(&mut a, 4);
    assert_eq!(a.visible, [3, 0, 2, 1], "largest first, equals as they came");
    pick_order(&mut a, 0);
    assert_eq!(a.visible, [0, 1, 2, 3]);
}

#[test]
fn an_order_is_reversed_in_place_and_from_the_menu() {
    let mut a = sorted_app();
    press(&mut a, KeyCode::Char('S'));
    assert_eq!(a.visible, [3, 2, 1, 0]);
    pick_order(&mut a, 4);
    assert_eq!(a.sorting, Sorting { order: Order::Size, backwards: false });
    press(&mut a, KeyCode::Char('s'));
    press(&mut a, KeyCode::Right);
    assert_eq!(a.mode, Mode::Sorting, "the menu stays open");
    assert_eq!(a.visible, [1, 0, 2, 3], "equals as they came");
    press(&mut a, KeyCode::Enter);
    assert!(a.sorting.backwards, "choosing the same order keeps its direction");
    press(&mut a, KeyCode::Char('S'));
    assert_eq!(a.visible, [3, 0, 2, 1]);
}

#[test]
fn sorting_keeps_the_highlighted_book() {
    let mut a = sorted_app();
    a.table.select(Some(1));
    pick_order(&mut a, 1);
    assert_eq!(a.table.selected(), Some(2));
    assert_eq!(a.results[a.visible[2]].title, "children of time");
}

#[test]
fn the_sort_menu_closes_without_choosing() {
    let mut a = sorted_app();
    for key in [KeyCode::Esc, KeyCode::Char('s'), KeyCode::Char('q'), KeyCode::Home] {
        press(&mut a, KeyCode::Char('s'));
        press(&mut a, KeyCode::Down);
        press(&mut a, key);
        assert_eq!(a.mode, Mode::Browsing);
        assert!(!a.quit);
        assert_eq!(a.sorting, AS_IT_CAME);
    }
    press(&mut a, KeyCode::Char('s'));
    press(&mut a, KeyCode::Tab);
    assert_eq!((a.mode, a.tab), (Mode::Browsing, Tab::Library));
}

#[test]
fn the_sort_menu_is_drawn_over_the_list() {
    let mut a = sorted_app();
    press(&mut a, KeyCode::Char('s'));
    let screen = draw(&mut a, 100, 30);
    assert!(screen.contains(" sort by "), "{screen}");
    assert!(screen.contains("› relevance ↓"), "{screen}");
    assert!(screen.contains("year"), "{screen}");
    press(&mut a, KeyCode::Esc);
    pick_order(&mut a, 1);
    press(&mut a, KeyCode::Char('s'));
    let screen = draw(&mut a, 100, 30);
    assert!(screen.contains("› title ↑"), "{screen}");
    // A library does not know its years.
    let mut a = app();
    a.mode = Mode::Browsing;
    with_library(&mut a, entries(3));
    a.tab = Tab::Library;
    press(&mut a, KeyCode::Char('s'));
    let screen = draw(&mut a, 100, 30);
    assert!(screen.contains("› date added ↓"), "{screen}");
    assert!(!screen.contains("   year"), "{screen}");
}

#[test]
fn the_library_is_sorted_too() {
    let mut a = app();
    let mut list = entries(3);
    for (e, (title, size)) in list.iter_mut().zip([("C", 5), ("a", 9), ("B", 7)]) {
        e.title = title.into();
        e.size = size;
    }
    with_library(&mut a, list);
    a.tab = Tab::Library;
    a.mode = Mode::Browsing;
    assert_eq!(a.shown, [0, 1, 2]);
    pick_order(&mut a, 1);
    assert_eq!(a.shown, [1, 2, 0]);
    pick_order(&mut a, 3);
    assert_eq!(a.shelving.order, Order::Size);
    assert_eq!(a.shown, [1, 2, 0]);
    press(&mut a, KeyCode::Char('S'));
    assert_eq!(a.shown, [0, 2, 1]);
    assert_eq!(a.sorting, AS_IT_CAME, "the results are left alone");
}

// --- what the strips say -------------------------------------------------------

#[test]
fn the_strip_totals_what_is_marked() {
    let mut a = sorted_app();
    let screen = draw(&mut a, 100, 30);
    assert!(!screen.contains("marked"), "{screen}");
    for b in a.results.iter_mut() {
        b.size_bytes = Some(8 * 1024 * 1024);
    }
    a.results[3].size_bytes = None;
    press(&mut a, KeyCode::Char(' '));
    press(&mut a, KeyCode::Char(' '));
    press(&mut a, KeyCode::Char(' '));
    let screen = draw(&mut a, 100, 30);
    assert!(screen.contains("3 marked · 24.0 MB"), "{screen}");
    press(&mut a, KeyCode::Char('A'));
    let screen = draw(&mut a, 100, 30);
    assert!(screen.contains("4 marked · 24.0 MB"), "{screen}");
    press(&mut a, KeyCode::Char('A'));
    assert!(a.marked.iter().all(|m| !m));
    // Nothing is known of the size of this one.
    a.marked[3] = true;
    let screen = draw(&mut a, 100, 30);
    assert!(screen.contains("1 marked  "), "{screen}");
}

#[test]
fn a_book_in_the_library_is_marked_among_the_results() {
    let mut a = sorted_app();
    let mut list = entries(1);
    list[0].md5 = a.results[1].md5.clone();
    with_library(&mut a, list);
    a.tab = Tab::Search;
    let screen = draw(&mut a, 100, 30);
    let row = |title: &str| screen.lines().find(|l| l.contains(title)).unwrap().to_string();
    assert!(row("children of time").contains("library"), "{screen}");
    assert!(row("children of time").contains('●'), "{screen}");
    assert!(!row("Babel").contains("library"), "{screen}");
}

#[test]
fn the_library_is_summed_up() {
    let mut a = app();
    a.mode = Mode::Browsing;
    let mut list = entries(4);
    for (e, ext) in list.iter_mut().zip(["epub", "PDF", "EPUB", ""]) {
        e.extension = Some(ext.into());
        e.size = 1024 * 1024;
    }
    with_library(&mut a, list);
    a.tab = Tab::Library;
    let screen = draw(&mut a, 100, 30);
    assert!(screen.contains("4 books · 4.00 MB · 2 epub · 1 pdf"), "{screen}");
    with_library(&mut a, entries(1));
    let screen = draw(&mut a, 100, 30);
    assert!(screen.contains("1 book · "), "{screen}");
}

#[test]
fn the_md5_goes_to_the_clipboard() {
    let mut a = sorted_app();
    a.table.select(Some(2));
    a.actions.clear();
    press(&mut a, KeyCode::Char('y'));
    let md5 = a.results[2].md5.clone();
    match a.actions.as_slice() {
        [Action::Copy(text)] => assert_eq!(*text, md5),
        _ => panic!("nothing was copied"),
    }
    assert_eq!(a.status, format!("copied {md5}"));
    assert_eq!(graphics::clipboard("abc"), "\u{1b}]52;c;YWJj\u{7}");

    let mut a = app();
    a.mode = Mode::Browsing;
    press(&mut a, KeyCode::Char('y'));
    assert!(a.actions.is_empty());
}

#[test]
fn h_shows_the_library() {
    let mut a = sorted_app();
    press(&mut a, KeyCode::Char('h'));
    assert_eq!(a.tab, Tab::Library);
    press(&mut a, KeyCode::Char('h'));
    assert_eq!(a.tab, Tab::Library);
}

#[test]
fn the_history_is_asked_for_when_it_counts() {
    let key = |c: char| {
        Ev::Key(Key {
            code: KeyCode::Char(c),
            ctrl: false,
        })
    };
    let mut a = sorted_app();
    for c in ['o', 'f', 'h', '2'] {
        assert!(a.consults_history(&key(c)), "{c}");
    }
    for c in ['j', 'r', 's', 'y', '1', 'q'] {
        assert!(!a.consults_history(&key(c)), "{c}");
    }
    assert!(!a.consults_history(&Ev::Redraw));
    let finished = |outcome| Ev::Finished {
        md5: String::new(),
        outcome,
    };
    assert!(a.consults_history(&finished(Ok("x".into()))));
    assert!(!a.consults_history(&finished(Err("x".into()))));
    a.mode = Mode::Editing;
    assert!(!a.consults_history(&key('2')));
    a.mode = Mode::Browsing;
    a.tab = Tab::Library;
    assert!(a.consults_history(&key('r')));
    assert!(!a.consults_history(&key('o')));
}
