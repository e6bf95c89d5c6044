use std::collections::HashSet;

use tomesole::history;
use tomesole::history::{
    append_to, civil_from_days, date, escape, load, record, remove_from, select, timestamp,
    unescape, Disk, Entry, Outcome, MAX_ENTRIES,
};
use tomesole::model::Book;

/// How many fields a stored entry has.
const FIELDS: usize = 8;

fn entry(name: &str) -> Entry {
    Entry {
        at: 1_700_000_000,
        md5: "1b9159991f7fb1b3910c0be9ebf7e595".into(),
        path: format!("/books/{name}.epub"),
        size: 1024,
        verified: true,
        title: name.to_string(),
        authors: Some("Frank Herbert".into()),
        extension: Some("epub".into()),
    }
}

#[test]
fn an_entry_survives_a_round_trip() {
    let original = entry("Dune");
    let parsed = Entry::from_line(&original.to_line()).unwrap();
    assert_eq!(parsed, original);
}

#[test]
fn tabs_and_newlines_in_metadata_cannot_break_the_format() {
    let mut hostile = entry("Dune");
    hostile.title = "col\tumn\nrow\\end".into();
    hostile.authors = Some("a\tb".into());
    let line = hostile.to_line();
    assert_eq!(line.matches('\t').count(), FIELDS - 1, "field count moved");
    assert!(!line.contains('\n'));
    assert_eq!(Entry::from_line(&line).unwrap(), hostile);
}

#[test]
fn a_corrupt_line_is_skipped_not_fatal() {
    let table = format!("{}\n\nnot a real line\n\t\t\t\n", entry("Dune").to_line());
    let loaded = load(&table);
    assert_eq!(loaded.len(), 1, "only the good line survives: {loaded:?}");
    assert_eq!(loaded[0].title, "Dune");
}

#[test]
fn newest_comes_first() {
    let mut table = String::new();
    for name in ["First", "Second", "Third"] {
        table = append_to(&table, &entry(name));
    }
    let loaded = load(&table);
    assert_eq!(
        loaded.iter().map(|e| e.title.as_str()).collect::<Vec<_>>(),
        ["Third", "Second", "First"]
    );
}

#[test]
fn re_downloading_updates_rather_than_duplicates() {
    let table = append_to("", &entry("Dune"));
    let mut again = entry("Dune");
    again.at += 10;
    again.size = 4096;
    let table = append_to(&table, &again);

    let loaded = load(&table);
    assert_eq!(loaded.len(), 1);
    assert_eq!(loaded[0].size, 4096);
}

/// Repeated separators and the like do not make another file of it.
#[test]
fn a_path_is_the_same_however_it_is_spelled() {
    let table = append_to("", &entry("Dune"));
    let mut again = entry("Dune");
    again.path = "/books//./Dune.epub".into();
    let table = append_to(&table, &again);
    let loaded = load(&table);
    assert_eq!(loaded.len(), 1);
    assert_eq!(loaded[0].path, "/books//./Dune.epub");
    assert!(remove_from(&table, "/books/Dune.epub/").is_some());
    assert!(remove_from(&table, "books/Dune.epub").is_none());
}

#[test]
fn updates_are_merged_without_loss() {
    let mut table = String::new();
    for i in 0..16 {
        let mut item = entry(&format!("Book {i}"));
        item.path = format!("/books/{i}.epub");
        table = append_to(&table, &item);
    }
    let loaded = load(&table);
    assert_eq!(loaded.len(), 16);
    let paths: HashSet<_> = loaded.iter().map(|e| &e.path).collect();
    assert_eq!(paths.len(), 16);
}

#[test]
fn the_file_is_capped() {
    let mut table = String::new();
    for i in 0..MAX_ENTRIES + 25 {
        let mut e = entry(&format!("Book {i}"));
        e.path = format!("/books/{i}.epub");
        table.push_str(&e.to_line());
        table.push('\n');
    }
    let table = append_to(&table, &entry("One More"));

    let loaded = load(&table);
    assert_eq!(loaded.len(), MAX_ENTRIES);
    assert_eq!(loaded[0].title, "One More", "the newest must survive");
}

#[test]
fn removing_an_entry_leaves_the_rest() {
    let table = append_to("", &entry("Dune"));
    let table = append_to(&table, &entry("Emma"));

    let left = remove_from(&table, "/books/Dune.epub");
    assert!(left.is_some());
    assert!(remove_from(&table, "/books/Nothing.epub").is_none());
    let loaded = load(&left.unwrap());
    assert_eq!(loaded.len(), 1);
    assert_eq!(loaded[0].title, "Emma");
}

#[test]
fn selecting_by_position_counts_from_the_newest() {
    let entries = vec![entry("Third"), entry("Second"), entry("First")];
    assert_eq!(select(&entries, "1").unwrap()[0].title, "Third");
    assert_eq!(select(&entries, "3").unwrap()[0].title, "First");
    // An empty selector means "the last thing I downloaded".
    assert_eq!(select(&entries, "").unwrap()[0].title, "Third");
    assert!(select(&entries, "0").is_err());
    assert!(select(&entries, "4").is_err());
}

#[test]
fn selecting_by_text_matches_title_author_and_filename() {
    let entries = vec![entry("Dune"), entry("Emma")];
    assert_eq!(select(&entries, "dune").unwrap().len(), 1);
    assert_eq!(select(&entries, "DUNE.epub").unwrap()[0].title, "Dune");
    // The shared author matches both, and the caller disambiguates.
    assert_eq!(select(&entries, "herbert").unwrap().len(), 2);
    assert!(select(&entries, "nothing here").is_err());
}

#[test]
fn selecting_by_md5_works_and_reports_a_miss() {
    let entries = vec![entry("Dune")];
    assert_eq!(
        select(&entries, "1B9159991F7FB1B3910C0BE9EBF7E595")
            .unwrap()
            .len(),
        1
    );
    assert!(select(&entries, "0".repeat(32).as_str()).is_err());
}

#[test]
fn a_skip_of_a_known_file_changes_nothing() {
    // Re-downloading a file already in the history is the common skip: the
    // existing entry is better than a fresh one, so the file is left alone.
    let first = entry("Dune");
    let table = append_to("", &first);

    let outcome = Outcome {
        path: first.path.clone(),
        bytes: 0,
        verified: false,
        skipped: true,
    };
    assert!(record(true, &table, &Book::default(), &outcome, 5, None).is_none());

    let loaded = load(&table);
    assert_eq!(loaded.len(), 1);
    assert_eq!(loaded[0].at, first.at, "the original entry is untouched");
}

#[test]
fn a_skip_of_an_unknown_file_is_recorded() {
    // A book downloaded before the history existed has no entry; asking for it
    // again is how it joins the library, even though nothing transfers.
    let book = Book {
        md5: "35f70305fc4592eaafa2bc803676a51f".into(),
        title: "House of Leaves".into(),
        extension: Some("mobi".into()),
        size_bytes: Some(2_515_644),
        ..Default::default()
    };
    let outcome = Outcome {
        path: "/books/House of Leaves.mobi".into(),
        bytes: 0,
        verified: false,
        skipped: true,
    };
    let table = record(true, "", &book, &outcome, 5, None).unwrap();

    let loaded = load(&table);
    assert_eq!(loaded.len(), 1, "a pre-existing book should enter the library");
    assert_eq!(loaded[0].title, "House of Leaves");
}

#[test]
fn nothing_is_recorded_when_the_history_is_off() {
    let outcome = Outcome {
        path: "/books/a.epub".into(),
        bytes: 10,
        verified: true,
        skipped: false,
    };
    assert!(record(false, "", &Book::default(), &outcome, 5, None).is_none());
}

#[test]
fn dates_are_converted_correctly() {
    assert_eq!(date(0), "1970-01-01");
    assert_eq!(date(1_700_000_000), "2023-11-14");
    assert_eq!(timestamp(1_700_000_000), "2023-11-14 22:13");
    // A leap day, which is where naive arithmetic goes wrong.
    assert_eq!(date(1_709_164_800), "2024-02-29");
}

#[test]
fn relative_times_read_naturally() {
    let now = 1_700_000_000;
    assert_eq!(history::when(now, now), "just now");
    assert_eq!(history::when(now - 600, now), "10 min ago");
    assert_eq!(history::when(now - 7200, now), "2h ago");
    assert_eq!(history::when(now - 86_400, now), "yesterday");
    assert_eq!(history::when(now - 3 * 86_400, now), "3d ago");
    // Beyond a week, an actual date is more use than "23d ago".
    assert_eq!(history::when(now - 30 * 86_400, now), date(now - 30 * 86_400));
    assert_eq!(history::when(0, now), "");
}

#[test]
fn escaping_is_undone() {
    for text in ["", "plain", "\t\n\r\\", "a\\tb", "\\", "日本\t語"] {
        let stored = escape(text);
        assert!(!stored.contains(['\t', '\n', '\r']), "{stored:?}");
        assert_eq!(unescape(&stored), text);
    }
    // An escape that is not ours keeps both characters.
    assert_eq!(unescape("a\\qb\\"), "a\\qb\\");
}

#[test]
fn days_fall_on_their_dates() {
    assert_eq!(civil_from_days(0), (1970, 1, 1));
    assert_eq!(civil_from_days(59), (1970, 3, 1));
    assert_eq!(civil_from_days(11_016), (2000, 2, 29));
    assert_eq!(civil_from_days(11_017), (2000, 3, 1));
    assert_eq!(civil_from_days(47_541), (2100, 3, 1));
    assert_eq!(civil_from_days(-1), (1969, 12, 31));
    assert_eq!(civil_from_days(-719_468), (0, 3, 1));
    assert_eq!(civil_from_days(-719_469), (0, 2, 29));
}

#[test]
fn a_miss_says_what_was_looked_for() {
    let entries = vec![entry("Dune")];
    let said = |s: &str| select(&entries, s).unwrap_err().message().to_string();
    assert_eq!(
        said("7"),
        "there is no entry 7 — the history holds one entry"
    );
    assert_eq!(said("emma"), "nothing in the history matches “emma”");
    assert_eq!(
        said(&"f".repeat(32)),
        format!("no download in the history has the MD5 {}", "f".repeat(32))
    );
    assert_eq!(
        select(&Vec::new(), "").unwrap_err().message(),
        "nothing has been downloaded yet"
    );
}

/// Case is ignored beyond ASCII too.
#[test]
fn text_is_matched_whatever_its_case() {
    let mut e = entry("x");
    e.title = "ÉTRANGER".into();
    assert_eq!(select(&vec![e], "étranger").unwrap().len(), 1);
}

#[test]
fn a_file_is_present_where_it_was_left() {
    let e = entry("Dune");
    let here = Disk {
        files: vec!["/books/Dune.epub".to_string()],
    };
    assert!(e.present(&here));
    assert!(!e.present(&Disk { files: Vec::new() }));
}

#[test]
fn an_entry_is_made_of_what_is_known() {
    let book = Book {
        md5: "1b9159991f7fb1b3910c0be9ebf7e595".into(),
        title: "Dune".into(),
        size_bytes: Some(10),
        ..Default::default()
    };
    let outcome = Outcome {
        path: "/books/Dune.EPUB".into(),
        bytes: 2048,
        verified: true,
        skipped: false,
    };
    let e = Entry::of(&book, &outcome, 77, Some(4096));
    assert_eq!(e.at, 77);
    assert_eq!(e.filename(), "Dune.EPUB");
    assert_eq!(e.ext(), "epub");
    assert!(e.verified);
}

/// Which entries stay in a full table: the latest, in order, the new one last.
#[test]
fn a_full_table_drops_its_oldest_entries() {
    let mut table = String::new();
    for i in 0..MAX_ENTRIES {
        table.push_str(&entry(&format!("Book {i}")).to_line());
        table.push('\n');
    }
    let names = |table: &str| -> Vec<String> { load(table).into_iter().map(|e| e.title).collect() };
    let after = names(&append_to(&table, &entry("New")));
    let expected: Vec<String> = std::iter::once("New".to_string())
        .chain((1..MAX_ENTRIES).rev().map(|i| format!("Book {i}")))
        .collect();
    assert_eq!(after, expected);

    // One that was there already makes room for itself.
    let after = names(&append_to(&table, &entry("Book 5")));
    let expected: Vec<String> = std::iter::once("Book 5".to_string())
        .chain((0..MAX_ENTRIES).rev().filter(|i| *i != 5).map(|i| format!("Book {i}")))
        .collect();
    assert_eq!(after, expected);
}
