use std::path::Path;

use tomesole::double;
use tomesole::html::img_srcs;
use tomesole::keyed::Keyed;
use tomesole::model::{human_bytes, is_md5, parse_size, parse_topics, Book, SearchQuery, Topic};
use tomesole::net::{host_of, hosts_agree};
use tomesole::path;
use tomesole::query;
use tomesole::text;
use tomesole::tui::Job;

#[test]
fn the_host_of_an_address_is_read_out_of_it() {
    assert_eq!(host_of("https://libgen.li/index.php?x=1").unwrap(), "libgen.li");
    assert_eq!(host_of("https://user@a.example:8080/").unwrap(), "a.example");
    assert_eq!(
        host_of("/just/a/path").unwrap_err().message(),
        "`/just/a/path` names no host"
    );
    let a = Some("A.Example".to_string());
    let b = Some("a.example".to_string());
    assert!(hosts_agree(&a, &b));
    assert!(!hosts_agree(&a, &None));
}

#[test]
fn tags_are_told_from_words() {
    let p = query::parse("author:herbert title:dune ext:epub lang:english topic:fiction plain");
    assert_eq!(p.words, ["herbert", "dune", "plain"]);
    assert_eq!(p.extension.as_deref(), Some("epub"));
    assert_eq!(p.language.as_deref(), Some("english"));
    assert_eq!(p.topics, [Topic::Fiction]);
    assert!(p.is_tagged());
    assert!(!query::parse("just words").is_tagged());
}

#[test]
fn a_query_fills_a_search_but_not_over_what_it_carries() {
    let mut q = SearchQuery::new(String::new());
    q.extension = Some("pdf".to_string());
    query::apply("dune ext:epub lang:german", &mut q);
    assert_eq!(q.terms, "dune");
    assert_eq!(q.extension.as_deref(), Some("pdf"));
    assert_eq!(q.language.as_deref(), Some("german"));
}

#[test]
fn sizes_are_read_and_written() {
    assert_eq!(human_bytes(0), "0 B");
    assert_eq!(human_bytes(1536), "1.50 KB");
    assert_eq!(parse_size("500 MB"), Some(500 * 1024 * 1024));
    assert_eq!(parse_size("rubbish"), None);
}

#[test]
fn an_md5_is_thirty_two_hexadecimal_digits() {
    assert!(is_md5("1b9159991f7fb1b3910c0be9ebf7e595"));
    assert!(!is_md5("1b9159991f7fb1b3910c0be9ebf7e59"));
    assert!(!is_md5("zb9159991f7fb1b3910c0be9ebf7e595"));
}

#[test]
fn an_unknown_topic_is_named() {
    let names = vec!["fiction".to_string(), "nonsense".to_string()];
    assert!(parse_topics(&names).is_err());
}

#[test]
fn a_book_without_authors_says_so() {
    let mut b = Book::default();
    assert_eq!(b.authors_or_unknown(), "Unknown");
    b.authors = Some(" Le Guin ; Someone".to_string());
    assert_eq!(b.first_author(), "Le Guin");
}

#[test]
fn paths_come_apart_and_together() {
    assert_eq!(path::join("/a", "b"), "/a/b");
    assert_eq!(path::join("/a", "/b"), "/b");
    assert_eq!(path::file_name("/a/b.txt").as_deref(), Some("b.txt"));
    assert_eq!(path::file_name("/"), None);
    assert_eq!(path::parent("/a/b").as_deref(), Some("/a"));
    assert_eq!(path::extension("/a/b.tar.gz").as_deref(), Some("gz"));
    assert_eq!(path::extension("/a/.hidden"), None);
}

/// Paths are taken apart and compared as the machine's own paths are.
#[test]
fn paths_agree_with_the_machine() {
    let all = [
        "", ".", "..", "/", "//", "/.", "./", "a", "a/", "./a", "././a", "a/.", "a/./b", "a//b",
        "a/b", "/a/b", "/a/b/", "/a/b/.", "/./a//b", "a/..", "../a", ".a", "a.b", "a.b.c", "a.",
        "..a", "a/b.txt", "/a/b.txt//",
    ];
    let text = |p: Option<&Path>| p.map(|p| p.to_str().unwrap().to_string());
    for a in all {
        let p = Path::new(a);
        assert_eq!(path::file_name(a), text(p.file_name().map(Path::new)), "{a}");
        assert_eq!(path::parent(a), text(p.parent()), "{a}");
        assert_eq!(path::extension(a), text(p.extension().map(Path::new)), "{a}");
        for b in all {
            assert_eq!(path::same_place(a, b), p == Path::new(b), "{a} {b}");
            assert_eq!(path::join(a, b), p.join(b).to_str().unwrap(), "{a} {b}");
        }
    }
}

#[test]
fn images_are_found_however_they_are_quoted() {
    assert_eq!(
        img_srcs("<IMG alt='x' SRC=\"/a.png\"><p>text</p><img src='/b.jpg'/>"),
        ["/a.png", "/b.jpg"]
    );
}

#[test]
fn text_is_split_and_joined() {
    assert_eq!(text::split("a,b,,c", ','), ["a", "b", "", "c"]);
    assert_eq!(text::lines("a\r\nb\n"), ["a", "b"]);
    assert_eq!(text::words("  a \t b\u{3000}c "), ["a", "b", "c"]);
    let v = vec!["a".to_string(), "b".to_string()];
    assert_eq!(text::join(&v, " + "), "a + b");
    assert_eq!(text::trim(" \u{a0}x "), "x");
    assert_eq!(text::dec(18_446_744_073_709_551_615), "18446744073709551615");
    assert_eq!(text::parse_u64("0042", u64::MAX), Some(42));
}

#[test]
fn a_key_holds_one_value() {
    let mut k: Keyed<Job> = Keyed::new();
    k.insert("a".to_string(), Job::Queued);
    k.insert("a".to_string(), Job::Saved("x".to_string()));
    assert_eq!(k.entries.len(), 1);
    assert_eq!(k.get("a"), Some(&Job::Saved("x".to_string())));
    assert!(!k.contains_key("b"));
}

/// Quotients and products round as the machine's own doubles do.
#[test]
fn doubles_agree_with_the_machine() {
    let numbers = [1u64, 2, 3, 7, 10, 97, 1000, 65535, 1 << 40, (1 << 53) + 1, u64::MAX];
    for a in numbers {
        for b in numbers {
            let x = double::over(double::from_u64(a), double::from_u64(b));
            let machine = a as f64 / b as f64;
            assert_eq!(
                double::trunc(double::times(x, double::from_u64(100)), u32::MAX as u64),
                (machine * 100.0) as u32 as u64,
                "{a} / {b}"
            );
            assert_eq!(
                double::round(double::times(x, double::from_u64(b)), u64::MAX),
                (machine * b as f64).round() as u64,
                "{a} / {b} * {b}"
            );
        }
    }
}
