use tomesole::config::Env;
use tomesole::cover::{
    cache_path, cache_size, cached, download, fetch, find_page, pick_cover_src, same_host, store,
    worth_reading, Cached, Cover, Kind, Lookup, MAX_COVER_BYTES,
};
use tomesole::model::Book;

const PAGE: &str = r#"
        <html><body>
          <img src="/img/logo.png" alt="logo">
          <img src="/templates/flags/en.gif">
          <table><tr><td>
            <img src="/covers/2649000/1b9159991f7fb1b3910c0be9ebf7e595.jpg" alt="cover">
          </td></tr></table>
        </body></html>
    "#;

/// A 24×24 JPEG of four coloured quadrants: red, green, blue and white.
const COLOUR: &[u8] = &[
    0xFF, 0xD8, 0xFF, 0xE0, 0x00, 0x10, 0x4A, 0x46, 0x49, 0x46, 0x00, 0x01, 0x01, 0x00, 0x00, 0x01,
    0x00, 0x01, 0x00, 0x00, 0xFF, 0xDB, 0x00, 0x43, 0x00, 0x06, 0x06, 0x06, 0x06, 0x09, 0x09, 0x09,
    0x09, 0x0C, 0x0C, 0x0C, 0x0C, 0x0F, 0x0F, 0x0F, 0x0F, 0x12, 0x12, 0x12, 0x12, 0x15, 0x15, 0x15,
    0x15, 0x18, 0x18, 0x18, 0x18, 0x1B, 0x1B, 0x1B, 0x1B, 0x1E, 0x1E, 0x1E, 0x1E, 0x21, 0x21, 0x21,
    0x21, 0x24, 0x24, 0x24, 0x24, 0x27, 0x27, 0x27, 0x27, 0x2A, 0x2A, 0x2A, 0x2A, 0x2D, 0x2D, 0x2D,
    0x2D, 0x30, 0x30, 0x30, 0x30, 0x33, 0x33, 0x33, 0x33, 0xFF, 0xC0, 0x00, 0x11, 0x08, 0x00, 0x18,
    0x00, 0x18, 0x03, 0x01, 0x22, 0x00, 0x02, 0x11, 0x00, 0x03, 0x11, 0x00, 0xFF, 0xC4, 0x00, 0x1F,
    0x00, 0x00, 0x01, 0x05, 0x01, 0x01, 0x01, 0x01, 0x01, 0x01, 0x00, 0x00, 0x00, 0x00, 0x00, 0x00,
    0x00, 0x00, 0x01, 0x02, 0x03, 0x04, 0x05, 0x06, 0x07, 0x08, 0x09, 0x0A, 0x0B, 0xFF, 0xC4, 0x00,
    0x3C, 0x10, 0x00, 0x00, 0x00, 0x00, 0x00, 0x29, 0x00, 0x00, 0x00, 0x00, 0x00, 0x00, 0x00, 0x00,
    0x00, 0x00, 0x00, 0x01, 0x02, 0x03, 0x04, 0x05, 0x06, 0x07, 0x11, 0x12, 0x13, 0x14, 0x15, 0x17,
    0x21, 0x23, 0x31, 0x33, 0x35, 0x41, 0x42, 0x43, 0x45, 0x52, 0x53, 0x61, 0x62, 0x64, 0x81, 0x83,
    0x84, 0xA1, 0xA2, 0xA3, 0xB1, 0xB2, 0xC1, 0xC3, 0xD1, 0xE1, 0xE2, 0xFF, 0xDA, 0x00, 0x0C, 0x03,
    0x01, 0x00, 0x02, 0x00, 0x03, 0x00, 0x00, 0x3F, 0x00, 0xE1, 0x00, 0xD2, 0x15, 0xEA, 0xC7, 0x12,
    0x40, 0xE7, 0x0B, 0xF6, 0x87, 0xF3, 0x80, 0xF4, 0x91, 0xDE, 0x8C, 0xE1, 0x9E, 0x2F, 0xCF, 0xC5,
    0xB9, 0x44, 0xA2, 0xA2, 0x4E, 0x44, 0x9C, 0x9D, 0x98, 0x49, 0x02, 0x04, 0x00, 0xAC, 0x26, 0x8C,
    0x90, 0xD0, 0x08, 0xE1, 0x90, 0xB0, 0xF0, 0x70, 0x47, 0x25, 0x09, 0x09, 0x20, 0x44, 0x19, 0x38,
    0x6C, 0x1A, 0x10, 0x60, 0x81, 0x26, 0x0A, 0x03, 0xB9, 0x1B, 0x41, 0xA1, 0x14, 0xE2, 0xC4, 0x53,
    0x09, 0x82, 0x18, 0x8C, 0x1E, 0x2A, 0x87, 0x43, 0x85, 0x22, 0x50, 0x92, 0x50, 0xB0, 0x92, 0x24,
    0xA1, 0xC0, 0x90, 0xA0, 0x67, 0x42, 0x81, 0x02, 0x04, 0x80, 0x10, 0x34, 0xE0, 0x65, 0x00, 0x01,
    0xEB, 0xC6, 0xAB, 0x6F, 0xE1, 0x34, 0x60, 0x06, 0xAB, 0x6F, 0xE1, 0x34, 0x60, 0x60, 0x18, 0xE1,
    0x31, 0x71, 0xF8, 0x29, 0xA0, 0x78, 0x31, 0x83, 0x16, 0x8C, 0x28, 0x20, 0x99, 0xA0, 0x7C, 0xBA,
    0x07, 0xBF, 0x8E, 0x2D, 0x6D, 0xBC, 0x92, 0xD0, 0x3C, 0x00, 0x0F, 0x7F, 0x1C, 0x5A, 0xDB, 0x79,
    0x25, 0xA0, 0x7D, 0x12, 0x35, 0x29, 0x2C, 0x4A, 0x75, 0xC7, 0x84, 0x81, 0xD6, 0x08, 0xC8, 0xC0,
    0x97, 0x31, 0x00, 0xFA, 0x00, 0x00, 0x00, 0x00, 0x0F, 0x1E, 0x03, 0x50, 0x0F, 0xFF, 0xD9,
];

fn env() -> Env {
    Env {
        home: Some("/home/reader".to_string()),
        config_home: None,
        cache_home: None,
        data_home: None,
    }
}

fn book(md5: &str, file_id: Option<&str>) -> Book {
    Book {
        title: "Dune".to_string(),
        md5: md5.to_string(),
        file_id: file_id.map(|s| s.to_string()),
        ..Book::default()
    }
}

fn nothing_cached() -> Cached {
    Cached {
        missing: false,
        jpg: None,
        png: None,
        img: None,
    }
}

#[test]
fn the_cover_is_picked_out_of_the_page_furniture() {
    assert_eq!(
        pick_cover_src(PAGE).as_deref(),
        Some("/covers/2649000/1b9159991f7fb1b3910c0be9ebf7e595.jpg")
    );
}

#[test]
fn a_page_with_no_cover_says_so() {
    assert_eq!(
        pick_cover_src("<html><img src='/img/logo.png'></html>"),
        None
    );
    assert_eq!(pick_cover_src("<html>nothing at all</html>"), None);
}

#[test]
fn a_cover_named_without_a_covers_directory_is_still_found() {
    let page = "<img src='/thumbs/book-cover-123.jpeg'>";
    assert_eq!(
        pick_cover_src(page).as_deref(),
        Some("/thumbs/book-cover-123.jpeg")
    );
}

#[test]
fn an_image_under_covers_is_chosen_before_one_that_merely_says_cover() {
    let pick = |page: &str| pick_cover_src(page);
    let page = "<img src='/img/cover-icon.png'><img src='/covers/1/a.jpg'>";
    assert_eq!(pick(page).as_deref(), Some("/covers/1/a.jpg"));
    // Under the path an image file comes first, and anything there beats a name.
    let page = "<img src='/covers/1/a'><img src='/my-cover.png'><img src='/Covers/2/b.PNG'>";
    assert_eq!(pick(page).as_deref(), Some("/Covers/2/b.PNG"));
    let page = "<img src='/my-cover.png'><img src='/covers/1/a'>";
    assert_eq!(pick(page).as_deref(), Some("/covers/1/a"));
    // Without the path, an image file that says cover, and then whatever does.
    let page = "<img src='/discover'><img src='/cover.php'><img src='/cover.gif'>";
    assert_eq!(pick(page).as_deref(), Some("/cover.gif"));
    let page = "<img src='/logo.png'><img src='/discover'><img src='/cover.php'>";
    assert_eq!(pick(page).as_deref(), Some("/discover"));
}

#[test]
fn image_signatures_decide_the_kind() {
    assert_eq!(
        Cover::classify(b"\xff\xd8\xff\xe0stuff".to_vec())
            .unwrap()
            .kind,
        Kind::Jpeg
    );
    assert_eq!(
        Cover::classify(b"\x89PNG\r\n\x1a\nstuff".to_vec())
            .unwrap()
            .kind,
        Kind::Png
    );
    assert_eq!(
        Cover::classify(b"GIF89a...".to_vec()).unwrap().kind,
        Kind::Other
    );
}

/// The one that matters: a mirror answering with a page instead of a picture
/// must not have it cached and handed to a terminal.
#[test]
fn a_web_page_is_not_an_image() {
    assert!(Cover::classify(b"<html><body>captcha</body></html>".to_vec()).is_none());
    assert!(Cover::classify(b"".to_vec()).is_none());
    assert!(Cover::classify(b"\x7fELF".to_vec()).is_none());
}

#[test]
fn a_real_jpeg_cover_decodes_to_pixels() {
    let cover = Cover::classify(COLOUR.to_vec()).unwrap();
    assert_eq!(cover.kind, Kind::Jpeg);
    let image = cover.pixels().expect("the fixture decodes");
    assert_eq!((image.width, image.height), (24, 24));
}

#[test]
fn a_png_cover_is_kept_but_not_decoded_here() {
    let cover = Cover::classify(b"\x89PNG\r\n\x1a\nnot really".to_vec()).unwrap();
    assert_eq!(cover.extension(), "png");
    assert!(cover.pixels().is_none());
}

#[test]
fn hosts_are_compared_for_the_image_url() {
    let base = "https://libgen.li/index.php";
    assert!(same_host(base, "https://libgen.li/covers/x.jpg"));
    assert!(!same_host(base, "https://elsewhere.example/covers/x.jpg"));
}

#[test]
fn hosts_are_compared_whatever_their_case_and_port() {
    let base = "https://libgen.li/index.php";
    assert!(same_host(base, "https://LIBGEN.li:8443/covers/x.jpg"));
    assert!(!same_host(base, "not a url at all"));
    assert!(!same_host("", ""));
}

#[test]
fn only_a_promising_answer_is_read() {
    let image = Some("image/jpeg".to_string());
    assert!(worth_reading(200, Some(1000), &image));
    assert!(worth_reading(200, None, &None));
    assert!(!worth_reading(404, Some(1000), &image));
    assert!(!worth_reading(200, Some(MAX_COVER_BYTES + 1), &image));
    assert!(!worth_reading(200, Some(10), &Some("text/html".to_string())));
}

#[test]
fn a_download_is_a_cover_only_if_it_is_an_image() {
    let image = Some("image/jpeg".to_string());
    let cover = download(200, None, &image, COLOUR.to_vec()).unwrap();
    assert_eq!(cover.encoded, COLOUR);
    assert!(download(200, None, &image, b"<html>".to_vec()).is_none());
    assert!(download(500, None, &image, COLOUR.to_vec()).is_none());
}

#[test]
fn covers_are_cached_under_their_md5() {
    assert_eq!(
        cache_path(&env(), "abc", "jpg"),
        "/home/reader/.cache/tomesole/covers/abc.jpg"
    );
}

#[test]
fn what_is_stored_is_recalled() {
    let cover = Cover::classify(COLOUR.to_vec());
    let (path, bytes) = store(&env(), "abc", &cover);
    assert!(path.ends_with("/covers/abc.jpg"));
    let found = Cached {
        jpg: Some(bytes),
        ..nothing_cached()
    };
    assert_eq!(cached(found).unwrap().unwrap().encoded, COLOUR);

    let (path, bytes) = store(&env(), "abc", &None);
    assert!(path.ends_with("/covers/abc.none"));
    assert!(bytes.is_empty());
    let found = Cached {
        missing: true,
        ..nothing_cached()
    };
    assert!(cached(found).unwrap().is_none());
    assert!(cached(nothing_cached()).is_none());
}

#[test]
fn a_cache_is_counted_and_weighed() {
    assert_eq!(cache_size(&vec![]), (0, 0));
    assert_eq!(cache_size(&vec![10, 20, 12]), (3, 42));
}

#[test]
fn a_lookup_needs_an_md5_and_asks_the_cache_first() {
    let bad = book("not an md5", None);
    match fetch(&bad, nothing_cached()) {
        Lookup::Refused(e) => assert_eq!(e.message(), "a cover needs a valid MD5"),
        other => panic!("expected a refusal, got {other:?}"),
    }
    let md5 = "1b9159991f7fb1b3910c0be9ebf7e595";
    let known = Cached {
        missing: true,
        ..nothing_cached()
    };
    assert!(matches!(fetch(&book(md5, None), known), Lookup::Known(None)));
    match fetch(&book(md5, None), nothing_cached()) {
        Lookup::Page(p) => assert_eq!(p, find_page(&book(md5, None))),
        other => panic!("expected a page, got {other:?}"),
    }
}
