use tomesole::cover::Cover;
use tomesole::embedded::{
    cover, exth_cover_index, is_image_name, mobi_cover, too_large, zip_cover, zip_entries,
    CENTRAL_SIG, EOCD_SIG, EXTH_COVER, LOCAL_SIG, MAX_FILE_BYTES, STORED,
};

/// A one-record JPEG "image", small but signature-valid.
fn jpeg(size: usize) -> Vec<u8> {
    let mut v = vec![0xFF, 0xD8, 0xFF, 0xE0];
    v.resize(size.max(4), 0x42);
    v
}

/// Assemble a minimal but structurally real MOBI: a PDB record table, a record 0
/// carrying a MOBI+EXTH header with a cover tag, and a run of image records at
/// the end.
fn build_mobi(cover_index: Option<u32>, images: &[Vec<u8>], text_records: usize) -> Vec<u8> {
    // Record 0.
    let mut rec0 = vec![0u8; 16]; // PalmDOC header, unused here
    rec0.extend_from_slice(b"MOBI");
    rec0.extend_from_slice(&[0u8; 20]); // rest of MOBI header, unused
                                        // EXTH block.
    let mut exth = Vec::new();
    exth.extend_from_slice(b"EXTH");
    let mut records = Vec::new();
    let mut n = 0u32;
    if let Some(idx) = cover_index {
        records.extend_from_slice(&(EXTH_COVER as u32).to_be_bytes());
        records.extend_from_slice(&12u32.to_be_bytes()); // 8 header + 4 value
        records.extend_from_slice(&idx.to_be_bytes());
        n += 1;
    }
    let exth_len = 12 + records.len();
    exth.extend_from_slice(&(exth_len as u32).to_be_bytes());
    exth.extend_from_slice(&n.to_be_bytes());
    exth.extend_from_slice(&records);
    rec0.extend_from_slice(&exth);

    // The full record list: record 0, some text records, then images.
    let mut recs: Vec<Vec<u8>> = vec![rec0];
    for _ in 0..text_records {
        recs.push(b"text".to_vec());
    }
    for img in images {
        recs.push(img.clone());
    }

    // PDB header (78 bytes) + 8 bytes per record entry, then the data.
    let count = recs.len();
    let header_len = 78 + count * 8;
    let mut out = vec![0u8; 78];
    out[76..78].copy_from_slice(&(count as u16).to_be_bytes());
    let mut cursor = header_len;
    let mut table = Vec::new();
    for r in &recs {
        table.extend_from_slice(&(cursor as u32).to_be_bytes());
        table.extend_from_slice(&[0u8; 4]); // attributes + unique id
        cursor += r.len();
    }
    out.extend_from_slice(&table);
    for r in &recs {
        out.extend_from_slice(r);
    }
    out
}

#[test]
fn a_mobi_cover_is_found_through_its_exth_index() {
    // Three images; the metadata points at the middle one.
    let images = vec![jpeg(50), jpeg(900), jpeg(80)];
    let mobi = build_mobi(Some(1), &images, 4);
    let cover = cover_from_bytes(&mobi, "mobi").expect("a cover");
    assert_eq!(cover.encoded.len(), 900);
}

#[test]
fn a_mobi_without_a_cover_tag_falls_back_to_the_largest_image() {
    let images = vec![jpeg(50), jpeg(1200), jpeg(80)];
    let mobi = build_mobi(None, &images, 2);
    let cover = cover_from_bytes(&mobi, "mobi").expect("a cover");
    assert_eq!(cover.encoded.len(), 1200, "the jacket is the big one");
}

#[test]
fn a_truncated_mobi_yields_none_not_a_panic() {
    let mobi = build_mobi(Some(0), &[jpeg(300)], 3);
    for cut in (0..mobi.len()).step_by(7) {
        let _ = cover_from_bytes(&mobi[..cut], "mobi");
    }
}

/// A minimal zip with the given stored files, in order.
fn build_zip(files: &[(&str, Vec<u8>)]) -> Vec<u8> {
    let named: Vec<(Vec<u8>, Vec<u8>)> = files
        .iter()
        .map(|(name, body)| (name.as_bytes().to_vec(), body.clone()))
        .collect();
    build_zip_of(&named)
}

fn build_zip_of(files: &[(Vec<u8>, Vec<u8>)]) -> Vec<u8> {
    let mut out = Vec::new();
    let mut central = Vec::new();
    let mut locals = Vec::new();
    for (name, body) in files {
        let offset = locals.len();
        // Local file header.
        locals.extend_from_slice(&(LOCAL_SIG as u32).to_le_bytes());
        locals.extend_from_slice(&[0u8; 4]); // version + flags
        locals.extend_from_slice(&STORED.to_le_bytes());
        locals.extend_from_slice(&[0u8; 8]); // time/date + crc
        locals.extend_from_slice(&(body.len() as u32).to_le_bytes()); // comp size
        locals.extend_from_slice(&(body.len() as u32).to_le_bytes()); // uncomp size
        locals.extend_from_slice(&(name.len() as u16).to_le_bytes());
        locals.extend_from_slice(&0u16.to_le_bytes()); // extra len
        locals.extend_from_slice(name);
        locals.extend_from_slice(body);
        // Central directory entry.
        central.extend_from_slice(&(CENTRAL_SIG as u32).to_le_bytes());
        central.extend_from_slice(&[0u8; 6]); // versions + flags
        central.extend_from_slice(&STORED.to_le_bytes());
        central.extend_from_slice(&[0u8; 8]); // time/date + crc
        central.extend_from_slice(&(body.len() as u32).to_le_bytes());
        central.extend_from_slice(&(body.len() as u32).to_le_bytes());
        central.extend_from_slice(&(name.len() as u16).to_le_bytes());
        // bytes 30..42: extra len, comment len, disk start, internal and
        // external attrs — all zero here — then the local header offset.
        central.extend_from_slice(&[0u8; 12]);
        central.extend_from_slice(&(offset as u32).to_le_bytes());
        central.extend_from_slice(name);
    }
    let central_offset = locals.len();
    out.extend_from_slice(&locals);
    out.extend_from_slice(&central);
    // EOCD: sig, disk numbers (4), entries this disk (2), total entries (2),
    // central-directory size (4), central-directory offset (4), comment
    // length (2).
    out.extend_from_slice(&(EOCD_SIG as u32).to_le_bytes());
    out.extend_from_slice(&[0u8; 4]);
    out.extend_from_slice(&(files.len() as u16).to_le_bytes());
    out.extend_from_slice(&(files.len() as u16).to_le_bytes());
    out.extend_from_slice(&(central.len() as u32).to_le_bytes());
    out.extend_from_slice(&(central_offset as u32).to_le_bytes());
    out.extend_from_slice(&0u16.to_le_bytes());
    out
}

#[test]
fn an_epub_prefers_the_image_named_cover() {
    let zip = build_zip(&[
        ("mimetype", b"application/epub+zip".to_vec()),
        ("OEBPS/images/figure1.jpg", jpeg(2000)),
        ("OEBPS/images/cover.jpg", jpeg(300)),
    ]);
    let cover = cover_from_bytes(&zip, "epub").expect("a cover");
    assert_eq!(
        cover.encoded.len(),
        300,
        "the one named cover wins over a bigger figure"
    );
}

#[test]
fn an_epub_without_a_named_cover_takes_the_largest_image() {
    let zip = build_zip(&[("OEBPS/a.jpg", jpeg(400)), ("OEBPS/b.jpg", jpeg(1500))]);
    let cover = cover_from_bytes(&zip, "epub").expect("a cover");
    assert_eq!(cover.encoded.len(), 1500);
}

#[test]
fn a_cbz_takes_the_first_page() {
    let zip = build_zip(&[
        ("002.jpg", jpeg(400)),
        ("001.jpg", jpeg(500)),
        ("003.jpg", jpeg(600)),
    ]);
    let cover = cover_from_bytes(&zip, "cbz").expect("a cover");
    assert_eq!(cover.encoded.len(), 500, "001 comes first, size aside");
}

#[test]
fn a_non_image_entry_is_not_mistaken_for_a_cover() {
    let zip = build_zip(&[("cover.jpg", b"not really a jpeg".to_vec())]);
    assert!(cover_from_bytes(&zip, "epub").is_none());
}

#[test]
fn garbage_is_rejected_without_panicking() {
    assert!(cover_from_bytes(b"", "epub").is_none());
    assert!(cover_from_bytes(b"PK\x03\x04 nonsense", "epub").is_none());
    assert!(cover_from_bytes(&[0xFF; 500], "mobi").is_none());
}

/// The extension dispatch without going through the filesystem.
fn cover_from_bytes(bytes: &[u8], ext: &str) -> Option<Cover> {
    let raw = match ext {
        "epub" | "cbz" => zip_cover(bytes, ext),
        "mobi" => mobi_cover(bytes),
        _ => None,
    }?;
    Cover::from_bytes(bytes[raw.0..raw.1].to_vec())
}

#[test]
fn a_file_is_read_by_its_extension() {
    let zip = build_zip(&[("cover.jpg", jpeg(300)), ("a.jpg", jpeg(400))]);
    assert_eq!(cover("/books/Dune.EPUB", &zip).unwrap().encoded.len(), 300);
    assert_eq!(cover("/books/Dune.cbz", &zip).unwrap().encoded.len(), 400);
    assert!(cover("/books/Dune.pdf", &zip).is_none());
    let mobi = build_mobi(Some(1), &[jpeg(50), jpeg(900)], 1);
    assert_eq!(cover("/books/Dune.azw3", &mobi).unwrap().encoded.len(), 900);
}

#[test]
fn a_cover_tag_is_read_out_of_the_header() {
    let mobi = build_mobi(Some(7), &[jpeg(50)], 0);
    // Record 0 starts after the header of two records.
    assert_eq!(exth_cover_index(&mobi[78 + 16..]), Some(7));
    assert_eq!(exth_cover_index(b"nothing here"), None);
}

#[test]
fn names_in_an_archive_are_listed() {
    let zip = build_zip(&[("b.txt", b"hello".to_vec()), ("a.jpg", jpeg(40))]);
    let entries = zip_entries(&zip).unwrap();
    let names: Vec<&str> = entries.iter().map(|e| e.name.as_str()).collect();
    assert_eq!(names, ["b.txt", "a.jpg"]);
    assert_eq!(entries[1].size, 40);
}

#[test]
fn a_name_that_is_not_utf8_is_read_as_far_as_it_goes() {
    let zip = build_zip_of(&[(b"caf\xe9.jpg".to_vec(), jpeg(40))]);
    assert_eq!(zip_entries(&zip).unwrap()[0].name, "caf\u{fffd}.jpg");
    let zip = build_zip_of(&[("café.jpg".as_bytes().to_vec(), jpeg(40))]);
    assert_eq!(zip_entries(&zip).unwrap()[0].name, "café.jpg");
}

#[test]
fn image_names_are_told_by_their_ends() {
    assert!(is_image_name("a/B.JPG"));
    assert!(is_image_name("x.webp"));
    assert!(!is_image_name("x.jpg.txt"));
}

#[test]
fn a_file_that_claims_to_be_enormous_is_left_alone() {
    assert!(!too_large(MAX_FILE_BYTES));
    assert!(too_large(MAX_FILE_BYTES + 1));
}
