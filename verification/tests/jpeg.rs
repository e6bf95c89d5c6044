use tomesole::jpeg::{
    decode, extend, idct, is_jpeg, is_png, ycbcr_to_rgb, BitReader, HuffTable,
};

/// A 24×24 JPEG of four coloured quadrants: red, green, blue and white.
const COLOUR: &[u8] = &[
    0xFF, 0xD8, 0xFF, 0xE0, 0x00, 0x10, 0x4A, 0x46, 0x49, 0x46, 0x00, 0x01, 0x01, 0x00, 0x00, 0x01,
    0x00, 0x01, 0x00, 0x00, 0xFF, 0xDB, 0x00, 0x43, 0x00, 0x06, 0x06, 0x06, 0x06, 0x09, 0x09, 0x09,
    0x09, 0x0C, 0x0C, 0x0C, 0x0C, 0x0F, 0x0F, 0x0F, 0x0F, 0x12, 0x12, 0x12, 0x12, 0x15, 0x15, 0x15,
    0x15, 0x18, 0x18, 0x18, 0x18, 0x1B, 0x1B, 0x1B, 0x1B, 0x1E, 0x1E, 0x1E, 0x1E, 0x21, 0x21, 0x21,
    0x21, 0x24, 0x24, 0x24, 0x24, 0x27, 0x27, 0x27, 0x27, 0x2A, 0x2A, 0x2A, 0x2A, 0x2D, 0x2D, 0x2D,
    0x2D, 0x30, 0x30, 0x30, 0x30, 0x33, 0x33, 0x33, 0x33, 0xFF, 0xC0, 0x00, 0x11, 0x08, 0x00, 0x18,
    0x00, 0x18, 0x03, 0x01, 0x22, 0x00, 0x02, 0x11, 0x00, 0x03, 0x11, 0x00, 0xFF, 0xC4, 0x00, 0x1F,
    0x00, 0x00, 0x01, 0x05, 0x01, 0x01, 0x01, 0x01, 0x01, 0x01, 0x00, 0x00, 0x00, 0x00, 0x00, 0x00,
    0x00, 0x00, 0x01, 0x02, 0x03, 0x04, 0x05, 0x06, 0x07, 0x08, 0x09, 0x0A, 0x0B, 0xFF, 0xC4, 0x00,
    0x3C, 0x10, 0x00, 0x00, 0x00, 0x00, 0x00, 0x29, 0x00, 0x00, 0x00, 0x00, 0x00, 0x00, 0x00, 0x00,
    0x00, 0x00, 0x00, 0x01, 0x02, 0x03, 0x04, 0x05, 0x06, 0x07, 0x11, 0x12, 0x13, 0x14, 0x15, 0x17,
    0x21, 0x23, 0x31, 0x33, 0x35, 0x41, 0x42, 0x43, 0x45, 0x52, 0x53, 0x61, 0x62, 0x64, 0x81, 0x83,
    0x84, 0xA1, 0xA2, 0xA3, 0xB1, 0xB2, 0xC1, 0xC3, 0xD1, 0xE1, 0xE2, 0xFF, 0xDA, 0x00, 0x0C, 0x03,
    0x01, 0x00, 0x02, 0x00, 0x03, 0x00, 0x00, 0x3F, 0x00, 0xE1, 0x00, 0xD2, 0x15, 0xEA, 0xC7, 0x12,
    0x40, 0xE7, 0x0B, 0xF6, 0x87, 0xF3, 0x80, 0xF4, 0x91, 0xDE, 0x8C, 0xE1, 0x9E, 0x2F, 0xCF, 0xC5,
    0xB9, 0x44, 0xA2, 0xA2, 0x4E, 0x44, 0x9C, 0x9D, 0x98, 0x49, 0x02, 0x04, 0x00, 0xAC, 0x26, 0x8C,
    0x90, 0xD0, 0x08, 0xE1, 0x90, 0xB0, 0xF0, 0x70, 0x47, 0x25, 0x09, 0x09, 0x20, 0x44, 0x19, 0x38,
    0x6C, 0x1A, 0x10, 0x60, 0x81, 0x26, 0x0A, 0x03, 0xB9, 0x1B, 0x41, 0xA1, 0x14, 0xE2, 0xC4, 0x53,
    0x09, 0x82, 0x18, 0x8C, 0x1E, 0x2A, 0x87, 0x43, 0x85, 0x22, 0x50, 0x92, 0x50, 0xB0, 0x92, 0x24,
    0xA1, 0xC0, 0x90, 0xA0, 0x67, 0x42, 0x81, 0x02, 0x04, 0x80, 0x10, 0x34, 0xE0, 0x65, 0x00, 0x01,
    0xEB, 0xC6, 0xAB, 0x6F, 0xE1, 0x34, 0x60, 0x06, 0xAB, 0x6F, 0xE1, 0x34, 0x60, 0x60, 0x18, 0xE1,
    0x31, 0x71, 0xF8, 0x29, 0xA0, 0x78, 0x31, 0x83, 0x16, 0x8C, 0x28, 0x20, 0x99, 0xA0, 0x7C, 0xBA,
    0x07, 0xBF, 0x8E, 0x2D, 0x6D, 0xBC, 0x92, 0xD0, 0x3C, 0x00, 0x0F, 0x7F, 0x1C, 0x5A, 0xDB, 0x79,
    0x25, 0xA0, 0x7D, 0x12, 0x35, 0x29, 0x2C, 0x4A, 0x75, 0xC7, 0x84, 0x81, 0xD6, 0x08, 0xC8, 0xC0,
    0x97, 0x31, 0x00, 0xFA, 0x00, 0x00, 0x00, 0x00, 0x0F, 0x1E, 0x03, 0x50, 0x0F, 0xFF, 0xD9,
];

/// The same picture in greyscale, so the one-channel path is covered.
const GREY: &[u8] = &[
    0xFF, 0xD8, 0xFF, 0xE0, 0x00, 0x10, 0x4A, 0x46, 0x49, 0x46, 0x00, 0x01, 0x01, 0x00, 0x00, 0x01,
    0x00, 0x01, 0x00, 0x00, 0xFF, 0xDB, 0x00, 0x43, 0x00, 0x06, 0x06, 0x06, 0x06, 0x09, 0x09, 0x09,
    0x09, 0x0C, 0x0C, 0x0C, 0x0C, 0x0F, 0x0F, 0x0F, 0x0F, 0x12, 0x12, 0x12, 0x12, 0x15, 0x15, 0x15,
    0x15, 0x18, 0x18, 0x18, 0x18, 0x1B, 0x1B, 0x1B, 0x1B, 0x1E, 0x1E, 0x1E, 0x1E, 0x21, 0x21, 0x21,
    0x21, 0x24, 0x24, 0x24, 0x24, 0x27, 0x27, 0x27, 0x27, 0x2A, 0x2A, 0x2A, 0x2A, 0x2D, 0x2D, 0x2D,
    0x2D, 0x30, 0x30, 0x30, 0x30, 0x33, 0x33, 0x33, 0x33, 0xFF, 0xC0, 0x00, 0x0B, 0x08, 0x00, 0x18,
    0x00, 0x18, 0x01, 0x01, 0x11, 0x00, 0xFF, 0xC4, 0x00, 0x1F, 0x00, 0x00, 0x01, 0x05, 0x01, 0x01,
    0x01, 0x01, 0x01, 0x01, 0x00, 0x00, 0x00, 0x00, 0x00, 0x00, 0x00, 0x00, 0x01, 0x02, 0x03, 0x04,
    0x05, 0x06, 0x07, 0x08, 0x09, 0x0A, 0x0B, 0xFF, 0xC4, 0x00, 0x2D, 0x10, 0x00, 0x00, 0x00, 0x00,
    0x1A, 0x00, 0x00, 0x00, 0x00, 0x00, 0x00, 0x00, 0x00, 0x00, 0x00, 0x00, 0x00, 0x02, 0x05, 0x06,
    0x07, 0x11, 0x12, 0x13, 0x14, 0x15, 0x17, 0x23, 0x42, 0x43, 0x45, 0x61, 0x62, 0x64, 0x81, 0x84,
    0xA1, 0xA3, 0xC1, 0xC3, 0xE1, 0xE2, 0xFF, 0xDA, 0x00, 0x08, 0x01, 0x01, 0x00, 0x00, 0x3F, 0x00,
    0xE1, 0x01, 0xA4, 0x27, 0xB6, 0x49, 0x68, 0x34, 0x41, 0xC5, 0xA3, 0xE0, 0x53, 0x80, 0x3D, 0x24,
    0x8F, 0x46, 0xE2, 0x7C, 0x8F, 0x5E, 0x43, 0x9C, 0x9C, 0xB1, 0x36, 0x59, 0xB3, 0x6F, 0x85, 0x28,
    0xA2, 0x81, 0xE9, 0x2A, 0x57, 0x1F, 0xA9, 0xCE, 0x0F, 0x97, 0x41, 0xEF, 0xE4, 0x16, 0xED, 0xCD,
    0x2F, 0x41, 0xF4, 0x00, 0x3F, 0xFF, 0xD9,
];

#[test]
fn signatures_are_recognised() {
    assert!(is_jpeg(COLOUR));
    assert!(!is_png(COLOUR));
    assert!(is_png(b"\x89PNG\r\n\x1a\n and so on"));
    assert!(!is_jpeg(b"GIF89a"));
    assert!(!is_jpeg(b""));
}

#[test]
fn a_real_jpeg_decodes_to_the_right_shape() {
    let image = decode(COLOUR).expect("the fixture should decode");
    assert_eq!((image.width, image.height), (24, 24));
    assert_eq!(image.pixels.len(), 24 * 24 * 3);
}

/// The fixture is red, green, blue and white quadrants. Exact values move around
/// with the quantisation tables, so each corner is checked for the channel that
/// should dominate rather than for a literal colour.
#[test]
fn colours_land_in_the_right_quadrants() {
    let image = decode(COLOUR).unwrap();
    let (r, g, b) = image.pixel(5, 5);
    assert!(
        r > 180 && g < 90 && b < 90,
        "top left should be red: {r},{g},{b}"
    );

    let (r, g, b) = image.pixel(18, 5);
    assert!(
        g > 130 && r < 110 && b < 110,
        "top right should be green: {r},{g},{b}"
    );

    let (r, g, b) = image.pixel(5, 18);
    assert!(
        b > 180 && r < 90 && g < 110,
        "bottom left should be blue: {r},{g},{b}"
    );

    let (r, g, b) = image.pixel(18, 18);
    assert!(
        r > 200 && g > 200 && b > 200,
        "bottom right should be white: {r},{g},{b}"
    );
}

#[test]
fn a_greyscale_jpeg_decodes_to_neutral_pixels() {
    let image = decode(GREY).expect("the greyscale fixture should decode");
    assert_eq!((image.width, image.height), (24, 24));
    let (r, g, b) = image.pixel(5, 5);
    assert_eq!(
        (r, g),
        (g, b),
        "one channel must expand to grey: {r},{g},{b}"
    );
}

#[test]
fn rubbish_is_refused_rather_than_guessed_at() {
    assert!(decode(b"").is_err());
    assert!(decode(b"not a jpeg at all").is_err());
    // A valid signature and nothing else.
    assert!(decode(&[0xFF, 0xD8, 0xFF]).is_err());
}

/// The decoder is fed by an untrusted mirror, so truncation at every offset has
/// to end in an error or a picture — never a panic.
#[test]
fn truncation_at_any_point_is_survivable() {
    for cut in 0..COLOUR.len() {
        let _ = decode(&COLOUR[..cut]);
    }
}

/// Likewise for corruption: flip bytes throughout and require the same.
#[test]
fn corrupt_bytes_do_not_panic() {
    for i in (0..COLOUR.len()).step_by(3) {
        let mut broken = COLOUR.to_vec();
        broken[i] ^= 0xFF;
        let _ = decode(&broken);
    }
}

#[test]
fn a_progressive_file_is_refused_by_name() {
    // Rewrite the SOF0 marker as SOF2 to make the fixture progressive.
    let mut progressive = COLOUR.to_vec();
    let sof = progressive
        .windows(2)
        .position(|w| w == [0xFF, 0xC0])
        .expect("the fixture is baseline");
    progressive[sof + 1] = 0xC2;

    let err = decode(&progressive).unwrap_err().message().to_string();
    assert!(err.contains("progressive"), "got: {err}");
}

#[test]
fn absurd_dimensions_are_refused_before_allocating() {
    let mut huge = COLOUR.to_vec();
    let sof = huge
        .windows(2)
        .position(|w| w == [0xFF, 0xC0])
        .expect("the fixture is baseline");
    // Height and width live at offsets 5 and 7 past the marker.
    huge[sof + 5] = 0xFF;
    huge[sof + 6] = 0xFF;
    huge[sof + 7] = 0xFF;
    huge[sof + 8] = 0xFF;
    assert!(decode(&huge).is_err());
}

#[test]
fn extend_recovers_signed_coefficients() {
    // The standard's own example: two bits, value 0 means -3.
    assert_eq!(extend(0, 2), -3);
    assert_eq!(extend(1, 2), -2);
    assert_eq!(extend(2, 2), 2);
    assert_eq!(extend(3, 2), 3);
    assert_eq!(extend(0, 0), 0);
}

#[test]
fn a_flat_block_transforms_to_a_flat_field() {
    // Only the DC coefficient set: every output sample is the same.
    let mut block = [0i32; 64];
    block[0] = 8 * 16; // DC 16 after the 1/8 normalisation
    let mut out = [0u8; 64];
    idct(&block, &mut out);
    assert!(
        out.iter().all(|v| *v == out[0]),
        "a DC-only block is uniform, got {out:?}"
    );
    assert!(out[0] > 128, "a positive DC raises the level: {}", out[0]);
}

#[test]
fn the_bit_reader_unstuffs_ff_bytes() {
    // 0xFF 0x00 encodes a literal 0xFF byte of coded data.
    let mut reader = BitReader::new(&[0xFF, 0x00, 0x0F]);
    let bits: Vec<u32> = (0..8).map(|_| reader.bit()).collect();
    assert_eq!(bits, [1, 1, 1, 1, 1, 1, 1, 1]);
    let next: Vec<u32> = (0..4).map(|_| reader.bit()).collect();
    assert_eq!(next, [0, 0, 0, 0]);
}

#[test]
fn the_bit_reader_stops_at_a_marker() {
    let mut reader = BitReader::new(&[0xFF, 0xD9]);
    assert_eq!(reader.bit(), 0);
    assert!(reader.finished, "an end-of-image marker ends the stream");
}

#[test]
fn running_off_the_end_yields_zeroes_not_a_panic() {
    let mut reader = BitReader::new(&[]);
    for _ in 0..100 {
        assert_eq!(reader.bit(), 0);
    }
    assert!(reader.finished);
}

/// The transform in single precision, one rounding to each operation.
fn floating_idct(block: &[i32; 64]) -> [u8; 64] {
    let mut cos = [[0f32; 8]; 8];
    for (u, row) in cos.iter_mut().enumerate() {
        let scale = if u == 0 { (0.5f32).sqrt() } else { 1.0 };
        for (x, cell) in row.iter_mut().enumerate() {
            *cell = scale * ((2.0 * x as f32 + 1.0) * u as f32 * std::f32::consts::PI / 16.0).cos();
        }
    }
    let mut rows = [0f32; 64];
    for y in 0..8 {
        for x in 0..8 {
            let mut sum = 0f32;
            for u in 0..8 {
                let coefficient = block[y * 8 + u];
                if coefficient != 0 {
                    sum += coefficient as f32 * cos[u][x];
                }
            }
            rows[y * 8 + x] = sum * 0.5;
        }
    }
    let mut out = [0u8; 64];
    for x in 0..8 {
        for y in 0..8 {
            let mut sum = 0f32;
            for v in 0..8 {
                sum += rows[v * 8 + x] * cos[v][y];
            }
            out[y * 8 + x] = (sum * 0.5 + 128.5).clamp(0.0, 255.0) as u8;
        }
    }
    out
}

#[test]
fn the_transform_agrees_with_single_precision() {
    let mut seed: u32 = 12345;
    for round in 0..300 {
        let mut block = [0i32; 64];
        for cell in block.iter_mut() {
            seed = seed.wrapping_mul(1664525).wrapping_add(1013904223);
            if seed >> 28 < 5 {
                *cell = ((seed >> 8) % 2047) as i32 - 1023;
                if round % 3 == 0 {
                    *cell *= 97;
                }
            }
        }
        let mut out = [0u8; 64];
        idct(&block, &mut out);
        assert_eq!(out, floating_idct(&block), "block {block:?}");
    }
}

#[test]
fn colours_agree_with_single_precision() {
    for y in (0..=255u8).step_by(5) {
        for cb in 0..=255u8 {
            for cr in (0..=255u8).step_by(3) {
                let l = y as f32;
                let b = cb as f32 - 128.0;
                let r = cr as f32 - 128.0;
                let clamp = |v: f32| v.clamp(0.0, 255.0) as u8;
                let want = (
                    clamp(l + 1.402 * r),
                    clamp(l - 0.344_136 * b - 0.714_136 * r),
                    clamp(l + 1.772 * b),
                );
                assert_eq!(ycbcr_to_rgb(y, cb, cr), want, "{y} {cb} {cr}");
            }
        }
    }
}

#[test]
fn bits_are_received_most_significant_first() {
    let mut reader = BitReader::new(&[0b1011_0010, 0b1000_0000]);
    assert_eq!(reader.receive(3), 0b101);
    assert_eq!(reader.receive(6), 0b100101);
    assert_eq!(reader.receive(0), 0);
}

/// The codes 0, 100, 101, 110 and 1110, for five values.
fn five_codes() -> HuffTable {
    let mut counts = vec![0u8; 16];
    counts[0] = 1;
    counts[2] = 3;
    counts[3] = 1;
    HuffTable::build(counts, vec![10, 20, 30, 40, 50])
}

#[test]
fn every_code_of_a_table_is_read_and_no_more() {
    let table = five_codes();
    let codes: [(u32, usize, u8); 5] =
        [(0b0, 1, 10), (0b100, 3, 20), (0b101, 3, 30), (0b110, 3, 40), (0b1110, 4, 50)];
    for (code, length, value) in codes {
        // The code, and ones behind it that have to be left.
        let bits = (code << (8 - length)) | ((1 << (8 - length)) - 1);
        let data = [bits as u8];
        let mut reader = BitReader::new(&data);
        assert_eq!(reader.huffman(&table).unwrap(), value);
        assert_eq!(reader.remaining as usize, 8 - length);
    }
    // One after the other: 0, 110, 1110 and the zeroes a stream ends in.
    let data = [0b0110_1110];
    let mut reader = BitReader::new(&data);
    assert_eq!(reader.huffman(&table).unwrap(), 10);
    assert_eq!(reader.huffman(&table).unwrap(), 40);
    assert_eq!(reader.huffman(&table).unwrap(), 50);
    assert_eq!(reader.huffman(&table).unwrap(), 10);
}

#[test]
fn bits_that_are_no_code_are_refused() {
    let data = [0b1111_1110, 0b1111_1110, 0b1111_1110];
    let mut reader = BitReader::new(&data);
    assert!(reader.huffman(&five_codes()).is_err());
}
