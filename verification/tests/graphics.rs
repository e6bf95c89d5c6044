use tomesole::graphics::{
    base64, detect, half_blocks, iterm_image, kitty_delete, kitty_image, kitty_png, Image, Protocol,
    Rgb,
};

fn env(pairs: &[(&str, &str)]) -> Vec<(String, String)> {
    pairs
        .iter()
        .map(|(k, v)| (k.to_string(), v.to_string()))
        .collect()
}

#[test]
fn kitty_terminals_are_recognised() {
    for pairs in [
        vec![("TERM", "xterm-kitty")],
        vec![("KITTY_WINDOW_ID", "1")],
        vec![("TERM_PROGRAM", "ghostty")],
        vec![("GHOSTTY_RESOURCES_DIR", "/x")],
        vec![("TERM_PROGRAM", "WezTerm")],
    ] {
        assert_eq!(detect(&env(&pairs)), Protocol::Kitty, "{pairs:?}");
    }
}

#[test]
fn iterm_is_recognised() {
    assert_eq!(
        detect(&env(&[("TERM_PROGRAM", "iTerm.app")])),
        Protocol::ITerm2
    );
    assert_eq!(
        detect(&env(&[("ITERM_SESSION_ID", "w0t0p0")])),
        Protocol::ITerm2
    );
}

#[test]
fn terminals_without_images_still_get_blocks() {
    assert_eq!(
        detect(&env(&[
            ("TERM_PROGRAM", "Apple_Terminal"),
            ("TERM", "xterm-256color")
        ])),
        Protocol::Blocks
    );
    assert_eq!(
        detect(&env(&[
            ("TERM_PROGRAM", "vscode"),
            ("COLORTERM", "truecolor")
        ])),
        Protocol::Blocks
    );
}

#[test]
fn a_terminal_that_cannot_do_anything_is_left_alone() {
    assert_eq!(detect(&env(&[("TERM", "dumb")])), Protocol::Nothing);
    assert_eq!(detect(&env(&[])), Protocol::Nothing);
    // Respecting NO_COLOR matters more than showing off.
    assert_eq!(
        detect(&env(&[("TERM", "xterm-kitty"), ("NO_COLOR", "1")])),
        Protocol::Nothing
    );
}

/// Names are compared whatever their case, in ASCII.
#[test]
fn a_terminal_is_known_whatever_the_case_of_its_name() {
    assert_eq!(
        detect(&env(&[("TERM_PROGRAM", "WEZTERM")])),
        Protocol::Kitty
    );
    assert_eq!(detect(&env(&[("TERM", "XTERM-KITTY")])), Protocol::Kitty);
}

fn solid(width: usize, height: usize, colour: Rgb) -> Image {
    let mut pixels = Vec::with_capacity(width * height * 3);
    for _ in 0..width * height {
        pixels.extend_from_slice(&[colour.0, colour.1, colour.2]);
    }
    Image::new(width, height, pixels)
}

#[test]
fn fitting_preserves_the_aspect_ratio() {
    let tall = solid(100, 200, (1, 2, 3));
    let fitted = tall.fit(50, 50);
    assert_eq!((fitted.width, fitted.height), (25, 50));
    assert_eq!(fitted.pixel(0, 0), (1, 2, 3));

    let wide = solid(200, 100, (0, 0, 0));
    let fitted = wide.fit(50, 50);
    assert_eq!((fitted.width, fitted.height), (50, 25));
}

#[test]
fn fitting_a_degenerate_image_does_not_panic() {
    assert!(Image::default().fit(10, 10).is_empty());
    assert!(solid(4, 4, (0, 0, 0)).fit(0, 10).is_empty());
    // One pixel is still a picture, and it is not stretched into sixteen.
    assert_eq!(solid(1, 1, (9, 9, 9)).fit(10, 10).width, 1);
}

#[test]
fn fitting_never_enlarges() {
    let small = solid(10, 10, (5, 5, 5));
    let fitted = small.fit(100, 100);
    assert_eq!((fitted.width, fitted.height), (10, 10));
}

#[test]
fn half_blocks_fill_the_space_they_are_given() {
    let image = solid(80, 160, (10, 20, 30));
    let cells = half_blocks(&image, 20, 20);
    assert_eq!(cells.len(), 20, "20 rows of cells is 40 pixel rows");
    assert_eq!(cells[0].len(), 20);
    assert_eq!(cells[0][0], ((10, 20, 30), (10, 20, 30)));
}

#[test]
fn an_odd_number_of_pixel_rows_does_not_run_off_the_end() {
    // 3 pixels tall: the last cell has no lower half to read.
    let image = solid(3, 3, (7, 7, 7));
    let cells = half_blocks(&image, 3, 8);
    assert_eq!(cells.len(), 2);
    assert_eq!(cells[1][0], ((7, 7, 7), (7, 7, 7)));
}

#[test]
fn base64_matches_the_standard() {
    assert_eq!(base64(b""), "");
    assert_eq!(base64(b"f"), "Zg==");
    assert_eq!(base64(b"fo"), "Zm8=");
    assert_eq!(base64(b"foo"), "Zm9v");
    assert_eq!(base64(b"foobar"), "Zm9vYmFy");
    assert_eq!(base64(&[0xff, 0x00, 0xff]), "/wD/");
}

#[test]
fn a_kitty_escape_is_well_formed_and_chunked() {
    // Big enough to need several instalments.
    let image = solid(60, 60, (1, 2, 3));
    let escape = kitty_image(7, &image, 10, 5);

    assert!(
        escape.starts_with("\x1b_Ga=T,q=2,C=1,f=24,s=60,v=60,c=10,r=5,i=7,m=1;"),
        "got: {:?}",
        &escape[..60.min(escape.len())]
    );
    assert!(escape.ends_with("\x1b\\"));
    let chunks = escape.matches("\x1b_G").count();
    assert!(chunks > 1, "a 10 KB image should be chunked, got {chunks}");
    // Exactly one chunk announces itself as the last.
    assert_eq!(escape.matches("m=0;").count(), 1);
}

#[test]
fn a_single_chunk_image_says_so_immediately() {
    let escape = kitty_image(1, &solid(2, 2, (0, 0, 0)), 1, 1);
    assert_eq!(escape.matches("\x1b_G").count(), 1);
    assert!(escape.contains("m=0;"));
}

#[test]
fn empty_images_produce_no_escape_at_all() {
    assert!(kitty_image(1, &Image::default(), 4, 4).is_empty());
    assert!(kitty_png(1, &[], 4, 4).is_empty());
    assert!(iterm_image(&[], 4, 4).is_empty());
}

#[test]
fn the_delete_escape_frees_the_image() {
    assert_eq!(kitty_delete(3), "\x1b_Ga=d,d=I,i=3,q=2\x1b\\");
}

#[test]
fn an_iterm_escape_carries_the_file_verbatim() {
    let escape = iterm_image(b"\xff\xd8\xffnot really a jpeg", 8, 4);
    assert!(
        escape.starts_with("\x1b]1337;File=inline=1;size=20;width=8;height=4;"),
        "got: {escape:?}"
    );
    assert!(escape.ends_with('\x07'));
    assert!(escape.contains(&base64(b"\xff\xd8\xffnot really a jpeg")));
}

/// Scaling in double precision, as a plain calculation has it.
fn plain_fit(w: usize, h: usize, mw: usize, mh: usize) -> (usize, usize) {
    let scale = (mw as f64 / w as f64).min(mh as f64 / h as f64).min(1.0);
    (
        ((w as f64 * scale).round() as usize).clamp(1, mw),
        ((h as f64 * scale).round() as usize).clamp(1, mh),
    )
}

#[test]
fn fitting_agrees_with_double_precision() {
    for w in (1..60).step_by(7) {
        for h in (1..60).step_by(5) {
            let image = solid(w, h, (1, 1, 1));
            for mw in (1..40).step_by(3) {
                for mh in (1..40).step_by(11) {
                    let fitted = image.fit(mw, mh);
                    assert_eq!(
                        (fitted.width, fitted.height),
                        plain_fit(w, h, mw, mh),
                        "{w}x{h} into {mw}x{mh}"
                    );
                }
            }
        }
    }
}

#[test]
fn a_png_is_sent_as_it_is() {
    let escape = kitty_png(9, b"\x89PNG", 3, 2);
    assert!(escape.starts_with("\x1b_Ga=T,q=2,C=1,f=100,c=3,r=2,i=9,m=0;"));
    assert!(escape.contains("iVBORw=="));
}

/// What the bytes do not reach is black, and a place outside takes the edge.
#[test]
fn a_ragged_picture_is_black_where_it_ends() {
    let image = Image {
        width: 2,
        height: 2,
        pixels: vec![1, 2, 3, 4, 5, 6, 7],
    };
    assert_eq!(image.pixel(0, 0), (1, 2, 3));
    assert_eq!(image.pixel(9, 0), (4, 5, 6));
    assert_eq!(image.pixel(0, 1), (0, 0, 0));
    assert_eq!(Image::default().pixel(3, 3), (0, 0, 0));
    assert_eq!(
        image.fit(9, 9).pixels,
        [1, 2, 3, 4, 5, 6, 0, 0, 0, 0, 0, 0]
    );
}

#[test]
fn a_picture_that_fits_is_left_as_it_is() {
    let pixels: Vec<u8> = (0..7 * 5 * 3).map(|i| (i * 37 % 251) as u8).collect();
    let picture = Image::new(7, 5, pixels.clone());
    for (w, h) in [(7usize, 5usize), (8, 5), (7, 50), (1000, 1000)] {
        let fitted = picture.fit(w, h);
        assert_eq!((fitted.width, fitted.height), (7, 5));
        assert_eq!(fitted.pixels, pixels);
    }
}

#[test]
fn fitting_twice_is_fitting_once() {
    let pixels: Vec<u8> = (0..13 * 29 * 3).map(|i| (i * 91 % 253) as u8).collect();
    let picture = Image::new(13, 29, pixels);
    for (w, h) in [(0usize, 4usize), (1, 1), (3, 40), (5, 11), (12, 29), (100, 7)] {
        let once = picture.fit(w, h);
        let twice = once.fit(w, h);
        assert_eq!((twice.width, twice.height), (once.width, once.height));
        assert_eq!(twice.pixels, once.pixels);
    }
}
