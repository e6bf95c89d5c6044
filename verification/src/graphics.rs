//! Getting pixels onto a terminal.
//!
//! Three ways, in descending order of how good they look:
//!
//! * **The kitty graphics protocol**: kitty, Ghostty and WezTerm. Real pixels,
//!   placed at the cursor and left to the terminal to scale.
//! * **The iTerm2 inline image protocol**: iTerm2, and WezTerm again. Also real
//!   pixels, and it takes the encoded file as-is, so a JPEG never has to be
//!   decoded at all.
//! * **Half-block characters**: anywhere else with colour. Each cell is a `▀`
//!   with one colour on top and another behind, so a character cell carries two
//!   pixels.
//!
//! Detection is by environment variable, because the alternative, writing a
//! query escape to the terminal and waiting for an answer, races with the
//! keyboard reader for the reply.

use vstd::prelude::*;
use vstd::string::*;

use crate::double;
use crate::term;
use crate::text;
use crate::text::{contains, cut_out, dec, same, string_of, to_ascii_lower, chars_of};

verus! {

pub type Rgb = (u8, u8, u8);

/// One character cell: the colour of its upper half and of its lower half.
pub type Cell = (Rgb, Rgb);

/// The half-block glyph the cells are meant to be drawn with.
pub const UPPER_HALF: char = '▀';

// ---------------------------------------------------------------------------
// What the terminal can do
// ---------------------------------------------------------------------------

/// How this terminal can be made to show an image.
#[derive(Debug, Clone, Copy, PartialEq, Eq, Structural)]
pub enum Protocol {
    Kitty,
    ITerm2,
    /// No image protocol, but enough colour for half-block art.
    Blocks,
    /// Nothing worth drawing.
    Nothing,
}

impl Protocol {
    pub open spec fn draws_pixels(self) -> bool {
        self == Protocol::Kitty || self == Protocol::ITerm2
    }

    /// True when the terminal draws actual pixels rather than characters.
    pub fn is_pixels(self) -> (r: bool)
        ensures
            r == self.draws_pixels(),
    {
        self == Protocol::Kitty || self == Protocol::ITerm2
    }
}

/// The value of an environment variable: the first one listed under its name,
/// and empty where none is.
pub open spec fn var_from(vars: Seq<(String, String)>, name: Seq<char>, i: int) -> Seq<char>
    decreases vars.len() - i,
{
    if i >= vars.len() {
        seq![]
    } else if vars[i].0@ == name {
        vars[i].1@
    } else {
        var_from(vars, name, i + 1)
    }
}

pub open spec fn var(vars: Seq<(String, String)>, name: Seq<char>) -> Seq<char> {
    var_from(vars, name, 0)
}

pub open spec fn var_lower(vars: Seq<(String, String)>, name: Seq<char>) -> Seq<char> {
    text::ascii_lower(var(vars, name))
}

pub open spec fn is_set(vars: Seq<(String, String)>, name: Seq<char>) -> bool {
    var(vars, name).len() > 0
}

fn get_var(vars: &Vec<(String, String)>, name: &str) -> (r: String)
    ensures
        r@ == var(vars@, name@),
{
    let mut i: usize = 0;
    while i < vars.len()
        invariant
            i <= vars@.len(),
            var_from(vars@, name@, 0) == var_from(vars@, name@, i as int),
        decreases vars@.len() - i,
    {
        if same(&vars[i].0, name) {
            return vars[i].1.clone();
        }
        i += 1;
    }
    String::new()
}

fn get_lower(vars: &Vec<(String, String)>, name: &str) -> (r: String)
    ensures
        r@ == var_lower(vars@, name@),
{
    to_ascii_lower(&get_var(vars, name))
}

fn set(vars: &Vec<(String, String)>, name: &str) -> (r: bool)
    ensures
        r == is_set(vars@, name@),
{
    !get_var(vars, name).as_str().is_empty()
}

/// What a terminal with these environment variables supports.
pub open spec fn supported(vars: Seq<(String, String)>) -> Protocol {
    let term = var_lower(vars, "TERM"@);
    let program = var_lower(vars, "TERM_PROGRAM"@);
    let colorterm = var_lower(vars, "COLORTERM"@);
    if term == "dumb"@ || is_set(vars, "NO_COLOR"@) {
        Protocol::Nothing
    } else if text::has(term, "kitty"@) || is_set(vars, "KITTY_WINDOW_ID"@) || is_set(
        vars,
        "GHOSTTY_RESOURCES_DIR"@,
    ) || program == "ghostty"@ || program == "wezterm"@ {
        Protocol::Kitty
    } else if program == "iterm.app"@ || program == "iterm2"@ {
        Protocol::ITerm2
    } else if is_set(vars, "WEZTERM_PANE"@) {
        Protocol::Kitty
    } else if is_set(vars, "ITERM_SESSION_ID"@) {
        Protocol::ITerm2
    } else if text::has(colorterm, "truecolor"@) || text::has(colorterm, "24bit"@) || text::has(
        term,
        "256color"@,
    ) || text::has(term, "color"@) {
        Protocol::Blocks
    } else {
        Protocol::Nothing
    }
}

/// What this terminal supports, from its environment variables.
pub fn detect(vars: &Vec<(String, String)>) -> (r: Protocol)
    ensures
        r == supported(vars@),
{
    let term = get_lower(vars, "TERM");
    if same(&term, "dumb") || set(vars, "NO_COLOR") {
        return Protocol::Nothing;
    }
    // Kitty's own terminal, and the two that reimplemented its protocol.
    if contains(&term, "kitty") || set(vars, "KITTY_WINDOW_ID") || set(
        vars,
        "GHOSTTY_RESOURCES_DIR",
    ) {
        return Protocol::Kitty;
    }
    let program = get_lower(vars, "TERM_PROGRAM");
    // WezTerm speaks both; kitty's protocol scales images for us.
    if same(&program, "ghostty") || same(&program, "wezterm") {
        return Protocol::Kitty;
    }
    if same(&program, "iterm.app") || same(&program, "iterm2") {
        return Protocol::ITerm2;
    }
    if set(vars, "WEZTERM_PANE") {
        return Protocol::Kitty;
    }
    if set(vars, "ITERM_SESSION_ID") {
        return Protocol::ITerm2;
    }
    // No pixels, but colour is enough to be worth drawing something.
    let colorterm = get_lower(vars, "COLORTERM");
    if contains(&colorterm, "truecolor") || contains(&colorterm, "24bit") || contains(
        &term,
        "256color",
    ) || contains(&term, "color") {
        return Protocol::Blocks;
    }
    Protocol::Nothing
}

// ---------------------------------------------------------------------------
// Pictures
// ---------------------------------------------------------------------------

/// An 8-bit RGB image.
#[derive(Debug, PartialEq, Eq)]
pub struct Image {
    pub width: usize,
    pub height: usize,
    /// `width * height * 3` bytes, row-major.
    pub pixels: Vec<u8>,
}

/// A picture, by value.
pub struct ImageView {
    pub width: int,
    pub height: int,
    pub pixels: Seq<u8>,
}

impl ImageView {
    pub open spec fn wf(self) -> bool {
        self.pixels.len() == self.width * self.height * 3
    }

    pub open spec fn blank(self) -> bool {
        self.width == 0 || self.height == 0
    }

    /// The colour at a position. A position outside takes the nearest edge, and
    /// what the bytes do not reach is black.
    pub open spec fn at(self, x: int, y: int) -> Rgb {
        let i = offset_of(self.width, nearest(x, self.width), nearest(y, self.height));
        if i + 3 <= self.pixels.len() {
            (self.pixels[i], self.pixels[i + 1], self.pixels[i + 2])
        } else {
            (0u8, 0u8, 0u8)
        }
    }
}

/// The place among `n` that is nearest to another.
pub open spec fn nearest(i: int, n: int) -> int {
    if i < n {
        i
    } else if n > 0 {
        n - 1
    } else {
        0
    }
}

impl View for Image {
    type V = ImageView;

    open spec fn view(&self) -> ImageView {
        ImageView {
            width: self.width as int,
            height: self.height as int,
            pixels: self.pixels@,
        }
    }
}

/// A picture that may be there, by value.
pub open spec fn image_view(i: Option<Image>) -> Option<ImageView> {
    match i {
        Some(i) => Some(i@),
        None => None,
    }
}

/// Where a pixel's three bytes begin.
pub open spec fn offset_of(width: int, x: int, y: int) -> int {
    (y * width + x) * 3
}

impl Clone for Image {
    fn clone(&self) -> (r: Self)
        ensures
            r.width == self.width,
            r.height == self.height,
            r.pixels@ == self.pixels@,
    {
        let pixels = self.pixels.clone();
        assert(pixels@ =~= self.pixels@);
        Image { width: self.width, height: self.height, pixels }
    }
}

impl Default for Image {
    /// A picture of nothing.
    fn default() -> (r: Self)
        ensures
            r.wf(),
            r.width == 0,
            r.height == 0,
            r.pixels@ == Seq::<u8>::empty(),
            r.blank(),
    {
        let r = Image { width: 0, height: 0, pixels: Vec::new() };
        assert(r.width * r.height * 3 == 0) by (nonlinear_arith)
            requires
                r.width == 0,
        ;
        r
    }
}

impl Image {
    /// There are three bytes to every pixel.
    pub open spec fn wf(self) -> bool {
        self@.wf()
    }

    pub open spec fn blank(self) -> bool {
        self@.blank()
    }

    /// The colour at a position.
    pub open spec fn at(self, x: int, y: int) -> Rgb {
        self@.at(x, y)
    }

    pub fn new(width: usize, height: usize, pixels: Vec<u8>) -> (r: Self)
        requires
            pixels@.len() == width * height * 3,
        ensures
            r.wf(),
            r.width == width,
            r.height == height,
            r.pixels@ == pixels@,
    {
        Image { width, height, pixels }
    }

    pub fn is_empty(&self) -> (r: bool)
        ensures
            r == self.blank(),
    {
        self.width == 0 || self.height == 0
    }

    pub fn pixel(&self, x: usize, y: usize) -> (r: Rgb)
        ensures
            r == self.at(x as int, y as int),
    {
        let cx = hold(x, self.width);
        let cy = hold(y, self.height);
        let n: usize = self.pixels.len();
        assert(0 <= cy * self.width <= 0xffff_ffff_ffff_ffff * 0xffff_ffff_ffff_ffff)
            by (nonlinear_arith)
            requires
                0 <= cy <= 0xffff_ffff_ffff_ffff,
                0 <= self.width <= 0xffff_ffff_ffff_ffff,
        ;
        let k: u128 = cy as u128 * self.width as u128 + cx as u128;
        if k >= (n / 3) as u128 {
            return (0, 0, 0);
        }
        let i: usize = k as usize * 3;
        (self.pixels[i], self.pixels[i + 1], self.pixels[i + 2])
    }

    /// Scale to fit inside a box, keeping the aspect ratio and never enlarging.
    /// Each pixel of the result is the one that lies at the same proportion of
    /// this picture.
    pub fn fit(&self, max_width: usize, max_height: usize) -> (r: Image)
        ensures
            r.wf(),
            r@ == fitted_image(self@, max_width as nat, max_height as nat),
            self.blank() || max_width == 0 || max_height == 0 ==> r.width == 0 && r.height == 0,
            !(self.blank() || max_width == 0 || max_height == 0) ==> {
                let (w, h) = fitted(
                    self.width as nat,
                    self.height as nat,
                    max_width as nat,
                    max_height as nat,
                );
                &&& r.width == w
                &&& r.height == h
                &&& 1 <= w <= max_width
                &&& 1 <= h <= max_height
                &&& forall|x: int, y: int|
                    0 <= x < w && 0 <= y < h ==> #[trigger] r.at(x, y) == sampled(
                        self@,
                        w as int,
                        h as int,
                        x,
                        y,
                    )
            },
    {
        if self.is_empty() || max_width == 0 || max_height == 0 {
            let none = Image::default();
            assert(none.pixels@ =~= seq![]);
            return none;
        }
        let scale = scale_of(self.width, self.height, max_width, max_height);
        let width = scaled(self.width, scale, max_width);
        let height = scaled(self.height, scale, max_height);
        let mut pixels: Vec<u8> = Vec::new();
        let mut y: usize = 0;
        assert(0 * width * 3 == 0) by (nonlinear_arith);
        while y < height
            invariant
                y <= height,
                1 <= width,
                1 <= height,
                !self.blank(),
                pixels@.len() == y * width * 3,
                forall|i: int, j: int|
                    #![trigger offset_of(width as int, i, j)]
                    0 <= i < width && 0 <= j < y ==> {
                        let o = offset_of(width as int, i, j);
                        (pixels@[o], pixels@[o + 1], pixels@[o + 2]) == sampled(
                            self@,
                            width as int,
                            height as int,
                            i,
                            j,
                        )
                    },
            decreases height - y,
        {
            let sy = proportion(y, self.height, height);
            let mut x: usize = 0;
            assert((y * width + 0) * 3 == y * width * 3) by (nonlinear_arith);
            while x < width
                invariant
                    x <= width,
                    y < height,
                    1 <= width,
                    1 <= height,
                    !self.blank(),
                    sy == y * self.height / (height as int),
                    pixels@.len() == (y * width + x) * 3,
                    forall|i: int, j: int|
                        #![trigger offset_of(width as int, i, j)]
                        0 <= i < width && 0 <= j && (j < y || (j == y && i < x)) ==> {
                            let o = offset_of(width as int, i, j);
                            (pixels@[o], pixels@[o + 1], pixels@[o + 2]) == sampled(
                                self@,
                                width as int,
                                height as int,
                                i,
                                j,
                            )
                        },
                decreases width - x,
            {
                let sx = proportion(x, self.width, width);
                let (r, g, b) = self.pixel(sx, sy);
                let ghost before = pixels@;
                pixels.push(r);
                pixels.push(g);
                pixels.push(b);
                proof {
                    assert(pixels@.len() == (y * width + (x + 1)) * 3) by (nonlinear_arith)
                        requires
                            pixels@.len() == (y * width + x) * 3 + 3,
                    ;
                    assert forall|i: int, j: int|
                        #![trigger offset_of(width as int, i, j)]
                        0 <= i < width && 0 <= j && (j < y || (j == y && i < x + 1)) implies {
                        let o = offset_of(width as int, i, j);
                        (pixels@[o], pixels@[o + 1], pixels@[o + 2]) == sampled(
                            self@,
                            width as int,
                            height as int,
                            i,
                            j,
                        )
                    } by {
                        let o = offset_of(width as int, i, j);
                        if j == y && i == x {
                            assert(o == before.len());
                        } else {
                            lemma_offset_before(width as int, i, j, x as int, y as int);
                            assert(0 <= o && o + 2 < before.len());
                            assert(pixels@[o] == before[o]);
                            assert(pixels@[o + 1] == before[o + 1]);
                            assert(pixels@[o + 2] == before[o + 2]);
                        }
                    }
                }
                x += 1;
            }
            assert(pixels@.len() == (y + 1) * width * 3) by (nonlinear_arith)
                requires
                    pixels@.len() == (y * width + x) * 3,
                    x == width,
            ;
            y += 1;
        }
        assert(pixels@.len() == width * height * 3) by (nonlinear_arith)
            requires
                pixels@.len() == y * width * 3,
                y == height,
        ;
        let r = Image::new(width, height, pixels);
        proof {
            assert forall|i: int, j: int| 0 <= i < width && 0 <= j < height implies #[trigger] r.at(
                i,
                j,
            ) == sampled(self@, width as int, height as int, i, j) by {
                let o = offset_of(width as int, i, j);
                lemma_offset(width as int, height as int, i, j);
            }
            let f = |x: int, y: int| sampled(self@, width as int, height as int, x, y);
            assert forall|i: int, j: int|
                0 <= i < r@.width && 0 <= j < r@.height implies #[trigger] r@.at(i, j) == f(
                i,
                j,
            ) by {
                assert(r.at(i, j) == f(i, j));
            }
            lemma_pixel_bytes(r@, f);
            assert(fitted_image(self@, max_width as nat, max_height as nat).pixels =~= pixel_bytes(
                width as int,
                height as int,
                f,
            ));
        }
        r
    }
}

fn hold(i: usize, n: usize) -> (r: usize)
    ensures
        r == nearest(i as int, n as int),
{
    if i < n {
        i
    } else if n > 0 {
        n - 1
    } else {
        0
    }
}

pub proof fn lemma_offset(width: int, height: int, x: int, y: int)
    requires
        0 <= x < width,
        0 <= y < height,
    ensures
        0 <= y * width,
        y * width + x >= 0,
        0 <= offset_of(width, x, y),
        offset_of(width, x, y) + 3 <= width * height * 3,
{
    assert(y * width + x < width * height) by (nonlinear_arith)
        requires
            0 <= x < width,
            0 <= y < height,
    ;
    assert(0 <= y * width) by (nonlinear_arith)
        requires
            0 <= y,
            0 <= width,
    ;
}

/// The bytes of a pixel that comes before another end before that one's begin.
pub proof fn lemma_offset_before(width: int, i: int, j: int, x: int, y: int)
    requires
        0 <= i < width,
        0 <= j,
        j < y || (j == y && i < x),
    ensures
        0 <= offset_of(width, i, j),
        offset_of(width, i, j) + 3 <= (y * width + x) * 3 || x < 0,
{
    assert(0 <= j * width) by (nonlinear_arith)
        requires
            0 <= j,
            0 <= width,
    ;
    if j < y {
        assert(j * width + width <= y * width) by (nonlinear_arith)
            requires
                j + 1 <= y,
                0 <= width,
        ;
    }
}

/// The pixel of a picture that lies at the same proportion as `(x, y)` does of
/// a picture of `w` by `h`.
pub open spec fn sampled(image: ImageView, w: int, h: int, x: int, y: int) -> Rgb {
    image.at(x * image.width / w, y * image.height / h)
}

/// One of the three bytes of a colour.
pub open spec fn channel(c: Rgb, i: int) -> u8 {
    if i == 0 {
        c.0
    } else if i == 1 {
        c.1
    } else {
        c.2
    }
}

/// The bytes of a picture of `w` by `h`, given the colour of each of its pixels.
pub open spec fn pixel_bytes(w: int, h: int, colour: spec_fn(int, int) -> Rgb) -> Seq<u8> {
    Seq::new(
        (w * h * 3) as nat,
        |i: int| channel(colour(i / 3 % w, i / 3 / w), i % 3),
    )
}

/// A picture whose pixels have given colours is made of their bytes.
pub proof fn lemma_pixel_bytes(image: ImageView, colour: spec_fn(int, int) -> Rgb)
    requires
        image.wf(),
        image.width >= 1,
        image.height >= 1,
        forall|x: int, y: int|
            0 <= x < image.width && 0 <= y < image.height ==> #[trigger] image.at(x, y) == colour(
                x,
                y,
            ),
    ensures
        image.pixels == pixel_bytes(image.width, image.height, colour),
{
    let w = image.width;
    let h = image.height;
    let all = pixel_bytes(w, h, colour);
    assert forall|i: int| 0 <= i < all.len() implies image.pixels[i] == all[i] by {
        let p = i / 3;
        let x = p % w;
        let y = p / w;
        assert(p < w * h) by (nonlinear_arith)
            requires
                i < w * h * 3,
                p == i / 3,
        ;
        assert(0 <= x < w && 0 <= y < h && y * w + x == p) by (nonlinear_arith)
            requires
                0 <= p < w * h,
                w >= 1,
                h >= 1,
                x == p % w,
                y == p / w,
        ;
        assert(image.at(x, y) == colour(x, y));
        assert(offset_of(w, x, y) == p * 3);
        lemma_offset(w, h, x, y);
    }
    assert(image.pixels =~= all);
}

/// A picture scaled to fit inside a box.
pub open spec fn fitted_image(image: ImageView, mw: nat, mh: nat) -> ImageView {
    if image.blank() || mw == 0 || mh == 0 {
        ImageView { width: 0, height: 0, pixels: seq![] }
    } else {
        let (w, h) = fitted(image.width as nat, image.height as nat, mw, mh);
        ImageView {
            width: w as int,
            height: h as int,
            pixels: pixel_bytes(
                w as int,
                h as int,
                |x: int, y: int| sampled(image, w as int, h as int, x, y),
            ),
        }
    }
}

/// The factor that takes a picture into a box, and at most one.
pub open spec fn scale_factor(w: nat, h: nat, mw: nat, mh: nat) -> double::Double {
    let a = double::quotient(double::of_nat(mw), double::of_nat(w));
    let b = double::quotient(double::of_nat(mh), double::of_nat(h));
    let c = if double::less(b, a) {
        b
    } else {
        a
    };
    if double::less(double::one(), c) {
        double::one()
    } else {
        c
    }
}

/// A length scaled, rounded, and held between one and a maximum.
pub open spec fn scaled_length(n: nat, s: double::Double, max: nat) -> nat {
    let r = double::rounded(double::product(double::of_nat(n), s));
    if r < 1 {
        1
    } else if r > max {
        max
    } else {
        r
    }
}

/// The size a picture is scaled to.
pub open spec fn fitted(w: nat, h: nat, mw: nat, mh: nat) -> (nat, nat) {
    let s = scale_factor(w, h, mw, mh);
    (scaled_length(w, s, mw), scaled_length(h, s, mh))
}

fn scale_of(w: usize, h: usize, mw: usize, mh: usize) -> (r: double::Double)
    requires
        w > 0,
        h > 0,
    ensures
        r == scale_factor(w as nat, h as nat, mw as nat, mh as nat),
        r.wf(),
        -200 <= r.e <= 200,
{
    let a = double::over(double::from_u64(mw as u64), double::from_u64(w as u64));
    let b = double::over(double::from_u64(mh as u64), double::from_u64(h as u64));
    let c = if double::lt(b, a) {
        b
    } else {
        a
    };
    double::at_most_one(c)
}

fn scaled(n: usize, s: double::Double, max: usize) -> (r: usize)
    requires
        s.wf(),
        -200 <= s.e <= 200,
        max > 0,
    ensures
        r == scaled_length(n as nat, s, max as nat),
        1 <= r <= max,
{
    let x = double::times(double::from_u64(n as u64), s);
    let r = double::round(x, max as u64) as usize;
    if r < 1 {
        1
    } else {
        r
    }
}

/// The position in `of` that lies at the same proportion as `i` does in `n`.
fn proportion(i: usize, of: usize, n: usize) -> (r: usize)
    requires
        i < n,
    ensures
        r == i * of / (n as int),
        of > 0 ==> r < of,
        of == 0 ==> r == 0,
{
    assert(i * of <= 0xffff_ffff_ffff_ffff * 0xffff_ffff_ffff_ffff) by (nonlinear_arith)
        requires
            0 <= i <= 0xffff_ffff_ffff_ffff,
            0 <= of <= 0xffff_ffff_ffff_ffff,
    ;
    assert(of > 0 ==> i * of / (n as int) < of) by (nonlinear_arith)
        requires
            0 <= i < n,
            0 <= of,
    ;
    assert(of == 0 ==> i * of / (n as int) == 0) by (nonlinear_arith)
        requires
            0 <= i < n,
            0 <= of,
    ;
    assert(0 <= i * of / (n as int)) by (nonlinear_arith)
        requires
            0 <= i < n,
            0 <= of,
    ;
    (i as u128 * of as u128 / n as u128) as usize
}

/// A picture is never scaled up: neither side of the result is longer than it
/// was, nor longer than the box allows.
pub proof fn lemma_fit_never_enlarges(w: nat, h: nat, mw: nat, mh: nat)
    requires
        0 < w < double::HIGH,
        0 < h < double::HIGH,
        0 < mw <= u64::MAX,
        0 < mh <= u64::MAX,
    ensures
        1 <= fitted(w, h, mw, mh).0 <= w,
        1 <= fitted(w, h, mw, mh).1 <= h,
        fitted(w, h, mw, mh).0 <= mw,
        fitted(w, h, mw, mh).1 <= mh,
{
    let s = scale_factor(w, h, mw, mh);
    lemma_scale_factor(w, h, mw, mh);
    double::lemma_scaling_never_enlarges(w, s);
    double::lemma_scaling_never_enlarges(h, s);
}

proof fn lemma_scale_factor(w: nat, h: nat, mw: nat, mh: nat)
    requires
        0 < w <= u64::MAX,
        0 < h <= u64::MAX,
        0 < mw <= u64::MAX,
        0 < mh <= u64::MAX,
    ensures
        scale_factor(w, h, mw, mh).wf(),
        -200 <= scale_factor(w, h, mw, mh).e,
        !double::less(double::one(), scale_factor(w, h, mw, mh)),
{
    double::lemma_of_nat(w);
    double::lemma_of_nat(h);
    double::lemma_of_nat(mw);
    double::lemma_of_nat(mh);
    double::lemma_quotient(double::of_nat(mw), double::of_nat(w));
    double::lemma_quotient(double::of_nat(mh), double::of_nat(h));
}

/// A size that already fits the box stays as it is.
pub proof fn lemma_a_size_that_fits_stays(w: nat, h: nat, mw: nat, mh: nat)
    requires
        0 < w < double::HIGH,
        0 < h < double::HIGH,
        w <= mw <= u64::MAX,
        h <= mh <= u64::MAX,
    ensures
        fitted(w, h, mw, mh) == (w, h),
{
    lemma_scale_factor(w, h, mw, mh);
    double::lemma_of_nat(w);
    double::lemma_of_nat(h);
    double::lemma_of_nat(mw);
    double::lemma_of_nat(mh);
    double::lemma_of_nat_monotone(w, mw);
    double::lemma_of_nat_monotone(h, mh);
    double::lemma_quotient(double::of_nat(mw), double::of_nat(w));
    double::lemma_quotient(double::of_nat(mh), double::of_nat(h));
    double::lemma_quotient_at_least_one(double::of_nat(mw), double::of_nat(w));
    double::lemma_quotient_at_least_one(double::of_nat(mh), double::of_nat(h));
    assert(scale_factor(w, h, mw, mh) == double::one());
    double::lemma_times_one(w);
    double::lemma_times_one(h);
}

/// A picture that already fits the box stays as it is, pixel for pixel.
pub proof fn lemma_a_picture_that_fits_stays(image: ImageView, mw: nat, mh: nat)
    requires
        image.wf(),
        0 < image.width < double::HIGH,
        0 < image.height < double::HIGH,
        image.width <= mw <= u64::MAX,
        image.height <= mh <= u64::MAX,
    ensures
        fitted_image(image, mw, mh) == image,
{
    let w = image.width;
    let h = image.height;
    lemma_a_size_that_fits_stays(w as nat, h as nat, mw, mh);
    let colour = |x: int, y: int| sampled(image, w, h, x, y);
    assert forall|x: int, y: int| 0 <= x < w && 0 <= y < h implies #[trigger] image.at(x, y)
        == colour(x, y) by {
        assert(x * w / w == x) by (nonlinear_arith)
            requires
                w > 0,
        ;
        assert(y * h / h == y) by (nonlinear_arith)
            requires
                h > 0,
        ;
    }
    lemma_pixel_bytes(image, colour);
}

/// Fitting a picture into a box a second time changes nothing, where a double
/// holds the sides of the picture, or of the box, exactly.
pub proof fn lemma_fitting_twice_is_fitting_once(image: ImageView, mw: nat, mh: nat)
    requires
        0 <= image.width <= u64::MAX,
        0 <= image.height <= u64::MAX,
        mw <= u64::MAX,
        mh <= u64::MAX,
        (image.width < double::HIGH && image.height < double::HIGH) || (mw < double::HIGH && mh
            < double::HIGH),
    ensures
        fitted_image(fitted_image(image, mw, mh), mw, mh) == fitted_image(image, mw, mh),
{
    if !(image.blank() || mw == 0 || mh == 0) {
        let w = image.width as nat;
        let h = image.height as nat;
        if w < double::HIGH && h < double::HIGH {
            lemma_fit_never_enlarges(w, h, mw, mh);
        }
        let once = fitted_image(image, mw, mh);
        assert(once.width * once.height * 3 >= 0) by (nonlinear_arith)
            requires
                once.width >= 0,
                once.height >= 0,
        ;
        lemma_a_picture_that_fits_stays(once, mw, mh);
    }
}

/// Render an image as rows of `▀`, two pixels to a cell.
///
/// The image is fitted to `cols` × `rows * 2` pixels first, so the result is
/// exactly as wide and tall as the space it was given, or less. A picture of an
/// odd number of rows repeats its last one, which beats a stripe of black
/// across the bottom.
pub fn half_blocks(image: &Image, cols: u16, rows: u16) -> (r: Vec<Vec<Cell>>)
    ensures
        image.blank() || cols == 0 || rows == 0 ==> r@.len() == 0,
        !(image.blank() || cols == 0 || rows == 0) ==> {
            let (w, h) = fitted(
                image.width as nat,
                image.height as nat,
                cols as nat,
                2 * rows as nat,
            );
            &&& r@.len() == (h + 1) / 2
            &&& r@.len() <= rows
            &&& w <= cols
            &&& forall|j: int| 0 <= j < r@.len() ==> (#[trigger] r@[j])@.len() == w
            &&& forall|j: int, i: int|
                0 <= j < r@.len() && 0 <= i < w ==> (#[trigger] r@[j]@[i]) == cell_at(
                    image@,
                    w as int,
                    h as int,
                    i,
                    j,
                )
        },
{
    let small = image.fit(cols as usize, rows as usize * 2);
    let mut out: Vec<Vec<Cell>> = Vec::new();
    if small.is_empty() {
        return out;
    }
    let h: usize = small.height;
    let w: usize = small.width;
    let mut y: usize = 0;
    while y < h
        invariant
            y <= h + 1,
            h <= 2 * 0xffff,
            w == small.width,
            h == small.height,
            h >= 1,
            w >= 1,
            y % 2 == 0,
            out@.len() == (y + 1) / 2,
            forall|i: int, j: int|
                0 <= i < w && 0 <= j < h ==> #[trigger] small.at(i, j) == sampled(
                    image@,
                    w as int,
                    h as int,
                    i,
                    j,
                ),
            forall|j: int| 0 <= j < out@.len() ==> (#[trigger] out@[j])@.len() == w,
            forall|j: int, i: int|
                0 <= j < out@.len() && 0 <= i < w ==> (#[trigger] out@[j]@[i]) == cell_at(
                    image@,
                    w as int,
                    h as int,
                    i,
                    j,
                ),
        decreases h + 1 - y,
    {
        let mut row: Vec<Cell> = Vec::new();
        let mut x: usize = 0;
        let below: usize = if y + 1 < h {
            y + 1
        } else {
            h - 1
        };
        while x < w
            invariant
                x <= w,
                w == small.width,
                h == small.height,
                y < h,
                y % 2 == 0,
                h <= 2 * 0xffff,
                below == (if y + 1 < h {
                    y + 1
                } else {
                    h - 1
                }),
                    row@.len() == x,
                forall|i: int, j: int|
                    0 <= i < w && 0 <= j < h ==> #[trigger] small.at(i, j) == sampled(
                        image@,
                        w as int,
                        h as int,
                        i,
                        j,
                    ),
                forall|i: int|
                    0 <= i < x ==> (#[trigger] row@[i]) == cell_at(
                        image@,
                        w as int,
                        h as int,
                        i,
                        (y / 2) as int,
                    ),
            decreases w - x,
        {
            let upper = small.pixel(x, y);
            let lower = small.pixel(x, below);
            row.push((upper, lower));
            x += 1;
        }
        let ghost done = out@;
        out.push(row);
        assert forall|j: int, i: int| 0 <= j < out@.len() && 0 <= i < w implies (
        #[trigger] out@[j]@[i]) == cell_at(image@, w as int, h as int, i, j) by {
            if j < done.len() {
                assert(out@[j] == done[j]);
            } else {
                assert(out@[j]@[i] == row@[i]);
            }
        }
        y += 2;
    }
    out
}

/// The colours of one cell of a picture drawn `w` by `h`.
pub open spec fn cell_at(image: ImageView, w: int, h: int, x: int, row: int) -> Cell {
    (
        sampled(image, w, h, x, 2 * row),
        sampled(
            image,
            w,
            h,
            x,
            if 2 * row + 1 < h {
                2 * row + 1
            } else {
                h - 1
            },
        ),
    )
}

// ---------------------------------------------------------------------------
// Base64
// ---------------------------------------------------------------------------

/// The character for six bits.
pub open spec fn sextet(n: int) -> char {
    if n < 26 {
        (65 + n) as u8 as char
    } else if n < 52 {
        (71 + n) as u8 as char
    } else if n < 62 {
        (n - 4) as u8 as char
    } else if n == 62 {
        '+'
    } else {
        '/'
    }
}

pub open spec fn byte_at(data: Seq<u8>, i: int) -> int {
    if i < data.len() {
        data[i] as int
    } else {
        0
    }
}

/// Three bytes from position `i` on as one number, with zeros past the end.
pub open spec fn triple(data: Seq<u8>, i: int) -> int {
    byte_at(data, i) * 65536 + byte_at(data, i + 1) * 256 + byte_at(data, i + 2)
}

/// The four characters for the three bytes from position `i` on.
pub open spec fn quad(data: Seq<u8>, i: int) -> Seq<char> {
    let n = triple(data, i);
    seq![
        sextet(n / 262144),
        sextet(n / 4096 % 64),
        if i + 1 < data.len() {
            sextet(n / 64 % 64)
        } else {
            '='
        },
        if i + 2 < data.len() {
            sextet(n % 64)
        } else {
            '='
        },
    ]
}

/// Standard base64 with padding, from position `i` on.
pub open spec fn base64_from(data: Seq<u8>, i: int) -> Seq<char>
    decreases data.len() + 3 - i,
{
    if i >= data.len() {
        seq![]
    } else {
        quad(data, i) + base64_from(data, i + 3)
    }
}

pub open spec fn base64_text(data: Seq<u8>) -> Seq<char> {
    base64_from(data, 0)
}

fn char_of_sextet(n: u32) -> (c: char)
    requires
        n < 64,
    ensures
        c == sextet(n as int),
{
    if n < 26 {
        ((65 + n) as u8) as char
    } else if n < 52 {
        ((71 + n) as u8) as char
    } else if n < 62 {
        ((n - 4) as u8) as char
    } else if n == 62 {
        '+'
    } else {
        '/'
    }
}

/// Standard base64 with padding, which is what both protocols expect.
pub fn base64(data: &[u8]) -> (r: String)
    ensures
        r@ == base64_text(data@),
{
    let n: usize = data.len();
    let mut out: Vec<char> = Vec::new();
    let mut i: usize = 0;
    assert(out@ + base64_from(data@, 0) =~= base64_from(data@, 0));
    while i < n
        invariant
            i <= n,
            n == data@.len(),
            out@ + base64_from(data@, i as int) == base64_from(data@, 0),
        decreases n - i,
    {
        let b0 = data[i] as u32;
        let b1: u32 = if n - i > 1 {
            data[i + 1] as u32
        } else {
            0
        };
        let b2: u32 = if n - i > 2 {
            data[i + 2] as u32
        } else {
            0
        };
        let t: u32 = b0 * 65536 + b1 * 256 + b2;
        let ghost before = out@;
        out.push(char_of_sextet(t / 262144));
        out.push(char_of_sextet(t / 4096 % 64));
        out.push(
            if n - i > 1 {
                char_of_sextet(t / 64 % 64)
            } else {
                '='
            },
        );
        out.push(
            if n - i > 2 {
                char_of_sextet(t % 64)
            } else {
                '='
            },
        );
        assert(out@ =~= before + quad(data@, i as int));
        assert(out@ + base64_from(data@, i + 3) =~= before + base64_from(data@, i as int));
        if n - i <= 3 {
            assert(base64_from(data@, i + 3) =~= seq![]);
            assert(out@ + base64_from(data@, i + 3) =~= out@);
            return string_of(&out);
        }
        i += 3;
    }
    assert(out@ + base64_from(data@, i as int) =~= out@);
    string_of(&out)
}

/// The six bits a character stands for.
pub open spec fn sextet_value(c: char) -> int {
    if 'A' <= c <= 'Z' {
        c as u32 - 65
    } else if 'a' <= c <= 'z' {
        c as u32 - 71
    } else if '0' <= c <= '9' {
        c as u32 + 4
    } else if c == '+' {
        62
    } else {
        63
    }
}

/// What a base64 reader makes of a text.
pub open spec fn base64_read(s: Seq<char>) -> Seq<u8>
    decreases s.len(),
{
    if s.len() < 4 {
        seq![]
    } else {
        let n = sextet_value(s[0]) * 262144 + sextet_value(s[1]) * 4096 + (if s[2] == '=' {
            0
        } else {
            sextet_value(s[2])
        }) * 64 + (if s[3] == '=' {
            0
        } else {
            sextet_value(s[3])
        });
        let a = seq![(n / 65536) as u8];
        let b = if s[2] == '=' {
            seq![]
        } else {
            seq![(n / 256 % 256) as u8]
        };
        let c = if s[3] == '=' {
            seq![]
        } else {
            seq![(n % 256) as u8]
        };
        a + b + c + base64_read(s.skip(4))
    }
}

proof fn lemma_sextet(n: int)
    requires
        0 <= n < 64,
    ensures
        sextet_value(sextet(n)) == n,
        sextet(n) != '=',
        ' ' < sextet(n) <= 'z',
{
}

/// Three bytes as one number, taken apart into sextets and into bytes again.
proof fn lemma_triple(b0: int, b1: int, b2: int)
    requires
        0 <= b0 < 256,
        0 <= b1 < 256,
        0 <= b2 < 256,
    ensures
        ({
            let n = b0 * 65536 + b1 * 256 + b2;
            &&& 0 <= n < 16777216
            &&& 0 <= n / 262144 < 64
            &&& n / 262144 * 262144 + n / 4096 % 64 * 4096 + n / 64 % 64 * 64 + n % 64 == n
            &&& n / 65536 == b0
            &&& n / 256 % 256 == b1
            &&& n % 256 == b2
            &&& b1 == 0 && b2 == 0 ==> n / 64 % 64 == 0
            &&& b2 == 0 ==> n % 64 == 0
        }),
{
    let x = b0 as u32;
    let y = b1 as u32;
    let z = b2 as u32;
    assert({
        let n = x * 65536 + y * 256 + z;
        &&& n < 16777216
        &&& n / 262144 < 64
        &&& n / 262144 * 262144 + n / 4096 % 64 * 4096 + n / 64 % 64 * 64 + n % 64 == n
        &&& n / 65536 == x
        &&& n / 256 % 256 == y
        &&& n % 256 == z
        &&& y == 0 && z == 0 ==> n / 64 % 64 == 0
        &&& z == 0 ==> n % 64 == 0
    }) by (bit_vector)
        requires
            x < 256,
            y < 256,
            z < 256,
    ;
}

/// What a reader makes of one group of four.
proof fn lemma_quad(data: Seq<u8>, i: int, rest: Seq<char>)
    requires
        0 <= i < data.len(),
    ensures
        base64_read(quad(data, i) + rest) == data.subrange(
            i,
            if i + 3 <= data.len() {
                i + 3
            } else {
                data.len() as int
            },
        ) + base64_read(rest),
        forall|k: int| 0 <= k < 4 ==> ' ' < #[trigger] quad(data, i)[k] <= 'z',
{
    let n = triple(data, i);
    let q = quad(data, i);
    let w = q + rest;
    lemma_triple(byte_at(data, i), byte_at(data, i + 1), byte_at(data, i + 2));
    lemma_sextet(n / 262144);
    lemma_sextet(n / 4096 % 64);
    lemma_sextet(n / 64 % 64);
    lemma_sextet(n % 64);
    assert(w.skip(4) =~= rest);
    assert(w[0] == q[0] && w[1] == q[1] && w[2] == q[2] && w[3] == q[3]);
    let next = if i + 3 <= data.len() {
        i + 3
    } else {
        data.len() as int
    };
    let a = seq![data[i]];
    let b = if i + 1 < data.len() {
        seq![data[i + 1]]
    } else {
        seq![]
    };
    let c = if i + 2 < data.len() {
        seq![data[i + 2]]
    } else {
        seq![]
    };
    assert(base64_read(w) == a + b + c + base64_read(rest));
    assert(a + b + c =~= data.subrange(i, next));
}

/// A base64 reader gets back the bytes that were encoded; the encoded form is
/// four characters to every three bytes or part of three, and holds nothing but
/// printable characters, so nothing in it can end an escape early.
pub proof fn lemma_base64_round_trip(data: Seq<u8>)
    ensures
        base64_read(base64_text(data)) == data,
        base64_text(data).len() == 4 * ((data.len() + 2) / 3),
        forall|k: int|
            0 <= k < base64_text(data).len() ==> ' ' < #[trigger] base64_text(data)[k] <= 'z',
{
    lemma_base64_from(data, 0);
    assert(data.subrange(0, data.len() as int) =~= data);
}

proof fn lemma_base64_from(data: Seq<u8>, i: int)
    requires
        0 <= i <= data.len(),
    ensures
        base64_read(base64_from(data, i)) == data.subrange(i, data.len() as int),
        base64_from(data, i).len() == 4 * ((data.len() - i + 2) / 3),
        forall|k: int|
            0 <= k < base64_from(data, i).len() ==> ' ' < #[trigger] base64_from(data, i)[k]
                <= 'z',
    decreases data.len() - i,
{
    if i < data.len() {
        let q = quad(data, i);
        let w = base64_from(data, i);
        let next = if i + 3 <= data.len() {
            i + 3
        } else {
            data.len() as int
        };
        let rest = base64_from(data, i + 3);
        lemma_quad(data, i, rest);
        if i + 3 <= data.len() {
            lemma_base64_from(data, i + 3);
        } else {
            assert(rest =~= seq![]);
            assert(base64_read(rest) =~= seq![]);
            assert(data.subrange(next, data.len() as int) =~= seq![]);
        }
        assert(data.subrange(i, next) + data.subrange(next, data.len() as int) =~= data.subrange(
            i,
            data.len() as int,
        ));
        assert forall|k: int| 0 <= k < w.len() implies ' ' < #[trigger] w[k] <= 'z' by {
            if k < 4 {
                assert(w[k] == q[k]);
            } else {
                assert(w[k] == rest[k - 4]);
            }
        }
    } else {
        assert(base64_read(base64_from(data, i)) =~= data.subrange(i, data.len() as int));
    }
}

// ---------------------------------------------------------------------------
// Kitty
// ---------------------------------------------------------------------------

/// Kitty accepts at most this many base64 characters per escape, so a picture
/// arrives in instalments.
pub const CHUNK: usize = 4096;

/// Where an instalment that begins at `from` ends.
pub open spec fn chunk_end(len: int, from: int) -> int {
    if len - from > CHUNK {
        from + CHUNK
    } else {
        len
    }
}

/// The instalments of a payload from position `from` on. The first names the
/// picture; the others carry only the "there is more coming" flag.
pub open spec fn instalments(
    id: nat,
    header: Seq<char>,
    payload: Seq<char>,
    from: int,
) -> Seq<char>
    decreases payload.len() - from,
{
    if from >= payload.len() {
        seq![]
    } else {
        let end = chunk_end(payload.len() as int, from);
        let more = if end < payload.len() {
            "1"@
        } else {
            "0"@
        };
        let start = if from == 0 {
            "\x1b_G"@ + header + ",i="@ + text::decimal(id) + ",m="@ + more
        } else {
            "\x1b_Gm="@ + more
        };
        (start + ";"@ + payload.subrange(from, end) + "\x1b\\"@) + instalments(
            id,
            header,
            payload,
            end,
        )
    }
}

fn transmit(id: u32, header: &str, payload: &str) -> (r: String)
    ensures
        r@ == instalments(id as nat, header@, payload@, 0),
{
    let v = chars_of(payload);
    let n: usize = v.len();
    let mut out = String::new();
    let mut from: usize = 0;
    assert(out@ + instalments(id as nat, header@, v@, 0) =~= instalments(
        id as nat,
        header@,
        v@,
        0,
    ));
    while from < n
        invariant
            from <= n,
            n == v@.len(),
            v@ == payload@,
            out@ + instalments(id as nat, header@, v@, from as int) == instalments(
                id as nat,
                header@,
                v@,
                0,
            ),
        decreases n - from,
    {
        let end: usize = if n - from > CHUNK {
            from + CHUNK
        } else {
            n
        };
        let more: &str = if end < n {
            "1"
        } else {
            "0"
        };
        let mut part = if from == 0 {
            let mut p = "\x1b_G".to_owned();
            p.append(header);
            p.append(",i=");
            p.append(&dec(id as u64));
            p.append(",m=");
            p.append(more);
            p
        } else {
            let mut p = "\x1b_Gm=".to_owned();
            p.append(more);
            p
        };
        part.append(";");
        part.append(&string_of(cut_out(&v, from, end)));
        part.append("\x1b\\");
        let ghost before = out@;
        out.append(&part);
        assert(out@ + instalments(id as nat, header@, v@, end as int) =~= before + instalments(
            id as nat,
            header@,
            v@,
            from as int,
        ));
        from = end;
    }
    assert(out@ + instalments(id as nat, header@, v@, from as int) =~= out@);
    out
}

/// The escape that transmits raw pixels. The cursor is left where it was:
/// otherwise the terminal scrolls when an image is placed near the bottom of
/// the screen, which is exactly where the detail pane is.
pub open spec fn kitty_image_text(id: nat, image: ImageView, cols: nat, rows: nat) -> Seq<char> {
    if image.blank() {
        seq![]
    } else {
        instalments(
            id,
            "a=T,q=2,C=1,f=24,s="@ + text::decimal(image.width as nat) + ",v="@ + text::decimal(
                image.height as nat,
            ) + ",c="@ + text::decimal(cols) + ",r="@ + text::decimal(rows),
            base64_text(image.pixels),
            0,
        )
    }
}

/// Transmit and place an image at the cursor, scaled into `cols` × `rows`.
///
/// `id` names the image so it can be deleted again; reusing an id replaces
/// whatever was there.
pub fn kitty_image(id: u32, image: &Image, cols: u16, rows: u16) -> (r: String)
    ensures
        r@ == kitty_image_text(id as nat, image@, cols as nat, rows as nat),
{
    if image.is_empty() {
        return String::new();
    }
    let mut header = "a=T,q=2,C=1,f=24,s=".to_owned();
    header.append(&dec(image.width as u64));
    header.append(",v=");
    header.append(&dec(image.height as u64));
    header.append(",c=");
    header.append(&dec(cols as u64));
    header.append(",r=");
    header.append(&dec(rows as u64));
    transmit(id, &header, &base64(&image.pixels))
}

/// The escape that transmits an encoded PNG.
pub open spec fn kitty_png_text(id: nat, png: Seq<u8>, cols: nat, rows: nat) -> Seq<char> {
    if png.len() == 0 {
        seq![]
    } else {
        instalments(
            id,
            "a=T,q=2,C=1,f=100,c="@ + text::decimal(cols) + ",r="@ + text::decimal(rows),
            base64_text(png),
            0,
        )
    }
}

/// Transmit an already-encoded PNG, which kitty decodes itself.
pub fn kitty_png(id: u32, png: &[u8], cols: u16, rows: u16) -> (r: String)
    ensures
        r@ == kitty_png_text(id as nat, png@, cols as nat, rows as nat),
{
    if png.len() == 0 {
        return String::new();
    }
    let mut header = "a=T,q=2,C=1,f=100,c=".to_owned();
    header.append(&dec(cols as u64));
    header.append(",r=");
    header.append(&dec(rows as u64));
    transmit(id, &header, &base64(png))
}

pub open spec fn kitty_delete_text(id: nat) -> Seq<char> {
    "\x1b_Ga=d,d=I,i="@ + text::decimal(id) + ",q=2\x1b\\"@
}

/// Remove an image and free the terminal's copy of it.
pub fn kitty_delete(id: u32) -> (r: String)
    ensures
        r@ == kitty_delete_text(id as nat),
{
    let mut out = "\x1b_Ga=d,d=I,i=".to_owned();
    out.append(&dec(id as u64));
    out.append(",q=2\x1b\\");
    out
}

// ---------------------------------------------------------------------------
// iTerm2
// ---------------------------------------------------------------------------

pub open spec fn iterm_text(encoded: Seq<u8>, cols: nat, rows: nat) -> Seq<char> {
    if encoded.len() == 0 {
        seq![]
    } else {
        "\x1b]1337;File=inline=1;size="@ + text::decimal(encoded.len()) + ";width="@
            + text::decimal(cols) + ";height="@ + text::decimal(rows) + ";preserveAspectRatio=1:"@
            + base64_text(encoded) + "\x07"@
    }
}

/// Place an encoded image (JPEG, PNG, GIF, whatever the OS can read) at the
/// cursor, scaled into `cols` × `rows`.
pub fn iterm_image(encoded: &[u8], cols: u16, rows: u16) -> (r: String)
    ensures
        r@ == iterm_text(encoded@, cols as nat, rows as nat),
{
    if encoded.len() == 0 {
        return String::new();
    }
    let mut out = "\x1b]1337;File=inline=1;size=".to_owned();
    out.append(&dec(encoded.len() as u64));
    out.append(";width=");
    out.append(&dec(cols as u64));
    out.append(";height=");
    out.append(&dec(rows as u64));
    out.append(";preserveAspectRatio=1:");
    out.append(&base64(encoded));
    out.append("\x07");
    out
}

/// What puts a text on the clipboard of a terminal.
pub open spec fn clipboard_text(t: Seq<char>) -> Seq<char> {
    "\x1b]52;c;"@ + base64_text(vstd::utf8::encode_utf8(t)) + "\x07"@
}

/// Put a text on the clipboard, by way of the terminal: it works over a
/// connection to another machine too, where no clipboard program would.
pub fn clipboard(t: &str) -> (r: String)
    ensures
        r@ == clipboard_text(t@),
{
    let mut out = "\x1b]52;c;".to_owned();
    out.append(&base64(t.as_bytes()));
    out.append("\x07");
    out
}

} // verus!
