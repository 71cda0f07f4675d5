//! A press backed by FreeType: it loads a font face and measures tokens as
//! the sum of their glyph advances.

use vstd::prelude::*;
use crate::layout::Fit;

verus! {

#[verifier::external_type_specification]
#[verifier::external_body]
pub struct ExLibrary(freetype::Library);

#[verifier::external_type_specification]
#[verifier::external_body]
#[verifier::reject_recursive_types(BYTES)]
pub struct ExFace<BYTES>(freetype::Face<BYTES>);

#[verifier::external_type_specification]
#[verifier::external_body]
pub struct ExFtError(freetype::Error);

/// Relies on `freetype::Library::init`: starts a FreeType library instance.
#[verifier::external_body]
fn init_library() -> (r: Result<freetype::Library, freetype::Error>) {
    freetype::Library::init()
}

/// Relies on `freetype::Library::new_face`: opens face `index` of the font
/// file at `path`.
#[verifier::external_body]
fn open_face(lib: &freetype::Library, path: &str, index: isize) -> (r: Result<
    freetype::Face,
    freetype::Error,
>) {
    lib.new_face(path, index)
}

/// Relies on `freetype::Face::set_char_size`: selects a character size, in
/// 26.6 fixed-point points, at a horizontal and vertical resolution in dots
/// per inch (zero for either means the same as the other).
#[verifier::external_body]
fn set_char_size(
    face: &freetype::Face,
    width: isize,
    height: isize,
    horz_dpi: u32,
    vert_dpi: u32,
) -> (r: Result<(), freetype::Error>) {
    face.set_char_size(width, height, horz_dpi, vert_dpi)
}

/// Relies on `freetype::Face::size_metrics`: the line height, in 26.6
/// fixed-point pixels, of the selected size, when the face has one.
#[verifier::external_body]
fn line_height_metric(face: &freetype::Face) -> (r: Option<i64>) {
    face.size_metrics().map(|m| m.height as i64)
}

/// Relies on `freetype::Face::load_char`: loads the glyph of `ch` into the
/// face's glyph slot, with the default load flags.
#[verifier::external_body]
fn load_char(face: &freetype::Face, ch: char) -> (r: Result<(), freetype::Error>) {
    face.load_char(ch as usize, freetype::face::LoadFlag::DEFAULT)
}

/// Relies on `freetype::GlyphSlot::advance`: the horizontal advance, in 26.6
/// fixed-point pixels, of the glyph last loaded.
#[verifier::external_body]
fn glyph_advance(face: &freetype::Face) -> (r: i64) {
    face.glyph().advance().x as i64
}

/// Font file the press loads.
pub const FONT_FILE: &'static str = "test.ttf";

/// Point size the press sets.
pub const POINT_SIZE: u32 = 12;

/// Resolution, in dots per inch, the press sets.
pub const DPI: u32 = 96;

/// Height every measured token is given.
pub const TOKEN_HEIGHT: u32 = 10;

/// Which step of using the font backend failed, with the backend's error.
#[derive(Debug)]
pub enum PressError {
    /// The backend library could not start.
    Library(freetype::Error),
    /// The font face could not be opened.
    Face(freetype::Error),
    /// The character size could not be set.
    Size(freetype::Error),
    /// A glyph could not be loaded.
    Glyph(freetype::Error),
}

/// Whole pixels of a 26.6 fixed-point value, truncated toward zero.
pub open spec fn whole_pixels(v: int) -> int {
    if v >= 0 {
        v / 64
    } else {
        -((-v) / 64)
    }
}

/// Sum of the whole-pixel advances.
pub open spec fn advance_sum(a: Seq<i64>) -> int
    decreases a.len(),
{
    if a.len() == 0 {
        0
    } else {
        advance_sum(a.drop_last()) + whole_pixels(a.last() as int)
    }
}

/// Width of a line of glyphs with these advances: the pen's final position,
/// clamped to the range of `u32`.
pub open spec fn line_width_of(a: Seq<i64>) -> int {
    let s = advance_sum(a);
    if s < 0 {
        0
    } else if s > u32::MAX {
        u32::MAX as int
    } else {
        s
    }
}

/// Line height in whole pixels: from the face's metric when there is one,
/// clamped to the range of `i32`, else one and a half times the point size.
pub open spec fn line_height_of(metric: Option<i64>, pt: u32) -> int {
    match metric {
        Some(h) => {
            let p = whole_pixels(h as int);
            if p > i32::MAX {
                i32::MAX as int
            } else if p < i32::MIN {
                i32::MIN as int
            } else {
                p
            }
        },
        None => if pt * 3 / 2 > i32::MAX {
            i32::MAX as int
        } else {
            pt * 3 / 2
        },
    }
}

/// The width of a line of glyphs with these advances (in 26.6 fixed-point
/// pixels).
pub fn line_width(advances: &[i64]) -> (r: u32)
    ensures
        r == line_width_of(advances@),
{
    let mut sum: i128 = 0;
    let mut i: usize = 0;
    while i < advances.len()
        invariant
            i <= advances@.len(),
            sum == advance_sum(advances@.take(i as int)),
            -(i as int) * 0x200_0000_0000_0000 <= sum <= (i as int) * 0x200_0000_0000_0000,
            i <= 0xffff_ffff_ffff_ffff,
        decreases advances@.len() - i,
    {
        let a = advances[i];
        let p = a / 64;
        proof {
            let t = advances@.take(i + 1);
            assert(t.drop_last() =~= advances@.take(i as int));
            assert(-0x200_0000_0000_0000 <= p <= 0x200_0000_0000_0000);
        }
        sum = sum + p as i128;
        i = i + 1;
    }
    proof {
        assert(advances@.take(advances@.len() as int) =~= advances@);
    }
    if sum < 0 {
        0
    } else if sum > u32::MAX as i128 {
        u32::MAX
    } else {
        sum as u32
    }
}

/// The line height for a face's metric and the point size.
pub fn line_height_from(metric: Option<i64>, pt: u32) -> (r: i32)
    ensures
        r == line_height_of(metric, pt),
{
    match metric {
        Some(h) => {
            let p = h / 64;
            if p > i32::MAX as i64 {
                i32::MAX
            } else if p < i32::MIN as i64 {
                i32::MIN
            } else {
                p as i32
            }
        },
        None => {
            let g = (pt as u64) * 3 / 2;
            if g > i32::MAX as u64 {
                i32::MAX
            } else {
                g as i32
            }
        },
    }
}

/// The part of a glyph bitmap that lands on a destination surface: where it
/// goes, where it starts in the bitmap, and its size.
#[derive(Clone, Copy, Debug, PartialEq, Eq, Structural)]
pub struct GlyphClip {
    pub dest_x: u32,
    pub dest_y: u32,
    pub src_x: u32,
    pub src_y: u32,
    pub width: u32,
    pub rows: u32,
}

pub open spec fn max_int(a: int, b: int) -> int {
    if a >= b {
        a
    } else {
        b
    }
}

pub open spec fn min_int(a: int, b: int) -> int {
    if a <= b {
        a
    } else {
        b
    }
}

/// A bitmap of `width` by `rows` pixels, whose top-left corner sits
/// `bitmap_left` right of and `bitmap_top` above the pen, clipped to a
/// `dest_w` by `dest_h` surface: the visible columns `x0 .. x1` and rows
/// `y0 .. y1`, if any.
pub open spec fn clip_of(
    pen_x: int,
    pen_y: int,
    bitmap_left: int,
    bitmap_top: int,
    width: int,
    rows: int,
    dest_w: int,
    dest_h: int,
) -> Option<GlyphClip> {
    let left = pen_x + bitmap_left;
    let top = pen_y - bitmap_top;
    let x0 = max_int(left, 0);
    let y0 = max_int(top, 0);
    let x1 = min_int(left + width, dest_w);
    let y1 = min_int(top + rows, dest_h);
    if x1 > x0 && y1 > y0 {
        Some(
            GlyphClip {
                dest_x: x0 as u32,
                dest_y: y0 as u32,
                src_x: (x0 - left) as u32,
                src_y: (y0 - top) as u32,
                width: (x1 - x0) as u32,
                rows: (y1 - y0) as u32,
            },
        )
    } else {
        None
    }
}

/// Clips a glyph bitmap drawn at `pen` to a `dest_w` by `dest_h` surface.
pub fn clip_glyph(
    pen: (i32, i32),
    bitmap_left: i32,
    bitmap_top: i32,
    width: i32,
    rows: i32,
    dest_w: u32,
    dest_h: u32,
) -> (r: Option<GlyphClip>)
    ensures
        r == clip_of(
            pen.0 as int,
            pen.1 as int,
            bitmap_left as int,
            bitmap_top as int,
            width as int,
            rows as int,
            dest_w as int,
            dest_h as int,
        ),
        r matches Some(c) ==> c.dest_x + c.width <= dest_w && c.dest_y + c.rows <= dest_h
            && c.src_x + c.width <= width && c.src_y + c.rows <= rows,
{
    let left = pen.0 as i64 + bitmap_left as i64;
    let top = pen.1 as i64 - bitmap_top as i64;
    let x0 = if left >= 0 { left } else { 0 };
    let y0 = if top >= 0 { top } else { 0 };
    let x1 = if left + (width as i64) <= dest_w as i64 { left + width as i64 } else { dest_w as i64 };
    let y1 = if top + (rows as i64) <= dest_h as i64 { top + rows as i64 } else { dest_h as i64 };
    if x1 > x0 && y1 > y0 {
        Some(
            GlyphClip {
                dest_x: x0 as u32,
                dest_y: y0 as u32,
                src_x: (x0 - left) as u32,
                src_y: (y0 - top) as u32,
                width: (x1 - x0) as u32,
                rows: (y1 - y0) as u32,
            },
        )
    } else {
        None
    }
}

/// Measures and draws strings with one font face at one size.
pub struct FreeTypePress {
    /// The library instance the face belongs to, kept for the press's lifetime.
    library: freetype::Library,
    face: freetype::Face,
    line_height: i32,
    /// The face gave no line height, so it was derived from the point size.
    line_height_guessed: bool,
}

impl FreeTypePress {
    pub closed spec fn spec_line_height(&self) -> int {
        self.line_height as int
    }

    pub closed spec fn spec_line_height_guessed(&self) -> bool {
        self.line_height_guessed
    }

    /// Loads the press's font file at its point size and resolution.
    ///
    /// Each step that fails gives its own error: starting the library
    /// `Library`, opening the face `Face`, selecting the size `Size`. On
    /// success the line height follows the face's size metric, and is guessed
    /// from the point size exactly when the face has none.
    pub fn new() -> (r: Result<FreeTypePress, PressError>)
        ensures
            r is Err ==> (r matches Err(PressError::Library(_)) || r matches Err(
                PressError::Face(_),
            ) || r matches Err(PressError::Size(_))),
            r matches Ok(p) ==> exists|m: Option<i64>|
                p.spec_line_height() == line_height_of(m, POINT_SIZE) && p.spec_line_height_guessed()
                    == (m is None),
    {
        let lib = match init_library() {
            Ok(lib) => lib,
            Err(e) => {
                return Err(PressError::Library(e));
            },
        };
        let face = match open_face(&lib, FONT_FILE, 0) {
            Ok(face) => face,
            Err(e) => {
                return Err(PressError::Face(e));
            },
        };
        let size = (POINT_SIZE as isize) * 64;
        match set_char_size(&face, size, 0, DPI, 0) {
            Ok(()) => {},
            Err(e) => {
                return Err(PressError::Size(e));
            },
        }
        let metric = line_height_metric(&face);
        let line_height_guessed = metric.is_none();
        let line_height = line_height_from(metric, POINT_SIZE);
        let press = FreeTypePress { library: lib, face, line_height, line_height_guessed };
        assert(press.spec_line_height() == line_height_of(metric, POINT_SIZE)
            && press.spec_line_height_guessed() == (metric is None));
        Ok(press)
    }

    /// Distance from the top of a line to its baseline, in pixels.
    pub fn line_height(&self) -> (r: i32)
        ensures
            r == self.spec_line_height(),
    {
        self.line_height
    }

    /// Whether the face gave no line height, so that it was derived from the
    /// point size.
    pub fn line_height_guessed(&self) -> (r: bool)
        ensures
            r == self.spec_line_height_guessed(),
    {
        self.line_height_guessed
    }

    /// The face the press draws with.
    pub fn face(&self) -> &freetype::Face {
        &self.face
    }

    /// Own width and height of `text`: the sum of its glyph advances, and the
    /// fixed token height. Empty text loads no glyph and always succeeds; a
    /// glyph that cannot be loaded gives a `Glyph` error.
    pub fn measure_str(&self, text: &str) -> (r: Result<(u32, u32), PressError>)
        ensures
            r matches Ok((w, h)) ==> h == TOKEN_HEIGHT && exists|a: Seq<i64>|
                a.len() == text@.len() && w == line_width_of(a),
            text@.len() == 0 ==> (r matches Ok((w, h)) && w == 0 && h == TOKEN_HEIGHT),
            r is Err ==> r matches Err(PressError::Glyph(_)),
    {
        let n = text.unicode_len();
        let mut advances: Vec<i64> = Vec::new();
        let mut i: usize = 0;
        while i < n
            invariant
                n == text@.len(),
                i <= n,
                advances@.len() == i,
            decreases n - i,
        {
            let ch = text.get_char(i);
            match load_char(&self.face, ch) {
                Ok(()) => {},
                Err(e) => {
                    return Err(PressError::Glyph(e));
                },
            }
            advances.push(glyph_advance(&self.face));
            i = i + 1;
        }
        let w = line_width(advances.as_slice());
        proof {
            if n == 0 {
                assert(advance_sum(advances@) == 0);
            }
        }
        Ok((w, TOKEN_HEIGHT))
    }
}

/// `fit` is a measurement of `token`: the width of some line of glyph
/// advances, one per character, and the fixed token height.
pub open spec fn is_measure_of(token: Seq<char>, fit: Fit) -> bool {
    fit.1 == TOKEN_HEIGHT && exists|a: Seq<i64>| a.len() == token.len() && fit.0 == line_width_of(a)
}

/// Every token is empty.
pub open spec fn all_empty(tokens: Seq<String>) -> bool {
    forall|i: int| 0 <= i < tokens.len() ==> #[trigger] tokens[i]@.len() == 0
}

/// Measures every token, in index order; the first failure ends the pass
/// and is returned. Empty tokens load no glyph, so a list of them always
/// succeeds.
pub fn measure_fits(tokens: &[String], press: &FreeTypePress) -> (r: Result<Vec<Fit>, PressError>)
    ensures
        r matches Ok(fits) ==> fits@.len() == tokens@.len() && forall|i: int|
            0 <= i < fits@.len() ==> is_measure_of(tokens@[i]@, #[trigger] fits@[i]),
        all_empty(tokens@) ==> (r matches Ok(fits) && forall|i: int|
            0 <= i < fits@.len() ==> #[trigger] fits@[i] == Fit(0, TOKEN_HEIGHT)),
        r is Err ==> r matches Err(PressError::Glyph(_)),
{
    let mut fits: Vec<Fit> = Vec::new();
    let mut i: usize = 0;
    while i < tokens.len()
        invariant
            i <= tokens@.len(),
            fits@.len() == i,
            forall|q: int| 0 <= q < i ==> is_measure_of(tokens@[q]@, #[trigger] fits@[q]),
            all_empty(tokens@) ==> forall|q: int|
                0 <= q < i ==> #[trigger] fits@[q] == Fit(0, TOKEN_HEIGHT),
        decreases tokens@.len() - i,
    {
        let text = tokens[i].as_str();
        let (w, h) = match press.measure_str(text) {
            Ok(fit) => fit,
            Err(e) => {
                return Err(e);
            },
        };
        let ghost before = fits@;
        fits.push(Fit(w, h));
        proof {
            assert(text@ == tokens@[i as int]@);
            assert(is_measure_of(tokens@[i as int]@, fits@[i as int]));
            assert forall|q: int| 0 <= q < i + 1 implies is_measure_of(
                tokens@[q]@,
                #[trigger] fits@[q],
            ) by {
                if q < i {
                    assert(fits@[q] == before[q]);
                }
            }
            if all_empty(tokens@) {
                assert(tokens@[i as int]@.len() == 0);
                assert forall|q: int| 0 <= q < i + 1 implies #[trigger] fits@[q] == Fit(
                    0,
                    TOKEN_HEIGHT,
                ) by {
                    if q < i {
                        assert(fits@[q] == before[q]);
                    }
                }
            }
        }
        i = i + 1;
    }
    Ok(fits)
}

} // verus!
