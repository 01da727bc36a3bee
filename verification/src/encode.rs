//! Barcode and QR code encoding.
//!
//! The symbologies themselves come from the `barcoders` and `qrcode`
//! crates; this module picks the symbology, prepares the data, and turns
//! the results into logical grids (bars and modules) that renderers scale.
use vstd::prelude::*;
use crate::strs::{chars_eq_str, chars_of, string_of, to_uppercase, uppercase};
use vstd::string::StringSliceAdditionalSpecFns;

verus! {

/// What `qrcode::QrCode::new` makes of some bytes: `None` when it fails,
/// else the width in modules and the modules row by row, dark ones `true`.
pub uninterp spec fn qr_symbol(data: Seq<u8>) -> Option<(u32, Seq<bool>)>;

/// What `barcoders` CODE128 encoding gives for a text (with its code set
/// prefix): `None` when `Code128::new` refuses it, else the bars.
pub uninterp spec fn code128_bars(data: Seq<char>) -> Option<Seq<u8>>;

/// What `barcoders` CODE39 encoding gives for a text.
pub uninterp spec fn code39_bars(data: Seq<char>) -> Option<Seq<u8>>;

/// What `barcoders` EAN-13 encoding gives for a text.
pub uninterp spec fn ean13_bars(data: Seq<char>) -> Option<Seq<u8>>;

/// What `barcoders` EAN-8 encoding gives for a text.
pub uninterp spec fn ean8_bars(data: Seq<char>) -> Option<Seq<u8>>;

/// What `barcoders` Codabar encoding gives for a text.
pub uninterp spec fn codabar_bars(data: Seq<char>) -> Option<Seq<u8>>;

/// The longest text handed to CODE128 encoding: the crate sums its
/// checksum in 32 bits, each symbol value (below 106) weighted by its
/// place, and past this length that sum can overflow.
pub open spec fn code128_max_chars() -> int {
    6396
}

/// The view of an optional vector.
pub open spec fn opt_seq<T>(o: Option<Vec<T>>) -> Option<Seq<T>> {
    match o {
        Some(v) => Some(v@),
        None => None,
    }
}

/// Encodes bytes with `qrcode::QrCode::new` (error correction M, the
/// smallest fitting normal version), then reads `width()` and
/// `to_colors()`. Claims that the result is the name [`qr_symbol`] of the
/// bytes, and, as the crate's source shows, that a normal version is 21
/// to 177 modules wide and that there is one color per module.
#[verifier::external_body]
fn qr_encode_raw(data: &[u8]) -> (r: Option<(u32, Vec<bool>)>)
    ensures
        match r {
            Some((w, m)) => qr_symbol(data@) == Some((w, m@)) && 21 <= w <= 177 && m@.len() == w * w,
            None => qr_symbol(data@) is None,
        },
{
    let code = qrcode::QrCode::new(data).ok()?;
    let mut modules: Vec<bool> = Vec::new();
    for c in code.to_colors() {
        modules.push(match c {
            qrcode::Color::Dark => true,
            qrcode::Color::Light => false,
        });
    }
    Some((code.width() as u32, modules))
}

/// Encodes a text with `barcoders::sym::code128::Code128::new` and
/// `encode`. Claims only that the result is the name [`code128_bars`].
/// The crate sums its checksum in an `i32`, so longer texts are left out.
#[verifier::external_body]
fn code128_raw(data: &str) -> (r: Option<Vec<u8>>)
    requires
        data@.len() <= code128_max_chars(),
    ensures
        opt_seq(r) == code128_bars(data@),
{
    barcoders::sym::code128::Code128::new(data).ok().map(|b| b.encode())
}

/// Encodes a text with `barcoders::sym::code39::Code39::new` and `encode`.
/// Claims only that the result is the name [`code39_bars`].
#[verifier::external_body]
fn code39_raw(data: &str) -> (r: Option<Vec<u8>>)
    ensures
        opt_seq(r) == code39_bars(data@),
{
    barcoders::sym::code39::Code39::new(data).ok().map(|b| b.encode())
}

/// Encodes a text with `barcoders::sym::ean13::EAN13::new` and `encode`.
/// Claims only that the result is the name [`ean13_bars`].
#[verifier::external_body]
fn ean13_raw(data: &str) -> (r: Option<Vec<u8>>)
    ensures
        opt_seq(r) == ean13_bars(data@),
{
    barcoders::sym::ean13::EAN13::new(data).ok().map(|b| b.encode())
}

/// Encodes a text with `barcoders::sym::ean8::EAN8::new` and `encode`.
/// Claims only that the result is the name [`ean8_bars`].
#[verifier::external_body]
fn ean8_raw(data: &str) -> (r: Option<Vec<u8>>)
    ensures
        opt_seq(r) == ean8_bars(data@),
{
    barcoders::sym::ean8::EAN8::new(data).ok().map(|b| b.encode())
}

/// Encodes a text with `barcoders::sym::codabar::Codabar::new` and
/// `encode`. Claims only that the result is the name [`codabar_bars`].
#[verifier::external_body]
fn codabar_raw(data: &str) -> (r: Option<Vec<u8>>)
    ensures
        opt_seq(r) == codabar_bars(data@),
{
    barcoders::sym::codabar::Codabar::new(data).ok().map(|b| b.encode())
}

/// A QR code as a square grid of modules.
#[derive(Debug, Clone)]
pub struct QrGrid {
    /// Modules per side.
    pub width: u32,
    /// Row-major module data, `true` for dark.
    pub modules: Vec<bool>,
}

impl QrGrid {
    /// One module per cell of the square.
    pub open spec fn wf(&self) -> bool {
        self.modules@.len() == self.width * self.width
    }
}

/// The QR grid of a text: that of its UTF-8 bytes.
pub open spec fn qr_grid_spec(data: Seq<char>) -> Option<(u32, Seq<bool>)> {
    qr_symbol(vstd::utf8::encode_utf8(data))
}

/// Encode text as a QR code grid; `None` when it cannot be encoded.
pub fn encode_qr(data: &str) -> (r: Option<QrGrid>)
    ensures
        match r {
            Some(g) => qr_grid_spec(data@) == Some((g.width, g.modules@)) && g.wf() && 21 <= g.width <= 177,
            None => qr_grid_spec(data@) is None,
        },
{
    match qr_encode_raw(data.as_bytes()) {
        Some((width, modules)) => Some(QrGrid { width, modules }),
        None => None,
    }
}

/// Whether a text starts with one of CODE128's code set selectors
/// (`À` set A, `Ɓ` set B, `Ć` set C).
pub open spec fn has_code_set(data: Seq<char>) -> bool {
    data.len() > 0 && (data[0] == 'À' || data[0] == 'Ɓ' || data[0] == 'Ć')
}

/// The text handed to CODE128 encoding: set B selected unless the text
/// selects a set itself.
pub open spec fn code128_input(data: Seq<char>) -> Seq<char> {
    if has_code_set(data) { data } else { seq!['Ɓ'] + data }
}

/// The bars of a barcode, by format (matched on its uppercase form):
/// CODE128, CODE39, EAN13, EAN8 or CODABAR; `None` for other formats and
/// for data the symbology refuses.
pub open spec fn barcode_spec(format: Seq<char>, data: Seq<char>) -> Option<Seq<u8>> {
    let f = uppercase(format);
    if f == "CODE128"@ {
        code128_bars(code128_input(data))
    } else if f == "CODE39"@ {
        code39_bars(data)
    } else if f == "EAN13"@ {
        ean13_bars(data)
    } else if f == "EAN8"@ {
        ean8_bars(data)
    } else if f == "CODABAR"@ {
        codabar_bars(data)
    } else {
        None
    }
}

/// The bars [`encode_barcode_checked`] gives: those of [`barcode_spec`],
/// except none for a CODE128 text whose input (with its code-set
/// selector) is longer than `code128_max_chars()`.
pub open spec fn checked_barcode_spec(format: Seq<char>, data: Seq<char>) -> Option<Seq<u8>> {
    if uppercase(format) == "CODE128"@ && code128_input(data).len() > code128_max_chars() {
        None
    } else {
        barcode_spec(format, data)
    }
}

/// Encode barcode data in the given format (see [`encode_barcode`]),
/// first testing the CODE128 length limit: `None` when it is exceeded.
pub fn encode_barcode_checked(format: &str, data: &str) -> (r: Option<Vec<u8>>)
    ensures
        opt_seq(r) == checked_barcode_spec(format@, data@),
{
    let upper = to_uppercase(format);
    let f = chars_of(upper.as_str());
    if chars_eq_str(f.as_slice(), "CODE128") {
        let cs = chars_of(data);
        let has_set = cs.len() > 0 && (cs[0] == 'À' || cs[0] == 'Ɓ' || cs[0] == 'Ć');
        let too_long = if has_set { cs.len() > 6396 } else { cs.len() >= 6396 };
        if too_long {
            return None;
        }
    }
    encode_barcode(format, data)
}

/// Encode barcode data in the given format: a pattern of bars (1) and
/// spaces (0). CODE128 data longer than `code128_max_chars()` is left out.
pub fn encode_barcode(format: &str, data: &str) -> (r: Option<Vec<u8>>)
    requires
        uppercase(format@) == "CODE128"@ ==> code128_input(data@).len() <= code128_max_chars(),
    ensures
        opt_seq(r) == barcode_spec(format@, data@),
{
    let upper = to_uppercase(format);
    let f = chars_of(upper.as_str());
    if chars_eq_str(f.as_slice(), "CODE128") {
        let cs = chars_of(data);
        if cs.len() > 0 && (cs[0] == 'À' || cs[0] == 'Ɓ' || cs[0] == 'Ć') {
            code128_raw(data)
        } else {
            let mut p: Vec<char> = Vec::new();
            p.push('Ɓ');
            let mut i: usize = 0;
            while i < cs.len()
                invariant
                    i <= cs@.len(),
                    p@ == seq!['Ɓ'] + cs@.take(i as int),
                decreases cs@.len() - i,
            {
                p.push(cs[i]);
                i = i + 1;
                assert(cs@.take(i as int) == cs@.take(i - 1).push(cs@[i - 1]));
            }
            assert(cs@.take(i as int) == cs@);
            let prefixed = string_of(p.as_slice(), 0, p.len());
            assert(p@.subrange(0, p@.len() as int) == p@);
            code128_raw(prefixed.as_str())
        }
    } else if chars_eq_str(f.as_slice(), "CODE39") {
        code39_raw(data)
    } else if chars_eq_str(f.as_slice(), "EAN13") {
        ean13_raw(data)
    } else if chars_eq_str(f.as_slice(), "EAN8") {
        ean8_raw(data)
    } else if chars_eq_str(f.as_slice(), "CODABAR") {
        codabar_raw(data)
    } else {
        None
    }
}

/// The pixels per module of a QR grid `w` modules wide drawn at about
/// `target` pixels: `target / w`, at least 1.
pub open spec fn qr_scale(w: int, target: int) -> int {
    if target / w < 1 { 1 } else { target / w }
}

/// The pixels of a QR grid drawn `size` pixels wide with `scale` pixels
/// per module: 0 (black) for dark modules, 255 for light ones.
pub open spec fn qr_pixels(modules: Seq<bool>, w: int, scale: int) -> Seq<u8> {
    let size = w * scale;
    Seq::new((size * size) as nat, |i: int| if modules[(i / size / scale) * w + (i % size) / scale] { 0u8 } else { 255u8 })
}

/// Draw a QR grid at about `target_size_px` pixels: each module becomes a
/// square of `qr_scale` pixels. Returns the side and the row-major pixels.
pub fn render_qr_grid(grid: &QrGrid, target_size_px: u32) -> (r: (u32, Vec<u8>))
    requires
        grid.wf(),
        grid.width > 0,
        (grid.width * qr_scale(grid.width as int, target_size_px as int)) * (grid.width * qr_scale(grid.width as int, target_size_px as int)) <= u32::MAX,
    ensures
        r.0 == grid.width * qr_scale(grid.width as int, target_size_px as int),
        r.1@ == qr_pixels(grid.modules@, grid.width as int, qr_scale(grid.width as int, target_size_px as int)),
{
    let w = grid.width;
    let scale: u32 = if target_size_px / w < 1 { 1 } else { target_size_px / w };
    let ghost sc = qr_scale(w as int, target_size_px as int);
    assert(scale == sc);
    assert(w * scale <= u32::MAX) by (nonlinear_arith)
        requires
            (w * scale) * (w * scale) <= u32::MAX,
            w > 0,
            scale >= 1,
    ;
    let size: u32 = w * scale;
    assert((w as int) * (w as int) <= (size as int) * (size as int)) by (nonlinear_arith)
        requires
            size == w * scale,
            scale >= 1,
            w > 0,
    ;
    let ghost target = qr_pixels(grid.modules@, w as int, scale as int);
    let mut pixels: Vec<u8> = Vec::new();
    let mut py: u32 = 0;
    while py < size
        invariant
            size == w * scale,
            (size as int) * (size as int) <= u32::MAX,
            (w as int) * (w as int) <= u32::MAX,
            w > 0,
            scale >= 1,
            grid.wf(),
            w == grid.width,
            target == qr_pixels(grid.modules@, w as int, scale as int),
            py <= size,
            pixels@.len() == py * size,
            forall|i: int| 0 <= i < pixels@.len() ==> pixels@[i] == #[trigger] target[i],
        decreases size - py,
    {
        let mut px: u32 = 0;
        while px < size
            invariant
                size == w * scale,
                (size as int) * (size as int) <= u32::MAX,
                (w as int) * (w as int) <= u32::MAX,
                w > 0,
                scale >= 1,
                grid.wf(),
                w == grid.width,
                target == qr_pixels(grid.modules@, w as int, scale as int),
                py < size,
                px <= size,
                pixels@.len() == py * size + px,
                forall|i: int| 0 <= i < pixels@.len() ==> pixels@[i] == #[trigger] target[i],
            decreases size - px,
        {
            let row = py / scale;
            let col = px / scale;
            proof {
                assert(row < w && col < w) by (nonlinear_arith)
                    requires
                        py < w * scale,
                        px < w * scale,
                        row == py / scale,
                        col == px / scale,
                        scale >= 1,
                ;
                assert(row * w + col < w * w) by (nonlinear_arith)
                    requires
                        row < w,
                        col < w,
                ;
                assert(py * size + px < size * size) by (nonlinear_arith)
                    requires
                        py < size,
                        px < size,
                ;
                let i = py * size + px;
                assert(i / (size as int) == py && i % (size as int) == px) by (nonlinear_arith)
                    requires
                        i == py * size + px,
                        px < size,
                        0 <= py,
                        0 <= px,
                ;
            }
            let dark = grid.modules[(row * w + col) as usize];
            pixels.push(if dark { 0 } else { 255 });
            px = px + 1;
        }
        assert(py * size + size == (py + 1) * size) by (nonlinear_arith);
        py = py + 1;
    }
    proof {
        assert(pixels@.len() == target.len());
    }
    (size, pixels)
}

/// Render a QR code for a text as a grayscale pixel grid of about
/// `target_size_px` pixels: the side and the row-major pixels. `None` when
/// the text cannot be encoded, or when the drawn square would hold more
/// than `u32::MAX` pixels.
pub fn render_qr(data: &str, target_size_px: u32) -> (r: Option<(u32, Vec<u8>)>)
    ensures
        match qr_grid_spec(data@) {
            Some((w, m)) => {
                let size = w * qr_scale(w as int, target_size_px as int);
                if size * size <= u32::MAX {
                    r matches Some((side, px)) && side == size && px@ == qr_pixels(m, w as int, qr_scale(w as int, target_size_px as int))
                } else {
                    r is None
                }
            },
            None => r is None,
        },
{
    match encode_qr(data) {
        Some(grid) => {
            let w = grid.width as u64;
            let t = target_size_px as u64;
            let scale: u64 = if t / w < 1 { 1 } else { t / w };
            assert(scale <= u32::MAX);
            assert(w * scale <= 177 * 0xFFFF_FFFF) by (nonlinear_arith)
                requires
                    w <= 177,
                    scale <= 0xFFFF_FFFF,
            ;
            let size: u64 = w * scale;
            if size > 0xFFFF {
                assert(size * size > u32::MAX) by (nonlinear_arith)
                    requires
                        size > 0xFFFF,
                ;
                return None;
            }
            assert(size * size <= 0xFFFF * 0xFFFF) by (nonlinear_arith)
                requires
                    size <= 0xFFFF,
            ;
            if size * size <= u32::MAX as u64 {
                Some(render_qr_grid(&grid, target_size_px))
            } else {
                None
            }
        },
        None => None,
    }
}

} // verus!
