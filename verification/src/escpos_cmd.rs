//! ESC/POS command encoders.
//!
//! Each function appends the raw bytes of one printer command to a buffer;
//! every contract states the exact bytes appended.
use vstd::prelude::*;
use crate::strs::{chars_eq_str, chars_of, to_uppercase, uppercase};
use vstd::string::StringSliceAdditionalSpecFns;

verus! {

/// ESC
pub const ESC: u8 = 0x1B;
/// GS
pub const GS: u8 = 0x1D;
/// LF
pub const LF: u8 = 0x0A;

/// Append every byte of `bytes` to `buf`, in order.
pub fn push_bytes(buf: &mut Vec<u8>, bytes: &[u8])
    ensures
        final(buf)@ == old(buf)@ + bytes@,
{
    let mut i: usize = 0;
    while i < bytes.len()
        invariant
            i <= bytes@.len(),
            buf@ == old(buf)@ + bytes@.take(i as int),
        decreases bytes@.len() - i,
    {
        buf.push(bytes[i]);
        i = i + 1;
        assert(bytes@.take(i as int) =~= bytes@.take(i - 1) + seq![bytes@[i - 1]]);
    }
    assert(bytes@.take(i as int) =~= bytes@);
}

/// ESC @ — initialize the printer.
pub fn init(buf: &mut Vec<u8>)
    ensures
        final(buf)@ == old(buf)@ + seq![ESC, 0x40u8],
{
    push_bytes(buf, &[ESC, 0x40]);
}

/// LF — line feed.
pub fn linefeed(buf: &mut Vec<u8>)
    ensures
        final(buf)@ == old(buf)@.push(LF),
{
    buf.push(LF);
}

/// ESC a n — justification (0 left, 1 center, 2 right).
pub fn justify(buf: &mut Vec<u8>, align: u8)
    ensures
        final(buf)@ == old(buf)@ + seq![ESC, 0x61u8, align],
{
    push_bytes(buf, &[ESC, 0x61, align]);
}

/// The byte value of a flag (1 for on, 0 for off).
pub open spec fn flag_byte(on: bool) -> u8 {
    if on { 1 } else { 0 }
}

fn flag(on: bool) -> (b: u8)
    ensures
        b == flag_byte(on),
{
    if on { 1 } else { 0 }
}

/// ESC E n — emphasis (bold) on or off.
pub fn bold(buf: &mut Vec<u8>, on: bool)
    ensures
        final(buf)@ == old(buf)@ + seq![ESC, 0x45u8, flag_byte(on)],
{
    push_bytes(buf, &[ESC, 0x45, flag(on)]);
}

/// ESC - n — underline on or off.
pub fn underline(buf: &mut Vec<u8>, on: bool)
    ensures
        final(buf)@ == old(buf)@ + seq![ESC, 0x2Du8, flag_byte(on)],
{
    push_bytes(buf, &[ESC, 0x2D, flag(on)]);
}

/// ESC 4 n — italic on or off.
pub fn italic(buf: &mut Vec<u8>, on: bool)
    ensures
        final(buf)@ == old(buf)@ + seq![ESC, 0x34u8, flag_byte(on)],
{
    push_bytes(buf, &[ESC, 0x34, flag(on)]);
}

/// The multiplier nibble of a character size: `min(m - 1, 7)`, and 0 for `m == 0`.
pub open spec fn size_nibble(m: u8) -> u8 {
    if m == 0 { 0 } else if m - 1 > 7 { 7 } else { (m - 1) as u8 }
}

/// GS ! n — character size; the width multiplier goes to the high nibble,
/// the height multiplier to the low nibble.
pub fn char_size(buf: &mut Vec<u8>, width: u8, height: u8)
    ensures
        final(buf)@ == old(buf)@ + seq![GS, 0x21u8, (size_nibble(width) * 16 + size_nibble(height)) as u8],
{
    let w = if width == 0 { 0u8 } else if width - 1 > 7 { 7u8 } else { width - 1 };
    let h = if height == 0 { 0u8 } else if height - 1 > 7 { 7u8 } else { height - 1 };
    push_bytes(buf, &[GS, 0x21, w * 16 + h]);
}

/// ESC d n — print and feed `lines` lines.
pub fn feed(buf: &mut Vec<u8>, lines: u8)
    ensures
        final(buf)@ == old(buf)@ + seq![ESC, 0x64u8, lines],
{
    push_bytes(buf, &[ESC, 0x64, lines]);
}

/// ESC J n — print and feed `dots` dots.
pub fn feed_dots(buf: &mut Vec<u8>, dots: u8)
    ensures
        final(buf)@ == old(buf)@ + seq![ESC, 0x4Au8, dots],
{
    push_bytes(buf, &[ESC, 0x4A, dots]);
}

/// The cut mode byte: 66 for a partial cut, 65 for a full cut.
pub open spec fn cut_mode(partial: bool) -> u8 {
    if partial { 66 } else { 65 }
}

/// GS V m 0 — paper cut (function B).
pub fn cut(buf: &mut Vec<u8>, partial: bool)
    ensures
        final(buf)@ == old(buf)@ + seq![GS, 0x56u8, cut_mode(partial), 0u8],
{
    let m: u8 = if partial { 66 } else { 65 };
    push_bytes(buf, &[GS, 0x56, m, 0]);
}

/// ESC p 0 25 255 — pulse the cash drawer.
pub fn drawer(buf: &mut Vec<u8>)
    ensures
        final(buf)@ == old(buf)@ + seq![ESC, 0x70u8, 0x00u8, 0x19u8, 0xFFu8],
{
    push_bytes(buf, &[ESC, 0x70, 0x00, 0x19, 0xFF]);
}

/// The low byte of a 32-bit value.
pub open spec fn lo8(v: u32) -> u8 {
    (v % 256) as u8
}

/// The second byte of a 32-bit value.
pub open spec fn hi8(v: u32) -> u8 {
    ((v / 256) % 256) as u8
}

/// The header of a GS v 0 raster image: width in bytes and height, little-endian.
pub open spec fn raster_header(width_px: u32, height: u32) -> Seq<u8> {
    seq![GS, 0x76u8, 0x30u8, 0u8, lo8(width_px / 8), hi8(width_px / 8), lo8(height), hi8(height)]
}

/// GS v 0 — print a raster bit image. The header carries `width_px / 8`
/// and `height`, each as two little-endian bytes; `data` follows unchanged.
pub fn raster_image(buf: &mut Vec<u8>, width_px: u32, height: u32, data: &[u8])
    ensures
        final(buf)@ == old(buf)@ + raster_header(width_px, height) + data@,
{
    let width_bytes = width_px / 8;
    let xl = (width_bytes % 256) as u8;
    let xh = ((width_bytes / 256) % 256) as u8;
    let yl = (height % 256) as u8;
    let yh = ((height / 256) % 256) as u8;
    push_bytes(buf, &[GS, 0x76, 0x30, 0, xl, xh, yl, yh]);
    push_bytes(buf, data);
}

/// The module size a QR command uses: `module_size` clamped to 1..=8.
pub open spec fn qr_module(module_size: u8) -> u8 {
    if module_size < 1 { 1 } else if module_size > 8 { 8 } else { module_size }
}

/// The GS ( k sequence that prints `data` as a QR code: select model 2,
/// set the module size, set error correction L, store the data (its length
/// plus 3, modulo 2^16, as two little-endian bytes), print.
pub open spec fn qr_command(data: Seq<u8>, module_size: u8) -> Seq<u8> {
    let store = ((data.len() + 3) % 65536) as int;
    seq![GS, 0x28u8, 0x6Bu8, 4u8, 0u8, 49u8, 65u8, 50u8, 0u8]
        + seq![GS, 0x28u8, 0x6Bu8, 3u8, 0u8, 49u8, 67u8, qr_module(module_size)]
        + seq![GS, 0x28u8, 0x6Bu8, 3u8, 0u8, 49u8, 69u8, 48u8]
        + seq![GS, 0x28u8, 0x6Bu8, (store % 256) as u8, (store / 256) as u8, 49u8, 80u8, 48u8]
        + data
        + seq![GS, 0x28u8, 0x6Bu8, 3u8, 0u8, 49u8, 81u8, 48u8]
}

/// Emit a native QR code for `data` (see [`qr_command`]).
pub fn qr(buf: &mut Vec<u8>, data: &str, module_size: u8)
    ensures
        final(buf)@ == old(buf)@ + qr_command(data.spec_bytes(), module_size),
{
    let size: u8 = if module_size < 1 { 1 } else if module_size > 8 { 8 } else { module_size };
    let bytes = data.as_bytes();
    let store: usize = (bytes.len() % 65536 + 3) % 65536;
    proof {
        assert(((bytes@.len() % 65536) + 3) % 65536 == (bytes@.len() + 3) % 65536) by (nonlinear_arith);
    }
    let pl = (store % 256) as u8;
    let ph = (store / 256) as u8;
    let ghost start = buf@;
    push_bytes(buf, &[GS, 0x28, 0x6B, 4, 0, 49, 65, 50, 0]);
    push_bytes(buf, &[GS, 0x28, 0x6B, 3, 0, 49, 67, size]);
    push_bytes(buf, &[GS, 0x28, 0x6B, 3, 0, 49, 69, 48]);
    push_bytes(buf, &[GS, 0x28, 0x6B, pl, ph, 49, 80, 48]);
    push_bytes(buf, bytes);
    push_bytes(buf, &[GS, 0x28, 0x6B, 3, 0, 49, 81, 48]);
    proof {
        assert(buf@ =~= start + qr_command(data.spec_bytes(), module_size));
    }
}

/// The GS k type byte of a barcode format, matched on its uppercase form.
pub open spec fn barcode_type(upper: Seq<char>) -> Option<u8> {
    if upper == "UPC-A"@ || upper == "UPCA"@ {
        Some(65)
    } else if upper == "UPC-E"@ || upper == "UPCE"@ {
        Some(66)
    } else if upper == "EAN13"@ {
        Some(67)
    } else if upper == "EAN8"@ {
        Some(68)
    } else if upper == "CODE39"@ {
        Some(69)
    } else if upper == "ITF"@ {
        Some(70)
    } else if upper == "CODABAR"@ {
        Some(71)
    } else if upper == "CODE93"@ {
        Some(72)
    } else if upper == "CODE128"@ {
        Some(73)
    } else {
        None
    }
}

/// The GS k type byte for an uppercase format name (see [`barcode_type`]).
pub fn barcode_type_byte(upper: &[char]) -> (r: Option<u8>)
    ensures
        r == barcode_type(upper@),
{
    if chars_eq_str(upper, "UPC-A") || chars_eq_str(upper, "UPCA") {
        Some(65)
    } else if chars_eq_str(upper, "UPC-E") || chars_eq_str(upper, "UPCE") {
        Some(66)
    } else if chars_eq_str(upper, "EAN13") {
        Some(67)
    } else if chars_eq_str(upper, "EAN8") {
        Some(68)
    } else if chars_eq_str(upper, "CODE39") {
        Some(69)
    } else if chars_eq_str(upper, "ITF") {
        Some(70)
    } else if chars_eq_str(upper, "CODABAR") {
        Some(71)
    } else if chars_eq_str(upper, "CODE93") {
        Some(72)
    } else if chars_eq_str(upper, "CODE128") {
        Some(73)
    } else {
        None
    }
}

/// The payload of a barcode: CODE128 data gets the `{B` code set prefix
/// unless it already starts with `{`.
pub open spec fn barcode_payload(type_byte: u8, data: Seq<u8>) -> Seq<u8> {
    if type_byte == 73 && !(data.len() > 0 && data[0] == 0x7Bu8) {
        seq![0x7Bu8, 0x42u8] + data
    } else {
        data
    }
}

/// The GS k command (format B) for a barcode payload: at most 255 bytes.
pub open spec fn barcode_command(type_byte: u8, payload: Seq<u8>) -> Seq<u8> {
    let n = if payload.len() > 255 { 255 } else { payload.len() as int };
    seq![GS, 0x6Bu8, type_byte, n as u8] + payload.take(n)
}

/// Emit a native barcode once the format's type byte is known.
pub fn barcode_with_type(buf: &mut Vec<u8>, type_byte: u8, data: &str)
    ensures
        final(buf)@ == old(buf)@ + barcode_command(type_byte, barcode_payload(type_byte, data.spec_bytes())),
{
    let bytes = data.as_bytes();
    let mut payload: Vec<u8> = Vec::new();
    if type_byte == 73 && !(bytes.len() > 0 && bytes[0] == 0x7B) {
        payload.push(0x7B);
        payload.push(0x42);
    }
    push_bytes(&mut payload, bytes);
    proof {
        assert(payload@ =~= barcode_payload(type_byte, data.spec_bytes()));
    }
    let n: usize = if payload.len() > 255 { 255 } else { payload.len() };
    let ghost start = buf@;
    push_bytes(buf, &[GS, 0x6B, type_byte, n as u8]);
    let mut i: usize = 0;
    while i < n
        invariant
            i <= n <= payload@.len(),
            buf@ == start + seq![GS, 0x6Bu8, type_byte, n as u8] + payload@.take(i as int),
        decreases n - i,
    {
        buf.push(payload[i]);
        i = i + 1;
        assert(payload@.take(i as int) =~= payload@.take(i - 1).push(payload@[i - 1]));
    }
}

/// Emit a native barcode with GS k (format B). Returns false, emitting
/// nothing, when the format (matched on its uppercase form) is unknown.
pub fn barcode(buf: &mut Vec<u8>, format: &str, data: &str) -> (ok: bool)
    ensures
        ok == (barcode_type(uppercase(format@)) is Some),
        ok ==> final(buf)@ == old(buf)@ + barcode_command(
            barcode_type(uppercase(format@))->0,
            barcode_payload(barcode_type(uppercase(format@))->0, data.spec_bytes()),
        ),
        !ok ==> final(buf)@ == old(buf)@,
{
    let upper = to_uppercase(format);
    let uc = chars_of(upper.as_str());
    match barcode_type_byte(uc.as_slice()) {
        Some(t) => {
            barcode_with_type(buf, t, data);
            true
        },
        None => false,
    }
}

/// The barcode formats the printer draws itself, with their `GS k` type
/// bytes: UPC-A 65, UPC-E 66, EAN13 67, EAN8 68, CODE39 69, ITF 70,
/// CODABAR 71, CODE93 72, CODE128 73; CODE128 data not naming a code set
/// (a leading `{`) is sent in code set B (`{B` first).
pub proof fn law_barcode_types(data: Seq<u8>)
    ensures
        barcode_type("UPC-A"@) == Some(65u8),
        barcode_type("UPCA"@) == Some(65u8),
        barcode_type("UPC-E"@) == Some(66u8),
        barcode_type("UPCE"@) == Some(66u8),
        barcode_type("EAN13"@) == Some(67u8),
        barcode_type("EAN8"@) == Some(68u8),
        barcode_type("CODE39"@) == Some(69u8),
        barcode_type("ITF"@) == Some(70u8),
        barcode_type("CODABAR"@) == Some(71u8),
        barcode_type("CODE93"@) == Some(72u8),
        barcode_type("CODE128"@) == Some(73u8),
        !(data.len() > 0 && data[0] == 0x7Bu8) ==> barcode_payload(73, data) == seq![0x7Bu8, 0x42u8] + data,
        data.len() > 0 && data[0] == 0x7Bu8 ==> barcode_payload(73, data) == data,
{
    reveal_strlit("UPC-A");
    reveal_strlit("UPCA");
    reveal_strlit("UPC-E");
    reveal_strlit("UPCE");
    reveal_strlit("EAN13");
    reveal_strlit("EAN8");
    reveal_strlit("CODE39");
    reveal_strlit("ITF");
    reveal_strlit("CODABAR");
    reveal_strlit("CODE93");
    reveal_strlit("CODE128");
    assert("UPCA"@ != "UPC-A"@) by { assert("UPCA"@.len() != "UPC-A"@.len()); }
    assert("UPC-E"@ != "UPC-A"@) by { assert("UPC-E"@[4] != "UPC-A"@[4]); }
    assert("UPC-E"@ != "UPCA"@) by { assert("UPC-E"@.len() != "UPCA"@.len()); }
    assert("UPCE"@ != "UPC-A"@) by { assert("UPCE"@.len() != "UPC-A"@.len()); }
    assert("UPCE"@ != "UPCA"@) by { assert("UPCE"@[3] != "UPCA"@[3]); }
    assert("UPCE"@ != "UPC-E"@) by { assert("UPCE"@.len() != "UPC-E"@.len()); }
    assert("EAN13"@ != "UPC-A"@) by { assert("EAN13"@[0] != "UPC-A"@[0]); }
    assert("EAN13"@ != "UPCA"@) by { assert("EAN13"@.len() != "UPCA"@.len()); }
    assert("EAN13"@ != "UPC-E"@) by { assert("EAN13"@[0] != "UPC-E"@[0]); }
    assert("EAN13"@ != "UPCE"@) by { assert("EAN13"@.len() != "UPCE"@.len()); }
    assert("EAN8"@ != "UPC-A"@) by { assert("EAN8"@.len() != "UPC-A"@.len()); }
    assert("EAN8"@ != "UPCA"@) by { assert("EAN8"@[0] != "UPCA"@[0]); }
    assert("EAN8"@ != "UPC-E"@) by { assert("EAN8"@.len() != "UPC-E"@.len()); }
    assert("EAN8"@ != "UPCE"@) by { assert("EAN8"@[0] != "UPCE"@[0]); }
    assert("EAN8"@ != "EAN13"@) by { assert("EAN8"@.len() != "EAN13"@.len()); }
    assert("CODE39"@ != "UPC-A"@) by { assert("CODE39"@.len() != "UPC-A"@.len()); }
    assert("CODE39"@ != "UPCA"@) by { assert("CODE39"@.len() != "UPCA"@.len()); }
    assert("CODE39"@ != "UPC-E"@) by { assert("CODE39"@.len() != "UPC-E"@.len()); }
    assert("CODE39"@ != "UPCE"@) by { assert("CODE39"@.len() != "UPCE"@.len()); }
    assert("CODE39"@ != "EAN13"@) by { assert("CODE39"@.len() != "EAN13"@.len()); }
    assert("CODE39"@ != "EAN8"@) by { assert("CODE39"@.len() != "EAN8"@.len()); }
    assert("ITF"@ != "UPC-A"@) by { assert("ITF"@.len() != "UPC-A"@.len()); }
    assert("ITF"@ != "UPCA"@) by { assert("ITF"@.len() != "UPCA"@.len()); }
    assert("ITF"@ != "UPC-E"@) by { assert("ITF"@.len() != "UPC-E"@.len()); }
    assert("ITF"@ != "UPCE"@) by { assert("ITF"@.len() != "UPCE"@.len()); }
    assert("ITF"@ != "EAN13"@) by { assert("ITF"@.len() != "EAN13"@.len()); }
    assert("ITF"@ != "EAN8"@) by { assert("ITF"@.len() != "EAN8"@.len()); }
    assert("ITF"@ != "CODE39"@) by { assert("ITF"@.len() != "CODE39"@.len()); }
    assert("CODABAR"@ != "UPC-A"@) by { assert("CODABAR"@.len() != "UPC-A"@.len()); }
    assert("CODABAR"@ != "UPCA"@) by { assert("CODABAR"@.len() != "UPCA"@.len()); }
    assert("CODABAR"@ != "UPC-E"@) by { assert("CODABAR"@.len() != "UPC-E"@.len()); }
    assert("CODABAR"@ != "UPCE"@) by { assert("CODABAR"@.len() != "UPCE"@.len()); }
    assert("CODABAR"@ != "EAN13"@) by { assert("CODABAR"@.len() != "EAN13"@.len()); }
    assert("CODABAR"@ != "EAN8"@) by { assert("CODABAR"@.len() != "EAN8"@.len()); }
    assert("CODABAR"@ != "CODE39"@) by { assert("CODABAR"@.len() != "CODE39"@.len()); }
    assert("CODABAR"@ != "ITF"@) by { assert("CODABAR"@.len() != "ITF"@.len()); }
    assert("CODE93"@ != "UPC-A"@) by { assert("CODE93"@.len() != "UPC-A"@.len()); }
    assert("CODE93"@ != "UPCA"@) by { assert("CODE93"@.len() != "UPCA"@.len()); }
    assert("CODE93"@ != "UPC-E"@) by { assert("CODE93"@.len() != "UPC-E"@.len()); }
    assert("CODE93"@ != "UPCE"@) by { assert("CODE93"@.len() != "UPCE"@.len()); }
    assert("CODE93"@ != "EAN13"@) by { assert("CODE93"@.len() != "EAN13"@.len()); }
    assert("CODE93"@ != "EAN8"@) by { assert("CODE93"@.len() != "EAN8"@.len()); }
    assert("CODE93"@ != "CODE39"@) by { assert("CODE93"@[4] != "CODE39"@[4]); }
    assert("CODE93"@ != "ITF"@) by { assert("CODE93"@.len() != "ITF"@.len()); }
    assert("CODE93"@ != "CODABAR"@) by { assert("CODE93"@.len() != "CODABAR"@.len()); }
    assert("CODE128"@ != "UPC-A"@) by { assert("CODE128"@.len() != "UPC-A"@.len()); }
    assert("CODE128"@ != "UPCA"@) by { assert("CODE128"@.len() != "UPCA"@.len()); }
    assert("CODE128"@ != "UPC-E"@) by { assert("CODE128"@.len() != "UPC-E"@.len()); }
    assert("CODE128"@ != "UPCE"@) by { assert("CODE128"@.len() != "UPCE"@.len()); }
    assert("CODE128"@ != "EAN13"@) by { assert("CODE128"@.len() != "EAN13"@.len()); }
    assert("CODE128"@ != "EAN8"@) by { assert("CODE128"@.len() != "EAN8"@.len()); }
    assert("CODE128"@ != "CODE39"@) by { assert("CODE128"@.len() != "CODE39"@.len()); }
    assert("CODE128"@ != "ITF"@) by { assert("CODE128"@.len() != "ITF"@.len()); }
    assert("CODE128"@ != "CODABAR"@) by { assert("CODE128"@[3] != "CODABAR"@[3]); }
    assert("CODE128"@ != "CODE93"@) by { assert("CODE128"@.len() != "CODE93"@.len()); }
}

} // verus!
