//! ESC/POS rendering: a document to the byte stream a thermal printer
//! runs. Sizes use `GS !` multipliers, images go out as `GS v 0` rasters.
use vstd::prelude::*;
use vstd::utf8::encode_utf8;
use crate::ast::{Align, Cell, CellContent, CellContentModel, CellModel, Decimal, FeedUnit, LineStyle, Node, NodeModel, Size, Span, SpanModel, SpanStyle, cells_model, nodes_model, spans_model};
use crate::columns::{column_widths, imin, law_min_col, layout_spec, pairs};
use crate::escpos_cmd::{barcode, bold, init, char_size, cut, drawer, feed, feed_dots, italic, justify, linefeed, push_bytes, qr, raster_image, underline, ESC, GS, LF, barcode_command, barcode_payload, barcode_type, cut_mode, flag_byte, qr_command, raster_header, size_nibble};
use crate::groups::{cache_model, cache_spec, cell_text_len, groups_spec, milli_chars, milli_chars_exec, precompute_columns_chars};
use crate::image_data::ImageData;
use crate::raster::{is_packed, is_scaled_nn, nn_src, packed_byte, padded_width, scale_nn, to_raster};
use crate::resources::{RenderResources, collect_printer_config, printable_width, printable_width_spec, printer_config_spec, pt_to_px, pt_to_px_spec};
use crate::strs::uppercase;
use crate::text_render::{lemma_cache_min, cell_lines_spec, cells_lines_model, cols_for, fallback_cols, fallback_layout, max_lines, pre_model, pre_ok, round_all, rounded_cols, upairs, wrap_cells};
use crate::text_util::{align_offset, divider_char, align_offset_spec, divider_char_spec, lines_model, spans_chars, spans_text, word_wrap_chars, word_wrap_spec};
use crate::strs::{chars_eq, chars_of, string_of};
use crate::lexical::slice_vec;
use vstd::string::StringSliceAdditionalSpecFns;

verus! {

/// The width and height multipliers of a size level.
pub open spec fn size_mult(s: Size) -> (u8, u8) {
    match s {
        Size::Text => (1, 1),
        Size::TextM => (2, 1),
        Size::TextL => (2, 2),
        Size::Title => (2, 2),
        Size::TitleM => (3, 3),
        Size::TitleL => (4, 4),
    }
}

/// Whether a size level is a header (centered).
pub open spec fn esc_is_title(s: Size) -> bool {
    s == Size::Title || s == Size::TitleM || s == Size::TitleL
}

/// Characters per line: the printable dots over the 12-dot Font A width,
/// at least 10 (48 on 80 mm paper at 203 DPI).
pub open spec fn esc_chars_per_line(dots: int) -> int {
    if dots / 12 < 10 { 10 } else { dots / 12 }
}

/// `n` copies of byte `b`.
pub open spec fn repeat_byte(b: u8, n: nat) -> Seq<u8> {
    Seq::new(n, |i: int| b)
}

/// The command that turns a span style on or off (none for normal and
/// strikethrough).
pub open spec fn style_bytes(style: SpanStyle, on: bool) -> Seq<u8> {
    match style {
        SpanStyle::Bold => seq![ESC, 0x45u8, flag_byte(on)],
        SpanStyle::Underline => seq![ESC, 0x2Du8, flag_byte(on)],
        SpanStyle::Italic => seq![ESC, 0x34u8, flag_byte(on)],
        _ => seq![],
    }
}

/// The bytes of styled spans: each span's text between its style's on and
/// off commands.
pub open spec fn spans_bytes(spans: Seq<SpanModel>) -> Seq<u8>
    decreases spans.len(),
{
    if spans.len() == 0 {
        seq![]
    } else {
        let sp = spans.last();
        spans_bytes(spans.drop_last()) + style_bytes(sp.style, true) + encode_utf8(sp.text) + style_bytes(sp.style, false)
    }
}

/// The bytes of one wrapped line: the styled spans when the line is the
/// whole text, else the plain line.
pub open spec fn styled_line_bytes(spans: Seq<SpanModel>, full: Seq<char>, line: Seq<char>) -> Seq<u8> {
    if full == line { spans_bytes(spans) } else { encode_utf8(line) }
}

/// The bytes of wrapped lines, each followed by a line feed.
pub open spec fn lines_bytes(spans: Seq<SpanModel>, full: Seq<char>, ls: Seq<Seq<char>>) -> Seq<u8>
    decreases ls.len(),
{
    if ls.len() == 0 {
        seq![]
    } else {
        lines_bytes(spans, full, ls.drop_last()) + styled_line_bytes(spans, full, ls.last()) + seq![LF]
    }
}

/// The `GS !` command for a pair of multipliers.
pub open spec fn size_cmd(w: u8, h: u8) -> Seq<u8> {
    seq![GS, 0x21u8, (size_nibble(w) * 16 + size_nibble(h)) as u8]
}

/// The size command before a block (none at normal size).
pub open spec fn size_on(s: Size) -> Seq<u8> {
    let (w, h) = size_mult(s);
    if w > 1 || h > 1 { size_cmd(w, h) } else { seq![] }
}

/// The size reset after a block (none at normal size).
pub open spec fn size_off(s: Size) -> Seq<u8> {
    let (w, h) = size_mult(s);
    if w > 1 || h > 1 { size_cmd(1, 1) } else { seq![] }
}

/// The bytes of a text node: its words wrapped to the line width divided by
/// the width multiplier, headers centered.
pub open spec fn esc_text_out(spans: Seq<SpanModel>, size: Size, base: int) -> Seq<u8> {
    let ew = base / (size_mult(size).0 as int);
    let full = spans_text(spans);
    let ls = word_wrap_spec(full, ew as nat);
    size_on(size) + (if esc_is_title(size) { seq![ESC, 0x61u8, 1u8] } else { seq![] }) + lines_bytes(spans, full, ls) + (
    if esc_is_title(size) {
        seq![ESC, 0x61u8, 0u8]
    } else {
        seq![]
    }) + size_off(size)
}

/// The natural width of each cell in thousandths of a character.
pub open spec fn natural_milli(cells: Seq<CellModel>) -> Seq<u64> {
    Seq::new(cells.len(), |i: int| milli_chars(cell_text_len(cells[i])) as u64)
}

/// The columns of a row, in characters: enlarged rows are laid out anew at
/// their own width from their own text; others use the group layout.
pub open spec fn esc_cols(cells: Seq<CellModel>, size: Size, base: int, pre: Option<Seq<(int, int)>>) -> Seq<(int, int)> {
    let wm = size_mult(size).0 as int;
    let ew = base / wm;
    if wm > 1 {
        rounded_cols(layout_spec(Seq::new(cells.len(), |i: int| cells[i].width_pct), natural_milli(cells), milli_chars(ew), 2000, 1000))
    } else {
        cols_for(cells, ew, pre)
    }
}

/// The smaller of two integers.
pub open spec fn min_int(a: int, b: int) -> int {
    if a <= b { a } else { b }
}

/// The styled spans of a cell's first row, cut after `remaining`
/// characters in all; also the number of characters written.
pub open spec fn first_row_spans(spans: Seq<SpanModel>, remaining: int) -> (Seq<u8>, int)
    decreases spans.len(),
{
    if spans.len() == 0 || remaining <= 0 {
        (seq![], 0)
    } else {
        let sp = spans[0];
        let n = min_int(sp.text.len() as int, remaining);
        let rest = first_row_spans(spans.drop_first(), remaining - n);
        (style_bytes(sp.style, true) + encode_utf8(sp.text.take(n)) + style_bytes(sp.style, false) + rest.0, n + rest.1)
    }
}

/// A row's bytes and cursor after one more cell: spaces up to the column,
/// then the aligned text of this row (styled spans on the first row), or
/// the divider on the last row.
pub open spec fn esc_cell_piece(st: (Seq<u8>, int), cell: CellModel, col: (int, int), ls: Seq<Seq<char>>, row: int, last: bool) -> (Seq<u8>, int) {
    let b1 = if st.1 < col.0 { st.0 + repeat_byte(0x20u8, (col.0 - st.1) as nat) } else { st.0 };
    let c1 = if st.1 < col.0 { col.0 } else { st.1 };
    match cell.content {
        CellContentModel::Spans(spans) => {
            let t = if 0 <= row < ls.len() { ls[row] } else { seq![] };
            let off = align_offset_spec(col.1, t.len() as int, cell.align);
            let b2 = b1 + repeat_byte(0x20u8, off as nat);
            let c2 = c1 + off;
            if row == 0 {
                let avail = if col.1 > off { col.1 - off } else { 0 };
                let fr = first_row_spans(spans, min_int(avail, t.len() as int));
                (b2 + fr.0, c2 + fr.1)
            } else {
                (b2 + encode_utf8(t), c2 + t.len())
            }
        },
        CellContentModel::Divider(style) => if last {
            (b1 + repeat_byte(divider_char_spec(style) as u8, col.1 as nat), c1 + col.1)
        } else {
            (b1, c1)
        },
    }
}

/// One output row from the first `k` cells.
pub open spec fn esc_row(cells: Seq<CellModel>, cols: Seq<(int, int)>, cl: Seq<Seq<Seq<char>>>, row: int, last: bool, k: int) -> (Seq<u8>, int)
    decreases k,
{
    if k <= 0 {
        (seq![], 0)
    } else {
        esc_cell_piece(esc_row(cells, cols, cl, row, last, k - 1), cells[k - 1], cols[k - 1], cl[k - 1], row, last)
    }
}

/// The first `r` rows of a column row of `m` rows, each with a line feed.
pub open spec fn esc_rows(cells: Seq<CellModel>, cols: Seq<(int, int)>, cl: Seq<Seq<Seq<char>>>, m: int, r: int) -> Seq<u8>
    decreases r,
{
    if r <= 0 {
        seq![]
    } else {
        let k = min_int(cells.len() as int, cols.len() as int);
        esc_rows(cells, cols, cl, m, r - 1) + esc_row(cells, cols, cl, r - 1, r - 1 == m - 1, k).0 + seq![LF]
    }
}

/// The bytes of a column row.
pub open spec fn esc_columns_out(cells: Seq<CellModel>, size: Size, base: int, pre: Option<Seq<(int, int)>>) -> Seq<u8> {
    let cols = esc_cols(cells, size, base, pre);
    let cl = cell_lines_spec(cells, cols);
    let m = max_lines(cl);
    size_on(size) + esc_rows(cells, cols, cl, m, m) + size_off(size)
}

/// Dimensions that fit an image within a width and an optional height,
/// keeping its aspect ratio; with no height it is never enlarged; each at
/// least 1.
pub open spec fn fit_dims(nw: int, nh: int, mw: int, mh: Option<int>) -> (int, int) {
    let (w, h) = match mh {
        Some(hh) => if mw * nh <= hh * nw { (mw, nh * mw / nw) } else { (nw * hh / nh, hh) },
        None => if mw < nw { (mw, nh * mw / nw) } else { (nw, nh) },
    };
    (if w < 1 { 1 } else { w }, if h < 1 { 1 } else { h })
}

/// A `sw` by `sh` image scaled to `dw` by `dh` by nearest-neighbor sampling.
pub open spec fn scaled_seq(src: Seq<u8>, sw: int, sh: int, dw: int, dh: int) -> Seq<u8> {
    Seq::new((dw * dh) as nat, |i: int| src[nn_src(i / dw, sh, dh) * sw + nn_src(i % dw, sw, dw)])
}

/// The packed 1-bit rows of a `w` by `h` image.
pub open spec fn packed_seq(px: Seq<u8>, w: int, h: int, thr: u8) -> Seq<u8> {
    let rb = (w + 7) / 8;
    Seq::new((rb * h) as nat, |i: int| packed_byte(px, w, i / rb, i % rb, thr) as u8)
}

/// The justification command before a block with an alignment.
pub open spec fn justify_on(align: Option<Align>) -> Seq<u8> {
    match align {
        Some(Align::Left) => seq![ESC, 0x61u8, 0u8],
        Some(Align::Center) => seq![ESC, 0x61u8, 1u8],
        Some(Align::Right) => seq![ESC, 0x61u8, 2u8],
        None => seq![],
    }
}

/// The justification reset after a centered or right-aligned block.
pub open spec fn justify_off(align: Option<Align>) -> Seq<u8> {
    match align {
        Some(Align::Center) | Some(Align::Right) => seq![ESC, 0x61u8, 0u8],
        _ => seq![],
    }
}

/// The size an image is printed at: fit within the given width (capped at
/// the printable width; the printable width when none) and height.
pub open spec fn esc_image_dims(img: ImageData, width: Option<Decimal>, height: Option<Decimal>, dpi: int, max_dots: int) -> (int, int) {
    let mw = match width {
        Some(w) => min_int(pt_to_px_spec(w.milli as int, dpi), max_dots),
        None => max_dots,
    };
    let mh = match height {
        Some(h) => Some(pt_to_px_spec(h.milli as int, dpi)),
        None => None,
    };
    fit_dims(img.width as int, img.height as int, mw, mh)
}

/// The bytes of an image: aligned, scaled, thresholded and packed raster.
pub open spec fn esc_image_out(img: ImageData, width: Option<Decimal>, height: Option<Decimal>, align: Option<Align>, dpi: int, max_dots: int, thr: u8) -> Seq<u8> {
    let (sw, sh) = esc_image_dims(img, width, height, dpi, max_dots);
    let scaled = scaled_seq(img.pixels@, img.width as int, img.height as int, sw, sh);
    justify_on(align) + raster_header(padded_width(sw as u32) as u32, sh as u32) + packed_seq(scaled, sw, sh, thr) + justify_off(align)
}

/// The QR module size for an optional size in points: a thirtieth of it,
/// rounded, within 1..=8; 6 by default.
pub open spec fn qr_module_for(size: Option<Decimal>) -> u8 {
    match size {
        Some(s) => {
            let r = (2 * (s.milli as int) + 30000) / 60000;
            if r < 1 { 1 } else if r > 8 { 8 } else { r as u8 }
        },
        None => 6,
    }
}

/// Round `num / den` (halves up), capped at 255.
pub open spec fn round_u8(num: int, den: int) -> u8 {
    let r = (2 * num + den) / (2 * den);
    if r > 255 { 255 } else { r as u8 }
}

/// The bytes of a feed: whole lines up to 255 as a line feed count,
/// anything else as dots (a line is 30 dots at 203 DPI), at most 255.
pub open spec fn esc_feed_out(amount: Decimal, unit: FeedUnit, dpi: int) -> Seq<u8> {
    let m = amount.milli as int;
    match unit {
        FeedUnit::Lines => if m % 1000 == 0 && m <= 255000 {
            seq![ESC, 0x64u8, (m / 1000) as u8]
        } else {
            let line_dots = (60 * dpi + 203) / 406;
            seq![ESC, 0x4Au8, round_u8(m * line_dots, 1000)]
        },
        FeedUnit::Mm => seq![ESC, 0x4Au8, round_u8(m * dpi, 25400)],
    }
}

/// The bytes of one node.
pub open spec fn esc_node_out(n: NodeModel, res: RenderResources, base: int, max_dots: int, dpi: int, thr: u8, pre: Option<Seq<(int, int)>>) -> Seq<u8> {
    match n {
        NodeModel::Text { spans, size } => esc_text_out(spans, size, base),
        NodeModel::Columns { cells, size } => esc_columns_out(cells, size, base, pre),
        NodeModel::Line { style } => repeat_byte(divider_char_spec(style) as u8, base as nat) + seq![LF],
        NodeModel::Blank => seq![LF],
        NodeModel::Image { url, width, height, align, .. } => match res.image_at(url) {
            Some(img) => esc_image_out(img, width, height, align, dpi, max_dots, thr),
            None => seq![],
        },
        NodeModel::Qr { data, size, align } => justify_on(align) + qr_command(encode_utf8(data), qr_module_for(size)) + justify_off(align),
        NodeModel::Barcode { format, data } => seq![ESC, 0x61u8, 1u8] + (match barcode_type(uppercase(format)) {
            Some(t) => barcode_command(t, barcode_payload(t, encode_utf8(data))),
            None => seq![],
        }) + seq![ESC, 0x61u8, 0u8],
        NodeModel::Feed { amount, unit } => esc_feed_out(amount, unit, dpi),
        NodeModel::Cut { partial } => seq![GS, 0x56u8, cut_mode(partial), 0u8],
        NodeModel::Drawer => seq![ESC, 0x70u8, 0x00u8, 0x19u8, 0xFFu8],
        _ => seq![],
    }
}

/// The bytes of the nodes, node `i` laid out with `cache[i]`.
pub open spec fn esc_out(ns: Seq<NodeModel>, res: RenderResources, base: int, max_dots: int, dpi: int, thr: u8, cache: Seq<Option<Seq<(int, int)>>>) -> Seq<u8>
    decreases ns.len(),
{
    if ns.len() == 0 {
        seq![]
    } else {
        esc_out(ns.drop_last(), res, base, max_dots, dpi, thr, cache) + esc_node_out(ns.last(), res, base, max_dots, dpi, thr, cache[ns.len() - 1])
    }
}

/// The ESC/POS bytes of a document: initialize, then each node at the
/// line width of the configured paper and DPI.
pub open spec fn render_escpos_spec(ns: Seq<NodeModel>, res: RenderResources) -> Seq<u8> {
    let (paper, dpi, thr) = printer_config_spec(ns);
    let dots = printable_width_spec(paper, dpi);
    let base = esc_chars_per_line(dots);
    seq![ESC, 0x40u8] + esc_out(ns, res, base, dots, dpi, thr as u8, cache_spec(ns, groups_spec(ns), milli_chars(base), 2000, 1000))
}

/// Every image a document prints can be printed (see [`esc_image_ok`]).
pub open spec fn esc_images_ok(ns: Seq<NodeModel>, res: RenderResources) -> bool {
    let (paper, dpi, thr) = printer_config_spec(ns);
    let dots = printable_width_spec(paper, dpi);
    forall|i: int| 0 <= i < ns.len() ==> match #[trigger] ns[i] {
        NodeModel::Image { url, width, height, .. } => match res.image_at(url) {
            Some(img) => esc_image_ok(img, width, height, dpi, dots),
            None => true,
        },
        _ => true,
    }
}

fn push_utf8(buf: &mut Vec<u8>, cs: &[char])
    ensures
        final(buf)@ == old(buf)@ + encode_utf8(cs@),
{
    let st = string_of(cs, 0, cs.len());
    assert(cs@.subrange(0, cs@.len() as int) == cs@);
    let b = st.as_str().as_bytes();
    push_bytes(buf, b);
}

fn push_repeat_byte(buf: &mut Vec<u8>, b: u8, n: usize)
    ensures
        final(buf)@ == old(buf)@ + repeat_byte(b, n as nat),
{
    let ghost start = buf@;
    let mut j: usize = 0;
    while j < n
        invariant
            j <= n,
            buf@ == start + repeat_byte(b, j as nat),
        decreases n - j,
    {
        buf.push(b);
        j = j + 1;
        assert(repeat_byte(b, j as nat) == repeat_byte(b, (j - 1) as nat).push(b));
    }
}

fn set_span_style(buf: &mut Vec<u8>, style: SpanStyle, on: bool)
    ensures
        final(buf)@ == old(buf)@ + style_bytes(style, on),
{
    match style {
        SpanStyle::Bold => bold(buf, on),
        SpanStyle::Underline => underline(buf, on),
        SpanStyle::Italic => italic(buf, on),
        _ => {
            assert(style_bytes(style, on) == Seq::<u8>::empty());
        },
    }
}

fn emit_spans(buf: &mut Vec<u8>, spans: &Vec<Span>)
    ensures
        final(buf)@ == old(buf)@ + spans_bytes(spans_model(spans@)),
{
    let ghost sm = spans_model(spans@);
    let ghost start = buf@;
    let mut i: usize = 0;
    while i < spans.len()
        invariant
            sm == spans_model(spans@),
            i <= spans@.len(),
            buf@ == start + spans_bytes(sm.take(i as int)),
        decreases spans@.len() - i,
    {
        assert(sm.take(i + 1).drop_last() == sm.take(i as int));
        assert(sm.take(i + 1).last() == spans@[i as int]@);
        set_span_style(buf, spans[i].style, true);
        push_bytes(buf, spans[i].text.as_str().as_bytes());
        set_span_style(buf, spans[i].style, false);
        i = i + 1;
    }
    assert(sm.take(i as int) == sm);
}

fn mult_exec(s: Size) -> (r: (u8, u8))
    ensures
        r == size_mult(s),
{
    match s {
        Size::Text => (1, 1),
        Size::TextM => (2, 1),
        Size::TextL => (2, 2),
        Size::Title => (2, 2),
        Size::TitleM => (3, 3),
        Size::TitleL => (4, 4),
    }
}

fn esc_text_exec(buf: &mut Vec<u8>, spans: &Vec<Span>, size: Size, base: usize)
    requires
        base >= 10,
    ensures
        final(buf)@ == old(buf)@ + esc_text_out(spans_model(spans@), size, base as int),
{
    let ghost start = buf@;
    let (wm, hm) = mult_exec(size);
    let ew: usize = base / wm as usize;
    assert(1 <= wm <= 4);
    assert(ew >= 2) by (nonlinear_arith)
        requires
            ew == base / (wm as usize),
            base >= 10,
            1 <= wm <= 4,
    ;
    let title = match size {
        Size::Title | Size::TitleM | Size::TitleL => true,
        _ => false,
    };
    assert(title == esc_is_title(size));
    if wm > 1 || hm > 1 {
        char_size(buf, wm, hm);
    }
    if title {
        justify(buf, 1);
    }
    let ghost mid = buf@;
    let t = spans_chars(spans.as_slice());
    let ls = word_wrap_chars(t.as_slice(), ew);
    let ghost lsm = lines_model(ls@);
    let mut i: usize = 0;
    while i < ls.len()
        invariant
            i <= ls@.len(),
            lsm == lines_model(ls@),
            buf@ == mid + lines_bytes(spans_model(spans@), t@, lsm.take(i as int)),
        decreases ls@.len() - i,
    {
        assert(lsm.take(i + 1).drop_last() == lsm.take(i as int));
        assert(lsm.take(i + 1).last() == ls@[i as int]@);
        if chars_eq(t.as_slice(), ls[i].as_slice()) {
            emit_spans(buf, spans);
        } else {
            push_utf8(buf, ls[i].as_slice());
        }
        linefeed(buf);
        i = i + 1;
    }
    assert(lsm.take(i as int) == lsm);
    if title {
        justify(buf, 0);
    }
    if wm > 1 || hm > 1 {
        char_size(buf, 1, 1);
    }
}

fn emit_first_row(buf: &mut Vec<u8>, spans: &Vec<Span>, remaining: usize) -> (count: usize)
    ensures
        final(buf)@ == old(buf)@ + first_row_spans(spans_model(spans@), remaining as int).0,
        count == first_row_spans(spans_model(spans@), remaining as int).1,
        count <= remaining,
{
    let ghost sm = spans_model(spans@);
    let ghost total = first_row_spans(sm, remaining as int);
    let ghost start = buf@;
    let mut rem: usize = remaining;
    let mut count: usize = 0;
    let mut i: usize = 0;
    let ghost mut done: Seq<u8> = seq![];
    proof {
        assert(sm.skip(0) == sm);
        assert(done + total.0 == total.0);
    }
    while i < spans.len() && rem > 0
        invariant
            sm == spans_model(spans@),
            i <= spans@.len(),
            count + rem == remaining,
            total == first_row_spans(sm, remaining as int),
            buf@ == start + done,
            done + first_row_spans(sm.skip(i as int), rem as int).0 == total.0,
            count + first_row_spans(sm.skip(i as int), rem as int).1 == total.1,
        decreases spans@.len() - i,
    {
        let ghost rest = sm.skip(i as int);
        proof {
            assert(rest[0] == spans@[i as int]@);
            assert(rest.drop_first() == sm.skip(i + 1));
        }
        let cs = chars_of(spans[i].text.as_str());
        let n: usize = if cs.len() <= rem { cs.len() } else { rem };
        let piece = slice_vec(cs.as_slice(), 0, n);
        assert(piece@ == cs@.take(n as int));
        let ghost before = buf@;
        set_span_style(buf, spans[i].style, true);
        push_utf8(buf, piece.as_slice());
        set_span_style(buf, spans[i].style, false);
        proof {
            let add = style_bytes(spans@[i as int].style, true) + encode_utf8(cs@.take(n as int)) + style_bytes(spans@[i as int].style, false);
            assert(buf@ == start + (done + add));
            assert((done + add) + first_row_spans(sm.skip(i + 1), (rem - n) as int).0 == total.0);
            done = done + add;
        }
        rem = rem - n;
        count = count + n;
        i = i + 1;
    }
    proof {
        assert(first_row_spans(sm.skip(i as int), rem as int).0 == Seq::<u8>::empty());
        assert(done + Seq::<u8>::empty() == done);
    }
    count
}

/// The cursor bound: past every column position, so a row's cursor is
/// tracked only up to it.
pub open spec fn cursor_cap() -> int {
    0x1_0000_0000_0000_0000
}

proof fn lemma_first_row_nonneg(spans: Seq<SpanModel>, remaining: int)
    ensures
        first_row_spans(spans, remaining).1 >= 0,
    decreases spans.len(),
{
    if spans.len() > 0 && remaining > 0 {
        let n = min_int(spans[0].text.len() as int, remaining);
        lemma_first_row_nonneg(spans.drop_first(), remaining - n);
    }
}

/// A cursor capped at `cursor_cap()` gives the same bytes as the true one,
/// and the same capped cursor after the cell.
proof fn lemma_piece_cap(st: (Seq<u8>, int), cell: CellModel, col: (int, int), ls: Seq<Seq<char>>, row: int, last: bool)
    requires
        st.1 >= 0,
        0 <= col.0 < cursor_cap(),
        col.1 >= 0,
    ensures
        esc_cell_piece((st.0, imin(st.1, cursor_cap())), cell, col, ls, row, last).0 == esc_cell_piece(st, cell, col, ls, row, last).0,
        imin(esc_cell_piece((st.0, imin(st.1, cursor_cap())), cell, col, ls, row, last).1, cursor_cap()) == imin(esc_cell_piece(st, cell, col, ls, row, last).1, cursor_cap()),
        esc_cell_piece(st, cell, col, ls, row, last).1 >= st.1,
{
    match cell.content {
        CellContentModel::Spans(spans) => {
            let t = if 0 <= row < ls.len() { ls[row] } else { seq![] };
            let off = align_offset_spec(col.1, t.len() as int, cell.align);
            let avail = if col.1 > off { col.1 - off } else { 0 };
            lemma_first_row_nonneg(spans, min_int(avail, t.len() as int));
        },
        _ => {},
    }
}

/// Spaces from the cursor up to column `x`; the cursor after them.
fn pad_to_column(buf: &mut Vec<u8>, cursor: u128, x: usize) -> (cur: u128)
    ensures
        cursor < x ==> final(buf)@ == old(buf)@ + (seq![] + repeat_byte(0x20u8, (x - cursor) as nat)) && cur == x,
        cursor >= x ==> final(buf)@ == old(buf)@ && cur == cursor,
{
    let ghost start = buf@;
    let ghost c0 = cursor;
    let mut cur = cursor;
    while cur < x as u128
        invariant
            c0 >= x ==> cur == c0,
            c0 < x ==> c0 <= cur <= x,
            buf@ == start + repeat_byte(0x20u8, (cur - c0) as nat),
        decreases x - cur,
    {
        buf.push(0x20);
        assert(repeat_byte(0x20u8, (cur + 1 - c0) as nat) == repeat_byte(0x20u8, (cur - c0) as nat).push(0x20u8));
        cur = cur + 1;
    }
    assert(seq![] + repeat_byte(0x20u8, (cur - c0) as nat) == repeat_byte(0x20u8, (cur - c0) as nat));
    proof {
        if c0 >= x {
            assert(repeat_byte(0x20u8, 0) =~= Seq::<u8>::empty());
            assert(buf@ =~= start);
        }
    }
    cur
}

fn esc_cell_exec(buf: &mut Vec<u8>, cell: &Cell, col: (usize, usize), ls: &Vec<Vec<char>>, row: usize, last: bool, cursor: u128) -> (c: u128)
    requires
        cursor <= cursor_cap(),
    ensures
        final(buf)@ == old(buf)@ + esc_cell_piece((seq![], cursor as int), cell@, (col.0 as int, col.1 as int), lines_model(ls@), row as int, last).0,
        c == imin(esc_cell_piece((seq![], cursor as int), cell@, (col.0 as int, col.1 as int), lines_model(ls@), row as int, last).1, cursor_cap()),
{
    let (x, w) = col;
    let mut cur = pad_to_column(buf, cursor, x);
    match &cell.content {
        CellContent::Spans(spans) => {
            let empty: Vec<char> = Vec::new();
            let t: &Vec<char> = if row < ls.len() { &ls[row] } else { &empty };
            assert(t@ == if 0 <= row < lines_model(ls@).len() { lines_model(ls@)[row as int] } else { seq![] });
            let off = align_offset(w, t.len(), cell.align);
            push_repeat_byte(buf, 0x20, off);
            cur = cur + off as u128;
            if row == 0 {
                let avail: usize = if w > off { w - off } else { 0 };
                let rem: usize = if avail <= t.len() { avail } else { t.len() };
                let count = emit_first_row(buf, spans, rem);
                cur = cur + count as u128;
            } else {
                push_utf8(buf, t.as_slice());
                cur = cur + t.len() as u128;
            }
        },
        CellContent::Divider(style) => {
            if last {
                let ch = divider_char(*style);
                push_repeat_byte(buf, ch as u8, w);
                cur = cur + w as u128;
            }
        },
    }
    assert(cur == esc_cell_piece((seq![], cursor as int), cell@, (col.0 as int, col.1 as int), lines_model(ls@), row as int, last).1);
    if cur > 0x1_0000_0000_0000_0000 {
        0x1_0000_0000_0000_0000
    } else {
        cur
    }
}

proof fn lemma_piece_shift(st: (Seq<u8>, int), cell: CellModel, col: (int, int), ls: Seq<Seq<char>>, row: int, last: bool)
    ensures
        esc_cell_piece(st, cell, col, ls, row, last).0 == st.0 + esc_cell_piece((seq![], st.1), cell, col, ls, row, last).0,
        esc_cell_piece(st, cell, col, ls, row, last).1 == esc_cell_piece((seq![], st.1), cell, col, ls, row, last).1,
{
    let e: Seq<u8> = seq![];
    assert(st.0 + (e + repeat_byte(0x20u8, (col.0 - st.1) as nat)) == st.0 + repeat_byte(0x20u8, (col.0 - st.1) as nat));
    assert(st.0 + e == st.0);
    match cell.content {
        CellContentModel::Spans(spans) => {
            let t = if 0 <= row < ls.len() { ls[row] } else { seq![] };
            let off = align_offset_spec(col.1, t.len() as int, cell.align);
            let b1 = if st.1 < col.0 { e + repeat_byte(0x20u8, (col.0 - st.1) as nat) } else { e };
            let avail = if col.1 > off { col.1 - off } else { 0 };
            let fr = first_row_spans(spans, min_int(avail, t.len() as int));
            assert(st.0 + (b1 + repeat_byte(0x20u8, off as nat) + fr.0) == (st.0 + b1) + repeat_byte(0x20u8, off as nat) + fr.0);
            assert(st.0 + (b1 + repeat_byte(0x20u8, off as nat) + encode_utf8(t)) == (st.0 + b1) + repeat_byte(0x20u8, off as nat) + encode_utf8(t));
        },
        CellContentModel::Divider(style) => {
            let b1 = if st.1 < col.0 { e + repeat_byte(0x20u8, (col.0 - st.1) as nat) } else { e };
            assert(st.0 + (b1 + repeat_byte(divider_char_spec(style) as u8, col.1 as nat)) == (st.0 + b1) + repeat_byte(divider_char_spec(style) as u8, col.1 as nat));
        },
    }
}

fn esc_row_exec(buf: &mut Vec<u8>, cells: &Vec<Cell>, cols: &Vec<(usize, usize)>, cl: &Vec<Vec<Vec<char>>>, row: usize, last: bool)
    requires
        cl@.len() == cells@.len(),
    ensures
        final(buf)@ == old(buf)@ + esc_row(
            cells_model(cells@),
            upairs(cols@),
            cells_lines_model(cl@),
            row as int,
            last,
            min_int(cells@.len() as int, cols@.len() as int),
        ).0,
{
    let ghost cm = cells_model(cells@);
    let ghost cp = upairs(cols@);
    let ghost clm = cells_lines_model(cl@);
    let ghost start = buf@;
    let mut cursor: u128 = 0;
    let mut i: usize = 0;
    while i < cells.len() && i < cols.len()
        invariant
            cm == cells_model(cells@),
            cp == upairs(cols@),
            clm == cells_lines_model(cl@),
            cl@.len() == cells@.len(),
            i <= cells@.len(),
            i <= cols@.len(),
            buf@ == start + esc_row(cm, cp, clm, row as int, last, i as int).0,
            esc_row(cm, cp, clm, row as int, last, i as int).1 >= 0,
            cursor == imin(esc_row(cm, cp, clm, row as int, last, i as int).1, cursor_cap()),
        decreases cells@.len() - i,
    {
        let ghost st = esc_row(cm, cp, clm, row as int, last, i as int);
        proof {
            lemma_piece_cap(st, cm[i as int], cp[i as int], clm[i as int], row as int, last);
            lemma_piece_shift(st, cm[i as int], cp[i as int], clm[i as int], row as int, last);
            lemma_piece_shift((st.0, cursor as int), cm[i as int], cp[i as int], clm[i as int], row as int, last);
            assert(cm[i as int] == cells@[i as int]@);
            assert(cp[i as int] == (cols@[i as int].0 as int, cols@[i as int].1 as int));
            assert(clm[i as int] == lines_model(cl@[i as int]@));
        }
        cursor = esc_cell_exec(buf, &cells[i], cols[i], &cl[i], row, last, cursor);
        i = i + 1;
    }
}

fn enlarged_cols(cells: &Vec<Cell>, ew: usize) -> (r: Vec<(u128, u128)>)
    ensures
        pairs(r@) == layout_spec(
            Seq::new(cells@.len(), |i: int| cells_model(cells@)[i].width_pct),
            natural_milli(cells_model(cells@)),
            milli_chars(ew as int),
            2000,
            1000,
        ),
        forall|k: int| 0 <= k < r@.len() ==> (#[trigger] r@[k]).1 >= 1000,
{
    let ghost cm = cells_model(cells@);
    let mut pcts: Vec<Option<u32>> = Vec::new();
    let mut nats: Vec<u64> = Vec::new();
    let mut i: usize = 0;
    while i < cells.len()
        invariant
            cm == cells_model(cells@),
            i <= cells@.len(),
            pcts@.len() == i,
            nats@.len() == i,
            forall|k: int| 0 <= k < i ==> #[trigger] pcts@[k] == cm[k].width_pct,
            forall|k: int| 0 <= k < i ==> #[trigger] nats@[k] == natural_milli(cm)[k],
        decreases cells@.len() - i,
    {
        pcts.push(cells[i].width_pct);
        let n: u64 = match &cells[i].content {
            CellContent::Spans(spans) => {
                let t = spans_chars(spans.as_slice());
                assert(cm[i as int].content == CellContentModel::Spans(spans_model(spans@)));
                milli_chars_exec(t.len() as u64)
            },
            CellContent::Divider(_) => 0,
        };
        nats.push(n);
        i = i + 1;
    }
    let pp = pcts;
    assert(pp@ == Seq::new(cm.len(), |k: int| cm[k].width_pct));
    assert(nats@ == natural_milli(cm));
    let r = column_widths(pp.as_slice(), nats.as_slice(), milli_chars_exec(ew as u64), 2000, 1000);
    proof {
        let w = crate::columns::widths_spec(pp@, nats@, milli_chars(ew as int), 2000, 1000);
        law_min_col(pp@, nats@, milli_chars(ew as int), 2000, 1000);
        assert(pairs(r@).len() == r@.len());
        assert forall|k: int| 0 <= k < r@.len() implies (#[trigger] r@[k]).1 >= 1000 by {
            assert(pairs(r@)[k].1 == r@[k].1);
            assert(layout_spec(pp@, nats@, milli_chars(ew as int), 2000, 1000)[k].1 == w[k]);
        }
    }
    r
}

fn esc_columns_exec(buf: &mut Vec<u8>, cells: &Vec<Cell>, size: Size, base: usize, pre: &Option<Vec<(u128, u128)>>)
    requires
        base >= 10,
        pre_ok(*pre),
    ensures
        final(buf)@ == old(buf)@ + esc_columns_out(cells_model(cells@), size, base as int, pre_model(*pre)),
{
    let ghost cm = cells_model(cells@);
    let ghost start = buf@;
    let (wm, hm) = mult_exec(size);
    let ew: usize = base / wm as usize;
    assert(1 <= wm <= 4);
    assert(ew <= base) by (nonlinear_arith)
        requires
            ew == base / (wm as usize),
            1 <= wm,
    ;
    if wm > 1 || hm > 1 {
        char_size(buf, wm, hm);
    }
    let ghost mid = buf@;
    let raw: Vec<(u128, u128)> = if wm > 1 {
        enlarged_cols(cells, ew)
    } else {
        match pre {
            Some(p) => {
                let mut r: Vec<(u128, u128)> = Vec::new();
                let mut i: usize = 0;
                while i < p.len()
                    invariant
                        i <= p@.len(),
                        r@ == p@.take(i as int),
                    decreases p@.len() - i,
                {
                    r.push(p[i]);
                    i = i + 1;
                }
                assert(r@ == p@);
                r
            },
            None => {
                let r = fallback_cols(cells, ew);
                proof {
                    let pp = Seq::new(cm.len(), |i: int| cm[i].width_pct);
                    let zz = Seq::new(cm.len(), |i: int| 0u64);
                    law_min_col(pp, zz, milli_chars(ew as int), 2000, 1000);
                    let w = crate::columns::widths_spec(pp, zz, milli_chars(ew as int), 2000, 1000);
                    assert(pairs(r@).len() == r@.len());
                    assert forall|k: int| 0 <= k < r@.len() implies (#[trigger] r@[k]).1 >= 1000 by {
                        assert(pairs(r@)[k].1 == r@[k].1);
                        assert(fallback_layout(cm, ew as int)[k].1 == w[k]);
                    }
                }
                r
            },
        }
    };
    assert(forall|k: int| 0 <= k < raw@.len() ==> (#[trigger] raw@[k]).1 >= 1000);
    let cols = round_all(&raw);
    assert(upairs(cols@).len() == cols@.len());
    assert(pairs(raw@).len() == raw@.len());
    assert forall|k: int| 0 <= k < cols@.len() implies (#[trigger] cols@[k]).1 > 0 by {
        assert(upairs(cols@)[k].1 == cols@[k].1);
        assert(rounded_cols(pairs(raw@))[k].1 == crate::text_render::round_units(raw@[k].1 as int));
    }
    let ghost cp = upairs(cols@);
    assert(cp == esc_cols(cm, size, base as int, pre_model(*pre)));
    let (cl, m) = wrap_cells(cells, &cols);
    let ghost clm = cells_lines_model(cl@);
    let mut row: usize = 0;
    while row < m
        invariant
            cm == cells_model(cells@),
            cp == upairs(cols@),
            clm == cells_lines_model(cl@),
            cl@.len() == cells@.len(),
            row <= m,
            m == max_lines(clm),
            buf@ == mid + esc_rows(cm, cp, clm, m as int, row as int),
        decreases m - row,
    {
        esc_row_exec(buf, cells, &cols, &cl, row, row + 1 == m);
        linefeed(buf);
        row = row + 1;
    }
    if wm > 1 || hm > 1 {
        char_size(buf, 1, 1);
    }
}

proof fn lemma_index_split(i: int, w: int, h: int)
    requires
        w > 0,
        0 <= i < w * h,
    ensures
        0 <= i / w < h,
        0 <= i % w < w,
        i == (i / w) * w + i % w,
{
    vstd::arithmetic::div_mod::lemma_fundamental_div_mod(i, w);
    assert(0 <= i % w < w) by (nonlinear_arith)
        requires
            w > 0,
    ;
    assert(0 <= i / w < h) by (nonlinear_arith)
        requires
            w > 0,
            0 <= i < w * h,
            i == w * (i / w) + i % w,
            0 <= i % w < w,
    ;
    assert(w * (i / w) == (i / w) * w) by (nonlinear_arith);
}

pub(crate) proof fn lemma_scaled_unique(out: Seq<u8>, src: Seq<u8>, sw: int, sh: int, dw: int, dh: int)
    requires
        is_scaled_nn(out, src, sw, sh, dw, dh),
        dw > 0,
        dh >= 0,
    ensures
        out == scaled_seq(src, sw, sh, dw, dh),
{
    let t = scaled_seq(src, sw, sh, dw, dh);
    assert forall|i: int| 0 <= i < out.len() implies out[i] == t[i] by {
        lemma_index_split(i, dw, dh);
        let dx = i % dw;
        let dy = i / dw;
        assert(out[dy * dw + dx] == src[nn_src(dy, sh, dh) * sw + nn_src(dx, sw, dw)]);
    }
    assert(out == t);
}

pub(crate) proof fn lemma_packed_unique(out: Seq<u8>, px: Seq<u8>, w: int, h: int, thr: u8)
    requires
        is_packed(out, px, w, h, thr),
        w > 0,
        h >= 0,
    ensures
        out == packed_seq(px, w, h, thr),
{
    let rb = (w + 7) / 8;
    let t = packed_seq(px, w, h, thr);
    assert(rb > 0);
    assert forall|i: int| 0 <= i < out.len() implies out[i] == t[i] by {
        lemma_index_split(i, rb, h);
        let b = i % rb;
        let y = i / rb;
        assert(out[y * rb + b] == packed_byte(px, w, y, b, thr));
    }
    assert(out == t);
}

pub(crate) fn scale_dims(nat_w: u32, nat_h: u32, max_w: u32, max_h: Option<u32>) -> (r: (u32, u32))
    requires
        nat_w > 0,
        nat_h > 0,
    ensures
        (r.0 as int, r.1 as int) == fit_dims(nat_w as int, nat_h as int, max_w as int, match max_h {
            Some(h) => Some(h as int),
            None => None,
        }),
{
    let nw = nat_w as u64;
    let nh = nat_h as u64;
    let mw = max_w as u64;
    proof {
        lemma_mul_u32(mw as int, nh as int);
    }
    let (w, h): (u64, u64) = match max_h {
        Some(hh) => {
            let hh = hh as u64;
            proof {
                lemma_mul_u32(hh as int, nw as int);
                lemma_mul_u32(nw as int, hh as int);
                lemma_mul_u32(nh as int, mw as int);
            }
            if mw * nh <= hh * nw {
                proof {
                    assert((nh * mw) / (nw as int) <= hh) by (nonlinear_arith)
                        requires
                            mw * nh <= hh * nw,
                            nw > 0,
                    ;
                }
                (mw, nh * mw / nw)
            } else {
                proof {
                    assert((nw * hh) / (nh as int) <= mw) by (nonlinear_arith)
                        requires
                            mw * nh > hh * nw,
                            nh > 0,
                    ;
                }
                (nw * hh / nh, hh)
            }
        },
        None => {
            if mw < nw {
                proof {
                    lemma_mul_u32(nh as int, mw as int);
                    assert((nh * mw) / (nw as int) <= nh) by (nonlinear_arith)
                        requires
                            mw < nw,
                            nw > 0,
                    ;
                }
                (mw, nh * mw / nw)
            } else {
                (nw, nh)
            }
        },
    };
    let w1: u64 = if w < 1 { 1 } else { w };
    let h1: u64 = if h < 1 { 1 } else { h };
    (w1 as u32, h1 as u32)
}

proof fn lemma_mul_u32(a: int, b: int)
    requires
        0 <= a <= u32::MAX,
        0 <= b <= u32::MAX,
    ensures
        0 <= a * b <= u32::MAX * u32::MAX,
{
    assert(0 <= a * b <= u32::MAX * u32::MAX) by (nonlinear_arith)
        requires
            0 <= a <= u32::MAX,
            0 <= b <= u32::MAX,
    ;
}

fn justify_on_exec(buf: &mut Vec<u8>, align: Option<Align>)
    ensures
        final(buf)@ == old(buf)@ + justify_on(align),
{
    match align {
        Some(Align::Left) => justify(buf, 0),
        Some(Align::Center) => justify(buf, 1),
        Some(Align::Right) => justify(buf, 2),
        None => {
            assert(justify_on(align) == Seq::<u8>::empty());
        },
    }
}

fn justify_off_exec(buf: &mut Vec<u8>, align: Option<Align>)
    ensures
        final(buf)@ == old(buf)@ + justify_off(align),
{
    match align {
        Some(Align::Center) | Some(Align::Right) => justify(buf, 0),
        _ => {
            assert(justify_off(align) == Seq::<u8>::empty());
        },
    }
}

/// The conditions under which an image can be printed: well formed, not
/// empty, and its printed size addressable with 32-bit sizes.
pub open spec fn esc_image_ok(img: ImageData, width: Option<Decimal>, height: Option<Decimal>, dpi: int, max_dots: int) -> bool {
    let d = esc_image_dims(img, width, height, dpi, max_dots);
    &&& img.wf()
    &&& img.width > 0
    &&& img.height > 0
    &&& d.0 * d.1 <= u32::MAX
    &&& d.0 <= u32::MAX - 7
}

fn esc_image_exec(buf: &mut Vec<u8>, img: &ImageData, width: Option<Decimal>, height: Option<Decimal>, align: Option<Align>, dpi: u32, max_dots: u32, thr: u8)
    requires
        esc_image_ok(*img, width, height, dpi as int, max_dots as int),
    ensures
        final(buf)@ == old(buf)@ + esc_image_out(*img, width, height, align, dpi as int, max_dots as int, thr),
{
    let mw: u32 = match width {
        Some(w) => {
            let p = pt_to_px(w, dpi);
            if p <= max_dots { p } else { max_dots }
        },
        None => max_dots,
    };
    let mh: Option<u32> = match height {
        Some(h) => Some(pt_to_px(h, dpi)),
        None => None,
    };
    let (sw, sh) = scale_dims(img.width, img.height, mw, mh);
    assert((sw as int, sh as int) == esc_image_dims(*img, width, height, dpi as int, max_dots as int));
    let scaled = scale_nn(img.pixels.as_slice(), img.width, img.height, sw, sh);
    proof {
        lemma_scaled_unique(scaled@, img.pixels@, img.width as int, img.height as int, sw as int, sh as int);
    }
    let (rw, rh, data) = to_raster(scaled.as_slice(), sw, sh, thr);
    proof {
        lemma_packed_unique(data@, scaled@, sw as int, sh as int, thr);
    }
    justify_on_exec(buf, align);
    raster_image(buf, rw, rh, data.as_slice());
    justify_off_exec(buf, align);
}

fn qr_module_exec(size: Option<Decimal>) -> (m: u8)
    ensures
        m == qr_module_for(size),
{
    match size {
        Some(sz) => {
            let r: u128 = (2 * sz.milli as u128 + 30000) / 60000;
            if r < 1 { 1 } else if r > 8 { 8 } else { r as u8 }
        },
        None => 6,
    }
}

fn round_u8_exec(num: u128, den: u128) -> (r: u8)
    requires
        0 < den <= 0x1_0000_0000,
        num <= 0x1_0000_0000_0000_0000_0000_0000_0000,
    ensures
        r == round_u8(num as int, den as int),
{
    let q: u128 = (2 * num + den) / (2 * den);
    if q > 255 { 255 } else { q as u8 }
}

fn esc_feed_exec(buf: &mut Vec<u8>, amount: Decimal, unit: FeedUnit, dpi: u32)
    ensures
        final(buf)@ == old(buf)@ + esc_feed_out(amount, unit, dpi as int),
{
    let m: u64 = amount.milli;
    match unit {
        FeedUnit::Lines => {
            if m % 1000 == 0 && m <= 255000 {
                feed(buf, (m / 1000) as u8);
            } else {
                let line_dots: u128 = (60 * dpi as u128 + 203) / 406;
                proof {
                    assert(line_dots <= dpi) by (nonlinear_arith)
                        requires
                            line_dots == (60 * (dpi as int) + 203) / 406,
                    ;
                    crate::resources::lemma_mul_u64_u32(m as int, line_dots as int);
                }
                let d = round_u8_exec(m as u128 * line_dots, 1000);
                feed_dots(buf, d);
            }
        },
        FeedUnit::Mm => {
            proof {
                crate::resources::lemma_mul_u64_u32(m as int, dpi as int);
            }
            let d = round_u8_exec(m as u128 * dpi as u128, 25400);
            feed_dots(buf, d);
        },
    }
}

fn esc_node_exec(
    buf: &mut Vec<u8>,
    node: &Node,
    res: &RenderResources,
    base: usize,
    max_dots: u32,
    dpi: u32,
    thr: u8,
    pre: &Option<Vec<(u128, u128)>>,
)
    requires
        base >= 10,
        pre_ok(*pre),
        node@ is Image ==> match res.image_at(node@->Image_url) {
            Some(img) => esc_image_ok(img, node@->Image_width, node@->Image_height, dpi as int, max_dots as int),
            None => true,
        },
    ensures
        final(buf)@ == old(buf)@ + esc_node_out(node@, *res, base as int, max_dots as int, dpi as int, thr, pre_model(*pre)),
{
    match node {
        Node::Text { spans, size } => {
            esc_text_exec(buf, spans, *size, base);
        },
        Node::Columns { cells, size } => {
            esc_columns_exec(buf, cells, *size, base, pre);
        },
        Node::Line { style } => {
            let ch = divider_char(*style);
            push_repeat_byte(buf, ch as u8, base);
            linefeed(buf);
        },
        Node::Blank => {
            linefeed(buf);
        },
        Node::Image { url, width, height, align, .. } => {
            match res.get_image(url.as_str()) {
                Some(img) => {
                    esc_image_exec(buf, img, *width, *height, *align, dpi, max_dots, thr);
                },
                None => {},
            }
        },
        Node::Qr { data, size, align } => {
            justify_on_exec(buf, *align);
            let m = qr_module_exec(*size);
            qr(buf, data.as_str(), m);
            justify_off_exec(buf, *align);
        },
        Node::Barcode { format, data } => {
            justify(buf, 1);
            let _ok = barcode(buf, format.as_str(), data.as_str());
            justify(buf, 0);
        },
        Node::Feed { amount, unit } => {
            esc_feed_exec(buf, *amount, *unit, dpi);
        },
        Node::Cut { partial } => {
            cut(buf, *partial);
        },
        Node::Drawer => {
            drawer(buf);
        },
        _ => {},
    }
}

/// Render a document to an ESC/POS byte stream. `resources` holds the
/// pre-decoded images, keyed by the URL or path written in the source.
pub fn render_escpos(nodes: &[Node], resources: &RenderResources) -> (out: Vec<u8>)
    requires
        esc_images_ok(nodes_model(nodes@), *resources),
    ensures
        out@ == render_escpos_spec(nodes_model(nodes@), *resources),
{
    let ghost ns = nodes_model(nodes@);
    let (paper, dpi, thr) = collect_printer_config(nodes);
    let dots = printable_width(paper, dpi);
    let base: usize = if dots / 12 < 10 { 10 } else { (dots / 12) as usize };
    let cache = precompute_columns_chars(nodes, base, 2000, 1000);
    let ghost cm = cache_model(cache@);
    proof {
        lemma_cache_min(ns, groups_spec(ns), milli_chars(base as int), 2000, 1000);
    }
    assert(cache@.len() == ns.len()) by {
        assert(cm.len() == cache@.len());
    }
    let mut buf: Vec<u8> = Vec::new();
    init(&mut buf);
    let mut i: usize = 0;
    while i < nodes.len()
        invariant
            ns == nodes_model(nodes@),
            esc_images_ok(ns, *resources),
            (paper.milli as int, dpi as int, thr as int) == printer_config_spec(ns),
            dots == printable_width_spec(paper.milli as int, dpi as int),
            base == esc_chars_per_line(dots as int),
            cm == cache_model(cache@),
            cm == cache_spec(ns, groups_spec(ns), milli_chars(base as int), 2000, 1000),
            cache@.len() == ns.len(),
            forall|j: int| 0 <= j < ns.len() && (#[trigger] cm[j]) is Some ==> forall|k: int| 0 <= k < cm[j]->0.len() ==> (#[trigger] cm[j]->0[k]).1 >= 1000,
            10 <= base,
            i <= nodes@.len(),
            buf@ == seq![ESC, 0x40u8] + esc_out(ns.take(i as int), *resources, base as int, dots as int, dpi as int, thr, cm),
        decreases nodes@.len() - i,
    {
        proof {
            assert(ns.take(i + 1).drop_last() == ns.take(i as int));
            assert(ns[i as int] == nodes@[i as int]@);
            assert(cm[i as int] == pre_model(cache@[i as int]));
            if cache@[i as int] is Some {
                let v = cache@[i as int]->0;
                assert forall|k: int| 0 <= k < v@.len() implies (#[trigger] v@[k]).1 >= 1000 by {
                    assert(pairs(v@)[k].1 == v@[k].1);
                    assert(cm[i as int]->0[k].1 >= 1000);
                }
            }
            assert(esc_images_ok(ns, *resources));
        }
        esc_node_exec(&mut buf, &nodes[i], resources, base, dots, dpi, thr, &cache[i]);
        i = i + 1;
    }
    assert(ns.take(i as int) == ns);
    buf
}

/// The alignment of an image or QR block (none for other nodes).
pub open spec fn block_align(n: NodeModel) -> Option<Align> {
    match n {
        NodeModel::Image { align, .. } => align,
        NodeModel::Qr { align, .. } => align,
        _ => None,
    }
}

/// An aligned image or QR code is printed under the justification its
/// alignment asks for: `ESC a 0` for left, `ESC a 1` for center and
/// `ESC a 2` for right come first, and a centered or right-aligned block
/// is followed by `ESC a 0`, back to the left.
pub proof fn law_block_justified(n: NodeModel, res: RenderResources, base: int, max_dots: int, dpi: int, thr: u8, pre: Option<Seq<(int, int)>>)
    requires
        n is Qr || (n is Image && res.image_at(n->Image_url) is Some),
    ensures
        ({
            let out = esc_node_out(n, res, base, max_dots, dpi, thr, pre);
            &&& block_align(n) == Some(Align::Left) ==> out.take(3) == seq![0x1Bu8, 0x61u8, 0u8]
            &&& block_align(n) == Some(Align::Center) ==> out.take(3) == seq![0x1Bu8, 0x61u8, 1u8]
                && out.skip(out.len() - 3) == seq![0x1Bu8, 0x61u8, 0u8]
            &&& block_align(n) == Some(Align::Right) ==> out.take(3) == seq![0x1Bu8, 0x61u8, 2u8]
                && out.skip(out.len() - 3) == seq![0x1Bu8, 0x61u8, 0u8]
        }),
{
    let out = esc_node_out(n, res, base, max_dots, dpi, thr, pre);
    let a = block_align(n);
    let mid = match n {
        NodeModel::Image { url, width, height, align, .. } => {
            let img = res.image_at(url)->0;
            let (sw, sh) = esc_image_dims(img, width, height, dpi, max_dots);
            let scaled = scaled_seq(img.pixels@, img.width as int, img.height as int, sw, sh);
            raster_header(padded_width(sw as u32) as u32, sh as u32) + packed_seq(scaled, sw, sh, thr)
        },
        NodeModel::Qr { data, size, align } => qr_command(encode_utf8(data), qr_module_for(size)),
        _ => seq![],
    };
    assert(out == justify_on(a) + mid + justify_off(a));
    if a is Some {
        assert(out.take(3) == justify_on(a));
        if a != Some(Align::Left) {
            assert(out.skip(out.len() - 3) == justify_off(a));
        }
    }
}

/// Text is printed at its level's character size and wrapped at the line
/// width divided by the width multiplier: body text normal (no size
/// command), medium body text double width (`GS ! 0x10`), large body text
/// and `#` headers double width and height (`GS ! 0x11`), `##` headers
/// triple (`GS ! 0x22`) and `###` headers quadruple (`GS ! 0x33`); every
/// enlarged block ends with `GS ! 0x00`, and headers are centered
/// (`ESC a 1` ... `ESC a 0`).
pub proof fn law_text_sizes(spans: Seq<SpanModel>, base: int)
    ensures
        ({
            let full = spans_text(spans);
            let wrapped = |w: int| lines_bytes(spans, full, word_wrap_spec(full, w as nat));
            &&& esc_text_out(spans, Size::Text, base) == wrapped(base)
            &&& esc_text_out(spans, Size::TextM, base) == seq![0x1Du8, 0x21u8, 0x10u8] + wrapped(base / 2) + seq![0x1Du8, 0x21u8, 0x00u8]
            &&& esc_text_out(spans, Size::TextL, base) == seq![0x1Du8, 0x21u8, 0x11u8] + wrapped(base / 2) + seq![0x1Du8, 0x21u8, 0x00u8]
            &&& esc_text_out(spans, Size::Title, base) == seq![0x1Du8, 0x21u8, 0x11u8] + seq![0x1Bu8, 0x61u8, 1u8] + wrapped(base / 2)
                + seq![0x1Bu8, 0x61u8, 0u8] + seq![0x1Du8, 0x21u8, 0x00u8]
            &&& esc_text_out(spans, Size::TitleM, base) == seq![0x1Du8, 0x21u8, 0x22u8] + seq![0x1Bu8, 0x61u8, 1u8] + wrapped(base / 3)
                + seq![0x1Bu8, 0x61u8, 0u8] + seq![0x1Du8, 0x21u8, 0x00u8]
            &&& esc_text_out(spans, Size::TitleL, base) == seq![0x1Du8, 0x21u8, 0x33u8] + seq![0x1Bu8, 0x61u8, 1u8] + wrapped(base / 4)
                + seq![0x1Bu8, 0x61u8, 0u8] + seq![0x1Du8, 0x21u8, 0x00u8]
        }),
{
    let full = spans_text(spans);
    let e: Seq<u8> = seq![];
    assert(esc_text_out(spans, Size::Text, base) == e + e + lines_bytes(spans, full, word_wrap_spec(full, base as nat)) + e + e);
    assert(e + e + lines_bytes(spans, full, word_wrap_spec(full, base as nat)) + e + e == lines_bytes(spans, full, word_wrap_spec(full, base as nat)));
    assert(esc_text_out(spans, Size::TextM, base) == seq![0x1Du8, 0x21u8, 0x10u8] + e + lines_bytes(spans, full, word_wrap_spec(full, (base / 2) as nat)) + e + seq![0x1Du8, 0x21u8, 0x00u8]);
    assert(esc_text_out(spans, Size::TextL, base) == seq![0x1Du8, 0x21u8, 0x11u8] + e + lines_bytes(spans, full, word_wrap_spec(full, (base / 2) as nat)) + e + seq![0x1Du8, 0x21u8, 0x00u8]);
}

/// Every styled span is printed between its style's commands: bold between
/// `ESC E 1` and `ESC E 0`, underline between `ESC - 1` and `ESC - 0`,
/// italic between `ESC 4 1` and `ESC 4 0`; normal and strikethrough text
/// is printed bare. Spans are printed in order.
pub proof fn law_span_commands(spans: Seq<SpanModel>, sp: SpanModel)
    ensures
        ({
            let t = encode_utf8(sp.text);
            let before = spans_bytes(spans);
            let after = spans_bytes(spans.push(sp));
            &&& sp.style == SpanStyle::Normal ==> after == before + t
            &&& sp.style == SpanStyle::Strikethrough ==> after == before + t
            &&& sp.style == SpanStyle::Bold ==> after == before + seq![0x1Bu8, 0x45u8, 1u8] + t + seq![0x1Bu8, 0x45u8, 0u8]
            &&& sp.style == SpanStyle::Underline ==> after == before + seq![0x1Bu8, 0x2Du8, 1u8] + t + seq![0x1Bu8, 0x2Du8, 0u8]
            &&& sp.style == SpanStyle::Italic ==> after == before + seq![0x1Bu8, 0x34u8, 1u8] + t + seq![0x1Bu8, 0x34u8, 0u8]
        }),
{
    let w = spans.push(sp);
    assert(w.drop_last() == spans);
    assert(w.last() == sp);
    let e: Seq<u8> = seq![];
    let t = encode_utf8(sp.text);
    assert(spans_bytes(spans) + e + t + e == spans_bytes(spans) + t);
}

/// The fixed blocks: a barcode is printed centered (`ESC a 1` before,
/// `ESC a 0` after), a cut is `GS V` with 65 for a full and 66 for a
/// partial cut, the drawer kick is `ESC p 0 25 255`, a blank line is one
/// line feed, a divider is a full line of `-`, `=` or `.` and a line feed,
/// and a feed of a whole number of lines up to 255 is `ESC d n`.
pub proof fn law_fixed_blocks(res: RenderResources, base: int, max_dots: int, dpi: int, thr: u8, pre: Option<Seq<(int, int)>>)
    ensures
        forall|format: Seq<char>, data: Seq<char>| #![trigger esc_node_out(NodeModel::Barcode { format, data }, res, base, max_dots, dpi, thr, pre)] {
            let out = esc_node_out(NodeModel::Barcode { format, data }, res, base, max_dots, dpi, thr, pre);
            out.len() >= 6 && out.take(3) == seq![0x1Bu8, 0x61u8, 1u8] && out.skip(out.len() - 3) == seq![0x1Bu8, 0x61u8, 0u8]
        },
        esc_node_out(NodeModel::Cut { partial: false }, res, base, max_dots, dpi, thr, pre) == seq![0x1Du8, 0x56u8, 65u8, 0u8],
        esc_node_out(NodeModel::Cut { partial: true }, res, base, max_dots, dpi, thr, pre) == seq![0x1Du8, 0x56u8, 66u8, 0u8],
        esc_node_out(NodeModel::Drawer, res, base, max_dots, dpi, thr, pre) == seq![0x1Bu8, 0x70u8, 0u8, 25u8, 255u8],
        esc_node_out(NodeModel::Blank, res, base, max_dots, dpi, thr, pre) == seq![0x0Au8],
        base >= 0 ==> esc_node_out(NodeModel::Line { style: LineStyle::Thin }, res, base, max_dots, dpi, thr, pre) == Seq::new(base as nat, |i: int| 0x2Du8).push(0x0Au8),
        base >= 0 ==> esc_node_out(NodeModel::Line { style: LineStyle::Thick }, res, base, max_dots, dpi, thr, pre) == Seq::new(base as nat, |i: int| 0x3Du8).push(0x0Au8),
        base >= 0 ==> esc_node_out(NodeModel::Line { style: LineStyle::Dotted }, res, base, max_dots, dpi, thr, pre) == Seq::new(base as nat, |i: int| 0x2Eu8).push(0x0Au8),
        forall|n: u8| #![trigger esc_feed_out(Decimal { milli: ((n as int) * 1000) as u64 }, FeedUnit::Lines, dpi)]
            esc_feed_out(Decimal { milli: ((n as int) * 1000) as u64 }, FeedUnit::Lines, dpi) == seq![0x1Bu8, 0x64u8, n],
{
    assert forall|format: Seq<char>, data: Seq<char>| #![trigger esc_node_out(NodeModel::Barcode { format, data }, res, base, max_dots, dpi, thr, pre)] {
        let out = esc_node_out(NodeModel::Barcode { format, data }, res, base, max_dots, dpi, thr, pre);
        out.len() >= 6 && out.take(3) == seq![0x1Bu8, 0x61u8, 1u8] && out.skip(out.len() - 3) == seq![0x1Bu8, 0x61u8, 0u8]
    } by {
        let mid = match barcode_type(uppercase(format)) {
            Some(t) => barcode_command(t, barcode_payload(t, encode_utf8(data))),
            None => seq![],
        };
        let out = esc_node_out(NodeModel::Barcode { format, data }, res, base, max_dots, dpi, thr, pre);
        assert(out == seq![ESC, 0x61u8, 1u8] + mid + seq![ESC, 0x61u8, 0u8]);
        assert(out.take(3) == seq![0x1Bu8, 0x61u8, 1u8]);
        assert(out.skip(out.len() - 3) == seq![0x1Bu8, 0x61u8, 0u8]);
    }
    if base >= 0 {
        assert(esc_node_out(NodeModel::Line { style: LineStyle::Thin }, res, base, max_dots, dpi, thr, pre) =~= Seq::new(base as nat, |i: int| 0x2Du8).push(0x0Au8));
        assert(esc_node_out(NodeModel::Line { style: LineStyle::Thick }, res, base, max_dots, dpi, thr, pre) =~= Seq::new(base as nat, |i: int| 0x3Du8).push(0x0Au8));
        assert(esc_node_out(NodeModel::Line { style: LineStyle::Dotted }, res, base, max_dots, dpi, thr, pre) =~= Seq::new(base as nat, |i: int| 0x2Eu8).push(0x0Au8));
    }
    assert forall|n: u8| #![trigger esc_feed_out(Decimal { milli: ((n as int) * 1000) as u64 }, FeedUnit::Lines, dpi)]
        esc_feed_out(Decimal { milli: ((n as int) * 1000) as u64 }, FeedUnit::Lines, dpi) == seq![0x1Bu8, 0x64u8, n] by {
        let m = ((n as int) * 1000) as u64;
        assert(m == (n as int) * 1000);
        assert(m as int % 1000 == 0 && m as int / 1000 == n) by (nonlinear_arith)
            requires m == (n as int) * 1000;
    }
}

/// A printed line holds as many 12-dot Font A characters as fit in the
/// printable dots, and at least 10.
pub proof fn law_chars_per_line(dots: int)
    requires
        dots >= 0,
    ensures
        esc_chars_per_line(dots) >= 10,
        dots >= 120 ==> 12 * esc_chars_per_line(dots) <= dots < 12 * esc_chars_per_line(dots) + 12,
        dots < 120 ==> esc_chars_per_line(dots) == 10,
{
}

/// A QR code's module size is its size in points over 30, rounded to the
/// nearest whole (halves up), kept within 1 to 8 dots; 6 when no size is
/// given.
pub proof fn law_qr_modules(size: Decimal)
    ensures
        qr_module_for(None) == 6,
        1 <= qr_module_for(Some(size)) <= 8,
        15000 <= size.milli < 255000 ==> 30000 * (qr_module_for(Some(size)) as int) - 15000 <= size.milli
            < 30000 * (qr_module_for(Some(size)) as int) + 15000,
        size.milli < 15000 ==> qr_module_for(Some(size)) == 1,
        size.milli >= 255000 ==> qr_module_for(Some(size)) == 8,
{
}

} // verus!
