use rip::ast::{Align, Decimal};
use rip::canvas::Canvas;
use rip::encode::{encode_barcode, encode_barcode_checked, encode_qr, render_qr, render_qr_grid, QrGrid};
use rip::layout::{align_offset, cell_layouts, mm_to_px, printable_px, RenderError};
use rip::raster::{encode_raster, encode_raster_threshold, pack_rows, scale_nn, to_raster};

#[test]
fn qr_grid_of_short_text() {
    let grid = encode_qr("hello").unwrap();
    assert_eq!(grid.width, 21);
    assert_eq!(grid.modules.len(), 441);
    // The finder pattern's corner is dark, the module beside its ring light.
    assert!(grid.modules[0]);
    assert!(!grid.modules[7]);
}

#[test]
fn barcodes_encode_to_bars() {
    let ean = encode_barcode("ean13", "5901234123457").unwrap();
    assert_eq!(ean.len(), 95);
    assert_eq!(&ean[..3], &[1, 0, 1]);
    assert!(encode_barcode("EAN13", "5901234123458").is_none());
    assert_eq!(encode_barcode("EAN8", "96385074").map(|b| b.len()), Some(67));
    assert!(encode_barcode("CODE39", "ABC").is_some());
    assert!(encode_barcode("CODABAR", "A1234B").is_some());
    let c128 = encode_barcode("CODE128", "12").unwrap();
    assert_eq!(encode_barcode("code128", "Ɓ12"), Some(c128));
    assert!(encode_barcode("PDF417", "12").is_none());
}

#[test]
fn qr_grid_drawn_with_integer_scale() {
    let grid = QrGrid { width: 2, modules: vec![true, false, false, true] };
    let (side, px) = render_qr_grid(&grid, 4);
    assert_eq!(side, 4);
    assert_eq!(px, vec![0, 0, 255, 255, 0, 0, 255, 255, 255, 255, 0, 0, 255, 255, 0, 0]);
    // Never less than one pixel per module.
    let (side, px) = render_qr_grid(&grid, 1);
    assert_eq!(side, 2);
    assert_eq!(px, vec![0, 255, 255, 0]);
}

#[test]
fn qr_rendered_from_text() {
    let (side, px) = render_qr("hello", 100).unwrap();
    assert_eq!(side, 84);
    assert_eq!(px.len(), 84 * 84);
    assert_eq!(px[0], 0);
}

#[test]
fn raster_packing() {
    let px = [0u8, 255, 0, 255, 255, 255];
    assert_eq!(encode_raster(3, &px), vec![0xA0, 0x00]);
    assert_eq!(encode_raster_threshold(3, &px, 0), vec![0x00, 0x00]);
    assert_eq!(pack_rows(&px, 3, 2, 128), vec![0xA0, 0x00]);
    assert_eq!(to_raster(&px, 3, 2, 128), (8, 2, vec![0xA0, 0x00]));
    let wide = [0u8; 9];
    assert_eq!(encode_raster(9, &wide), vec![0xFF, 0x80]);
}

#[test]
fn nearest_neighbor_scaling() {
    assert_eq!(scale_nn(&[1, 2, 3, 4], 2, 2, 1, 1), vec![1]);
    assert_eq!(scale_nn(&[1, 2], 2, 1, 4, 1), vec![1, 1, 2, 2]);
    assert_eq!(scale_nn(&[1, 2, 3, 4], 2, 2, 2, 2), vec![1, 2, 3, 4]);
}

#[test]
fn canvas_drawing() {
    let mut c = Canvas::new(4, 3, 255, 0);
    assert_eq!(c.pixels, vec![255; 12]);
    assert_eq!(c.dirty_rows, vec![false; 3]);
    c.set_pixel(1, 1, 7);
    c.set_pixel(9, 9, 7);
    assert_eq!(c.pixels[5], 7);
    assert_eq!(c.dirty_rows, vec![false, true, false]);
    c.fill_rect(2, 2, 10, 10, 0);
    assert_eq!(&c.pixels[8..], &[255, 255, 0, 0]);
    assert_eq!(c.dirty_rows, vec![false, true, true]);
}

#[test]
fn canvas_lines() {
    let mut c = Canvas::new(14, 1, 255, 0);
    c.draw_dotted_hline(0, 0, 14, 1, 0);
    assert_eq!(c.pixels, vec![0, 0, 0, 0, 0, 0, 255, 255, 255, 255, 255, 0, 0, 0]);
    let mut c = Canvas::new(3, 2, 255, 0);
    c.draw_hline(1, 1, 5, 1, 9);
    assert_eq!(c.pixels, vec![255, 255, 255, 255, 9, 9]);
    assert_eq!(c.dirty_rows, vec![false, true]);
}

#[test]
fn canvas_blits() {
    let mut c = Canvas::new(3, 2, 255, 0);
    c.blit_image(1, 0, 2, 2, &[1, 2, 3, 4]);
    assert_eq!(c.pixels, vec![255, 1, 2, 255, 3, 4]);

    let mut c = Canvas::new(3, 1, 255, 0);
    c.blit_glyph(-1, 0, 3, 1, &[255, 100, 0]);
    assert_eq!(c.pixels, vec![155, 255, 255]);
    assert_eq!(c.dirty_rows, vec![true]);

    let mut c = Canvas::new(2, 2, 200, 0);
    c.blit_image_nn(0, 0, 2, 2, &[255, 10], 2, 1);
    assert_eq!(c.pixels, vec![200, 10, 200, 10]);
    assert_eq!(c.dirty_rows, vec![true, true]);

    let mut c = Canvas::new(4, 2, 255, 0);
    c.blit_bitmap_scaled(0, 0, 2, 1, &[0, 255], 2, 0, 255);
    assert_eq!(c.pixels, vec![0, 0, 255, 255, 0, 0, 255, 255]);
}

#[test]
fn pixel_layout() {
    assert_eq!(align_offset(10, 4, Align::Left), 0);
    assert_eq!(align_offset(10, 4, Align::Right), 6);
    assert_eq!(align_offset(10, 5, Align::Center), 2);
    assert_eq!(align_offset(4, 10, Align::Center), 0);
    assert_eq!(mm_to_px(Decimal::from_milli(25400), 203), 203);
    assert_eq!(mm_to_px(Decimal::from_milli(80000), 203), 639);
    assert_eq!(printable_px(Decimal::from_milli(80000), 203), 576);
    assert_eq!(printable_px(Decimal::from_milli(58000), 203), 400);
    assert_eq!(RenderError::EmptyDocument.message(), "no renderable content");
}

#[test]
fn cell_boxes_round_positions_and_widths() {
    let boxes = cell_layouts(&[(0, 24000), (26000, 5001), (1499, 1500), (500, 0)]);
    let got: Vec<(u32, u32)> = boxes.iter().map(|b| (b.x, b.width)).collect();
    assert_eq!(got, vec![(0, 24), (26, 6), (1, 2), (1, 0)]);
}

#[test]
fn drawing_outside_the_canvas_is_clipped() {
    let mut c = Canvas::new(10, 10, 255, 0);
    c.fill_rect(0, 20, 5, 5, 0);
    c.draw_hline(0, 10, 5, 2, 0);
    c.draw_dotted_hline(0, 30, 5, 2, 0);
    c.blit_image(20, 0, 1, 1, &[0]);
    c.blit_image(0, 12, 1, 1, &[0]);
    assert_eq!(c.pixels, vec![255; 100]);
    assert_eq!(c.dirty_rows, vec![false; 10]);
}

#[test]
fn glyph_drawn_twice_is_drawn_once() {
    let mut once = Canvas::new(3, 1, 200, 0);
    once.blit_glyph(0, 0, 3, 1, &[100, 0, 255]);
    let mut twice = Canvas::new(3, 1, 200, 0);
    twice.blit_glyph(0, 0, 3, 1, &[100, 0, 255]);
    twice.blit_glyph(0, 0, 3, 1, &[100, 0, 255]);
    assert_eq!(once.pixels, twice.pixels);
    assert_eq!(once.pixels, vec![155, 200, 0]);
}

#[test]
fn raster_bits_match_dark_pixels() {
    let px = [0u8, 255, 0, 127, 128, 255, 0, 0, 3];
    let out = encode_raster(9, &px);
    for x in 0..16usize {
        let bit = (out[x / 8] >> (7 - x % 8)) & 1;
        let expected = if x < 9 && px[x] < 128 { 1 } else { 0 };
        assert_eq!(bit, expected);
    }
}

#[test]
fn long_code128_is_refused_by_the_checked_encoder() {
    let long: String = std::iter::repeat('1').take(6396).collect();
    assert!(encode_barcode_checked("CODE128", &long).is_none());
    let ok: String = std::iter::repeat('1').take(6395).collect();
    assert!(encode_barcode_checked("code128", &ok).is_some());
    assert_eq!(encode_barcode_checked("EAN8", "96385074").map(|b| b.len()), Some(67));
}
