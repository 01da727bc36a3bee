use rip::api::{collect_threshold, raster_job};
use rip::escpos::render_escpos;
use rip::escpos_cmd::{
    barcode, bold, char_size, cut, drawer, feed, feed_dots, init, italic, justify, linefeed, qr, raster_image,
    underline,
};
use rip::image_data::ImageData;
use rip::parser::parse;
use rip::resources::RenderResources;

fn esc(markup: &str) -> Vec<u8> {
    render_escpos(&parse(markup), &RenderResources::new())
}

#[test]
fn simple_commands() {
    let mut buf = Vec::new();
    init(&mut buf);
    linefeed(&mut buf);
    justify(&mut buf, 1);
    bold(&mut buf, true);
    underline(&mut buf, false);
    italic(&mut buf, true);
    feed(&mut buf, 3);
    feed_dots(&mut buf, 40);
    cut(&mut buf, true);
    cut(&mut buf, false);
    drawer(&mut buf);
    assert_eq!(
        buf,
        vec![
            0x1B, b'@', 0x0A, 0x1B, b'a', 1, 0x1B, b'E', 1, 0x1B, b'-', 0, 0x1B, 0x34, 1, 0x1B, b'd', 3, 0x1B,
            b'J', 40, 0x1D, b'V', 66, 0, 0x1D, b'V', 65, 0, 0x1B, b'p', 0x00, 0x19, 0xFF
        ]
    );
}

#[test]
fn char_size_clamps_multipliers() {
    let mut buf = Vec::new();
    char_size(&mut buf, 2, 3);
    char_size(&mut buf, 0, 9);
    assert_eq!(buf, vec![0x1D, b'!', 0x12, 0x1D, b'!', 0x07]);
}

#[test]
fn raster_image_header() {
    let mut buf = vec![9];
    raster_image(&mut buf, 16, 300, &[1, 2]);
    assert_eq!(buf, vec![9, 0x1D, b'v', b'0', 0, 2, 0, 44, 1, 1, 2]);
}

#[test]
fn qr_command_sequence() {
    let mut buf = Vec::new();
    qr(&mut buf, "ab", 12);
    assert_eq!(
        buf,
        vec![
            0x1D, b'(', b'k', 4, 0, 49, 65, 50, 0, // model 2
            0x1D, b'(', b'k', 3, 0, 49, 67, 8, // module size clamped to 8
            0x1D, b'(', b'k', 3, 0, 49, 69, 48, // error correction L
            0x1D, b'(', b'k', 5, 0, 49, 80, 48, b'a', b'b', // store
            0x1D, b'(', b'k', 3, 0, 49, 81, 48, // print
        ]
    );
}

#[test]
fn barcode_commands() {
    let mut buf = Vec::new();
    assert!(barcode(&mut buf, "code128", "12"));
    assert_eq!(buf, vec![0x1D, b'k', 73, 4, b'{', b'B', b'1', b'2']);
    let mut buf = Vec::new();
    assert!(barcode(&mut buf, "EAN13", "5901234123457"));
    assert_eq!(&buf[..4], &[0x1D, b'k', 67, 13]);
    let mut buf = vec![1];
    assert!(!barcode(&mut buf, "nope", "12"));
    assert_eq!(buf, vec![1]);
}

#[test]
fn plain_text_document() {
    assert_eq!(esc("Hello"), vec![0x1B, b'@', b'H', b'e', b'l', b'l', b'o', 0x0A]);
}

#[test]
fn styled_text_document() {
    assert_eq!(
        esc("*Hi*"),
        vec![0x1B, b'@', 0x1B, b'E', 1, b'H', b'i', 0x1B, b'E', 0, 0x0A]
    );
}

#[test]
fn title_is_centered_and_enlarged() {
    assert_eq!(
        esc("## Hi"),
        vec![0x1B, b'@', 0x1D, b'!', 0x11, 0x1B, b'a', 1, b'H', b'i', 0x0A, 0x1B, b'a', 0, 0x1D, b'!', 0x00]
    );
}

#[test]
fn divider_uses_font_a_width() {
    let mut expected = vec![0x1B, b'@'];
    expected.extend(std::iter::repeat(b'-').take(48));
    expected.push(0x0A);
    assert_eq!(esc("---"), expected);
}

#[test]
fn feeds_cut_and_drawer() {
    assert_eq!(esc("@feed(2)"), vec![0x1B, b'@', 0x1B, b'd', 2]);
    assert_eq!(esc("@feed(1.5)"), vec![0x1B, b'@', 0x1B, b'J', 45]);
    assert_eq!(esc("@feed(5mm)"), vec![0x1B, b'@', 0x1B, b'J', 40]);
    assert_eq!(esc("@cut()"), vec![0x1B, b'@', 0x1D, b'V', 65, 0]);
    assert_eq!(esc("@drawer()"), vec![0x1B, b'@', 0x1B, b'p', 0x00, 0x19, 0xFF]);
}

#[test]
fn missing_image_is_skipped_and_present_one_rastered() {
    assert_eq!(esc("@logo(x.png)"), vec![0x1B, b'@']);
    let mut res = RenderResources::new();
    res.insert_image("x.png".to_string(), ImageData { width: 8, height: 1, pixels: vec![0; 8] });
    let out = render_escpos(&parse("@logo(x.png)"), &res);
    assert_eq!(out, vec![0x1B, b'@', 0x1D, b'v', b'0', 0, 1, 0, 1, 0, 0xFF]);
}

#[test]
fn threshold_is_the_first_directive() {
    assert_eq!(collect_threshold(&parse("Hello")), 128);
    assert_eq!(collect_threshold(&parse("@printer-threshold(100)\n@printer-threshold(50)")), 100);
}

#[test]
fn raster_job_wraps_the_packed_rows() {
    let job = raster_job(8, 1, &[0; 8], 128);
    assert_eq!(
        job,
        vec![0x1B, b'@', 0x1D, b'v', b'0', 0, 1, 0, 1, 0, 0xFF, 0x1B, b'd', 4]
    );
    let job = raster_job(3, 2, &[0, 255, 0, 255, 255, 255], 128);
    assert_eq!(
        job,
        vec![0x1B, b'@', 0x1D, b'v', b'0', 0, 1, 0, 2, 0, 0xA0, 0x00, 0x1B, b'd', 4]
    );
}
