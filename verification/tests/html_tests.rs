use rip::html::render_html;
use rip::parser::parse;

fn html(markup: &str) -> String {
    render_html(&parse(markup))
}

#[test]
fn render_html_basic() {
    let html = render_html(&parse("## Hello"));
    assert!(html.contains("Hello"));
}

#[test]
fn document_frame() {
    let out = html("## Hello");
    assert!(out.starts_with("<!DOCTYPE html>\n<html>\n<head>\n"));
    assert!(out.contains("<div class=\"line title\">Hello</div>\n"));
    assert!(out.contains("width: 302px;"));
    assert!(out.ends_with("</div>\n</body>\n</html>"));
}

#[test]
fn paper_width_sets_the_frame() {
    assert!(html("@printer-width(58mm)").contains("width: 219px;"));
}

#[test]
fn spans_are_escaped_and_styled() {
    let out = html("*A&B* <x>");
    assert!(out.contains("<div class=\"line text\"><b>A&amp;B</b> &lt;x&gt;</div>\n"));
}

#[test]
fn columns_and_dividers() {
    let out = html("| Item | $5.00 |\n---");
    assert!(out.contains(
        "<div class=\"row text\"><span class=\"cell\" style=\"text-align:left\">Item</span><span class=\"cell\" style=\"text-align:right\">$5.00</span></div>\n"
    ));
    assert!(out.contains("<hr class=\"divider thin\" />\n"));
}

#[test]
fn images_blanks_and_feeds() {
    let out = html("|> @image(logo.png, 100) <|\n\n@feed(2)");
    assert!(out.contains("<div class=\"image align-center\"><img src=\"logo.png\" style=\"width:100pt;\" /></div>\n"));
    assert_eq!(out.matches("<div class=\"blank\"></div>\n").count(), 3);
}

#[test]
fn qr_and_barcode_are_inline_svg() {
    let out = html("@qr(hello)\n@barcode(EAN13, 5901234123457)");
    assert!(out.contains("<div class=\"qr\"><svg xmlns=\"http://www.w3.org/2000/svg\" viewBox=\"0 0 29 29\" width=\"150\" height=\"150\">"));
    assert!(out.contains("<div class=\"barcode\"><svg xmlns=\"http://www.w3.org/2000/svg\" viewBox=\"0 0 95 50\" preserveAspectRatio=\"none\"><path d=\"M0,0h1v50h-1zM2,0h1v50h-1z"));
}

#[test]
fn style_rules_for_fonts() {
    let out = html("@style(text, https://f.com/a.ttf, 12)");
    assert!(out.contains("font-family: 'tab-text';"));
    assert!(out.contains("src: url('https://f.com/a.ttf');"));
    assert!(out.contains("font-size: 12.0pt;"));
}

#[test]
fn overlong_code128_renders_an_empty_barcode() {
    let long: String = std::iter::repeat('1').take(7000).collect();
    let out = html(&format!("@barcode(CODE128, {long})"));
    assert!(out.contains("<div class=\"barcode\"></div>\n"));
}
