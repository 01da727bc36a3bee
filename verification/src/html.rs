//! HTML rendering: a standalone document with inline styles and SVG
//! barcodes and QR codes.
use vstd::prelude::*;
use crate::ast::{Align, Cell, CellContent, CellContentModel, CellModel, Decimal, FeedUnit, LineStyle, Node, NodeModel, Size, Span, SpanModel, SpanStyle, cells_model, nodes_model, spans_model};
use crate::encode::{QrGrid, checked_barcode_spec, encode_barcode_checked, encode_qr, opt_seq, qr_grid_spec};
use crate::numfmt::{decimal_text, decimal_to_text, decimal_tenths, nat_text, tenths_text, u64_text};
use crate::strs::{chars_of, string_of};
use crate::resources::str_eq;
use crate::text_render::{push_slice, round_count};

verus! {

/// The CSS class of a size level.
pub open spec fn size_class(s: Size) -> Seq<char> {
    match s {
        Size::Text => "text"@,
        Size::TextM => "text-m"@,
        Size::TextL => "text-l"@,
        Size::Title => "title"@,
        Size::TitleM => "title-m"@,
        Size::TitleL => "title-l"@,
    }
}

fn size_class_str(s: Size) -> (r: &'static str)
    ensures
        r@ == size_class(s),
{
    match s {
        Size::Text => "text",
        Size::TextM => "text-m",
        Size::TextL => "text-l",
        Size::Title => "title",
        Size::TitleM => "title-m",
        Size::TitleL => "title-l",
    }
}

/// The CSS `text-align` value of an alignment.
pub open spec fn align_css(a: Align) -> Seq<char> {
    match a {
        Align::Left => "left"@,
        Align::Center => "center"@,
        Align::Right => "right"@,
    }
}

fn align_css_str(a: Align) -> (r: &'static str)
    ensures
        r@ == align_css(a),
{
    match a {
        Align::Left => "left",
        Align::Center => "center",
        Align::Right => "right",
    }
}

/// The class suffix of an optional block alignment.
pub open spec fn align_class(a: Option<Align>) -> Seq<char> {
    match a {
        Some(Align::Left) => " align-left"@,
        Some(Align::Center) => " align-center"@,
        Some(Align::Right) => " align-right"@,
        None => ""@,
    }
}

fn align_class_str(a: Option<Align>) -> (r: &'static str)
    ensures
        r@ == align_class(a),
{
    match a {
        Some(Align::Left) => " align-left",
        Some(Align::Center) => " align-center",
        Some(Align::Right) => " align-right",
        None => "",
    }
}

/// The class of a divider style.
pub open spec fn divider_class(s: LineStyle) -> Seq<char> {
    match s {
        LineStyle::Thin => "thin"@,
        LineStyle::Thick => "thick"@,
        LineStyle::Dotted => "dotted"@,
    }
}

fn divider_class_str(s: LineStyle) -> (r: &'static str)
    ensures
        r@ == divider_class(s),
{
    match s {
        LineStyle::Thin => "thin",
        LineStyle::Thick => "thick",
        LineStyle::Dotted => "dotted",
    }
}

/// Text with `&`, `<`, `>` and `"` replaced by their HTML entities.
pub open spec fn html_escape_spec(t: Seq<char>) -> Seq<char>
    decreases t.len(),
{
    if t.len() == 0 {
        seq![]
    } else {
        let c = t.last();
        html_escape_spec(t.drop_last()) + if c == '&' {
            "&amp;"@
        } else if c == '<' {
            "&lt;"@
        } else if c == '>' {
            "&gt;"@
        } else if c == '"' {
            "&quot;"@
        } else {
            seq![c]
        }
    }
}

/// Escaped text holds no markup characters: no `<`, `>` or `"`, and every
/// `&` starts one of the four entities.
pub proof fn law_escape_no_markup(t: Seq<char>)
    ensures
        forall|i: int| 0 <= i < html_escape_spec(t).len() ==> {
            let c = #[trigger] html_escape_spec(t)[i];
            c != '<' && c != '>' && c != '"'
        },
        forall|i: int| 0 <= i < html_escape_spec(t).len() && #[trigger] html_escape_spec(t)[i] == '&' ==> entity_at(html_escape_spec(t), i),
    decreases t.len(),
{
    reveal_strlit("&amp;");
    reveal_strlit("&lt;");
    reveal_strlit("&gt;");
    reveal_strlit("&quot;");
    if t.len() > 0 {
        let pre = html_escape_spec(t.drop_last());
        law_escape_no_markup(t.drop_last());
        let c = t.last();
        let e: Seq<char> = if c == '&' {
            "&amp;"@
        } else if c == '<' {
            "&lt;"@
        } else if c == '>' {
            "&gt;"@
        } else if c == '"' {
            "&quot;"@
        } else {
            seq![c]
        };
        let all = html_escape_spec(t);
        assert(all == pre + e);
        assert forall|i: int| 0 <= i < all.len() implies {
            let c = #[trigger] all[i];
            c != '<' && c != '>' && c != '"'
        } by {
            if i < pre.len() {
                assert(all[i] == pre[i]);
            } else {
                assert(all[i] == e[i - pre.len()]);
            }
        }
        assert forall|i: int| 0 <= i < all.len() && #[trigger] all[i] == '&' implies entity_at(all, i) by {
            if i < pre.len() {
                assert(all[i] == pre[i]);
                assert(entity_at(pre, i));
                assert forall|k: int| 0 <= k && i + k <= pre.len() implies #[trigger] all.subrange(i, i + k) == pre.subrange(i, i + k) by {
                    assert(all.subrange(i, i + k) =~= pre.subrange(i, i + k));
                }
                if i + 5 <= pre.len() {
                    assert(all.subrange(i, i + 5) == pre.subrange(i, i + 5));
                }
                if i + 4 <= pre.len() {
                    assert(all.subrange(i, i + 4) == pre.subrange(i, i + 4));
                }
                if i + 6 <= pre.len() {
                    assert(all.subrange(i, i + 6) == pre.subrange(i, i + 6));
                }
            } else {
                assert(all[i] == e[i - pre.len()]);
                assert(i == pre.len());
                assert(all.subrange(i, all.len() as int) =~= e);
            }
        }
    }
}

/// One of the four entities starts at position `i`.
pub open spec fn entity_at(s: Seq<char>, i: int) -> bool {
    ||| i + 5 <= s.len() && s.subrange(i, i + 5) == "&amp;"@
    ||| i + 4 <= s.len() && s.subrange(i, i + 4) == "&lt;"@
    ||| i + 4 <= s.len() && s.subrange(i, i + 4) == "&gt;"@
    ||| i + 6 <= s.len() && s.subrange(i, i + 6) == "&quot;"@
}

fn push_lit(out: &mut Vec<char>, s: &str)
    ensures
        final(out)@ == old(out)@ + s@,
{
    let cs = chars_of(s);
    push_slice(out, cs.as_slice());
}

fn push_escaped(out: &mut Vec<char>, s: &str)
    ensures
        final(out)@ == old(out)@ + html_escape_spec(s@),
{
    let cs = chars_of(s);
    let ghost start = out@;
    let mut i: usize = 0;
    while i < cs.len()
        invariant
            i <= cs@.len(),
            out@ == start + html_escape_spec(cs@.take(i as int)),
        decreases cs@.len() - i,
    {
        assert(cs@.take(i + 1).drop_last() == cs@.take(i as int));
        let c = cs[i];
        if c == '&' {
            push_lit(out, "&amp;");
        } else if c == '<' {
            push_lit(out, "&lt;");
        } else if c == '>' {
            push_lit(out, "&gt;");
        } else if c == '"' {
            push_lit(out, "&quot;");
        } else {
            out.push(c);
        }
        i = i + 1;
    }
    assert(cs@.take(i as int) == cs@);
}

/// The HTML of styled spans: escaped text, wrapped in `b`, `u`, `i` or `s`
/// by style.
pub open spec fn spans_html(spans: Seq<SpanModel>) -> Seq<char>
    decreases spans.len(),
{
    if spans.len() == 0 {
        seq![]
    } else {
        let sp = spans.last();
        let t = html_escape_spec(sp.text);
        spans_html(spans.drop_last()) + match sp.style {
            SpanStyle::Normal => t,
            SpanStyle::Bold => "<b>"@ + t + "</b>"@,
            SpanStyle::Underline => "<u>"@ + t + "</u>"@,
            SpanStyle::Italic => "<i>"@ + t + "</i>"@,
            SpanStyle::Strikethrough => "<s>"@ + t + "</s>"@,
        }
    }
}

fn render_spans(out: &mut Vec<char>, spans: &Vec<Span>)
    ensures
        final(out)@ == old(out)@ + spans_html(spans_model(spans@)),
{
    let ghost sm = spans_model(spans@);
    let ghost start = out@;
    let mut i: usize = 0;
    while i < spans.len()
        invariant
            sm == spans_model(spans@),
            i <= spans@.len(),
            out@ == start + spans_html(sm.take(i as int)),
        decreases spans@.len() - i,
    {
        assert(sm.take(i + 1).drop_last() == sm.take(i as int));
        assert(sm.take(i + 1).last() == spans@[i as int]@);
        let tags: Option<(&str, &str)> = match spans[i].style {
            SpanStyle::Normal => None,
            SpanStyle::Bold => Some(("<b>", "</b>")),
            SpanStyle::Underline => Some(("<u>", "</u>")),
            SpanStyle::Italic => Some(("<i>", "</i>")),
            SpanStyle::Strikethrough => Some(("<s>", "</s>")),
        };
        match tags {
            Some((open, close)) => {
                push_lit(out, open);
                push_escaped(out, spans[i].text.as_str());
                push_lit(out, close);
            },
            None => {
                push_escaped(out, spans[i].text.as_str());
            },
        }
        i = i + 1;
    }
    assert(sm.take(i as int) == sm);
}

/// The SVG path of the first `n` modules of a QR grid `w` modules wide:
/// a unit square for each dark module, offset by the 4-module quiet zone.
pub open spec fn qr_path(modules: Seq<bool>, w: int, n: int) -> Seq<char>
    decreases n,
{
    if n <= 0 {
        seq![]
    } else {
        let i = n - 1;
        qr_path(modules, w, n - 1) + if modules[i] {
            "M"@ + nat_text((i % w + 4) as nat) + ","@ + nat_text((i / w + 4) as nat) + "h1v1h-1z"@
        } else {
            seq![]
        }
    }
}

/// An inline SVG of a QR grid with a 4-module quiet zone and a white
/// background, `size` pixels wide and high.
pub open spec fn qr_svg(modules: Seq<bool>, w: int, size: int) -> Seq<char> {
    let t = nat_text((w + 8) as nat);
    let s = nat_text(size as nat);
    "<svg xmlns=\"http://www.w3.org/2000/svg\" viewBox=\"0 0 "@ + t + " "@ + t + "\" width=\""@ + s + "\" height=\""@ + s
        + "\"><rect width=\""@ + t + "\" height=\""@ + t + "\" fill=\"#fff\"/><path d=\""@ + qr_path(modules, w, w * w)
        + "\" fill=\"#000\"/></svg>"@
}

fn push_u64(out: &mut Vec<char>, n: u64)
    ensures
        final(out)@ == old(out)@ + nat_text(n as nat),
{
    let t = u64_text(n);
    push_slice(out, t.as_slice());
}

fn qr_to_svg(out: &mut Vec<char>, grid: &QrGrid, size: u32)
    requires
        grid.wf(),
        grid.width <= 177,
    ensures
        final(out)@ == old(out)@ + qr_svg(grid.modules@, grid.width as int, size as int),
{
    let w = grid.width;
    let mut path: Vec<char> = Vec::new();
    let mut row: u32 = 0;
    while row < w
        invariant
            grid.wf(),
            w == grid.width <= 177,
            row <= w,
            path@ == qr_path(grid.modules@, w as int, (row * w) as int),
        decreases w - row,
    {
        let mut col: u32 = 0;
        while col < w
            invariant
                grid.wf(),
                w == grid.width <= 177,
                row < w,
                col <= w,
                path@ == qr_path(grid.modules@, w as int, (row * w + col) as int),
            decreases w - col,
        {
            proof {
                assert(row * w + col < w * w) by (nonlinear_arith)
                    requires
                        row < w,
                        col < w,
                ;
                assert(w * w <= 177 * 177) by (nonlinear_arith)
                    requires
                        w <= 177,
                ;
            }
            let i = row * w + col;
            proof {
                assert((i as int) % (w as int) == col && (i as int) / (w as int) == row) by (nonlinear_arith)
                    requires
                        i == row * w + col,
                        col < w,
                ;
            }
            if grid.modules[i as usize] {
                push_lit(&mut path, "M");
                push_u64(&mut path, (col + 4) as u64);
                push_lit(&mut path, ",");
                push_u64(&mut path, (row + 4) as u64);
                push_lit(&mut path, "h1v1h-1z");
            }
            col = col + 1;
        }
        assert(row * w + w == (row + 1) * w) by (nonlinear_arith);
        row = row + 1;
    }
    let total = (w + 8) as u64;
    push_lit(out, "<svg xmlns=\"http://www.w3.org/2000/svg\" viewBox=\"0 0 ");
    push_u64(out, total);
    push_lit(out, " ");
    push_u64(out, total);
    push_lit(out, "\" width=\"");
    push_u64(out, size as u64);
    push_lit(out, "\" height=\"");
    push_u64(out, size as u64);
    push_lit(out, "\"><rect width=\"");
    push_u64(out, total);
    push_lit(out, "\" height=\"");
    push_u64(out, total);
    push_lit(out, "\" fill=\"#fff\"/><path d=\"");
    push_slice(out, path.as_slice());
    push_lit(out, "\" fill=\"#000\"/></svg>");
}

/// The SVG path of the first `n` bars: a unit-wide rectangle of the full
/// height for each bar.
pub open spec fn bars_path(bars: Seq<u8>, h: int, n: int) -> Seq<char>
    decreases n,
{
    if n <= 0 {
        seq![]
    } else {
        bars_path(bars, h, n - 1) + if bars[n - 1] == 1 {
            "M"@ + nat_text((n - 1) as nat) + ",0h1v"@ + nat_text(h as nat) + "h-1z"@
        } else {
            seq![]
        }
    }
}

/// An inline SVG of a bar pattern `h` units high, stretched to its box.
pub open spec fn barcode_svg(bars: Seq<u8>, h: int) -> Seq<char> {
    "<svg xmlns=\"http://www.w3.org/2000/svg\" viewBox=\"0 0 "@ + nat_text(bars.len()) + " "@ + nat_text(h as nat)
        + "\" preserveAspectRatio=\"none\"><path d=\""@ + bars_path(bars, h, bars.len() as int) + "\" fill=\"#000\"/></svg>"@
}

fn barcode_to_svg(out: &mut Vec<char>, bars: &Vec<u8>, height: u32)
    ensures
        final(out)@ == old(out)@ + barcode_svg(bars@, height as int),
{
    let mut path: Vec<char> = Vec::new();
    let mut i: usize = 0;
    while i < bars.len()
        invariant
            i <= bars@.len(),
            path@ == bars_path(bars@, height as int, i as int),
        decreases bars@.len() - i,
    {
        if bars[i] == 1 {
            push_lit(&mut path, "M");
            push_u64(&mut path, i as u64);
            push_lit(&mut path, ",0h1v");
            push_u64(&mut path, height as u64);
            push_lit(&mut path, "h-1z");
        }
        i = i + 1;
    }
    push_lit(out, "<svg xmlns=\"http://www.w3.org/2000/svg\" viewBox=\"0 0 ");
    push_u64(out, bars.len() as u64);
    push_lit(out, " ");
    push_u64(out, height as u64);
    push_lit(out, "\" preserveAspectRatio=\"none\"><path d=\"");
    push_slice(out, path.as_slice());
    push_lit(out, "\" fill=\"#000\"/></svg>");
}

/// The HTML of a row's cells.
pub open spec fn cells_html(cells: Seq<CellModel>) -> Seq<char>
    decreases cells.len(),
{
    if cells.len() == 0 {
        seq![]
    } else {
        let c = cells.last();
        cells_html(cells.drop_last()) + "<span class=\"cell\" style=\"text-align:"@ + align_css(c.align) + "\">"@ + match c.content {
            CellContentModel::Spans(sp) => spans_html(sp),
            CellContentModel::Divider(st) => "<hr class=\"divider "@ + divider_class(st) + "\" />"@,
        } + "</span>"@
    }
}

/// `n` copies of a text.
pub open spec fn repeat_text(t: Seq<char>, n: nat) -> Seq<char>
    decreases n,
{
    if n == 0 { seq![] } else { repeat_text(t, (n - 1) as nat) + t }
}

/// The inline style of an image: its width and height in points, when given.
pub open spec fn image_style(width: Option<Decimal>, height: Option<Decimal>) -> Seq<char> {
    (match width {
        Some(w) => "width:"@ + decimal_text(w) + "pt;"@,
        None => seq![],
    }) + match height {
        Some(h) => "height:"@ + decimal_text(h) + "pt;"@,
        None => seq![],
    }
}

/// The pixel size of a QR code: its size in points truncated (capped at
/// `u32::MAX`), 150 by default.
pub open spec fn qr_dim(size: Option<Decimal>) -> int {
    match size {
        Some(s) => if s.milli / 1000 > u32::MAX { u32::MAX as int } else { (s.milli / 1000) as int },
        None => 150,
    }
}

/// The HTML of one node.
pub open spec fn node_html(n: NodeModel) -> Seq<char> {
    match n {
        NodeModel::Text { spans, size } => "<div class=\"line "@ + size_class(size) + "\">"@ + spans_html(spans) + "</div>\n"@,
        NodeModel::Columns { cells, size } => "<div class=\"row "@ + size_class(size) + "\">"@ + cells_html(cells) + "</div>\n"@,
        NodeModel::Line { style } => "<hr class=\"divider "@ + divider_class(style) + "\" />\n"@,
        NodeModel::Blank => "<div class=\"blank\"></div>\n"@,
        NodeModel::Image { url, width, height, align, .. } => {
            let st = image_style(width, height);
            "<div class=\"image"@ + align_class(align) + "\"><img src=\""@ + url + "\""@ + (if st.len() == 0 {
                seq![]
            } else {
                " style=\""@ + st + "\""@
            }) + " /></div>\n"@
        },
        NodeModel::Qr { data, size, align } => "<div class=\"qr"@ + align_class(align) + "\">"@ + (match qr_grid_spec(data) {
            Some((w, m)) => qr_svg(m, w as int, qr_dim(size)),
            None => seq![],
        }) + "</div>\n"@,
        NodeModel::Barcode { format, data } => "<div class=\"barcode\">"@ + (match checked_barcode_spec(format, data) {
            Some(b) => barcode_svg(b, 50),
            None => seq![],
        }) + "</div>\n"@,
        NodeModel::Feed { amount, unit } => match unit {
            FeedUnit::Lines => repeat_text("<div class=\"blank\"></div>\n"@, round_count(amount.milli as int) as nat),
            FeedUnit::Mm => seq![],
        },
        _ => seq![],
    }
}

/// The HTML of the nodes, in order.
pub open spec fn body_html(ns: Seq<NodeModel>) -> Seq<char>
    decreases ns.len(),
{
    if ns.len() == 0 { seq![] } else { body_html(ns.drop_last()) + node_html(ns.last()) }
}

/// The font (URL and size) the last regular `@style` gives a level.
pub open spec fn level_style(ns: Seq<NodeModel>, level: Size) -> Option<(Seq<char>, Decimal)>
    decreases ns.len(),
{
    if ns.len() == 0 {
        None
    } else {
        match ns.last() {
            NodeModel::Style { level: l, font, points, bold } => if l == level && !bold {
                Some((font, points))
            } else {
                level_style(ns.drop_last(), level)
            },
            _ => level_style(ns.drop_last(), level),
        }
    }
}

/// The `@font-face` rule of a level with a custom font.
pub open spec fn font_face(ns: Seq<NodeModel>, level: Size) -> Seq<char> {
    match level_style(ns, level) {
        Some((url, _)) => if url != "default"@ {
            "\n    @font-face {\n      font-family: 'tab-"@ + size_class(level) + "';\n      src: url('"@ + url + "');\n    }"@
        } else {
            seq![]
        },
        None => seq![],
    }
}

/// The CSS rule of a styled level: its font family and size.
pub open spec fn size_rule(ns: Seq<NodeModel>, level: Size) -> Seq<char> {
    match level_style(ns, level) {
        Some((url, pts)) => {
            let family = if url == "default"@ { "monospace"@ } else { "'tab-"@ + size_class(level) + "', monospace"@ };
            "\n    ."@ + size_class(level) + " {\n      font-family: "@ + family + ";\n      font-size: "@ + tenths_text(pts) + "pt;\n    }"@
        },
        None => seq![],
    }
}

/// The size levels, in the order their rules are written.
pub open spec fn levels() -> Seq<Size> {
    seq![Size::Text, Size::TextM, Size::TextL, Size::Title, Size::TitleM, Size::TitleL]
}

/// The font faces of the first `k` levels.
pub open spec fn font_faces(ns: Seq<NodeModel>, k: int) -> Seq<char>
    decreases k,
{
    if k <= 0 { seq![] } else { font_faces(ns, k - 1) + font_face(ns, levels()[k - 1]) }
}

/// The size rules of the first `k` levels.
pub open spec fn size_rules(ns: Seq<NodeModel>, k: int) -> Seq<char>
    decreases k,
{
    if k <= 0 { seq![] } else { size_rules(ns, k - 1) + size_rule(ns, levels()[k - 1]) }
}

/// The screen width of the paper in pixels: 3.78 pixels per millimeter,
/// rounded half to even.
pub open spec fn width_px(paper_milli: int) -> int {
    let v = paper_milli * 378;
    let q = v / 100000;
    let r = v % 100000;
    if r > 50000 || (r == 50000 && q % 2 == 1) { q + 1 } else { q }
}

/// The HTML document of a list of nodes.
pub open spec fn render_html_spec(ns: Seq<NodeModel>) -> Seq<char> {
    "<!DOCTYPE html>\n<html>\n<head>\n  <meta charset=\"utf-8\">\n  <style>\n    * { margin: 0; padding: 0; box-sizing: border-box; }\n    "@ + font_faces(ns, 6) + "\n    .tab {\n      width: "@ + nat_text(width_px(crate::text_render::paper_milli(ns)) as nat) + "px;\n      margin: 20px auto;\n      padding: 12px;\n      background: #fff;\n      font-family: monospace;\n      font-size: 12pt;\n      color: #000;\n      border: 1px solid #ddd;\n    }\n    .line {\n      padding: 1px 0;\n      white-space: pre-wrap;\n    }\n    .row {\n      display: flex;\n      align-items: flex-end;\n      padding: 1px 0;\n      white-space: pre-wrap;\n    }\n    .row .cell {\n      flex: 1 0 0%;\n      word-wrap: break-word;\n      overflow-wrap: break-word;\n    }\n    .blank {\n      height: 1em;\n    }\n    hr.divider {\n      border: none;\n      margin: 4px 0;\n    }\n    hr.thin {\n      border-top: 1px solid #000;\n    }\n    hr.thick {\n      border-top: 3px solid #000;\n    }\n    hr.dotted {\n      border-top: 1px dotted #000;\n    }\n    .image { padding: 4px 0; }\n    .image img { max-width: 100%; }\n    .qr {\n      padding: 0;\n    }\n    .qr svg {\n      max-width: 100%;\n      height: auto;\n    }\n    .barcode {\n      padding: 4px 0;\n    }\n    .barcode svg {\n      width: 100%;\n      height: 50px;\n    }\n    .title, .title-m, .title-l { text-align: center; }\n    .align-left { text-align: left; }\n    .align-center { text-align: center; }\n    .align-right { text-align: right; }\n    "@ + size_rules(ns, 6)
        + "\n  </style>\n</head>\n<body>\n  <div class=\"tab\">\n"@ + body_html(ns) + "  </div>\n</body>\n</html>"@
}

fn render_cells(out: &mut Vec<char>, cells: &Vec<Cell>)
    ensures
        final(out)@ == old(out)@ + cells_html(cells_model(cells@)),
{
    let ghost cm = cells_model(cells@);
    let ghost start = out@;
    let mut i: usize = 0;
    while i < cells.len()
        invariant
            cm == cells_model(cells@),
            i <= cells@.len(),
            out@ == start + cells_html(cm.take(i as int)),
        decreases cells@.len() - i,
    {
        assert(cm.take(i + 1).drop_last() == cm.take(i as int));
        assert(cm.take(i + 1).last() == cells@[i as int]@);
        push_lit(out, "<span class=\"cell\" style=\"text-align:");
        push_lit(out, align_css_str(cells[i].align));
        push_lit(out, "\">");
        match &cells[i].content {
            CellContent::Spans(spans) => render_spans(out, spans),
            CellContent::Divider(st) => {
                push_lit(out, "<hr class=\"divider ");
                push_lit(out, divider_class_str(*st));
                push_lit(out, "\" />");
            },
        }
        push_lit(out, "</span>");
        i = i + 1;
    }
    assert(cm.take(i as int) == cm);
}

fn push_image_style(st: &mut Vec<char>, width: Option<Decimal>, height: Option<Decimal>)
    ensures
        final(st)@ == old(st)@ + image_style(width, height),
{
    let ghost start = st@;
    match width {
        Some(w) => {
            push_lit(st, "width:");
            let t = decimal_to_text(w);
            push_slice(st, t.as_slice());
            push_lit(st, "pt;");
        },
        None => {},
    }
    let ghost mid = st@;
    match height {
        Some(h) => {
            push_lit(st, "height:");
            let t = decimal_to_text(h);
            push_slice(st, t.as_slice());
            push_lit(st, "pt;");
        },
        None => {},
    }
}

fn image_html(out: &mut Vec<char>, url: &String, width: Option<Decimal>, height: Option<Decimal>, align: Option<Align>)
    ensures
        final(out)@ == old(out)@ + ({
            let st = image_style(width, height);
            "<div class=\"image"@ + align_class(align) + "\"><img src=\""@ + url@ + "\""@ + (if st.len() == 0 {
                seq![]
            } else {
                " style=\""@ + st + "\""@
            }) + " /></div>\n"@
        }),
{
    let ghost start = out@;
    let mut st: Vec<char> = Vec::new();
    push_image_style(&mut st, width, height);
    assert(st@ == Seq::<char>::empty() + image_style(width, height));
    push_lit(out, "<div class=\"image");
    push_lit(out, align_class_str(align));
    push_lit(out, "\"><img src=\"");
    push_lit(out, url.as_str());
    push_lit(out, "\"");
    let ghost mid = out@;
    if st.len() != 0 {
        push_lit(out, " style=\"");
        push_slice(out, st.as_slice());
        push_lit(out, "\"");
    } else {
        assert(out@ == mid + Seq::<char>::empty());
    }
    push_lit(out, " /></div>\n");
}

fn qr_html(out: &mut Vec<char>, data: &String, size: Option<Decimal>, align: Option<Align>)
    ensures
        final(out)@ == old(out)@ + "<div class=\"qr"@ + align_class(align) + "\">"@ + (match qr_grid_spec(data@) {
            Some((w, m)) => qr_svg(m, w as int, qr_dim(size)),
            None => seq![],
        }) + "</div>\n"@,
{
    let dim: u32 = match size {
        Some(sz) => if sz.milli / 1000 > u32::MAX as u64 { u32::MAX } else { (sz.milli / 1000) as u32 },
        None => 150,
    };
    push_lit(out, "<div class=\"qr");
    push_lit(out, align_class_str(align));
    push_lit(out, "\">");
    let ghost mid = out@;
    match encode_qr(data.as_str()) {
        Some(grid) => qr_to_svg(out, &grid, dim),
        None => {
            assert(out@ == mid + Seq::<char>::empty());
        },
    }
    push_lit(out, "</div>\n");
}

fn barcode_html(out: &mut Vec<char>, format: &String, data: &String)
    ensures
        final(out)@ == old(out)@ + "<div class=\"barcode\">"@ + (match checked_barcode_spec(format@, data@) {
            Some(b) => barcode_svg(b, 50),
            None => seq![],
        }) + "</div>\n"@,
{
    push_lit(out, "<div class=\"barcode\">");
    let ghost mid = out@;
    match encode_barcode_checked(format.as_str(), data.as_str()) {
        Some(bars) => barcode_to_svg(out, &bars, 50),
        None => {
            assert(out@ == mid + Seq::<char>::empty());
        },
    }
    push_lit(out, "</div>\n");
}

fn feed_html(out: &mut Vec<char>, amount: Decimal, unit: FeedUnit)
    ensures
        final(out)@ == old(out)@ + match unit {
            FeedUnit::Lines => repeat_text("<div class=\"blank\"></div>\n"@, round_count(amount.milli as int) as nat),
            FeedUnit::Mm => seq![],
        },
{
    match unit {
        FeedUnit::Lines => {
            let m: u64 = amount.milli;
            let q: u64 = m / 1000 + if m % 1000 >= 500 { 1 } else { 0 };
            let n: usize = if q as u128 > usize::MAX as u128 { usize::MAX } else { q as usize };
            assert(n == round_count(m as int));
            let ghost start = out@;
            let mut k: usize = 0;
            while k < n
                invariant
                    k <= n,
                    out@ == start + repeat_text("<div class=\"blank\"></div>\n"@, k as nat),
                decreases n - k,
            {
                push_lit(out, "<div class=\"blank\"></div>\n");
                k = k + 1;
            }
        },
        FeedUnit::Mm => {
            assert(out@ == old(out)@ + Seq::<char>::empty());
        },
    }
}

fn render_node_html(out: &mut Vec<char>, node: &Node)
    ensures
        final(out)@ == old(out)@ + node_html(node@),
{
    match node {
        Node::Text { spans, size } => {
            push_lit(out, "<div class=\"line ");
            push_lit(out, size_class_str(*size));
            push_lit(out, "\">");
            render_spans(out, spans);
            push_lit(out, "</div>\n");
        },
        Node::Columns { cells, size } => {
            push_lit(out, "<div class=\"row ");
            push_lit(out, size_class_str(*size));
            push_lit(out, "\">");
            render_cells(out, cells);
            push_lit(out, "</div>\n");
        },
        Node::Line { style } => {
            push_lit(out, "<hr class=\"divider ");
            push_lit(out, divider_class_str(*style));
            push_lit(out, "\" />\n");
        },
        Node::Blank => {
            push_lit(out, "<div class=\"blank\"></div>\n");
        },
        Node::Image { url, width, height, align, .. } => {
            image_html(out, url, *width, *height, *align);
        },
        Node::Qr { data, size, align } => {
            qr_html(out, data, *size, *align);
        },
        Node::Barcode { format, data } => {
            barcode_html(out, format, data);
        },
        Node::Feed { amount, unit } => {
            feed_html(out, *amount, *unit);
        },
        _ => {
            assert(out@ == old(out)@ + Seq::<char>::empty());
        },
    }
}

fn levels_exec(k: usize) -> (s: Size)
    requires
        k < 6,
    ensures
        s == levels()[k as int],
{
    match k {
        0 => Size::Text,
        1 => Size::TextM,
        2 => Size::TextL,
        3 => Size::Title,
        4 => Size::TitleM,
        _ => Size::TitleL,
    }
}

fn width_px_exec(paper_milli: u64) -> (r: u64)
    ensures
        r == width_px(paper_milli as int),
{
    let v: u128 = paper_milli as u128 * 378;
    let q: u128 = v / 100000;
    let r: u128 = v % 100000;
    let t: u128 = if r > 50000 || (r == 50000 && q % 2 == 1) { q + 1 } else { q };
    t as u64
}

fn level_index(s: Size) -> (i: usize)
    ensures
        i < 6,
        levels()[i as int] == s,
{
    match s {
        Size::Text => 0,
        Size::TextM => 1,
        Size::TextL => 2,
        Size::Title => 3,
        Size::TitleM => 4,
        Size::TitleL => 5,
    }
}

/// A slot of the style table: the index of the `@style` node that sets the
/// font of level `k`, if any.
pub open spec fn slot_ok(ns: Seq<NodeModel>, slot: Option<usize>, k: int) -> bool {
    match slot {
        Some(x) => x < ns.len() && (ns[x as int] matches NodeModel::Style { font, points, .. } && level_style(ns, levels()[k]) == Some((font, points))),
        None => level_style(ns, levels()[k]) is None,
    }
}

fn push_face(out: &mut Vec<char>, nodes: &[Node], slot: Option<usize>, k: usize)
    requires
        k < 6,
        slot_ok(nodes_model(nodes@), slot, k as int),
    ensures
        final(out)@ == old(out)@ + font_face(nodes_model(nodes@), levels()[k as int]),
{
    let ghost ns = nodes_model(nodes@);
    match slot {
        Some(x) => {
            assert(nodes@[x as int]@ == ns[x as int]);
            match &nodes[x] {
                Node::Style { font, .. } => {
                    if !str_eq(font.as_str(), "default") {
                        push_lit(out, "\n    @font-face {\n      font-family: 'tab-");
                        push_lit(out, size_class_str(levels_exec(k)));
                        push_lit(out, "';\n      src: url('");
                        push_lit(out, font.as_str());
                        push_lit(out, "');\n    }");
                    } else {
                        assert(out@ == old(out)@ + Seq::<char>::empty());
                    }
                },
                _ => {},
            }
        },
        None => {
            assert(out@ == old(out)@ + Seq::<char>::empty());
        },
    }
}

fn push_rule(out: &mut Vec<char>, nodes: &[Node], slot: Option<usize>, k: usize)
    requires
        k < 6,
        slot_ok(nodes_model(nodes@), slot, k as int),
    ensures
        final(out)@ == old(out)@ + size_rule(nodes_model(nodes@), levels()[k as int]),
{
    let ghost ns = nodes_model(nodes@);
    match slot {
        Some(x) => {
            assert(nodes@[x as int]@ == ns[x as int]);
            match &nodes[x] {
                Node::Style { font, points, .. } => {
                    let class = size_class_str(levels_exec(k));
                    push_lit(out, "\n    .");
                    push_lit(out, class);
                    push_lit(out, " {\n      font-family: ");
                    if str_eq(font.as_str(), "default") {
                        push_lit(out, "monospace");
                    } else {
                        push_lit(out, "'tab-");
                        push_lit(out, class);
                        push_lit(out, "', monospace");
                    }
                    push_lit(out, ";\n      font-size: ");
                    let t = decimal_tenths(*points);
                    push_slice(out, t.as_slice());
                    push_lit(out, "pt;\n    }");
                },
                _ => {},
            }
        },
        None => {
            assert(out@ == old(out)@ + Seq::<char>::empty());
        },
    }
}

/// Render a document to a standalone HTML page.
pub fn render_html(nodes: &[Node]) -> (html: String)
    ensures
        html@ == render_html_spec(nodes_model(nodes@)),
{
    let ghost ns = nodes_model(nodes@);
    let mut paper: u64 = 80000;
    let mut slots: Vec<Option<usize>> = Vec::new();
    let mut k: usize = 0;
    while k < 6
        invariant
            k <= 6,
            slots@.len() == k,
            forall|j: int| 0 <= j < k ==> slots@[j] is None,
        decreases 6 - k,
    {
        slots.push(None);
        k = k + 1;
    }
    let mut body: Vec<char> = Vec::new();
    let mut i: usize = 0;
    while i < nodes.len()
        invariant
            ns == nodes_model(nodes@),
            i <= nodes@.len(),
            slots@.len() == 6,
            paper == crate::text_render::paper_milli(ns.take(i as int)),
            body@ == body_html(ns.take(i as int)),
            forall|j: int| 0 <= j < 6 ==> match #[trigger] slots@[j] {
                Some(x) => x < i && (ns[x as int] matches NodeModel::Style { font, points, .. } && level_style(ns.take(i as int), levels()[j]) == Some((font, points))),
                None => level_style(ns.take(i as int), levels()[j]) is None,
            },
        decreases nodes@.len() - i,
    {
        proof {
            assert(ns.take(i + 1).drop_last() == ns.take(i as int));
            assert(ns.take(i + 1).last() == nodes@[i as int]@);
            assert(ns[i as int] == nodes@[i as int]@);
            assert forall|j: int| 0 <= j < 6 && (#[trigger] slots@[j]) is Some implies ns.take(i + 1)[slots@[j]->0 as int] == ns[slots@[j]->0 as int] by {}
        }
        match &nodes[i] {
            Node::PrinterWidth { mm } => {
                paper = mm.milli;
            },
            Node::Style { level, bold, .. } => {
                if !*bold {
                    let li = level_index(*level);
                    slots.set(li, Some(i));
                }
            },
            _ => {},
        }
        render_node_html(&mut body, &nodes[i]);
        i = i + 1;
    }
    assert(ns.take(i as int) == ns);
    assert forall|j: int| 0 <= j < 6 implies #[trigger] slot_ok(ns, slots@[j], j) by {}
    let mut out: Vec<char> = Vec::new();
    push_lit(&mut out, "<!DOCTYPE html>\n<html>\n<head>\n  <meta charset=\"utf-8\">\n  <style>\n    * { margin: 0; padding: 0; box-sizing: border-box; }\n    ");
    let ghost start1 = out@;
    let mut k: usize = 0;
    while k < 6
        invariant
            ns == nodes_model(nodes@),
            k <= 6,
            slots@.len() == 6,
            forall|j: int| 0 <= j < 6 ==> #[trigger] slot_ok(ns, slots@[j], j),
            out@ == start1 + font_faces(ns, k as int),
        decreases 6 - k,
    {
        assert(slot_ok(ns, slots@[k as int], k as int));
        push_face(&mut out, nodes, slots[k], k);
        k = k + 1;
    }
    let ghost after_faces = out@;
    push_lit(&mut out, "\n    .tab {\n      width: ");
    push_u64(&mut out, width_px_exec(paper));
    push_lit(&mut out, "px;\n      margin: 20px auto;\n      padding: 12px;\n      background: #fff;\n      font-family: monospace;\n      font-size: 12pt;\n      color: #000;\n      border: 1px solid #ddd;\n    }\n    .line {\n      padding: 1px 0;\n      white-space: pre-wrap;\n    }\n    .row {\n      display: flex;\n      align-items: flex-end;\n      padding: 1px 0;\n      white-space: pre-wrap;\n    }\n    .row .cell {\n      flex: 1 0 0%;\n      word-wrap: break-word;\n      overflow-wrap: break-word;\n    }\n    .blank {\n      height: 1em;\n    }\n    hr.divider {\n      border: none;\n      margin: 4px 0;\n    }\n    hr.thin {\n      border-top: 1px solid #000;\n    }\n    hr.thick {\n      border-top: 3px solid #000;\n    }\n    hr.dotted {\n      border-top: 1px dotted #000;\n    }\n    .image { padding: 4px 0; }\n    .image img { max-width: 100%; }\n    .qr {\n      padding: 0;\n    }\n    .qr svg {\n      max-width: 100%;\n      height: auto;\n    }\n    .barcode {\n      padding: 4px 0;\n    }\n    .barcode svg {\n      width: 100%;\n      height: 50px;\n    }\n    .title, .title-m, .title-l { text-align: center; }\n    .align-left { text-align: left; }\n    .align-center { text-align: center; }\n    .align-right { text-align: right; }\n    ");
    let ghost start2 = out@;
    let mut k: usize = 0;
    while k < 6
        invariant
            ns == nodes_model(nodes@),
            k <= 6,
            slots@.len() == 6,
            forall|j: int| 0 <= j < 6 ==> #[trigger] slot_ok(ns, slots@[j], j),
            out@ == start2 + size_rules(ns, k as int),
        decreases 6 - k,
    {
        assert(slot_ok(ns, slots@[k as int], k as int));
        push_rule(&mut out, nodes, slots[k], k);
        k = k + 1;
    }
    push_lit(&mut out, "\n  </style>\n</head>\n<body>\n  <div class=\"tab\">\n");
    push_slice(&mut out, body.as_slice());
    push_lit(&mut out, "  </div>\n</body>\n</html>");
    proof {
        let ff = font_faces(ns, 6);
        let px = nat_text(width_px(crate::text_render::paper_milli(ns)) as nat);
        let sr = size_rules(ns, 6);
        assert(start1 == "<!DOCTYPE html>\n<html>\n<head>\n  <meta charset=\"utf-8\">\n  <style>\n    * { margin: 0; padding: 0; box-sizing: border-box; }\n    "@);
        assert(after_faces == "<!DOCTYPE html>\n<html>\n<head>\n  <meta charset=\"utf-8\">\n  <style>\n    * { margin: 0; padding: 0; box-sizing: border-box; }\n    "@ + ff);
        assert(start2 == "<!DOCTYPE html>\n<html>\n<head>\n  <meta charset=\"utf-8\">\n  <style>\n    * { margin: 0; padding: 0; box-sizing: border-box; }\n    "@ + ff + "\n    .tab {\n      width: "@ + px + "px;\n      margin: 20px auto;\n      padding: 12px;\n      background: #fff;\n      font-family: monospace;\n      font-size: 12pt;\n      color: #000;\n      border: 1px solid #ddd;\n    }\n    .line {\n      padding: 1px 0;\n      white-space: pre-wrap;\n    }\n    .row {\n      display: flex;\n      align-items: flex-end;\n      padding: 1px 0;\n      white-space: pre-wrap;\n    }\n    .row .cell {\n      flex: 1 0 0%;\n      word-wrap: break-word;\n      overflow-wrap: break-word;\n    }\n    .blank {\n      height: 1em;\n    }\n    hr.divider {\n      border: none;\n      margin: 4px 0;\n    }\n    hr.thin {\n      border-top: 1px solid #000;\n    }\n    hr.thick {\n      border-top: 3px solid #000;\n    }\n    hr.dotted {\n      border-top: 1px dotted #000;\n    }\n    .image { padding: 4px 0; }\n    .image img { max-width: 100%; }\n    .qr {\n      padding: 0;\n    }\n    .qr svg {\n      max-width: 100%;\n      height: auto;\n    }\n    .barcode {\n      padding: 4px 0;\n    }\n    .barcode svg {\n      width: 100%;\n      height: 50px;\n    }\n    .title, .title-m, .title-l { text-align: center; }\n    .align-left { text-align: left; }\n    .align-center { text-align: center; }\n    .align-right { text-align: right; }\n    "@);
        assert(out@ == "<!DOCTYPE html>\n<html>\n<head>\n  <meta charset=\"utf-8\">\n  <style>\n    * { margin: 0; padding: 0; box-sizing: border-box; }\n    "@ + ff + "\n    .tab {\n      width: "@ + px + "px;\n      margin: 20px auto;\n      padding: 12px;\n      background: #fff;\n      font-family: monospace;\n      font-size: 12pt;\n      color: #000;\n      border: 1px solid #ddd;\n    }\n    .line {\n      padding: 1px 0;\n      white-space: pre-wrap;\n    }\n    .row {\n      display: flex;\n      align-items: flex-end;\n      padding: 1px 0;\n      white-space: pre-wrap;\n    }\n    .row .cell {\n      flex: 1 0 0%;\n      word-wrap: break-word;\n      overflow-wrap: break-word;\n    }\n    .blank {\n      height: 1em;\n    }\n    hr.divider {\n      border: none;\n      margin: 4px 0;\n    }\n    hr.thin {\n      border-top: 1px solid #000;\n    }\n    hr.thick {\n      border-top: 3px solid #000;\n    }\n    hr.dotted {\n      border-top: 1px dotted #000;\n    }\n    .image { padding: 4px 0; }\n    .image img { max-width: 100%; }\n    .qr {\n      padding: 0;\n    }\n    .qr svg {\n      max-width: 100%;\n      height: auto;\n    }\n    .barcode {\n      padding: 4px 0;\n    }\n    .barcode svg {\n      width: 100%;\n      height: 50px;\n    }\n    .title, .title-m, .title-l { text-align: center; }\n    .align-left { text-align: left; }\n    .align-center { text-align: center; }\n    .align-right { text-align: right; }\n    "@ + sr + "\n  </style>\n</head>\n<body>\n  <div class=\"tab\">\n"@ + body@ + "  </div>\n</body>\n</html>"@);
    }
    let s = string_of(out.as_slice(), 0, out.len());
    assert(out@.subrange(0, out@.len() as int) == out@);
    s
}

/// Each span is written in order as its escaped text, and every style but
/// normal wraps that text in a tag of its own: `<b>` for bold, `<u>` for
/// underline, `<i>` for italic, `<s>` for strikethrough.
pub proof fn law_span_tags(spans: Seq<SpanModel>, sp: SpanModel)
    ensures
        ({
            let t = html_escape_spec(sp.text);
            let before = spans_html(spans);
            let after = spans_html(spans.push(sp));
            &&& sp.style == SpanStyle::Normal ==> after == before + t
            &&& sp.style == SpanStyle::Bold ==> after == before + seq!['<', 'b', '>'] + t + seq!['<', '/', 'b', '>']
            &&& sp.style == SpanStyle::Underline ==> after == before + seq!['<', 'u', '>'] + t + seq!['<', '/', 'u', '>']
            &&& sp.style == SpanStyle::Italic ==> after == before + seq!['<', 'i', '>'] + t + seq!['<', '/', 'i', '>']
            &&& sp.style == SpanStyle::Strikethrough ==> after == before + seq!['<', 's', '>'] + t + seq!['<', '/', 's', '>']
        }),
{
    reveal_strlit("<b>");
    reveal_strlit("</b>");
    reveal_strlit("<u>");
    reveal_strlit("</u>");
    reveal_strlit("<i>");
    reveal_strlit("</i>");
    reveal_strlit("<s>");
    reveal_strlit("</s>");
    let w = spans.push(sp);
    assert(w.drop_last() == spans);
    assert(w.last() == sp);
    let t = html_escape_spec(sp.text);
    let before = spans_html(spans);
    assert("<b>"@ =~= seq!['<', 'b', '>']);
    assert("</b>"@ =~= seq!['<', '/', 'b', '>']);
    assert("<u>"@ =~= seq!['<', 'u', '>']);
    assert("</u>"@ =~= seq!['<', '/', 'u', '>']);
    assert("<i>"@ =~= seq!['<', 'i', '>']);
    assert("</i>"@ =~= seq!['<', '/', 'i', '>']);
    assert("<s>"@ =~= seq!['<', 's', '>']);
    assert("</s>"@ =~= seq!['<', '/', 's', '>']);
    assert(before + ("<s>"@ + t + "</s>"@) == before + seq!['<', 's', '>'] + t + seq!['<', '/', 's', '>']);
    assert(before + ("<b>"@ + t + "</b>"@) == before + seq!['<', 'b', '>'] + t + seq!['<', '/', 'b', '>']);
    assert(before + ("<u>"@ + t + "</u>"@) == before + seq!['<', 'u', '>'] + t + seq!['<', '/', 'u', '>']);
    assert(before + ("<i>"@ + t + "</i>"@) == before + seq!['<', 'i', '>'] + t + seq!['<', '/', 'i', '>']);
}

/// The classes and styles of the page: each size level is written with
/// its own class (`text`, `text-m`, `text-l`, `title`, `title-m`,
/// `title-l`), a cell's alignment is its `text-align`, a block's alignment
/// the class `align-left`, `align-center` or `align-right`, and a
/// divider's style the class `thin`, `thick` or `dotted`.
pub proof fn law_html_classes()
    ensures
        size_class(Size::Text) == "text"@,
        size_class(Size::TextM) == "text-m"@,
        size_class(Size::TextL) == "text-l"@,
        size_class(Size::Title) == "title"@,
        size_class(Size::TitleM) == "title-m"@,
        size_class(Size::TitleL) == "title-l"@,
        align_css(Align::Left) == "left"@,
        align_css(Align::Center) == "center"@,
        align_css(Align::Right) == "right"@,
        align_class(Some(Align::Left)) == " align-left"@,
        align_class(Some(Align::Center)) == " align-center"@,
        align_class(Some(Align::Right)) == " align-right"@,
        align_class(None) == ""@,
        divider_class(LineStyle::Thin) == "thin"@,
        divider_class(LineStyle::Thick) == "thick"@,
        divider_class(LineStyle::Dotted) == "dotted"@,
{
}

/// A text line is a `div` of class `line` and its size's class holding
/// its spans; a row of columns a `div` of class `row` and its size's class
/// holding one `span` per cell; a divider an `hr` of class `divider` and
/// its style; a blank line an empty `div` of class `blank`.
pub proof fn law_html_lines()
    ensures
        forall|spans: Seq<SpanModel>, size: Size| #![trigger node_html(NodeModel::Text { spans, size })]
            node_html(NodeModel::Text { spans, size }) == "<div class=\"line "@ + size_class(size) + "\">"@ + spans_html(spans) + "</div>\n"@,
        forall|cells: Seq<CellModel>, size: Size| #![trigger node_html(NodeModel::Columns { cells, size })]
            node_html(NodeModel::Columns { cells, size }) == "<div class=\"row "@ + size_class(size) + "\">"@ + cells_html(cells) + "</div>\n"@,
        forall|style: LineStyle| #![trigger node_html(NodeModel::Line { style })]
            node_html(NodeModel::Line { style }) == "<hr class=\"divider "@ + divider_class(style) + "\" />\n"@,
        node_html(NodeModel::Blank) == "<div class=\"blank\"></div>\n"@,
{
}

} // verus!
