use rip::ast::{Align, Cell, CellContent, LineStyle, Node, Size, Span, SpanStyle};
use rip::columns::column_widths;
use rip::groups::{group_width_pcts, identify_column_groups, measure_natural_widths_chars, precompute_columns_chars};
use rip::parser::parse;
use rip::text_render::{chars_per_line, render_text};
use rip::text_util::{align_offset, center, divider_char, spans_to_text, word_wrap};

fn span(text: &str) -> Span {
    Span { text: text.to_string(), style: SpanStyle::Normal }
}

fn cell(text: &str, pct: Option<u32>) -> Cell {
    Cell { content: CellContent::Spans(vec![span(text)]), align: Align::Left, width_pct: pct }
}

fn row(cells: Vec<Cell>) -> Node {
    Node::Columns { cells, size: Size::Text }
}

#[test]
fn render_text_basic() {
    let text = render_text(&parse("## Hello"));
    assert!(text.contains("Hello"));
}

#[test]
fn title_is_centered_on_default_paper() {
    // 80 mm at 12 pt gives 31 characters; "Hello" is padded by 13.
    let text = render_text(&parse("## Hello"));
    assert_eq!(text, format!("{}Hello\n", " ".repeat(13)));
}

#[test]
fn divider_fills_the_line() {
    assert_eq!(render_text(&parse("---")), format!("{}\n", "-".repeat(31)));
    assert_eq!(render_text(&parse("===")), format!("{}\n", "=".repeat(31)));
}

#[test]
fn two_columns_push_the_price_right() {
    let text = render_text(&parse("| Item | $5.00 |"));
    assert_eq!(text, format!("Item{}$5.00\n", " ".repeat(22)));
}

#[test]
fn placeholders_and_feed() {
    let text = render_text(&parse("@qr(x)\n@feed(2)\n@cut()"));
    assert_eq!(text, format!("{}[QR Code]\n\n\n", " ".repeat(11)));
}

#[test]
fn feed_in_mm_adds_nothing_to_text() {
    assert_eq!(render_text(&parse("@feed(5mm)")), "");
}

#[test]
fn empty_document_renders_empty_text() {
    assert_eq!(render_text(&[]), "");
}

#[test]
fn chars_per_line_formula() {
    assert_eq!(chars_per_line(80000, 12000), 31);
    assert_eq!(chars_per_line(58000, 12000), 22);
    // Never fewer than 10.
    assert_eq!(chars_per_line(10000, 12000), 10);
}

#[test]
fn spans_to_text_concatenates() {
    let spans = vec![span("a"), Span { text: "bc".to_string(), style: SpanStyle::Bold }];
    assert_eq!(spans_to_text(&spans), "abc");
}

#[test]
fn center_pads_and_truncates() {
    assert_eq!(center("ab", 6), "  ab");
    assert_eq!(center("abcdef", 4), "abcd");
    assert_eq!(center("abc", 3), "abc");
}

#[test]
fn word_wrap_cases() {
    assert_eq!(word_wrap("", 5), vec![String::new()]);
    assert_eq!(word_wrap("short", 10), vec!["short".to_string()]);
    assert_eq!(word_wrap("hello big world", 9), vec!["hello big".to_string(), "world".to_string()]);
    assert_eq!(word_wrap("abcdefghij", 4), vec!["abcd".to_string(), "efgh".to_string(), "ij".to_string()]);
    assert_eq!(word_wrap("   ", 2), vec![String::new()]);
}

#[test]
fn align_offset_cases() {
    assert_eq!(align_offset(10, 4, Align::Left), 0);
    assert_eq!(align_offset(10, 4, Align::Right), 6);
    assert_eq!(align_offset(10, 4, Align::Center), 3);
    assert_eq!(align_offset(4, 10, Align::Right), 0);
}

#[test]
fn divider_chars() {
    assert_eq!(divider_char(LineStyle::Thin), '-');
    assert_eq!(divider_char(LineStyle::Thick), '=');
    assert_eq!(divider_char(LineStyle::Dotted), '.');
}

#[test]
fn column_widths_natural_fit_gives_leftover_to_widest() {
    let r = column_widths(&[None, None], &[10000, 5000], 31000, 2000, 1000);
    assert_eq!(r, vec![(0, 24000), (26000, 5000)]);
}

#[test]
fn column_widths_explicit_and_equal_split() {
    let r = column_widths(&[Some(50), None], &[0, 0], 100, 0, 1);
    assert_eq!(r, vec![(0, 50), (50, 50)]);
}

#[test]
fn column_widths_ignore_percentages_over_100() {
    let r = column_widths(&[Some(60), Some(60)], &[0, 0], 100, 0, 1);
    assert_eq!(r, vec![(0, 50), (50, 50)]);
}

#[test]
fn column_widths_water_fill_on_overflow() {
    let r = column_widths(&[None, None], &[100, 10], 50, 0, 1);
    assert_eq!(r, vec![(0, 40), (40, 10)]);
}

#[test]
fn column_widths_over_100_percent_split_equally() {
    let r = column_widths(&[Some(80), Some(30)], &[10, 30], 100, 0, 1);
    assert_eq!(r, vec![(0, 50), (50, 50)]);
    let r = column_widths(&[Some(80), Some(30), None], &[1000, 4000, 0], 31000, 2000, 1000);
    assert_eq!(r, vec![(0, 9000), (11000, 9000), (22000, 9000)]);
}

#[test]
fn column_widths_equal_naturals_split_leftover() {
    let r = column_widths(&[None, None], &[10, 10], 100, 0, 1);
    assert_eq!(r, vec![(0, 50), (50, 50)]);
}

#[test]
fn column_widths_respect_min_col() {
    let r = column_widths(&[Some(1), None], &[0, 0], 100, 0, 5);
    assert_eq!(r, vec![(0, 5), (5, 95)]);
    assert!(column_widths(&[], &[], 100, 2, 1).is_empty());
}

#[test]
fn groups_split_on_count_and_other_nodes() {
    let nodes = vec![
        row(vec![cell("a", None), cell("b", None)]),
        row(vec![cell("cc", None), cell("d", None)]),
        row(vec![cell("e", None)]),
        Node::Blank,
        row(vec![cell("f", None)]),
    ];
    let gs = identify_column_groups(&nodes);
    let spans: Vec<(usize, usize, usize)> = gs.iter().map(|g| (g.start, g.end, g.col_count)).collect();
    assert_eq!(spans, vec![(0, 2, 2), (2, 3, 1), (4, 5, 1)]);
    assert_eq!(measure_natural_widths_chars(&nodes, &gs[0]), vec![2, 1]);
}

#[test]
fn group_percentages_first_valid_row_wins() {
    let nodes = vec![
        row(vec![cell("a", Some(80)), cell("b", Some(30))]),
        row(vec![cell("c", None), cell("d", Some(20))]),
        row(vec![cell("e", Some(40)), cell("f", Some(10))]),
    ];
    let gs = identify_column_groups(&nodes);
    assert_eq!(group_width_pcts(&nodes, &gs[0]), vec![Some(40), Some(20)]);
}

#[test]
fn precompute_covers_column_rows_only() {
    let nodes = vec![row(vec![cell("Item", None), cell("$5.00", None)]), Node::Blank];
    let pre = precompute_columns_chars(&nodes, 31, 2000, 1000);
    assert_eq!(pre.len(), 2);
    assert_eq!(pre[0], Some(vec![(0, 4000), (6000, 25000)]));
    assert_eq!(pre[1], None);
}

#[test]
fn lines_stand_alone() {
    let both = parse("## A\n| x | y |");
    let second = parse("| x | y |");
    let mut first = parse("## A");
    first.extend(second);
    assert_eq!(both.len(), 2);
    assert_eq!(both, first);
    assert!(parse("// only a comment").is_empty());
}

#[test]
fn readme_example_as_text() {
    let text = render_text(&parse("## Hello\n---\n| Item |> $5.00 |"));
    assert_eq!(
        text,
        format!("{}Hello\n{}\nItem{}$5.00\n", " ".repeat(13), "-".repeat(31), " ".repeat(22))
    );
}

#[test]
fn word_wrap_zero_width_blank_text() {
    assert_eq!(word_wrap("", 0), vec![String::new()]);
    assert_eq!(word_wrap("   ", 0), vec![String::new()]);
}

#[test]
fn word_wrap_keeps_every_character() {
    let text = "the quick brownfox jumps";
    let lines = word_wrap(text, 5);
    let joined: String = lines.concat().chars().filter(|c| !c.is_whitespace()).collect();
    let original: String = text.chars().filter(|c| !c.is_whitespace()).collect();
    assert_eq!(joined, original);
    assert!(lines.iter().all(|l| l.chars().count() <= 5));
    assert_eq!(word_wrap("fits", 4), vec!["fits".to_string()]);
}

#[test]
fn dividers_need_three_characters() {
    assert!(!matches!(parse("--")[0], rip::ast::Node::Line { .. }));
    assert_eq!(parse("..."), vec![rip::ast::Node::Line { style: LineStyle::Dotted }]);
}

#[test]
fn column_widths_at_the_largest_inputs() {
    let m = u64::MAX;
    assert_eq!(
        column_widths(&[None, None], &[m, m], m, m, m),
        vec![(0u128, m as u128), (2 * m as u128, m as u128)]
    );
    assert_eq!(column_widths(&[Some(100)], &[0], m, 0, 0), vec![(0u128, m as u128)]);
}

#[test]
fn char_layouts_cap_huge_widths() {
    let nodes = parse("| a | b |");
    let cache = precompute_columns_chars(&nodes, usize::MAX, 2000, 1000);
    // The width is capped at u64::MAX thousandths; the two one-character
    // columns split what is left after the gap evenly.
    let w: u128 = 9_223_372_036_854_774_807;
    assert_eq!(cache[0], Some(vec![(0, w), (w + 2000, w)]));
}
