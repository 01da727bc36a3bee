use rip::ast::{Span, SpanStyle};
use rip::inline::parse_spans;

fn span(text: &str, style: SpanStyle) -> Span {
    Span {
        text: text.to_string(),
        style,
    }
}

#[test]
fn inline_plain_text() {
    assert_eq!(
        parse_spans("hello world"),
        vec![span("hello world", SpanStyle::Normal)]
    );
}

#[test]
fn bold() {
    assert_eq!(parse_spans("*bold*"), vec![span("bold", SpanStyle::Bold)]);
}

#[test]
fn underline() {
    assert_eq!(
        parse_spans("_underline_"),
        vec![span("underline", SpanStyle::Underline)]
    );
}

#[test]
fn italic() {
    assert_eq!(parse_spans("`italic`"), vec![span("italic", SpanStyle::Italic)]);
}

#[test]
fn strikethrough() {
    assert_eq!(
        parse_spans("~strikethrough~"),
        vec![span("strikethrough", SpanStyle::Strikethrough)]
    );
}

#[test]
fn mixed_text_and_style() {
    assert_eq!(
        parse_spans("hello *world*"),
        vec![
            span("hello ", SpanStyle::Normal),
            span("world", SpanStyle::Bold),
        ]
    );
}

#[test]
fn style_in_middle() {
    assert_eq!(
        parse_spans("before *bold* after"),
        vec![
            span("before ", SpanStyle::Normal),
            span("bold", SpanStyle::Bold),
            span(" after", SpanStyle::Normal),
        ]
    );
}

#[test]
fn unclosed_style_applies_to_rest() {
    assert_eq!(
        parse_spans("*bold to the end"),
        vec![span("bold to the end", SpanStyle::Bold)]
    );
}

#[test]
fn escaped_delimiter() {
    assert_eq!(
        parse_spans("\\*not bold\\*"),
        vec![span("*not bold*", SpanStyle::Normal)]
    );
}

#[test]
fn escaped_backslash() {
    assert_eq!(
        parse_spans("back\\\\slash"),
        vec![span("back\\slash", SpanStyle::Normal)]
    );
}

#[test]
fn nested_delimiters_literal() {
    // Different delimiter inside a style is treated as literal text
    assert_eq!(
        parse_spans("*bold _with_ under*"),
        vec![span("bold _with_ under", SpanStyle::Bold)]
    );
}

#[test]
fn multiple_styles_sequential() {
    assert_eq!(
        parse_spans("*bold* and _underline_"),
        vec![
            span("bold", SpanStyle::Bold),
            span(" and ", SpanStyle::Normal),
            span("underline", SpanStyle::Underline),
        ]
    );
}

#[test]
fn empty_input() {
    assert_eq!(parse_spans(""), Vec::<Span>::new());
}

#[test]
fn style_at_boundaries() {
    assert_eq!(parse_spans("*TOTAL*"), vec![span("TOTAL", SpanStyle::Bold)]);
}

#[test]
fn dollar_amounts_with_style() {
    assert_eq!(parse_spans("*$19.74*"), vec![span("$19.74", SpanStyle::Bold)]);
}

#[test]
fn escape_of_ordinary_character_keeps_it() {
    assert_eq!(parse_spans("\\a"), vec![span("a", SpanStyle::Normal)]);
}

#[test]
fn empty_delimited_span_is_dropped() {
    assert_eq!(
        parse_spans("a**b"),
        vec![span("a", SpanStyle::Normal), span("b", SpanStyle::Normal)]
    );
}
