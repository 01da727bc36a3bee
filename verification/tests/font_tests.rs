use rip::ast::{Decimal, Size};
use rip::fonts::{font_plan, level_index, pick_bold, pick_font};
use rip::parser::parse;

fn pts(milli: u64) -> Decimal {
    Decimal::from_milli(milli)
}

#[test]
fn built_in_fonts_by_default() {
    let plan = font_plan(&parse("Hello"));
    assert_eq!(plan.len(), 6);
    let regular: Vec<(String, Decimal)> = plan.iter().map(|l| (l.regular.font.clone(), l.regular.points)).collect();
    assert_eq!(
        regular,
        vec![
            ("default".to_string(), pts(12000)),
            ("default".to_string(), pts(15960)),
            ("default".to_string(), pts(20040)),
            ("default-title".to_string(), pts(24000)),
            ("default-title".to_string(), pts(30000)),
            ("default-title".to_string(), pts(36000)),
        ]
    );
    let bold: Vec<Option<String>> = plan.iter().map(|l| l.bold.as_ref().map(|c| c.font.clone())).collect();
    let db = Some("default-bold".to_string());
    assert_eq!(bold, vec![db.clone(), db.clone(), db, None, None, None]);
}

#[test]
fn regular_style_clears_bold() {
    let plan = font_plan(&parse("@style(text-bold, b.ttf, 12)\n@style(text, r.ttf, 10)"));
    let text = &plan[level_index(Size::Text)];
    assert_eq!((text.regular.font.as_str(), text.regular.points), ("r.ttf", pts(10000)));
    assert!(text.bold.is_none());

    let plan = font_plan(&parse("@style(text, r.ttf, 10)\n@style(text-bold, b.ttf, 11)"));
    let bold = plan[0].bold.as_ref().unwrap();
    assert_eq!((bold.font.as_str(), bold.points), ("b.ttf", pts(11000)));
}

#[test]
fn font_fallbacks() {
    let plan = font_plan(&parse("@style(text, r.ttf, 10)"));
    let none: Vec<String> = vec![];
    assert!(pick_font(&plan, &none, Size::Title).is_none());
    let only_default = vec!["default".to_string()];
    assert_eq!(pick_font(&plan, &only_default, Size::Title), Some(("default".to_string(), Size::Title)));
    let only_custom = vec!["r.ttf".to_string()];
    assert_eq!(pick_font(&plan, &only_custom, Size::Title), Some(("r.ttf".to_string(), Size::Text)));
    assert_eq!(pick_font(&plan, &only_custom, Size::Text), Some(("r.ttf".to_string(), Size::Text)));

    let plan = font_plan(&parse("Hello"));
    assert!(pick_bold(&plan, &none, Size::TextM).is_none());
    let bolds = vec!["default-bold".to_string()];
    let b = pick_bold(&plan, &bolds, Size::TextM).unwrap();
    assert_eq!((b.font.as_str(), b.points), ("default-bold", pts(15960)));
    assert!(pick_bold(&plan, &bolds, Size::Title).is_none());
}
