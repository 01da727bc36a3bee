//! Which font, at which size, each text level is drawn with.
//!
//! `@style` directives set a level's regular font, or with a `-bold` level
//! its bold font; a later regular `@style` clears the level's bold font.
//! Levels without a directive use the built-in fonts.
use vstd::prelude::*;
use vstd::string::StringExecFns;
use crate::ast::{Decimal, Node, NodeModel, Size, nodes_model};
use crate::resources::str_eq;

verus! {

/// A font (its URL or path, or the name of a built-in font) at a size in
/// points.
#[derive(Debug)]
pub struct FontChoice {
    pub font: String,
    pub points: Decimal,
}

/// The fonts of one size level: the regular one, and the bold one when
/// there is one.
#[derive(Debug)]
pub struct LevelFonts {
    pub regular: FontChoice,
    pub bold: Option<FontChoice>,
}

/// The model of a font choice.
pub open spec fn choice_model(c: FontChoice) -> (Seq<char>, Decimal) {
    (c.font@, c.points)
}

/// The model of an optional font choice.
pub open spec fn opt_choice_model(c: Option<FontChoice>) -> Option<(Seq<char>, Decimal)> {
    match c {
        Some(x) => Some(choice_model(x)),
        None => None,
    }
}

/// The six levels, in order: text, text-m, text-l, title, title-m, title-l.
pub open spec fn level_at(i: int) -> Size {
    if i == 0 {
        Size::Text
    } else if i == 1 {
        Size::TextM
    } else if i == 2 {
        Size::TextL
    } else if i == 3 {
        Size::Title
    } else if i == 4 {
        Size::TitleM
    } else {
        Size::TitleL
    }
}

/// The position of a level in [`level_at`]'s order.
pub fn level_index(l: Size) -> (i: usize)
    ensures
        i < 6,
        level_at(i as int) == l,
{
    match l {
        Size::Text => 0,
        Size::TextM => 1,
        Size::TextL => 2,
        Size::Title => 3,
        Size::TitleM => 4,
        Size::TitleL => 5,
    }
}

/// Whether a level is a body level (not a title).
pub open spec fn is_body(l: Size) -> bool {
    l is Text || l is TextM || l is TextL
}

/// The built-in regular font of a level.
pub open spec fn builtin_font(l: Size) -> Seq<char> {
    if is_body(l) {
        "default"@
    } else {
        "default-title"@
    }
}

/// The default size of a level, in thousandths of a point: 12 pt for
/// text, 1.33, 1.67, 2, 2.5 and 3 times that for the larger levels.
pub open spec fn default_points(l: Size) -> u64 {
    match l {
        Size::Text => 12000,
        Size::TextM => 15960,
        Size::TextL => 20040,
        Size::Title => 24000,
        Size::TitleM => 30000,
        Size::TitleL => 36000,
    }
}

/// What the `@style` directives of a run of nodes leave for a level: its
/// regular font, its bold font (cleared by a later regular one), and
/// whether any regular `@style` named the level.
pub open spec fn style_state(ns: Seq<NodeModel>, l: Size) -> (Option<(Seq<char>, Decimal)>, Option<(Seq<char>, Decimal)>, bool)
    decreases ns.len(),
{
    if ns.len() == 0 {
        (None, None, false)
    } else {
        let s = style_state(ns.drop_last(), l);
        match ns.last() {
            NodeModel::Style { level, font, points, bold } => if level == l {
                if bold {
                    (s.0, Some((font, points)), s.2)
                } else {
                    (Some((font, points)), None, true)
                }
            } else {
                s
            },
            _ => s,
        }
    }
}

/// A level's regular font: that of its last regular `@style`, else the
/// built-in one at the default size.
pub open spec fn regular_spec(ns: Seq<NodeModel>, l: Size) -> (Seq<char>, Decimal) {
    match style_state(ns, l).0 {
        Some(c) => c,
        None => (builtin_font(l), Decimal { milli: default_points(l) }),
    }
}

/// A level's bold font: that of its last bold `@style` unless a regular
/// one follows; else, for a body level no regular `@style` named, the
/// built-in bold font at the default size; else none.
pub open spec fn bold_spec(ns: Seq<NodeModel>, l: Size) -> Option<(Seq<char>, Decimal)> {
    let s = style_state(ns, l);
    match s.1 {
        Some(c) => Some(c),
        None => if is_body(l) && !s.2 {
            Some(("default-bold"@, Decimal { milli: default_points(l) }))
        } else {
            None
        },
    }
}

/// The fonts of every level, in [`level_at`]'s order.
pub open spec fn plan_ok(plan: Seq<LevelFonts>, ns: Seq<NodeModel>) -> bool {
    &&& plan.len() == 6
    &&& forall|i: int| 0 <= i < 6 ==> choice_model(#[trigger] plan[i].regular) == regular_spec(ns, level_at(i))
        && opt_choice_model(plan[i].bold) == bold_spec(ns, level_at(i))
}

fn choice(font: &String, points: Decimal) -> (c: FontChoice)
    ensures
        choice_model(c) == (font@, points),
{
    FontChoice { font: font.clone(), points }
}

fn copy_choice(c: &Option<FontChoice>) -> (r: Option<FontChoice>)
    ensures
        opt_choice_model(r) == opt_choice_model(*c),
{
    match c {
        Some(x) => Some(choice(&x.font, x.points)),
        None => None,
    }
}

fn default_points_exec(l: Size) -> (p: u64)
    ensures
        p == default_points(l),
{
    match l {
        Size::Text => 12000,
        Size::TextM => 15960,
        Size::TextL => 20040,
        Size::Title => 24000,
        Size::TitleM => 30000,
        Size::TitleL => 36000,
    }
}

fn is_body_exec(l: Size) -> (b: bool)
    ensures
        b == is_body(l),
{
    match l {
        Size::Text | Size::TextM | Size::TextL => true,
        _ => false,
    }
}

/// The fonts of every size level, in [`level_at`]'s order (see
/// [`regular_spec`] and [`bold_spec`]).
pub fn font_plan(nodes: &[Node]) -> (plan: Vec<LevelFonts>)
    ensures
        plan_ok(plan@, nodes_model(nodes@)),
{
    let ghost ns = nodes_model(nodes@);
    let mut regs: Vec<Option<FontChoice>> = Vec::new();
    let mut bolds: Vec<Option<FontChoice>> = Vec::new();
    let mut explicit: Vec<bool> = Vec::new();
    let mut k: usize = 0;
    while k < 6
        invariant
            k <= 6,
            regs@.len() == k && bolds@.len() == k && explicit@.len() == k,
            forall|j: int| 0 <= j < k ==> (#[trigger] regs@[j]) is None && bolds@[j] is None && !explicit@[j],
        decreases 6 - k,
    {
        regs.push(None);
        bolds.push(None);
        explicit.push(false);
        k = k + 1;
    }
    let mut i: usize = 0;
    assert(ns.take(0) =~= Seq::<NodeModel>::empty());
    while i < nodes.len()
        invariant
            ns == nodes_model(nodes@),
            i <= nodes@.len(),
            regs@.len() == 6 && bolds@.len() == 6 && explicit@.len() == 6,
            forall|j: int| 0 <= j < 6 ==> {
                let s = #[trigger] style_state(ns.take(i as int), level_at(j));
                opt_choice_model(regs@[j]) == s.0 && opt_choice_model(bolds@[j]) == s.1 && explicit@[j] == s.2
            },
        decreases nodes@.len() - i,
    {
        assert(ns.take(i + 1).drop_last() =~= ns.take(i as int));
        assert(ns.take(i + 1).last() == nodes@[i as int]@);
        let ghost pre = ns.take(i as int);
        let ghost post = ns.take(i + 1);
        assert forall|j: int| 0 <= j < 6 implies #[trigger] style_state(post, level_at(j)) == (match nodes@[i as int]@ {
            NodeModel::Style { level, font, points, bold } => if level == level_at(j) {
                if bold {
                    (style_state(pre, level_at(j)).0, Some((font, points)), style_state(pre, level_at(j)).2)
                } else {
                    (Some((font, points)), None, true)
                }
            } else {
                style_state(pre, level_at(j))
            },
            _ => style_state(pre, level_at(j)),
        }) by {}
        match &nodes[i] {
            Node::Style { level, font, points, bold } => {
                let idx = level_index(*level);
                if *bold {
                    bolds.set(idx, Some(choice(font, *points)));
                } else {
                    regs.set(idx, Some(choice(font, *points)));
                    bolds.set(idx, None);
                    explicit.set(idx, true);
                }
                assert forall|j: int| 0 <= j < 6 && j != idx implies level_at(j) != *level by {}
            },
            _ => {},
        }
        i = i + 1;
    }
    assert(ns.take(i as int) =~= ns);
    let mut plan: Vec<LevelFonts> = Vec::new();
    let mut k: usize = 0;
    while k < 6
        invariant
            k <= 6,
            regs@.len() == 6 && bolds@.len() == 6 && explicit@.len() == 6,
            forall|j: int| 0 <= j < 6 ==> {
                let s = #[trigger] style_state(ns, level_at(j));
                opt_choice_model(regs@[j]) == s.0 && opt_choice_model(bolds@[j]) == s.1 && explicit@[j] == s.2
            },
            plan@.len() == k,
            forall|j: int| 0 <= j < k ==> choice_model(#[trigger] plan@[j].regular) == regular_spec(ns, level_at(j))
                && opt_choice_model(plan@[j].bold) == bold_spec(ns, level_at(j)),
        decreases 6 - k,
    {
        let level: Size = if k == 0 {
            Size::Text
        } else if k == 1 {
            Size::TextM
        } else if k == 2 {
            Size::TextL
        } else if k == 3 {
            Size::Title
        } else if k == 4 {
            Size::TitleM
        } else {
            Size::TitleL
        };
        assert(level == level_at(k as int));
        let regular = match &regs[k] {
            Some(c) => choice(&c.font, c.points),
            None => {
                let name = if is_body_exec(level) {
                    String::from_str("default")
                } else {
                    String::from_str("default-title")
                };
                choice(&name, Decimal { milli: default_points_exec(level) })
            },
        };
        let bold = match &bolds[k] {
            Some(c) => Some(choice(&c.font, c.points)),
            None => if is_body_exec(level) && !explicit[k] {
                let name = String::from_str("default-bold");
                Some(choice(&name, Decimal { milli: default_points_exec(level) }))
            } else {
                None
            },
        };
        assert(choice_model(regular) == regular_spec(ns, level));
        assert(opt_choice_model(bold) == bold_spec(ns, level));
        let ghost before = plan@;
        let lf = LevelFonts { regular, bold };
        plan.push(lf);
        assert(plan@ == before.push(lf));
        k = k + 1;
        assert forall|j: int| 0 <= j < k implies choice_model(#[trigger] plan@[j].regular) == regular_spec(ns, level_at(j))
            && opt_choice_model(plan@[j].bold) == bold_spec(ns, level_at(j)) by {
            if j < k - 1 {
                assert(plan@[j] == before[j]);
                assert(choice_model(before[j].regular) == regular_spec(ns, level_at(j)));
                assert(opt_choice_model(before[j].bold) == bold_spec(ns, level_at(j)));
            } else {
                assert(plan@[j] == lf);
                assert(j == k - 1);
                assert(level_at(j) == level);
                assert(choice_model(lf.regular) == regular_spec(ns, level));
                assert(opt_choice_model(lf.bold) == bold_spec(ns, level));
            }
        }
    }
    plan
}

/// The font a level's text is drawn with, given which font names loaded:
/// the level's regular font; else the built-in font of its kind; else the
/// built-in body font — each at the level's size; else, for other levels
/// than text, the text level's font at the text size; else none.
pub open spec fn pick_spec(regs: Seq<Seq<char>>, loaded: Seq<Seq<char>>, l: Size) -> Option<(Seq<char>, Size)> {
    let own = regs[level_index_spec(l)];
    let fallback = builtin_font(l);
    if loaded.contains(own) {
        Some((own, l))
    } else if loaded.contains(fallback) {
        Some((fallback, l))
    } else if loaded.contains("default"@) {
        Some(("default"@, l))
    } else if l != Size::Text && loaded.contains(regs[0]) {
        Some((regs[0], Size::Text))
    } else {
        None
    }
}

/// The position of a level in [`level_at`]'s order.
pub open spec fn level_index_spec(l: Size) -> int {
    match l {
        Size::Text => 0,
        Size::TextM => 1,
        Size::TextL => 2,
        Size::Title => 3,
        Size::TitleM => 4,
        Size::TitleL => 5,
    }
}

/// The regular font names of a plan, in level order.
pub open spec fn regular_names(plan: Seq<LevelFonts>) -> Seq<Seq<char>> {
    Seq::new(plan.len(), |i: int| plan[i].regular.font@)
}

fn contains_name(names: &[String], x: &str) -> (r: bool)
    ensures
        r == crate::collect::strings_model(names@).contains(x@),
{
    let ghost m = crate::collect::strings_model(names@);
    let mut i: usize = 0;
    while i < names.len()
        invariant
            m == crate::collect::strings_model(names@),
            i <= names@.len(),
            forall|j: int| 0 <= j < i ==> names@[j]@ != x@,
        decreases names@.len() - i,
    {
        if str_eq(names[i].as_str(), x) {
            assert(m[i as int] == x@);
            return true;
        }
        i = i + 1;
    }
    assert(!m.contains(x@)) by {
        if m.contains(x@) {
            let j = choose|j: int| 0 <= j < m.len() && m[j] == x@;
            assert(names@[j]@ == x@);
        }
    }
    false
}

/// The font a level's text is drawn with, and the level whose size it is
/// drawn at (see [`pick_spec`]); `loaded` holds the names of the fonts
/// that could be loaded.
pub fn pick_font(plan: &[LevelFonts], loaded: &[String], l: Size) -> (r: Option<(String, Size)>)
    requires
        plan@.len() == 6,
    ensures
        match r {
            Some((f, s)) => pick_spec(regular_names(plan@), crate::collect::strings_model(loaded@), l) == Some((f@, s)),
            None => pick_spec(regular_names(plan@), crate::collect::strings_model(loaded@), l) is None,
        },
{
    let ghost regs = regular_names(plan@);
    let idx = level_index(l);
    assert(idx == level_index_spec(l));
    let own = &plan[idx].regular.font;
    assert(regs[idx as int] == own@);
    if contains_name(loaded, own.as_str()) {
        return Some((own.clone(), l));
    }
    let fallback = if is_body_exec(l) {
        String::from_str("default")
    } else {
        String::from_str("default-title")
    };
    if contains_name(loaded, fallback.as_str()) {
        return Some((fallback, l));
    }
    let body = String::from_str("default");
    if contains_name(loaded, body.as_str()) {
        return Some((body, l));
    }
    let is_text = match l {
        Size::Text => true,
        _ => false,
    };
    assert(regs[0] == plan@[0].regular.font@);
    if !is_text && contains_name(loaded, plan[0].regular.font.as_str()) {
        return Some((plan[0].regular.font.clone(), Size::Text));
    }
    None
}

/// The bold font of a level, when it has one and it could be loaded.
pub fn pick_bold(plan: &[LevelFonts], loaded: &[String], l: Size) -> (r: Option<FontChoice>)
    requires
        plan@.len() == 6,
    ensures
        opt_choice_model(r) == match opt_choice_model(plan@[level_index_spec(l)].bold) {
            Some(c) => if crate::collect::strings_model(loaded@).contains(c.0) { Some(c) } else { None },
            None => None,
        },
{
    let idx = level_index(l);
    assert(idx == level_index_spec(l));
    match &plan[idx].bold {
        Some(c) => if contains_name(loaded, c.font.as_str()) {
            Some(choice(&c.font, c.points))
        } else {
            None
        },
        None => None,
    }
}

/// Setting a regular `@style` for a level clears its bold font (and a
/// body level then gets no built-in bold font either); setting a bold
/// `@style` makes it the level's bold font. Later directives win.
pub proof fn law_regular_clears_bold(ns: Seq<NodeModel>, l: Size, font: Seq<char>, points: Decimal)
    ensures
        bold_spec(ns.push(NodeModel::Style { level: l, font, points, bold: false }), l) is None,
        regular_spec(ns.push(NodeModel::Style { level: l, font, points, bold: false }), l) == (font, points),
        bold_spec(ns.push(NodeModel::Style { level: l, font, points, bold: true }), l) == Some((font, points)),
        regular_spec(ns.push(NodeModel::Style { level: l, font, points, bold: true }), l) == regular_spec(ns, l),
{
    let r = ns.push(NodeModel::Style { level: l, font, points, bold: false });
    let b = ns.push(NodeModel::Style { level: l, font, points, bold: true });
    assert(r.drop_last() =~= ns);
    assert(b.drop_last() =~= ns);
}

/// The built-in fonts and sizes: body levels use the regular built-in
/// face and headers the title face; text is 12 pt, medium and large text
/// 15.96 and 20.04 pt, and the three header levels 24, 30 and 36 pt.
pub proof fn law_builtin_fonts()
    ensures
        builtin_font(Size::Text) == "default"@ && builtin_font(Size::TextM) == "default"@ && builtin_font(Size::TextL) == "default"@,
        builtin_font(Size::Title) == "default-title"@ && builtin_font(Size::TitleM) == "default-title"@
            && builtin_font(Size::TitleL) == "default-title"@,
        default_points(Size::Text) == 12000,
        default_points(Size::TextM) == 15960,
        default_points(Size::TextL) == 20040,
        default_points(Size::Title) == 24000,
        default_points(Size::TitleM) == 30000,
        default_points(Size::TitleL) == 36000,
{
}

} // verus!
