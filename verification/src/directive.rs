//! `@name(args)` directives.
use vstd::prelude::*;
use crate::ast::{Align, Decimal, FeedUnit, Node, NodeModel, Size};
use crate::lexical::{
    trim, has_suffix, has_prefix, first_index, last_index, split_fields, trimmed, ends_with, lemma_trim_idem,
    begins_with, slice_vec, find_first, find_last, split_trimmed,
};
use crate::numbers::{parse_decimal_spec, parse_decimal, parse_uint_spec, parse_uint};
use crate::strs::{chars_eq_str, chars_of, string_of};

verus! {

/// A length in millimeters: a decimal with an optional `in`, `mm` or `cm`
/// suffix (no suffix means millimeters). Inches are 25.4 mm, truncated to
/// thousandths.
pub open spec fn length_mm_spec(s: Seq<char>) -> Option<Decimal> {
    let t = trim(s);
    if has_suffix(t, seq!['i', 'n']) {
        match parse_decimal_spec(trim(t.take(t.len() - 2))) {
            Some(d) => if d.milli * 254 / 10 <= u64::MAX {
                Some(Decimal { milli: (d.milli * 254 / 10) as u64 })
            } else {
                None
            },
            None => None,
        }
    } else if has_suffix(t, seq!['m', 'm']) {
        parse_decimal_spec(trim(t.take(t.len() - 2)))
    } else if has_suffix(t, seq!['c', 'm']) {
        match parse_decimal_spec(trim(t.take(t.len() - 2))) {
            Some(d) => if d.milli * 10 <= u64::MAX {
                Some(Decimal { milli: (d.milli * 10) as u64 })
            } else {
                None
            },
            None => None,
        }
    } else {
        parse_decimal_spec(t)
    }
}

fn chars_vec(s: &str) -> (v: Vec<char>)
    ensures
        v@ == s@,
{
    chars_of(s)
}

/// Parse a length with a unit suffix into millimeters.
pub fn parse_length_to_mm(s: &[char]) -> (r: Option<Decimal>)
    ensures
        r == length_mm_spec(s@),
{
    let t = trimmed(s);
    let n = t.len();
    let inch = chars_vec("in");
    let mm = chars_vec("mm");
    let cm = chars_vec("cm");
    proof {
        reveal_strlit("in");
        reveal_strlit("mm");
        reveal_strlit("cm");
        assert(inch@ =~= seq!['i', 'n']);
        assert(mm@ =~= seq!['m', 'm']);
        assert(cm@ =~= seq!['c', 'm']);
    }
    if ends_with(t.as_slice(), inch.as_slice()) {
        let num = trimmed(slice_vec(t.as_slice(), 0, n - 2).as_slice());
        proof { assert(t@.take(n - 2) =~= t@.subrange(0, n - 2)); }
        match parse_decimal(num.as_slice()) {
            Some(d) => {
                let m: u128 = (d.milli as u128) * 254 / 10;
                if m <= u64::MAX as u128 {
                    Some(Decimal { milli: m as u64 })
                } else {
                    None
                }
            },
            None => None,
        }
    } else if ends_with(t.as_slice(), mm.as_slice()) {
        let num = trimmed(slice_vec(t.as_slice(), 0, n - 2).as_slice());
        proof { assert(t@.take(n - 2) =~= t@.subrange(0, n - 2)); }
        parse_decimal(num.as_slice())
    } else if ends_with(t.as_slice(), cm.as_slice()) {
        let num = trimmed(slice_vec(t.as_slice(), 0, n - 2).as_slice());
        proof { assert(t@.take(n - 2) =~= t@.subrange(0, n - 2)); }
        match parse_decimal(num.as_slice()) {
            Some(d) => if d.milli <= u64::MAX / 10 {
                Some(Decimal { milli: d.milli * 10 })
            } else {
                None
            },
            None => None,
        }
    } else {
        parse_decimal(t.as_slice())
    }
}

/// The size level a style name selects.
pub open spec fn size_level_spec(name: Seq<char>) -> Option<Size> {
    if name == "text"@ {
        Some(Size::Text)
    } else if name == "text-m"@ {
        Some(Size::TextM)
    } else if name == "text-l"@ {
        Some(Size::TextL)
    } else if name == "title"@ {
        Some(Size::Title)
    } else if name == "title-m"@ {
        Some(Size::TitleM)
    } else if name == "title-l"@ {
        Some(Size::TitleL)
    } else {
        None
    }
}

/// Parse a size level name.
pub fn parse_size_level(name: &[char]) -> (r: Option<Size>)
    ensures
        r == size_level_spec(name@),
{
    if chars_eq_str(name, "text") {
        Some(Size::Text)
    } else if chars_eq_str(name, "text-m") {
        Some(Size::TextM)
    } else if chars_eq_str(name, "text-l") {
        Some(Size::TextL)
    } else if chars_eq_str(name, "title") {
        Some(Size::Title)
    } else if chars_eq_str(name, "title-m") {
        Some(Size::TitleM)
    } else if chars_eq_str(name, "title-l") {
        Some(Size::TitleL)
    } else {
        None
    }
}

/// The level of a `@style` directive and whether it names the bold variant
/// (a `-bold` suffix).
pub open spec fn style_level_spec(name: Seq<char>) -> Option<(Size, bool)> {
    if has_suffix(name, "-bold"@) {
        match size_level_spec(name.take(name.len() - 5)) {
            Some(s) => Some((s, true)),
            None => None,
        }
    } else {
        match size_level_spec(name) {
            Some(s) => Some((s, false)),
            None => None,
        }
    }
}

/// Parse the level argument of `@style`.
pub fn parse_style_level(name: &[char]) -> (r: Option<(Size, bool)>)
    ensures
        r == style_level_spec(name@),
{
    let suffix = chars_vec("-bold");
    proof {
        reveal_strlit("-bold");
    }
    if ends_with(name, suffix.as_slice()) {
        let base = slice_vec(name, 0, name.len() - 5);
        proof { assert(base@ =~= name@.take(name@.len() - 5)); }
        match parse_size_level(base.as_slice()) {
            Some(s) => Some((s, true)),
            None => None,
        }
    } else {
        match parse_size_level(name) {
            Some(s) => Some((s, false)),
            None => None,
        }
    }
}

/// The distance of a `@feed` argument: a length with a unit is in
/// millimeters; otherwise a decimal or a fraction `a/b` (with `b` non-zero)
/// counts lines. Fractions are truncated to thousandths.
pub open spec fn feed_spec(arg: Seq<char>) -> Option<(Decimal, FeedUnit)> {
    let t = trim(arg);
    if has_suffix(t, "in"@) || has_suffix(t, "mm"@) || has_suffix(t, "cm"@) {
        match length_mm_spec(t) {
            Some(d) => Some((d, FeedUnit::Mm)),
            None => None,
        }
    } else {
        match first_index(t, '/') {
            Some(p) => match (parse_decimal_spec(trim(t.take(p))), parse_decimal_spec(trim(t.skip(p + 1)))) {
                (Some(a), Some(b)) => if b.milli > 0 && a.milli * 1000 / (b.milli as int) <= u64::MAX {
                    Some((Decimal { milli: (a.milli * 1000 / (b.milli as int)) as u64 }, FeedUnit::Lines))
                } else {
                    None
                },
                _ => None,
            },
            None => match parse_decimal_spec(t) {
                Some(d) => Some((d, FeedUnit::Lines)),
                None => None,
            },
        }
    }
}

/// Parse the argument of `@feed`.
pub fn parse_feed(arg: &[char]) -> (r: Option<(Decimal, FeedUnit)>)
    ensures
        r == feed_spec(arg@),
{
    let t = trimmed(arg);
    let inch = chars_vec("in");
    let mm = chars_vec("mm");
    let cm = chars_vec("cm");
    if ends_with(t.as_slice(), inch.as_slice()) || ends_with(t.as_slice(), mm.as_slice())
        || ends_with(t.as_slice(), cm.as_slice()) {
        proof {
            assert(trim(t@) == t@) by { lemma_trim_idem(arg@); }
        }
        match parse_length_to_mm(t.as_slice()) {
            Some(d) => Some((d, FeedUnit::Mm)),
            None => None,
        }
    } else {
        match find_first(t.as_slice(), '/') {
            Some(p) => {
                let a = trimmed(slice_vec(t.as_slice(), 0, p).as_slice());
                let b = trimmed(slice_vec(t.as_slice(), p + 1, t.len()).as_slice());
                proof {
                    assert(t@.subrange(0, p as int) =~= t@.take(p as int));
                    assert(t@.subrange(p + 1, t@.len() as int) =~= t@.skip(p + 1));
                }
                match (parse_decimal(a.as_slice()), parse_decimal(b.as_slice())) {
                    (Some(x), Some(y)) => {
                        if y.milli == 0 {
                            return None;
                        }
                        let q: u128 = (x.milli as u128) * 1000 / (y.milli as u128);
                        if q <= u64::MAX as u128 {
                            Some((Decimal { milli: q as u64 }, FeedUnit::Lines))
                        } else {
                            None
                        }
                    },
                    _ => None,
                }
            },
            None => match parse_decimal(t.as_slice()) {
                Some(d) => Some((d, FeedUnit::Lines)),
                None => None,
            },
        }
    }
}

/// The arguments of a directive: its comma-separated, trimmed fields, or
/// none when the argument text is blank.
pub open spec fn directive_args(s: Seq<char>) -> Seq<Seq<char>> {
    if trim(s).len() == 0 {
        seq![]
    } else {
        split_fields(s, ',').map_values(|f: Seq<char>| trim(f))
    }
}

/// The decimal argument at `i`, when present and well formed.
pub open spec fn arg_decimal(args: Seq<Seq<char>>, i: int) -> Option<Decimal> {
    if i < args.len() {
        parse_decimal_spec(args[i])
    } else {
        None
    }
}

/// `@printer-width(length)`.
pub open spec fn printer_width_of(args: Seq<Seq<char>>) -> Option<NodeModel> {
    if args.len() > 0 {
        match length_mm_spec(args[0]) {
            Some(mm) => Some(NodeModel::PrinterWidth { mm }),
            None => None,
        }
    } else {
        None
    }
}

/// `@printer-dpi(n)`, `n` a 32-bit unsigned integer.
pub open spec fn printer_dpi_of(args: Seq<Seq<char>>) -> Option<NodeModel> {
    if args.len() > 0 {
        match parse_uint_spec(args[0], u32::MAX as nat) {
            Some(v) => Some(NodeModel::PrinterDpi { dpi: v as u32 }),
            None => None,
        }
    } else {
        None
    }
}

/// `@printer-threshold(n)`, `n` in 0..=255.
pub open spec fn printer_threshold_of(args: Seq<Seq<char>>) -> Option<NodeModel> {
    if args.len() > 0 {
        match parse_uint_spec(args[0], 255) {
            Some(v) => Some(NodeModel::PrinterThreshold { threshold: v as u8 }),
            None => None,
        }
    } else {
        None
    }
}

/// `@style(level, font, points)`.
pub open spec fn style_of(args: Seq<Seq<char>>) -> Option<NodeModel> {
    if args.len() >= 3 {
        match (style_level_spec(args[0]), parse_decimal_spec(args[2])) {
            (Some((level, bold)), Some(points)) => Some(NodeModel::Style { level, font: args[1], points, bold }),
            _ => None,
        }
    } else {
        None
    }
}

/// `@image(url, width?, height?)` and `@logo(...)`.
pub open spec fn image_of(args: Seq<Seq<char>>, align: Option<Align>, dither: bool) -> Option<NodeModel> {
    if args.len() > 0 {
        Some(NodeModel::Image {
            url: args[0],
            width: arg_decimal(args, 1),
            height: arg_decimal(args, 2),
            align,
            dither,
        })
    } else {
        None
    }
}

/// `@qr(data, size?)`.
pub open spec fn qr_of(args: Seq<Seq<char>>, align: Option<Align>) -> Option<NodeModel> {
    if args.len() > 0 {
        Some(NodeModel::Qr { data: args[0], size: arg_decimal(args, 1), align })
    } else {
        None
    }
}

/// `@barcode(format, data)`.
pub open spec fn barcode_of(args: Seq<Seq<char>>) -> Option<NodeModel> {
    if args.len() >= 2 {
        Some(NodeModel::Barcode { format: args[0], data: args[1] })
    } else {
        None
    }
}

/// `@feed(amount)`.
pub open spec fn feed_of(args: Seq<Seq<char>>) -> Option<NodeModel> {
    if args.len() > 0 {
        match feed_spec(args[0]) {
            Some((amount, unit)) => Some(NodeModel::Feed { amount, unit }),
            None => None,
        }
    } else {
        None
    }
}

/// The node a directive with a known name and arguments stands for.
pub open spec fn directive_of(name: Seq<char>, args: Seq<Seq<char>>, align: Option<Align>) -> Option<NodeModel> {
    if name == "printer-width"@ {
        printer_width_of(args)
    } else if name == "printer-dpi"@ {
        printer_dpi_of(args)
    } else if name == "printer-threshold"@ {
        printer_threshold_of(args)
    } else if name == "style"@ {
        style_of(args)
    } else if name == "image"@ {
        image_of(args, align, true)
    } else if name == "logo"@ {
        image_of(args, align, false)
    } else if name == "qr"@ {
        qr_of(args, align)
    } else if name == "barcode"@ {
        barcode_of(args)
    } else if name == "cut"@ {
        Some(NodeModel::Cut { partial: args.len() > 0 && args[0] == "partial"@ })
    } else if name == "feed"@ {
        feed_of(args)
    } else if name == "drawer"@ {
        Some(NodeModel::Drawer)
    } else {
        None
    }
}

/// The node a `@name(args)` line stands for: the name runs from after the
/// `@` to the first `(`, the arguments from there to the last `)`.
/// Unknown names and malformed lines stand for nothing.
pub open spec fn directive_spec(line: Seq<char>, align: Option<Align>) -> Option<NodeModel> {
    let t = trim(line);
    if !(t.len() > 0 && t[0] == '@') {
        None
    } else {
        let a = t.skip(1);
        match (first_index(a, '('), last_index(a, ')')) {
            (Some(p), Some(q)) => if q <= p {
                None
            } else {
                directive_of(trim(a.take(p)), directive_args(a.subrange(p + 1, q)), align)
            },
            _ => None,
        }
    }
}

/// The model of an optional node.
pub open spec fn opt_model(o: Option<Node>) -> Option<NodeModel> {
    match o {
        Some(n) => Some(n@),
        None => None,
    }
}

/// The models of a list of argument vectors.
pub open spec fn args_model(args: Seq<Vec<char>>) -> Seq<Seq<char>> {
    args.map_values(|v: Vec<char>| v@)
}

fn arg_decimal_exec(args: &Vec<Vec<char>>, i: usize) -> (r: Option<Decimal>)
    ensures
        r == arg_decimal(args_model(args@), i as int),
{
    if i < args.len() {
        parse_decimal(args[i].as_slice())
    } else {
        None
    }
}

fn owned(v: &Vec<char>) -> (s: String)
    ensures
        s@ == v@,
{
    let s = string_of(v.as_slice(), 0, v.len());
    proof { assert(v@.subrange(0, v@.len() as int) =~= v@); }
    s
}

fn printer_width_node(args: &Vec<Vec<char>>) -> (r: Option<Node>)
    ensures
        opt_model(r) == printer_width_of(args_model(args@)),
{
    if args.len() > 0 {
        match parse_length_to_mm(args[0].as_slice()) {
            Some(mm) => Some(Node::PrinterWidth { mm }),
            None => None,
        }
    } else {
        None
    }
}

fn printer_dpi_node(args: &Vec<Vec<char>>) -> (r: Option<Node>)
    ensures
        opt_model(r) == printer_dpi_of(args_model(args@)),
{
    if args.len() > 0 {
        match parse_uint(args[0].as_slice(), 0xFFFF_FFFF) {
            Some(v) => Some(Node::PrinterDpi { dpi: v as u32 }),
            None => None,
        }
    } else {
        None
    }
}

fn printer_threshold_node(args: &Vec<Vec<char>>) -> (r: Option<Node>)
    ensures
        opt_model(r) == printer_threshold_of(args_model(args@)),
{
    if args.len() > 0 {
        match parse_uint(args[0].as_slice(), 255) {
            Some(v) => Some(Node::PrinterThreshold { threshold: v as u8 }),
            None => None,
        }
    } else {
        None
    }
}

fn style_node(args: &Vec<Vec<char>>) -> (r: Option<Node>)
    ensures
        opt_model(r) == style_of(args_model(args@)),
{
    if args.len() >= 3 {
        match (parse_style_level(args[0].as_slice()), parse_decimal(args[2].as_slice())) {
            (Some((level, bold)), Some(points)) => {
                let font = owned(&args[1]);
                Some(Node::Style { level, font, points, bold })
            },
            _ => None,
        }
    } else {
        None
    }
}

fn image_node(args: &Vec<Vec<char>>, align: Option<Align>, dither: bool) -> (r: Option<Node>)
    ensures
        opt_model(r) == image_of(args_model(args@), align, dither),
{
    if args.len() > 0 {
        let url = owned(&args[0]);
        Some(Node::Image { url, width: arg_decimal_exec(args, 1), height: arg_decimal_exec(args, 2), align, dither })
    } else {
        None
    }
}

fn qr_node(args: &Vec<Vec<char>>, align: Option<Align>) -> (r: Option<Node>)
    ensures
        opt_model(r) == qr_of(args_model(args@), align),
{
    if args.len() > 0 {
        let data = owned(&args[0]);
        Some(Node::Qr { data, size: arg_decimal_exec(args, 1), align })
    } else {
        None
    }
}

fn barcode_node(args: &Vec<Vec<char>>) -> (r: Option<Node>)
    ensures
        opt_model(r) == barcode_of(args_model(args@)),
{
    if args.len() >= 2 {
        let format = owned(&args[0]);
        let data = owned(&args[1]);
        Some(Node::Barcode { format, data })
    } else {
        None
    }
}

fn feed_node(args: &Vec<Vec<char>>) -> (r: Option<Node>)
    ensures
        opt_model(r) == feed_of(args_model(args@)),
{
    if args.len() > 0 {
        match parse_feed(args[0].as_slice()) {
            Some((amount, unit)) => Some(Node::Feed { amount, unit }),
            None => None,
        }
    } else {
        None
    }
}

/// Build the node for a directive name and its arguments.
fn directive_node(name: &[char], args: &Vec<Vec<char>>, align: Option<Align>) -> (r: Option<Node>)
    ensures
        opt_model(r) == directive_of(name@, args_model(args@), align),
{
    if chars_eq_str(name, "printer-width") {
        printer_width_node(args)
    } else if chars_eq_str(name, "printer-dpi") {
        printer_dpi_node(args)
    } else if chars_eq_str(name, "printer-threshold") {
        printer_threshold_node(args)
    } else if chars_eq_str(name, "style") {
        style_node(args)
    } else if chars_eq_str(name, "image") {
        image_node(args, align, true)
    } else if chars_eq_str(name, "logo") {
        image_node(args, align, false)
    } else if chars_eq_str(name, "qr") {
        qr_node(args, align)
    } else if chars_eq_str(name, "barcode") {
        barcode_node(args)
    } else if chars_eq_str(name, "cut") {
        let partial = args.len() > 0 && chars_eq_str(args[0].as_slice(), "partial");
        Some(Node::Cut { partial })
    } else if chars_eq_str(name, "feed") {
        feed_node(args)
    } else if chars_eq_str(name, "drawer") {
        Some(Node::Drawer)
    } else {
        None
    }
}

/// Parse a `@name(args)` directive line (see [`directive_spec`]).
pub fn parse_directive(line: &[char], align: Option<Align>) -> (r: Option<Node>)
    ensures
        opt_model(r) == directive_spec(line@, align),
{
    let t = trimmed(line);
    if !(t.len() > 0 && t[0] == '@') {
        return None;
    }
    let a = slice_vec(t.as_slice(), 1, t.len());
    proof { assert(a@ =~= t@.skip(1)); }
    let p = match find_first(a.as_slice(), '(') {
        Some(p) => p,
        None => return None,
    };
    let q = match find_last(a.as_slice(), ')') {
        Some(q) => q,
        None => return None,
    };
    if q <= p {
        return None;
    }
    let name = trimmed(slice_vec(a.as_slice(), 0, p).as_slice());
    proof { assert(a@.subrange(0, p as int) =~= a@.take(p as int)); }
    let args_str = slice_vec(a.as_slice(), p + 1, q);
    let blank = trimmed(args_str.as_slice());
    let args: Vec<Vec<char>> = if blank.len() == 0 {
        Vec::new()
    } else {
        split_trimmed(args_str.as_slice(), ',')
    };
    proof {
        assert(args_model(args@) =~= directive_args(args_str@));
    }
    directive_node(name.as_slice(), &args, align)
}

/// The level names of `@style`: `text`, `text-m`, `text-l`, `title`,
/// `title-m` and `title-l`; a name with `-bold` appended selects the bold
/// variant of the same level, and a plain name the regular one.
pub proof fn law_level_names(name: Seq<char>)
    ensures
        size_level_spec("text"@) == Some(Size::Text),
        size_level_spec("text-m"@) == Some(Size::TextM),
        size_level_spec("text-l"@) == Some(Size::TextL),
        size_level_spec("title"@) == Some(Size::Title),
        size_level_spec("title-m"@) == Some(Size::TitleM),
        size_level_spec("title-l"@) == Some(Size::TitleL),
        style_level_spec(name + "-bold"@) == match size_level_spec(name) {
            Some(s) => Some((s, true)),
            None => None,
        },
        !has_suffix(name, "-bold"@) ==> style_level_spec(name) == match size_level_spec(name) {
            Some(s) => Some((s, false)),
            None => None,
        },
{
    reveal_strlit("text");
    reveal_strlit("text-m");
    reveal_strlit("text-l");
    reveal_strlit("title");
    reveal_strlit("title-m");
    reveal_strlit("title-l");
    reveal_strlit("-bold");
    let b = name + "-bold"@;
    assert(b.skip(b.len() - 5) =~= "-bold"@);
    assert(b.take(b.len() - 5) =~= name);
    assert("text"@ != "text-m"@) by { assert("text"@.len() != "text-m"@.len()); }
    assert("text"@ != "text-l"@) by { assert("text"@.len() != "text-l"@.len()); }
    assert("text"@ != "title"@) by { assert("text"@.len() != "title"@.len()); }
    assert("text-m"@ != "text-l"@) by { assert("text-m"@[5] != "text-l"@[5]); }
    assert("text-m"@ != "title"@) by { assert("text-m"@.len() != "title"@.len()); }
    assert("text-l"@ != "title"@) by { assert("text-l"@.len() != "title"@.len()); }
    assert("text"@ != "title-m"@) by { assert("text"@.len() != "title-m"@.len()); }
    assert("text-m"@ != "title-m"@) by { assert("text-m"@.len() != "title-m"@.len()); }
    assert("text-l"@ != "title-m"@) by { assert("text-l"@.len() != "title-m"@.len()); }
    assert("title"@ != "title-m"@) by { assert("title"@.len() != "title-m"@.len()); }
    assert("text"@ != "title-l"@) by { assert("text"@.len() != "title-l"@.len()); }
    assert("text-m"@ != "title-l"@) by { assert("text-m"@.len() != "title-l"@.len()); }
    assert("text-l"@ != "title-l"@) by { assert("text-l"@.len() != "title-l"@.len()); }
    assert("title"@ != "title-l"@) by { assert("title"@.len() != "title-l"@.len()); }
    assert("title-m"@ != "title-l"@) by { assert("title-m"@[6] != "title-l"@[6]); }
}

} // verus!
