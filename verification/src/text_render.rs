//! Plain monospaced text rendering.
use vstd::prelude::*;
use crate::ast::{Cell, CellContent, CellContentModel, CellModel, Decimal, FeedUnit, Node, NodeModel, Size, Span, cells_model, nodes_model, spans_model};
use crate::columns::{column_widths, layout_spec, pairs, law_min_col};
use crate::groups::{cache_spec, groups_spec, group_layout, precompute_columns_chars, cache_model, milli_chars, milli_chars_exec};
use crate::lexical::{trim_end, trim_end_vec};
use crate::strs::string_of;
use crate::text_util::{align_offset, align_offset_spec, center_chars, center_spec, divider_char, divider_char_spec, lines_model, spaces, spans_chars, spans_text, word_wrap_chars, word_wrap_spec};

verus! {

/// `n` copies of `c`.
pub open spec fn repeat_char(c: char, n: nat) -> Seq<char> {
    Seq::new(n, |i: int| c)
}

/// Each line followed by a newline.
pub open spec fn lines_out(ls: Seq<Seq<char>>) -> Seq<char>
    decreases ls.len(),
{
    if ls.len() == 0 {
        seq![]
    } else {
        lines_out(ls.drop_last()) + ls.last() + seq!['\n']
    }
}

/// Whether a size is a header size.
pub open spec fn is_title(s: Size) -> bool {
    s == Size::Title || s == Size::TitleM || s == Size::TitleL
}

/// The text of a text node: its words wrapped to the width, each line
/// centered for a header.
pub open spec fn text_node_out(spans: Seq<crate::ast::SpanModel>, size: Size, width: nat) -> Seq<char> {
    let ls = word_wrap_spec(spans_text(spans), width);
    if is_title(size) {
        lines_out(Seq::new(ls.len(), |i: int| center_spec(ls[i], width)))
    } else {
        lines_out(ls)
    }
}

/// A quantity in thousandths of a character, rounded to whole characters
/// (halves up) and capped at `usize::MAX`.
pub open spec fn round_units(v: int) -> int {
    if (v + 500) / 1000 > usize::MAX { usize::MAX as int } else { (v + 500) / 1000 }
}

/// A layout rounded to whole characters.
pub open spec fn rounded_cols(p: Seq<(int, int)>) -> Seq<(int, int)> {
    Seq::new(p.len(), |i: int| (round_units(p[i].0), round_units(p[i].1)))
}

/// The layout of a row outside any group: its own percentages, no natural
/// widths, a gap of 2 characters and columns of at least 1.
pub open spec fn fallback_layout(cells: Seq<CellModel>, width: int) -> Seq<(int, int)> {
    layout_spec(
        Seq::new(cells.len(), |i: int| cells[i].width_pct),
        Seq::new(cells.len(), |i: int| 0u64),
        milli_chars(width),
        2000,
        1000,
    )
}

/// The columns of a row, in characters.
pub open spec fn cols_for(cells: Seq<CellModel>, width: int, pre: Option<Seq<(int, int)>>) -> Seq<(int, int)> {
    rounded_cols(
        match pre {
            Some(p) => p,
            None => fallback_layout(cells, width),
        },
    )
}

/// The wrapped lines of each cell (none for a divider).
pub open spec fn cell_lines_spec(cells: Seq<CellModel>, cols: Seq<(int, int)>) -> Seq<Seq<Seq<char>>> {
    Seq::new(cells.len(), |i: int| if i < cols.len() {
        match cells[i].content {
            CellContentModel::Spans(sp) => word_wrap_spec(spans_text(sp), cols[i].1 as nat),
            CellContentModel::Divider(_) => seq![],
        }
    } else {
        seq![]
    })
}

/// The number of output lines of a row: the most lines of any cell, at
/// least 1.
pub open spec fn max_lines(cl: Seq<Seq<Seq<char>>>) -> int
    decreases cl.len(),
{
    if cl.len() == 0 {
        1
    } else {
        let m = max_lines(cl.drop_last());
        if cl.last().len() > m { cl.last().len() as int } else { m }
    }
}

/// A line padded with spaces to at least `x` characters.
pub open spec fn pad_to(line: Seq<char>, x: int) -> Seq<char> {
    if line.len() < x { line + spaces((x - line.len()) as nat) } else { line }
}

/// A line with one more cell: padded to the column, then the cell's line
/// of this row aligned in the column, or the divider on the last row.
pub open spec fn cell_piece(line: Seq<char>, cell: CellModel, col: (int, int), ls: Seq<Seq<char>>, row: int, last: bool) -> Seq<char> {
    let l = pad_to(line, col.0);
    match cell.content {
        CellContentModel::Spans(_) => {
            let t = if 0 <= row < ls.len() { ls[row] } else { seq![] };
            l + spaces(align_offset_spec(col.1, t.len() as int, cell.align) as nat) + t
        },
        CellContentModel::Divider(st) => if last { l + repeat_char(divider_char_spec(st), col.1 as nat) } else { l },
    }
}

/// One output line of a row, from its first `k` cells.
pub open spec fn row_line(cells: Seq<CellModel>, cols: Seq<(int, int)>, cl: Seq<Seq<Seq<char>>>, row: int, last: bool, k: int) -> Seq<char>
    decreases k,
{
    if k <= 0 {
        seq![]
    } else {
        cell_piece(row_line(cells, cols, cl, row, last, k - 1), cells[k - 1], cols[k - 1], cl[k - 1], row, last)
    }
}

/// The first `r` output lines of a row of `m` lines, trailing spaces cut.
pub open spec fn col_rows_out(cells: Seq<CellModel>, cols: Seq<(int, int)>, cl: Seq<Seq<Seq<char>>>, m: int, r: int) -> Seq<char>
    decreases r,
{
    if r <= 0 {
        seq![]
    } else {
        let k = if cells.len() <= cols.len() { cells.len() as int } else { cols.len() as int };
        col_rows_out(cells, cols, cl, m, r - 1) + trim_end(row_line(cells, cols, cl, r - 1, r - 1 == m - 1, k)) + seq!['\n']
    }
}

/// The text of a column row.
pub open spec fn columns_out(cells: Seq<CellModel>, width: int, pre: Option<Seq<(int, int)>>) -> Seq<char> {
    let cols = cols_for(cells, width, pre);
    let cl = cell_lines_spec(cells, cols);
    let m = max_lines(cl);
    col_rows_out(cells, cols, cl, m, m)
}

/// A decimal rounded to a whole number (halves up).
pub open spec fn round_milli(m: int) -> int {
    (m + 500) / 1000
}

/// A decimal rounded to a whole count, capped at `usize::MAX`.
pub open spec fn round_count(m: int) -> int {
    if round_milli(m) > usize::MAX { usize::MAX as int } else { round_milli(m) }
}

/// The text of one node.
pub open spec fn node_out(n: NodeModel, width: int, pre: Option<Seq<(int, int)>>) -> Seq<char> {
    match n {
        NodeModel::Text { spans, size } => text_node_out(spans, size, width as nat),
        NodeModel::Columns { cells, .. } => columns_out(cells, width, pre),
        NodeModel::Line { style } => repeat_char(divider_char_spec(style), width as nat) + seq!['\n'],
        NodeModel::Blank => seq!['\n'],
        NodeModel::Image { .. } => center_spec("[IMAGE]"@, width as nat) + seq!['\n'],
        NodeModel::Qr { .. } => center_spec("[QR Code]"@, width as nat) + seq!['\n'],
        NodeModel::Barcode { .. } => center_spec("[Barcode]"@, width as nat) + seq!['\n'],
        NodeModel::Feed { amount, unit } => match unit {
            FeedUnit::Lines => repeat_char('\n', round_count(amount.milli as int) as nat),
            FeedUnit::Mm => seq![],
        },
        _ => seq![],
    }
}

/// The text of the nodes, node `i` laid out with `cache[i]`.
pub open spec fn render_out(ns: Seq<NodeModel>, width: int, cache: Seq<Option<Seq<(int, int)>>>) -> Seq<char>
    decreases ns.len(),
{
    if ns.len() == 0 {
        seq![]
    } else {
        render_out(ns.drop_last(), width, cache) + node_out(ns.last(), width, cache[ns.len() - 1])
    }
}

/// The paper width in thousandths of a millimeter: the last
/// `@printer-width`, else 80 mm.
pub open spec fn paper_milli(ns: Seq<NodeModel>) -> int
    decreases ns.len(),
{
    if ns.len() == 0 {
        80000
    } else {
        match ns.last() {
            NodeModel::PrinterWidth { mm } => mm.milli as int,
            _ => paper_milli(ns.drop_last()),
        }
    }
}

/// The body font size in thousandths of a point: the last `@style(text, ..)`,
/// else 12 pt.
pub open spec fn text_points_milli(ns: Seq<NodeModel>) -> int
    decreases ns.len(),
{
    if ns.len() == 0 {
        12000
    } else {
        match ns.last() {
            NodeModel::Style { level: Size::Text, points, .. } => points.milli as int,
            _ => text_points_milli(ns.drop_last()),
        }
    }
}

/// Characters per line for a paper width and font size: a character is
/// 0.6 of the font height, so `paper / (points * 25.4 / 72 * 0.6)`
/// rounded down, at least 10 (a zero font on zero paper also gives 10; a
/// zero font on any other paper gives the largest width).
pub open spec fn chars_per_line_spec(paper: int, points: int) -> int {
    if points == 0 {
        if paper == 0 { 10 } else { usize::MAX as int }
    } else {
        let c = paper * 7200 / (points * 1524);
        if c > usize::MAX { usize::MAX as int } else if c < 10 { 10 } else { c }
    }
}

/// The width, in characters, a document is rendered at.
pub open spec fn text_width(ns: Seq<NodeModel>) -> int {
    chars_per_line_spec(paper_milli(ns), text_points_milli(ns))
}

/// The plain text of a document.
pub open spec fn render_text_spec(ns: Seq<NodeModel>) -> Seq<char> {
    let w = text_width(ns);
    render_out(ns, w, cache_spec(ns, groups_spec(ns), milli_chars(w), 2000, 1000))
}

pub(crate) fn push_slice(out: &mut Vec<char>, t: &[char])
    ensures
        final(out)@ == old(out)@ + t@,
{
    let ghost start = out@;
    let mut j: usize = 0;
    while j < t.len()
        invariant
            j <= t@.len(),
            out@ == start + t@.take(j as int),
        decreases t@.len() - j,
    {
        out.push(t[j]);
        j = j + 1;
        assert(t@.take(j as int) == t@.take(j - 1).push(t@[j - 1]));
    }
    assert(t@.take(j as int) == t@);
}

fn push_repeat(out: &mut Vec<char>, c: char, n: usize)
    ensures
        final(out)@ == old(out)@ + repeat_char(c, n as nat),
{
    let ghost start = out@;
    let mut j: usize = 0;
    while j < n
        invariant
            j <= n,
            out@ == start + repeat_char(c, j as nat),
        decreases n - j,
    {
        out.push(c);
        j = j + 1;
        assert(repeat_char(c, j as nat) == repeat_char(c, (j - 1) as nat).push(c));
    }
}

fn round_units_exec(v: u128) -> (r: usize)
    ensures
        r == round_units(v as int),
{
    let q: u128 = v / 1000 + if v % 1000 >= 500 { 1 } else { 0 };
    assert(q == (v + 500) / 1000);
    if q > usize::MAX as u128 { usize::MAX } else { q as usize }
}

fn paper_and_points(nodes: &[Node]) -> (r: (u64, u64))
    ensures
        r.0 == paper_milli(nodes_model(nodes@)),
        r.1 == text_points_milli(nodes_model(nodes@)),
{
    let ghost ns = nodes_model(nodes@);
    let mut paper: u64 = 80000;
    let mut points: u64 = 12000;
    let mut i: usize = 0;
    while i < nodes.len()
        invariant
            ns == nodes_model(nodes@),
            i <= nodes@.len(),
            paper == paper_milli(ns.take(i as int)),
            points == text_points_milli(ns.take(i as int)),
        decreases nodes@.len() - i,
    {
        assert(ns.take(i + 1).drop_last() == ns.take(i as int));
        assert(ns.take(i + 1).last() == nodes@[i as int]@);
        match &nodes[i] {
            Node::PrinterWidth { mm } => {
                paper = mm.milli;
            },
            Node::Style { level: Size::Text, points: p, .. } => {
                points = p.milli;
            },
            _ => {},
        }
        i = i + 1;
    }
    assert(ns.take(i as int) == ns);
    (paper, points)
}

/// Characters per line for a paper width (thousandths of a millimeter) and
/// a font size (thousandths of a point); see [`chars_per_line_spec`].
pub fn chars_per_line(paper_milli: u64, points_milli: u64) -> (c: usize)
    ensures
        c == chars_per_line_spec(paper_milli as int, points_milli as int),
{
    if points_milli == 0 {
        return if paper_milli == 0 { 10 } else { usize::MAX };
    }
    let c: u128 = paper_milli as u128 * 7200 / (points_milli as u128 * 1524);
    if c > usize::MAX as u128 {
        usize::MAX
    } else if c < 10 {
        10
    } else {
        c as usize
    }
}

fn text_node_exec(out: &mut Vec<char>, spans: &Vec<Span>, size: Size, width: usize)
    requires
        width > 0,
    ensures
        final(out)@ == old(out)@ + text_node_out(spans_model(spans@), size, width as nat),
{
    let t = spans_chars(spans.as_slice());
    let ls = word_wrap_chars(t.as_slice(), width);
    let title = match size {
        Size::Title | Size::TitleM | Size::TitleL => true,
        _ => false,
    };
    let ghost lsm = lines_model(ls@);
    let ghost target = if title {
        Seq::new(lsm.len(), |i: int| center_spec(lsm[i], width as nat))
    } else {
        lsm
    };
    let ghost start = out@;
    let mut i: usize = 0;
    while i < ls.len()
        invariant
            i <= ls@.len(),
            lsm == lines_model(ls@),
            target.len() == ls@.len(),
            forall|k: int| 0 <= k < target.len() ==> #[trigger] target[k] == if title {
                center_spec(ls@[k]@, width as nat)
            } else {
                ls@[k]@
            },
            out@ == start + lines_out(target.take(i as int)),
        decreases ls@.len() - i,
    {
        assert(target.take(i + 1).drop_last() == target.take(i as int));
        if title {
            let c = center_chars(ls[i].as_slice(), width);
            push_slice(out, c.as_slice());
        } else {
            push_slice(out, ls[i].as_slice());
        }
        out.push('\n');
        i = i + 1;
    }
    assert(target.take(i as int) == target);
    assert(is_title(size) == title);
}

/// Position and width pairs in characters, as integers.
pub open spec fn upairs(r: Seq<(usize, usize)>) -> Seq<(int, int)> {
    Seq::new(r.len(), |i: int| (r[i].0 as int, r[i].1 as int))
}

/// The wrapped lines of each cell, as character sequences.
pub open spec fn cells_lines_model(cl: Seq<Vec<Vec<char>>>) -> Seq<Seq<Seq<char>>> {
    Seq::new(cl.len(), |i: int| lines_model(cl[i]@))
}

pub(crate) fn round_all(p: &Vec<(u128, u128)>) -> (r: Vec<(usize, usize)>)
    ensures
        upairs(r@) == rounded_cols(pairs(p@)),
{
    let mut r: Vec<(usize, usize)> = Vec::new();
    let mut i: usize = 0;
    while i < p.len()
        invariant
            i <= p@.len(),
            r@.len() == i,
            forall|k: int| 0 <= k < i ==> (#[trigger] r@[k]).0 == round_units(p@[k].0 as int) && r@[k].1 == round_units(p@[k].1 as int),
        decreases p@.len() - i,
    {
        let (x, w) = p[i];
        let rx = round_units_exec(x);
        let rw = round_units_exec(w);
        r.push((rx, rw));
        i = i + 1;
    }
    assert(upairs(r@) == rounded_cols(pairs(p@)));
    r
}

pub(crate) fn fallback_cols(cells: &Vec<Cell>, width: usize) -> (r: Vec<(u128, u128)>)
    ensures
        pairs(r@) == fallback_layout(cells_model(cells@), width as int),
{
    let ghost cm = cells_model(cells@);
    let mut pcts: Vec<Option<u32>> = Vec::new();
    let mut zeros: Vec<u64> = Vec::new();
    let mut i: usize = 0;
    while i < cells.len()
        invariant
            cm == cells_model(cells@),
            i <= cells@.len(),
            pcts@.len() == i,
            zeros@.len() == i,
            forall|k: int| 0 <= k < i ==> #[trigger] pcts@[k] == cm[k].width_pct,
            forall|k: int| 0 <= k < i ==> #[trigger] zeros@[k] == 0,
        decreases cells@.len() - i,
    {
        pcts.push(cells[i].width_pct);
        zeros.push(0);
        i = i + 1;
    }
    assert(pcts@ == Seq::new(cm.len(), |k: int| cm[k].width_pct));
    assert(zeros@ == Seq::new(cm.len(), |k: int| 0u64));
    column_widths(pcts.as_slice(), zeros.as_slice(), milli_chars_exec(width as u64), 2000, 1000)
}

pub(crate) fn wrap_cells(cells: &Vec<Cell>, cols: &Vec<(usize, usize)>) -> (r: (Vec<Vec<Vec<char>>>, usize))
    requires
        forall|k: int| 0 <= k < cols@.len() ==> (#[trigger] cols@[k]).1 > 0,
    ensures
        cells_lines_model(r.0@) == cell_lines_spec(cells_model(cells@), upairs(cols@)),
        r.1 == max_lines(cell_lines_spec(cells_model(cells@), upairs(cols@))),
{
    let ghost cm = cells_model(cells@);
    let ghost target = cell_lines_spec(cm, upairs(cols@));
    let mut cl: Vec<Vec<Vec<char>>> = Vec::new();
    let mut m: usize = 1;
    let mut i: usize = 0;
    while i < cells.len()
        invariant
            cm == cells_model(cells@),
            target == cell_lines_spec(cm, upairs(cols@)),
            forall|k: int| 0 <= k < cols@.len() ==> (#[trigger] cols@[k]).1 > 0,
            i <= cells@.len(),
            cells_lines_model(cl@) == target.take(i as int),
            m == max_lines(target.take(i as int)),
        decreases cells@.len() - i,
    {
        let ghost before = cells_lines_model(cl@);
        let ls: Vec<Vec<char>> = if i >= cols.len() {
            Vec::new()
        } else {
            match &cells[i].content {
                CellContent::Spans(spans) => {
                    let t = spans_chars(spans.as_slice());
                    assert(cm[i as int].content == CellContentModel::Spans(spans_model(spans@)));
                    word_wrap_chars(t.as_slice(), cols[i].1)
                },
                CellContent::Divider(_) => Vec::new(),
            }
        };
        assert(lines_model(ls@) == target[i as int]);
        if ls.len() > m {
            m = ls.len();
        }
        cl.push(ls);
        proof {
            assert(cells_lines_model(cl@) == before.push(lines_model(ls@)));
            assert(target.take(i + 1) == target.take(i as int).push(target[i as int]));
            assert(target.take(i + 1).drop_last() == target.take(i as int));
        }
        i = i + 1;
    }
    assert(target.take(i as int) == target);
    (cl, m)
}

fn build_row(cells: &Vec<Cell>, cols: &Vec<(usize, usize)>, cl: &Vec<Vec<Vec<char>>>, row: usize, last: bool) -> (line: Vec<char>)
    requires
        cl@.len() == cells@.len(),
    ensures
        line@ == row_line(
            cells_model(cells@),
            upairs(cols@),
            cells_lines_model(cl@),
            row as int,
            last,
            if cells@.len() <= cols@.len() { cells@.len() as int } else { cols@.len() as int },
        ),
{
    let ghost cm = cells_model(cells@);
    let ghost cp = upairs(cols@);
    let ghost clm = cells_lines_model(cl@);
    let mut line: Vec<char> = Vec::new();
    let mut i: usize = 0;
    while i < cells.len() && i < cols.len()
        invariant
            cm == cells_model(cells@),
            cp == upairs(cols@),
            clm == cells_lines_model(cl@),
            cl@.len() == cells@.len(),
            i <= cells@.len(),
            i <= cols@.len(),
            line@ == row_line(cm, cp, clm, row as int, last, i as int),
        decreases cells@.len() - i,
    {
        let (x, w) = cols[i];
        let ghost l0 = line@;
        while line.len() < x
            invariant
                l0.len() < x ==> line@ == l0 + spaces((line@.len() - l0.len()) as nat),
                l0.len() >= x ==> line@ == l0,
                line@.len() <= (if l0.len() < x { x as int } else { l0.len() as int }),
                line@.len() >= l0.len(),
            decreases x - line@.len(),
        {
            line.push(' ');
            assert(spaces((line@.len() - l0.len()) as nat) == spaces((line@.len() - 1 - l0.len()) as nat).push(' '));
        }
        assert(line@ == pad_to(l0, x as int));
        match &cells[i].content {
            CellContent::Spans(_) => {
                let empty: Vec<char> = Vec::new();
                let t: &Vec<char> = if row < cl[i].len() { &cl[i][row] } else { &empty };
                assert(t@ == if 0 <= row < clm[i as int].len() { clm[i as int][row as int] } else { seq![] });
                let off = align_offset(w, t.len(), cells[i].align);
                push_repeat(&mut line, ' ', off);
                assert(repeat_char(' ', off as nat) == spaces(off as nat));
                push_slice(&mut line, t.as_slice());
            },
            CellContent::Divider(style) => {
                if last {
                    push_repeat(&mut line, divider_char(*style), w);
                }
            },
        }
        i = i + 1;
    }
    line
}

/// The model of an optional layout.
pub open spec fn pre_model(o: Option<Vec<(u128, u128)>>) -> Option<Seq<(int, int)>> {
    match o {
        Some(v) => Some(pairs(v@)),
        None => None,
    }
}

/// Every column of an optional layout is at least one character wide.
pub open spec fn pre_ok(o: Option<Vec<(u128, u128)>>) -> bool {
    match o {
        Some(v) => forall|k: int| 0 <= k < v@.len() ==> (#[trigger] v@[k]).1 >= 1000,
        None => true,
    }
}

fn columns_exec(out: &mut Vec<char>, cells: &Vec<Cell>, width: usize, pre: &Option<Vec<(u128, u128)>>)
    requires
        pre_ok(*pre),
    ensures
        final(out)@ == old(out)@ + columns_out(cells_model(cells@), width as int, pre_model(*pre)),
{
    let ghost cm = cells_model(cells@);
    let raw: Vec<(u128, u128)> = match pre {
        Some(p) => {
            let mut r: Vec<(u128, u128)> = Vec::new();
            let mut i: usize = 0;
            while i < p.len()
                invariant
                    i <= p@.len(),
                    r@ == p@.take(i as int),
                decreases p@.len() - i,
            {
                r.push(p[i]);
                i = i + 1;
            }
            assert(r@ == p@);
            r
        },
        None => {
            let r = fallback_cols(cells, width);
            proof {
                let pp = Seq::new(cm.len(), |i: int| cm[i].width_pct);
                let zz = Seq::new(cm.len(), |i: int| 0u64);
                law_min_col(pp, zz, milli_chars(width as int), 2000, 1000);
                let w = crate::columns::widths_spec(pp, zz, milli_chars(width as int), 2000, 1000);
                assert(pairs(r@).len() == r@.len());
                assert forall|k: int| 0 <= k < r@.len() implies (#[trigger] r@[k]).1 >= 1000 by {
                    assert(pairs(r@)[k].1 == r@[k].1);
                    assert(fallback_layout(cm, width as int)[k].1 == w[k]);
                }
            }
            r
        },
    };
    assert(forall|k: int| 0 <= k < raw@.len() ==> (#[trigger] raw@[k]).1 >= 1000);
    let cols = round_all(&raw);
    assert(upairs(cols@).len() == cols@.len());
    assert(pairs(raw@).len() == raw@.len());
    assert forall|k: int| 0 <= k < cols@.len() implies (#[trigger] cols@[k]).1 > 0 by {
        assert(upairs(cols@)[k].1 == cols@[k].1);
        assert(rounded_cols(pairs(raw@))[k].1 == round_units(raw@[k].1 as int));
    }
    let ghost cp = upairs(cols@);
    assert(cp == cols_for(cm, width as int, pre_model(*pre)));
    let (cl, m) = wrap_cells(cells, &cols);
    let ghost clm = cells_lines_model(cl@);
    let ghost start = out@;
    let mut row: usize = 0;
    while row < m
        invariant
            cm == cells_model(cells@),
            cp == upairs(cols@),
            clm == cells_lines_model(cl@),
            cl@.len() == cells@.len(),
            row <= m,
            m == max_lines(clm),
            out@ == start + col_rows_out(cm, cp, clm, m as int, row as int),
        decreases m - row,
    {
        let line = build_row(cells, &cols, &cl, row, row + 1 == m);
        let t = trim_end_vec(line.as_slice());
        push_slice(out, t.as_slice());
        out.push('\n');
        row = row + 1;
    }
}

fn push_centered(out: &mut Vec<char>, text: &str, width: usize)
    ensures
        final(out)@ == old(out)@ + center_spec(text@, width as nat) + seq!['\n'],
{
    let t = crate::strs::chars_of(text);
    let c = center_chars(t.as_slice(), width);
    push_slice(out, c.as_slice());
    out.push('\n');
}

fn render_node_exec(out: &mut Vec<char>, node: &Node, width: usize, pre: &Option<Vec<(u128, u128)>>)
    requires
        width >= 10,
        pre_ok(*pre),
    ensures
        final(out)@ == old(out)@ + node_out(node@, width as int, pre_model(*pre)),
{
    match node {
        Node::Text { spans, size } => {
            text_node_exec(out, spans, *size, width);
        },
        Node::Columns { cells, .. } => {
            columns_exec(out, cells, width, pre);
        },
        Node::Line { style } => {
            push_repeat(out, divider_char(*style), width);
            out.push('\n');
        },
        Node::Blank => {
            out.push('\n');
        },
        Node::Image { .. } => {
            push_centered(out, "[IMAGE]", width);
        },
        Node::Qr { .. } => {
            push_centered(out, "[QR Code]", width);
        },
        Node::Barcode { .. } => {
            push_centered(out, "[Barcode]", width);
        },
        Node::Feed { amount, unit } => {
            match unit {
                FeedUnit::Lines => {
                    let m: u64 = amount.milli;
                    let q: u64 = m / 1000 + if m % 1000 >= 500 { 1 } else { 0 };
                    assert(q == round_milli(m as int));
                    let n: usize = if q as u128 > usize::MAX as u128 { usize::MAX } else { q as usize };
                    push_repeat(out, '\n', n);
                },
                FeedUnit::Mm => {},
            }
        },
        _ => {},
    }
}

pub(crate) proof fn lemma_cache_min(ns: Seq<NodeModel>, gs: Seq<(int, int, int)>, total: int, gap: int, mc: int)
    requires
        mc >= 0,
    ensures
        cache_spec(ns, gs, total, gap, mc).len() == ns.len(),
        forall|i: int| 0 <= i < ns.len() && (#[trigger] cache_spec(ns, gs, total, gap, mc)[i]) is Some ==> forall|k: int| 0 <= k < cache_spec(ns, gs, total, gap, mc)[i]->0.len() ==> (#[trigger] cache_spec(ns, gs, total, gap, mc)[i]->0[k]).1 >= mc,
    decreases gs.len(),
{
    if gs.len() > 0 {
        lemma_cache_min(ns, gs.drop_last(), total, gap, mc);
        let g = gs.last();
        let pp = crate::groups::group_pcts_spec(ns, g);
        let nn = crate::groups::milli_nats(ns, g);
        law_min_col(pp, nn, total, gap, mc);
        let lay = group_layout(ns, g, total, gap, mc);
        assert forall|k: int| 0 <= k < lay.len() implies (#[trigger] lay[k]).1 >= mc by {
            assert(lay[k].1 == crate::columns::widths_spec(pp, nn, total, gap, mc)[k]);
        }
    }
}

/// Render a document to plain monospaced text.
pub fn render_text(nodes: &[Node]) -> (s: String)
    ensures
        s@ == render_text_spec(nodes_model(nodes@)),
{
    let ghost ns = nodes_model(nodes@);
    let (paper, points) = paper_and_points(nodes);
    let width = chars_per_line(paper, points);
    let cache = precompute_columns_chars(nodes, width, 2000, 1000);
    let ghost cm = cache_model(cache@);
    proof {
        lemma_cache_min(ns, groups_spec(ns), milli_chars(width as int), 2000, 1000);
    }
    assert(cache@.len() == ns.len()) by {
        assert(cm.len() == cache@.len());
    }
    let mut out: Vec<char> = Vec::new();
    let mut i: usize = 0;
    while i < nodes.len()
        invariant
            ns == nodes_model(nodes@),
            cm == cache_model(cache@),
            cm == cache_spec(ns, groups_spec(ns), milli_chars(width as int), 2000, 1000),
            cache@.len() == ns.len(),
            forall|j: int| 0 <= j < ns.len() && (#[trigger] cm[j]) is Some ==> forall|k: int| 0 <= k < cm[j]->0.len() ==> (#[trigger] cm[j]->0[k]).1 >= 1000,
            10 <= width,
            i <= nodes@.len(),
            out@ == render_out(ns.take(i as int), width as int, cm),
        decreases nodes@.len() - i,
    {
        proof {
            assert(ns.take(i + 1).drop_last() == ns.take(i as int));
            assert(ns[i as int] == nodes@[i as int]@);
            assert(cm[i as int] == pre_model(cache@[i as int]));
            if cache@[i as int] is Some {
                let v = cache@[i as int]->0;
                assert forall|k: int| 0 <= k < v@.len() implies (#[trigger] v@[k]).1 >= 1000 by {
                    assert(pairs(v@)[k].1 == v@[k].1);
                    assert(cm[i as int]->0[k].1 >= 1000);
                }
            }
        }
        render_node_exec(&mut out, &nodes[i], width, &cache[i]);
        i = i + 1;
    }
    assert(ns.take(i as int) == ns);
    let s = string_of(out.as_slice(), 0, out.len());
    assert(out@.subrange(0, out@.len() as int) == out@);
    s
}

/// A text node is its words wrapped to the line width, one line each; the
/// lines of every header level (`#`, `##`, `###`) are centered on the
/// line, and those of every body level are not.
pub proof fn law_headers_centered(spans: Seq<crate::ast::SpanModel>, width: nat)
    ensures
        ({
            let ls = word_wrap_spec(spans_text(spans), width);
            let centered = lines_out(Seq::new(ls.len(), |i: int| center_spec(ls[i], width)));
            &&& text_node_out(spans, Size::Title, width) == centered
            &&& text_node_out(spans, Size::TitleM, width) == centered
            &&& text_node_out(spans, Size::TitleL, width) == centered
            &&& text_node_out(spans, Size::Text, width) == lines_out(ls)
            &&& text_node_out(spans, Size::TextM, width) == lines_out(ls)
            &&& text_node_out(spans, Size::TextL, width) == lines_out(ls)
        }),
{
}

/// The fixed blocks of plain text: a divider is a full line of its
/// character, a blank line is a line feed, and images, QR codes and
/// barcodes are shown as `[IMAGE]`, `[QR Code]` and `[Barcode]` centered
/// on the line.
pub proof fn law_plain_blocks(width: int, pre: Option<Seq<(int, int)>>)
    requires
        width >= 0,
    ensures
        forall|style: crate::ast::LineStyle| #![trigger node_out(NodeModel::Line { style }, width, pre)]
            node_out(NodeModel::Line { style }, width, pre) == Seq::new(width as nat, |i: int| divider_char_spec(style)).push('\n'),
        node_out(NodeModel::Blank, width, pre) == seq!['\n'],
        forall|url: Seq<char>, w: Option<Decimal>, h: Option<Decimal>, a: Option<crate::ast::Align>, d: bool|
            #![trigger node_out(NodeModel::Image { url, width: w, height: h, align: a, dither: d }, width, pre)]
            node_out(NodeModel::Image { url, width: w, height: h, align: a, dither: d }, width, pre)
                == center_spec(seq!['[', 'I', 'M', 'A', 'G', 'E', ']'], width as nat).push('\n'),
        forall|data: Seq<char>, size: Option<Decimal>, a: Option<crate::ast::Align>|
            #![trigger node_out(NodeModel::Qr { data, size, align: a }, width, pre)]
            node_out(NodeModel::Qr { data, size, align: a }, width, pre)
                == center_spec(seq!['[', 'Q', 'R', ' ', 'C', 'o', 'd', 'e', ']'], width as nat).push('\n'),
        forall|format: Seq<char>, data: Seq<char>| #![trigger node_out(NodeModel::Barcode { format, data }, width, pre)]
            node_out(NodeModel::Barcode { format, data }, width, pre)
                == center_spec(seq!['[', 'B', 'a', 'r', 'c', 'o', 'd', 'e', ']'], width as nat).push('\n'),
{
    reveal_strlit("[IMAGE]");
    reveal_strlit("[QR Code]");
    reveal_strlit("[Barcode]");
    assert("[IMAGE]"@ =~= seq!['[', 'I', 'M', 'A', 'G', 'E', ']']);
    assert("[QR Code]"@ =~= seq!['[', 'Q', 'R', ' ', 'C', 'o', 'd', 'e', ']']);
    assert("[Barcode]"@ =~= seq!['[', 'B', 'a', 'r', 'c', 'o', 'd', 'e', ']']);
    assert forall|style: crate::ast::LineStyle| #![trigger node_out(NodeModel::Line { style }, width, pre)]
        node_out(NodeModel::Line { style }, width, pre) == Seq::new(width as nat, |i: int| divider_char_spec(style)).push('\n') by {
        assert(node_out(NodeModel::Line { style }, width, pre) =~= Seq::new(width as nat, |i: int| divider_char_spec(style)).push('\n'));
    }
}

/// The plain-text line holds as many characters as fit across the paper,
/// a character being 0.6 of the font size wide (points of 1/72 inch, paper
/// in millimeters), and at least 10: `c` characters of `points` take
/// `c * points * 1524 / 7200` millimeters.
pub proof fn law_text_width(paper: int, points: int)
    requires
        paper >= 0,
        points > 0,
    ensures
        chars_per_line_spec(paper, points) >= 10,
        ({
            let c = chars_per_line_spec(paper, points);
            10 < c < usize::MAX ==> c * points * 1524 <= paper * 7200 < (c + 1) * points * 1524
        }),
        paper * 7200 < 10 * points * 1524 ==> chars_per_line_spec(paper, points) == 10,
{
    let d = points * 1524;
    let q = paper * 7200 / d;
    assert(q * d <= paper * 7200 < (q + 1) * d) by (nonlinear_arith)
        requires d > 0, q == paper * 7200 / d;
    assert(q * d == q * points * 1524) by (nonlinear_arith)
        requires d == points * 1524;
    assert((q + 1) * d == (q + 1) * points * 1524) by (nonlinear_arith)
        requires d == points * 1524;
    if paper * 7200 < 10 * points * 1524 {
        assert(q < 10) by (nonlinear_arith)
            requires q * d <= paper * 7200, paper * 7200 < 10 * d, d > 0;
    }
}

/// A feed of `n` lines is `n` rounded to a whole count (halves up, at most
/// `usize::MAX`) of line feeds; a feed in millimeters prints nothing in plain text.
pub proof fn law_text_feed(amount: Decimal, width: int, pre: Option<Seq<(int, int)>>)
    ensures
        ({
            let out = node_out(NodeModel::Feed { amount, unit: FeedUnit::Lines }, width, pre);
            let n = out.len() as int;
            &&& forall|i: int| 0 <= i < n ==> out[i] == '\n'
            &&& n == usize::MAX || (amount.milli as int) - 500 < 1000 * n <= (amount.milli as int) + 500
        }),
        node_out(NodeModel::Feed { amount, unit: FeedUnit::Mm }, width, pre) == Seq::<char>::empty(),
{
}

} // verus!
