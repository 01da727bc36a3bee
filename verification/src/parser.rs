//! The line parser: one source line becomes at most one [`Node`].
use vstd::prelude::*;
use crate::ast::{
    Align, Cell, CellContent, CellContentModel, CellModel, LineStyle, Node, NodeModel, Size,
    cells_model, nodes_model, spans_model,
};
use crate::directive::{directive_spec, opt_model, parse_directive};
use crate::inline::{parse_spans_chars, spans_of};
use crate::lexical::{
    has_prefix, has_suffix, lemma_trim_idem, lemma_trim_len, lines, slice_vec, split_lines, trim,
    trimmed, is_ws, is_whitespace, begins_with, ends_with, trim_end, trim_end_vec, lemma_trim_end_len,
};
use crate::numbers::{all_digits, digits_value, is_digit, parse_uint, parse_uint_spec, unsigned_body};
use crate::strs::chars_of;

verus! {

/// The divider style a line of three or more copies of `-`, `=` or `.`
/// stands for.
pub open spec fn divider_spec(line: Seq<char>) -> Option<LineStyle> {
    let t = trim(line);
    if t.len() < 3 {
        None
    } else if !(forall|i: int| 0 <= i < t.len() ==> #[trigger] t[i] == t[0]) {
        None
    } else if t[0] == '-' {
        Some(LineStyle::Thin)
    } else if t[0] == '=' {
        Some(LineStyle::Thick)
    } else if t[0] == '.' {
        Some(LineStyle::Dotted)
    } else {
        None
    }
}

/// Recognize a divider line (see [`divider_spec`]).
pub fn try_parse_divider(line: &[char]) -> (r: Option<LineStyle>)
    ensures
        r == divider_spec(line@),
{
    let t = trimmed(line);
    if t.len() < 3 {
        return None;
    }
    let first = t[0];
    let mut i: usize = 1;
    while i < t.len()
        invariant
            1 <= i <= t@.len(),
            t@ == trim(line@),
            first == t@[0],
            forall|j: int| 0 <= j < i ==> t@[j] == first,
        decreases t@.len() - i,
    {
        if t[i] != first {
            assert(t@[i as int] != t@[0]);
            return None;
        }
        i = i + 1;
    }
    if first == '-' {
        Some(LineStyle::Thin)
    } else if first == '=' {
        Some(LineStyle::Thick)
    } else if first == '.' {
        Some(LineStyle::Dotted)
    } else {
        None
    }
}

/// The state of the pipe splitter.
pub struct PipeState {
    pub done: Seq<Seq<char>>,
    pub cur: Seq<char>,
    pub escaped: bool,
}

/// The pipe splitter after reading `cs`: `|` separates segments unless a
/// backslash precedes it; backslashes stay in the segment text.
pub open spec fn pipe_scan(cs: Seq<char>) -> PipeState
    decreases cs.len(),
{
    if cs.len() == 0 {
        PipeState { done: seq![], cur: seq![], escaped: false }
    } else {
        let st = pipe_scan(cs.drop_last());
        let c = cs.last();
        if st.escaped {
            PipeState { cur: st.cur.push(c), escaped: false, ..st }
        } else if c == '\\' {
            PipeState { cur: st.cur.push(c), escaped: true, ..st }
        } else if c == '|' {
            PipeState { done: st.done.push(st.cur), cur: seq![], escaped: false }
        } else {
            PipeState { cur: st.cur.push(c), ..st }
        }
    }
}

/// The segments of `cs` between unescaped pipes.
pub open spec fn pipe_segments(cs: Seq<char>) -> Seq<Seq<char>> {
    let st = pipe_scan(cs);
    st.done.push(st.cur)
}

/// Split on unescaped `|` characters.
pub fn split_on_pipes(cs: &[char]) -> (segs: Vec<Vec<char>>)
    ensures
        segs@.len() == pipe_segments(cs@).len(),
        forall|i: int| 0 <= i < segs@.len() ==> #[trigger] segs@[i]@ == pipe_segments(cs@)[i],
{
    let mut done: Vec<Vec<char>> = Vec::new();
    let mut cur: Vec<char> = Vec::new();
    let mut escaped = false;
    let mut i: usize = 0;
    while i < cs.len()
        invariant
            i <= cs@.len(),
            ({
                let st = pipe_scan(cs@.take(i as int));
                &&& done@.len() == st.done.len()
                &&& forall|k: int| 0 <= k < done@.len() ==> #[trigger] done@[k]@ == st.done[k]
                &&& cur@ == st.cur
                &&& escaped == st.escaped
            }),
        decreases cs@.len() - i,
    {
        let c = cs[i];
        proof {
            assert(cs@.take(i + 1).drop_last() =~= cs@.take(i as int));
        }
        if escaped {
            cur.push(c);
            escaped = false;
        } else if c == '\\' {
            cur.push(c);
            escaped = true;
        } else if c == '|' {
            done.push(cur);
            cur = Vec::new();
        } else {
            cur.push(c);
        }
        i = i + 1;
    }
    proof {
        assert(cs@.take(i as int) =~= cs@);
    }
    done.push(cur);
    done
}

/// The raw cell texts of a pipe line: the segments strictly between its
/// first and last unescaped pipe.
pub open spec fn raw_cells(line: Seq<char>) -> Seq<Seq<char>> {
    let t = trim(line);
    let segs = pipe_segments(t);
    if !(t.len() > 0 && t[0] == '|' && t.last() == '|') || segs.len() < 2 {
        seq![]
    } else {
        segs.subrange(1, segs.len() - 1)
    }
}

/// The number of leading digits of `cs`.
pub open spec fn lead_digits(cs: Seq<char>) -> nat
    decreases cs.len(),
{
    if cs.len() > 0 && is_digit(cs[0]) {
        1 + lead_digits(cs.drop_first())
    } else {
        0
    }
}

/// A column width prefix: one to three digits right after the pipe, a
/// value in 1..=100, followed by whitespace or `>`. Returns the width and
/// the rest of the cell.
pub open spec fn width_prefix(raw: Seq<char>) -> (Option<u32>, Seq<char>) {
    let k = lead_digits(raw);
    if 1 <= k <= 3 && k < raw.len() && (is_ws(raw[k as int]) || raw[k as int] == '>') && 1 <= digits_value(
        raw.take(k as int),
    ) <= 100 {
        (Some(digits_value(raw.take(k as int)) as u32), raw.skip(k as int))
    } else {
        (None, raw)
    }
}

proof fn lemma_lead_digits(cs: Seq<char>, i: int)
    requires
        0 <= i <= cs.len(),
        forall|j: int| 0 <= j < i ==> is_digit(cs[j]),
        i == cs.len() || !is_digit(cs[i]),
    ensures
        lead_digits(cs) == i,
    decreases i,
{
    if i > 0 {
        lemma_lead_digits(cs.drop_first(), i - 1);
    }
}

/// Split a column width prefix off a raw cell (see [`width_prefix`]).
pub fn split_width_prefix(raw: &[char]) -> (r: (Option<u32>, Vec<char>))
    ensures
        r.0 == width_prefix(raw@).0,
        r.1@ == width_prefix(raw@).1,
{
    let mut k: usize = 0;
    while k < raw.len() && (raw[k] as u32) >= 48 && (raw[k] as u32) <= 57
        invariant
            k <= raw@.len(),
            forall|j: int| 0 <= j < k ==> is_digit(raw@[j]),
        decreases raw@.len() - k,
    {
        k = k + 1;
    }
    proof {
        lemma_lead_digits(raw@, k as int);
    }
    if k >= 1 && k <= 3 && k < raw.len() && (is_whitespace(raw[k]) || raw[k] == '>') {
        let digits = slice_vec(raw, 0, k);
        proof {
            assert(digits@ =~= raw@.take(k as int));
            assert(unsigned_body(digits@) == digits@);
            assert(all_digits(digits@));
        }
        match parse_uint(digits.as_slice(), 100) {
            Some(v) => {
                if v >= 1 {
                    let rest = slice_vec(raw, k, raw.len());
                    proof { assert(rest@ =~= raw@.skip(k as int)); }
                    return (Some(v as u32), rest);
                }
            },
            None => {},
        }
    }
    (None, slice_vec(raw, 0, raw.len()))
}

/// A cell's content and explicit alignment: `> text` is right, `> text <`
/// is center, `text <` is left, and plain text has none.
pub open spec fn cell_align(raw: Seq<char>) -> (Seq<char>, Option<Align>) {
    let t = trim(raw);
    let gt = t.len() > 0 && t[0] == '>';
    let lt = t.len() > 0 && t.last() == '<';
    if gt && lt {
        (trim(t.subrange(1, t.len() - 1)), Some(Align::Center))
    } else if gt {
        (trim(t.skip(1)), Some(Align::Right))
    } else if lt {
        (trim(t.take(t.len() - 1)), Some(Align::Left))
    } else {
        (t, None)
    }
}

/// Extract the alignment markers of a cell (see [`cell_align`]).
pub fn extract_cell_alignment(raw: &[char]) -> (r: (Vec<char>, Option<Align>))
    ensures
        r.0@ == cell_align(raw@).0,
        r.1 == cell_align(raw@).1,
{
    let t = trimmed(raw);
    let n = t.len();
    let gt = n > 0 && t[0] == '>';
    let lt = n > 0 && t[n - 1] == '<';
    if gt && lt {
        let inner = slice_vec(t.as_slice(), 1, n - 1);
        (trimmed(inner.as_slice()), Some(Align::Center))
    } else if gt {
        let inner = slice_vec(t.as_slice(), 1, n);
        proof { assert(inner@ =~= t@.skip(1)); }
        (trimmed(inner.as_slice()), Some(Align::Right))
    } else if lt {
        let inner = slice_vec(t.as_slice(), 0, n - 1);
        proof { assert(inner@ =~= t@.take(n - 1)); }
        (trimmed(inner.as_slice()), Some(Align::Left))
    } else {
        (t, None)
    }
}

/// Alignment by position: two columns are left and right, three are left,
/// center and right, any other count is left.
pub open spec fn auto_align_spec(index: int, count: int) -> Align {
    if count == 2 {
        if index == 0 { Align::Left } else { Align::Right }
    } else if count == 3 {
        if index == 0 {
            Align::Left
        } else if index == 1 {
            Align::Center
        } else if index == 2 {
            Align::Right
        } else {
            Align::Left
        }
    } else {
        Align::Left
    }
}

/// Alignment by column position (see [`auto_align_spec`]).
pub fn auto_align(index: usize, count: usize) -> (a: Align)
    ensures
        a == auto_align_spec(index as int, count as int),
{
    if count == 2 {
        if index == 0 { Align::Left } else { Align::Right }
    } else if count == 3 {
        if index == 0 {
            Align::Left
        } else if index == 1 {
            Align::Center
        } else if index == 2 {
            Align::Right
        } else {
            Align::Left
        }
    } else {
        Align::Left
    }
}

/// The model of the cell at `index` of `count` with raw text `raw`.
pub open spec fn cell_of(raw: Seq<char>, index: int, count: int) -> CellModel {
    let (pct, rest) = width_prefix(raw);
    let (content, explicit) = cell_align(rest);
    let align = match explicit {
        Some(a) => a,
        None => auto_align_spec(index, count),
    };
    let c = trim(content);
    CellModel {
        content: match divider_spec(c) {
            Some(ls) => CellContentModel::Divider(ls),
            None => CellContentModel::Spans(spans_of(c)),
        },
        align,
        width_pct: pct,
    }
}

fn make_cell(raw: &[char], index: usize, count: usize) -> (c: Cell)
    ensures
        c@ == cell_of(raw@, index as int, count as int),
{
    let (pct, rest) = split_width_prefix(raw);
    let (content, explicit) = extract_cell_alignment(rest.as_slice());
    let align = match explicit {
        Some(a) => a,
        None => auto_align(index, count),
    };
    let c = trimmed(content.as_slice());
    let body = match try_parse_divider(c.as_slice()) {
        Some(ls) => CellContent::Divider(ls),
        None => CellContent::Spans(parse_spans_chars(c.as_slice())),
    };
    Cell { content: body, align, width_pct: pct }
}

/// The cells of a pipe line, each with its position-based default alignment.
pub open spec fn pipe_cells(line: Seq<char>) -> Seq<CellModel> {
    let raws = raw_cells(line);
    Seq::new(raws.len(), |i: int| cell_of(raws[i], i, raws.len() as int))
}

/// A single cell that holds a directive, as that directive's node.
pub open spec fn promoted_directive(line: Seq<char>) -> Option<NodeModel> {
    let raws = raw_cells(line);
    if raws.len() == 1 {
        let (content, align) = cell_align(width_prefix(raws[0]).1);
        let c = trim(content);
        if c.len() > 0 && c[0] == '@' {
            directive_spec(c, align)
        } else {
            None
        }
    } else {
        None
    }
}

/// The node of a line that starts and ends with `|`: a directive when its
/// only cell holds one, else a row of columns.
pub open spec fn pipe_line_spec(line: Seq<char>, size: Size) -> NodeModel {
    match promoted_directive(line) {
        Some(n) => n,
        None => NodeModel::Columns { cells: pipe_cells(line), size },
    }
}

/// Parse a pipe line (see [`pipe_line_spec`]).
pub fn parse_pipe_line(line: &[char], size: Size) -> (n: Node)
    ensures
        n@ == pipe_line_spec(line@, size),
{
    let t = trimmed(line);
    let n = t.len();
    let segs = split_on_pipes(t.as_slice());
    let ghost raws = raw_cells(line@);
    let mut raw: Vec<Vec<char>> = Vec::new();
    if n > 0 && t[0] == '|' && t[n - 1] == '|' && segs.len() >= 2 {
        let mut i: usize = 1;
        while i < segs.len() - 1
            invariant
                1 <= i <= segs@.len() - 1,
                segs@.len() >= 2,
                segs@.len() == pipe_segments(t@).len(),
                forall|k: int| 0 <= k < segs@.len() ==> #[trigger] segs@[k]@ == pipe_segments(t@)[k],
                raw@.len() == i - 1,
                forall|k: int| 0 <= k < raw@.len() ==> #[trigger] raw@[k]@ == pipe_segments(t@)[k + 1],
            decreases segs@.len() - i,
        {
            raw.push(slice_vec(segs[i].as_slice(), 0, segs[i].len()));
            proof { assert(segs@[i as int]@.subrange(0, segs@[i as int]@.len() as int) =~= segs@[i as int]@); }
            i = i + 1;
        }
    }
    proof {
        assert(raw@.len() == raws.len());
        assert forall|k: int| 0 <= k < raw@.len() implies #[trigger] raw@[k]@ == raws[k] by {}
    }
    let count = raw.len();
    if count == 1 {
        let (_pct, rest) = split_width_prefix(raw[0].as_slice());
        let (content, align) = extract_cell_alignment(rest.as_slice());
        let c = trimmed(content.as_slice());
        if c.len() > 0 && c[0] == '@' {
            match parse_directive(c.as_slice(), align) {
                Some(node) => return node,
                None => {},
            }
        }
    }
    let mut cells: Vec<Cell> = Vec::new();
    let mut j: usize = 0;
    while j < count
        invariant
            j <= count,
            count == raw@.len(),
            raw@.len() == raws.len(),
            forall|k: int| 0 <= k < raw@.len() ==> #[trigger] raw@[k]@ == raws[k],
            cells@.len() == j,
            forall|k: int| 0 <= k < j ==> #[trigger] cells@[k]@ == cell_of(raws[k], k, count as int),
        decreases count - j,
    {
        let cell = make_cell(raw[j].as_slice(), j, count);
        cells.push(cell);
        j = j + 1;
    }
    proof {
        assert(cells_model(cells@) =~= pipe_cells(line@));
    }
    Node::Columns { cells, size }
}

/// The inner text of a line wrapped in size markers `m`: after the opening
/// marker, without a closing marker when there is one, trimmed.
pub open spec fn strip_marker(t: Seq<char>, m: Seq<char>) -> Seq<char> {
    let after = t.skip(m.len() as int);
    let e = trim_end(after);
    let inner = if has_suffix(e, m) {
        e.take(e.len() - m.len())
    } else {
        after
    };
    trim(inner)
}

pub proof fn lemma_strip_marker_shorter(t: Seq<char>, m: Seq<char>)
    requires
        has_prefix(t, m),
        m.len() > 0,
    ensures
        strip_marker(t, m).len() < t.len(),
{
    let after = t.skip(m.len() as int);
    let e = trim_end(after);
    lemma_trim_end_len(after);
    let inner = if has_suffix(e, m) { e.take(e.len() - m.len()) } else { after };
    lemma_trim_len(inner);
}

/// The size marker a line starts with, longest first: `####`, `###`, `##`
/// for titles and `+++`, `++` for body sizes.
pub open spec fn marker_of(t: Seq<char>) -> Option<(Seq<char>, Size)> {
    if has_prefix(t, seq!['#', '#', '#', '#']) {
        Some((seq!['#', '#', '#', '#'], Size::TitleL))
    } else if has_prefix(t, seq!['#', '#', '#']) {
        Some((seq!['#', '#', '#'], Size::TitleM))
    } else if has_prefix(t, seq!['#', '#']) {
        Some((seq!['#', '#'], Size::Title))
    } else if has_prefix(t, seq!['+', '+', '+']) {
        Some((seq!['+', '+', '+'], Size::TextL))
    } else if has_prefix(t, seq!['+', '+']) {
        Some((seq!['+', '+'], Size::TextM))
    } else {
        None
    }
}

pub proof fn lemma_marker_nonempty(t: Seq<char>)
    ensures
        marker_of(t) matches Some((m, _)) ==> m.len() > 0 && has_prefix(t, m),
{
}

/// The node of one source line at the given size, or `None` for comments,
/// unknown or malformed directives.
///
/// In order: blank lines; `//` comments; a leading `\` makes plain text;
/// `@` directives; size markers (when the inner line yields a node);
/// dividers; pipe lines; plain text.
#[verifier::opaque]
pub open spec fn parse_line_spec(line: Seq<char>, size: Size) -> Option<NodeModel>
    decreases line.len(),
{
    let t = trim(line);
    if t.len() == 0 {
        Some(NodeModel::Blank)
    } else if has_prefix(t, seq!['/', '/']) {
        None
    } else if t[0] == '\\' {
        Some(NodeModel::Text { spans: spans_of(t), size })
    } else if t[0] == '@' {
        directive_spec(t, None)
    } else {
        let wrapped: Option<NodeModel> = match marker_of(t) {
            Some((m, level)) => {
                proof {
                    lemma_marker_nonempty(t);
                    lemma_strip_marker_shorter(t, m);
                    lemma_trim_len(line);
                }
                parse_line_spec(strip_marker(t, m), level)
            },
            None => None,
        };
        match wrapped {
            Some(n) => Some(n),
            None => match divider_spec(t) {
                Some(style) => Some(NodeModel::Line { style }),
                None => if t[0] == '|' && t.last() == '|' {
                    Some(pipe_line_spec(t, size))
                } else {
                    Some(NodeModel::Text { spans: spans_of(t), size })
                },
            },
        }
    }
}

/// Strip balanced size markers (see [`strip_marker`]).
fn strip_balanced_marker(t: &[char], m: &[char]) -> (r: Vec<char>)
    requires
        has_prefix(t@, m@),
    ensures
        r@ == strip_marker(t@, m@),
{
    let after = slice_vec(t, m.len(), t.len());
    proof { assert(after@ =~= t@.skip(m@.len() as int)); }
    let e = trim_end_vec(after.as_slice());
    if ends_with(e.as_slice(), m) {
        let inner = slice_vec(e.as_slice(), 0, e.len() - m.len());
        proof { assert(inner@ =~= e@.take(e@.len() - m@.len())); }
        trimmed(inner.as_slice())
    } else {
        trimmed(after.as_slice())
    }
}

fn marker_for(t: &[char]) -> (r: Option<(Vec<char>, Size)>)
    ensures
        match (r, marker_of(t@)) {
            (Some((m, s)), Some((ms, ss))) => m@ == ms && s == ss,
            (None, None) => true,
            _ => false,
        },
{
    let m4: Vec<char> = vec!['#', '#', '#', '#'];
    let m3: Vec<char> = vec!['#', '#', '#'];
    let m2: Vec<char> = vec!['#', '#'];
    let p3: Vec<char> = vec!['+', '+', '+'];
    let p2: Vec<char> = vec!['+', '+'];
    proof {
        assert(m4@ =~= seq!['#', '#', '#', '#']);
        assert(m3@ =~= seq!['#', '#', '#']);
        assert(m2@ =~= seq!['#', '#']);
        assert(p3@ =~= seq!['+', '+', '+']);
        assert(p2@ =~= seq!['+', '+']);
    }
    if begins_with(t, m4.as_slice()) {
        Some((m4, Size::TitleL))
    } else if begins_with(t, m3.as_slice()) {
        Some((m3, Size::TitleM))
    } else if begins_with(t, m2.as_slice()) {
        Some((m2, Size::Title))
    } else if begins_with(t, p3.as_slice()) {
        Some((p3, Size::TextL))
    } else if begins_with(t, p2.as_slice()) {
        Some((p2, Size::TextM))
    } else {
        None
    }
}

fn text_node(t: &[char], size: Size) -> (n: Node)
    ensures
        n@ == (NodeModel::Text { spans: spans_of(t@), size }),
{
    Node::Text { spans: parse_spans_chars(t), size }
}

/// Classify and parse one line (see [`parse_line_spec`]).
pub fn parse_line(line: &[char], size: Size) -> (r: Option<Node>)
    ensures
        opt_model(r) == parse_line_spec(line@, size),
    decreases line@.len(),
{
    reveal(parse_line_spec);
    let t = trimmed(line);
    let n = t.len();
    if n == 0 {
        return Some(Node::Blank);
    }
    let slashes: Vec<char> = vec!['/', '/'];
    proof { assert(slashes@ =~= seq!['/', '/']); }
    if begins_with(t.as_slice(), slashes.as_slice()) {
        return None;
    }
    if t[0] == '\\' {
        return Some(text_node(t.as_slice(), size));
    }
    if t[0] == '@' {
        proof { lemma_trim_idem(line@); }
        return parse_directive(t.as_slice(), None);
    }
    match marker_for(t.as_slice()) {
        Some((m, level)) => {
            let inner = strip_balanced_marker(t.as_slice(), m.as_slice());
            proof {
                lemma_marker_nonempty(t@);
                lemma_strip_marker_shorter(t@, m@);
                lemma_trim_len(line@);
            }
            match parse_line(inner.as_slice(), level) {
                Some(node) => return Some(node),
                None => {},
            }
        },
        None => {},
    }
    proof { lemma_trim_idem(line@); }
    match try_parse_divider(t.as_slice()) {
        Some(style) => Some(Node::Line { style }),
        None => if t[0] == '|' && t[n - 1] == '|' {
            Some(parse_pipe_line(t.as_slice(), size))
        } else {
            Some(text_node(t.as_slice(), size))
        },
    }
}

/// The nodes of a list of lines, dropping the lines that yield none.
pub open spec fn parse_lines_spec(ls: Seq<Seq<char>>) -> Seq<NodeModel>
    decreases ls.len(),
{
    if ls.len() == 0 {
        seq![]
    } else {
        let rest = parse_lines_spec(ls.drop_last());
        match parse_line_spec(ls.last(), Size::Text) {
            Some(n) => rest.push(n),
            None => rest,
        }
    }
}

/// The document a source text stands for: the nodes of its lines.
pub open spec fn parse_spec(src: Seq<char>) -> Seq<NodeModel> {
    parse_lines_spec(lines(src))
}

/// Parse a complete document into a flat list of nodes, one per line that
/// yields a node.
pub fn parse(input: &str) -> (nodes: Vec<Node>)
    ensures
        nodes_model(nodes@) == parse_spec(input@),
{
    let cs = chars_of(input);
    let ls = split_lines(cs.as_slice());
    let ghost lsm = lines(cs@);
    let mut nodes: Vec<Node> = Vec::new();
    let mut i: usize = 0;
    while i < ls.len()
        invariant
            i <= ls@.len(),
            ls@.len() == lsm.len(),
            forall|k: int| 0 <= k < ls@.len() ==> #[trigger] ls@[k]@ == lsm[k],
            nodes_model(nodes@) == parse_lines_spec(lsm.take(i as int)),
        decreases ls@.len() - i,
    {
        proof {
            assert(lsm.take(i + 1).drop_last() =~= lsm.take(i as int));
        }
        let ghost before = nodes@;
        match parse_line(ls[i].as_slice(), Size::Text) {
            Some(node) => {
                nodes.push(node);
                proof {
                    assert(nodes_model(nodes@) =~= nodes_model(before).push(nodes@.last()@));
                }
            },
            None => {},
        }
        i = i + 1;
    }
    proof {
        assert(lsm.take(i as int) =~= lsm);
    }
    nodes
}

/// Each line stands alone: the nodes of two runs of lines, one after the
/// other, are the nodes of the first run followed by those of the second.
pub proof fn law_lines_stand_alone(a: Seq<Seq<char>>, b: Seq<Seq<char>>)
    ensures
        parse_lines_spec(a + b) == parse_lines_spec(a) + parse_lines_spec(b),
    decreases b.len(),
{
    if b.len() == 0 {
        assert(a + b =~= a);
        assert(parse_lines_spec(a) + parse_lines_spec(b) =~= parse_lines_spec(a));
    } else {
        law_lines_stand_alone(a, b.drop_last());
        assert((a + b).drop_last() =~= a + b.drop_last());
        assert((a + b).last() == b.last());
        let pa = parse_lines_spec(a);
        let pb = parse_lines_spec(b.drop_last());
        match parse_line_spec(b.last(), Size::Text) {
            Some(n) => {
                assert((pa + pb).push(n) =~= pa + pb.push(n));
            },
            None => {},
        }
    }
}

/// A line made of one divider character (`-`, `=` or `.`) is a divider
/// exactly when it holds three or more of it, and then of that
/// character's style.
pub proof fn law_divider_three_or_more(c: char, n: nat)
    requires
        c == '-' || c == '=' || c == '.',
    ensures
        divider_spec(Seq::new(n, |i: int| c)) == if n >= 3 {
            Some(if c == '-' { LineStyle::Thin } else if c == '=' { LineStyle::Thick } else { LineStyle::Dotted })
        } else {
            None
        },
{
    let t = Seq::new(n, |i: int| c);
    assert(!is_ws(c));
    assert(crate::lexical::trim_start(t) == t);
    assert(crate::lexical::trim_end(t) == t);
    assert(trim(t) == t);
    if n >= 3 {
        assert forall|i: int| 0 <= i < t.len() implies #[trigger] t[i] == t[0] by {}
    }
}

/// Cells without `>`/`<` markers are aligned by their place in the row:
/// a row of two is left then right, a row of three is left, center, right,
/// and any other row is left throughout. A marker always wins.
pub proof fn law_auto_alignment(line: Seq<char>)
    ensures
        pipe_cells(line).len() == raw_cells(line).len(),
        forall|i: int| 0 <= i < pipe_cells(line).len() ==> {
            let raws = raw_cells(line);
            let marker = cell_align(width_prefix(raws[i]).1).1;
            let a = (#[trigger] pipe_cells(line)[i]).align;
            &&& (marker matches Some(m) ==> a == m)
            &&& (marker is None && raws.len() == 2 && i == 0 ==> a == Align::Left)
            &&& (marker is None && raws.len() == 2 && i == 1 ==> a == Align::Right)
            &&& (marker is None && raws.len() == 3 && i == 0 ==> a == Align::Left)
            &&& (marker is None && raws.len() == 3 && i == 1 ==> a == Align::Center)
            &&& (marker is None && raws.len() == 3 && i == 2 ==> a == Align::Right)
            &&& (marker is None && raws.len() != 2 && raws.len() != 3 ==> a == Align::Left)
        },
{
}

/// Size markers: a line opened by exactly `##` is a `#` header (title),
/// by `###` a medium header, by `####` or more a large header; `++` opens
/// medium body text and `+++` or more large body text.
pub proof fn law_size_markers(rest: Seq<char>)
    ensures
        !(rest.len() > 0 && rest[0] == '#') ==> marker_of(seq!['#', '#'] + rest) == Some((seq!['#', '#'], Size::Title)),
        !(rest.len() > 0 && rest[0] == '#') ==> marker_of(seq!['#', '#', '#'] + rest) == Some((seq!['#', '#', '#'], Size::TitleM)),
        marker_of(seq!['#', '#', '#', '#'] + rest) == Some((seq!['#', '#', '#', '#'], Size::TitleL)),
        !(rest.len() > 0 && rest[0] == '+') ==> marker_of(seq!['+', '+'] + rest) == Some((seq!['+', '+'], Size::TextM)),
        marker_of(seq!['+', '+', '+'] + rest) == Some((seq!['+', '+', '+'], Size::TextL)),
{
    let h2 = seq!['#', '#'] + rest;
    let h3 = seq!['#', '#', '#'] + rest;
    let h4 = seq!['#', '#', '#', '#'] + rest;
    let p2 = seq!['+', '+'] + rest;
    let p3 = seq!['+', '+', '+'] + rest;
    assert(h4.take(4) =~= seq!['#', '#', '#', '#']);
    assert(p3.take(3) =~= seq!['+', '+', '+']);
    assert(h3.take(3) =~= seq!['#', '#', '#']);
    assert(h2.take(2) =~= seq!['#', '#']);
    assert(p2.take(2) =~= seq!['+', '+']);
    if !(rest.len() > 0 && rest[0] == '#') {
        assert(!has_prefix(h3, seq!['#', '#', '#', '#'])) by {
            if h3.len() >= 4 { assert(h3[3] == rest[0]); }
        }
        assert(!has_prefix(h2, seq!['#', '#', '#', '#'])) by {
            if h2.len() >= 4 { assert(h2[2] == rest[0]); }
        }
        assert(!has_prefix(h2, seq!['#', '#', '#'])) by {
            if h2.len() >= 3 { assert(h2[2] == rest[0]); }
        }
    }
    assert(!has_prefix(p3, seq!['#', '#', '#', '#']) && !has_prefix(p3, seq!['#', '#', '#']) && !has_prefix(p3, seq!['#', '#'])) by {
        assert(p3[0] == '+');
    }
    assert(!has_prefix(p2, seq!['#', '#', '#', '#']) && !has_prefix(p2, seq!['#', '#', '#']) && !has_prefix(p2, seq!['#', '#'])) by {
        assert(p2[0] == '+');
    }
    if !(rest.len() > 0 && rest[0] == '+') {
        assert(!has_prefix(p2, seq!['+', '+', '+'])) by {
            if p2.len() >= 3 { assert(p2[2] == rest[0]); }
        }
    }
}

/// Alignment markers of a cell (after trimming): a leading `>` with a
/// trailing `<` centers it, a leading `>` alone right-aligns it, a
/// trailing `<` alone left-aligns it, and without markers the cell keeps
/// its place-based alignment.
pub proof fn law_cell_markers(raw: Seq<char>)
    ensures
        ({
            let t = trim(raw);
            let gt = t.len() > 0 && t[0] == '>';
            let lt = t.len() > 0 && t[t.len() - 1] == '<';
            &&& gt && lt ==> cell_align(raw).1 == Some(Align::Center)
            &&& gt && !lt ==> cell_align(raw).1 == Some(Align::Right)
            &&& !gt && lt ==> cell_align(raw).1 == Some(Align::Left)
            &&& !gt && !lt ==> cell_align(raw).1 is None && cell_align(raw).0 == t
        }),
{
}

} // verus!
