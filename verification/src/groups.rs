//! Runs of column rows that share one set of column widths.
use vstd::prelude::*;
use crate::ast::{CellContent, CellContentModel, CellModel, Node, NodeModel, nodes_model, cells_model, spans_model};
use crate::text_util::{spans_chars, spans_text};
use crate::columns::{column_widths, imin, layout_spec, pairs, u64max};

verus! {

/// A contiguous run of column rows with the same number of cells.
///
/// All rows in the group share the same computed column widths, so the
/// widest content in each column position dictates proportions.
#[derive(Debug, Clone, Copy, PartialEq, Eq, Structural)]
pub struct ColumnGroup {
    /// Start index into the node list (inclusive).
    pub start: usize,
    /// End index into the node list (exclusive).
    pub end: usize,
    /// Number of cells per row in this group.
    pub col_count: usize,
}

/// The model of a group: `(start, end, col_count)`.
pub open spec fn group_model(g: ColumnGroup) -> (int, int, int) {
    (g.start as int, g.end as int, g.col_count as int)
}

/// The models of a list of groups.
pub open spec fn groups_model(gs: Seq<ColumnGroup>) -> Seq<(int, int, int)> {
    Seq::new(gs.len(), |i: int| group_model(gs[i]))
}

/// The number of cells of a column row; `None` for any other node.
pub open spec fn col_count_of(n: NodeModel) -> Option<int> {
    match n {
        NodeModel::Columns { cells, .. } => Some(cells.len() as int),
        _ => None,
    }
}

/// The end of the run of rows with `c` cells that continues at `i`.
pub open spec fn run_end(ns: Seq<NodeModel>, i: int, c: int) -> int
    decreases ns.len() - i,
{
    if 0 <= i < ns.len() && col_count_of(ns[i]) == Some(c) {
        run_end(ns, i + 1, c)
    } else {
        i
    }
}

/// A run ends at or after where it continues, and within the list.
pub proof fn lemma_run_end(ns: Seq<NodeModel>, i: int, c: int)
    requires
        0 <= i,
    ensures
        i <= run_end(ns, i, c),
        run_end(ns, i, c) <= ns.len() || run_end(ns, i, c) == i,
        forall|j: int| i <= j < run_end(ns, i, c) ==> col_count_of(#[trigger] ns[j]) == Some(c),
        run_end(ns, i, c) < ns.len() ==> col_count_of(ns[run_end(ns, i, c)]) != Some(c),
    decreases ns.len() - i,
{
    if 0 <= i < ns.len() && col_count_of(ns[i]) == Some(c) {
        lemma_run_end(ns, i + 1, c);
    }
}

/// The groups of the rows from `i` on: each column row starts a group
/// that runs while the rows keep its number of cells.
pub open spec fn groups_from(ns: Seq<NodeModel>, i: int) -> Seq<(int, int, int)>
    decreases ns.len() - i,
{
    if i < 0 || i >= ns.len() {
        seq![]
    } else {
        match col_count_of(ns[i]) {
            Some(c) => {
                let e = run_end(ns, i + 1, c);
                proof {
                    lemma_run_end(ns, i + 1, c);
                }
                seq![(i, e, c)] + groups_from(ns, e)
            },
            None => groups_from(ns, i + 1),
        }
    }
}

/// The groups of a document.
pub open spec fn groups_spec(ns: Seq<NodeModel>) -> Seq<(int, int, int)> {
    groups_from(ns, 0)
}

/// Identify contiguous groups of column rows with the same column count.
/// Any other node ends a group; so does a row with another cell count.
pub fn identify_column_groups(nodes: &[Node]) -> (gs: Vec<ColumnGroup>)
    ensures
        groups_model(gs@) == groups_spec(nodes_model(nodes@)),
{
    let ghost ns = nodes_model(nodes@);
    let mut groups: Vec<ColumnGroup> = Vec::new();
    let mut i: usize = 0;
    while i < nodes.len()
        invariant
            ns == nodes_model(nodes@),
            i <= nodes@.len(),
            groups_model(groups@) + groups_from(ns, i as int) == groups_from(ns, 0),
        decreases nodes@.len() - i,
    {
        let ghost before = groups_model(groups@);
        match &nodes[i] {
            Node::Columns { cells, .. } => {
                let col_count = cells.len();
                assert(col_count_of(ns[i as int]) == Some(col_count as int));
                let start = i;
                i = i + 1;
                while i < nodes.len()
                    invariant
                        ns == nodes_model(nodes@),
                        start < i <= nodes@.len(),
                        run_end(ns, i as int, col_count as int) == run_end(ns, start + 1, col_count as int),
                    ensures
                        start < i <= nodes@.len(),
                        run_end(ns, i as int, col_count as int) == run_end(ns, start + 1, col_count as int),
                        run_end(ns, i as int, col_count as int) == i,
                    decreases nodes@.len() - i,
                {
                    let same = match &nodes[i] {
                        Node::Columns { cells: next, .. } => next.len() == col_count,
                        _ => false,
                    };
                    assert(same == (col_count_of(ns[i as int]) == Some(col_count as int)));
                    if !same {
                        break;
                    }
                    i = i + 1;
                }
                groups.push(ColumnGroup { start, end: i, col_count });
                proof {
                    assert(groups_model(groups@) == before.push((start as int, i as int, col_count as int)));
                    assert(groups_from(ns, start as int) == seq![(start as int, i as int, col_count as int)] + groups_from(ns, i as int));
                    assert(groups_model(groups@) + groups_from(ns, i as int) == before + groups_from(ns, start as int));
                }
            },
            _ => {
                assert(col_count_of(ns[i as int]) is None);
                i = i + 1;
            },
        }
    }
    assert(groups_model(groups@) + groups_from(ns, i as int) == groups_model(groups@));
    groups
}

proof fn lemma_groups_from(ns: Seq<NodeModel>, i: int)
    requires
        0 <= i,
    ensures
        forall|k: int| 0 <= k < groups_from(ns, i).len() ==> {
            let g = #[trigger] groups_from(ns, i)[k];
            &&& i <= g.0 < g.1 <= ns.len()
            &&& forall|j: int| g.0 <= j < g.1 ==> col_count_of(#[trigger] ns[j]) == Some(g.2)
            &&& (g.1 < ns.len() ==> col_count_of(ns[g.1]) != Some(g.2))
        },
        forall|k: int| 0 <= k < groups_from(ns, i).len() - 1 ==> #[trigger] groups_from(ns, i)[k].1 <= groups_from(ns, i)[k + 1].0,
    decreases ns.len() - i,
{
    if i < ns.len() {
        match col_count_of(ns[i]) {
            Some(c) => {
                let e = run_end(ns, i + 1, c);
                lemma_run_end(ns, i + 1, c);
                lemma_groups_from(ns, e);
                let rest = groups_from(ns, e);
                let all = groups_from(ns, i);
                assert(all == seq![(i, e, c)] + rest);
                assert forall|k: int| 0 <= k < all.len() implies {
                    let g = #[trigger] all[k];
                    &&& i <= g.0 < g.1 <= ns.len()
                    &&& forall|j: int| g.0 <= j < g.1 ==> col_count_of(#[trigger] ns[j]) == Some(g.2)
                    &&& (g.1 < ns.len() ==> col_count_of(ns[g.1]) != Some(g.2))
                } by {
                    if k > 0 {
                        assert(all[k] == rest[k - 1]);
                    }
                }
                assert forall|k: int| 0 <= k < all.len() - 1 implies #[trigger] all[k].1 <= all[k + 1].0 by {
                    if k > 0 {
                        assert(all[k] == rest[k - 1]);
                        assert(all[k + 1] == rest[k]);
                    } else {
                        assert(all[1] == rest[0]);
                    }
                }
            },
            None => {
                lemma_groups_from(ns, i + 1);
            },
        }
    }
}

/// The groups are non-empty runs of rows with one cell count, in order and
/// disjoint, and each run is as long as it can be.
pub proof fn law_groups_well_formed(ns: Seq<NodeModel>)
    ensures
        forall|k: int| 0 <= k < groups_spec(ns).len() ==> {
            let g = #[trigger] groups_spec(ns)[k];
            &&& 0 <= g.0 < g.1 <= ns.len()
            &&& forall|j: int| g.0 <= j < g.1 ==> col_count_of(#[trigger] ns[j]) == Some(g.2)
            &&& (g.1 < ns.len() ==> col_count_of(ns[g.1]) != Some(g.2))
        },
        forall|k: int| 0 <= k < groups_spec(ns).len() - 1 ==> #[trigger] groups_spec(ns)[k].1 <= groups_spec(ns)[k + 1].0,
{
    lemma_groups_from(ns, 0);
}

/// The sum of a row's explicit percentages.
pub open spec fn cell_pct_sum(cells: Seq<CellModel>) -> int
    decreases cells.len(),
{
    if cells.len() == 0 {
        0
    } else {
        cell_pct_sum(cells.drop_last()) + match cells.last().width_pct {
            Some(v) => v as int,
            None => 0,
        }
    }
}

/// The first percentage given for column `col` by the rows `start..j`
/// whose percentages sum to at most 100.
pub open spec fn pct_upto(ns: Seq<NodeModel>, start: int, j: int, col: int) -> Option<u32>
    decreases j - start,
{
    if j <= start {
        None
    } else {
        let prev = pct_upto(ns, start, j - 1, col);
        if prev is Some {
            prev
        } else {
            match ns[j - 1] {
                NodeModel::Columns { cells, .. } => if cell_pct_sum(cells) <= 100 && 0 <= col < cells.len() {
                    cells[col].width_pct
                } else {
                    None
                },
                _ => None,
            }
        }
    }
}

/// The percentages of a group, one per column.
pub open spec fn group_pcts_spec(ns: Seq<NodeModel>, g: (int, int, int)) -> Seq<Option<u32>> {
    Seq::new(g.2 as nat, |col: int| pct_upto(ns, g.0, g.1, col))
}

proof fn lemma_pct_sum_mono(cells: Seq<CellModel>, j: int)
    requires
        0 <= j <= cells.len(),
    ensures
        0 <= cell_pct_sum(cells.take(j)) <= cell_pct_sum(cells),
    decreases cells.len(),
{
    if j < cells.len() {
        lemma_pct_sum_mono(cells.drop_last(), j);
        assert(cells.drop_last().take(j) == cells.take(j));
    } else {
        assert(cells.take(j) == cells);
        if cells.len() > 0 {
            lemma_pct_sum_mono(cells.drop_last(), j - 1);
            assert(cells.drop_last().take(j - 1) == cells.drop_last());
        }
    }
}

/// Whether a row's explicit percentages sum to at most 100.
fn row_pcts_valid(cells: &Vec<crate::ast::Cell>) -> (b: bool)
    ensures
        b == (cell_pct_sum(cells_model(cells@)) <= 100),
{
    let ghost cm = cells_model(cells@);
    let mut s: u64 = 0;
    let mut i: usize = 0;
    while i < cells.len()
        invariant
            cm == cells_model(cells@),
            i <= cells@.len(),
            s == cell_pct_sum(cm.take(i as int)),
            s <= 100,
        decreases cells@.len() - i,
    {
        assert(cm.take(i + 1).drop_last() == cm.take(i as int));
        assert(cm.take(i + 1).last().width_pct == cells@[i as int].width_pct);
        match cells[i].width_pct {
            Some(v) => {
                s = s + v as u64;
            },
            None => {},
        }
        if s > 100 {
            proof {
                lemma_pct_sum_mono(cm, i + 1);
            }
            return false;
        }
        i = i + 1;
    }
    assert(cm.take(i as int) == cm);
    true
}

/// Extract width percentages from a column group: for each column, the
/// first explicit percentage among the rows whose percentages sum to at
/// most 100.
pub fn group_width_pcts(nodes: &[Node], group: &ColumnGroup) -> (r: Vec<Option<u32>>)
    requires
        group.start <= group.end <= nodes@.len(),
    ensures
        r@ == group_pcts_spec(nodes_model(nodes@), group_model(*group)),
{
    let ghost ns = nodes_model(nodes@);
    let mut result: Vec<Option<u32>> = Vec::new();
    let mut c: usize = 0;
    while c < group.col_count
        invariant
            c <= group.col_count,
            result@.len() == c,
            forall|k: int| 0 <= k < c ==> result@[k] is None,
        decreases group.col_count - c,
    {
        result.push(None);
        c = c + 1;
    }
    let mut idx: usize = group.start;
    while idx < group.end
        invariant
            ns == nodes_model(nodes@),
            group.start <= idx <= group.end <= nodes@.len(),
            result@.len() == group.col_count,
            forall|k: int| 0 <= k < group.col_count ==> #[trigger] result@[k] == pct_upto(ns, group.start as int, idx as int, k),
        decreases group.end - idx,
    {
        let ghost prev = result@;
        match &nodes[idx] {
            Node::Columns { cells, .. } => {
                let valid = row_pcts_valid(cells);
                if valid {
                    let mut col: usize = 0;
                    while col < cells.len()
                        invariant
                            ns == nodes_model(nodes@),
                            group.start <= idx < group.end <= nodes@.len(),
                            ns[idx as int] == nodes@[idx as int]@,
                            nodes@[idx as int] == (Node::Columns { cells: *cells, size: nodes@[idx as int]->Columns_size }),
                            col <= cells@.len(),
                            result@.len() == group.col_count,
                            prev.len() == group.col_count,
                            forall|k: int| 0 <= k < group.col_count ==> #[trigger] prev[k] == pct_upto(ns, group.start as int, idx as int, k),
                            forall|k: int| 0 <= k < group.col_count ==> #[trigger] result@[k] == if k < col && prev[k] is None && k < cells@.len() {
                                cells@[k].width_pct
                            } else {
                                prev[k]
                            },
                        decreases cells@.len() - col,
                    {
                        if col < result.len() && result[col].is_none() {
                            result.set(col, cells[col].width_pct);
                        }
                        col = col + 1;
                    }
                }
                proof {
                    assert forall|k: int| 0 <= k < group.col_count implies #[trigger] result@[k] == pct_upto(ns, group.start as int, idx + 1, k) by {
                        assert(cells_model(cells@).len() == cells@.len());
                        if k < cells@.len() {
                            assert(cells_model(cells@)[k].width_pct == cells@[k].width_pct);
                        }
                    }
                }
            },
            _ => {
                proof {
                    assert forall|k: int| 0 <= k < group.col_count implies #[trigger] result@[k] == pct_upto(ns, group.start as int, idx + 1, k) by {
                    }
                }
            },
        }
        idx = idx + 1;
    }
    assert(result@ == group_pcts_spec(ns, group_model(*group)));
    result
}

/// The number of characters of a cell's text (0 for a divider).
pub open spec fn cell_text_len(c: CellModel) -> int {
    match c.content {
        CellContentModel::Spans(sp) => spans_text(sp).len() as int,
        CellContentModel::Divider(_) => 0,
    }
}

/// The widest text, in characters, of column `col` in the rows `start..j`.
pub open spec fn nat_upto(ns: Seq<NodeModel>, start: int, j: int, col: int) -> int
    decreases j - start,
{
    if j <= start {
        0
    } else {
        let prev = nat_upto(ns, start, j - 1, col);
        let here = match ns[j - 1] {
            NodeModel::Columns { cells, .. } => if 0 <= col < cells.len() {
                cell_text_len(cells[col])
            } else {
                0
            },
            _ => 0,
        };
        if here > prev { here } else { prev }
    }
}

/// The natural widths of a group, one per column.
pub open spec fn group_nats_spec(ns: Seq<NodeModel>, g: (int, int, int)) -> Seq<int> {
    Seq::new(g.2 as nat, |col: int| nat_upto(ns, g.0, g.1, col))
}

/// Measure natural content widths, in characters, for a column group: the
/// longest text of each column position across the rows of the group.
pub fn measure_natural_widths_chars(nodes: &[Node], group: &ColumnGroup) -> (r: Vec<u64>)
    requires
        group.start <= group.end <= nodes@.len(),
    ensures
        r@.len() == group.col_count,
        forall|k: int| 0 <= k < r@.len() ==> #[trigger] r@[k] == group_nats_spec(nodes_model(nodes@), group_model(*group))[k],
{
    let ghost ns = nodes_model(nodes@);
    let mut result: Vec<u64> = Vec::new();
    let mut c: usize = 0;
    while c < group.col_count
        invariant
            c <= group.col_count,
            result@.len() == c,
            forall|k: int| 0 <= k < c ==> result@[k] == 0,
        decreases group.col_count - c,
    {
        result.push(0);
        c = c + 1;
    }
    let mut idx: usize = group.start;
    while idx < group.end
        invariant
            ns == nodes_model(nodes@),
            group.start <= idx <= group.end <= nodes@.len(),
            result@.len() == group.col_count,
            forall|k: int| 0 <= k < group.col_count ==> #[trigger] result@[k] == nat_upto(ns, group.start as int, idx as int, k),
        decreases group.end - idx,
    {
        let ghost prev = result@;
        match &nodes[idx] {
            Node::Columns { cells, .. } => {
                let ghost cm = cells_model(cells@);
                let mut col: usize = 0;
                while col < cells.len()
                    invariant
                        ns == nodes_model(nodes@),
                        cm == cells_model(cells@),
                        col <= cells@.len(),
                        result@.len() == group.col_count,
                        prev.len() == group.col_count,
                        forall|k: int| 0 <= k < group.col_count ==> #[trigger] result@[k] == if k < col && k < cells@.len() {
                            let here = cell_text_len(cm[k]);
                            if here > prev[k] { here } else { prev[k] as int }
                        } else {
                            prev[k] as int
                        },
                    decreases cells@.len() - col,
                {
                    if col < result.len() {
                        match &cells[col].content {
                            CellContent::Spans(spans) => {
                                let text = spans_chars(spans.as_slice());
                                assert(cm[col as int].content == CellContentModel::Spans(spans_model(spans@)));
                                let len = text.len() as u64;
                                if len > result[col] {
                                    result.set(col, len);
                                }
                            },
                            CellContent::Divider(_) => {},
                        }
                    }
                    col = col + 1;
                }
            },
            _ => {},
        }
        idx = idx + 1;
    }
    result
}

/// A count of characters in thousandths, capped at the largest 64-bit value.
pub open spec fn milli_chars(n: int) -> int {
    imin(n * 1000, u64max())
}

/// A count of characters in thousandths, capped at the largest 64-bit value.
pub(crate) fn milli_chars_exec(n: u64) -> (r: u64)
    ensures
        r == milli_chars(n as int),
{
    if n > 18_446_744_073_709_551 {
        u64::MAX
    } else {
        n * 1000
    }
}

/// The natural widths of a group, in thousandths of a character.
pub open spec fn milli_nats(ns: Seq<NodeModel>, g: (int, int, int)) -> Seq<u64> {
    Seq::new(g.2 as nat, |col: int| milli_chars(nat_upto(ns, g.0, g.1, col)) as u64)
}

/// The layout shared by the rows of a group.
pub open spec fn group_layout(ns: Seq<NodeModel>, g: (int, int, int), total: int, gap: int, min_col: int) -> Seq<(int, int)> {
    layout_spec(group_pcts_spec(ns, g), milli_nats(ns, g), total, gap, min_col)
}

/// The layout of each node: that of its group for a column row in one of
/// the groups `gs`, none otherwise.
pub open spec fn cache_spec(ns: Seq<NodeModel>, gs: Seq<(int, int, int)>, total: int, gap: int, min_col: int) -> Seq<Option<Seq<(int, int)>>>
    decreases gs.len(),
{
    if gs.len() == 0 {
        Seq::new(ns.len(), |i: int| None::<Seq<(int, int)>>)
    } else {
        let prev = cache_spec(ns, gs.drop_last(), total, gap, min_col);
        let g = gs.last();
        let lay = group_layout(ns, g, total, gap, min_col);
        Seq::new(prev.len(), |i: int| if g.0 <= i < g.1 { Some(lay) } else { prev[i] })
    }
}

/// The model of a layout cache.
pub open spec fn cache_model(c: Seq<Option<Vec<(u128, u128)>>>) -> Seq<Option<Seq<(int, int)>>> {
    Seq::new(c.len(), |i: int| match c[i] {
        Some(v) => Some(pairs(v@)),
        None => None,
    })
}

fn copy_pairs(v: &Vec<(u128, u128)>) -> (r: Vec<(u128, u128)>)
    ensures
        r@ == v@,
{
    let mut r: Vec<(u128, u128)> = Vec::new();
    let mut i: usize = 0;
    while i < v.len()
        invariant
            i <= v@.len(),
            r@ == v@.take(i as int),
        decreases v@.len() - i,
    {
        r.push(v[i]);
        i = i + 1;
    }
    assert(v@.take(i as int) == v@);
    r
}

/// Pre-compute column layouts for all groups of a character-cell renderer.
///
/// Entry `i` holds the `(x, width)` pairs, in thousandths of a character,
/// for node `i` when it is a column row, and `None` otherwise. `gap` and
/// `min_col` are in thousandths of a character, `total_width` in
/// characters. A width past the 64-bit range of thousandths is capped there.
pub fn precompute_columns_chars(nodes: &[Node], total_width: usize, gap: u64, min_col: u64) -> (r: Vec<Option<Vec<(u128, u128)>>>)
    ensures
        cache_model(r@) == cache_spec(nodes_model(nodes@), groups_spec(nodes_model(nodes@)), milli_chars(total_width as int), gap as int, min_col as int),
{
    let ghost ns = nodes_model(nodes@);
    let total: u64 = milli_chars_exec(total_width as u64);
    let groups = identify_column_groups(nodes);
    let ghost gm = groups_model(groups@);
    proof {
        law_groups_well_formed(ns);
    }
    let mut cache: Vec<Option<Vec<(u128, u128)>>> = Vec::new();
    let mut i: usize = 0;
    while i < nodes.len()
        invariant
            i <= nodes@.len(),
            cache@.len() == i,
            forall|j: int| 0 <= j < i ==> cache@[j] is None,
        decreases nodes@.len() - i,
    {
        cache.push(None);
        i = i + 1;
    }
    assert(cache_model(cache@) == cache_spec(ns, gm.take(0), total as int, gap as int, min_col as int));
    let mut k: usize = 0;
    while k < groups.len()
        invariant
            ns == nodes_model(nodes@),
            gm == groups_model(groups@),
            gm == groups_spec(ns),
            k <= groups@.len(),
            cache@.len() == nodes@.len(),
            forall|t: int| 0 <= t < groups_spec(ns).len() ==> {
                let g = #[trigger] groups_spec(ns)[t];
                &&& 0 <= g.0 < g.1 <= ns.len()
                &&& forall|j: int| g.0 <= j < g.1 ==> col_count_of(#[trigger] ns[j]) == Some(g.2)
            },
            cache_model(cache@) == cache_spec(ns, gm.take(k as int), total as int, gap as int, min_col as int),
        decreases groups@.len() - k,
    {
        let g = groups[k];
        assert(gm[k as int] == group_model(g));
        let ghost gg = gm[k as int];
        assert(col_count_of(ns[gg.0]) == Some(gg.2));
        let pcts = group_width_pcts(nodes, &g);
        let nats = measure_natural_widths_chars(nodes, &g);
        let mut milli: Vec<u64> = Vec::new();
        let mut c: usize = 0;
        while c < nats.len()
            invariant
                ns == nodes_model(nodes@),
                g.start <= g.end <= nodes@.len(),
                gg == group_model(g),
                nats@.len() == g.col_count,
                forall|t: int| 0 <= t < nats@.len() ==> #[trigger] nats@[t] == group_nats_spec(ns, gg)[t],
                c <= nats@.len(),
                milli@.len() == c,
                forall|t: int| 0 <= t < c ==> #[trigger] milli@[t] == milli_nats(ns, gg)[t],
            decreases nats@.len() - c,
        {
            milli.push(milli_chars_exec(nats[c]));
            c = c + 1;
        }
        assert(milli@ == milli_nats(ns, gg));
        let cols = column_widths(pcts.as_slice(), milli.as_slice(), total, gap, min_col);
        let ghost before = cache_model(cache@);
        let mut idx: usize = g.start;
        while idx < g.end
            invariant
                g.start <= idx <= g.end <= nodes@.len(),
                cache@.len() == nodes@.len(),
                before.len() == nodes@.len(),
                forall|j: int| 0 <= j < nodes@.len() ==> #[trigger] cache_model(cache@)[j] == if g.start <= j < idx {
                    Some(pairs(cols@))
                } else {
                    before[j]
                },
            decreases g.end - idx,
        {
            let copy = copy_pairs(&cols);
            let ghost old_cache = cache@;
            cache.set(idx, Some(copy));
            proof {
                assert forall|j: int| 0 <= j < nodes@.len() implies #[trigger] cache_model(cache@)[j] == if g.start <= j < idx + 1 {
                    Some(pairs(cols@))
                } else {
                    before[j]
                } by {
                    if j != idx {
                        assert(cache@[j] == old_cache[j]);
                        assert(cache_model(old_cache)[j] == cache_model(cache@)[j]);
                    }
                }
            }
            idx = idx + 1;
        }
        proof {
            assert(gm.take(k + 1).drop_last() == gm.take(k as int));
            assert(gm.take(k + 1).last() == gg);
            assert(cache_model(cache@) == cache_spec(ns, gm.take(k + 1), total as int, gap as int, min_col as int));
        }
        k = k + 1;
    }
    assert(gm.take(k as int) == gm);
    cache
}

} // verus!
