//! Column width computation with content-aware auto-fit.
//!
//! All quantities are non-negative integers in a unit chosen by the caller
//! (character renderers use thousandths of a character).
use vstd::prelude::*;

verus! {

/// The largest 64-bit value.
pub open spec fn u64max() -> int {
    0xFFFF_FFFF_FFFF_FFFF
}

/// The square of the largest 64-bit value: no available width exceeds it.
pub open spec fn big() -> int {
    0xFFFF_FFFF_FFFF_FFFE_0000_0000_0000_0001
}

/// The largest 128-bit value, at which positions are capped.
pub open spec fn u128max() -> int {
    0xFFFF_FFFF_FFFF_FFFF_FFFF_FFFF_FFFF_FFFF
}

/// The sum of the explicit percentages.
pub open spec fn pct_sum(p: Seq<Option<u32>>) -> int
    decreases p.len(),
{
    if p.len() == 0 {
        0
    } else {
        pct_sum(p.drop_last()) + match p.last() {
            Some(v) => v as int,
            None => 0,
        }
    }
}

/// The percentages in effect: all ignored when they sum past 100.
pub open spec fn eff_pcts(p: Seq<Option<u32>>) -> Seq<Option<u32>> {
    if pct_sum(p) > 100 {
        Seq::new(p.len(), |i: int| None::<u32>)
    } else {
        p
    }
}

/// The larger of two integers.
pub open spec fn imax(a: int, b: int) -> int {
    if a >= b { a } else { b }
}

/// The smaller of two integers.
pub open spec fn imin(a: int, b: int) -> int {
    if a <= b { a } else { b }
}

/// The width the columns share: the total less the gaps between them,
/// but at least `min_col` per column.
pub open spec fn available(n: int, total: int, gap: int, min_col: int) -> int {
    imax(imax(total - gap * (n - 1), 0), min_col * n)
}

/// The natural width of column `i` (0 when none is given).
pub open spec fn nat_at(nw: Seq<u64>, i: int) -> int {
    if 0 <= i < nw.len() { nw[i] as int } else { 0 }
}

/// The width of an explicit column: its share of the available width,
/// at least `min_col`; 0 for auto columns.
pub open spec fn explicit_width(p: Option<u32>, avail: int, min_col: int) -> int {
    match p {
        Some(v) => imax(v * avail / 100, min_col),
        None => 0,
    }
}

/// The sum of the explicit column widths.
pub open spec fn explicit_total(ep: Seq<Option<u32>>, avail: int, min_col: int) -> int
    decreases ep.len(),
{
    if ep.len() == 0 {
        0
    } else {
        explicit_total(ep.drop_last(), avail, min_col) + explicit_width(ep.last(), avail, min_col)
    }
}

/// The indices of the auto (no percentage) columns, in order.
pub open spec fn auto_idx(ep: Seq<Option<u32>>) -> Seq<int>
    decreases ep.len(),
{
    if ep.len() == 0 {
        seq![]
    } else if ep.last() is None {
        auto_idx(ep.drop_last()).push(ep.len() - 1)
    } else {
        auto_idx(ep.drop_last())
    }
}

/// The sum of the natural widths of the columns `idx`.
pub open spec fn nat_sum(nw: Seq<u64>, idx: Seq<int>) -> int
    decreases idx.len(),
{
    if idx.len() == 0 {
        0
    } else {
        nat_sum(nw, idx.drop_last()) + nat_at(nw, idx.last())
    }
}

/// The sum of `max(natural, min_col)` over the columns `idx`.
pub open spec fn clamped_sum(nw: Seq<u64>, idx: Seq<int>, min_col: int) -> int
    decreases idx.len(),
{
    if idx.len() == 0 {
        0
    } else {
        clamped_sum(nw, idx.drop_last(), min_col) + imax(nat_at(nw, idx.last()), min_col)
    }
}

/// Whether all the columns `idx` have the same natural width.
pub open spec fn all_equal(nw: Seq<u64>, idx: Seq<int>) -> bool {
    forall|a: int, b: int| 0 <= a < idx.len() && 0 <= b < idx.len() ==> nat_at(nw, #[trigger] idx[a]) == nat_at(nw, #[trigger] idx[b])
}

/// The widest of the columns `idx` (the last one among equals).
pub open spec fn widest(nw: Seq<u64>, idx: Seq<int>) -> int
    decreases idx.len(),
{
    if idx.len() <= 1 {
        if idx.len() == 1 { idx[0] } else { 0 }
    } else {
        let w = widest(nw, idx.drop_last());
        if nat_at(nw, idx.last()) >= nat_at(nw, w) { idx.last() } else { w }
    }
}

/// The position in `idx` of the column with the smallest natural width
/// (the first one among equals).
pub open spec fn narrowest_pos(nw: Seq<u64>, idx: Seq<int>) -> int
    decreases idx.len(),
{
    if idx.len() <= 1 {
        0
    } else {
        let p = narrowest_pos(nw, idx.drop_last());
        if nat_at(nw, idx.last()) < nat_at(nw, idx[p]) { idx.len() - 1 } else { p }
    }
}

/// The narrowest position lies within a non-empty list.
pub proof fn lemma_narrowest_in_range(nw: Seq<u64>, idx: Seq<int>)
    requires
        idx.len() > 0,
    ensures
        0 <= narrowest_pos(nw, idx) < idx.len(),
    decreases idx.len(),
{
    if idx.len() > 1 {
        lemma_narrowest_in_range(nw, idx.drop_last());
    }
}

/// Floor division of an integer by a positive count.
pub open spec fn fdiv(a: int, k: int) -> int {
    a / k
}

/// Fill the columns `idx` narrowest first: each takes its natural width
/// up to a fair share of what is left, and at least `min_col`.
pub open spec fn water_fill(widths: Seq<int>, nw: Seq<u64>, idx: Seq<int>, budget: int, min_col: int) -> Seq<int>
    decreases idx.len(),
{
    if idx.len() == 0 {
        widths
    } else {
        let p = narrowest_pos(nw, idx);
        proof {
            lemma_narrowest_in_range(nw, idx);
        }
        let i = idx[p];
        let fair = fdiv(budget, idx.len() as int);
        let w = imax(imin(nat_at(nw, i), fair), min_col);
        water_fill(widths.update(i, w), nw, idx.remove(p), budget - w, min_col)
    }
}

/// Set every column of `idx` to `max(natural, min_col)`.
pub open spec fn set_clamped(widths: Seq<int>, nw: Seq<u64>, idx: Seq<int>, min_col: int) -> Seq<int>
    decreases idx.len(),
{
    if idx.len() == 0 {
        widths
    } else {
        set_clamped(widths, nw, idx.drop_last(), min_col).update(idx.last(), imax(nat_at(nw, idx.last()), min_col))
    }
}

/// Set every column of `idx` to its width in `base` plus `d`.
pub open spec fn shift_each(base: Seq<int>, idx: Seq<int>, d: int) -> Seq<int>
    decreases idx.len(),
{
    if idx.len() == 0 {
        base
    } else {
        shift_each(base, idx.drop_last(), d).update(idx.last(), base[idx.last()] + d)
    }
}

/// Set every column of `idx` to `v`.
pub open spec fn fill_each(widths: Seq<int>, idx: Seq<int>, v: int) -> Seq<int>
    decreases idx.len(),
{
    if idx.len() == 0 {
        widths
    } else {
        fill_each(widths, idx.drop_last(), v).update(idx.last(), v)
    }
}

/// The column widths.
///
/// Explicit columns get their percentage of the available width (at
/// least `min_col`). Auto columns share what remains: when their natural
/// widths fit, each gets its natural width (at least `min_col`) and the
/// leftover goes evenly to all when they are equally wide, else to the
/// widest; when they do not fit, they are filled narrowest first with fair
/// shares; when all natural widths are zero they split the remainder
/// evenly. Percentages summing past 100 are all ignored and every column
/// gets an equal share of the available width (at least `min_col`).
pub open spec fn widths_spec(p: Seq<Option<u32>>, nw: Seq<u64>, total: int, gap: int, min_col: int) -> Seq<int> {
    let n = p.len() as int;
    let avail = available(n, total, gap, min_col);
    let ep = eff_pcts(p);
    let ew = Seq::new(p.len(), |i: int| explicit_width(ep[i], avail, min_col));
    let remaining = imax(avail - explicit_total(ep, avail, min_col), 0);
    let a = auto_idx(ep);
    let k = a.len() as int;
    if k == 0 {
        ew
    } else if pct_sum(p) <= 100 && nat_sum(nw, a) > 0 {
        if nat_sum(nw, a) <= remaining {
            let base = set_clamped(ew, nw, a, min_col);
            let leftover = imax(remaining - clamped_sum(nw, a, min_col), 0);
            if all_equal(nw, a) {
                shift_each(base, a, leftover / k)
            } else {
                base.update(widest(nw, a), base[widest(nw, a)] + leftover)
            }
        } else {
            water_fill(ew, nw, a, remaining, min_col)
        }
    } else {
        fill_each(ew, a, imax(remaining / k, min_col))
    }
}

/// The left edge of column `i`: the widths and gaps before it.
pub open spec fn x_at(widths: Seq<int>, gap: int, i: int) -> int
    decreases i,
{
    if i <= 0 {
        0
    } else {
        x_at(widths, gap, i - 1) + widths[i - 1] + gap
    }
}

/// The widths held in a vector, as integers.
pub open spec fn ws(v: Seq<u128>) -> Seq<int> {
    Seq::new(v.len(), |i: int| v[i] as int)
}

/// The column indices held in a vector, as integers.
pub open spec fn idxs(v: Seq<usize>) -> Seq<int> {
    Seq::new(v.len(), |i: int| v[i] as int)
}

proof fn lemma_pct_sum_bounds(p: Seq<Option<u32>>, i: int)
    requires
        0 <= i < p.len(),
    ensures
        pct_sum(p) >= 0,
        p[i] is Some ==> p[i]->0 <= pct_sum(p),
    decreases p.len(),
{
    if i < p.len() - 1 {
        lemma_pct_sum_bounds(p.drop_last(), i);
        assert(p.drop_last()[i] == p[i]);
    } else if p.len() > 1 {
        lemma_pct_sum_bounds(p.drop_last(), 0);
    }
    assert(pct_sum(p) == pct_sum(p.drop_last()) + match p.last() {
        Some(v) => v as int,
        None => 0,
    });
}

fn pct_total(p: &[Option<u32>]) -> (s: u128)
    ensures
        s == pct_sum(p@),
{
    let mut s: u128 = 0;
    let mut i: usize = 0;
    while i < p.len()
        invariant
            i <= p@.len(),
            s == pct_sum(p@.take(i as int)),
            s <= i * 0x1_0000_0000,
        decreases p@.len() - i,
    {
        assert(p@.take(i + 1).drop_last() == p@.take(i as int));
        assert((i + 1) * 0x1_0000_0000 <= 0x1_0000_0000_0000_0000_0000_0000) by (nonlinear_arith)
            requires
                i < 0x1_0000_0000_0000_0000,
        ;
        match p[i] {
            Some(v) => {
                s = s + v as u128;
            },
            None => {},
        }
        i = i + 1;
    }
    assert(p@.take(i as int) == p@);
    s
}

/// The percentages in effect, each at most 100.
fn effective_pcts(p: &[Option<u32>]) -> (e: Vec<Option<u32>>)
    ensures
        e@ == eff_pcts(p@),
        forall|i: int| 0 <= i < e@.len() && e@[i] is Some ==> e@[i]->0 <= 100,
{
    let total = pct_total(p);
    let mut e: Vec<Option<u32>> = Vec::new();
    let mut i: usize = 0;
    while i < p.len()
        invariant
            i <= p@.len(),
            total == pct_sum(p@),
            e@.len() == i,
            forall|j: int| 0 <= j < i ==> e@[j] == (if total > 100 { None } else { p@[j] }),
        decreases p@.len() - i,
    {
        if total > 100 {
            e.push(None);
        } else {
            e.push(p[i]);
        }
        i = i + 1;
    }
    assert forall|j: int| 0 <= j < e@.len() && e@[j] is Some implies e@[j]->0 <= 100 by {
        lemma_pct_sum_bounds(p@, j);
    }
    assert(e@ == eff_pcts(p@));
    e
}

fn available_exec(n: usize, total: u64, gap: u64, min_col: u64) -> (a: u128)
    requires
        1 <= n,
    ensures
        a == available(n as int, total as int, gap as int, min_col as int),
        a <= big(),
{
    let k: u128 = (n - 1) as u128;
    assert(gap * k <= big()) by (nonlinear_arith)
        requires
            gap <= u64max(),
            k <= u64max(),
    ;
    assert(min_col * n <= big()) by (nonlinear_arith)
        requires
            min_col <= u64max(),
            n <= u64max(),
    ;
    let gaps: u128 = gap as u128 * k;
    let t: u128 = total as u128;
    let base: u128 = if t > gaps { t - gaps } else { 0 };
    let m: u128 = min_col as u128 * n as u128;
    if base >= m { base } else { m }
}

fn explicit_widths(ep: &Vec<Option<u32>>, avail: u128, min_col: u128) -> (r: (Vec<u128>, u128))
    requires
        avail <= big(),
        min_col <= u64max(),
        forall|i: int| 0 <= i < ep@.len() && ep@[i] is Some ==> ep@[i]->0 <= 100,
    ensures
        ws(r.0@) == Seq::new(ep@.len(), |i: int| explicit_width(ep@[i], avail as int, min_col as int)),
        r.1 == imin(explicit_total(ep@, avail as int, min_col as int), u128max()),
{
    let mut w: Vec<u128> = Vec::new();
    let mut total: u128 = 0;
    let mut i: usize = 0;
    while i < ep.len()
        invariant
            i <= ep@.len(),
            avail <= big(),
            min_col <= u64max(),
            forall|j: int| 0 <= j < ep@.len() && ep@[j] is Some ==> ep@[j]->0 <= 100,
            w@.len() == i,
            forall|j: int| 0 <= j < i ==> w@[j] == explicit_width(#[trigger] ep@[j], avail as int, min_col as int),
            total == imin(explicit_total(ep@.take(i as int), avail as int, min_col as int), u128max()),
            explicit_total(ep@.take(i as int), avail as int, min_col as int) >= 0,
        decreases ep@.len() - i,
    {
        assert(ep@.take(i + 1).drop_last() == ep@.take(i as int));
        let x: u128 = match ep[i] {
            Some(v) => {
                let q: u128 = avail / 100;
                let r: u128 = avail % 100;
                proof {
                    let vi = v as int;
                    let ai = avail as int;
                    assert(ai == 100 * q + r && 0 <= r < 100) by (nonlinear_arith)
                        requires
                            q == ai / 100,
                            r == ai % 100,
                    ;
                    assert(vi * r + vi * q * 100 == vi * ai) by (nonlinear_arith)
                        requires
                            ai == 100 * q + r,
                    ;
                    vstd::arithmetic::div_mod::lemma_hoist_over_denominator(vi * r, vi * q, 100);
                    assert(vi * q <= ai) by (nonlinear_arith)
                        requires
                            vi <= 100,
                            ai == 100 * q + r,
                            0 <= r,
                            0 <= q,
                            0 <= vi,
                    ;
                    assert(vi * r <= 9900) by (nonlinear_arith)
                        requires
                            vi <= 100,
                            r < 100,
                            0 <= r,
                            0 <= vi,
                    ;
                    assert(vi * ai / 100 <= ai) by (nonlinear_arith)
                        requires
                            vi <= 100,
                            0 <= vi,
                            0 <= ai,
                    ;
                }
                let t: u128 = v as u128 * q + v as u128 * r / 100;
                assert(t == v * avail / 100);
                if t >= min_col { t } else { min_col }
            },
            None => 0,
        };
        w.push(x);
        total = if total > u128::MAX - x { u128::MAX } else { total + x };
        i = i + 1;
    }
    assert(ep@.take(i as int) == ep@);
    (w, total)
}

fn auto_indices(ep: &Vec<Option<u32>>) -> (a: Vec<usize>)
    ensures
        idxs(a@) == auto_idx(ep@),
        forall|j: int| 0 <= j < a@.len() ==> a@[j] < ep@.len(),
        a@.len() <= ep@.len(),
{
    let mut a: Vec<usize> = Vec::new();
    let mut i: usize = 0;
    while i < ep.len()
        invariant
            i <= ep@.len(),
            idxs(a@) == auto_idx(ep@.take(i as int)),
            forall|j: int| 0 <= j < a@.len() ==> a@[j] < i,
            a@.len() <= i,
        decreases ep@.len() - i,
    {
        assert(ep@.take(i + 1).drop_last() == ep@.take(i as int));
        if ep[i].is_none() {
            a.push(i);
            assert(idxs(a@) == idxs(a@.drop_last()).push(i as int));
        }
        i = i + 1;
    }
    assert(ep@.take(i as int) == ep@);
    a
}

fn nat_get(nw: &[u64], i: usize) -> (v: u64)
    ensures
        v == nat_at(nw@, i as int),
{
    if i < nw.len() { nw[i] } else { 0 }
}

proof fn lemma_take_last(a: Seq<int>, j: int)
    requires
        0 <= j < a.len(),
    ensures
        a.take(j + 1).drop_last() == a.take(j),
        a.take(j + 1).last() == a[j],
        a.take(j + 1).len() == j + 1,
{
    assert(a.take(j + 1).drop_last() == a.take(j));
}

fn natural_sum(nw: &[u64], a: &Vec<usize>) -> (s: u128)
    ensures
        s == nat_sum(nw@, idxs(a@)),
{
    let mut s: u128 = 0;
    let mut j: usize = 0;
    while j < a.len()
        invariant
            j <= a@.len(),
            s == nat_sum(nw@, idxs(a@).take(j as int)),
            s <= j * u64max(),
        decreases a@.len() - j,
    {
        proof {
            lemma_take_last(idxs(a@), j as int);
            assert((j + 1) * u64max() <= big()) by (nonlinear_arith)
                requires
                    j < u64max(),
            ;
        }
        let v = nat_get(nw, a[j]);
        s = s + v as u128;
        j = j + 1;
    }
    assert(idxs(a@).take(j as int) == idxs(a@));
    s
}

fn clamped_total(nw: &[u64], a: &Vec<usize>, min_col: u128) -> (s: u128)
    requires
        min_col <= u64max(),
    ensures
        s == clamped_sum(nw@, idxs(a@), min_col as int),
{
    let mut s: u128 = 0;
    let mut j: usize = 0;
    while j < a.len()
        invariant
            j <= a@.len(),
            min_col <= u64max(),
            s == clamped_sum(nw@, idxs(a@).take(j as int), min_col as int),
            s <= j * u64max(),
        decreases a@.len() - j,
    {
        proof {
            lemma_take_last(idxs(a@), j as int);
            assert((j + 1) * u64max() <= big()) by (nonlinear_arith)
                requires
                    j < u64max(),
            ;
        }
        let v = nat_get(nw, a[j]) as u128;
        s = s + if v >= min_col { v } else { min_col };
        j = j + 1;
    }
    assert(idxs(a@).take(j as int) == idxs(a@));
    s
}

fn equal_naturals(nw: &[u64], a: &Vec<usize>) -> (b: bool)
    requires
        a@.len() >= 1,
    ensures
        b == all_equal(nw@, idxs(a@)),
{
    let first = nat_get(nw, a[0]);
    let mut j: usize = 1;
    while j < a.len()
        invariant
            1 <= j <= a@.len(),
            first == nat_at(nw@, idxs(a@)[0]),
            forall|t: int| 0 <= t < j ==> nat_at(nw@, #[trigger] idxs(a@)[t]) == first,
        decreases a@.len() - j,
    {
        if nat_get(nw, a[j]) != first {
            assert(!all_equal(nw@, idxs(a@))) by {
                assert(nat_at(nw@, idxs(a@)[j as int]) != nat_at(nw@, idxs(a@)[0]));
            }
            return false;
        }
        j = j + 1;
    }
    true
}

fn widest_col(nw: &[u64], a: &Vec<usize>) -> (w: usize)
    requires
        a@.len() >= 1,
    ensures
        w == widest(nw@, idxs(a@)),
        exists|t: int| 0 <= t < a@.len() && a@[t] == w,
{
    let mut w: usize = a[0];
    let mut wv: u64 = nat_get(nw, w);
    let mut j: usize = 1;
    assert(idxs(a@).take(1) == seq![a@[0] as int]);
    while j < a.len()
        invariant
            1 <= j <= a@.len(),
            w == widest(nw@, idxs(a@).take(j as int)),
            wv == nat_at(nw@, w as int),
            exists|t: int| 0 <= t < a@.len() && a@[t] == w,
        decreases a@.len() - j,
    {
        proof {
            lemma_take_last(idxs(a@), j as int);
        }
        let v = nat_get(nw, a[j]);
        if v >= wv {
            w = a[j];
            wv = v;
        }
        j = j + 1;
    }
    assert(idxs(a@).take(j as int) == idxs(a@));
    w
}

fn narrowest(nw: &[u64], idx: &Vec<usize>) -> (p: usize)
    requires
        idx@.len() >= 1,
    ensures
        p == narrowest_pos(nw@, idxs(idx@)),
        p < idx@.len(),
{
    let mut p: usize = 0;
    let mut pv: u64 = nat_get(nw, idx[0]);
    let mut j: usize = 1;
    while j < idx.len()
        invariant
            1 <= j <= idx@.len(),
            p < j,
            p == narrowest_pos(nw@, idxs(idx@).take(j as int)),
            pv == nat_at(nw@, idx@[p as int] as int),
        decreases idx@.len() - j,
    {
        proof {
            lemma_take_last(idxs(idx@), j as int);
            assert(idxs(idx@).take(j as int)[p as int] == idxs(idx@)[p as int]);
        }
        let v = nat_get(nw, idx[j]);
        if v < pv {
            p = j;
            pv = v;
        }
        j = j + 1;
    }
    assert(idxs(idx@).take(j as int) == idxs(idx@));
    p
}

/// Every index is below `n`.
pub open spec fn idx_below(a: Seq<usize>, n: int) -> bool {
    forall|j: int| 0 <= j < a.len() ==> a[j] < n
}

proof fn lemma_ws_update(v: Seq<u128>, i: int, x: u128)
    requires
        0 <= i < v.len(),
    ensures
        ws(v.update(i, x)) == ws(v).update(i, x as int),
{
    assert(ws(v.update(i, x)) == ws(v).update(i, x as int));
}

fn set_clamped_exec(widths: &mut Vec<u128>, nw: &[u64], a: &Vec<usize>, min_col: u128)
    requires
        idx_below(a@, old(widths)@.len() as int),
        min_col <= u64max(),
    ensures
        final(widths)@.len() == old(widths)@.len(),
        ws(final(widths)@) == set_clamped(ws(old(widths)@), nw@, idxs(a@), min_col as int),
        forall|t: int| 0 <= t < a@.len() ==> final(widths)@[#[trigger] a@[t] as int] <= u64max(),
{
    let ghost w0 = ws(widths@);
    let mut j: usize = 0;
    while j < a.len()
        invariant
            j <= a@.len(),
            widths@.len() == w0.len(),
            idx_below(a@, w0.len() as int),
            min_col <= u64max(),
            ws(widths@) == set_clamped(w0, nw@, idxs(a@).take(j as int), min_col as int),
            forall|t: int| 0 <= t < j ==> widths@[#[trigger] a@[t] as int] <= u64max(),
        decreases a@.len() - j,
    {
        proof {
            lemma_take_last(idxs(a@), j as int);
        }
        let i = a[j];
        let v = nat_get(nw, i) as u128;
        let x: u128 = if v >= min_col { v } else { min_col };
        proof {
            lemma_ws_update(widths@, i as int, x);
        }
        widths.set(i, x);
        j = j + 1;
    }
    assert(idxs(a@).take(j as int) == idxs(a@));
}

fn shift_exec(base: &Vec<u128>, a: &Vec<usize>, d: u128) -> (r: Vec<u128>)
    requires
        idx_below(a@, base@.len() as int),
        forall|t: int| 0 <= t < a@.len() ==> base@[#[trigger] a@[t] as int] <= u64max(),
        d <= big(),
    ensures
        r@.len() == base@.len(),
        ws(r@) == shift_each(ws(base@), idxs(a@), d as int),
{
    let mut r: Vec<u128> = Vec::new();
    let mut i: usize = 0;
    while i < base.len()
        invariant
            i <= base@.len(),
            r@ == base@.take(i as int),
        decreases base@.len() - i,
    {
        r.push(base[i]);
        i = i + 1;
    }
    assert(r@ == base@);
    let mut j: usize = 0;
    while j < a.len()
        invariant
            j <= a@.len(),
            r@.len() == base@.len(),
            idx_below(a@, base@.len() as int),
            forall|t: int| 0 <= t < a@.len() ==> base@[#[trigger] a@[t] as int] <= u64max(),
            d <= big(),
            ws(r@) == shift_each(ws(base@), idxs(a@).take(j as int), d as int),
        decreases a@.len() - j,
    {
        proof {
            lemma_take_last(idxs(a@), j as int);
        }
        let k = a[j];
        assert(base@[a@[j as int] as int] <= u64max());
        let x: u128 = base[k] + d;
        proof {
            lemma_ws_update(r@, k as int, x);
        }
        r.set(k, x);
        j = j + 1;
    }
    assert(idxs(a@).take(j as int) == idxs(a@));
    r
}

fn fill_exec(widths: &mut Vec<u128>, a: &Vec<usize>, v: u128)
    requires
        idx_below(a@, old(widths)@.len() as int),
    ensures
        final(widths)@.len() == old(widths)@.len(),
        ws(final(widths)@) == fill_each(ws(old(widths)@), idxs(a@), v as int),
{
    let ghost w0 = ws(widths@);
    let mut j: usize = 0;
    while j < a.len()
        invariant
            j <= a@.len(),
            widths@.len() == w0.len(),
            idx_below(a@, w0.len() as int),
            ws(widths@) == fill_each(w0, idxs(a@).take(j as int), v as int),
        decreases a@.len() - j,
    {
        proof {
            lemma_take_last(idxs(a@), j as int);
        }
        let i = a[j];
        proof {
            lemma_ws_update(widths@, i as int, v);
        }
        widths.set(i, v);
        j = j + 1;
    }
    assert(idxs(a@).take(j as int) == idxs(a@));
}

fn water_fill_exec(widths: &mut Vec<u128>, nw: &[u64], a: &Vec<usize>, remaining: u128, min_col: u128)
    requires
        idx_below(a@, old(widths)@.len() as int),
        min_col <= u64max(),
    ensures
        final(widths)@.len() == old(widths)@.len(),
        ws(final(widths)@) == water_fill(ws(old(widths)@), nw@, idxs(a@), remaining as int, min_col as int),
{
    let ghost target = water_fill(ws(widths@), nw@, idxs(a@), remaining as int, min_col as int);
    let ghost n = widths@.len();
    let mut idx: Vec<usize> = Vec::new();
    let mut i: usize = 0;
    while i < a.len()
        invariant
            i <= a@.len(),
            idx@ == a@.take(i as int),
        decreases a@.len() - i,
    {
        idx.push(a[i]);
        i = i + 1;
    }
    assert(idx@ == a@);
    // The budget is `bud` while it is not negative; once a column takes
    // more than is left it stays negative, and only its sign matters.
    let mut bud: u128 = remaining;
    let mut neg: bool = false;
    let ghost mut gb: int = remaining as int;
    while idx.len() > 0
        invariant
            widths@.len() == n,
            idx_below(idx@, n as int),
            min_col <= u64max(),
            !neg ==> gb == bud as int,
            neg ==> gb < 0,
            water_fill(ws(widths@), nw@, idxs(idx@), gb, min_col as int) == target,
        decreases idx@.len(),
    {
        let p = narrowest(nw, &idx);
        let i = idx[p];
        let k: usize = idx.len();
        let v = nat_get(nw, i) as u128;
        let w: u128 = if neg {
            assert(gb / (k as int) < 0) by (nonlinear_arith)
                requires
                    gb < 0,
                    k > 0,
            ;
            min_col
        } else {
            let fair: u128 = bud / k as u128;
            let m: u128 = if v <= fair { v } else { fair };
            if m >= min_col { m } else { min_col }
        };
        proof {
            assert(idxs(idx@)[p as int] == i as int);
            lemma_ws_update(widths@, i as int, w);
            assert(idxs(idx@.remove(p as int)) == idxs(idx@).remove(p as int));
        }
        widths.set(i, w);
        idx.remove(p);
        proof {
            gb = gb - w as int;
        }
        if !neg {
            if w <= bud {
                bud = bud - w;
            } else {
                neg = true;
            }
        }
    }
    assert(idxs(idx@) == Seq::<int>::empty());
}

/// Position and width pairs, as integers.
pub open spec fn pairs(r: Seq<(u128, u128)>) -> Seq<(int, int)> {
    Seq::new(r.len(), |i: int| (r[i].0 as int, r[i].1 as int))
}

/// Each column's left edge and width; a left edge past the 128-bit range
/// is capped at its largest value.
pub open spec fn layout_spec(p: Seq<Option<u32>>, nw: Seq<u64>, total: int, gap: int, min_col: int) -> Seq<(int, int)> {
    let w = widths_spec(p, nw, total, gap, min_col);
    Seq::new(p.len(), |i: int| (imin(x_at(w, gap, i), u128max()), w[i]))
}

proof fn lemma_x_at_nonneg(widths: Seq<int>, gap: int, i: int)
    requires
        gap >= 0,
        forall|j: int| 0 <= j < widths.len() ==> widths[j] >= 0,
        i <= widths.len(),
    ensures
        x_at(widths, gap, i) >= 0,
    decreases i,
{
    if i > 0 {
        lemma_x_at_nonneg(widths, gap, i - 1);
    }
}

fn positions(widths: &Vec<u128>, gap: u64) -> (r: Vec<(u128, u128)>)
    ensures
        r@.len() == widths@.len(),
        pairs(r@) == Seq::new(widths@.len(), |i: int| (imin(x_at(ws(widths@), gap as int, i), u128max()), ws(widths@)[i])),
{
    let mut r: Vec<(u128, u128)> = Vec::new();
    let mut x: u128 = 0;
    let mut i: usize = 0;
    while i < widths.len()
        invariant
            i <= widths@.len(),
            r@.len() == i,
            x == imin(x_at(ws(widths@), gap as int, i as int), u128max()),
            forall|j: int| 0 <= j < i ==> (#[trigger] r@[j]).0 as int == imin(x_at(ws(widths@), gap as int, j), u128max()) && r@[j].1 == widths@[j],
        decreases widths@.len() - i,
    {
        proof {
            assert(ws(widths@)[i as int] == widths@[i as int]);
            lemma_x_at_nonneg(ws(widths@), gap as int, i as int);
            assert(x_at(ws(widths@), gap as int, i + 1) == x_at(ws(widths@), gap as int, i as int) + widths@[i as int] + gap);
        }
        r.push((x, widths[i]));
        let x1: u128 = if x > u128::MAX - widths[i] { u128::MAX } else { x + widths[i] };
        x = if x1 > u128::MAX - gap as u128 { u128::MAX } else { x1 + gap as u128 };
        i = i + 1;
    }
    assert(pairs(r@) == Seq::new(widths@.len(), |i: int| (imin(x_at(ws(widths@), gap as int, i), u128max()), ws(widths@)[i])));
    r
}

/// Column positions and widths, as `(x, width)` pairs, in the units of
/// the inputs. Explicit percentages take their share of the width left
/// after the gaps; auto columns share the rest by their natural widths
/// (see `widths_spec`); each column is at least `min_col` wide, and `gap`
/// separates neighbours. Every input is accepted; a position past the
/// 128-bit range is capped.
pub fn column_widths(
    width_pcts: &[Option<u32>],
    natural_widths: &[u64],
    total_width: u64,
    gap: u64,
    min_col: u64,
) -> (r: Vec<(u128, u128)>)
    ensures
        pairs(r@) == layout_spec(width_pcts@, natural_widths@, total_width as int, gap as int, min_col as int),
{
    let n = width_pcts.len();
    if n == 0 {
        return Vec::new();
    }
    let avail = available_exec(n, total_width, gap, min_col);
    let ep = effective_pcts(width_pcts);
    let mc: u128 = min_col as u128;
    let (mut widths, et) = explicit_widths(&ep, avail, mc);
    let ghost etrue = explicit_total(ep@, avail as int, mc as int);
    let remaining: u128 = if avail > et { avail - et } else { 0 };
    assert(remaining == imax(avail - etrue, 0));
    let a = auto_indices(&ep);
    let over = pct_total(width_pcts) > 100;
    assert(ws(widths@).len() == widths@.len());
    assert(widths@.len() == n);
    if a.len() > 0 {
        let ns = natural_sum(natural_widths, &a);
        if !over && ns > 0 {
            if ns <= remaining {
                set_clamped_exec(&mut widths, natural_widths, &a, mc);
                let cs = clamped_total(natural_widths, &a, mc);
                let leftover: u128 = if remaining > cs { remaining - cs } else { 0 };
                if equal_naturals(natural_widths, &a) {
                    widths = shift_exec(&widths, &a, leftover / a.len() as u128);
                } else {
                    let wi = widest_col(natural_widths, &a);
                    assert(widths@[wi as int] <= u64max());
                    let x: u128 = widths[wi] + leftover;
                    proof {
                        lemma_ws_update(widths@, wi as int, x);
                    }
                    widths.set(wi, x);
                }
            } else {
                water_fill_exec(&mut widths, natural_widths, &a, remaining, mc);
            }
        } else {
            let v: u128 = remaining / a.len() as u128;
            fill_exec(&mut widths, &a, if v >= mc { v } else { mc });
        }
    }
    positions(&widths, gap)
}

proof fn lemma_auto_idx(ep: Seq<Option<u32>>)
    ensures
        forall|k: int| 0 <= k < auto_idx(ep).len() ==> 0 <= #[trigger] auto_idx(ep)[k] < ep.len() && ep[auto_idx(ep)[k]] is None,
        forall|j: int| 0 <= j < ep.len() && ep[j] is None ==> auto_idx(ep).contains(j),
    decreases ep.len(),
{
    if ep.len() > 0 {
        let a0 = auto_idx(ep.drop_last());
        lemma_auto_idx(ep.drop_last());
        assert forall|k: int| 0 <= k < a0.len() implies ep[#[trigger] a0[k]] == ep.drop_last()[a0[k]] by {}
        assert forall|j: int| 0 <= j < ep.len() && ep[j] is None implies auto_idx(ep).contains(j) by {
            if j < ep.len() - 1 {
                assert(ep.drop_last()[j] == ep[j]);
                assert(a0.contains(j));
                let k = choose|k: int| 0 <= k < a0.len() && a0[k] == j;
                if ep.last() is None {
                    assert(auto_idx(ep)[k] == j);
                }
            } else {
                assert(auto_idx(ep).last() == j);
            }
        }
    }
}

proof fn lemma_set_clamped_min(w: Seq<int>, nw: Seq<u64>, idx: Seq<int>, mc: int)
    requires
        forall|k: int| 0 <= k < idx.len() ==> 0 <= #[trigger] idx[k] < w.len(),
    ensures
        set_clamped(w, nw, idx, mc).len() == w.len(),
        forall|i: int| 0 <= i < w.len() ==> (idx.contains(i) ==> #[trigger] set_clamped(w, nw, idx, mc)[i] >= mc)
            && (!idx.contains(i) ==> set_clamped(w, nw, idx, mc)[i] == w[i]),
    decreases idx.len(),
{
    if idx.len() > 0 {
        assert forall|k: int| 0 <= k < idx.drop_last().len() implies 0 <= #[trigger] idx.drop_last()[k] < w.len() by {
            assert(idx.drop_last()[k] == idx[k]);
        }
        lemma_set_clamped_min(w, nw, idx.drop_last(), mc);
        assert forall|i: int| 0 <= i < w.len() implies (idx.contains(i) ==> #[trigger] set_clamped(w, nw, idx, mc)[i] >= mc)
            && (!idx.contains(i) ==> set_clamped(w, nw, idx, mc)[i] == w[i]) by {
            if idx.contains(i) && i != idx.last() {
                let k = choose|k: int| 0 <= k < idx.len() && idx[k] == i;
                assert(idx.drop_last()[k] == i);
            }
            if !idx.contains(i) {
                assert(!idx.drop_last().contains(i)) by {
                    if idx.drop_last().contains(i) {
                        let k = choose|k: int| 0 <= k < idx.drop_last().len() && idx.drop_last()[k] == i;
                        assert(idx[k] == i);
                    }
                }
                assert(idx[idx.len() - 1] != i);
            }
        }
    }
}

proof fn lemma_fill_min(w: Seq<int>, idx: Seq<int>, v: int, mc: int)
    requires
        forall|k: int| 0 <= k < idx.len() ==> 0 <= #[trigger] idx[k] < w.len(),
        v >= mc,
    ensures
        fill_each(w, idx, v).len() == w.len(),
        forall|i: int| 0 <= i < w.len() ==> (idx.contains(i) ==> #[trigger] fill_each(w, idx, v)[i] >= mc)
            && (!idx.contains(i) ==> fill_each(w, idx, v)[i] == w[i]),
    decreases idx.len(),
{
    if idx.len() > 0 {
        assert forall|k: int| 0 <= k < idx.drop_last().len() implies 0 <= #[trigger] idx.drop_last()[k] < w.len() by {
            assert(idx.drop_last()[k] == idx[k]);
        }
        lemma_fill_min(w, idx.drop_last(), v, mc);
        assert forall|i: int| 0 <= i < w.len() implies (idx.contains(i) ==> #[trigger] fill_each(w, idx, v)[i] >= mc)
            && (!idx.contains(i) ==> fill_each(w, idx, v)[i] == w[i]) by {
            if idx.contains(i) && i != idx.last() {
                let k = choose|k: int| 0 <= k < idx.len() && idx[k] == i;
                assert(idx.drop_last()[k] == i);
            }
            if !idx.contains(i) {
                assert(!idx.drop_last().contains(i)) by {
                    if idx.drop_last().contains(i) {
                        let k = choose|k: int| 0 <= k < idx.drop_last().len() && idx.drop_last()[k] == i;
                        assert(idx[k] == i);
                    }
                }
                assert(idx[idx.len() - 1] != i);
            }
        }
    }
}

proof fn lemma_water_fill_min(w: Seq<int>, nw: Seq<u64>, idx: Seq<int>, budget: int, mc: int)
    requires
        forall|k: int| 0 <= k < idx.len() ==> 0 <= #[trigger] idx[k] < w.len(),
    ensures
        water_fill(w, nw, idx, budget, mc).len() == w.len(),
        forall|i: int| 0 <= i < w.len() ==> (idx.contains(i) ==> #[trigger] water_fill(w, nw, idx, budget, mc)[i] >= mc)
            && (!idx.contains(i) ==> water_fill(w, nw, idx, budget, mc)[i] == w[i]),
    decreases idx.len(),
{
    if idx.len() > 0 {
        let p = narrowest_pos(nw, idx);
        lemma_narrowest_in_range(nw, idx);
        let j = idx[p];
        let fair = fdiv(budget, idx.len() as int);
        let v = imax(imin(nat_at(nw, j), fair), mc);
        let w2 = w.update(j, v);
        let rest = idx.remove(p);
        assert forall|k: int| 0 <= k < rest.len() implies 0 <= #[trigger] rest[k] < w2.len() by {
            if k < p {
                assert(rest[k] == idx[k]);
            } else {
                assert(rest[k] == idx[k + 1]);
            }
        }
        lemma_water_fill_min(w2, nw, rest, budget - v, mc);
        assert forall|i: int| 0 <= i < w.len() implies (idx.contains(i) ==> #[trigger] water_fill(w, nw, idx, budget, mc)[i] >= mc)
            && (!idx.contains(i) ==> water_fill(w, nw, idx, budget, mc)[i] == w[i]) by {
            if idx.contains(i) && i != j {
                let k = choose|k: int| 0 <= k < idx.len() && idx[k] == i;
                if k < p {
                    assert(rest[k] == i);
                } else {
                    assert(rest[k - 1] == i);
                }
            }
            if !idx.contains(i) {
                assert(!rest.contains(i)) by {
                    if rest.contains(i) {
                        let k = choose|k: int| 0 <= k < rest.len() && rest[k] == i;
                        if k < p {
                            assert(idx[k] == i);
                        } else {
                            assert(idx[k + 1] == i);
                        }
                    }
                }
                assert(i != j);
            }
        }
    }
}

proof fn lemma_shift_min(base: Seq<int>, idx: Seq<int>, d: int, mc: int)
    requires
        forall|k: int| 0 <= k < idx.len() ==> 0 <= #[trigger] idx[k] < base.len(),
        d >= 0,
        forall|i: int| 0 <= i < base.len() ==> base[i] >= mc,
    ensures
        shift_each(base, idx, d).len() == base.len(),
        forall|i: int| 0 <= i < base.len() ==> #[trigger] shift_each(base, idx, d)[i] >= mc,
    decreases idx.len(),
{
    if idx.len() > 0 {
        assert forall|k: int| 0 <= k < idx.drop_last().len() implies 0 <= #[trigger] idx.drop_last()[k] < base.len() by {
            assert(idx.drop_last()[k] == idx[k]);
        }
        lemma_shift_min(base, idx.drop_last(), d, mc);
    }
}

proof fn lemma_widest_in(nw: Seq<u64>, idx: Seq<int>)
    requires
        idx.len() > 0,
    ensures
        idx.contains(widest(nw, idx)),
    decreases idx.len(),
{
    if idx.len() == 1 {
        assert(idx[0] == widest(nw, idx));
    } else {
        lemma_widest_in(nw, idx.drop_last());
        let w = widest(nw, idx.drop_last());
        let k = choose|k: int| 0 <= k < idx.drop_last().len() && idx.drop_last()[k] == w;
        assert(idx[k] == w);
        assert(idx[idx.len() - 1] == idx.last());
    }
}

/// Every column is at least `min_col` wide.
pub proof fn law_min_col(p: Seq<Option<u32>>, nw: Seq<u64>, total: int, gap: int, min_col: int)
    requires
        min_col >= 0,
    ensures
        widths_spec(p, nw, total, gap, min_col).len() == p.len(),
        forall|i: int| 0 <= i < p.len() ==> #[trigger] widths_spec(p, nw, total, gap, min_col)[i] >= min_col,
{
    let n = p.len() as int;
    let avail = available(n, total, gap, min_col);
    let ep = eff_pcts(p);
    let ew = Seq::new(p.len(), |i: int| explicit_width(ep[i], avail, min_col));
    let remaining = imax(avail - explicit_total(ep, avail, min_col), 0);
    let a = auto_idx(ep);
    let k = a.len() as int;
    lemma_auto_idx(ep);
    assert forall|i: int| 0 <= i < p.len() && !a.contains(i) implies ew[i] >= min_col by {}
    if k == 0 {
        assert(widths_spec(p, nw, total, gap, min_col) == ew);
        assert forall|i: int| 0 <= i < p.len() implies #[trigger] widths_spec(p, nw, total, gap, min_col)[i] >= min_col by {
            assert(!a.contains(i));
        }
    } else if pct_sum(p) <= 100 && nat_sum(nw, a) > 0 {
        if nat_sum(nw, a) <= remaining {
            let base = set_clamped(ew, nw, a, min_col);
            lemma_set_clamped_min(ew, nw, a, min_col);
            assert forall|i: int| 0 <= i < base.len() implies base[i] >= min_col by {
                assert(a.contains(i) ==> base[i] >= min_col);
            }
            let leftover = imax(remaining - clamped_sum(nw, a, min_col), 0);
            if all_equal(nw, a) {
                assert(leftover / k >= 0) by (nonlinear_arith)
                    requires
                        leftover >= 0,
                        k > 0,
                ;
                lemma_shift_min(base, a, leftover / k, min_col);
                assert(widths_spec(p, nw, total, gap, min_col) == shift_each(base, a, leftover / k));
                assert forall|i: int| 0 <= i < p.len() implies #[trigger] widths_spec(p, nw, total, gap, min_col)[i] >= min_col by {
                    assert(shift_each(base, a, leftover / k)[i] >= min_col);
                }
            } else {
                let wi = widest(nw, a);
                lemma_widest_in(nw, a);
                let kk = choose|kk: int| 0 <= kk < a.len() && a[kk] == wi;
                assert(0 <= wi < base.len());
                assert(widths_spec(p, nw, total, gap, min_col) == base.update(wi, base[wi] + leftover));
                assert forall|i: int| 0 <= i < p.len() implies #[trigger] widths_spec(p, nw, total, gap, min_col)[i] >= min_col by {
                    assert(base[i] >= min_col);
                }
            }
        } else {
            lemma_water_fill_min(ew, nw, a, remaining, min_col);
            assert forall|i: int| 0 <= i < p.len() implies #[trigger] widths_spec(p, nw, total, gap, min_col)[i] >= min_col by {
                assert(a.contains(i) ==> water_fill(ew, nw, a, remaining, min_col)[i] >= min_col);
            }
        }
    } else {
        lemma_fill_min(ew, a, imax(remaining / k, min_col), min_col);
        assert forall|i: int| 0 <= i < p.len() implies #[trigger] widths_spec(p, nw, total, gap, min_col)[i] >= min_col by {
            assert(a.contains(i) ==> fill_each(ew, a, imax(remaining / k, min_col))[i] >= min_col);
        }
    }
}

/// The columns are laid out left to right from 0, each starting where the
/// previous one ends plus the gap (capped at the largest 128-bit value),
/// and each at least `min_col` wide.
pub proof fn law_columns_gapped(p: Seq<Option<u32>>, nw: Seq<u64>, total: int, gap: int, min_col: int)
    requires
        gap >= 0,
        min_col >= 0,
    ensures
        layout_spec(p, nw, total, gap, min_col).len() == p.len(),
        p.len() > 0 ==> layout_spec(p, nw, total, gap, min_col)[0].0 == 0,
        forall|i: int| 0 <= i < p.len() - 1 ==> #[trigger] layout_spec(p, nw, total, gap, min_col)[i + 1].0
            == imin(layout_spec(p, nw, total, gap, min_col)[i].0 + layout_spec(p, nw, total, gap, min_col)[i].1 + gap, u128max()),
        forall|i: int| 0 <= i < p.len() ==> #[trigger] layout_spec(p, nw, total, gap, min_col)[i].1 >= min_col,
{
    let w = widths_spec(p, nw, total, gap, min_col);
    law_min_col(p, nw, total, gap, min_col);
    assert forall|i: int| 0 <= i < p.len() - 1 implies #[trigger] layout_spec(p, nw, total, gap, min_col)[i + 1].0
        == imin(layout_spec(p, nw, total, gap, min_col)[i].0 + layout_spec(p, nw, total, gap, min_col)[i].1 + gap, u128max()) by {
        assert(x_at(w, gap, i + 1) == x_at(w, gap, i) + w[i] + gap);
        assert(w[i] >= min_col);
    }
    assert forall|i: int| 0 <= i < p.len() implies #[trigger] layout_spec(p, nw, total, gap, min_col)[i].1 >= min_col by {
        assert(w[i] >= min_col);
    }
}

} // verus!
