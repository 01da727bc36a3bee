//! Pixel layout helpers for the image renderer.
use vstd::prelude::*;
use crate::ast::{Align, Decimal};
use vstd::string::StringExecFns;
use crate::resources::{printable_width, printable_width_spec, round_ratio_u32};

verus! {

/// The x-offset of content within a cell, in pixels: none for left, all
/// the spare width for right, half of it (rounded down) for center; no
/// spare width when the content is wider.
pub open spec fn px_align_offset_spec(cell_width: int, content_width: int, align: Align) -> int {
    let spare = if cell_width > content_width { cell_width - content_width } else { 0 };
    match align {
        Align::Left => 0,
        Align::Right => spare,
        Align::Center => spare / 2,
    }
}

/// The x-offset of content within a cell (see [`px_align_offset_spec`]).
pub fn align_offset(cell_width: u32, content_width: u32, align: Align) -> (r: u32)
    ensures
        r == px_align_offset_spec(cell_width as int, content_width as int, align),
{
    let spare = cell_width.saturating_sub(content_width);
    match align {
        Align::Left => 0,
        Align::Right => spare,
        Align::Center => spare / 2,
    }
}

/// Computed layout for a single column cell.
#[derive(Debug, Clone, Copy, PartialEq, Eq, Structural)]
pub struct CellLayout {
    pub x: u32,
    pub width: u32,
}

/// The layout of a row of columns: each cell's place and the row height.
#[derive(Debug, Clone)]
pub struct ColumnLayout {
    pub cells: Vec<CellLayout>,
    pub row_height: u32,
}

/// Errors that can occur during rendering.
#[derive(Debug, Clone, Copy, PartialEq, Eq, Structural)]
pub enum RenderError {
    /// No renderable content in the document.
    EmptyDocument,
}

impl RenderError {
    /// The message describing the error.
    pub fn message(&self) -> (s: String)
        ensures
            s@ == "no renderable content"@,
    {
        match self {
            RenderError::EmptyDocument => String::from_str("no renderable content"),
        }
    }
}

/// Millimeters to pixels at a DPI: `mm * dpi / 25.4`, rounded, capped at
/// `u32::MAX`.
pub open spec fn mm_to_px_spec(mm_milli: int, dpi: int) -> int {
    round_ratio_u32(mm_milli * dpi, 25400)
}

/// Convert millimeters to pixels at the given DPI (see [`mm_to_px_spec`]).
pub fn mm_to_px(mm: Decimal, dpi: u32) -> (r: u32)
    ensures
        r == mm_to_px_spec(mm.milli as int, dpi as int),
{
    proof {
        crate::resources::lemma_mul_u64_u32(mm.milli as int, dpi as int);
    }
    let num: u128 = mm.milli as u128 * dpi as u128;
    let q: u128 = (2 * num + 25400) / 50800;
    if q > u32::MAX as u128 { u32::MAX } else { q as u32 }
}

/// The printable width in pixels: the paper less a 4 mm margin on each
/// side (at least half the paper), at the DPI, at least 8.
pub fn printable_px(paper: Decimal, dpi: u32) -> (r: u32)
    ensures
        r == printable_width_spec(paper.milli as int, dpi as int),
{
    printable_width(paper, dpi)
}

/// A quantity in thousandths, rounded to the nearest whole (halves up),
/// capped at `u32::MAX`.
pub open spec fn round_milli(v: int) -> int {
    let q = (v + 500) / 1000;
    if q > u32::MAX { u32::MAX as int } else { q }
}

/// A quantity in thousandths, rounded up to a whole, capped at `u32::MAX`.
pub open spec fn ceil_milli(v: int) -> int {
    let q = (v + 999) / 1000;
    if q > u32::MAX { u32::MAX as int } else { q }
}

/// The pixel boxes of a row of columns laid out in thousandths of a
/// pixel: each left edge rounded, each width rounded up.
pub fn cell_layouts(cols: &[(u128, u128)]) -> (r: Vec<CellLayout>)
    ensures
        r@.len() == cols@.len(),
        forall|i: int| 0 <= i < cols@.len() ==> (#[trigger] r@[i]).x == round_milli(cols@[i].0 as int)
            && r@[i].width == ceil_milli(cols@[i].1 as int),
{
    let mut r: Vec<CellLayout> = Vec::new();
    let mut i: usize = 0;
    while i < cols.len()
        invariant
            i <= cols@.len(),
            r@.len() == i,
            forall|j: int| 0 <= j < i ==> (#[trigger] r@[j]).x == round_milli(cols@[j].0 as int)
                && r@[j].width == ceil_milli(cols@[j].1 as int),
        decreases cols@.len() - i,
    {
        let (x, w) = cols[i];
        let qx: u128 = x / 1000 + if x % 1000 >= 500 { 1 } else { 0 };
        let qw: u128 = w / 1000 + if w % 1000 > 0 { 1 } else { 0 };
        assert(qx == (x + 500) / 1000);
        assert(qw == (w + 999) / 1000);
        let cx: u32 = if qx > u32::MAX as u128 { u32::MAX } else { qx as u32 };
        let cw: u32 = if qw > u32::MAX as u128 { u32::MAX } else { qw as u32 };
        r.push(CellLayout { x: cx, width: cw });
        i = i + 1;
    }
    r
}

/// Content narrower than its cell is drawn at the left edge, flush right,
/// or centered (half the spare pixels, rounded down, before it); content
/// as wide as the cell or wider starts at the left edge.
pub proof fn law_px_align_offsets(cell_width: int, content_width: int)
    ensures
        px_align_offset_spec(cell_width, content_width, Align::Left) == 0,
        content_width < cell_width ==> px_align_offset_spec(cell_width, content_width, Align::Right) + content_width == cell_width,
        content_width < cell_width ==> {
            let o = px_align_offset_spec(cell_width, content_width, Align::Center);
            let after = cell_width - content_width - o;
            o == after || o + 1 == after
        },
        content_width >= cell_width ==> px_align_offset_spec(cell_width, content_width, Align::Right) == 0
            && px_align_offset_spec(cell_width, content_width, Align::Center) == 0,
{
}

} // verus!
