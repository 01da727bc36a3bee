//! The document model produced by the parser.
//!
//! A document is a flat list of [`Node`]s, one per source line. Every type
//! here has a spec-level model (its `view`) that the contracts speak of.
use vstd::prelude::*;

verus! {

/// A non-negative decimal number with three fractional digits, stored in
/// thousandths (`milli == 1500` is 1.5).
#[derive(Debug, Clone, Copy, PartialEq, Eq, Structural)]
pub struct Decimal {
    pub milli: u64,
}

impl Decimal {
    /// The number `milli / 1000`.
    pub fn from_milli(milli: u64) -> (d: Decimal)
        ensures
            d.milli == milli,
    {
        Decimal { milli }
    }
}

/// Size level for text and header content.
#[derive(Debug, Clone, Copy, PartialEq, Eq, Hash, Structural)]
pub enum Size {
    /// Default body text (no markers)
    Text,
    /// Medium body text (`++ text ++`)
    TextM,
    /// Large body text (`+++ text +++`)
    TextL,
    /// Small header (`## text ##`)
    Title,
    /// Medium header (`### text ###`)
    TitleM,
    /// Large header (`#### text ####`)
    TitleL,
}

/// Inline text style applied to a span.
#[derive(Debug, Clone, Copy, PartialEq, Eq, Structural)]
pub enum SpanStyle {
    Normal,
    /// `*bold*`
    Bold,
    /// `_underline_`
    Underline,
    /// `` `italic` ``
    Italic,
    /// `~strikethrough~`
    Strikethrough,
}

/// A contiguous run of text with a single style.
#[derive(Debug, Clone, PartialEq, Eq)]
pub struct Span {
    pub text: String,
    pub style: SpanStyle,
}

/// The model of a span: its characters and its style.
pub struct SpanModel {
    pub text: Seq<char>,
    pub style: SpanStyle,
}

impl View for Span {
    type V = SpanModel;

    open spec fn view(&self) -> SpanModel {
        SpanModel { text: self.text@, style: self.style }
    }
}

/// The models of a list of spans.
pub open spec fn spans_model(spans: Seq<Span>) -> Seq<SpanModel> {
    spans.map_values(|s: Span| s@)
}

/// Horizontal alignment within a pipe cell.
#[derive(Debug, Clone, Copy, PartialEq, Eq, Structural)]
pub enum Align {
    Left,
    Center,
    Right,
}

/// Divider line style.
#[derive(Debug, Clone, Copy, PartialEq, Eq, Structural)]
pub enum LineStyle {
    /// `---` thin line
    Thin,
    /// `===` thick line
    Thick,
    /// `...` dotted line
    Dotted,
}

/// Content of a single cell: styled text or an inline divider.
#[derive(Debug, Clone, PartialEq)]
pub enum CellContent {
    /// Inline text spans.
    Spans(Vec<Span>),
    /// Inline divider (`---`, `===`, `...` inside a pipe cell).
    Divider(LineStyle),
}

/// The model of a cell's content.
pub enum CellContentModel {
    Spans(Seq<SpanModel>),
    Divider(LineStyle),
}

impl View for CellContent {
    type V = CellContentModel;

    open spec fn view(&self) -> CellContentModel {
        match self {
            CellContent::Spans(spans) => CellContentModel::Spans(spans_model(spans@)),
            CellContent::Divider(style) => CellContentModel::Divider(*style),
        }
    }
}

/// A single cell in a columnar layout.
#[derive(Debug, Clone, PartialEq)]
pub struct Cell {
    pub content: CellContent,
    pub align: Align,
    /// Explicit column width as a percentage (1–100). `None` means auto.
    pub width_pct: Option<u32>,
}

/// The model of a cell.
pub struct CellModel {
    pub content: CellContentModel,
    pub align: Align,
    pub width_pct: Option<u32>,
}

impl View for Cell {
    type V = CellModel;

    open spec fn view(&self) -> CellModel {
        CellModel { content: self.content@, align: self.align, width_pct: self.width_pct }
    }
}

/// The models of a list of cells.
pub open spec fn cells_model(cells: Seq<Cell>) -> Seq<CellModel> {
    cells.map_values(|c: Cell| c@)
}

/// Unit for `@feed` distance.
#[derive(Debug, Clone, Copy, PartialEq, Eq, Structural)]
pub enum FeedUnit {
    /// Multiple of the line height.
    Lines,
    /// Absolute distance in millimeters.
    Mm,
}

/// A single parsed node in the document.
#[derive(Debug, Clone, PartialEq)]
pub enum Node {
    /// Plain or styled text line.
    Text { spans: Vec<Span>, size: Size },
    /// Pipe-delimited columnar layout.
    Columns { cells: Vec<Cell>, size: Size },
    /// Horizontal divider line.
    Line { style: LineStyle },
    /// Empty line (line feed).
    Blank,
    /// `@printer-width(80mm)`, stored in millimeters.
    PrinterWidth { mm: Decimal },
    /// `@printer-dpi(203)`.
    PrinterDpi { dpi: u32 },
    /// `@printer-threshold(128)`, the black/white cutoff.
    PrinterThreshold { threshold: u8 },
    /// `@style(level, font, points)`; a `-bold` level suffix sets `bold`.
    Style { level: Size, font: String, points: Decimal, bold: bool },
    /// `@image(url, width?, height?)` (dithered) or `@logo(...)` (thresholded).
    Image { url: String, width: Option<Decimal>, height: Option<Decimal>, align: Option<Align>, dither: bool },
    /// `@qr(data, size?)`.
    Qr { data: String, size: Option<Decimal>, align: Option<Align> },
    /// `@barcode(format, data)`.
    Barcode { format: String, data: String },
    /// `@cut()` or `@cut(partial)`.
    Cut { partial: bool },
    /// `@feed(n)`: vertical space, in lines or millimeters.
    Feed { amount: Decimal, unit: FeedUnit },
    /// `@drawer()`: open the cash drawer.
    Drawer,
}

/// The model of a node: text fields become character sequences.
pub enum NodeModel {
    Text { spans: Seq<SpanModel>, size: Size },
    Columns { cells: Seq<CellModel>, size: Size },
    Line { style: LineStyle },
    Blank,
    PrinterWidth { mm: Decimal },
    PrinterDpi { dpi: u32 },
    PrinterThreshold { threshold: u8 },
    Style { level: Size, font: Seq<char>, points: Decimal, bold: bool },
    Image { url: Seq<char>, width: Option<Decimal>, height: Option<Decimal>, align: Option<Align>, dither: bool },
    Qr { data: Seq<char>, size: Option<Decimal>, align: Option<Align> },
    Barcode { format: Seq<char>, data: Seq<char> },
    Cut { partial: bool },
    Feed { amount: Decimal, unit: FeedUnit },
    Drawer,
}

impl View for Node {
    type V = NodeModel;

    open spec fn view(&self) -> NodeModel {
        match self {
            Node::Text { spans, size } => NodeModel::Text { spans: spans_model(spans@), size: *size },
            Node::Columns { cells, size } => NodeModel::Columns { cells: cells_model(cells@), size: *size },
            Node::Line { style } => NodeModel::Line { style: *style },
            Node::Blank => NodeModel::Blank,
            Node::PrinterWidth { mm } => NodeModel::PrinterWidth { mm: *mm },
            Node::PrinterDpi { dpi } => NodeModel::PrinterDpi { dpi: *dpi },
            Node::PrinterThreshold { threshold } => NodeModel::PrinterThreshold { threshold: *threshold },
            Node::Style { level, font, points, bold } => NodeModel::Style {
                level: *level,
                font: font@,
                points: *points,
                bold: *bold,
            },
            Node::Image { url, width, height, align, dither } => NodeModel::Image {
                url: url@,
                width: *width,
                height: *height,
                align: *align,
                dither: *dither,
            },
            Node::Qr { data, size, align } => NodeModel::Qr { data: data@, size: *size, align: *align },
            Node::Barcode { format, data } => NodeModel::Barcode { format: format@, data: data@ },
            Node::Cut { partial } => NodeModel::Cut { partial: *partial },
            Node::Feed { amount, unit } => NodeModel::Feed { amount: *amount, unit: *unit },
            Node::Drawer => NodeModel::Drawer,
        }
    }
}

/// The models of a list of nodes.
pub open spec fn nodes_model(nodes: Seq<Node>) -> Seq<NodeModel> {
    nodes.map_values(|n: Node| n@)
}

} // verus!
