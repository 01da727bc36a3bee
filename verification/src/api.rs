//! Whole-document helpers shared by the render entry points.
use vstd::prelude::*;
use crate::ast::{Node, NodeModel, nodes_model};
use crate::escpos_cmd::{push_bytes, raster_header};
use crate::raster::{encode_raster_threshold, padded_width};
use crate::escpos::packed_seq;
use crate::resources::BLACK_THRESHOLD;

verus! {

/// The threshold of the first `@printer-threshold`, else 128.
pub open spec fn first_threshold(ns: Seq<NodeModel>) -> u8
    decreases ns.len(),
{
    if ns.len() == 0 {
        BLACK_THRESHOLD
    } else {
        match ns[0] {
            NodeModel::PrinterThreshold { threshold } => threshold,
            _ => first_threshold(ns.drop_first()),
        }
    }
}

/// The black/white threshold of a document: that of its first
/// `@printer-threshold`, else 128.
pub fn collect_threshold(nodes: &[Node]) -> (t: u8)
    ensures
        t == first_threshold(nodes_model(nodes@)),
{
    let ghost ns = nodes_model(nodes@);
    let mut i: usize = 0;
    assert(ns.skip(0) == ns);
    while i < nodes.len()
        invariant
            ns == nodes_model(nodes@),
            i <= nodes@.len(),
            first_threshold(ns) == first_threshold(ns.skip(i as int)),
        decreases nodes@.len() - i,
    {
        assert(ns.skip(i as int)[0] == nodes@[i as int]@);
        assert(ns.skip(i as int).drop_first() == ns.skip(i + 1));
        match &nodes[i] {
            Node::PrinterThreshold { threshold } => {
                return *threshold;
            },
            _ => {},
        }
        i = i + 1;
    }
    assert(ns.skip(i as int).len() == 0);
    BLACK_THRESHOLD
}

/// The ESC/POS job printing a rendered image as one raster: initialize,
/// the `GS v 0` raster of the packed rows, then feed 4 lines.
pub fn raster_job(width: u32, height: u32, pixels: &[u8], threshold: u8) -> (buf: Vec<u8>)
    requires
        0 < width <= u32::MAX - 7,
    ensures
        buf@ == seq![0x1Bu8, 0x40u8] + raster_header(padded_width(width) as u32, height) + packed_seq(
            pixels@,
            width as int,
            (pixels@.len() as int) / (width as int),
            threshold,
        ) + seq![0x1Bu8, 0x64u8, 4u8],
{
    let packed = encode_raster_threshold(width, pixels, threshold);
    proof {
        crate::escpos::lemma_packed_unique(packed@, pixels@, width as int, (pixels@.len() as int) / (width as int), threshold);
    }
    let padded: u32 = ((width + 7) / 8) * 8;
    assert(padded == padded_width(width));
    let mut buf: Vec<u8> = Vec::new();
    push_bytes(&mut buf, &[0x1B, 0x40]);
    crate::escpos_cmd::raster_image(&mut buf, padded, height, packed.as_slice());
    push_bytes(&mut buf, &[0x1B, 0x64, 4]);
    buf
}

} // verus!
