//! Decoded grayscale images and their cache byte format.
use vstd::prelude::*;

verus! {

/// A grayscale image: row-major luma8 pixels (0 black, 255 white).
#[derive(Debug, Clone)]
pub struct ImageData {
    pub width: u32,
    pub height: u32,
    pub pixels: Vec<u8>,
}

impl ImageData {
    /// Whether the pixel buffer holds exactly `width * height` pixels.
    pub open spec fn wf(&self) -> bool {
        self.pixels@.len() == self.width * self.height
    }
}

/// The four little-endian bytes of a 32-bit value.
pub open spec fn le32(v: u32) -> Seq<u8> {
    seq![(v % 256) as u8, ((v / 256) % 256) as u8, ((v / 65536) % 256) as u8, (v / 16777216) as u8]
}

/// The 32-bit value of four little-endian bytes.
pub open spec fn from_le32(b0: u8, b1: u8, b2: u8, b3: u8) -> u32 {
    (b0 + b1 * 256 + b2 * 65536 + b3 * 16777216) as u32
}

/// The cache encoding of an image: width and height as little-endian
/// 32-bit values, then the pixels.
pub open spec fn cache_bytes(width: u32, height: u32, pixels: Seq<u8>) -> Seq<u8> {
    le32(width) + le32(height) + pixels
}

/// The image a cache encoding stands for: at least 8 bytes, and exactly
/// `width * height` pixel bytes after the header.
pub open spec fn from_cache_spec(data: Seq<u8>) -> Option<(u32, u32, Seq<u8>)> {
    if data.len() < 8 {
        None
    } else {
        let w = from_le32(data[0], data[1], data[2], data[3]);
        let h = from_le32(data[4], data[5], data[6], data[7]);
        if data.len() - 8 == w * h {
            Some((w, h, data.skip(8)))
        } else {
            None
        }
    }
}

fn le32_bytes(v: u32) -> (r: [u8; 4])
    ensures
        r@ == le32(v),
{
    [(v % 256) as u8, ((v / 256) % 256) as u8, ((v / 65536) % 256) as u8, (v / 16777216) as u8]
}

proof fn lemma_le32_roundtrip(v: u32)
    ensures
        from_le32(le32(v)[0], le32(v)[1], le32(v)[2], le32(v)[3]) == v,
{
    let b0 = v % 256;
    let b1 = (v / 256) % 256;
    let b2 = (v / 65536) % 256;
    let b3 = v / 16777216;
    assert(b0 + b1 * 256 + b2 * 65536 + b3 * 16777216 == v) by (nonlinear_arith)
        requires b0 == v % 256, b1 == (v / 256) % 256, b2 == (v / 65536) % 256, b3 == v / 16777216;
}

fn push_slice(buf: &mut Vec<u8>, bytes: &[u8])
    ensures
        final(buf)@ == old(buf)@ + bytes@,
{
    crate::escpos_cmd::push_bytes(buf, bytes);
}

impl ImageData {
    /// Serialize to the cache format `[u32 LE width][u32 LE height][pixels]`.
    pub fn to_cache_bytes(&self) -> (buf: Vec<u8>)
        ensures
            buf@ == cache_bytes(self.width, self.height, self.pixels@),
    {
        let mut buf: Vec<u8> = Vec::new();
        let w = le32_bytes(self.width);
        let h = le32_bytes(self.height);
        push_slice(&mut buf, &w);
        push_slice(&mut buf, &h);
        push_slice(&mut buf, self.pixels.as_slice());
        buf
    }

    /// Deserialize from the cache format (see [`from_cache_spec`]).
    pub fn from_cache_bytes(data: &[u8]) -> (r: Option<ImageData>)
        ensures
            match (r, from_cache_spec(data@)) {
                (Some(img), Some((w, h, px))) => img.width == w && img.height == h && img.pixels@ == px,
                (None, None) => true,
                _ => false,
            },
    {
        if data.len() < 8 {
            return None;
        }
        let width: u32 = (data[0] as u32) + (data[1] as u32) * 256 + (data[2] as u32) * 65536 + (data[3] as u32)
            * 16777216;
        let height: u32 = (data[4] as u32) + (data[5] as u32) * 256 + (data[6] as u32) * 65536 + (data[7] as u32)
            * 16777216;
        proof {
            assert((width as int) * (height as int) <= u64::MAX) by (nonlinear_arith)
                requires width <= u32::MAX, height <= u32::MAX;
        }
        let expected: u64 = (width as u64) * (height as u64);
        if ((data.len() - 8) as u64) != expected {
            return None;
        }
        let mut px: Vec<u8> = Vec::new();
        let mut i: usize = 8;
        while i < data.len()
            invariant
                8 <= i <= data@.len(),
                px@ == data@.subrange(8, i as int),
            decreases data@.len() - i,
        {
            px.push(data[i]);
            i = i + 1;
            assert(px@ =~= data@.subrange(8, i as int));
        }
        assert(px@ =~= data@.skip(8));
        Some(ImageData { width, height, pixels: px })
    }
}

/// Decoding an encoded image gives the image back.
pub proof fn law_cache_roundtrip(width: u32, height: u32, pixels: Seq<u8>)
    requires
        pixels.len() == width * height,
    ensures
        from_cache_spec(cache_bytes(width, height, pixels)) == Some((width, height, pixels)),
{
    let d = cache_bytes(width, height, pixels);
    let lw = le32(width);
    let lh = le32(height);
    lemma_le32_roundtrip(width);
    lemma_le32_roundtrip(height);
    assert(d[0] == lw[0] && d[1] == lw[1] && d[2] == lw[2] && d[3] == lw[3]);
    assert(d[4] == lh[0] && d[5] == lh[1] && d[6] == lh[2] && d[7] == lh[3]);
    let w = from_le32(d[0], d[1], d[2], d[3]);
    let h = from_le32(d[4], d[5], d[6], d[7]);
    assert(w == width);
    assert(h == height);
    assert(d.len() - 8 == pixels.len());
    assert(d.skip(8) =~= pixels);
}

/// Every decodable byte string is the encoding of what it decodes to.
pub proof fn law_cache_canonical(data: Seq<u8>)
    requires
        from_cache_spec(data) is Some,
    ensures
        ({
            let (w, h, px) = from_cache_spec(data)->0;
            cache_bytes(w, h, px) == data
        }),
{
    let w = from_le32(data[0], data[1], data[2], data[3]);
    let h = from_le32(data[4], data[5], data[6], data[7]);
    lemma_le32_bytes(data[0], data[1], data[2], data[3]);
    lemma_le32_bytes(data[4], data[5], data[6], data[7]);
    assert(cache_bytes(w, h, data.skip(8)) =~= data);
}

proof fn lemma_le32_bytes(b0: u8, b1: u8, b2: u8, b3: u8)
    ensures
        le32(from_le32(b0, b1, b2, b3)) == seq![b0, b1, b2, b3],
{
    let v: int = b0 + b1 * 256 + b2 * 65536 + b3 * 16777216;
    assert(0 <= v <= u32::MAX) by (nonlinear_arith)
        requires 0 <= b0 < 256, 0 <= b1 < 256, 0 <= b2 < 256, 0 <= b3 < 256, v == b0 + b1 * 256 + b2 * 65536 + b3 * 16777216;
    assert(v % 256 == b0 && (v / 256) % 256 == b1 && (v / 65536) % 256 == b2 && v / 16777216 == b3) by (nonlinear_arith)
        requires 0 <= b0 < 256, 0 <= b1 < 256, 0 <= b2 < 256, 0 <= b3 < 256, v == b0 + b1 * 256 + b2 * 65536 + b3 * 16777216;
    assert(le32(from_le32(b0, b1, b2, b3)) =~= seq![b0, b1, b2, b3]);
}

} // verus!
