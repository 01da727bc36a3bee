//! 1-bit raster packing and nearest-neighbor scaling of grayscale pixels.
use vstd::prelude::*;

verus! {

/// 1 when the pixel at column `x` of row `y` exists and is darker than the
/// threshold, else 0.
pub open spec fn black_bit(pixels: Seq<u8>, w: int, y: int, x: int, thr: u8) -> int {
    if x < w && pixels[y * w + x] < thr {
        1
    } else {
        0
    }
}

/// The packed byte `b` of row `y`: eight pixels, most significant bit
/// leftmost, a set bit for a black pixel, zero bits past the row's end.
pub open spec fn packed_byte(pixels: Seq<u8>, w: int, y: int, b: int, thr: u8) -> int {
    128 * black_bit(pixels, w, y, 8 * b, thr) + 64 * black_bit(pixels, w, y, 8 * b + 1, thr) + 32
        * black_bit(pixels, w, y, 8 * b + 2, thr) + 16 * black_bit(pixels, w, y, 8 * b + 3, thr) + 8
        * black_bit(pixels, w, y, 8 * b + 4, thr) + 4 * black_bit(pixels, w, y, 8 * b + 5, thr) + 2
        * black_bit(pixels, w, y, 8 * b + 6, thr) + black_bit(pixels, w, y, 8 * b + 7, thr)
}

/// Whether `out` holds the packed rows of a `w` by `h` image: `ceil(w/8)`
/// bytes per row.
pub open spec fn is_packed(out: Seq<u8>, pixels: Seq<u8>, w: int, h: int, thr: u8) -> bool {
    let rb = (w + 7) / 8;
    &&& out.len() == rb * h
    &&& forall|y: int, b: int|
        0 <= y < h && 0 <= b < rb ==> #[trigger] out[y * rb + b] == packed_byte(pixels, w, y, b, thr)
}

proof fn lemma_row_index(y: int, w: int, x: int, h: int)
    requires
        0 <= y < h,
        0 <= x < w,
    ensures
        0 <= y * w + x < h * w,
        y * w + x < (y + 1) * w,
{
    assert(y * w + x < (y + 1) * w) by (nonlinear_arith) requires x < w;
    assert((y + 1) * w <= h * w) by (nonlinear_arith) requires y + 1 <= h, 0 <= w;
    assert(0 <= y * w) by (nonlinear_arith) requires 0 <= y, 0 <= w;
}

fn bit(pixels: &[u8], w: u64, y: u64, x: u64, thr: u8, weight: u8) -> (r: u8)
    requires
        x < w ==> y * w + x < pixels@.len(),
        weight <= 128,
    ensures
        r == weight * black_bit(pixels@, w as int, y as int, x as int, thr),
{
    let n = pixels.len();
    if x < w {
        proof {
            assert(0 <= y * w) by (nonlinear_arith);
            assert(n <= usize::MAX);
        }
        let idx = y * w + x;
        if pixels[idx as usize] < thr {
            return weight;
        }
    }
    0
}

/// Pack `h` rows of `w` pixels into 1-bit rows (see [`is_packed`]).
pub fn pack_rows(pixels: &[u8], w: u64, h: u64, thr: u8) -> (out: Vec<u8>)
    requires
        w * h <= pixels@.len(),
        w <= u32::MAX,
    ensures
        is_packed(out@, pixels@, w as int, h as int, thr),
{
    let rb = (w + 7) / 8;
    proof {
        assert(rb * h <= w * h || w == 0) by (nonlinear_arith) requires rb == (w + 7) / 8;
        if w == 0 {
            assert(rb == 0);
            assert(rb * h == 0) by (nonlinear_arith) requires rb == 0;
        }
    }
    let mut out: Vec<u8> = Vec::new();
    let mut y: u64 = 0;
    while y < h
        invariant
            y <= h,
            w <= u32::MAX,
            rb == (w + 7) / 8,
            w * h <= pixels@.len(),
            rb * h <= pixels@.len(),
            out@.len() == rb * y,
            forall|yy: int, b: int|
                0 <= yy < y && 0 <= b < rb ==> #[trigger] out@[yy * rb + b] == packed_byte(
                    pixels@,
                    w as int,
                    yy,
                    b,
                    thr,
                ),
        decreases h - y,
    {
        let mut b: u64 = 0;
        while b < rb
            invariant
                y < h,
                w <= u32::MAX,
                b <= rb,
                rb == (w + 7) / 8,
                w * h <= pixels@.len(),
                rb * h <= pixels@.len(),
                out@.len() == rb * y + b,
                forall|yy: int, bb: int|
                    0 <= yy < y && 0 <= bb < rb ==> #[trigger] out@[yy * rb + bb] == packed_byte(
                        pixels@,
                        w as int,
                        yy,
                        bb,
                        thr,
                    ),
                forall|bb: int| 0 <= bb < b ==> #[trigger] out@[y * rb + bb] == packed_byte(pixels@, w as int, y as int, bb, thr),
            decreases rb - b,
        {
            let x = 8 * b;
            proof {
                if x + 0 < w { lemma_row_index(y as int, w as int, x + 0, h as int); }
                if x + 1 < w { lemma_row_index(y as int, w as int, x + 1, h as int); }
                if x + 2 < w { lemma_row_index(y as int, w as int, x + 2, h as int); }
                if x + 3 < w { lemma_row_index(y as int, w as int, x + 3, h as int); }
                if x + 4 < w { lemma_row_index(y as int, w as int, x + 4, h as int); }
                if x + 5 < w { lemma_row_index(y as int, w as int, x + 5, h as int); }
                if x + 6 < w { lemma_row_index(y as int, w as int, x + 6, h as int); }
                if x + 7 < w { lemma_row_index(y as int, w as int, x + 7, h as int); }
                assert(rb * y + b < rb * h) by (nonlinear_arith) requires b < rb, y < h;
            }
            let v: u8 = bit(pixels, w, y, x, thr, 128) + bit(pixels, w, y, x + 1, thr, 64) + bit(pixels, w, y, x + 2, thr, 32)
                + bit(pixels, w, y, x + 3, thr, 16) + bit(pixels, w, y, x + 4, thr, 8) + bit(pixels, w, y, x + 5, thr, 4)
                + bit(pixels, w, y, x + 6, thr, 2) + bit(pixels, w, y, x + 7, thr, 1);
            let ghost before = out@;
            out.push(v);
            proof {
                assert(y * rb + b == rb * y + b) by (nonlinear_arith);
                assert forall|yy: int, bb: int| 0 <= yy < y && 0 <= bb < rb implies #[trigger] out@[yy * rb + bb] == packed_byte(pixels@, w as int, yy, bb, thr) by {
                    assert(yy * rb + bb < rb * y) by (nonlinear_arith) requires yy < y, bb < rb;
                    assert(out@[yy * rb + bb] == before[yy * rb + bb]);
                }
                assert forall|bb: int| 0 <= bb < b + 1 implies #[trigger] out@[y * rb + bb] == packed_byte(pixels@, w as int, y as int, bb, thr) by {
                    assert(y * rb + bb == rb * y + bb) by (nonlinear_arith);
                    if bb < b {
                        assert(out@[y * rb + bb] == before[y * rb + bb]);
                    }
                }
            }
            b = b + 1;
        }
        proof {
            assert(rb * y + rb == rb * (y + 1)) by (nonlinear_arith);
        }
        y = y + 1;
    }
    out
}

/// Pack a grayscale buffer into 1-bit raster rows with the default
/// threshold 128: `ceil(width/8)` bytes per row, MSB leftmost, set bits for
/// pixels below 128, one row per whole `width` pixels.
pub fn encode_raster(width: u32, pixels: &[u8]) -> (out: Vec<u8>)
    requires
        width > 0,
    ensures
        is_packed(out@, pixels@, width as int, (pixels@.len() as int) / (width as int), 128),
{
    encode_raster_threshold(width, pixels, 128)
}

/// Pack a grayscale buffer into 1-bit raster rows with the given threshold.
pub fn encode_raster_threshold(width: u32, pixels: &[u8], threshold: u8) -> (out: Vec<u8>)
    requires
        width > 0,
    ensures
        is_packed(out@, pixels@, width as int, (pixels@.len() as int) / (width as int), threshold),
{
    let w = width as u64;
    let h = (pixels.len() as u64) / w;
    proof {
        assert(w * h <= pixels@.len()) by (nonlinear_arith) requires w > 0, h == (pixels@.len() as int) / (w as int);
    }
    pack_rows(pixels, w, h, threshold)
}

/// The row width of a raster image rounded up to a multiple of 8.
pub open spec fn padded_width(width: u32) -> int {
    ((width + 7) / 8) * 8
}

/// Threshold a `width` by `height` grayscale buffer to 1-bit and pack it;
/// returns the padded width, the height and the packed rows.
pub fn to_raster(pixels: &[u8], width: u32, height: u32, threshold: u8) -> (r: (u32, u32, Vec<u8>))
    requires
        width <= u32::MAX - 7,
        (width as int) * (height as int) <= pixels@.len(),
    ensures
        r.0 == padded_width(width),
        r.1 == height,
        is_packed(r.2@, pixels@, width as int, height as int, threshold),
{
    let padded = ((width + 7) / 8) * 8;
    proof {
        assert((width as int) * (height as int) <= u64::MAX) by (nonlinear_arith)
            requires width <= u32::MAX, height <= u32::MAX;
    }
    let data = pack_rows(pixels, width as u64, height as u64, threshold);
    (padded, height, data)
}

/// The nearest-neighbor source index for destination coordinate `d` of
/// `dst` when scaling from `src`: `d * src / dst`.
pub open spec fn nn_src(d: int, src: int, dst: int) -> int {
    d * src / dst
}

/// Whether `out` is `src` (a `src_w` by `src_h` image) scaled to `dst_w`
/// by `dst_h` by nearest-neighbor sampling.
pub open spec fn is_scaled_nn(out: Seq<u8>, src: Seq<u8>, src_w: int, src_h: int, dst_w: int, dst_h: int) -> bool {
    &&& out.len() == dst_w * dst_h
    &&& forall|dx: int, dy: int|
        0 <= dx < dst_w && 0 <= dy < dst_h ==> #[trigger] out[dy * dst_w + dx] == src[nn_src(dy, src_h, dst_h) * src_w
            + nn_src(dx, src_w, dst_w)]
}

pub(crate) proof fn lemma_nn_bound(d: int, src: int, dst: int)
    requires
        0 <= d < dst,
        0 < src,
    ensures
        0 <= nn_src(d, src, dst) < src,
{
    assert(0 <= d * src) by (nonlinear_arith) requires 0 <= d, 0 < src;
    assert(d * src < dst * src) by (nonlinear_arith) requires d < dst, 0 < src;
    assert(d * src / dst < src) by (nonlinear_arith) requires d * src < dst * src, 0 < dst, 0 <= d * src;
    assert(d * src / dst >= 0) by (nonlinear_arith) requires d * src >= 0, dst > 0;
}

/// Nearest-neighbor scale a grayscale pixel buffer (see [`is_scaled_nn`]).
pub fn scale_nn(src: &[u8], src_w: u32, src_h: u32, dst_w: u32, dst_h: u32) -> (out: Vec<u8>)
    requires
        (src_w as int) * (src_h as int) <= src@.len(),
        (dst_w as int) * (dst_h as int) <= u32::MAX,
        (dst_w as int) * (dst_h as int) > 0 ==> src_w > 0 && src_h > 0,
    ensures
        is_scaled_nn(out@, src@, src_w as int, src_h as int, dst_w as int, dst_h as int),
{
    let mut out: Vec<u8> = Vec::new();
    let mut dy: u32 = 0;
    while dy < dst_h
        invariant
            dy <= dst_h,
            (src_w as int) * (src_h as int) <= src@.len(),
            (dst_w as int) * (dst_h as int) <= u32::MAX,
            (dst_w as int) * (dst_h as int) > 0 ==> src_w > 0 && src_h > 0,
            out@.len() == dst_w * dy,
            forall|dx: int, yy: int|
                0 <= dx < dst_w && 0 <= yy < dy ==> #[trigger] out@[yy * dst_w + dx] == src@[nn_src(yy, src_h as int, dst_h as int) * src_w
                    + nn_src(dx, src_w as int, dst_w as int)],
        decreases dst_h - dy,
    {
        proof {
            assert((dy as int) * (src_h as int) <= u64::MAX) by (nonlinear_arith)
                requires dy <= u32::MAX, src_h <= u32::MAX;
            assert(0 <= (dy as int) * (src_h as int) / (dst_h as int) <= (dy as int) * (src_h as int)) by (nonlinear_arith)
                requires dy >= 0, src_h >= 0, dst_h > 0;
        }
        let sy: u64 = (dy as u64) * (src_h as u64) / (dst_h as u64);
        let mut dx: u32 = 0;
        while dx < dst_w
            invariant
                dy < dst_h,
                dx <= dst_w,
                (src_w as int) * (src_h as int) <= src@.len(),
                (dst_w as int) * (dst_h as int) <= u32::MAX,
                (dst_w as int) * (dst_h as int) > 0 ==> src_w > 0 && src_h > 0,
                sy == nn_src(dy as int, src_h as int, dst_h as int),
                out@.len() == dst_w * dy + dx,
                forall|xx: int, yy: int|
                    0 <= xx < dst_w && 0 <= yy < dy ==> #[trigger] out@[yy * dst_w + xx] == src@[nn_src(yy, src_h as int, dst_h as int) * src_w
                        + nn_src(xx, src_w as int, dst_w as int)],
                forall|xx: int| 0 <= xx < dx ==> #[trigger] out@[dy * dst_w + xx] == src@[nn_src(dy as int, src_h as int, dst_h as int) * src_w
                    + nn_src(xx, src_w as int, dst_w as int)],
            decreases dst_w - dx,
        {
            proof {
                assert((dst_w as int) * (dst_h as int) > 0) by (nonlinear_arith) requires dx < dst_w, dy < dst_h;
                lemma_nn_bound(dy as int, src_h as int, dst_h as int);
                lemma_nn_bound(dx as int, src_w as int, dst_w as int);
            }
            proof {
                assert((dx as int) * (src_w as int) <= u64::MAX) by (nonlinear_arith)
                    requires dx <= u32::MAX, src_w <= u32::MAX;
            }
            let sx: u64 = (dx as u64) * (src_w as u64) / (dst_w as u64);
            proof {
                lemma_row_index(sy as int, src_w as int, sx as int, src_h as int);
            }
            let n = src.len();
            proof {
                assert(n <= usize::MAX);
                assert(0 <= sy * src_w) by (nonlinear_arith);
                assert((sy as int) * (src_w as int) + sx < (src_h as int) * (src_w as int));
                assert((src_h as int) * (src_w as int) == (src_w as int) * (src_h as int)) by (nonlinear_arith);
                assert((sy as int) * (src_w as int) + sx < n);
            }
            let idx: u64 = sy * (src_w as u64) + sx;
            let v = src[idx as usize];
            let ghost before = out@;
            out.push(v);
            proof {
                assert(dy * dst_w + dx == dst_w * dy + dx) by (nonlinear_arith);
                assert forall|xx: int, yy: int| 0 <= xx < dst_w && 0 <= yy < dy implies #[trigger] out@[yy * dst_w + xx] == src@[nn_src(yy, src_h as int, dst_h as int) * src_w + nn_src(xx, src_w as int, dst_w as int)] by {
                    assert(yy * dst_w + xx < dst_w * dy) by (nonlinear_arith) requires yy < dy, xx < dst_w;
                    assert(out@[yy * dst_w + xx] == before[yy * dst_w + xx]);
                }
                assert forall|xx: int| 0 <= xx < dx + 1 implies #[trigger] out@[dy * dst_w + xx] == src@[nn_src(dy as int, src_h as int, dst_h as int) * src_w + nn_src(xx, src_w as int, dst_w as int)] by {
                    assert(dy * dst_w + xx == dst_w * dy + xx) by (nonlinear_arith);
                    if xx < dx {
                        assert(out@[dy * dst_w + xx] == before[dy * dst_w + xx]);
                    }
                }
            }
            dx = dx + 1;
        }
        proof {
            assert(dst_w * dy + dst_w == dst_w * (dy + 1)) by (nonlinear_arith);
        }
        dy = dy + 1;
    }
    out
}

proof fn lemma_byte_bits(v: u8, b0: u8, b1: u8, b2: u8, b3: u8, b4: u8, b5: u8, b6: u8, b7: u8)
    by (bit_vector)
    requires
        b0 <= 1 && b1 <= 1 && b2 <= 1 && b3 <= 1 && b4 <= 1 && b5 <= 1 && b6 <= 1 && b7 <= 1,
        v == 128 * b0 + 64 * b1 + 32 * b2 + 16 * b3 + 8 * b4 + 4 * b5 + 2 * b6 + b7,
    ensures
        (v >> 7u8) & 1u8 == b0,
        (v >> 6u8) & 1u8 == b1,
        (v >> 5u8) & 1u8 == b2,
        (v >> 4u8) & 1u8 == b3,
        (v >> 3u8) & 1u8 == b4,
        (v >> 2u8) & 1u8 == b5,
        (v >> 1u8) & 1u8 == b6,
        (v >> 0u8) & 1u8 == b7,
{
}

/// Bit `7 - x % 8` of byte `x / 8` of row `y` of packed rows `rb` bytes wide.
pub open spec fn packed_bit(out: Seq<u8>, rb: int, y: int, x: int) -> u8 {
    (out[y * rb + x / 8] >> ((7 - x % 8) as u8)) & 1u8
}

/// In packed rows, the bit of each pixel position (most significant bit
/// leftmost) is 1 exactly for a pixel of the row darker than the
/// threshold; the padding bits past the row's end are 0.
pub proof fn law_raster_bits(out: Seq<u8>, pixels: Seq<u8>, w: int, h: int, thr: u8)
    requires
        w > 0,
        is_packed(out, pixels, w, h, thr),
    ensures
        forall|y: int, x: int| 0 <= y < h && 0 <= x < (w + 7) / 8 * 8 ==> #[trigger] packed_bit(out, (w + 7) / 8, y, x)
            == black_bit(pixels, w, y, x, thr),
{
    let rb = (w + 7) / 8;
    assert forall|y: int, x: int| 0 <= y < h && 0 <= x < rb * 8 implies #[trigger] packed_bit(out, rb, y, x)
        == black_bit(pixels, w, y, x, thr) by {
        let b = x / 8;
        let j = x % 8;
        assert(x == 8 * b + j && 0 <= j < 8 && 0 <= b < rb) by (nonlinear_arith)
            requires
                0 <= x < rb * 8,
                b == x / 8,
                j == x % 8,
        ;
        let v = out[y * rb + b];
        assert(v as int == packed_byte(pixels, w, y, b, thr));
        let c0 = black_bit(pixels, w, y, 8 * b, thr) as u8;
        let c1 = black_bit(pixels, w, y, 8 * b + 1, thr) as u8;
        let c2 = black_bit(pixels, w, y, 8 * b + 2, thr) as u8;
        let c3 = black_bit(pixels, w, y, 8 * b + 3, thr) as u8;
        let c4 = black_bit(pixels, w, y, 8 * b + 4, thr) as u8;
        let c5 = black_bit(pixels, w, y, 8 * b + 5, thr) as u8;
        let c6 = black_bit(pixels, w, y, 8 * b + 6, thr) as u8;
        let c7 = black_bit(pixels, w, y, 8 * b + 7, thr) as u8;
        lemma_byte_bits(v, c0, c1, c2, c3, c4, c5, c6, c7);
    }
}

} // verus!
