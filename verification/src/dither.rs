//! Floyd–Steinberg error-diffusion dithering of grayscale pixels.
use vstd::prelude::*;
use vstd::arithmetic::div_mod::lemma_fundamental_div_mod_converse;
use vstd::slice::SliceAdditionalExecFns;

verus! {

/// Integer division rounding toward zero.
pub open spec fn tdiv(v: int, d: int) -> int {
    if v >= 0 {
        v / d
    } else {
        -((-v) / d)
    }
}

/// The black/white level a value is quantized to: 0 below 128, else 255.
pub open spec fn quantize(v: int) -> int {
    if v < 128 {
        0
    } else {
        255
    }
}

/// The work buffer after diffusing the pixel at linear index `k`
/// (column `k % w`, row `k / w`): it is quantized and its error goes
/// 7/16 right, 3/16 down-left, 5/16 down and 1/16 down-right, each share
/// rounded toward zero.
pub open spec fn fs_step(b: Seq<int>, w: int, h: int, k: int) -> Seq<int> {
    let x = k % w;
    let y = k / w;
    let err = b[k] - quantize(b[k]);
    let b1 = b.update(k, quantize(b[k]));
    let b2 = if x + 1 < w { b1.update(k + 1, b1[k + 1] + tdiv(err * 7, 16)) } else { b1 };
    let b3 = if y + 1 < h && x > 0 { b2.update(k + w - 1, b2[k + w - 1] + tdiv(err * 3, 16)) } else { b2 };
    let b4 = if y + 1 < h { b3.update(k + w, b3[k + w] + tdiv(err * 5, 16)) } else { b3 };
    if y + 1 < h && x + 1 < w {
        b4.update(k + w + 1, b4[k + w + 1] + tdiv(err, 16))
    } else {
        b4
    }
}

/// The work buffer after diffusing the first `k` pixels in row-major order.
pub open spec fn fs_run(p: Seq<u8>, w: int, h: int, k: int) -> Seq<int>
    decreases k,
{
    if k <= 0 {
        p.map_values(|v: u8| v as int)
    } else {
        fs_step(fs_run(p, w, h, k - 1), w, h, k - 1)
    }
}

/// A value clamped to 0..=255.
pub open spec fn clamp_byte(v: int) -> u8 {
    if v < 0 {
        0
    } else if v > 255 {
        255
    } else {
        v as u8
    }
}

/// The dithered image: every pixel diffused in row-major order, clamped.
pub open spec fn dithered(p: Seq<u8>, w: int, h: int) -> Seq<u8> {
    fs_run(p, w, h, w * h).map_values(|v: int| clamp_byte(v))
}

/// The value at column `x` of row `y`.
pub open spec fn at(b: Seq<int>, w: int, x: int, y: int) -> int {
    b[y * w + x]
}

/// The largest share of error (in sixteenths) the pixel at (`x`, `y`) can
/// have received when the pixel at (`cx`, `cy`) is next to be diffused.
pub open spec fn recv(x: int, y: int, cx: int, cy: int) -> int {
    if y == cy {
        if x == cx { 16 } else { 9 }
    } else if y == cy + 1 {
        (if x + 1 < cx { 3int } else { 0 }) + (if x < cx { 5int } else { 0 }) + (if x <= cx { 1int } else { 0 })
    } else {
        0
    }
}

/// The magnitude of an integer.
pub open spec fn abs(v: int) -> int {
    if v < 0 { -v } else { v }
}

/// Pixels not yet diffused differ from the source by at most 127/16 of the
/// shares they can have received.
pub open spec fn bounded(b: Seq<int>, p: Seq<u8>, w: int, h: int, cx: int, cy: int) -> bool {
    forall|x: int, y: int|
        0 <= x < w && 0 <= y < h && (y > cy || (y == cy && x >= cx)) ==> 16 * abs(#[trigger] at(b, w, x, y) - p[y
            * w + x]) <= 127 * recv(x, y, cx, cy)
}

/// Pixels already diffused are black or white.
pub open spec fn settled(b: Seq<int>, n: int) -> bool {
    forall|j: int| 0 <= j < n ==> #[trigger] b[j] == 0 || b[j] == 255
}

proof fn lemma_tdiv16(v: int)
    ensures
        16 * abs(tdiv(v, 16)) <= abs(v),
{
}

proof fn lemma_index_inj(x1: int, y1: int, x2: int, y2: int, w: int)
    requires
        0 <= x1 < w,
        0 <= x2 < w,
        y1 * w + x1 == y2 * w + x2,
    ensures
        x1 == x2 && y1 == y2,
{
    if y1 < y2 {
        assert((y1 + 1) * w <= y2 * w) by (nonlinear_arith) requires y1 + 1 <= y2, w > 0;
        assert((y1 + 1) * w == y1 * w + w) by (nonlinear_arith);
    } else if y1 > y2 {
        assert((y2 + 1) * w <= y1 * w) by (nonlinear_arith) requires y2 + 1 <= y1, w > 0;
        assert((y2 + 1) * w == y2 * w + w) by (nonlinear_arith);
    }
}

proof fn lemma_index_range(x: int, y: int, w: int, h: int)
    requires
        0 <= x < w,
        0 <= y < h,
    ensures
        0 <= y * w + x < w * h,
{
    assert(0 <= y * w) by (nonlinear_arith) requires 0 <= y, 0 <= w;
    assert(y * w + x < (y + 1) * w) by (nonlinear_arith) requires x < w;
    assert((y + 1) * w <= h * w) by (nonlinear_arith) requires y + 1 <= h, 0 <= w;
    assert(h * w == w * h) by (nonlinear_arith);
}

/// One diffusion step keeps the error bounds and settles the pixel.
#[verifier::rlimit(50)]
proof fn lemma_step(b: Seq<int>, p: Seq<u8>, w: int, h: int, cx: int, cy: int)
    requires
        w > 0,
        0 <= cx < w,
        0 <= cy < h,
        b.len() == w * h,
        p.len() == w * h,
        bounded(b, p, w, h, cx, cy),
        settled(b, cy * w + cx),
    ensures
        ({
            let k = cy * w + cx;
            let b2 = fs_step(b, w, h, k);
            &&& b2.len() == w * h
            &&& settled(b2, k + 1)
            &&& (cx + 1 < w ==> bounded(b2, p, w, h, cx + 1, cy))
            &&& (cx + 1 == w ==> bounded(b2, p, w, h, 0, cy + 1))
        }),
{
    let k = cy * w + cx;
    lemma_fundamental_div_mod_converse(k, w, cy, cx);
    lemma_index_range(cx, cy, w, h);
    assert(k % w == cx && k / w == cy);
    assert(at(b, w, cx, cy) == b[k]);
    let old = b[k];
    let q = quantize(old);
    let err = old - q;
    assert(16 * abs(old - p[k]) <= 127 * 16);
    assert(-127 <= err <= 127);
    lemma_tdiv16(err * 7);
    lemma_tdiv16(err * 3);
    lemma_tdiv16(err * 5);
    lemma_tdiv16(err);
    let c7 = tdiv(err * 7, 16);
    let c3 = tdiv(err * 3, 16);
    let c5 = tdiv(err * 5, 16);
    let c1 = tdiv(err, 16);
    assert(16 * abs(c7) <= 127 * 7);
    assert(16 * abs(c3) <= 127 * 3);
    assert(16 * abs(c5) <= 127 * 5);
    assert(16 * abs(c1) <= 127 * 1);
    if cx + 1 < w {
        lemma_index_range(cx + 1, cy, w, h);
    }
    if cy + 1 < h && cx > 0 {
        lemma_index_range(cx - 1, cy + 1, w, h);
    }
    let e1 = b.update(k, q);
    let e2 = if cx + 1 < w { e1.update(k + 1, e1[k + 1] + c7) } else { e1 };
    let e3 = if cy + 1 < h && cx > 0 { e2.update(k + w - 1, e2[k + w - 1] + c3) } else { e2 };
    let e4 = if cy + 1 < h { e3.update(k + w, e3[k + w] + c5) } else { e3 };
    let e5 = if cy + 1 < h && cx + 1 < w { e4.update(k + w + 1, e4[k + w + 1] + c1) } else { e4 };
    let b2 = fs_step(b, w, h, k);
    assert(b2 == e5);
    assert((cy + 1) * w == cy * w + w) by (nonlinear_arith);
    if cy + 1 < h {
        lemma_index_range(cx, cy + 1, w, h);
    }
    if cy + 1 < h && cx + 1 < w {
        lemma_index_range(cx + 1, cy + 1, w, h);
    }
    assert forall|j: int| 0 <= j < k + 1 implies #[trigger] b2[j] == 0 || b2[j] == 255 by {
        if j < k {
            assert(b[j] == 0 || b[j] == 255);
            assert(e5[j] == b[j]);
        } else {
            assert(e5[j] == q);
        }
    }
    let (nx, ny) = if cx + 1 < w { (cx + 1, cy) } else { (0, cy + 1) };
    assert forall|x: int, y: int|
        0 <= x < w && 0 <= y < h && (y > ny || (y == ny && x >= nx)) implies 16 * abs(#[trigger] at(b2, w, x, y) - p[y
            * w + x]) <= 127 * recv(x, y, nx, ny) by {
        let j = y * w + x;
        lemma_index_range(x, y, w, h);
        assert(16 * abs(at(b, w, x, y) - p[j]) <= 127 * recv(x, y, cx, cy));
        if j == k + 1 && cx + 1 < w {
            lemma_index_inj(x, y, cx + 1, cy, w);
        } else if j == k + w - 1 && cy + 1 < h && cx > 0 {
            lemma_index_inj(x, y, cx - 1, cy + 1, w);
        } else if j == k + w && cy + 1 < h {
            lemma_index_inj(x, y, cx, cy + 1, w);
        } else if j == k + w + 1 && cy + 1 < h && cx + 1 < w {
            lemma_index_inj(x, y, cx + 1, cy + 1, w);
        } else {
            assert(j != k) by {
                if j == k {
                    lemma_index_inj(x, y, cx, cy, w);
                }
            }
            assert(b2[j] == b[j]);
            if y == cy + 1 {
                if x == cx + 1 && cx + 1 < w {
                    lemma_index_inj(x, y, cx + 1, cy + 1, w);
                }
            }
        }
    }
}

/// The diffusion of the first `k` pixels keeps every error bound and
/// leaves those pixels black or white.
pub proof fn lemma_run(p: Seq<u8>, w: int, h: int, k: int)
    requires
        w > 0,
        h > 0,
        p.len() == w * h,
        0 <= k <= w * h,
    ensures
        fs_run(p, w, h, k).len() == w * h,
        settled(fs_run(p, w, h, k), k),
        k < w * h ==> bounded(fs_run(p, w, h, k), p, w, h, k % w, k / w),
    decreases k,
{
    if k == 0 {
        let b = fs_run(p, w, h, 0);
        assert(b =~= p.map_values(|v: u8| v as int));
        lemma_fundamental_div_mod_converse(0, w, 0, 0);
        assert forall|x: int, y: int|
            0 <= x < w && 0 <= y < h && (y > 0 || (y == 0 && x >= 0)) implies 16 * abs(#[trigger] at(b, w, x, y) - p[y * w + x]) <= 127 * recv(x, y, 0, 0) by {
            lemma_index_range(x, y, w, h);
        }
    } else {
        lemma_run(p, w, h, k - 1);
        let j = k - 1;
        let cx = j % w;
        let cy = j / w;
        assert(j == cy * w + cx && 0 <= cx < w) by {
            vstd::arithmetic::div_mod::lemma_fundamental_div_mod(j, w);
            assert(cy * w == w * cy) by (nonlinear_arith);
        }
        assert(0 <= cy < h) by {
            if cy >= h {
                assert(cy * w >= h * w) by (nonlinear_arith) requires cy >= h, w > 0;
                assert(h * w == w * h) by (nonlinear_arith);
            }
        }
        lemma_step(fs_run(p, w, h, j), p, w, h, cx, cy);
        if k < w * h {
            if cx + 1 < w {
                lemma_fundamental_div_mod_converse(k, w, cy, cx + 1);
            } else {
                assert(k == (cy + 1) * w + 0) by (nonlinear_arith) requires k == cy * w + cx + 1, cx + 1 == w;
                lemma_fundamental_div_mod_converse(k, w, cy + 1, 0);
            }
        }
    }
}

proof fn lemma_values_from_run(p: Seq<u8>, w: int, h: int, k: int)
    requires
        w > 0,
        h > 0,
        p.len() == w * h,
        0 <= k < w * h,
    ensures
        forall|j: int| 0 <= j < w * h ==> -127 <= #[trigger] fs_run(p, w, h, k)[j] <= 382,
{
    lemma_run(p, w, h, k);
    let cx = k % w;
    let cy = k / w;
    vstd::arithmetic::div_mod::lemma_fundamental_div_mod(k, w);
    assert(cy * w == w * cy) by (nonlinear_arith);
    assert(0 <= cy < h) by {
        if cy >= h {
            assert(cy * w >= h * w) by (nonlinear_arith) requires cy >= h, w > 0;
            assert(h * w == w * h) by (nonlinear_arith);
        }
        if cy < 0 {
            assert(cy * w < 0) by (nonlinear_arith) requires cy < 0, w > 0;
        }
    }
    assert forall|j: int| 0 <= j < w * h implies -127 <= #[trigger] fs_run(p, w, h, k)[j] <= 382 by {
        lemma_values_in_range(fs_run(p, w, h, k), p, w, h, cx, cy, j);
    }
}

proof fn lemma_values_final(p: Seq<u8>, w: int, h: int)
    requires
        w > 0,
        h > 0,
        p.len() == w * h,
    ensures
        forall|j: int| 0 <= j < w * h ==> -127 <= #[trigger] fs_run(p, w, h, w * h)[j] <= 382,
{
    assert(0 <= w * h) by (nonlinear_arith) requires w > 0, h > 0;
    lemma_run(p, w, h, w * h);
    assert forall|j: int| 0 <= j < w * h implies -127 <= #[trigger] fs_run(p, w, h, w * h)[j] <= 382 by {
        assert(fs_run(p, w, h, w * h)[j] == 0 || fs_run(p, w, h, w * h)[j] == 255);
    }
}

/// The entries one diffusion step changes, and how.
proof fn lemma_step_shape(b: Seq<int>, w: int, h: int, x: int, y: int)
    requires
        w > 0,
        0 <= x < w,
        0 <= y < h,
        b.len() == w * h,
    ensures
        ({
            let k = y * w + x;
            let err = b[k] - quantize(b[k]);
            let b2 = fs_step(b, w, h, k);
            &&& b2.len() == b.len()
            &&& b2[k] == quantize(b[k])
            &&& (x + 1 < w ==> b2[k + 1] == b[k + 1] + tdiv(err * 7, 16))
            &&& (y + 1 < h && x > 0 ==> b2[k + w - 1] == b[k + w - 1] + tdiv(err * 3, 16))
            &&& (y + 1 < h ==> b2[k + w] == b[k + w] + tdiv(err * 5, 16))
            &&& (y + 1 < h && x + 1 < w ==> b2[k + w + 1] == b[k + w + 1] + tdiv(err, 16))
            &&& forall|j: int|
                0 <= j < b.len() && j != k && !(x + 1 < w && j == k + 1) && !(y + 1 < h && x > 0 && j == k + w - 1)
                    && !(y + 1 < h && j == k + w) && !(y + 1 < h && x + 1 < w && j == k + w + 1) ==> #[trigger] b2[j]
                    == b[j]
        }),
{
    let k = y * w + x;
    lemma_fundamental_div_mod_converse(k, w, y, x);
    lemma_index_range(x, y, w, h);
    if x + 1 < w {
        lemma_index_range(x + 1, y, w, h);
    }
    assert((y + 1) * w == y * w + w) by (nonlinear_arith);
    if y + 1 < h {
        lemma_index_range(x, y + 1, w, h);
        if x > 0 {
            lemma_index_range(x - 1, y + 1, w, h);
        }
        if x + 1 < w {
            lemma_index_range(x + 1, y + 1, w, h);
        }
    }
    let q = quantize(b[k]);
    let err = b[k] - q;
    let e1 = b.update(k, q);
    let e2 = if x + 1 < w { e1.update(k + 1, e1[k + 1] + tdiv(err * 7, 16)) } else { e1 };
    let e3 = if y + 1 < h && x > 0 { e2.update(k + w - 1, e2[k + w - 1] + tdiv(err * 3, 16)) } else { e2 };
    let e4 = if y + 1 < h { e3.update(k + w, e3[k + w] + tdiv(err * 5, 16)) } else { e3 };
    let e5 = if y + 1 < h && x + 1 < w { e4.update(k + w + 1, e4[k + w + 1] + tdiv(err, 16)) } else { e4 };
    assert(fs_step(b, w, h, k) == e5);
}

/// The view of an `i16` buffer as integers.
pub open spec fn ints(v: Seq<i16>) -> Seq<int> {
    v.map_values(|x: i16| x as int)
}

proof fn lemma_values_in_range(b: Seq<int>, p: Seq<u8>, w: int, h: int, cx: int, cy: int, j: int)
    requires
        w > 0,
        b.len() == w * h,
        p.len() == w * h,
        0 <= cx < w,
        0 <= cy < h,
        bounded(b, p, w, h, cx, cy),
        settled(b, cy * w + cx),
        0 <= j < w * h,
    ensures
        -127 <= b[j] <= 382,
{
    if j >= cy * w + cx {
        let x = j % w;
        let y = j / w;
        vstd::arithmetic::div_mod::lemma_fundamental_div_mod(j, w);
        assert(y * w == w * y) by (nonlinear_arith);
        assert(0 <= x < w);
        assert(0 <= y < h) by {
            if y >= h {
                assert(y * w >= h * w) by (nonlinear_arith) requires y >= h, w > 0;
                assert(h * w == w * h) by (nonlinear_arith);
            }
            if y < 0 {
                assert(y * w < 0) by (nonlinear_arith) requires y < 0, w > 0;
            }
        }
        assert(y > cy || (y == cy && x >= cx)) by {
            if y < cy {
                assert((y + 1) * w <= cy * w) by (nonlinear_arith) requires y + 1 <= cy, w > 0;
                assert((y + 1) * w == y * w + w) by (nonlinear_arith);
            }
        }
        assert(at(b, w, x, y) == b[j]);
        assert(recv(x, y, cx, cy) <= 16);
    } else {
        assert(b[j] == 0 || b[j] == 255);
    }
}

/// Apply Floyd–Steinberg dithering to a `width` by `height` grayscale
/// buffer in place: afterwards every pixel is 0 or 255 (see [`dithered`]).
#[verifier::rlimit(80)]
pub fn floyd_steinberg(pixels: &mut [u8], width: u32, height: u32)
    requires
        old(pixels)@.len() == (width as int) * (height as int),
    ensures
        final(pixels)@ == dithered(old(pixels)@, width as int, height as int),
{
    let ghost p = pixels@;
    let n = pixels.len();
    let w = width as usize;
    let h = height as usize;
    let mut buf: Vec<i16> = Vec::new();
    let mut i: usize = 0;
    while i < n
        invariant
            n == p.len(),
            pixels@ == p,
            i <= n,
            ints(buf@) == p.take(i as int).map_values(|v: u8| v as int),
        decreases n - i,
    {
        let ghost before = buf@;
        buf.push(pixels[i] as i16);
        proof {
            assert(ints(buf@) =~= ints(before).push(p[i as int] as int));
            assert(p.take(i + 1).map_values(|v: u8| v as int) =~= p.take(i as int).map_values(|v: u8| v as int).push(
                p[i as int] as int,
            ));
        }
        i = i + 1;
    }
    proof {
        assert(p.take(n as int) =~= p);
    }
    if w == 0 || h == 0 {
        proof {
            assert(n == 0) by (nonlinear_arith) requires n == w * h, w == 0 || h == 0;
            assert(pixels@ =~= dithered(p, w as int, h as int));
        }
        return;
    }
    proof {
        assert(fs_run(p, w as int, h as int, 0) =~= ints(buf@));
    }
    let mut y: usize = 0;
    while y < h
        invariant
            w > 0,
            h > 0,
            n == p.len(),
            n == w * h,
            pixels@ == p,
            y <= h,
            ints(buf@) == fs_run(p, w as int, h as int, (y * w) as int),
        decreases h - y,
    {
        let mut x: usize = 0;
        while x < w
            invariant
                w > 0,
                h > 0,
                n == p.len(),
                n == w * h,
                pixels@ == p,
                y < h,
                x <= w,
                ints(buf@) == fs_run(p, w as int, h as int, (y * w + x) as int),
            decreases w - x,
        {
            let ghost k: int = (y * w + x) as int;
            proof {
                lemma_index_range(x as int, y as int, w as int, h as int);
                lemma_run(p, w as int, h as int, k);
                lemma_run(p, w as int, h as int, k + 1);
                lemma_fundamental_div_mod_converse(k, w as int, y as int, x as int);
            }
            let ghost b0 = fs_run(p, w as int, h as int, k);
            let ghost b1 = fs_run(p, w as int, h as int, k + 1);
            proof {
                assert(b1 == fs_step(b0, w as int, h as int, k));
                lemma_step_shape(b0, w as int, h as int, x as int, y as int);
                if k + 1 < w * h {
                    let kk = k + 1;
                    lemma_values_from_run(p, w as int, h as int, kk);
                } else {
                    lemma_values_final(p, w as int, h as int);
                }
                lemma_values_in_range(b0, p, w as int, h as int, x as int, y as int, k);
            }
            let idx = y * w + x;
            let old = buf[idx];
            let q: i16 = if old < 128 { 0 } else { 255 };
            let err: i16 = old - q;
            buf.set(idx, q);
            if x + 1 < w {
                proof { lemma_index_range(x + 1, y as int, w as int, h as int); }
                let d: i16 = err * 7 / 16;
                proof {
                    assert(d == tdiv(err * 7, 16));
                    assert(b1[k + 1] == b0[k + 1] + d);
                }
                let v = buf[idx + 1] + d;
                buf.set(idx + 1, v);
            }
            if y + 1 < h {
                proof {
                    assert((y + 1) * w == y * w + w) by (nonlinear_arith);
                    lemma_index_range(x as int, y + 1, w as int, h as int);
                }
                if x > 0 {
                    proof { lemma_index_range(x - 1, y + 1, w as int, h as int); }
                    let d: i16 = err * 3 / 16;
                    proof {
                        assert(d == tdiv(err * 3, 16));
                        assert(b1[k + w - 1] == b0[k + w - 1] + d);
                    }
                    let v = buf[idx + w - 1] + d;
                    buf.set(idx + w - 1, v);
                }
                let d: i16 = err * 5 / 16;
                proof {
                    assert(d == tdiv(err * 5, 16));
                }
                let v = buf[idx + w] + d;
                buf.set(idx + w, v);
                if x + 1 < w {
                    proof { lemma_index_range(x + 1, y + 1, w as int, h as int); }
                    let d: i16 = err / 16;
                    proof {
                        assert(d == tdiv(err as int, 16));
                    }
                    let v = buf[idx + w + 1] + d;
                    buf.set(idx + w + 1, v);
                }
            }
            proof {
                assert(ints(buf@) =~= b1);
            }
            x = x + 1;
        }
        proof {
            assert(y * w + w == (y + 1) * w) by (nonlinear_arith);
        }
        y = y + 1;
    }
    proof {
        assert(h * w == w * h) by (nonlinear_arith);
        lemma_run(p, w as int, h as int, (w * h) as int);
    }
    let mut j: usize = 0;
    while j < n
        invariant
            n == p.len(),
            n == w * h,
            buf@.len() == n,
            ints(buf@) == fs_run(p, w as int, h as int, (w * h) as int),
            pixels@.len() == n,
            j <= n,
            forall|t: int| 0 <= t < j ==> pixels@[t] == clamp_byte(ints(buf@)[t]),
        decreases n - j,
    {
        let v = buf[j];
        let c: u8 = if v < 0 { 0 } else if v > 255 { 255 } else { v as u8 };
        pixels.set(j, c);
        j = j + 1;
    }
    proof {
        assert(pixels@ =~= dithered(p, w as int, h as int));
    }
}

/// Dithering leaves only black and white pixels, and keeps the size.
pub proof fn law_dither_binary(p: Seq<u8>, w: int, h: int)
    requires
        w >= 0,
        h >= 0,
        p.len() == w * h,
    ensures
        dithered(p, w, h).len() == p.len(),
        forall|i: int| 0 <= i < p.len() ==> #[trigger] dithered(p, w, h)[i] == 0 || dithered(p, w, h)[i] == 255,
{
    if w > 0 && h > 0 {
        lemma_run(p, w, h, w * h);
        assert forall|i: int| 0 <= i < p.len() implies #[trigger] dithered(p, w, h)[i] == 0 || dithered(p, w, h)[i]
            == 255 by {
            assert(fs_run(p, w, h, w * h)[i] == 0 || fs_run(p, w, h, w * h)[i] == 255);
        }
    } else {
        assert(w * h == 0) by (nonlinear_arith) requires w == 0 || h == 0;
        assert(fs_run(p, w, h, w * h) =~= p.map_values(|v: u8| v as int));
    }
}

proof fn lemma_uniform_fixed(p: Seq<u8>, w: int, h: int, c: u8, k: int)
    requires
        w > 0,
        h > 0,
        p.len() == w * h,
        c == 0 || c == 255,
        forall|i: int| 0 <= i < p.len() ==> p[i] == c,
        0 <= k <= w * h,
    ensures
        fs_run(p, w, h, k) == p.map_values(|v: u8| v as int),
    decreases k,
{
    if k > 0 {
        lemma_uniform_fixed(p, w, h, c, k - 1);
        let b = fs_run(p, w, h, k - 1);
        let j = k - 1;
        let x = j % w;
        let y = j / w;
        vstd::arithmetic::div_mod::lemma_fundamental_div_mod(j, w);
        assert(y * w == w * y) by (nonlinear_arith);
        assert(0 <= y < h) by {
            if y >= h {
                assert(y * w >= h * w) by (nonlinear_arith) requires y >= h, w > 0;
                assert(h * w == w * h) by (nonlinear_arith);
            }
            if y < 0 {
                assert(y * w < 0) by (nonlinear_arith) requires y < 0, w > 0;
            }
        }
        lemma_step_shape(b, w, h, x, y);
        assert(b[j] == c as int);
        assert(fs_run(p, w, h, k) =~= b);
    }
}

/// An all-white image stays white.
pub proof fn law_dither_white(p: Seq<u8>, w: int, h: int)
    requires
        w >= 0,
        h >= 0,
        p.len() == w * h,
        forall|i: int| 0 <= i < p.len() ==> p[i] == 255,
    ensures
        dithered(p, w, h) == p,
{
    if w > 0 && h > 0 {
        lemma_uniform_fixed(p, w, h, 255, w * h);
    } else {
        assert(w * h == 0) by (nonlinear_arith) requires w == 0 || h == 0;
    }
    assert(dithered(p, w, h) =~= p);
}

/// An all-black image stays black.
pub proof fn law_dither_black(p: Seq<u8>, w: int, h: int)
    requires
        w >= 0,
        h >= 0,
        p.len() == w * h,
        forall|i: int| 0 <= i < p.len() ==> p[i] == 0,
    ensures
        dithered(p, w, h) == p,
{
    if w > 0 && h > 0 {
        lemma_uniform_fixed(p, w, h, 0, w * h);
    } else {
        assert(w * h == 0) by (nonlinear_arith) requires w == 0 || h == 0;
    }
    assert(dithered(p, w, h) =~= p);
}

proof fn lemma_first_fixed(p: Seq<u8>, w: int, h: int, k: int)
    requires
        w > 0,
        h > 0,
        p.len() == w * h,
        1 <= k <= w * h,
    ensures
        fs_run(p, w, h, k).len() == w * h,
        fs_run(p, w, h, k)[0] == quantize(p[0] as int),
    decreases k,
{
    let b = fs_run(p, w, h, k - 1);
    let j = k - 1;
    lemma_run(p, w, h, j);
    let x = j % w;
    let y = j / w;
    vstd::arithmetic::div_mod::lemma_fundamental_div_mod(j, w);
    assert(y * w == w * y) by (nonlinear_arith);
    assert(0 <= y < h) by {
        if y >= h {
            assert(y * w >= h * w) by (nonlinear_arith) requires y >= h, w > 0;
            assert(h * w == w * h) by (nonlinear_arith);
        }
        if y < 0 {
            assert(y * w < 0) by (nonlinear_arith) requires y < 0, w > 0;
        }
    }
    lemma_step_shape(b, w, h, x, y);
    if k == 1 {
        assert(b[0] == p[0] as int);
    } else {
        lemma_first_fixed(p, w, h, k - 1);
        assert(fs_run(p, w, h, k)[0] == b[0]);
    }
}

/// The first pixel of a dithered image is its original value thresholded
/// at 128: nothing has diffused into it yet.
pub proof fn law_dither_first_pixel(p: Seq<u8>, w: int, h: int)
    requires
        w > 0,
        h > 0,
        p.len() == w * h,
    ensures
        dithered(p, w, h)[0] == (if p[0] < 128 { 0u8 } else { 255u8 }),
{
    assert(w * h >= 1) by (nonlinear_arith) requires w > 0, h > 0;
    lemma_first_fixed(p, w, h, w * h);
}

} // verus!
