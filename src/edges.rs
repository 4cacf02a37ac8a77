use vstd::prelude::*;
use vstd::arithmetic::div_mod::lemma_fundamental_div_mod;

verus! {

/// Why an image operation refused its input.
#[derive(Debug, Clone, Copy, PartialEq, Eq, Structural)]
pub enum ImageError {
    /// A dimension is zero, or the buffer does not hold `width * height * 4` bytes.
    InvalidInput,
}

/// The byte pixel value that the edge mask uses for "on".
pub const EDGE_ON: u8 = 255;

/// Weights of the unweighted luminance `R + G + B` (three times the average).
pub const PLAIN_R: i64 = 1;
pub const PLAIN_G: i64 = 1;
pub const PLAIN_B: i64 = 1;

/// Weights of the perceptual luminance `299 R + 587 G + 114 B` (a thousand times
/// `0.299 R + 0.587 G + 0.114 B`).
pub const PERCEPTUAL_R: i64 = 299;
pub const PERCEPTUAL_G: i64 = 587;
pub const PERCEPTUAL_B: i64 = 114;

/// An RGBA buffer of `w` by `h` pixels, both at least one.
pub open spec fn valid_image(len: int, w: int, h: int) -> bool {
    w >= 1 && h >= 1 && len == w * h * 4
}

/// Pixel `p` (row-major index) lies off the border: neither in the first or last
/// row nor in the first or last column.
pub open spec fn is_interior(w: int, h: int, p: int) -> bool {
    1 <= p % w && p % w < w - 1 && 1 <= p / w && p / w < h - 1
}

/// Weighted luminance of pixel `p`.
pub open spec fn luma(d: Seq<u8>, p: int, wr: int, wg: int, wb: int) -> int {
    wr * d[4 * p] + wg * d[4 * p + 1] + wb * d[4 * p + 2]
}

/// Horizontal Sobel response `[[-1,0,1],[-2,0,2],[-1,0,1]]` at pixel `p`.
pub open spec fn grad_x(d: Seq<u8>, w: int, p: int, wr: int, wg: int, wb: int) -> int {
    -luma(d, p - w - 1, wr, wg, wb) + luma(d, p - w + 1, wr, wg, wb) - 2 * luma(d, p - 1, wr, wg, wb)
        + 2 * luma(d, p + 1, wr, wg, wb) - luma(d, p + w - 1, wr, wg, wb) + luma(
        d,
        p + w + 1,
        wr,
        wg,
        wb,
    )
}

/// Vertical Sobel response `[[-1,-2,-1],[0,0,0],[1,2,1]]` at pixel `p`.
pub open spec fn grad_y(d: Seq<u8>, w: int, p: int, wr: int, wg: int, wb: int) -> int {
    -luma(d, p - w - 1, wr, wg, wb) - 2 * luma(d, p - w, wr, wg, wb) - luma(d, p - w + 1, wr, wg, wb)
        + luma(d, p + w - 1, wr, wg, wb) + 2 * luma(d, p + w, wr, wg, wb) + luma(
        d,
        p + w + 1,
        wr,
        wg,
        wb,
    )
}

/// The gradient of the average luminance `(R + G + B) / 3` at `p` has a Euclidean
/// norm `g` with `9 * g^2 > bound`. The plain responses are three times those of
/// the average, so `9 * g^2` is the integer `gx^2 + gy^2` of the plain responses;
/// a norm above a threshold `t >= 0` is `bound = floor(9 * t^2)`.
pub open spec fn strong_edge(d: Seq<u8>, w: int, p: int, bound: int) -> bool {
    let gx = grad_x(d, w, p, 1, 1, 1);
    let gy = grad_y(d, w, p, 1, 1, 1);
    gx * gx + gy * gy > bound
}

/// Byte `k` of the binary edge mask.
pub open spec fn binary_edge_byte(d: Seq<u8>, w: int, h: int, bound: int, k: int) -> int {
    let p = k / 4;
    if !is_interior(w, h, p) {
        0
    } else if k % 4 == 3 {
        255
    } else if strong_edge(d, w, p, bound) {
        255
    } else {
        0
    }
}

pub open spec fn abs(v: int) -> int {
    if v < 0 {
        -v
    } else {
        v
    }
}

/// Continuous edge intensity at `p`: the L1 norm of the gradient of the perceptual
/// luminance, truncated to an integer and capped at 255.
pub open spec fn fast_edge_value(d: Seq<u8>, w: int, p: int) -> int {
    let m = (abs(grad_x(d, w, p, 299, 587, 114)) + abs(grad_y(d, w, p, 299, 587, 114))) / 1000;
    if m > 255 {
        255
    } else {
        m
    }
}

/// Byte `k` of a buffer after the fast edge pass over `d`.
pub open spec fn fast_edge_byte(d: Seq<u8>, w: int, h: int, k: int) -> int {
    if is_interior(w, h, k / 4) && k % 4 != 3 {
        fast_edge_value(d, w, k / 4)
    } else {
        d[k] as int
    }
}

/// Checks that `len` bytes make an RGBA image of `width` by `height` pixels.
fn check_image(len: usize, width: u32, height: u32) -> (r: bool)
    ensures
        r == valid_image(len as int, width as int, height as int),
{
    let w = width as u128;
    let h = height as u128;
    assert(w * h <= 0xffff_ffff * 0xffff_ffff) by (nonlinear_arith)
        requires w <= 0xffff_ffff, h <= 0xffff_ffff;
    width >= 1 && height >= 1 && w * h * 4 == len as u128
}

/// Per-pixel weighted luminance of an RGBA buffer.
fn luma_buffer(d: &Vec<u8>, npix: usize, wr: i64, wg: i64, wb: i64) -> (l: Vec<i64>)
    requires
        d@.len() == npix * 4,
        0 <= wr <= 1000,
        0 <= wg <= 1000,
        0 <= wb <= 1000,
    ensures
        l@.len() == npix,
        forall|q: int| 0 <= q < npix ==> #[trigger] l@[q] == luma(d@, q, wr as int, wg as int, wb as int),
        forall|q: int| 0 <= q < npix ==> 0 <= #[trigger] l@[q] <= 255 * (wr + wg + wb),
{
    let mut l: Vec<i64> = Vec::new();
    let mut p: usize = 0;
    while p < npix
        invariant
            p <= npix,
            d@.len() == npix * 4,
            0 <= wr <= 1000,
            0 <= wg <= 1000,
            0 <= wb <= 1000,
            l@.len() == p,
            forall|q: int| 0 <= q < p ==> #[trigger] l@[q] == luma(d@, q, wr as int, wg as int, wb as int),
            forall|q: int| 0 <= q < p ==> 0 <= #[trigger] l@[q] <= 255 * (wr + wg + wb),
        decreases npix - p,
    {
        assert(4 * p + 3 < npix * 4);
        assert(d@.len() == d.len());
        let i = 4 * p;
        let r = d[i] as i64;
        let g = d[i + 1] as i64;
        let b = d[i + 2] as i64;
        assert(0 <= wr * r <= 255 * wr) by (nonlinear_arith)
            requires 0 <= wr <= 1000, 0 <= r <= 255;
        assert(0 <= wg * g <= 255 * wg) by (nonlinear_arith)
            requires 0 <= wg <= 1000, 0 <= g <= 255;
        assert(0 <= wb * b <= 255 * wb) by (nonlinear_arith)
            requires 0 <= wb <= 1000, 0 <= b <= 255;
        l.push(wr * r + wg * g + wb * b);
        p = p + 1;
    }
    l
}

/// Facts about an interior pixel's row and column that the index arithmetic needs.
proof fn lemma_interior_neighbours(w: int, h: int, p: int)
    requires
        w >= 1,
        h >= 1,
        0 <= p < w * h,
        is_interior(w, h, p),
    ensures
        p - w - 1 >= 0,
        p + w + 1 < w * h,
{
    lemma_fundamental_div_mod(p, w);
    let x = p % w;
    let y = p / w;
    assert(p == w * y + x);
    assert(w * y >= w) by (nonlinear_arith)
        requires y >= 1, w >= 1;
    assert(w * y <= w * (h - 2)) by (nonlinear_arith)
        requires y <= h - 2, w >= 1;
    assert(w * (h - 2) == w * h - 2 * w) by (nonlinear_arith);
}

/// Sobel responses at an interior pixel, read from a luminance buffer.
fn sobel_at(
    l: &Vec<i64>,
    w: usize,
    p: usize,
    Ghost(d): Ghost<Seq<u8>>,
    Ghost(wr): Ghost<int>,
    Ghost(wg): Ghost<int>,
    Ghost(wb): Ghost<int>,
) -> (g: (i64, i64))
    requires
        p >= w + 1,
        p + w + 1 < l@.len(),
        0 <= wr + wg + wb <= 3000,
        forall|q: int| 0 <= q < l@.len() ==> #[trigger] l@[q] == luma(d, q, wr, wg, wb),
        forall|q: int| 0 <= q < l@.len() ==> 0 <= #[trigger] l@[q] <= 255 * (wr + wg + wb),
    ensures
        g.0 == grad_x(d, w as int, p as int, wr, wg, wb),
        g.1 == grad_y(d, w as int, p as int, wr, wg, wb),
{
    let _len = l.len();
    let nw = l[p - w - 1];
    let n = l[p - w];
    let ne = l[p - w + 1];
    let west = l[p - 1];
    let east = l[p + 1];
    let sw = l[p + w - 1];
    let s = l[p + w];
    let se = l[p + w + 1];
    let gx = -nw + ne - 2 * west + 2 * east - sw + se;
    let gy = -nw - 2 * n - ne + sw + 2 * s + se;
    (gx, gy)
}

/// Binary Sobel edge mask of an RGBA image.
///
/// Each interior pixel of the result is white and opaque (`255, 255, 255, 255`)
/// where the gradient of the average luminance `(R + G + B) / 3` has a Euclidean
/// norm above `threshold`, and black and opaque (`0, 0, 0, 255`) elsewhere. Border
/// pixels stay all zero; images under three pixels in either direction have no
/// interior, so the result is all zero.
pub fn sobel_edge_detection(data: &Vec<u8>, width: u32, height: u32, threshold: u32) -> (r: Result<
    Vec<u8>,
    ImageError,
>)
    ensures
        r.is_ok() <==> valid_image(data@.len() as int, width as int, height as int),
        r.is_err() ==> r == Err::<Vec<u8>, ImageError>(ImageError::InvalidInput),
        r.is_ok() ==> r.unwrap()@.len() == data@.len(),
        r.is_ok() ==> forall|k: int|
            0 <= k < data@.len() ==> #[trigger] r.unwrap()@[k] as int == binary_edge_byte(
                data@,
                width as int,
                height as int,
                9 * (threshold * threshold),
                k,
            ),
{
    let t = threshold as i128;
    assert(t * t <= 0xffff_ffff * 0xffff_ffff) by (nonlinear_arith)
        requires 0 <= t <= 0xffff_ffff;
    sobel_edges_above(data, width, height, 9 * (t * t))
}

/// Binary Sobel edge mask with the comparison given as a bound on `9 * g^2` for
/// the gradient norm `g` of the average luminance (see `strong_edge`): any real
/// threshold `t` is `bound = floor(9 * t^2)` for `t >= 0` and `-1` below zero.
pub fn sobel_edges_above(data: &Vec<u8>, width: u32, height: u32, bound: i128) -> (r: Result<
    Vec<u8>,
    ImageError,
>)
    ensures
        r.is_ok() <==> valid_image(data@.len() as int, width as int, height as int),
        r.is_err() ==> r == Err::<Vec<u8>, ImageError>(ImageError::InvalidInput),
        r.is_ok() ==> r.unwrap()@.len() == data@.len(),
        r.is_ok() ==> forall|k: int|
            0 <= k < data@.len() ==> #[trigger] r.unwrap()@[k] as int == binary_edge_byte(
                data@,
                width as int,
                height as int,
                bound as int,
                k,
            ),
{
    if !check_image(data.len(), width, height) {
        return Err(ImageError::InvalidInput);
    }
    let w = width as usize;
    let h = height as usize;
    let len = data.len();
    let npix = len / 4;
    assert(npix == w * h);
    let l = luma_buffer(data, npix, PLAIN_R, PLAIN_G, PLAIN_B);
    let mut out: Vec<u8> = Vec::new();
    let mut k: usize = 0;
    while k < len
        invariant
            k <= len,
            out@.len() == k,
            forall|j: int| 0 <= j < k ==> out@[j] == 0,
        decreases len - k,
    {
        out.push(0);
        k = k + 1;
    }
    let limit = bound;
    let mut p: usize = 0;
    while p < npix
        invariant
            valid_image(len as int, w as int, h as int),
            len == data@.len(),
            npix == w * h,
            len == npix * 4,
            p <= npix,
            limit == bound,
            out@.len() == len,
            l@.len() == npix,
            forall|q: int| 0 <= q < npix ==> #[trigger] l@[q] == luma(data@, q, 1, 1, 1),
            forall|q: int| 0 <= q < npix ==> 0 <= #[trigger] l@[q] <= 255 * 3,
            forall|j: int|
                0 <= j < 4 * p ==> #[trigger] out@[j] as int == binary_edge_byte(
                    data@,
                    w as int,
                    h as int,
                    bound as int,
                    j,
                ),
            forall|j: int| 4 * p <= j < len ==> out@[j] == 0,
        decreases npix - p,
    {
        let x = p % w;
        let y = p / w;
        let base = 4 * p;
        assert(base / 4 == p && base % 4 == 0);
        assert((base + 1) / 4 == p && (base + 1) % 4 == 1);
        assert((base + 2) / 4 == p && (base + 2) % 4 == 2);
        assert((base + 3) / 4 == p && (base + 3) % 4 == 3);
        if x >= 1 && x + 1 < w && y >= 1 && y + 1 < h {
            proof {
                lemma_interior_neighbours(w as int, h as int, p as int);
            }
            let g = sobel_at(&l, w, p, Ghost(data@), Ghost(1), Ghost(1), Ghost(1));
            let gx = g.0;
            let gy = g.1;
            assert(-4 * 765 <= gx <= 4 * 765);
            assert(-4 * 765 <= gy <= 4 * 765);
            assert(0 <= gx * gx <= 3060 * 3060) by (nonlinear_arith)
                requires -3060 <= gx <= 3060;
            assert(0 <= gy * gy <= 3060 * 3060) by (nonlinear_arith)
                requires -3060 <= gy <= 3060;
            let m = (gx * gx + gy * gy) as i128;
            let v: u8 = if m > limit {
                EDGE_ON
            } else {
                0
            };
            out.set(base, v);
            out.set(base + 1, v);
            out.set(base + 2, v);
            out.set(base + 3, EDGE_ON);
            assert(is_interior(w as int, h as int, p as int));
            assert(strong_edge(data@, w as int, p as int, bound as int) == (m > limit));
        } else {
            assert(!is_interior(w as int, h as int, p as int));
        }
        assert forall|j: int| 0 <= j < 4 * (p + 1) implies #[trigger] out@[j] as int
            == binary_edge_byte(data@, w as int, h as int, bound as int, j) by {
            if j >= base {
                assert(j == base || j == base + 1 || j == base + 2 || j == base + 3);
            }
        }
        p = p + 1;
    }
    Ok(out)
}

/// Continuous Sobel edge intensity, written over the image in place.
///
/// Each interior pixel's R, G and B become the L1 norm `|gx| + |gy|` of the
/// gradient of the perceptual luminance `0.299 R + 0.587 G + 0.114 B`, truncated
/// and capped at 255; responses are read from the image as it was before the
/// call. Alpha and every border pixel are left as they were. On an invalid
/// image nothing is written.
pub fn grayscale_sobel(data: &mut Vec<u8>, width: u32, height: u32) -> (r: Result<(), ImageError>)
    ensures
        r.is_ok() <==> valid_image(old(data)@.len() as int, width as int, height as int),
        r.is_err() ==> r == Err::<(), ImageError>(ImageError::InvalidInput),
        r.is_err() ==> final(data)@ == old(data)@,
        final(data)@.len() == old(data)@.len(),
        r.is_ok() ==> forall|k: int|
            0 <= k < old(data)@.len() ==> #[trigger] final(data)@[k] as int == fast_edge_byte(
                old(data)@,
                width as int,
                height as int,
                k,
            ),
{
    if !check_image(data.len(), width, height) {
        return Err(ImageError::InvalidInput);
    }
    let ghost orig = data@;
    let w = width as usize;
    let h = height as usize;
    let len = data.len();
    let npix = len / 4;
    assert(npix == w * h);
    let l = luma_buffer(data, npix, PERCEPTUAL_R, PERCEPTUAL_G, PERCEPTUAL_B);
    let mut p: usize = 0;
    while p < npix
        invariant
            valid_image(len as int, w as int, h as int),
            orig == old(data)@,
            len == orig.len(),
            npix == w * h,
            len == npix * 4,
            p <= npix,
            data@.len() == len,
            l@.len() == npix,
            forall|q: int| 0 <= q < npix ==> #[trigger] l@[q] == luma(orig, q, 299, 587, 114),
            forall|q: int| 0 <= q < npix ==> 0 <= #[trigger] l@[q] <= 255 * 1000,
            forall|j: int|
                0 <= j < 4 * p ==> #[trigger] data@[j] as int == fast_edge_byte(
                    orig,
                    w as int,
                    h as int,
                    j,
                ),
            forall|j: int| 4 * p <= j < len ==> data@[j] == orig[j],
        decreases npix - p,
    {
        let x = p % w;
        let y = p / w;
        let base = 4 * p;
        assert(base / 4 == p && base % 4 == 0);
        assert((base + 1) / 4 == p && (base + 1) % 4 == 1);
        assert((base + 2) / 4 == p && (base + 2) % 4 == 2);
        assert((base + 3) / 4 == p && (base + 3) % 4 == 3);
        if x >= 1 && x + 1 < w && y >= 1 && y + 1 < h {
            proof {
                lemma_interior_neighbours(w as int, h as int, p as int);
            }
            let g = sobel_at(&l, w, p, Ghost(orig), Ghost(299), Ghost(587), Ghost(114));
            let ax = if g.0 < 0 {
                -g.0
            } else {
                g.0
            };
            let ay = if g.1 < 0 {
                -g.1
            } else {
                g.1
            };
            let m = (ax + ay) / 1000;
            let v: u8 = if m > 255 {
                255
            } else {
                m as u8
            };
            data.set(base, v);
            data.set(base + 1, v);
            data.set(base + 2, v);
            assert(is_interior(w as int, h as int, p as int));
            assert(fast_edge_value(orig, w as int, p as int) == v as int);
        } else {
            assert(!is_interior(w as int, h as int, p as int));
        }
        assert forall|j: int| 0 <= j < 4 * (p + 1) implies #[trigger] data@[j] as int
            == fast_edge_byte(orig, w as int, h as int, j) by {
            if j >= base {
                assert(j == base || j == base + 1 || j == base + 2 || j == base + 3);
            }
        }
        p = p + 1;
    }
    Ok(())
}

/// Which Sobel policy `detect_edges` applies.
#[derive(Debug, Clone, Copy, PartialEq, Eq, Structural)]
pub enum EdgeVariant {
    /// Average luminance, Euclidean norm, on/off output above `threshold`
    /// (see `sobel_edge_detection`).
    Binary { threshold: u32 },
    /// Perceptual luminance, L1 norm capped at 255, alpha kept
    /// (see `grayscale_sobel`).
    Continuous,
}

/// Edge representation of an RGBA image under either policy, in a new buffer.
pub fn detect_edges(pixels: &Vec<u8>, width: u32, height: u32, variant: EdgeVariant) -> (r: Result<
    Vec<u8>,
    ImageError,
>)
    ensures
        r.is_ok() <==> valid_image(pixels@.len() as int, width as int, height as int),
        r.is_err() ==> r == Err::<Vec<u8>, ImageError>(ImageError::InvalidInput),
        r.is_ok() ==> r.unwrap()@.len() == pixels@.len(),
        r.is_ok() ==> forall|k: int|
            0 <= k < pixels@.len() ==> #[trigger] r.unwrap()@[k] as int == match variant {
                EdgeVariant::Binary { threshold } => binary_edge_byte(
                    pixels@,
                    width as int,
                    height as int,
                    9 * (threshold * threshold),
                    k,
                ),
                EdgeVariant::Continuous => fast_edge_byte(pixels@, width as int, height as int, k),
            },
{
    match variant {
        EdgeVariant::Binary { threshold } => sobel_edge_detection(pixels, width, height, threshold),
        EdgeVariant::Continuous => {
            let len = pixels.len();
            let mut out: Vec<u8> = Vec::new();
            let mut i: usize = 0;
            while i < len
                invariant
                    len == pixels@.len(),
                    i <= len,
                    out@ == pixels@.subrange(0, i as int),
                decreases len - i,
            {
                out.push(pixels[i]);
                i = i + 1;
                assert(out@ =~= pixels@.subrange(0, i as int));
            }
            assert(out@ =~= pixels@);
            match grayscale_sobel(&mut out, width, height) {
                Ok(()) => Ok(out),
                Err(e) => Err(e),
            }
        },
    }
}

/// A mask pixel is an edge point when its red channel exceeds this value.
pub const EDGE_LEVEL: u8 = 128;

/// Flat coordinates `[x0, y0, x1, y1, ...]` of the pixels whose red channel
/// exceeds `level` among the first `k` pixels of mask `d`, `w` pixels wide, in
/// row-major scan order.
pub open spec fn edge_points(d: Seq<u8>, w: int, level: int, k: int) -> Seq<u32>
    decreases k,
{
    if k <= 0 {
        seq![]
    } else {
        let p = k - 1;
        let before = edge_points(d, w, level, p);
        if d[4 * p] > level {
            before + seq![(p % w) as u32, (p / w) as u32]
        } else {
            before
        }
    }
}

/// The `i`-th point of a flat coordinate list.
pub open spec fn point_at(s: Seq<u32>, i: int) -> (u32, u32) {
    (s[2 * i], s[2 * i + 1])
}

/// Row of pixel `p` lies below `h` when `p` lies in a `w` by `h` image.
proof fn lemma_row_in_range(w: int, h: int, p: int)
    requires
        w >= 1,
        0 <= p < w * h,
    ensures
        0 <= p / w < h,
        0 <= p % w < w,
{
    lemma_fundamental_div_mod(p, w);
    if p / w >= h {
        assert(w * (p / w) >= w * h) by (nonlinear_arith)
            requires p / w >= h, w >= 1;
    }
}

/// Coordinates of the pixels of an RGBA edge mask whose red channel exceeds
/// `EDGE_LEVEL`, as flat pairs `[x0, y0, x1, y1, ...]` in row-major order.
pub fn extract_contour_points(data: &Vec<u8>, width: u32, height: u32) -> (r: Result<
    Vec<u32>,
    ImageError,
>)
    ensures
        r.is_ok() <==> valid_image(data@.len() as int, width as int, height as int),
        r.is_err() ==> r == Err::<Vec<u32>, ImageError>(ImageError::InvalidInput),
        r.is_ok() ==> r.unwrap()@ == edge_points(data@, width as int, EDGE_LEVEL as int, width * height),
{
    extract_points_above(data, width, height, EDGE_LEVEL)
}

/// Coordinates of the pixels of an RGBA mask whose red channel exceeds `level`,
/// as flat pairs `[x0, y0, x1, y1, ...]` in row-major order.
pub fn extract_points_above(data: &Vec<u8>, width: u32, height: u32, level: u8) -> (r: Result<
    Vec<u32>,
    ImageError,
>)
    ensures
        r.is_ok() <==> valid_image(data@.len() as int, width as int, height as int),
        r.is_err() ==> r == Err::<Vec<u32>, ImageError>(ImageError::InvalidInput),
        r.is_ok() ==> r.unwrap()@ == edge_points(data@, width as int, level as int, width * height),
{
    if !check_image(data.len(), width, height) {
        return Err(ImageError::InvalidInput);
    }
    let w = width as usize;
    let len = data.len();
    let npix = len / 4;
    assert(npix == width * height);
    let mut points: Vec<u32> = Vec::new();
    let mut p: usize = 0;
    while p < npix
        invariant
            len == data@.len(),
            npix == width * height,
            width >= 1,
            w == width,
            len == npix * 4,
            p <= npix,
            points@ == edge_points(data@, w as int, level as int, p as int),
        decreases npix - p,
    {
        proof {
            lemma_row_in_range(w as int, height as int, p as int);
        }
        if data[4 * p] > level {
            points.push((p % w) as u32);
            points.push((p / w) as u32);
        }
        p = p + 1;
    }
    Ok(points)
}

/// A mask with no byte set yields no edge point.
pub proof fn lemma_blank_mask_has_no_points(d: Seq<u8>, w: int, level: int, k: int)
    requires
        0 <= k,
        0 <= level,
        4 * k <= d.len(),
        forall|i: int| 0 <= i < d.len() ==> d[i] == 0,
    ensures
        edge_points(d, w, level, k) == Seq::<u32>::empty(),
    decreases k,
{
    if k > 0 {
        lemma_blank_mask_has_no_points(d, w, level, k - 1);
    }
}

/// A mask with every byte at 255 yields every pixel, in row-major order.
pub proof fn lemma_full_mask_has_every_point(d: Seq<u8>, w: int, level: int, k: int)
    requires
        0 <= k,
        w >= 1,
        level < 255,
        4 * k <= d.len(),
        forall|i: int| 0 <= i < d.len() ==> d[i] == 255,
    ensures
        edge_points(d, w, level, k).len() == 2 * k,
        forall|i: int|
            0 <= i < k ==> #[trigger] point_at(edge_points(d, w, level, k), i) == ((i % w) as u32, (i
                / w) as u32),
    decreases k,
{
    if k > 0 {
        lemma_full_mask_has_every_point(d, w, level, k - 1);
        let prev = edge_points(d, w, level, k - 1);
        let cur = edge_points(d, w, level, k);
        assert(d[4 * (k - 1)] == 255);
        assert(cur == prev + seq![((k - 1) % w) as u32, ((k - 1) / w) as u32]);
        assert forall|i: int| 0 <= i < k implies #[trigger] point_at(cur, i) == ((i % w) as u32, (i
            / w) as u32) by {
            if i < k - 1 {
                assert(point_at(prev, i) == ((i % w) as u32, (i / w) as u32));
                assert(cur[2 * i] == prev[2 * i]);
                assert(cur[2 * i + 1] == prev[2 * i + 1]);
            }
        }
    }
}

/// Scanning a blank valid image finds nothing; scanning a full one finds all
/// `width * height` pixels, row by row.
pub proof fn lemma_extract_blank_and_full(d: Seq<u8>, width: int, height: int)
    requires
        valid_image(d.len() as int, width, height),
    ensures
        (forall|i: int| 0 <= i < d.len() ==> d[i] == 0) ==> edge_points(d, width, EDGE_LEVEL as int, width * height)
            == Seq::<u32>::empty(),
        (forall|i: int| 0 <= i < d.len() ==> d[i] == 255) ==> {
            &&& edge_points(d, width, EDGE_LEVEL as int, width * height).len() == 2 * (width * height)
            &&& forall|i: int|
                0 <= i < width * height ==> #[trigger] point_at(
                    edge_points(d, width, EDGE_LEVEL as int, width * height),
                    i,
                ) == ((i % width) as u32, (i / width) as u32)
        },
{
    assert(width * height >= 0) by (nonlinear_arith)
        requires width >= 1, height >= 1;
    if forall|i: int| 0 <= i < d.len() ==> d[i] == 0 {
        lemma_blank_mask_has_no_points(d, width, EDGE_LEVEL as int, width * height);
    }
    if forall|i: int| 0 <= i < d.len() ==> d[i] == 255 {
        lemma_full_mask_has_every_point(d, width, EDGE_LEVEL as int, width * height);
    }
}

} // verus!
