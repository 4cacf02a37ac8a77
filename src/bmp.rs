use vstd::prelude::*;

verus! {

/// A decoded 24-bit bitmap: `data` holds the pixels top-down, row-major, three
/// bytes (R, G, B) per pixel; `header` holds the file's bytes before the pixel
/// array, kept verbatim so that the image can be written back.
pub struct BMPImage {
    pub width: usize,
    pub height: usize,
    pub data: Vec<u8>,
    pub header: Vec<u8>,
    pub pixel_offset: usize,
}

/// Plain average of the three channels of the pixel that byte `i` belongs to.
pub open spec fn gray_of(d: Seq<u8>, i: int) -> int {
    let p = i - i % 3;
    (d[p] + d[p + 1] + d[p + 2]) / 3
}

/// Replaces each pixel by the unweighted average of its R, G and B values.
pub fn grayscale(img: &mut BMPImage)
    requires
        old(img).data@.len() % 3 == 0,
    ensures
        final(img).width == old(img).width,
        final(img).height == old(img).height,
        final(img).header@ == old(img).header@,
        final(img).pixel_offset == old(img).pixel_offset,
        final(img).data@.len() == old(img).data@.len(),
        forall|i: int|
            0 <= i < old(img).data@.len() ==> final(img).data@[i] as int == #[trigger] gray_of(
                old(img).data@,
                i,
            ),
{
    let ghost orig = img.data@;
    let len = img.data.len();
    let mut i: usize = 0;
    while i < len
        invariant
            i % 3 == 0,
            i <= len,
            len == orig.len(),
            len % 3 == 0,
            img.data@.len() == len,
            img.width == old(img).width,
            img.height == old(img).height,
            img.header@ == old(img).header@,
            img.pixel_offset == old(img).pixel_offset,
            orig == old(img).data@,
            forall|j: int| 0 <= j < i ==> img.data@[j] as int == #[trigger] gray_of(orig, j),
            forall|j: int| i <= j < len ==> img.data@[j] == orig[j],
        decreases len - i,
    {
        let r = img.data[i] as u16;
        let g = img.data[i + 1] as u16;
        let b = img.data[i + 2] as u16;
        let gray = ((r + g + b) / 3) as u8;
        img.data.set(i, gray);
        img.data.set(i + 1, gray);
        img.data.set(i + 2, gray);
        assert(gray_of(orig, i as int) == gray as int);
        assert(gray_of(orig, i + 1) == gray as int);
        assert(gray_of(orig, i + 2) == gray as int);
        i = i + 3;
    }
}

/// Replaces every byte `v` of the pixel data by `255 - v`.
pub fn invert(img: &mut BMPImage)
    ensures
        final(img).width == old(img).width,
        final(img).height == old(img).height,
        final(img).header@ == old(img).header@,
        final(img).pixel_offset == old(img).pixel_offset,
        final(img).data@.len() == old(img).data@.len(),
        forall|i: int|
            0 <= i < old(img).data@.len() ==> #[trigger] final(img).data@[i] == 255 - old(
                img,
            ).data@[i],
{
    let len = img.data.len();
    let mut i: usize = 0;
    while i < len
        invariant
            i <= len,
            img.data@.len() == len,
            len == old(img).data@.len(),
            img.width == old(img).width,
            img.height == old(img).height,
            img.header@ == old(img).header@,
            img.pixel_offset == old(img).pixel_offset,
            forall|j: int| 0 <= j < i ==> #[trigger] img.data@[j] == 255 - old(img).data@[j],
            forall|j: int| i <= j < len ==> img.data@[j] == old(img).data@[j],
        decreases len - i,
    {
        let v = img.data[i];
        img.data.set(i, 255 - v);
        i = i + 1;
    }
}

/// Why a byte string is not a readable bitmap.
#[derive(Debug, Clone, Copy, PartialEq, Eq, Structural)]
pub enum BmpError {
    /// The file does not start with the signature `BM`.
    NotBmp,
    /// The file ends before its header or pixel array does.
    Truncated,
    /// The pixels are not 24 bits each.
    Unsupported,
    /// A dimension is negative, or the pixels do not fit in memory.
    TooLarge,
}

/// Little-endian 16-bit value at `i`.
pub open spec fn le16(b: Seq<u8>, i: int) -> int {
    b[i] + 256 * b[i + 1]
}

/// Little-endian 32-bit value at `i`.
pub open spec fn le32(b: Seq<u8>, i: int) -> int {
    b[i] + 256 * b[i + 1] + 65536 * b[i + 2] + 16777216 * b[i + 3]
}

/// Bytes per stored row: three per pixel, padded to a multiple of four.
pub open spec fn row_stride(w: int) -> int {
    3 * w + (4 - (3 * w) % 4) % 4
}

/// The file's pixel array ends within `len` bytes (the last row needs no padding).
pub open spec fn pixels_fit(len: int, off: int, w: int, h: int) -> bool {
    off <= len && (w == 0 || h == 0 || off + (h - 1) * row_stride(w) + 3 * w <= len)
}

/// Byte `c` (R, G, B) of pixel `x` in top-down row `y` of a decoded image: the
/// file stores rows bottom-up, each pixel as B, G, R.
pub open spec fn file_byte(b: Seq<u8>, off: int, w: int, h: int, y: int, x: int, c: int) -> u8 {
    b[off + (h - 1 - y) * row_stride(w) + 3 * x + (2 - c)]
}

/// The file starts with the signature `BM`.
pub open spec fn has_magic(b: Seq<u8>) -> bool {
    b.len() >= 2 && b[0] == 66 && b[1] == 77
}

/// Width and height are non-negative as 32-bit signed values, and the pixels fit
/// in memory.
pub open spec fn dims_fit(b: Seq<u8>) -> bool {
    let w = le32(b, 18);
    let h = le32(b, 22);
    w < 0x8000_0000 && h < 0x8000_0000 && w * h * 3 <= usize::MAX
}

/// A 24-bit bitmap with non-negative dimensions whose pixels fit in memory and
/// whose pixel array lies within the file.
pub open spec fn readable_bmp(b: Seq<u8>) -> bool {
    let off = le32(b, 10);
    let w = le32(b, 18);
    let h = le32(b, 22);
    &&& b.len() >= 30 && b[0] == 66 && b[1] == 77
    &&& le16(b, 28) == 24
    &&& w < 0x8000_0000 && h < 0x8000_0000 && w * h * 3 <= usize::MAX
    &&& pixels_fit(b.len() as int, off, w, h)
}

fn read_le32(b: &Vec<u8>, i: usize) -> (r: u64)
    requires
        i + 4 <= b@.len(),
    ensures
        r == le32(b@, i as int),
{
    let _n = b.len();
    b[i] as u64 + 256 * (b[i + 1] as u64) + 65536 * (b[i + 2] as u64) + 16777216 * (b[i + 3] as u64)
}

proof fn lemma_mul_le(a: int, b: int, c: int)
    requires
        0 <= a <= b,
        0 <= c,
    ensures
        a * c <= b * c,
{
    assert(a * c <= b * c) by (nonlinear_arith)
        requires 0 <= a <= b, 0 <= c;
}

/// Decodes a 24-bit uncompressed bitmap file into top-down RGB pixels, keeping
/// the bytes before the pixel array as the header.
pub fn decode_bmp(bytes: &Vec<u8>) -> (r: Result<BMPImage, BmpError>)
    ensures
        (bytes@.len() < 2 || bytes@[0] != 66 || bytes@[1] != 77) <==> r == Err::<BMPImage, BmpError>(
            BmpError::NotBmp,
        ),
        r is Ok <==> readable_bmp(bytes@),
        r == Err::<BMPImage, BmpError>(BmpError::Unsupported) <==> has_magic(bytes@) && bytes@.len()
            >= 30 && le16(bytes@, 28) != 24,
        r == Err::<BMPImage, BmpError>(BmpError::TooLarge) <==> has_magic(bytes@) && bytes@.len()
            >= 30 && le16(bytes@, 28) == 24 && !dims_fit(bytes@),
        r == Err::<BMPImage, BmpError>(BmpError::Truncated) <==> has_magic(bytes@) && (bytes@.len()
            < 30 || (le16(bytes@, 28) == 24 && dims_fit(bytes@) && !pixels_fit(
            bytes@.len() as int,
            le32(bytes@, 10),
            le32(bytes@, 18),
            le32(bytes@, 22),
        ))),
        r is Ok ==> r.unwrap().width == le32(bytes@, 18) && r.unwrap().height == le32(bytes@, 22)
            && r.unwrap().pixel_offset == le32(bytes@, 10),
        r is Ok ==> r.unwrap().header@ == bytes@.subrange(0, le32(bytes@, 10)),
        r is Ok ==> r.unwrap().data@.len() == le32(bytes@, 18) * le32(bytes@, 22) * 3,
        r is Ok ==> forall|y: int, x: int, c: int|
            0 <= y < le32(bytes@, 22) && 0 <= x < le32(bytes@, 18) && 0 <= c < 3
                ==> r.unwrap().data@[(y * le32(bytes@, 18) + x) * 3 + c] == #[trigger] file_byte(
                bytes@,
                le32(bytes@, 10),
                le32(bytes@, 18),
                le32(bytes@, 22),
                y,
                x,
                c,
            ),
{
    let len = bytes.len();
    if len < 2 || bytes[0] != 66 || bytes[1] != 77 {
        return Err(BmpError::NotBmp);
    }
    if len < 30 {
        return Err(BmpError::Truncated);
    }
    let off64 = read_le32(bytes, 10);
    let w64 = read_le32(bytes, 18);
    let h64 = read_le32(bytes, 22);
    let bpp = bytes[28] as u32 + 256 * (bytes[29] as u32);
    if bpp != 24 {
        return Err(BmpError::Unsupported);
    }
    if w64 >= 0x8000_0000 || h64 >= 0x8000_0000 {
        return Err(BmpError::TooLarge);
    }
    let w128 = w64 as u128;
    let h128 = h64 as u128;
    assert(w128 * h128 <= 0x8000_0000 * 0x8000_0000) by (nonlinear_arith)
        requires w128 < 0x8000_0000, h128 < 0x8000_0000;
    if w128 * h128 * 3 > usize::MAX as u128 {
        return Err(BmpError::TooLarge);
    }
    if off64 > len as u64 {
        return Err(BmpError::Truncated);
    }
    let off = off64 as usize;
    let width = w64 as usize;
    let height = h64 as usize;
    let ghost w = width as int;
    let ghost h = height as int;
    let row_bytes = w128 * 3;
    let stride = row_bytes + (4 - row_bytes % 4) % 4;
    if width > 0 && height > 0 {
        let s128 = stride;
        assert((h128 - 1) * s128 <= 0x8000_0000 * 0x2_0000_0000) by (nonlinear_arith)
            requires h128 < 0x8000_0000, s128 < 0x2_0000_0000, h128 >= 1;
        if off as u128 + (h128 - 1) * s128 + 3 * w128 > len as u128 {
            return Err(BmpError::Truncated);
        }
    }
    let mut header: Vec<u8> = Vec::new();
    let mut i: usize = 0;
    while i < off
        invariant
            off <= len,
            len == bytes@.len(),
            i <= off,
            header@ == bytes@.subrange(0, i as int),
        decreases off - i,
    {
        header.push(bytes[i]);
        i = i + 1;
        assert(header@ =~= bytes@.subrange(0, i as int));
    }
    let mut data: Vec<u8> = Vec::new();
    let mut y: usize = 0;
    while y < height
        invariant
            len == bytes@.len(),
            w == width,
            h == height,
            stride == row_stride(w),
            w * h * 3 <= usize::MAX,
            width < 0x8000_0000,
            height < 0x8000_0000,
            stride < 0x2_0000_0000,
            pixels_fit(len as int, off as int, w, h),
            y <= height,
            data@.len() == y * w * 3,
            forall|yy: int, x: int, c: int|
                0 <= yy < y && 0 <= x < w && 0 <= c < 3 ==> data@[(yy * w + x) * 3 + c]
                    == #[trigger] file_byte(bytes@, off as int, w, h, yy, x, c),
        decreases height - y,
    {
        let src_y = height - 1 - y;
        proof {
            lemma_mul_le(src_y as int, h - 1, stride as int);
            lemma_mul_le(y as int + 1, h, w);
            lemma_mul_le(y as int, h - 1, w);
        }
        assert(src_y * stride <= 0x8000_0000 * 0x2_0000_0000) by (nonlinear_arith)
            requires src_y < 0x8000_0000, stride < 0x2_0000_0000;
        let row_start = (off as u128 + src_y as u128 * stride) as usize;
        let mut x: usize = 0;
        while x < width
            invariant
                len == bytes@.len(),
                w == width,
                h == height,
                y < height,
                src_y == h - 1 - y,
                stride == row_stride(w),
                row_start == off + src_y * stride,
                off + (h - 1) * stride + 3 * w <= len,
                src_y * stride <= (h - 1) * stride,
                (y + 1) * w <= h * w,
                w * h * 3 <= usize::MAX,
                x <= width,
                data@.len() == (y * w + x) * 3,
                forall|yy: int, xx: int, c: int|
                    0 <= yy < y && 0 <= xx < w && 0 <= c < 3 ==> data@[(yy * w + xx) * 3 + c]
                        == #[trigger] file_byte(bytes@, off as int, w, h, yy, xx, c),
                forall|xx: int, c: int|
                    0 <= xx < x && 0 <= c < 3 ==> data@[(y * w + xx) * 3 + c]
                        == #[trigger] file_byte(bytes@, off as int, w, h, y as int, xx, c),
            decreases width - x,
        {
            let at = row_start + 3 * x;
            let ghost before = data@;
            data.push(bytes[at + 2]);
            data.push(bytes[at + 1]);
            data.push(bytes[at]);
            proof {
                assert forall|yy: int, xx: int, c: int|
                    0 <= yy < y && 0 <= xx < w && 0 <= c < 3 implies data@[(yy * w + xx) * 3 + c]
                    == #[trigger] file_byte(bytes@, off as int, w, h, yy, xx, c) by {
                    lemma_mul_le(yy + 1, y as int, w);
                    assert((yy + 1) * w == yy * w + w) by (nonlinear_arith);
                    assert(data@[(yy * w + xx) * 3 + c] == before[(yy * w + xx) * 3 + c]);
                }
                assert(y * w + x + 1 <= y * w + w);
                assert forall|xx: int, c: int|
                    0 <= xx < x + 1 && 0 <= c < 3 implies data@[(y * w + xx) * 3 + c]
                    == #[trigger] file_byte(bytes@, off as int, w, h, y as int, xx, c) by {
                    if xx < x {
                        assert(data@[(y * w + xx) * 3 + c] == before[(y * w + xx) * 3 + c]);
                    }
                }
            }
            x = x + 1;
        }
        proof {
            assert((y + 1) * w == y * w + w) by (nonlinear_arith);
            assert((y * w + w) * 3 == (y + 1) * w * 3) by (nonlinear_arith)
                requires (y + 1) * w == y * w + w;
        }
        y = y + 1;
    }
    assert(h * w * 3 == w * h * 3) by (nonlinear_arith);
    Ok(BMPImage { width, height, data, header, pixel_offset: off })
}

/// Encodes an image as a bitmap file: its header verbatim, then the rows
/// bottom-up, each pixel as B, G, R, each row padded with zeros to a multiple of
/// four bytes. Pixel bytes past `width * height * 3` are not written.
pub fn encode_bmp(img: &BMPImage) -> (r: Vec<u8>)
    requires
        img.data@.len() >= img.width * img.height * 3,
        img.header@.len() + img.height * row_stride(img.width as int) <= usize::MAX,
    ensures
        r@.len() == img.header@.len() + img.height * row_stride(img.width as int),
        r@.subrange(0, img.header@.len() as int) == img.header@,
        forall|fy: int, x: int, c: int|
            0 <= fy < img.height && 0 <= x < img.width && 0 <= c < 3 ==> r@[img.header@.len() + fy
                * row_stride(img.width as int) + 3 * x + c] == #[trigger] img.data@[((img.height - 1
                - fy) * img.width + x) * 3 + (2 - c)],
        forall|fy: int, k: int|
            0 <= fy < img.height && 3 * img.width <= k < row_stride(img.width as int) ==> #[trigger] r@[img.header@.len()
                + fy * row_stride(img.width as int) + k] == 0,
{
    let w = img.width;
    let h = img.height;
    let hl = img.header.len();
    let dl = img.data.len();
    let ghost st = row_stride(w as int);
    let mut out: Vec<u8> = Vec::new();
    let mut i: usize = 0;
    while i < hl
        invariant
            hl == img.header@.len(),
            i <= hl,
            out@ == img.header@.subrange(0, i as int),
        decreases hl - i,
    {
        out.push(img.header[i]);
        i = i + 1;
        assert(out@ =~= img.header@.subrange(0, i as int));
    }
    if h == 0 {
        assert(h * st == 0) by (nonlinear_arith)
            requires h == 0;
        return out;
    }
    proof {
        lemma_mul_le(1, h as int, st);
        assert(w * 3 <= st);
    }
    let row_bytes = w * 3;
    let padding = (4 - row_bytes % 4) % 4;
    let mut fy: usize = 0;
    while fy < h
        invariant
            w == img.width,
            h == img.height,
            h >= 1,
            hl == img.header@.len(),
            st == row_stride(w as int),
            row_bytes == 3 * w,
            row_bytes + padding == st,
            img.data@.len() >= w * h * 3,
            dl == img.data@.len(),
            hl + h * st <= usize::MAX,
            fy <= h,
            out@.len() == hl + fy * st,
            out@.subrange(0, hl as int) == img.header@,
            forall|yy: int, x: int, c: int|
                0 <= yy < fy && 0 <= x < w && 0 <= c < 3 ==> out@[hl + yy * st + 3 * x + c]
                    == #[trigger] img.data@[((h - 1 - yy) * w + x) * 3 + (2 - c)],
            forall|yy: int, k: int|
                0 <= yy < fy && 3 * w <= k < st ==> #[trigger] out@[hl + yy * st + k] == 0,
        decreases h - fy,
    {
        let src_y = h - 1 - fy;
        proof {
            lemma_mul_le(fy as int + 1, h as int, st);
            assert((fy + 1) * st == fy * st + st) by (nonlinear_arith);
            lemma_mul_le(src_y as int + 1, h as int, w as int);
            assert((src_y + 1) * w == src_y * w + w) by (nonlinear_arith);
            assert(h * w == w * h) by (nonlinear_arith);
        }
        let base = src_y * w;
        let mut x: usize = 0;
        while x < w
            invariant
                w == img.width,
                h == img.height,
                hl == img.header@.len(),
                st == row_stride(w as int),
                row_bytes == 3 * w,
                row_bytes + padding == st,
                img.data@.len() >= w * h * 3,
                dl == img.data@.len(),
                fy < h,
                src_y == h - 1 - fy,
                base == src_y * w,
                base + w <= w * h,
                hl + (fy + 1) * st <= usize::MAX,
                (fy + 1) * st == fy * st + st,
                x <= w,
                out@.len() == hl + fy * st + 3 * x,
                out@.subrange(0, hl as int) == img.header@,
                forall|yy: int, xx: int, c: int|
                    0 <= yy < fy && 0 <= xx < w && 0 <= c < 3 ==> out@[hl + yy * st + 3 * xx + c]
                        == #[trigger] img.data@[((h - 1 - yy) * w + xx) * 3 + (2 - c)],
                forall|yy: int, k: int|
                    0 <= yy < fy && 3 * w <= k < st ==> #[trigger] out@[hl + yy * st + k] == 0,
                forall|xx: int, c: int|
                    0 <= xx < x && 0 <= c < 3 ==> out@[hl + fy * st + 3 * xx + c]
                        == #[trigger] img.data@[((h - 1 - fy) * w + xx) * 3 + (2 - c)],
            decreases w - x,
        {
            let src = (base + x) * 3;
            let ghost before = out@;
            out.push(img.data[src + 2]);
            out.push(img.data[src + 1]);
            out.push(img.data[src]);
            proof {
                assert forall|yy: int, xx: int, c: int|
                    0 <= yy < fy && 0 <= xx < w && 0 <= c < 3 implies out@[hl + yy * st + 3 * xx + c]
                    == #[trigger] img.data@[((h - 1 - yy) * w + xx) * 3 + (2 - c)] by {
                    lemma_mul_le(yy + 1, fy as int, st);
                    assert((yy + 1) * st == yy * st + st) by (nonlinear_arith);
                    assert(out@[hl + yy * st + 3 * xx + c] == before[hl + yy * st + 3 * xx + c]);
                }
                assert forall|yy: int, k: int|
                    0 <= yy < fy && 3 * w <= k < st implies #[trigger] out@[hl + yy * st + k] == 0 by {
                    lemma_mul_le(yy + 1, fy as int, st);
                    assert((yy + 1) * st == yy * st + st) by (nonlinear_arith);
                    assert(out@[hl + yy * st + k] == before[hl + yy * st + k]);
                }
                assert forall|xx: int, c: int|
                    0 <= xx < x + 1 && 0 <= c < 3 implies out@[hl + fy * st + 3 * xx + c]
                    == #[trigger] img.data@[((h - 1 - fy) * w + xx) * 3 + (2 - c)] by {
                    if xx < x {
                        assert(out@[hl + fy * st + 3 * xx + c] == before[hl + fy * st + 3 * xx + c]);
                    }
                }
                assert(out@.subrange(0, hl as int) =~= before.subrange(0, hl as int));
            }
            x = x + 1;
        }
        let mut p: usize = 0;
        while p < padding
            invariant
                w == img.width,
                h == img.height,
                hl == img.header@.len(),
                st == row_stride(w as int),
                row_bytes == 3 * w,
                row_bytes + padding == st,
                fy < h,
                hl + (fy + 1) * st <= usize::MAX,
                (fy + 1) * st == fy * st + st,
                p <= padding,
                out@.len() == hl + fy * st + 3 * w + p,
                out@.subrange(0, hl as int) == img.header@,
                forall|yy: int, xx: int, c: int|
                    0 <= yy < fy + 1 && 0 <= xx < w && 0 <= c < 3 ==> out@[hl + yy * st + 3 * xx + c]
                        == #[trigger] img.data@[((h - 1 - yy) * w + xx) * 3 + (2 - c)],
                forall|yy: int, k: int|
                    0 <= yy < fy && 3 * w <= k < st ==> #[trigger] out@[hl + yy * st + k] == 0,
                forall|k: int| 3 * w <= k < 3 * w + p ==> #[trigger] out@[hl + fy * st + k] == 0,
            decreases padding - p,
        {
            let ghost before = out@;
            out.push(0);
            proof {
                assert forall|yy: int, xx: int, c: int|
                    0 <= yy < fy + 1 && 0 <= xx < w && 0 <= c < 3 implies out@[hl + yy * st + 3 * xx
                    + c] == #[trigger] img.data@[((h - 1 - yy) * w + xx) * 3 + (2 - c)] by {
                    lemma_mul_le(yy, fy as int, st);
                    assert(out@[hl + yy * st + 3 * xx + c] == before[hl + yy * st + 3 * xx + c]);
                }
                assert forall|yy: int, k: int|
                    0 <= yy < fy && 3 * w <= k < st implies #[trigger] out@[hl + yy * st + k] == 0 by {
                    lemma_mul_le(yy + 1, fy as int, st);
                    assert((yy + 1) * st == yy * st + st) by (nonlinear_arith);
                    assert(out@[hl + yy * st + k] == before[hl + yy * st + k]);
                }
                assert(out@.subrange(0, hl as int) =~= before.subrange(0, hl as int));
            }
            p = p + 1;
        }
        fy = fy + 1;
    }
    out
}

} // verus!
