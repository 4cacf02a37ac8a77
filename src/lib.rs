use vstd::prelude::*;

pub mod bmp;
pub mod contours;
pub mod edges;
pub mod simplify;

verus! {

/// Sum of two integers.
pub fn add(a: i32, b: i32) -> (r: i32)
    requires
        i32::MIN <= a + b <= i32::MAX,
    ensures
        r == a + b,
{
    a + b
}

/// Perceptual luminance of the RGBA pixel that byte `i` belongs to:
/// `0.299 R + 0.587 G + 0.114 B`, rounded to the nearest integer, halves up.
pub open spec fn weighted_gray(d: Seq<u8>, i: int) -> int {
    let p = i - i % 4;
    (299 * d[p] + 587 * d[p + 1] + 114 * d[p + 2] + 500) / 1000
}

/// Replaces R, G and B of every RGBA pixel by its rounded perceptual luminance;
/// alpha is left as it was.
pub fn grayscale(data: &mut Vec<u8>)
    requires
        old(data)@.len() % 4 == 0,
    ensures
        final(data)@.len() == old(data)@.len(),
        forall|i: int|
            0 <= i < old(data)@.len() ==> #[trigger] final(data)@[i] as int == if i % 4 == 3 {
                old(data)@[i] as int
            } else {
                weighted_gray(old(data)@, i)
            },
{
    let ghost orig = data@;
    let len = data.len();
    let mut i: usize = 0;
    while i < len
        invariant
            i % 4 == 0,
            i <= len,
            len == orig.len(),
            len % 4 == 0,
            orig == old(data)@,
            data@.len() == len,
            forall|j: int|
                0 <= j < i ==> #[trigger] data@[j] as int == if j % 4 == 3 {
                    orig[j] as int
                } else {
                    weighted_gray(orig, j)
                },
            forall|j: int| i <= j < len ==> data@[j] == orig[j],
        decreases len - i,
    {
        let r = data[i] as u32;
        let g = data[i + 1] as u32;
        let b = data[i + 2] as u32;
        let gray = ((299 * r + 587 * g + 114 * b + 500) / 1000) as u8;
        data.set(i, gray);
        data.set(i + 1, gray);
        data.set(i + 2, gray);
        assert(weighted_gray(orig, i as int) == gray as int);
        assert(weighted_gray(orig, i + 1) == gray as int);
        assert(weighted_gray(orig, i + 2) == gray as int);
        i = i + 4;
    }
}

} // verus!
