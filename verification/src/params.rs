use vstd::prelude::*;

verus! {

/// Why a segmentation is refused before any work is done.
#[derive(Clone, Copy, Debug, PartialEq, Eq, Structural)]
pub enum SegmentError {
    /// The image has no pixels, the segment count is zero or above the number
    /// of pixels, or the compactness is not above zero.
    InvalidParameter,
    /// The image has more pixels than there are labels.
    ImageTooLarge,
}

/// The largest number of pixels of an image: every pixel may end up with a
/// label of its own, and a label is a signed number of 32 bits.
pub const MAX_PIXELS: usize = 0x7fff_ffff;

/// The bit pattern of positive infinity in single precision.
pub const INFINITY_BITS: u32 = 0x7f80_0000;

/// Whether `bits` is the bit pattern of a single-precision number above zero:
/// the sign bit is clear, the number is not zero and it is not a NaN.
pub open spec fn positive_bits(bits: u32) -> bool {
    0 < bits <= INFINITY_BITS
}

/// The parameters that a segmentation accepts: an image of at least one
/// pixel, at least one segment and at most one for each pixel, and a
/// compactness above zero.
pub open spec fn valid_parameters(
    width: int,
    height: int,
    segment_count: int,
    compactness_bits: u32,
) -> bool {
    &&& width >= 1
    &&& height >= 1
    &&& 1 <= segment_count <= width * height
    &&& positive_bits(compactness_bits)
}

/// Tells whether the image has more than `MAX_PIXELS` pixels.
fn too_large(width: usize, height: usize) -> (large: bool)
    requires
        width >= 1,
        height >= 1,
    ensures
        large <==> width * height > MAX_PIXELS,
{
    let most: usize = MAX_PIXELS / height;
    proof {
        let w = width as int;
        let h = height as int;
        let m = most as int;
        let p = MAX_PIXELS as int;
        assert(m * h <= p < (m + 1) * h) by (nonlinear_arith)
            requires
                h >= 1,
                p >= 0,
                m == p / h,
        ;
        if w > m {
            assert(w * h >= (m + 1) * h) by (nonlinear_arith)
                requires
                    w >= m + 1,
                    h >= 1,
            ;
        } else {
            assert(w * h <= m * h) by (nonlinear_arith)
                requires
                    0 <= w <= m,
                    h >= 1,
            ;
        }
    }
    width > most
}

/// Tells whether `segment_count` is above the number of pixels.
fn above_area(width: usize, height: usize, segment_count: usize) -> (above: bool)
    requires
        width >= 1,
        height >= 1,
    ensures
        above <==> segment_count > width * height,
{
    let rows: usize = segment_count / height;
    let rest: usize = segment_count % height;
    proof {
        let w = width as int;
        let h = height as int;
        let q = rows as int;
        let r = rest as int;
        let c = segment_count as int;
        assert(c == q * h + r && 0 <= r < h) by (nonlinear_arith)
            requires
                h >= 1,
                c >= 0,
                q == c / h,
                r == c % h,
        ;
        if q > w {
            assert(q * h >= (w + 1) * h) by (nonlinear_arith)
                requires
                    q >= w + 1,
                    h >= 1,
            ;
            assert((w + 1) * h == w * h + h) by (nonlinear_arith);
        } else if q < w {
            assert(q * h + h <= w * h) by (nonlinear_arith)
                requires
                    0 <= q,
                    q + 1 <= w,
                    h >= 1,
            ;
        }
    }
    rows > width || (rows == width && rest > 0)
}

/// Tells whether an image of the given size has exactly `count` pixels.
pub fn has_area(width: usize, height: usize, count: usize) -> (exact: bool)
    ensures
        exact <==> count == width * height,
{
    if width == 0 || height == 0 {
        proof {
            assert(width * height == 0) by (nonlinear_arith)
                requires
                    width == 0 || height == 0,
            ;
        }
        return count == 0;
    }
    let rows: usize = count / height;
    let rest: usize = count % height;
    proof {
        let w = width as int;
        let h = height as int;
        let q = rows as int;
        let r = rest as int;
        let c = count as int;
        assert(c == q * h + r && 0 <= r < h) by (nonlinear_arith)
            requires
                h >= 1,
                c >= 0,
                q == c / h,
                r == c % h,
        ;
        if q > w {
            assert(q * h >= w * h + h) by (nonlinear_arith)
                requires
                    q >= w + 1,
                    h >= 1,
            ;
        } else if q < w {
            assert(q * h + h <= w * h) by (nonlinear_arith)
                requires
                    0 <= q,
                    q + 1 <= w,
                    h >= 1,
            ;
        }
    }
    rows == width && rest == 0
}

/// Checks the parameters of a segmentation before any work is done.
/// `compactness_bits` is the bit pattern of the compactness, a
/// single-precision number.
pub fn check_parameters(
    width: usize,
    height: usize,
    segment_count: usize,
    compactness_bits: u32,
) -> (checked: Result<(), SegmentError>)
    ensures
        checked == Err::<(), SegmentError>(SegmentError::InvalidParameter) <==> !valid_parameters(
            width as int,
            height as int,
            segment_count as int,
            compactness_bits,
        ),
        checked == Err::<(), SegmentError>(SegmentError::ImageTooLarge) <==> valid_parameters(
            width as int,
            height as int,
            segment_count as int,
            compactness_bits,
        ) && width * height > MAX_PIXELS,
        checked is Ok <==> valid_parameters(
            width as int,
            height as int,
            segment_count as int,
            compactness_bits,
        ) && width * height <= MAX_PIXELS,
{
    if width == 0 || height == 0 || segment_count == 0 {
        proof {
            if width >= 1 && height >= 1 {
                assert(width * height >= 1) by (nonlinear_arith)
                    requires
                        width >= 1,
                        height >= 1,
                ;
            }
        }
        return Err(SegmentError::InvalidParameter);
    }
    if compactness_bits == 0 || compactness_bits > INFINITY_BITS {
        return Err(SegmentError::InvalidParameter);
    }
    if above_area(width, height, segment_count) {
        return Err(SegmentError::InvalidParameter);
    }
    if too_large(width, height) {
        return Err(SegmentError::ImageTooLarge);
    }
    Ok(())
}

} // verus!
