use crate::boundary::{mark_boundaries, marked};
use crate::connectivity::{
    enforce_connectivity, max_region, min_region, relabelled, same_regions, sizes_within,
};
use crate::grid::Vec2d;
use crate::params::{has_area, SegmentError, MAX_PIXELS};
use crate::region::connected;
use vstd::prelude::*;

verus! {

/// What `outline` asks of its arguments: one label for each pixel, at least
/// one segment, and four bytes for each pixel.
pub open spec fn fitting(labels: Vec2d<i32>, segment_count: int, bytes: int) -> bool {
    &&& labels.wf()
    &&& segment_count >= 1
    &&& bytes == 4 * labels.vec@.len()
}

/// The second half of a segmentation. The labels as the clustering left
/// them are made into connected regions, and `pixels_rgb`, four bytes a pixel,
/// row after row, becomes the overlay of the boundaries between the regions.
/// The regions are handed back.
///
/// Arguments that do not fit each other are refused with `InvalidParameter`,
/// an image of more than `MAX_PIXELS` pixels with `ImageTooLarge`; the buffer
/// is then left as it was.
pub fn outline(labels: Vec2d<i32>, segment_count: usize, pixels_rgb: &mut Vec<u8>) -> (done: Result<
    Vec2d<i32>,
    SegmentError,
>)
    ensures
        done == Err::<Vec2d<i32>, SegmentError>(SegmentError::InvalidParameter) <==> !fitting(
            labels,
            segment_count as int,
            old(pixels_rgb)@.len() as int,
        ),
        done == Err::<Vec2d<i32>, SegmentError>(SegmentError::ImageTooLarge) <==> fitting(
            labels,
            segment_count as int,
            old(pixels_rgb)@.len() as int,
        ) && labels.vec@.len() > MAX_PIXELS,
        done is Err ==> final(pixels_rgb)@ == old(pixels_rgb)@,
        done matches Ok(segments) ==> {
            &&& segments.wf()
            &&& segments@ == relabelled(
                labels@,
                min_region(labels@.cells.len() as int, segment_count as int),
                max_region(labels@.cells.len() as int, segment_count as int),
            )
            &&& connected(segments@)
            &&& connected(labels@) && sizes_within(
                labels@,
                min_region(labels@.cells.len() as int, segment_count as int),
                max_region(labels@.cells.len() as int, segment_count as int),
            ) ==> same_regions(labels@, segments@)
            &&& final(pixels_rgb)@.len() == old(pixels_rgb)@.len()
            &&& forall|x: int, y: int|
                segments@.inside(x, y) ==> #[trigger] marked(
                    old(pixels_rgb)@,
                    final(pixels_rgb)@,
                    segments@,
                    x,
                    y,
                )
        },
{
    let count: usize = labels.vec.len();
    let bytes: usize = pixels_rgb.len();
    if segment_count == 0 || !has_area(labels.width, labels.height, count) {
        return Err(SegmentError::InvalidParameter);
    }
    if bytes / 4 != count || bytes % 4 != 0 {
        return Err(SegmentError::InvalidParameter);
    }
    if count > MAX_PIXELS {
        return Err(SegmentError::ImageTooLarge);
    }
    let segments = enforce_connectivity(labels, segment_count);
    mark_boundaries(pixels_rgb, &segments);
    Ok(segments)
}

} // verus!
