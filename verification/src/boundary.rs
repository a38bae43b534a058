use crate::grid::{Grid, Vec2d};
use vstd::prelude::*;

verus! {

/// Red of the colour that marks a boundary.
pub const EDGE_RED: u8 = 92;

/// Green of the colour that marks a boundary.
pub const EDGE_GREEN: u8 = 66;

/// Blue of the colour that marks a boundary.
pub const EDGE_BLUE: u8 = 244;

/// Alpha of a boundary pixel: opaque.
pub const EDGE_ALPHA: u8 = 255;

/// Alpha of every other pixel: transparent.
pub const CLEAR_ALPHA: u8 = 0;

/// The cell in column `u` of row `v` lies outside the grid or carries another
/// label than the cell in column `x` of row `y`.
pub open spec fn differs(g: Grid<i32>, x: int, y: int, u: int, v: int) -> bool {
    !g.inside(u, v) || g.at(u, v) != g.at(x, y)
}

/// The cell lies on a boundary: the cell below, above, right or left of it
/// lies outside the grid or carries another label.
pub open spec fn is_edge(g: Grid<i32>, x: int, y: int) -> bool {
    ||| differs(g, x, y, x, y + 1)
    ||| differs(g, x, y, x, y - 1)
    ||| differs(g, x, y, x + 1, y)
    ||| differs(g, x, y, x - 1, y)
}

/// The four bytes of the pixel in column `x` of row `y` after marking: the
/// boundary colour, opaque, on a boundary; elsewhere the colour as before,
/// transparent.
pub open spec fn marked(before: Seq<u8>, after: Seq<u8>, g: Grid<i32>, x: int, y: int) -> bool {
    let base = 4 * g.offset(x, y);
    if is_edge(g, x, y) {
        &&& after[base] == EDGE_RED
        &&& after[base + 1] == EDGE_GREEN
        &&& after[base + 2] == EDGE_BLUE
        &&& after[base + 3] == EDGE_ALPHA
    } else {
        &&& after[base] == before[base]
        &&& after[base + 1] == before[base + 1]
        &&& after[base + 2] == before[base + 2]
        &&& after[base + 3] == CLEAR_ALPHA
    }
}

/// The four bytes of the pixel in column `x` of row `y` are the same in both buffers.
pub open spec fn same_pixel(before: Seq<u8>, after: Seq<u8>, g: Grid<i32>, x: int, y: int) -> bool {
    let base = 4 * g.offset(x, y);
    &&& after[base] == before[base]
    &&& after[base + 1] == before[base + 1]
    &&& after[base + 2] == before[base + 2]
    &&& after[base + 3] == before[base + 3]
}

/// In a grid with one label everywhere, the boundary is the rim of the grid:
/// a cell lies on a boundary exactly if it lies in the first or last column or
/// in the first or last row.
pub proof fn lemma_single_label_rim(g: Grid<i32>, x: int, y: int)
    requires
        g.wf(),
        g.inside(x, y),
        forall|u: int, v: int| g.inside(u, v) ==> #[trigger] g.at(u, v) == g.at(x, y),
    ensures
        is_edge(g, x, y) <==> (x == 0 || y == 0 || x == g.width - 1 || y == g.height - 1),
{
}

/// Tells whether the cell in column `x` of row `y` lies on a boundary.
pub fn on_boundary(segments: &Vec2d<i32>, x: usize, y: usize) -> (edge: bool)
    requires
        segments.wf(),
        segments@.inside(x as int, y as int),
    ensures
        edge == is_edge(segments@, x as int, y as int),
{
    let label: i32 = *segments.i(x, y);
    if y + 1 >= segments.height || *segments.i(x, y + 1) != label {
        return true;
    }
    if y == 0 || *segments.i(x, y - 1) != label {
        return true;
    }
    if x + 1 >= segments.width || *segments.i(x + 1, y) != label {
        return true;
    }
    x == 0 || *segments.i(x - 1, y) != label
}

/// Turns a buffer of four bytes a pixel, row after row, into an overlay of the
/// boundaries between the segments: a pixel on a boundary becomes the boundary
/// colour, opaque; every other pixel keeps its colour and becomes transparent.
pub fn mark_boundaries(pixels_rgb: &mut Vec<u8>, segments: &Vec2d<i32>)
    requires
        segments.wf(),
        old(pixels_rgb)@.len() == 4 * segments@.cells.len(),
    ensures
        final(pixels_rgb)@.len() == old(pixels_rgb)@.len(),
        forall|x: int, y: int|
            segments@.inside(x, y) ==> #[trigger] marked(
                old(pixels_rgb)@,
                final(pixels_rgb)@,
                segments@,
                x,
                y,
            ),
{
    let width: usize = segments.width;
    let height: usize = segments.height;
    let ghost g = segments@;
    let mut y: usize = 0;
    while y < height
        invariant
            segments.wf(),
            g == segments@,
            width == segments.width,
            height == segments.height,
            0 <= y <= height,
            pixels_rgb@.len() == old(pixels_rgb)@.len(),
            pixels_rgb@.len() == 4 * g.cells.len(),
            forall|u: int, v: int|
                g.inside(u, v) && v < y ==> #[trigger] marked(old(pixels_rgb)@, pixels_rgb@, g, u, v),
            forall|u: int, v: int|
                g.inside(u, v) && v >= y ==> #[trigger] same_pixel(
                    old(pixels_rgb)@,
                    pixels_rgb@,
                    g,
                    u,
                    v,
                ),
        decreases height - y,
    {
        let mut x: usize = 0;
        while x < width
            invariant
                segments.wf(),
                g == segments@,
                width == segments.width,
                height == segments.height,
                0 <= y < height,
                0 <= x <= width,
                pixels_rgb@.len() == old(pixels_rgb)@.len(),
                pixels_rgb@.len() == 4 * g.cells.len(),
                forall|u: int, v: int|
                    g.inside(u, v) && (v < y || (v == y && u < x)) ==> #[trigger] marked(
                        old(pixels_rgb)@,
                        pixels_rgb@,
                        g,
                        u,
                        v,
                    ),
                forall|u: int, v: int|
                    g.inside(u, v) && !(v < y || (v == y && u < x)) ==> #[trigger] same_pixel(
                        old(pixels_rgb)@,
                        pixels_rgb@,
                        g,
                        u,
                        v,
                    ),
            decreases width - x,
        {
            let edge: bool = on_boundary(segments, x, y);
            proof {
                g.lemma_offset(x as int, y as int);
            }
            let ghost before = pixels_rgb@;
            assert(same_pixel(old(pixels_rgb)@, before, g, x as int, y as int));
            let len: usize = pixels_rgb.len();
            let rgb_i: usize = (width * y + x) * 4;
            if edge {
                pixels_rgb[rgb_i] = EDGE_RED;
                pixels_rgb[rgb_i + 1] = EDGE_GREEN;
                pixels_rgb[rgb_i + 2] = EDGE_BLUE;
                pixels_rgb[rgb_i + 3] = EDGE_ALPHA;
            } else {
                pixels_rgb[rgb_i + 3] = CLEAR_ALPHA;
            }
            proof {
                assert forall|u: int, v: int| g.inside(u, v) && (u != x || v != y) implies same_pixel(
                    before,
                    pixels_rgb@,
                    g,
                    u,
                    v,
                ) by {
                    g.lemma_offset(u, v);
                    assert(g.offset(u, v) != g.offset(x as int, y as int));
                }
                assert forall|u: int, v: int|
                    g.inside(u, v) && (v < y || (v == y && u < x + 1)) implies #[trigger] marked(
                    old(pixels_rgb)@,
                    pixels_rgb@,
                    g,
                    u,
                    v,
                ) by {
                    if u != x || v != y {
                        assert(marked(old(pixels_rgb)@, before, g, u, v));
                        assert(same_pixel(before, pixels_rgb@, g, u, v));
                        g.lemma_offset(u, v);
                    }
                }
                assert forall|u: int, v: int|
                    g.inside(u, v) && !(v < y || (v == y && u < x + 1)) implies #[trigger] same_pixel(
                    old(pixels_rgb)@,
                    pixels_rgb@,
                    g,
                    u,
                    v,
                ) by {
                    assert(same_pixel(old(pixels_rgb)@, before, g, u, v));
                    assert(same_pixel(before, pixels_rgb@, g, u, v));
                    g.lemma_offset(u, v);
                }
            }
            x += 1;
        }
        y += 1;
    }
}

} // verus!
