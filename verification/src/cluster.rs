use crate::grid::{Grid, Vec2d};
use crate::tally::{frequency, lemma_frequency_bounds, lemma_frequency_step};
use vstd::prelude::*;

verus! {

/// The label of a pixel that no centroid has taken yet.
pub const UNASSIGNED: i32 = -1;

/// The rectangle of pixels that one centroid searches: the columns from
/// `x_min` up to `x_max` and the rows from `y_min` up to `y_max`, the upper
/// ends left out.
#[derive(Clone, Copy, Debug)]
pub struct Window {
    pub x_min: usize,
    pub x_max: usize,
    pub y_min: usize,
    pub y_max: usize,
}

impl Window {
    /// The window lies within an image of the given size.
    pub open spec fn fits(self, width: int, height: int) -> bool {
        self.x_min <= self.x_max <= width && self.y_min <= self.y_max <= height
    }

    /// The pixel in column `x` of row `y` lies in the window.
    pub open spec fn covers(self, x: int, y: int) -> bool {
        self.x_min <= x < self.x_max && self.y_min <= y < self.y_max
    }

    /// The window of the columns from `x_low` up to `x_high` and the rows from
    /// `y_low` up to `y_high`, cut down to an image of the given size.
    pub fn clipped(
        x_low: usize,
        x_high: usize,
        y_low: usize,
        y_high: usize,
        width: usize,
        height: usize,
    ) -> (window: Window)
        ensures
            window.fits(width as int, height as int),
            window.x_max == if x_high < width {
                x_high
            } else {
                width
            },
            window.y_max == if y_high < height {
                y_high
            } else {
                height
            },
            window.x_min == if x_low < window.x_max {
                x_low
            } else {
                window.x_max
            },
            window.y_min == if y_low < window.y_max {
                y_low
            } else {
                window.y_max
            },
            forall|x: int, y: int|
                #[trigger] window.covers(x, y) <==> x_low <= x < x_high && x < width && y_low <= y
                    < y_high && y < height,
    {
        let x_max: usize = if x_high < width {
            x_high
        } else {
            width
        };
        let y_max: usize = if y_high < height {
            y_high
        } else {
            height
        };
        let x_min: usize = if x_low < x_max {
            x_low
        } else {
            x_max
        };
        let y_min: usize = if y_low < y_max {
            y_low
        } else {
            y_max
        };
        Window { x_min, x_max, y_min, y_max }
    }
}

/// Every label is `UNASSIGNED` or the index of one of `count` centroids.
pub open spec fn labels_in_range(labels: Grid<i32>, count: int) -> bool {
    forall|x: int, y: int|
        labels.inside(x, y) ==> #[trigger] labels.at(x, y) == UNASSIGNED || 0 <= labels.at(x, y)
            < count
}

/// `keys` holds one distance for each pixel of the window.
pub open spec fn keyed(window: Window, keys: Grid<u32>) -> bool {
    keys.wf() && keys.width == window.x_max - window.x_min && keys.height == window.y_max
        - window.y_min
}

/// The centroid of the window takes the pixel in column `x` of row `y`: the
/// pixel lies in the window and is unassigned, or the centroid is strictly
/// nearer to it than the centroid that holds it.
pub open spec fn wins(
    labels: Grid<i32>,
    best: Grid<u32>,
    window: Window,
    keys: Grid<u32>,
    x: int,
    y: int,
) -> bool {
    window.covers(x, y) && (labels.at(x, y) == UNASSIGNED || keys.at(
        x - window.x_min,
        y - window.y_min,
    ) < best.at(x, y))
}

/// The label of the pixel after centroid `k` has searched its window.
pub open spec fn label_after(
    labels: Grid<i32>,
    best: Grid<u32>,
    k: i32,
    window: Window,
    keys: Grid<u32>,
    x: int,
    y: int,
) -> i32 {
    if wins(labels, best, window, keys, x, y) {
        k
    } else {
        labels.at(x, y)
    }
}

/// The distance of the pixel to the centroid that holds it, after a centroid
/// has searched its window.
pub open spec fn best_after(
    labels: Grid<i32>,
    best: Grid<u32>,
    window: Window,
    keys: Grid<u32>,
    x: int,
    y: int,
) -> u32 {
    if wins(labels, best, window, keys, x, y) {
        keys.at(x - window.x_min, y - window.y_min)
    } else {
        best.at(x, y)
    }
}

/// The labels after centroid `k` has searched its window.
pub open spec fn assigned_labels(
    labels: Grid<i32>,
    best: Grid<u32>,
    k: i32,
    window: Window,
    keys: Grid<u32>,
) -> Grid<i32> {
    Grid {
        cells: Seq::new(
            labels.cells.len(),
            |i: int|
                label_after(labels, best, k, window, keys, i % labels.width, i / labels.width),
        ),
        width: labels.width,
        height: labels.height,
    }
}

/// The distances to the holding centroids after a centroid has searched its window.
pub open spec fn assigned_best(
    labels: Grid<i32>,
    best: Grid<u32>,
    window: Window,
    keys: Grid<u32>,
) -> Grid<u32> {
    Grid {
        cells: Seq::new(
            best.cells.len(),
            |i: int| best_after(labels, best, window, keys, i % best.width, i / best.width),
        ),
        width: best.width,
        height: best.height,
    }
}

/// The labels, and the distances to the holding centroids, after the first
/// `upto` centroids have searched their windows one after the other.
pub open spec fn swept(
    labels: Grid<i32>,
    best: Grid<u32>,
    windows: Seq<Window>,
    keys: Seq<Vec2d<u32>>,
    upto: int,
) -> (Grid<i32>, Grid<u32>)
    decreases upto,
{
    if upto <= 0 {
        (labels, best)
    } else {
        let (l, b) = swept(labels, best, windows, keys, upto - 1);
        (
            assigned_labels(l, b, (upto - 1) as i32, windows[upto - 1], keys[upto - 1]@),
            assigned_best(l, b, windows[upto - 1], keys[upto - 1]@),
        )
    }
}

/// What `assigned_labels` and `assigned_best` hold in the pixel in column `x`
/// of row `y`.
pub proof fn lemma_assigned_at(
    labels: Grid<i32>,
    best: Grid<u32>,
    k: i32,
    window: Window,
    keys: Grid<u32>,
    x: int,
    y: int,
)
    requires
        labels.wf(),
        best.wf(),
        labels.same_shape(best),
        labels.inside(x, y),
    ensures
        assigned_labels(labels, best, k, window, keys).wf(),
        assigned_best(labels, best, window, keys).wf(),
        assigned_labels(labels, best, k, window, keys).same_shape(labels),
        assigned_best(labels, best, window, keys).same_shape(labels),
        assigned_labels(labels, best, k, window, keys).at(x, y) == label_after(
            labels,
            best,
            k,
            window,
            keys,
            x,
            y,
        ),
        assigned_best(labels, best, window, keys).at(x, y) == best_after(
            labels,
            best,
            window,
            keys,
            x,
            y,
        ),
{
    labels.lemma_offset(x, y);
    labels.lemma_cell_of_offset(labels.offset(x, y));
    best.lemma_offset(x, y);
    best.lemma_cell_of_offset(best.offset(x, y));
}

/// However many centroids have searched their windows, every label is
/// `UNASSIGNED` or the index of a centroid, if that held at the start.
pub proof fn lemma_swept_in_range(
    labels: Grid<i32>,
    best: Grid<u32>,
    windows: Seq<Window>,
    keys: Seq<Vec2d<u32>>,
    upto: int,
)
    requires
        labels.wf(),
        best.wf(),
        labels.same_shape(best),
        0 <= upto <= windows.len() <= i32::MAX,
        labels_in_range(labels, windows.len() as int),
    ensures
        swept(labels, best, windows, keys, upto).0.wf(),
        swept(labels, best, windows, keys, upto).1.wf(),
        swept(labels, best, windows, keys, upto).0.same_shape(labels),
        swept(labels, best, windows, keys, upto).1.same_shape(labels),
        labels_in_range(swept(labels, best, windows, keys, upto).0, windows.len() as int),
    decreases upto,
{
    if upto > 0 {
        lemma_swept_in_range(labels, best, windows, keys, upto - 1);
        let (l, b) = swept(labels, best, windows, keys, upto - 1);
        let k = (upto - 1) as i32;
        let after = assigned_labels(l, b, k, windows[upto - 1], keys[upto - 1]@);
        if l.cells.len() > 0 {
            l.lemma_cell_of_offset(0);
            lemma_assigned_at(l, b, k, windows[upto - 1], keys[upto - 1]@, 0, 0);
        }
        assert forall|x: int, y: int| after.inside(x, y) implies #[trigger] after.at(x, y)
            == UNASSIGNED || 0 <= after.at(x, y) < windows.len() by {
            lemma_assigned_at(l, b, k, windows[upto - 1], keys[upto - 1]@, x, y);
            assert(l.at(x, y) == UNASSIGNED || 0 <= l.at(x, y) < windows.len());
        }
    }
}

/// A grid of the given size in which every pixel is unassigned.
pub fn unassigned_labels(width: usize, height: usize) -> (labels: Vec2d<i32>)
    requires
        width * height <= usize::MAX,
    ensures
        labels.wf(),
        labels.width == width,
        labels.height == height,
        forall|x: int, y: int| labels@.inside(x, y) ==> #[trigger] labels@.at(x, y) == UNASSIGNED,
        labels_in_range(labels@, 0),
{
    let labels = Vec2d::from_vec(vec![UNASSIGNED; width * height], width, height);
    proof {
        assert forall|x: int, y: int| labels@.inside(x, y) implies #[trigger] labels@.at(x, y)
            == UNASSIGNED by {
            labels@.lemma_offset(x, y);
        }
    }
    labels
}

/// Lets centroid `k` search its window. `keys` holds, for each pixel of the
/// window, the distance from the centroid to it, and `best` for each assigned
/// pixel of the image the distance to the centroid that holds it; both as
/// whole numbers that order as the distances do. A pixel of the window that is
/// unassigned goes to `k`; an assigned one goes to `k` where `k` is strictly
/// nearer, and stays where it is on a tie.
pub fn assign_window(
    labels: &mut Vec2d<i32>,
    best: &mut Vec2d<u32>,
    k: i32,
    window: &Window,
    keys: &Vec2d<u32>,
)
    requires
        old(labels).wf(),
        old(best).wf(),
        old(labels)@.same_shape(old(best)@),
        window.fits(old(labels)@.width, old(labels)@.height),
        keyed(*window, keys@),
    ensures
        final(labels).wf(),
        final(best).wf(),
        final(labels)@ == assigned_labels(old(labels)@, old(best)@, k, *window, keys@),
        final(best)@ == assigned_best(old(labels)@, old(best)@, *window, keys@),
        forall|x: int, y: int|
            old(labels)@.inside(x, y) ==> #[trigger] final(labels)@.at(x, y) == label_after(
                old(labels)@,
                old(best)@,
                k,
                *window,
                keys@,
                x,
                y,
            ),
        forall|x: int, y: int|
            old(labels)@.inside(x, y) ==> #[trigger] final(best)@.at(x, y) == best_after(
                old(labels)@,
                old(best)@,
                *window,
                keys@,
                x,
                y,
            ),
        forall|count: int|
            0 <= k < count && #[trigger] labels_in_range(old(labels)@, count) ==> labels_in_range(
                final(labels)@,
                count,
            ),
{
    let ghost l0 = labels@;
    let ghost b0 = best@;
    let mut y: usize = window.y_min;
    while y < window.y_max
        invariant
            labels.wf(),
            best.wf(),
            l0.wf(),
            b0.wf(),
            labels@.same_shape(l0),
            best@.same_shape(l0),
            b0.same_shape(l0),
            window.fits(l0.width, l0.height),
            keyed(*window, keys@),
            window.y_min <= y <= window.y_max,
            forall|u: int, v: int|
                l0.inside(u, v) ==> #[trigger] labels@.at(u, v) == (if v < y {
                    label_after(l0, b0, k, *window, keys@, u, v)
                } else {
                    l0.at(u, v)
                }),
            forall|u: int, v: int|
                l0.inside(u, v) ==> #[trigger] best@.at(u, v) == (if v < y {
                    best_after(l0, b0, *window, keys@, u, v)
                } else {
                    b0.at(u, v)
                }),
        decreases window.y_max - y,
    {
        let mut x: usize = window.x_min;
        while x < window.x_max
            invariant
                labels.wf(),
                best.wf(),
                l0.wf(),
                b0.wf(),
                labels@.same_shape(l0),
                best@.same_shape(l0),
                b0.same_shape(l0),
                window.fits(l0.width, l0.height),
                keyed(*window, keys@),
                window.y_min <= y < window.y_max,
                window.x_min <= x <= window.x_max,
                forall|u: int, v: int|
                    l0.inside(u, v) ==> #[trigger] labels@.at(u, v) == (if v < y || (v == y && u
                        < x) {
                        label_after(l0, b0, k, *window, keys@, u, v)
                    } else {
                        l0.at(u, v)
                    }),
                forall|u: int, v: int|
                    l0.inside(u, v) ==> #[trigger] best@.at(u, v) == (if v < y || (v == y && u
                        < x) {
                        best_after(l0, b0, *window, keys@, u, v)
                    } else {
                        b0.at(u, v)
                    }),
            decreases window.x_max - x,
        {
            let key: u32 = *keys.i(x - window.x_min, y - window.y_min);
            let held: i32 = *labels.i(x, y);
            let ghost l1 = labels@;
            let ghost b1 = best@;
            if held == UNASSIGNED || key < *best.i(x, y) {
                labels.i_assign(x, y, k);
                best.i_assign(x, y, key);
            }
            proof {
                l1.lemma_put(x as int, y as int, k);
                b1.lemma_put(x as int, y as int, key);
            }
            x += 1;
        }
        y += 1;
    }
    proof {
        let l2 = assigned_labels(l0, b0, k, *window, keys@);
        let b2 = assigned_best(l0, b0, *window, keys@);
        assert forall|u: int, v: int| l0.inside(u, v) implies #[trigger] labels@.at(u, v) == l2.at(
            u,
            v,
        ) by {
            l0.lemma_offset(u, v);
            l0.lemma_cell_of_offset(l0.offset(u, v));
        }
        assert forall|u: int, v: int| b0.inside(u, v) implies #[trigger] best@.at(u, v) == b2.at(
            u,
            v,
        ) by {
            b0.lemma_offset(u, v);
            b0.lemma_cell_of_offset(b0.offset(u, v));
        }
        labels@.lemma_same_cells(l2);
        best@.lemma_same_cells(b2);
        assert forall|count: int|
            0 <= k < count && #[trigger] labels_in_range(l0, count) implies labels_in_range(
            labels@,
            count,
        ) by {
            assert forall|x: int, y: int| labels@.inside(x, y) implies #[trigger] labels@.at(x, y)
                == UNASSIGNED || 0 <= labels@.at(x, y) < count by {
                assert(l0.at(x, y) == UNASSIGNED || 0 <= l0.at(x, y) < count);
            }
        }
    }
}

/// One round of assignment: the centroids search their windows one after the
/// other, in the order of their indices. `windows[k]` is the window of centroid
/// `k` and `keys[k]` holds its distances to the pixels of that window.
pub fn sweep(
    labels: &mut Vec2d<i32>,
    best: &mut Vec2d<u32>,
    windows: &Vec<Window>,
    keys: &Vec<Vec2d<u32>>,
)
    requires
        old(labels).wf(),
        old(best).wf(),
        old(labels)@.same_shape(old(best)@),
        windows@.len() == keys@.len(),
        windows@.len() <= i32::MAX,
        forall|k: int|
            0 <= k < windows@.len() ==> (#[trigger] windows@[k]).fits(
                old(labels)@.width,
                old(labels)@.height,
            ) && keyed(windows@[k], keys@[k]@),
    ensures
        final(labels).wf(),
        final(best).wf(),
        final(labels)@ == swept(old(labels)@, old(best)@, windows@, keys@, windows@.len() as int).0,
        final(best)@ == swept(old(labels)@, old(best)@, windows@, keys@, windows@.len() as int).1,
        labels_in_range(old(labels)@, windows@.len() as int) ==> labels_in_range(
            final(labels)@,
            windows@.len() as int,
        ),
{
    let n: usize = windows.len();
    let mut k: usize = 0;
    while k < n
        invariant
            labels.wf(),
            best.wf(),
            labels@.same_shape(old(labels)@),
            best@.same_shape(old(labels)@),
            n == windows@.len(),
            n == keys@.len(),
            n <= i32::MAX,
            0 <= k <= n,
            forall|j: int|
                0 <= j < windows@.len() ==> (#[trigger] windows@[j]).fits(
                    old(labels)@.width,
                    old(labels)@.height,
                ) && keyed(windows@[j], keys@[j]@),
            labels@ == swept(old(labels)@, old(best)@, windows@, keys@, k as int).0,
            best@ == swept(old(labels)@, old(best)@, windows@, keys@, k as int).1,
            labels_in_range(old(labels)@, n as int) ==> labels_in_range(labels@, n as int),
        decreases n - k,
    {
        assert(windows@[k as int].fits(old(labels)@.width, old(labels)@.height));
        assign_window(labels, best, k as i32, &windows[k], &keys[k]);
        k += 1;
    }
}

/// Counts the pixels that each of `count` centroids holds. Unassigned pixels
/// are counted for none.
pub fn member_counts(labels: &Vec2d<i32>, count: usize) -> (counts: Vec<usize>)
    ensures
        counts@.len() == count,
        forall|l: i32|
            0 <= l < count ==> #[trigger] counts@[l as int] == frequency(labels@.cells, l),
        forall|i: int| i32::MAX < i < count ==> #[trigger] counts@[i] == 0,
{
    let mut counts: Vec<usize> = vec![0usize; count];
    let n: usize = labels.vec.len();
    let mut i: usize = 0;
    while i < n
        invariant
            n == labels.vec@.len(),
            0 <= i <= n,
            counts@.len() == count,
            forall|l: i32|
                0 <= l < count ==> #[trigger] counts@[l as int] == frequency(
                    labels.vec@.take(i as int),
                    l,
                ),
            forall|j: int| i32::MAX < j < count ==> #[trigger] counts@[j] == 0,
        decreases n - i,
    {
        let l: i32 = labels.vec[i];
        proof {
            lemma_frequency_bounds(labels.vec@.take(i as int), l);
            assert forall|m: i32| 0 <= m < count implies frequency(labels.vec@.take(i + 1), m)
                == frequency(labels.vec@.take(i as int), m) + if m == l {
                1int
            } else {
                0int
            } by {
                lemma_frequency_step(labels.vec@, i as int, m);
            }
        }
        if l >= 0 && (l as usize) < count {
            let held: usize = counts[l as usize];
            counts[l as usize] = held + 1;
        }
        i += 1;
    }
    proof {
        assert(labels.vec@.take(n as int) == labels.vec@);
    }
    counts
}

} // verus!
