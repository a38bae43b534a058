use crate::count::{
    lemma_listed_all, lemma_listed_at_least, lemma_members, listed_once, members,
};
use crate::fill::{
    all_inside, claimable, closed_at, closed_upto, fill, flood_fill, holds, is_fragment,
    lemma_paint_at, paint, settled, spot,
};
use crate::grid::{Grid, Vec2d};
use crate::region::{
    absent, adjacent, connected, is_walk, labelled_connected, lemma_absorb_keeps_connected,
    lemma_linked_frame, lemma_paint_keeps_connected, linked,
};
use crate::tally::{
    border, border_labels, border_of, frequency, lemma_frequency_positive, most_frequent,
    pick_most_frequent, seen_at, target_of,
};
use vstd::prelude::*;

verus! {

/// A fragment smaller than a quarter of the average region is merged away.
pub const MIN_SIZE_DIVISOR: usize = 4;

/// A fill stops at five times the average region.
pub const MAX_SIZE_FACTOR: usize = 5;

/// The average number of cells of a region when `area` cells are cut into
/// `segment_count` regions.
pub open spec fn average_size(area: int, segment_count: int) -> int {
    area / segment_count
}

/// The least number of cells of a fragment that keeps a label of its own.
pub open spec fn min_region(area: int, segment_count: int) -> int {
    average_size(area, segment_count) / (MIN_SIZE_DIVISOR as int)
}

/// The number of cells at which a fill stops.
pub open spec fn max_region(area: int, segment_count: int) -> int {
    let most = average_size(area, segment_count) * MAX_SIZE_FACTOR;
    if most <= usize::MAX {
        most
    } else {
        usize::MAX as int
    }
}

/// Some listed cell touches a cell of the grid that carries `label`.
pub open spec fn touches(g: Grid<i32>, cells: Seq<(usize, usize)>, label: i32) -> bool {
    exists|j: int, u: int, v: int|
        0 <= j < cells.len() && #[trigger] adjacent(spot(cells[j]), (u, v)) && g.inside(u, v)
            && g.at(u, v) == label
}

/// Every label of the grid is below `bound`, or is 0.
pub open spec fn labels_below(g: Grid<i32>, bound: int) -> bool {
    forall|u: int, v: int| g.inside(u, v) ==> #[trigger] g.at(u, v) < bound || g.at(u, v) == 0
}

/// Every cell before column `x` of row `y`, row by row, carries a label of zero or more.
pub open spec fn labelled_before(g: Grid<i32>, x: int, y: int) -> bool {
    forall|u: int, v: int|
        g.inside(u, v) && (v < y || (v == y && u < x)) ==> #[trigger] g.at(u, v) >= 0
}

/// Some cell of the grid carries `label`.
pub open spec fn present(g: Grid<i32>, label: i32) -> bool {
    exists|u: int, v: int| g.inside(u, v) && #[trigger] g.at(u, v) == label
}

/// Every label from 0 up to `bound`, `bound` itself left out, is carried by some cell.
pub open spec fn dense_below(g: Grid<i32>, bound: int) -> bool {
    forall|l: i32| 0 <= l < bound ==> #[trigger] present(g, l)
}

/// No cell carries a label of zero or more.
pub open spec fn untouched(g: Grid<i32>) -> bool {
    forall|u: int, v: int| g.inside(u, v) ==> #[trigger] g.at(u, v) < 0
}

/// Every cell that carries a label of zero or more in `before` carries the same in `after`.
pub open spec fn labels_kept(before: Grid<i32>, after: Grid<i32>) -> bool {
    forall|u: int, v: int|
        before.inside(u, v) && before.at(u, v) >= 0 ==> #[trigger] after.at(u, v) == before.at(u, v)
}

/// Every label of the grid is carried by at least `min_size` and at most
/// `max_size` cells.
pub open spec fn sizes_within(g: Grid<i32>, min_size: int, max_size: int) -> bool {
    forall|u: int, v: int|
        g.inside(u, v) ==> min_size <= frequency(g.cells, #[trigger] g.at(u, v)) <= max_size
}

/// The two grids cut the cells into the same regions: two cells carry one
/// label in `a` exactly if they carry one label in `b`.
pub open spec fn same_regions(a: Grid<i32>, b: Grid<i32>) -> bool {
    forall|ax: int, ay: int, bx: int, by: int|
        #![trigger a.at(ax, ay), a.at(bx, by)]
        a.inside(ax, ay) && a.inside(bx, by) ==> (a.at(ax, ay) == a.at(bx, by) <==> b.at(ax, ay)
            == b.at(bx, by))
}

/// As far as the output labels are given, they cut the cells as the input
/// labels do, and all of them are below `next`.
pub open spec fn agreeing(segments: Grid<i32>, out: Grid<i32>, next: i32) -> bool {
    &&& forall|ax: int, ay: int, bx: int, by: int|
        #![trigger out.at(ax, ay), out.at(bx, by)]
        out.inside(ax, ay) && out.inside(bx, by) && out.at(ax, ay) >= 0 && segments.at(ax, ay)
            == segments.at(bx, by) ==> out.at(bx, by) == out.at(ax, ay)
    &&& forall|ax: int, ay: int, bx: int, by: int|
        #![trigger out.at(ax, ay), out.at(bx, by)]
        out.inside(ax, ay) && out.inside(bx, by) && out.at(ax, ay) >= 0 && out.at(ax, ay) == out.at(
            bx,
            by,
        ) ==> segments.at(ax, ay) == segments.at(bx, by)
    &&& forall|u: int, v: int| out.inside(u, v) ==> #[trigger] out.at(u, v) < next
}

/// The grid of the given size in which no cell has a label.
pub open spec fn blank(width: int, height: int) -> Grid<i32> {
    Grid { cells: Seq::new((width * height) as nat, |i: int| -1i32), width, height }
}

/// One step of the scan, at the cell in column `x` of row `y`, with the
/// output labels `before` and the next unused label `next`; it gives the
/// output labels and the next unused label after the step. A cell that has its
/// output label changes nothing. From any other a fragment is gathered by a
/// flood fill. A fragment of at least `min_size` cells gets the label `next`,
/// which is then used up; a smaller one gets the label met most often around
/// it, the smallest of them where several are met equally often.
pub open spec fn settle_at(
    segments: Grid<i32>,
    before: Grid<i32>,
    next: i32,
    x: int,
    y: int,
    min_size: int,
    max_size: int,
) -> (Grid<i32>, i32) {
    if before.at(x, y) >= 0 {
        (before, next)
    } else {
        let cells = fill(segments, before, x, y, max_size);
        let mid = paint(before, cells, next);
        if cells.len() >= min_size {
            (mid, (next + 1) as i32)
        } else {
            (paint(mid, cells, target_of(border(mid, cells, next))), next)
        }
    }
}

/// The output labels and the next unused label after the first `upto` steps
/// of the scan, which takes the cells row by row and begins with no cell
/// labelled and 0 as the next label.
pub open spec fn scan(segments: Grid<i32>, min_size: int, max_size: int, upto: int) -> (
    Grid<i32>,
    i32,
)
    decreases upto,
{
    if upto <= 0 {
        (blank(segments.width, segments.height), 0i32)
    } else {
        let (before, next) = scan(segments, min_size, max_size, upto - 1);
        settle_at(
            segments,
            before,
            next,
            (upto - 1) % segments.width,
            (upto - 1) / segments.width,
            min_size,
            max_size,
        )
    }
}

/// The output labels that the scan over all cells of `segments` leaves.
pub open spec fn relabelled(segments: Grid<i32>, min_size: int, max_size: int) -> Grid<i32> {
    scan(segments, min_size, max_size, segments.cells.len() as int).0
}

/// What holds of the output labels while the grid is scanned row by row, when
/// the scan has come to column `x` of row `y` and `next` is the next unused label.
pub open spec fn scanning(segments: Grid<i32>, out: Grid<i32>, next: i32, x: int, y: int) -> bool {
    &&& out.wf()
    &&& segments.same_shape(out)
    &&& 0 <= next
    &&& labelled_connected(out)
    &&& labels_below(out, next as int)
    &&& labelled_before(out, x, y)
    &&& dense_below(out, next as int)
    &&& (x == 0 && y == 0 ==> untouched(out))
    &&& (next > 0 ==> x > 0 || y > 0)
}

/// A fragment without its last cell is a fragment, as long as a cell is left.
pub proof fn lemma_fragment_front(segments: Grid<i32>, taken: Grid<i32>, cells: Seq<(usize, usize)>)
    requires
        is_fragment(segments, taken, cells),
        cells.len() > 1,
    ensures
        is_fragment(segments, taken, cells.drop_last()),
        cells.drop_last()[0] == cells[0],
{
    let front = cells.drop_last();
    assert(front[0] == cells[0]);
    assert forall|j: int| 0 <= j < front.len() implies claimable(
        segments,
        taken,
        segments.at(front[0].0 as int, front[0].1 as int),
        (#[trigger] front[j]).0 as int,
        front[j].1 as int,
    ) by {
        assert(front[j] == cells[j]);
    }
    assert forall|j: int, k: int| 0 <= j < k < front.len() implies front[j] != front[k] by {
        assert(front[j] == cells[j] && front[k] == cells[k]);
    }
    assert forall|k: int| 1 <= k < front.len() implies exists|j: int|
        0 <= j < k && adjacent(spot(front[j]), spot(#[trigger] front[k])) by {
        assert(front[k] == cells[k]);
        let j = choose|j: int| 0 <= j < k && adjacent(spot(cells[j]), spot(cells[k]));
        assert(front[j] == cells[j]);
    }
}

/// The last cell of a fragment had no output label, is not listed before, and,
/// unless it is the only cell, touches a cell `near` that is listed before.
pub proof fn lemma_fragment_last(
    segments: Grid<i32>,
    taken: Grid<i32>,
    cells: Seq<(usize, usize)>,
) -> (near: (usize, usize))
    requires
        is_fragment(segments, taken, cells),
    ensures
        taken.inside(cells.last().0 as int, cells.last().1 as int),
        taken.at(cells.last().0 as int, cells.last().1 as int) < 0,
        !holds(cells.drop_last(), cells.last().0 as int, cells.last().1 as int),
        all_inside(taken, cells.drop_last()),
        cells.len() > 1 ==> holds(cells.drop_last(), near.0 as int, near.1 as int) && adjacent(
            spot(near),
            spot(cells.last()),
        ) && taken.inside(near.0 as int, near.1 as int),
{
    let front = cells.drop_last();
    let k = cells.len() - 1;
    let wanted = segments.at(cells[0].0 as int, cells[0].1 as int);
    assert(claimable(segments, taken, wanted, cells[k].0 as int, cells[k].1 as int));
    if holds(front, cells[k].0 as int, cells[k].1 as int) {
        let i = choose|i: int|
            0 <= i < front.len() && (#[trigger] front[i]).0 == cells[k].0 && front[i].1
                == cells[k].1;
        assert(cells[i] == front[i]);
        assert(cells[i] != cells[k]);
    }
    assert forall|j: int| 0 <= j < front.len() implies taken.inside(
        (#[trigger] front[j]).0 as int,
        front[j].1 as int,
    ) by {
        assert(front[j] == cells[j]);
        assert(claimable(segments, taken, wanted, cells[j].0 as int, cells[j].1 as int));
    }
    if cells.len() > 1 {
        let j = choose|j: int| 0 <= j < k && adjacent(spot(cells[j]), spot(cells[k]));
        assert(front[j] == cells[j]);
        assert(claimable(segments, taken, wanted, cells[j].0 as int, cells[j].1 as int));
        cells[j]
    } else {
        cells[0]
    }
}

/// Writing a new label into a fragment keeps the labelled cells connected,
/// provided that the label was not in use or that the fragment's first cell
/// touches a cell `n` that carries it.
pub proof fn lemma_fill_connected(
    segments: Grid<i32>,
    taken: Grid<i32>,
    cells: Seq<(usize, usize)>,
    label: i32,
    n: (int, int),
)
    requires
        taken.wf(),
        is_fragment(segments, taken, cells),
        labelled_connected(taken),
        label >= 0,
        absent(taken, label) || (taken.inside(n.0, n.1) && adjacent(n, spot(cells[0])) && taken.at(
            n.0,
            n.1,
        ) == label),
    ensures
        labelled_connected(paint(taken, cells, label)),
    decreases cells.len(),
{
    let front = cells.drop_last();
    let q = spot(cells.last());
    let near = lemma_fragment_last(segments, taken, cells);
    if cells.len() == 1 {
        assert(paint(taken, front, label) == taken);
        taken.lemma_put(q.0, q.1, label);
        lemma_paint_keeps_connected(taken, taken.put(q.0, q.1, label), q, n, label);
    } else {
        lemma_fragment_front(segments, taken, cells);
        lemma_fill_connected(segments, taken, front, label, n);
        let mid = paint(taken, front, label);
        lemma_paint_at(taken, front, label);
        assert(mid.at(near.0 as int, near.1 as int) == label);
        assert(mid.at(q.0, q.1) == taken.at(q.0, q.1));
        mid.lemma_put(q.0, q.1, label);
        lemma_paint_keeps_connected(mid, mid.put(q.0, q.1, label), q, spot(near), label);
    }
}

/// Every label met around the listed cells is a label of zero or more, other
/// than `own`, of a cell that touches a listed cell.
pub proof fn lemma_border_entry(g: Grid<i32>, cells: Seq<(usize, usize)>, own: i32, k: int)
    requires
        0 <= k < border(g, cells, own).len(),
    ensures
        touches(g, cells, border(g, cells, own)[k]),
        border(g, cells, own)[k] >= 0,
        border(g, cells, own)[k] != own,
    decreases cells.len(),
{
    if cells.len() > 0 {
        let front = cells.drop_last();
        let c = cells.last();
        let inner = border(g, front, own);
        if k < inner.len() {
            lemma_border_entry(g, front, own, k);
            let l = inner[k];
            let (j, u, v) = choose|j: int, u: int, v: int|
                0 <= j < front.len() && #[trigger] adjacent(spot(front[j]), (u, v)) && g.inside(u, v)
                    && g.at(u, v) == l;
            assert(cells[j] == front[j]);
            assert(adjacent(spot(cells[j]), (u, v)));
        } else {
            let s1 = seen_at(g, c.0 as int, c.1 + 1, own);
            let s2 = seen_at(g, c.0 as int, c.1 - 1, own);
            let s3 = seen_at(g, c.0 + 1, c.1 as int, own);
            let s4 = seen_at(g, c.0 - 1, c.1 as int, own);
            let m = k - inner.len();
            let j = cells.len() - 1;
            assert(border_of(g, c, own) == s1 + s2 + s3 + s4);
            if m < s1.len() {
                assert(adjacent(spot(cells[j]), (c.0 as int, c.1 + 1)));
            } else if m < s1.len() + s2.len() {
                assert(adjacent(spot(cells[j]), (c.0 as int, c.1 - 1)));
            } else if m < s1.len() + s2.len() + s3.len() {
                assert(adjacent(spot(cells[j]), (c.0 + 1, c.1 as int)));
            } else {
                assert(adjacent(spot(cells[j]), (c.0 - 1, c.1 as int)));
            }
        }
    }
}

/// A listed cell that touches a cell with another label of zero or more
/// leaves an entry among the labels met.
pub proof fn lemma_border_met(
    g: Grid<i32>,
    cells: Seq<(usize, usize)>,
    own: i32,
    j: int,
    u: int,
    v: int,
)
    requires
        0 <= j < cells.len(),
        adjacent(spot(cells[j]), (u, v)),
        g.inside(u, v),
        g.at(u, v) >= 0,
        g.at(u, v) != own,
    ensures
        border(g, cells, own).len() > 0,
    decreases cells.len(),
{
    let front = cells.drop_last();
    let c = cells.last();
    if j == cells.len() - 1 {
        let s1 = seen_at(g, c.0 as int, c.1 + 1, own);
        let s2 = seen_at(g, c.0 as int, c.1 - 1, own);
        let s3 = seen_at(g, c.0 + 1, c.1 as int, own);
        let s4 = seen_at(g, c.0 - 1, c.1 as int, own);
        assert(border_of(g, c, own) == s1 + s2 + s3 + s4);
        assert(s1.len() + s2.len() + s3.len() + s4.len() > 0);
    } else {
        assert(front[j] == cells[j]);
        lemma_border_met(g, front, own, j, u, v);
    }
}

/// Writes `label` into every listed cell.
pub fn relabel(out: &mut Vec2d<i32>, cells: &Vec<(usize, usize)>, label: i32)
    requires
        old(out).wf(),
        all_inside(old(out)@, cells@),
    ensures
        final(out).wf(),
        final(out)@ == paint(old(out)@, cells@, label),
{
    let n: usize = cells.len();
    let mut i: usize = 0;
    while i < n
        invariant
            n == cells@.len(),
            0 <= i <= n,
            out.wf(),
            out@.same_shape(old(out)@),
            all_inside(old(out)@, cells@),
            out@ == paint(old(out)@, cells@.take(i as int), label),
        decreases n - i,
    {
        let c: (usize, usize) = cells[i];
        assert(old(out)@.inside(c.0 as int, c.1 as int));
        out.i_assign(c.0, c.1, label);
        proof {
            assert(cells@.take(i + 1).drop_last() == cells@.take(i as int));
            assert(cells@.take(i + 1).last() == c);
            out@.lemma_put(c.0 as int, c.1 as int, label);
        }
        i += 1;
    }
    proof {
        assert(cells@.take(n as int) == cells@);
    }
}

/// What writing the label `next` into a fragment that begins at the scan's
/// place does to the output labels.
pub proof fn lemma_fragment_painted(
    segments: Grid<i32>,
    taken: Grid<i32>,
    cells: Seq<(usize, usize)>,
    next: i32,
    x: usize,
    y: usize,
)
    requires
        scanning(segments, taken, next, x as int, y as int),
        taken.inside(x as int, y as int),
        is_fragment(segments, taken, cells),
        cells[0] == (x, y),
    ensures
        paint(taken, cells, next).wf(),
        paint(taken, cells, next).same_shape(taken),
        all_inside(taken, cells),
        labelled_connected(paint(taken, cells, next)),
        labels_kept(taken, paint(taken, cells, next)),
        forall|u: int, v: int|
            taken.inside(u, v) ==> #[trigger] paint(taken, cells, next).at(u, v) == (if holds(
                cells,
                u,
                v,
            ) {
                next
            } else {
                taken.at(u, v)
            }),
        forall|u: int, v: int| holds(cells, u, v) ==> taken.inside(u, v) && taken.at(u, v) < 0,
        holds(cells, x as int, y as int),
{
    assert(all_inside(taken, cells)) by {
        assert forall|j: int| 0 <= j < cells.len() implies taken.inside(
            (#[trigger] cells[j]).0 as int,
            cells[j].1 as int,
        ) by {
            assert(claimable(
                segments,
                taken,
                segments.at(cells[0].0 as int, cells[0].1 as int),
                cells[j].0 as int,
                cells[j].1 as int,
            ));
        }
    }
    lemma_paint_at(taken, cells, next);
    assert forall|u: int, v: int| holds(cells, u, v) implies taken.inside(u, v) && taken.at(u, v)
        < 0 by {
        let j = choose|j: int| 0 <= j < cells.len() && (#[trigger] cells[j]).0 == u && cells[j].1 == v;
        assert(claimable(
            segments,
            taken,
            segments.at(cells[0].0 as int, cells[0].1 as int),
            cells[j].0 as int,
            cells[j].1 as int,
        ));
    }
    assert(holds(cells, x as int, y as int)) by {
        assert(cells[0].0 == x && cells[0].1 == y);
    }
    let n: (int, int) = if x > 0 {
        (x - 1, y as int)
    } else {
        (x as int, y - 1)
    };
    if next >= 1 {
        assert(absent(taken, next));
    } else if x == 0 && y == 0 {
        assert(absent(taken, next));
    } else {
        assert(taken.inside(n.0, n.1));
        assert(taken.at(n.0, n.1) >= 0);
    }
    lemma_fill_connected(segments, taken, cells, next, n);
}

/// A fragment that keeps its label: the scan moves on with the next label.
pub proof fn lemma_settle_fresh(
    segments: Grid<i32>,
    taken: Grid<i32>,
    cells: Seq<(usize, usize)>,
    next: i32,
    x: usize,
    y: usize,
)
    requires
        scanning(segments, taken, next, x as int, y as int),
        taken.inside(x as int, y as int),
        is_fragment(segments, taken, cells),
        cells[0] == (x, y),
        next < i32::MAX,
    ensures
        scanning(segments, paint(taken, cells, next), (next + 1) as i32, x + 1, y as int),
        labels_kept(taken, paint(taken, cells, next)),
{
    lemma_fragment_painted(segments, taken, cells, next, x, y);
    let mid = paint(taken, cells, next);
    assert forall|l: i32| 0 <= l < next + 1 implies #[trigger] present(mid, l) by {
        if l < next {
            assert(present(taken, l));
            let (u, v) = choose|u: int, v: int| taken.inside(u, v) && #[trigger] taken.at(u, v) == l;
            assert(mid.at(u, v) == l);
        } else {
            assert(mid.at(x as int, y as int) == next);
        }
    }
    assert(labelled_before(mid, x + 1, y as int)) by {
        assert forall|u: int, v: int|
            mid.inside(u, v) && (v < y || (v == y && u < x + 1)) implies #[trigger] mid.at(u, v)
            >= 0 by {
            if !(u == x && v == y) {
                assert(taken.at(u, v) >= 0);
            }
        }
    }
}

/// The labels met around a fragment that was given the label `next` are in use
/// and below `next`, or 0; and with `next` at least 1 there is one.
pub proof fn lemma_fragment_border(
    segments: Grid<i32>,
    taken: Grid<i32>,
    cells: Seq<(usize, usize)>,
    next: i32,
    x: usize,
    y: usize,
)
    requires
        scanning(segments, taken, next, x as int, y as int),
        taken.inside(x as int, y as int),
        is_fragment(segments, taken, cells),
        cells[0] == (x, y),
    ensures
        forall|k: int|
            0 <= k < border(paint(taken, cells, next), cells, next).len() ==> {
                let l = #[trigger] border(paint(taken, cells, next), cells, next)[k];
                0 <= l && (l < next || l == 0) && l != next
            },
        next >= 1 ==> border(paint(taken, cells, next), cells, next).len() > 0,
{
    lemma_fragment_painted(segments, taken, cells, next, x, y);
    let mid = paint(taken, cells, next);
    let met = border(mid, cells, next);
    assert forall|k: int| 0 <= k < met.len() implies {
        let l = #[trigger] met[k];
        0 <= l && (l < next || l == 0) && l != next
    } by {
        lemma_border_entry(mid, cells, next, k);
        let l = met[k];
        let (j, u, v) = choose|j: int, u: int, v: int|
            0 <= j < cells.len() && #[trigger] adjacent(spot(cells[j]), (u, v)) && mid.inside(u, v)
                && mid.at(u, v) == l;
        assert(taken.at(u, v) == l);
    }
    if next >= 1 {
        let n: (int, int) = if x > 0 {
            (x - 1, y as int)
        } else {
            (x as int, y - 1)
        };
        assert(taken.inside(n.0, n.1));
        assert(taken.at(n.0, n.1) >= 0);
        assert(mid.at(n.0, n.1) == taken.at(n.0, n.1));
        assert(adjacent(spot(cells[0]), n));
        lemma_border_met(mid, cells, next, 0, n.0, n.1);
    }
}

/// A fragment that is merged into the label met most often around it: the
/// scan moves on and keeps the label `next` for the fragment to come.
pub proof fn lemma_settle_merged(
    segments: Grid<i32>,
    taken: Grid<i32>,
    cells: Seq<(usize, usize)>,
    next: i32,
    target: i32,
    x: usize,
    y: usize,
)
    requires
        scanning(segments, taken, next, x as int, y as int),
        taken.inside(x as int, y as int),
        is_fragment(segments, taken, cells),
        cells[0] == (x, y),
        most_frequent(border(paint(taken, cells, next), cells, next), target),
    ensures
        scanning(
            segments,
            paint(paint(taken, cells, next), cells, target),
            next,
            x + 1,
            y as int,
        ),
        labels_kept(taken, paint(paint(taken, cells, next), cells, target)),
{
    lemma_fragment_painted(segments, taken, cells, next, x, y);
    lemma_fragment_border(segments, taken, cells, next, x, y);
    let mid = paint(taken, cells, next);
    let met = border(mid, cells, next);
    let fin = paint(mid, cells, target);
    lemma_paint_at(mid, cells, target);
    if met.len() == 0 {
        assert(target == 0 && next == 0);
        assert forall|ax: int, ay: int, bx: int, by: int|
            fin.inside(ax, ay) && fin.inside(bx, by) && fin.at(ax, ay) == fin.at(bx, by) && fin.at(
                ax,
                ay,
            ) >= 0 implies #[trigger] linked(fin, (ax, ay), (bx, by)) by {
            assert(linked(mid, (ax, ay), (bx, by)));
            lemma_linked_frame(mid, fin, (ax, ay), (bx, by));
        }
    } else {
        lemma_frequency_positive(met, target);
        let k = choose|k: int| 0 <= k < met.len() && #[trigger] met[k] == target;
        lemma_border_entry(mid, cells, next, k);
        let (j, u, v) = choose|j: int, u: int, v: int|
            0 <= j < cells.len() && #[trigger] adjacent(spot(cells[j]), (u, v)) && mid.inside(u, v)
                && mid.at(u, v) == target;
        assert(holds(cells, cells[j].0 as int, cells[j].1 as int));
        assert(taken.at(u, v) == target);
        if next >= 1 {
            assert(absent(taken, next));
            lemma_absorb_keeps_connected(mid, fin, next, target, spot(cells[j]), (u, v));
        } else {
            assert(false);
        }
    }
    assert forall|l: i32| 0 <= l < next implies #[trigger] present(fin, l) by {
        assert(present(taken, l));
        let (u, v) = choose|u: int, v: int| taken.inside(u, v) && #[trigger] taken.at(u, v) == l;
        assert(fin.at(u, v) == l);
    }
    assert(labelled_before(fin, x + 1, y as int)) by {
        assert forall|u: int, v: int|
            fin.inside(u, v) && (v < y || (v == y && u < x + 1)) implies #[trigger] fin.at(u, v)
            >= 0 by {
            if !(u == x && v == y) {
                assert(taken.at(u, v) >= 0);
            }
        }
    }
}

/// A fill that was not cut short has gathered every cell to which a walk leads
/// from its first cell through cells that carry the wanted input label, none of
/// which had an output label.
pub proof fn lemma_closed_walk(
    segments: Grid<i32>,
    taken: Grid<i32>,
    cells: Seq<(usize, usize)>,
    label: i32,
    walk: Seq<(int, int)>,
    i: int,
)
    requires
        taken.wf(),
        segments.same_shape(taken),
        is_fragment(segments, taken, cells),
        all_inside(taken, cells),
        label >= 0,
        closed_upto(segments, taken, paint(taken, cells, label), cells, cells.len() as int, label),
        is_walk(segments, walk, segments.at(cells[0].0 as int, cells[0].1 as int)),
        walk[0] == spot(cells[0]),
        forall|u: int, v: int|
            taken.inside(u, v) && segments.at(u, v) == segments.at(
                cells[0].0 as int,
                cells[0].1 as int,
            ) ==> #[trigger] taken.at(u, v) < 0,
        0 <= i < walk.len(),
    ensures
        holds(cells, walk[i].0, walk[i].1),
    decreases i,
{
    if i == 0 {
        assert(cells[0].0 == walk[0].0 && cells[0].1 == walk[0].1);
    } else {
        lemma_closed_walk(segments, taken, cells, label, walk, i - 1);
        let p = walk[i - 1];
        let q = walk[i];
        let j = choose|j: int| 0 <= j < cells.len() && (#[trigger] cells[j]).0 == p.0 && cells[j].1 == p.1;
        let wanted = segments.at(cells[0].0 as int, cells[0].1 as int);
        let now = paint(taken, cells, label);
        assert(closed_at(segments, taken, now, wanted, label, cells[j]));
        assert(adjacent(walk[i - 1], walk[i]));
        assert(segments.inside(q.0, q.1) && segments.at(q.0, q.1) == wanted);
        assert(taken.at(q.0, q.1) < 0);
        assert(claimable(segments, taken, wanted, q.0, q.1));
        assert(settled(segments, taken, now, wanted, label, q.0, q.1));
        lemma_paint_at(taken, cells, label);
    }
}

/// Where every input label marks one connected region of at least `min_size`
/// and at most `max_size` cells, and the output labels given so far cut the
/// cells as the input labels do, a fragment is a whole region: it has at least
/// `min_size` cells, and with a label of its own the output labels still agree
/// with the input labels.
pub proof fn lemma_settle_whole(
    segments: Grid<i32>,
    taken: Grid<i32>,
    cells: Seq<(usize, usize)>,
    next: i32,
    x: usize,
    y: usize,
    min_size: int,
    max_size: int,
)
    requires
        segments.wf(),
        scanning(segments, taken, next, x as int, y as int),
        taken.inside(x as int, y as int),
        taken.at(x as int, y as int) < 0,
        is_fragment(segments, taken, cells),
        cells[0] == (x, y),
        next < i32::MAX,
        connected(segments),
        sizes_within(segments, min_size, max_size),
        agreeing(segments, taken, next),
        cells.len() < max_size ==> closed_upto(
            segments,
            taken,
            paint(taken, cells, next),
            cells,
            cells.len() as int,
            next,
        ),
    ensures
        cells.len() >= min_size,
        agreeing(segments, paint(taken, cells, next), (next + 1) as i32),
{
    lemma_fragment_painted(segments, taken, cells, next, x, y);
    let mid = paint(taken, cells, next);
    let wanted = segments.at(x as int, y as int);
    assert(wanted == segments.at(cells[0].0 as int, cells[0].1 as int));
    assert forall|u: int, v: int|
        taken.inside(u, v) && segments.at(u, v) == wanted implies #[trigger] taken.at(u, v) < 0 by {
        if taken.at(u, v) >= 0 {
            assert(taken.at(x as int, y as int) == taken.at(u, v));
        }
    }
    assert(listed_once(segments, cells, wanted)) by {
        assert forall|j: int| 0 <= j < cells.len() implies segments.inside(
            (#[trigger] cells[j]).0 as int,
            cells[j].1 as int,
        ) && segments.at(cells[j].0 as int, cells[j].1 as int) == wanted by {
            assert(claimable(segments, taken, wanted, cells[j].0 as int, cells[j].1 as int));
        }
    }
    assert forall|u: int, v: int| segments.inside(u, v) && #[trigger] segments.at(u, v)
        == wanted implies holds(cells, u, v) by {
        if cells.len() >= max_size {
            assert(frequency(segments.cells, segments.at(x as int, y as int)) <= max_size);
            lemma_listed_all(segments, cells, wanted, u, v);
        } else {
            assert(linked(segments, (x as int, y as int), (u, v)));
            let walk = choose|walk: Seq<(int, int)>|
                #[trigger] is_walk(segments, walk, wanted) && walk[0] == (x as int, y as int)
                    && walk[walk.len() - 1] == (u, v);
            lemma_closed_walk(segments, taken, cells, next, walk, walk.len() - 1);
        }
    }
    assert(all_inside(segments, cells));
    lemma_listed_at_least(segments, cells, wanted);
    assert(min_size <= frequency(segments.cells, segments.at(x as int, y as int)));
    assert forall|u: int, v: int| mid.inside(u, v) implies (holds(cells, u, v) <==> segments.at(u, v)
        == wanted) by {
        if holds(cells, u, v) {
            let j = choose|j: int| 0 <= j < cells.len() && (#[trigger] cells[j]).0 == u && cells[j].1 == v;
            assert(claimable(segments, taken, wanted, cells[j].0 as int, cells[j].1 as int));
        }
    }
    assert forall|ax: int, ay: int, bx: int, by: int|
        #![trigger mid.at(ax, ay), mid.at(bx, by)]
        mid.inside(ax, ay) && mid.inside(bx, by) && mid.at(ax, ay) >= 0 && segments.at(ax, ay)
            == segments.at(bx, by) implies mid.at(bx, by) == mid.at(ax, ay) by {
        if !holds(cells, ax, ay) {
            assert(taken.at(bx, by) == taken.at(ax, ay));
        }
    }
    assert forall|ax: int, ay: int, bx: int, by: int|
        #![trigger mid.at(ax, ay), mid.at(bx, by)]
        mid.inside(ax, ay) && mid.inside(bx, by) && mid.at(ax, ay) >= 0 && mid.at(ax, ay) == mid.at(
            bx,
            by,
        ) implies segments.at(ax, ay) == segments.at(bx, by) by {
        assert(taken.at(ax, ay) < next && taken.at(bx, by) < next);
        if !holds(cells, ax, ay) {
            assert(taken.at(bx, by) == taken.at(ax, ay));
        }
    }
    assert forall|u: int, v: int| mid.inside(u, v) implies #[trigger] mid.at(u, v) < next + 1 by {
        assert(taken.at(u, v) < next);
    }
}

/// Grids that cut the cells into the same regions have regions of the same
/// sizes: if the sizes fit in one, they fit in the other. So what a scan made
/// of a grid whose connected regions fit, a second scan only renumbers again.
pub proof fn lemma_same_regions_same_sizes(
    a: Grid<i32>,
    b: Grid<i32>,
    min_size: int,
    max_size: int,
)
    requires
        a.wf(),
        b.wf(),
        a.same_shape(b),
        same_regions(a, b),
        sizes_within(a, min_size, max_size),
    ensures
        sizes_within(b, min_size, max_size),
{
    assert forall|u: int, v: int| b.inside(u, v) implies min_size <= frequency(
        b.cells,
        #[trigger] b.at(u, v),
    ) <= max_size by {
        let in_a = members(a.cells, a.at(u, v));
        let in_b = members(b.cells, b.at(u, v));
        assert forall|k: int| in_a.contains(k) <==> in_b.contains(k) by {
            if 0 <= k < a.cells.len() {
                a.lemma_cell_of_offset(k);
                b.lemma_cell_of_offset(k);
                let (p, q) = (k % a.width, k / a.width);
                assert(a.at(p, q) == a.cells[k]);
                assert(b.at(p, q) == b.cells[k]);
                assert(a.at(p, q) == a.at(u, v) <==> b.at(p, q) == b.at(u, v));
            }
        }
        assert(in_a =~= in_b);
        lemma_members(a.cells, a.at(u, v));
        lemma_members(b.cells, b.at(u, v));
        assert(min_size <= frequency(a.cells, a.at(u, v)) <= max_size);
    }
}

/// Deals with the cell in column `x` of row `y` during the scan. A cell that has
/// its output label is left alone. From any other a fragment is gathered; one
/// of at least `min_size` cells gets the label `next`, a smaller one the label
/// met most often around it. Returns the next unused label.
fn settle(
    segments: &Vec2d<i32>,
    out: &mut Vec2d<i32>,
    cells: &mut Vec<(usize, usize)>,
    tally: &mut Vec<usize>,
    x: usize,
    y: usize,
    next: i32,
    min_size: usize,
    max_size: usize,
) -> (after: i32)
    requires
        segments.wf(),
        scanning(segments@, old(out)@, next, x as int, y as int),
        segments@.inside(x as int, y as int),
        next < old(tally)@.len() <= i32::MAX,
        forall|l: int| 0 <= l < old(tally)@.len() ==> #[trigger] old(tally)@[l] == 0,
    ensures
        scanning(segments@, final(out)@, after, x + 1, y as int),
        labels_kept(old(out)@, final(out)@),
        after == next || after == next + 1,
        final(tally)@ == old(tally)@,
        connected(segments@) && sizes_within(segments@, min_size as int, max_size as int)
            && agreeing(segments@, old(out)@, next) ==> agreeing(segments@, final(out)@, after),
        (final(out)@, after) == settle_at(
            segments@,
            old(out)@,
            next,
            x as int,
            y as int,
            min_size as int,
            max_size as int,
        ),
{
    if *out.i(x, y) >= 0 {
        return next;
    }
    let ghost whole = connected(segments@) && sizes_within(
        segments@,
        min_size as int,
        max_size as int,
    ) && agreeing(segments@, out@, next);
    let ghost taken = out@;
    flood_fill(segments, out, cells, x, y, next, max_size);
    if cells.len() < min_size {
        proof {
            lemma_fragment_painted(segments@, taken, cells@, next, x, y);
            lemma_fragment_border(segments@, taken, cells@, next, x, y);
            if whole {
                lemma_settle_whole(
                    segments@,
                    taken,
                    cells@,
                    next,
                    x,
                    y,
                    min_size as int,
                    max_size as int,
                );
            }
        }
        let met = border_labels(out, cells, next);
        let target = pick_most_frequent(&met, tally);
        relabel(out, cells, target);
        proof {
            lemma_settle_merged(segments@, taken, cells@, next, target, x, y);
        }
        next
    } else {
        proof {
            lemma_settle_fresh(segments@, taken, cells@, next, x, y);
            if whole {
                lemma_settle_whole(
                    segments@,
                    taken,
                    cells@,
                    next,
                    x,
                    y,
                    min_size as int,
                    max_size as int,
                );
            }
        }
        next + 1
    }
}

/// Relabels the grid so that every label marks one 4-connected region.
///
/// The cells are scanned row by row. From each cell that has no output label
/// yet a fragment is gathered by `flood_fill`, of at most `max_size` cells. A
/// fragment of at least `min_size` cells gets the next unused label, counted
/// from 0; a smaller one is merged into the label that its cells touch most
/// often, the smallest such label where several are touched equally often,
/// and label 0 where they touch none.
///
/// In the result every cell has a label, the labels in use are 0, 1, 2 and
/// so on without a gap, and every label marks one 4-connected region. A grid
/// in which every label already marks one connected region of at least
/// `min_size` and at most `max_size` cells is only renumbered.
pub fn enforce_connectivity_with(segments: &Vec2d<i32>, min_size: usize, max_size: usize) -> (out:
    Vec2d<i32>)
    requires
        segments.wf(),
        segments.width * segments.height <= i32::MAX,
    ensures
        out.wf(),
        out@.same_shape(segments@),
        forall|u: int, v: int| out@.inside(u, v) ==> #[trigger] out@.at(u, v) >= 0,
        forall|u: int, v: int| out@.inside(u, v) ==> dense_below(out@, #[trigger] out@.at(u, v) as int),
        out@ == relabelled(segments@, min_size as int, max_size as int),
        connected(out@),
        connected(segments@) && sizes_within(segments@, min_size as int, max_size as int)
            ==> same_regions(segments@, out@),
{
    let width: usize = segments.width;
    let height: usize = segments.height;
    let area: usize = segments.vec.len();
    let mut out: Vec2d<i32> = Vec2d::from_vec(vec![-1i32; area], width, height);
    let mut tally: Vec<usize> = vec![0usize; area];
    let mut cells: Vec<(usize, usize)> = Vec::new();
    let mut next: i32 = 0;
    let mut y: usize = 0;
    let ghost mut pos: int = 0;
    proof {
        assert forall|u: int, v: int| out@.inside(u, v) implies #[trigger] out@.at(u, v) < 0 by {
            out@.lemma_offset(u, v);
        }
        assert(out@.cells =~= blank(segments@.width, segments@.height).cells);
    }
    while y < height
        invariant
            segments.wf(),
            width == segments.width,
            height == segments.height,
            area == width * height,
            area <= i32::MAX,
            0 <= y <= height,
            scanning(segments@, out@, next, 0, y as int),
            connected(segments@) && sizes_within(segments@, min_size as int, max_size as int)
                ==> agreeing(segments@, out@, next),
            next <= width * y,
            pos == width * y,
            (out@, next) == scan(segments@, min_size as int, max_size as int, pos),
            tally@.len() == area,
            forall|l: int| 0 <= l < tally@.len() ==> #[trigger] tally@[l] == 0,
        decreases height - y,
    {
        let mut x: usize = 0;
        while x < width
            invariant
                segments.wf(),
                width == segments.width,
                height == segments.height,
                area == width * height,
                area <= i32::MAX,
                0 <= y < height,
                0 <= x <= width,
                scanning(segments@, out@, next, x as int, y as int),
                connected(segments@) && sizes_within(segments@, min_size as int, max_size as int)
                    ==> agreeing(segments@, out@, next),
                next <= width * y + x,
                pos == width * y + x,
                (out@, next) == scan(segments@, min_size as int, max_size as int, pos),
                tally@.len() == area,
                forall|l: int| 0 <= l < tally@.len() ==> #[trigger] tally@[l] == 0,
            decreases width - x,
        {
            proof {
                segments@.lemma_offset(x as int, y as int);
            }
            next = settle(segments, &mut out, &mut cells, &mut tally, x, y, next, min_size, max_size);
            proof {
                segments@.lemma_cell_of_offset(pos);
                assert(pos % (width as int) == x && pos / (width as int) == y);
                pos = pos + 1;
            }
            x += 1;
        }
        proof {
            assert(width * y + width == width * (y + 1)) by (nonlinear_arith);
        }
        y += 1;
    }
    proof {
        assert(pos == segments@.cells.len()) by (nonlinear_arith)
            requires
                pos == width * y,
                y == height,
                segments@.cells.len() == width * height,
        ;
    }
    out
}

/// Relabels the grid so that every label marks one 4-connected region, for
/// a grid that was cut into `segment_count` segments: a fragment of less than
/// a quarter of the average segment is merged into a neighbour, and a fill
/// stops at five times the average segment.
pub fn enforce_connectivity(segments: Vec2d<i32>, segment_count: usize) -> (out: Vec2d<i32>)
    requires
        segments.wf(),
        segments.width * segments.height <= i32::MAX,
        segment_count >= 1,
    ensures
        out.wf(),
        out@.same_shape(segments@),
        forall|u: int, v: int| out@.inside(u, v) ==> #[trigger] out@.at(u, v) >= 0,
        forall|u: int, v: int| out@.inside(u, v) ==> dense_below(out@, #[trigger] out@.at(u, v) as int),
        out@ == relabelled(
            segments@,
            min_region(segments@.cells.len() as int, segment_count as int),
            max_region(segments@.cells.len() as int, segment_count as int),
        ),
        connected(out@),
        connected(segments@) && sizes_within(
            segments@,
            min_region(segments@.cells.len() as int, segment_count as int),
            max_region(segments@.cells.len() as int, segment_count as int),
        ) ==> same_regions(segments@, out@),
{
    let area: usize = segments.vec.len();
    let average: usize = area / segment_count;
    let min_size: usize = average / MIN_SIZE_DIVISOR;
    let max_size: usize = if average <= usize::MAX / MAX_SIZE_FACTOR {
        average * MAX_SIZE_FACTOR
    } else {
        usize::MAX
    };
    enforce_connectivity_with(&segments, min_size, max_size)
}

} // verus!
