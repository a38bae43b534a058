use crate::grid::{Grid, Vec2d};
use crate::region::adjacent;
use vstd::prelude::*;

verus! {

/// The column and row of a listed cell as mathematical integers.
pub open spec fn spot(c: (usize, usize)) -> (int, int) {
    (c.0 as int, c.1 as int)
}

/// The grid `g` with `label` written into every listed cell.
pub open spec fn paint(g: Grid<i32>, cells: Seq<(usize, usize)>, label: i32) -> Grid<i32>
    decreases cells.len(),
{
    if cells.len() == 0 {
        g
    } else {
        paint(g, cells.drop_last(), label).put(cells.last().0 as int, cells.last().1 as int, label)
    }
}

/// Whether the cell in column `u` of row `v` is among the listed cells.
pub open spec fn holds(cells: Seq<(usize, usize)>, u: int, v: int) -> bool {
    exists|j: int| 0 <= j < cells.len() && (#[trigger] cells[j]).0 == u && cells[j].1 == v
}

/// All listed cells lie inside the grid.
pub open spec fn all_inside(g: Grid<i32>, cells: Seq<(usize, usize)>) -> bool {
    forall|j: int| 0 <= j < cells.len() ==> g.inside((#[trigger] cells[j]).0 as int, cells[j].1 as int)
}

/// A cell that a fill may still take: it carries the wanted input label and
/// no output label yet.
pub open spec fn claimable(
    segments: Grid<i32>,
    taken: Grid<i32>,
    wanted: i32,
    u: int,
    v: int,
) -> bool {
    taken.inside(u, v) && segments.at(u, v) == wanted && taken.at(u, v) < 0
}

/// `paint` changes the listed cells and no others.
pub proof fn lemma_paint_at(g: Grid<i32>, cells: Seq<(usize, usize)>, label: i32)
    requires
        g.wf(),
        all_inside(g, cells),
    ensures
        paint(g, cells, label).wf(),
        paint(g, cells, label).same_shape(g),
        forall|u: int, v: int|
            g.inside(u, v) ==> #[trigger] paint(g, cells, label).at(u, v) == (if holds(cells, u, v) {
                label
            } else {
                g.at(u, v)
            }),
    decreases cells.len(),
{
    if cells.len() > 0 {
        let front = cells.drop_last();
        let last = cells.last();
        assert(all_inside(g, front)) by {
            assert forall|j: int| 0 <= j < front.len() implies g.inside(
                (#[trigger] front[j]).0 as int,
                front[j].1 as int,
            ) by {
                assert(front[j] == cells[j]);
            }
        }
        lemma_paint_at(g, front, label);
        let mid = paint(g, front, label);
        assert(g.inside(last.0 as int, last.1 as int));
        mid.lemma_put(last.0 as int, last.1 as int, label);
        assert forall|u: int, v: int| g.inside(u, v) implies #[trigger] paint(g, cells, label).at(
            u,
            v,
        ) == (if holds(cells, u, v) {
            label
        } else {
            g.at(u, v)
        }) by {
            if u == last.0 && v == last.1 {
                assert(cells[cells.len() - 1] == last);
            } else if holds(front, u, v) {
                let j = choose|j: int| 0 <= j < front.len() && (#[trigger] front[j]).0 == u && front[j].1 == v;
                assert(cells[j] == front[j]);
            } else if holds(cells, u, v) {
                let j = choose|j: int| 0 <= j < cells.len() && (#[trigger] cells[j]).0 == u && cells[j].1 == v;
                assert(front[j] == cells[j]);
            }
        }
    }
}

/// What holds of the cells gathered by a flood fill that began in `cells[0]`
/// when the output labels were `taken`: they are distinct cells of the grid
/// that carry the input label of the first and had no output label, and each
/// but the first touches one gathered before it.
pub open spec fn is_fragment(segments: Grid<i32>, taken: Grid<i32>, cells: Seq<(usize, usize)>) -> bool {
    &&& cells.len() >= 1
    &&& forall|j: int|
        0 <= j < cells.len() ==> claimable(
            segments,
            taken,
            segments.at(cells[0].0 as int, cells[0].1 as int),
            (#[trigger] cells[j]).0 as int,
            cells[j].1 as int,
        )
    &&& forall|j: int, k: int| 0 <= j < k < cells.len() ==> cells[j] != cells[k]
    &&& forall|k: int|
        1 <= k < cells.len() ==> exists|j: int|
            0 <= j < k && adjacent(spot(cells[j]), spot(#[trigger] cells[k]))
}

/// The gathered cells after the cell in column `u` of row `v` was offered to
/// the fill: it is taken, as the last, if fewer than `max_size` cells are
/// gathered, it carries the input label of the first cell, had no output label
/// and is not gathered yet.
pub open spec fn gather(
    segments: Grid<i32>,
    taken: Grid<i32>,
    cells: Seq<(usize, usize)>,
    u: int,
    v: int,
    max_size: int,
) -> Seq<(usize, usize)> {
    if cells.len() < max_size && claimable(
        segments,
        taken,
        segments.at(cells[0].0 as int, cells[0].1 as int),
        u,
        v,
    ) && !holds(cells, u, v) {
        cells.push((u as usize, v as usize))
    } else {
        cells
    }
}

/// The gathered cells after the neighbours of the cell `c` were offered to
/// the fill: the one below, the one above, the one to the right, the one to
/// the left.
pub open spec fn gather_around(
    segments: Grid<i32>,
    taken: Grid<i32>,
    cells: Seq<(usize, usize)>,
    c: (usize, usize),
    max_size: int,
) -> Seq<(usize, usize)> {
    let below = gather(segments, taken, cells, c.0 as int, c.1 + 1, max_size);
    let above = gather(segments, taken, below, c.0 as int, c.1 - 1, max_size);
    let right = gather(segments, taken, above, c.0 + 1, c.1 as int, max_size);
    gather(segments, taken, right, c.0 - 1, c.1 as int, max_size)
}

/// The cells that a fill ends with when it has gathered `cells` and turns to
/// the `i`-th of them next: it goes through the gathered cells in the order in
/// which they came, until none is left or `max_size` cells are gathered.
pub open spec fn fill_from(
    segments: Grid<i32>,
    taken: Grid<i32>,
    cells: Seq<(usize, usize)>,
    i: int,
    max_size: int,
) -> Seq<(usize, usize)>
    decreases max_size - i,
{
    if 0 <= i < cells.len() && cells.len() < max_size {
        fill_from(
            segments,
            taken,
            gather_around(segments, taken, cells, cells[i], max_size),
            i + 1,
            max_size,
        )
    } else {
        cells
    }
}

/// The cells that a flood fill gathers, breadth first, from the cell in
/// column `x` of row `y` when the output labels are `taken`.
pub open spec fn fill(segments: Grid<i32>, taken: Grid<i32>, x: int, y: int, max_size: int) -> Seq<
    (usize, usize),
> {
    fill_from(segments, taken, seq![(x as usize, y as usize)], 0, max_size)
}

/// The state of a fill under way: `cells` is a fragment and `now` is `taken`
/// with `label` written into its cells.
#[verifier::opaque]
pub open spec fn filling(
    segments: Grid<i32>,
    taken: Grid<i32>,
    now: Grid<i32>,
    cells: Seq<(usize, usize)>,
    label: i32,
) -> bool {
    now == paint(taken, cells, label) && is_fragment(segments, taken, cells)
}

/// The cell in column `u` of row `v` carries `label` in `now` if a fill for
/// the wanted input label could take it.
pub open spec fn settled(
    segments: Grid<i32>,
    taken: Grid<i32>,
    now: Grid<i32>,
    wanted: i32,
    label: i32,
    u: int,
    v: int,
) -> bool {
    claimable(segments, taken, wanted, u, v) ==> now.at(u, v) == label
}

/// The four neighbours of the cell `c` are settled.
pub open spec fn closed_at(
    segments: Grid<i32>,
    taken: Grid<i32>,
    now: Grid<i32>,
    wanted: i32,
    label: i32,
    c: (usize, usize),
) -> bool {
    &&& settled(segments, taken, now, wanted, label, c.0 as int, c.1 + 1)
    &&& settled(segments, taken, now, wanted, label, c.0 as int, c.1 - 1)
    &&& settled(segments, taken, now, wanted, label, c.0 + 1, c.1 as int)
    &&& settled(segments, taken, now, wanted, label, c.0 - 1, c.1 as int)
}

/// The neighbours of the first `upto` listed cells are settled: the fill has
/// left none of them behind.
pub open spec fn closed_upto(
    segments: Grid<i32>,
    taken: Grid<i32>,
    now: Grid<i32>,
    cells: Seq<(usize, usize)>,
    upto: int,
    label: i32,
) -> bool {
    forall|j: int|
        0 <= j < upto ==> closed_at(
            segments,
            taken,
            now,
            segments.at(cells[0].0 as int, cells[0].1 as int),
            label,
            #[trigger] cells[j],
        )
}

/// Every cell that carries `label` in `before` carries it in `after`.
pub open spec fn keeps(before: Grid<i32>, after: Grid<i32>, label: i32) -> bool {
    &&& before.same_shape(after)
    &&& forall|u: int, v: int|
        before.inside(u, v) && before.at(u, v) == label ==> #[trigger] after.at(u, v) == label
}

/// Takes the cell in column `nx` of row `ny` into the fill if it carries the
/// wanted input label and has no output label yet.
fn claim(
    segments: &Vec2d<i32>,
    out: &mut Vec2d<i32>,
    cells: &mut Vec<(usize, usize)>,
    nx: usize,
    ny: usize,
    label: i32,
    Ghost(taken): Ghost<Grid<i32>>,
    Ghost(from): Ghost<int>,
)
    requires
        segments.wf(),
        old(out).wf(),
        taken.wf(),
        segments@.same_shape(taken),
        filling(segments@, taken, old(out)@, old(cells)@, label),
        old(out)@.same_shape(taken),
        label >= 0,
        taken.inside(nx as int, ny as int),
        0 <= from < old(cells)@.len(),
        adjacent(spot(old(cells)@[from]), (nx as int, ny as int)),
    ensures
        final(out).wf(),
        final(out)@.same_shape(taken),
        filling(segments@, taken, final(out)@, final(cells)@, label),
        final(cells)@ == (if claimable(
            segments@,
            taken,
            segments@.at(old(cells)@[0].0 as int, old(cells)@[0].1 as int),
            nx as int,
            ny as int,
        ) && !holds(old(cells)@, nx as int, ny as int) {
            old(cells)@.push((nx, ny))
        } else {
            old(cells)@
        }),
        keeps(old(out)@, final(out)@, label),
        settled(
            segments@,
            taken,
            final(out)@,
            segments@.at(old(cells)@[0].0 as int, old(cells)@[0].1 as int),
            label,
            nx as int,
            ny as int,
        ),
{
    proof {
        reveal(filling);
        lemma_paint_at(taken, cells@, label);
    }
    let first: (usize, usize) = cells[0];
    let wanted: i32 = *segments.i(first.0, first.1);
    if *segments.i(nx, ny) == wanted && *out.i(nx, ny) < 0 {
        let ghost before = cells@;
        out.i_assign(nx, ny, label);
        cells.push((nx, ny));
        proof {
            old(out)@.lemma_put(nx as int, ny as int, label);
            assert(cells@.drop_last() == before);
            assert(!holds(before, nx as int, ny as int));
            assert forall|k: int| 1 <= k < cells@.len() implies exists|j: int|
                0 <= j < k && adjacent(spot(cells@[j]), spot(#[trigger] cells@[k])) by {
                if k < before.len() {
                    assert(cells@[k] == before[k]);
                    let j = choose|j: int| 0 <= j < k && adjacent(spot(before[j]), spot(before[k]));
                    assert(cells@[j] == before[j]);
                } else {
                    assert(cells@[from] == before[from]);
                }
            }
            assert forall|j: int| 0 <= j < cells@.len() implies claimable(
                segments@,
                taken,
                segments@.at(cells@[0].0 as int, cells@[0].1 as int),
                (#[trigger] cells@[j]).0 as int,
                cells@[j].1 as int,
            ) by {
                if j < before.len() {
                    assert(cells@[j] == before[j]);
                }
            }
        }
    } else {
        proof {
            if out@.at(nx as int, ny as int) >= 0 && taken.at(nx as int, ny as int) < 0 {
                assert(holds(cells@, nx as int, ny as int));
            }
        }
    }
}

/// Offers the four neighbours of the `i`-th gathered cell to the fill: below,
/// above, right, left, as long as fewer than `max_size` cells are gathered.
fn expand(
    segments: &Vec2d<i32>,
    out: &mut Vec2d<i32>,
    cells: &mut Vec<(usize, usize)>,
    i: usize,
    label: i32,
    max_size: usize,
    Ghost(taken): Ghost<Grid<i32>>,
)
    requires
        segments.wf(),
        old(out).wf(),
        taken.wf(),
        segments@.same_shape(taken),
        filling(segments@, taken, old(out)@, old(cells)@, label),
        old(out)@.same_shape(taken),
        label >= 0,
        i < old(cells)@.len(),
        taken.inside(old(cells)@[i as int].0 as int, old(cells)@[i as int].1 as int),
        old(cells)@.len() < max_size,
    ensures
        final(out).wf(),
        final(out)@.same_shape(taken),
        filling(segments@, taken, final(out)@, final(cells)@, label),
        final(cells)@.len() >= old(cells)@.len(),
        final(cells)@.subrange(0, old(cells)@.len() as int) == old(cells)@,
        final(cells)@.len() <= max_size,
        final(cells)@ == gather_around(
            segments@,
            taken,
            old(cells)@,
            old(cells)@[i as int],
            max_size as int,
        ),
        keeps(old(out)@, final(out)@, label),
        final(cells)@.len() < max_size ==> closed_at(
            segments@,
            taken,
            final(out)@,
            segments@.at(old(cells)@[0].0 as int, old(cells)@[0].1 as int),
            label,
            old(cells)@[i as int],
        ),
{
    let c: (usize, usize) = cells[i];
    let width: usize = segments.width;
    let height: usize = segments.height;
    let ghost start = cells@;
    let ghost cap = max_size as int;
    if c.1 + 1 < height {
        claim(segments, out, cells, c.0, c.1 + 1, label, Ghost(taken), Ghost(i as int));
    }
    let ghost below = cells@;
    assert(below.subrange(0, start.len() as int) == start);
    assert(below == gather(segments@, taken, start, c.0 as int, c.1 + 1, cap));
    if cells.len() < max_size && c.1 > 0 {
        claim(segments, out, cells, c.0, c.1 - 1, label, Ghost(taken), Ghost(i as int));
    }
    let ghost above = cells@;
    assert(above.subrange(0, start.len() as int) == start);
    assert(above == gather(segments@, taken, below, c.0 as int, c.1 - 1, cap));
    if cells.len() < max_size && c.0 + 1 < width {
        claim(segments, out, cells, c.0 + 1, c.1, label, Ghost(taken), Ghost(i as int));
    }
    let ghost right = cells@;
    assert(right.subrange(0, start.len() as int) == start);
    assert(right == gather(segments@, taken, above, c.0 + 1, c.1 as int, cap));
    if cells.len() < max_size && c.0 > 0 {
        claim(segments, out, cells, c.0 - 1, c.1, label, Ghost(taken), Ghost(i as int));
    }
    assert(cells@.subrange(0, start.len() as int) == start);
    assert(cells@ == gather(segments@, taken, right, c.0 - 1, c.1 as int, cap));
}

/// Gathers, breadth first from the cell in column `x` of row `y`, the cells
/// that carry its input label and have no output label yet, each reached from
/// one gathered before it, and writes `label` into them. It looks below, above,
/// right and left of a cell, in that order, and stops once `max_size` cells are
/// gathered.
pub fn flood_fill(
    segments: &Vec2d<i32>,
    out: &mut Vec2d<i32>,
    cells: &mut Vec<(usize, usize)>,
    x: usize,
    y: usize,
    label: i32,
    max_size: usize,
)
    requires
        segments.wf(),
        old(out).wf(),
        segments@.same_shape(old(out)@),
        old(out)@.inside(x as int, y as int),
        old(out)@.at(x as int, y as int) < 0,
        label >= 0,
    ensures
        final(out).wf(),
        final(out)@ == paint(old(out)@, final(cells)@, label),
        final(cells)@ == fill(segments@, old(out)@, x as int, y as int, max_size as int),
        is_fragment(segments@, old(out)@, final(cells)@),
        final(cells)@[0] == (x, y),
        final(cells)@.len() <= max_size || final(cells)@.len() == 1,
        final(cells)@.len() < max_size ==> closed_upto(
            segments@,
            old(out)@,
            final(out)@,
            final(cells)@,
            final(cells)@.len() as int,
            label,
        ),
{
    let ghost taken = out@;
    cells.clear();
    cells.push((x, y));
    out.i_assign(x, y, label);
    proof {
        reveal(filling);
        assert(cells@.drop_last() == Seq::<(usize, usize)>::empty());
        assert(paint(taken, cells@.drop_last(), label) == taken);
    }
    let mut i: usize = 0;
    while i < cells.len() && cells.len() < max_size
        invariant
            segments.wf(),
            out.wf(),
            taken.wf(),
            segments@.same_shape(taken),
            label >= 0,
            filling(segments@, taken, out@, cells@, label),
            out@.same_shape(taken),
            cells@.len() >= 1,
            cells@[0] == (x, y),
            0 <= i <= cells@.len(),
            cells@.len() <= max_size || cells@.len() == 1,
            cells@.len() < max_size ==> closed_upto(segments@, taken, out@, cells@, i as int, label),
            fill_from(segments@, taken, cells@, i as int, max_size as int) == fill(
                segments@,
                taken,
                x as int,
                y as int,
                max_size as int,
            ),
        decreases 2 * (taken.width * taken.height) - cells@.len() - i,
    {
        let ghost start_cells = cells@;
        proof {
            lemma_filling_fits(segments@, taken, out@, cells@, label);
        }
        expand(segments, out, cells, i, label, max_size, Ghost(taken));
        proof {
            lemma_filling_fits(segments@, taken, out@, cells@, label);
            assert(cells@[0] == start_cells[0]);
            if cells@.len() < max_size {
                assert forall|j: int| 0 <= j < i + 1 implies closed_at(
                    segments@,
                    taken,
                    out@,
                    segments@.at(cells@[0].0 as int, cells@[0].1 as int),
                    label,
                    #[trigger] cells@[j],
                ) by {
                    assert(cells@[j] == start_cells[j]);
                }
            }
        }
        i += 1;
    }
    proof {
        reveal(filling);
    }
}

/// A fill under way has gathered cells of the grid, and no more of them than
/// the grid has.
pub proof fn lemma_filling_fits(
    segments: Grid<i32>,
    taken: Grid<i32>,
    now: Grid<i32>,
    cells: Seq<(usize, usize)>,
    label: i32,
)
    requires
        taken.wf(),
        filling(segments, taken, now, cells, label),
    ensures
        cells.len() <= taken.width * taken.height,
        all_inside(taken, cells),
{
    reveal(filling);
    lemma_fragment_fits(segments, taken, cells);
}

/// A fragment has no more cells than the grid.
pub proof fn lemma_fragment_fits(segments: Grid<i32>, taken: Grid<i32>, cells: Seq<(usize, usize)>)
    requires
        taken.wf(),
        is_fragment(segments, taken, cells),
    ensures
        cells.len() <= taken.width * taken.height,
{
    let offsets = cells.map_values(|c: (usize, usize)| taken.offset(c.0 as int, c.1 as int));
    assert forall|j: int, k: int| 0 <= j < k < offsets.len() implies offsets[j] != offsets[k] by {
        assert(cells[j] != cells[k]);
        taken.lemma_offset(cells[j].0 as int, cells[j].1 as int);
        assert(taken.inside(cells[k].0 as int, cells[k].1 as int));
    }
    assert(offsets.no_duplicates());
    offsets.unique_seq_to_set();
    let range = Set::new(|k: int| 0 <= k < taken.width * taken.height);
    vstd::set_lib::lemma_int_range(0, taken.width * taken.height);
    assert(range =~= vstd::set_lib::set_int_range(0, taken.width * taken.height));
    assert(offsets.to_set().subset_of(range)) by {
        assert forall|k: int| offsets.to_set().contains(k) implies range.contains(k) by {
            let j = choose|j: int| 0 <= j < offsets.len() && offsets[j] == k;
            taken.lemma_offset(cells[j].0 as int, cells[j].1 as int);
        }
    }
    vstd::set_lib::lemma_len_subset(offsets.to_set(), range);
}

} // verus!
