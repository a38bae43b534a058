use crate::grid::Grid;
use vstd::prelude::*;

verus! {

/// Two cells are adjacent when they share an edge.
pub open spec fn adjacent(a: (int, int), b: (int, int)) -> bool {
    ||| a.0 == b.0 && (a.1 == b.1 + 1 || a.1 + 1 == b.1)
    ||| a.1 == b.1 && (a.0 == b.0 + 1 || a.0 + 1 == b.0)
}

/// A walk is a non-empty sequence of cells of the grid that all carry `label`
/// and in which each cell is adjacent to the next.
pub open spec fn is_walk(g: Grid<i32>, walk: Seq<(int, int)>, label: i32) -> bool {
    &&& walk.len() > 0
    &&& forall|i: int|
        0 <= i < walk.len() ==> g.inside((#[trigger] walk[i]).0, walk[i].1) && g.at(
            walk[i].0,
            walk[i].1,
        ) == label
    &&& forall|i: int, j: int|
        0 <= i && j == i + 1 && j < walk.len() ==> adjacent(#[trigger] walk[i], #[trigger] walk[j])
}

/// Cell `b` can be reached from cell `a` by a walk through cells with the label of `a`.
pub open spec fn linked(g: Grid<i32>, a: (int, int), b: (int, int)) -> bool {
    exists|walk: Seq<(int, int)>|
        #[trigger] is_walk(g, walk, g.at(a.0, a.1)) && walk[0] == a && walk[walk.len() - 1] == b
}

/// Every label of the grid marks one 4-connected set of cells: any two cells
/// with the same label are joined by a walk that stays within that label.
pub open spec fn connected(g: Grid<i32>) -> bool {
    forall|ax: int, ay: int, bx: int, by: int|
        g.inside(ax, ay) && g.inside(bx, by) && g.at(ax, ay) == g.at(bx, by) ==> #[trigger] linked(
            g,
            (ax, ay),
            (bx, by),
        )
}

/// As `connected`, but only for the cells that carry a label of zero or more.
pub open spec fn labelled_connected(g: Grid<i32>) -> bool {
    forall|ax: int, ay: int, bx: int, by: int|
        g.inside(ax, ay) && g.inside(bx, by) && g.at(ax, ay) == g.at(bx, by) && g.at(ax, ay) >= 0
            ==> #[trigger] linked(g, (ax, ay), (bx, by))
}

/// No cell of the grid carries `label`.
pub open spec fn absent(g: Grid<i32>, label: i32) -> bool {
    forall|u: int, v: int| g.inside(u, v) ==> #[trigger] g.at(u, v) != label
}

/// What `linked` says of its two ends.
pub proof fn lemma_linked_ends(g: Grid<i32>, a: (int, int), b: (int, int))
    requires
        linked(g, a, b),
    ensures
        g.inside(a.0, a.1),
        g.inside(b.0, b.1),
        g.at(b.0, b.1) == g.at(a.0, a.1),
{
    let walk = choose|walk: Seq<(int, int)>|
        #[trigger] is_walk(g, walk, g.at(a.0, a.1)) && walk[0] == a && walk[walk.len() - 1] == b;
    assert(g.inside(walk[0].0, walk[0].1));
    let last = walk.len() - 1;
    assert(g.inside(walk[last].0, walk[last].1));
}

/// Every cell is linked to itself.
pub proof fn lemma_linked_refl(g: Grid<i32>, a: (int, int))
    requires
        g.inside(a.0, a.1),
    ensures
        linked(g, a, a),
{
    let walk = seq![a];
    assert(is_walk(g, walk, g.at(a.0, a.1)));
}

/// Adjacent cells with one label are linked.
pub proof fn lemma_linked_step(g: Grid<i32>, a: (int, int), b: (int, int))
    requires
        g.inside(a.0, a.1),
        g.inside(b.0, b.1),
        adjacent(a, b),
        g.at(a.0, a.1) == g.at(b.0, b.1),
    ensures
        linked(g, a, b),
{
    let walk = seq![a, b];
    assert(is_walk(g, walk, g.at(a.0, a.1)));
}

/// A walk can be taken backwards.
pub proof fn lemma_linked_sym(g: Grid<i32>, a: (int, int), b: (int, int))
    requires
        linked(g, a, b),
    ensures
        linked(g, b, a),
{
    lemma_linked_ends(g, a, b);
    let walk = choose|walk: Seq<(int, int)>|
        #[trigger] is_walk(g, walk, g.at(a.0, a.1)) && walk[0] == a && walk[walk.len() - 1] == b;
    let n = walk.len() as int;
    let back = Seq::new(walk.len(), |i: int| walk[n - 1 - i]);
    assert forall|i: int, j: int| 0 <= i && j == i + 1 && j < back.len() implies adjacent(
        #[trigger] back[i],
        #[trigger] back[j],
    ) by {
        assert(adjacent(walk[n - 1 - j], walk[n - 1 - i]));
    }
    assert(is_walk(g, back, g.at(b.0, b.1)));
}

/// Two walks that meet can be joined.
pub proof fn lemma_linked_trans(g: Grid<i32>, a: (int, int), b: (int, int), c: (int, int))
    requires
        linked(g, a, b),
        linked(g, b, c),
    ensures
        linked(g, a, c),
{
    lemma_linked_ends(g, a, b);
    let first = choose|walk: Seq<(int, int)>|
        #[trigger] is_walk(g, walk, g.at(a.0, a.1)) && walk[0] == a && walk[walk.len() - 1] == b;
    let second = choose|walk: Seq<(int, int)>|
        #[trigger] is_walk(g, walk, g.at(b.0, b.1)) && walk[0] == b && walk[walk.len() - 1] == c;
    let n = first.len() as int;
    let joined = Seq::new(
        (first.len() + second.len() - 1) as nat,
        |i: int|
            if i < n {
                first[i]
            } else {
                second[i - n + 1]
            },
    );
    assert forall|i: int| 0 <= i < joined.len() implies g.inside(
        (#[trigger] joined[i]).0,
        joined[i].1,
    ) && g.at(joined[i].0, joined[i].1) == g.at(a.0, a.1) by {
        if i < n {
            assert(g.inside(first[i].0, first[i].1));
        } else {
            assert(g.inside(second[i - n + 1].0, second[i - n + 1].1));
        }
    }
    assert forall|i: int, j: int| 0 <= i && j == i + 1 && j < joined.len() implies adjacent(
        #[trigger] joined[i],
        #[trigger] joined[j],
    ) by {
        if j < n {
            assert(adjacent(first[i], first[j]));
        } else if i < n {
            assert(first[i] == second[0]);
            assert(adjacent(second[0], second[1]));
        } else {
            assert(adjacent(second[i - n + 1], second[j - n + 1]));
        }
    }
    assert(is_walk(g, joined, g.at(a.0, a.1)));
}

/// A walk survives any change of the grid that gives all cells of its label
/// one label again.
pub proof fn lemma_linked_frame(g: Grid<i32>, h: Grid<i32>, a: (int, int), b: (int, int))
    requires
        linked(g, a, b),
        g.same_shape(h),
        forall|u: int, v: int|
            g.inside(u, v) && g.at(u, v) == g.at(a.0, a.1) ==> #[trigger] h.at(u, v) == h.at(
                a.0,
                a.1,
            ),
    ensures
        linked(h, a, b),
{
    let walk = choose|walk: Seq<(int, int)>|
        #[trigger] is_walk(g, walk, g.at(a.0, a.1)) && walk[0] == a && walk[walk.len() - 1] == b;
    assert forall|i: int| 0 <= i < walk.len() implies h.inside((#[trigger] walk[i]).0, walk[i].1)
        && h.at(walk[i].0, walk[i].1) == h.at(a.0, a.1) by {
        assert(g.inside(walk[i].0, walk[i].1));
    }
    assert(is_walk(h, walk, h.at(a.0, a.1)));
}

/// Giving `label` to one unlabelled cell `q` keeps the labelled cells connected,
/// provided that `label` was not in use or that `q` has a neighbour `n` carrying it.
pub proof fn lemma_paint_keeps_connected(
    g: Grid<i32>,
    h: Grid<i32>,
    q: (int, int),
    n: (int, int),
    label: i32,
)
    requires
        g.same_shape(h),
        labelled_connected(g),
        g.inside(q.0, q.1),
        g.at(q.0, q.1) < 0,
        label >= 0,
        h.at(q.0, q.1) == label,
        forall|u: int, v: int|
            g.inside(u, v) && (u != q.0 || v != q.1) ==> #[trigger] h.at(u, v) == g.at(u, v),
        absent(g, label) || (g.inside(n.0, n.1) && adjacent(n, q) && g.at(n.0, n.1) == label),
    ensures
        labelled_connected(h),
{
    assert forall|ax: int, ay: int, bx: int, by: int|
        h.inside(ax, ay) && h.inside(bx, by) && h.at(ax, ay) == h.at(bx, by) && h.at(ax, ay)
            >= 0 implies #[trigger] linked(h, (ax, ay), (bx, by)) by {
        let a = (ax, ay);
        let b = (bx, by);
        if h.at(ax, ay) != label {
            assert(linked(g, a, b));
            lemma_linked_frame(g, h, a, b);
        } else if absent(g, label) {
            assert(a == q && b == q);
            lemma_linked_refl(h, q);
        } else {
            lemma_linked_step(h, n, q);
            if a == q {
                lemma_linked_refl(h, q);
            } else {
                assert(linked(g, a, n));
                lemma_linked_frame(g, h, a, n);
                lemma_linked_trans(h, a, n, q);
            }
            if b == q {
                lemma_linked_refl(h, q);
            } else {
                assert(linked(g, b, n));
                lemma_linked_frame(g, h, b, n);
                lemma_linked_trans(h, b, n, q);
            }
            lemma_linked_sym(h, b, q);
            lemma_linked_trans(h, a, q, b);
        }
    }
}

/// Moving every cell of label `from` to label `into` keeps the labelled cells
/// connected, provided that a cell `f` of `from` touches a cell `t` of `into`.
pub proof fn lemma_absorb_keeps_connected(
    g: Grid<i32>,
    h: Grid<i32>,
    from: i32,
    into: i32,
    f: (int, int),
    t: (int, int),
)
    requires
        g.same_shape(h),
        labelled_connected(g),
        from >= 0,
        into >= 0,
        from != into,
        forall|u: int, v: int|
            g.inside(u, v) ==> #[trigger] h.at(u, v) == (if g.at(u, v) == from {
                into
            } else {
                g.at(u, v)
            }),
        g.inside(f.0, f.1),
        g.inside(t.0, t.1),
        adjacent(f, t),
        g.at(f.0, f.1) == from,
        g.at(t.0, t.1) == into,
    ensures
        labelled_connected(h),
{
    assert forall|ax: int, ay: int, bx: int, by: int|
        h.inside(ax, ay) && h.inside(bx, by) && h.at(ax, ay) == h.at(bx, by) && h.at(ax, ay)
            >= 0 implies #[trigger] linked(h, (ax, ay), (bx, by)) by {
        let a = (ax, ay);
        let b = (bx, by);
        if h.at(ax, ay) != into {
            assert(linked(g, a, b));
            lemma_linked_frame(g, h, a, b);
        } else {
            lemma_linked_step(h, f, t);
            // every cell that now carries `into` is linked to `t`
            if g.at(ax, ay) == from {
                assert(linked(g, a, f));
                lemma_linked_frame(g, h, a, f);
                lemma_linked_trans(h, a, f, t);
            } else {
                assert(linked(g, a, t));
                lemma_linked_frame(g, h, a, t);
            }
            if g.at(bx, by) == from {
                assert(linked(g, b, f));
                lemma_linked_frame(g, h, b, f);
                lemma_linked_trans(h, b, f, t);
            } else {
                assert(linked(g, b, t));
                lemma_linked_frame(g, h, b, t);
            }
            lemma_linked_sym(h, b, t);
            lemma_linked_trans(h, a, t, b);
        }
    }
}

} // verus!
