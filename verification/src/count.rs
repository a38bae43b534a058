use crate::fill::{all_inside, holds};
use crate::grid::Grid;
use crate::tally::frequency;
use vstd::prelude::*;

verus! {

/// The positions among `cells` at which `label` stands.
pub open spec fn members(cells: Seq<i32>, label: i32) -> Set<int> {
    Set::new(|k: int| 0 <= k < cells.len() && cells[k] == label)
}

/// The offsets in `g` of the listed cells.
pub open spec fn offsets(g: Grid<i32>, cells: Seq<(usize, usize)>) -> Seq<int> {
    Seq::new(cells.len(), |j: int| g.offset(cells[j].0 as int, cells[j].1 as int))
}

/// All listed cells lie inside the grid, carry `label`, and none is listed twice.
pub open spec fn listed_once(g: Grid<i32>, cells: Seq<(usize, usize)>, label: i32) -> bool {
    &&& forall|j: int|
        0 <= j < cells.len() ==> g.inside((#[trigger] cells[j]).0 as int, cells[j].1 as int) && g.at(
            cells[j].0 as int,
            cells[j].1 as int,
        ) == label
    &&& forall|j: int, k: int| 0 <= j < k < cells.len() ==> cells[j] != cells[k]
}

/// There are as many positions with `label` as its frequency says.
pub proof fn lemma_members(cells: Seq<i32>, label: i32)
    ensures
        members(cells, label).finite(),
        members(cells, label).len() == frequency(cells, label),
    decreases cells.len(),
{
    if cells.len() == 0 {
        assert(members(cells, label) =~= Set::empty());
    } else {
        let front = cells.drop_last();
        lemma_members(front, label);
        if cells.last() == label {
            assert(members(cells, label) =~= members(front, label).insert(cells.len() - 1));
        } else {
            assert(members(cells, label) =~= members(front, label));
        }
    }
}

/// Cells listed once, all with one label, are no more than the grid has with that label.
pub proof fn lemma_listed_at_most(g: Grid<i32>, cells: Seq<(usize, usize)>, label: i32)
    requires
        g.wf(),
        listed_once(g, cells, label),
    ensures
        cells.len() <= frequency(g.cells, label),
        offsets(g, cells).no_duplicates(),
        offsets(g, cells).to_set().subset_of(members(g.cells, label)),
{
    let offs = offsets(g, cells);
    assert forall|j: int, k: int| 0 <= j < k < offs.len() implies offs[j] != offs[k] by {
        assert(cells[j] != cells[k]);
        assert(g.inside(cells[k].0 as int, cells[k].1 as int));
        g.lemma_offset(cells[j].0 as int, cells[j].1 as int);
    }
    offs.unique_seq_to_set();
    lemma_members(g.cells, label);
    assert forall|k: int| offs.to_set().contains(k) implies members(g.cells, label).contains(k) by {
        let j = choose|j: int| 0 <= j < offs.len() && offs[j] == k;
        g.lemma_offset(cells[j].0 as int, cells[j].1 as int);
    }
    vstd::set_lib::lemma_len_subset(offs.to_set(), members(g.cells, label));
}

/// Cells listed once, all with one label and as many as the grid has with
/// that label, are all the cells with that label.
pub proof fn lemma_listed_all(
    g: Grid<i32>,
    cells: Seq<(usize, usize)>,
    label: i32,
    u: int,
    v: int,
)
    requires
        g.wf(),
        listed_once(g, cells, label),
        cells.len() >= frequency(g.cells, label),
        g.inside(u, v),
        g.at(u, v) == label,
    ensures
        holds(cells, u, v),
{
    let offs = offsets(g, cells);
    lemma_listed_at_most(g, cells, label);
    offs.unique_seq_to_set();
    lemma_members(g.cells, label);
    vstd::set_lib::lemma_len_subset(offs.to_set(), members(g.cells, label));
    vstd::set_lib::lemma_subset_equality(offs.to_set(), members(g.cells, label));
    g.lemma_offset(u, v);
    assert(members(g.cells, label).contains(g.offset(u, v)));
    assert(offs.to_set().contains(g.offset(u, v)));
    let j = choose|j: int| 0 <= j < offs.len() && offs[j] == g.offset(u, v);
    assert(g.inside(cells[j].0 as int, cells[j].1 as int));
    assert(cells[j].0 == u && cells[j].1 == v);
}

/// A list that holds every cell with `label` has at least as many entries as
/// the grid has cells with that label.
pub proof fn lemma_listed_at_least(g: Grid<i32>, cells: Seq<(usize, usize)>, label: i32)
    requires
        g.wf(),
        all_inside(g, cells),
        forall|u: int, v: int| g.inside(u, v) && #[trigger] g.at(u, v) == label ==> holds(cells, u, v),
    ensures
        cells.len() >= frequency(g.cells, label),
{
    let offs = offsets(g, cells);
    offs.lemma_cardinality_of_set();
    lemma_members(g.cells, label);
    assert(offs.to_set().finite()) by {
        vstd::seq_lib::seq_to_set_is_finite(offs);
    }
    assert forall|k: int| members(g.cells, label).contains(k) implies offs.to_set().contains(k) by {
        // the offset `k` names a cell with `label`, which is listed
        let v = k / g.width;
        let u = k % g.width;
        g.lemma_cell_of_offset(k);
        assert(g.at(u, v) == label);
        let j = choose|j: int| 0 <= j < cells.len() && (#[trigger] cells[j]).0 == u && cells[j].1 == v;
        assert(offs[j] == k);
    }
    vstd::set_lib::lemma_len_subset(members(g.cells, label), offs.to_set());
}

} // verus!
