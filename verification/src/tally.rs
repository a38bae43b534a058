use crate::fill::all_inside;
use crate::grid::{Grid, Vec2d};
use vstd::prelude::*;

verus! {

/// How often `label` occurs among `labels`.
pub open spec fn frequency(labels: Seq<i32>, label: i32) -> int
    decreases labels.len(),
{
    if labels.len() == 0 {
        0
    } else {
        frequency(labels.drop_last(), label) + if labels.last() == label {
            1int
        } else {
            0int
        }
    }
}

/// `target` is the label that occurs most often among `labels`, and of
/// several that occur equally often the smallest; with no labels it is 0.
pub open spec fn most_frequent(labels: Seq<i32>, target: i32) -> bool {
    if labels.len() == 0 {
        target == 0
    } else {
        &&& frequency(labels, target) > 0
        &&& forall|l: i32|
            #[trigger] frequency(labels, l) < frequency(labels, target) || (frequency(labels, l)
                == frequency(labels, target) && target <= l)
    }
}

/// The label that `most_frequent` singles out.
pub open spec fn target_of(labels: Seq<i32>) -> i32 {
    choose|target: i32| most_frequent(labels, target)
}

/// `most_frequent` holds of one label only.
pub proof fn lemma_most_frequent_unique(labels: Seq<i32>, a: i32, b: i32)
    requires
        most_frequent(labels, a),
        most_frequent(labels, b),
    ensures
        a == b,
        a == target_of(labels),
{
    if labels.len() > 0 {
        assert(frequency(labels, b) < frequency(labels, a) || (frequency(labels, b) == frequency(
            labels,
            a,
        ) && a <= b));
        assert(frequency(labels, a) < frequency(labels, b) || (frequency(labels, a) == frequency(
            labels,
            b,
        ) && b <= a));
        let c = target_of(labels);
        assert(most_frequent(labels, c));
        assert(frequency(labels, c) < frequency(labels, a) || (frequency(labels, c) == frequency(
            labels,
            a,
        ) && a <= c));
        assert(frequency(labels, a) < frequency(labels, c) || (frequency(labels, a) == frequency(
            labels,
            c,
        ) && c <= a));
    } else {
        assert(most_frequent(labels, target_of(labels)));
    }
}

/// A label occurs at most as often as there are entries.
pub proof fn lemma_frequency_bounds(labels: Seq<i32>, label: i32)
    ensures
        0 <= frequency(labels, label) <= labels.len(),
    decreases labels.len(),
{
    if labels.len() > 0 {
        lemma_frequency_bounds(labels.drop_last(), label);
    }
}

/// A label occurs among the entries exactly if its frequency is not zero.
pub proof fn lemma_frequency_positive(labels: Seq<i32>, label: i32)
    ensures
        frequency(labels, label) > 0 <==> exists|j: int|
            0 <= j < labels.len() && #[trigger] labels[j] == label,
    decreases labels.len(),
{
    if labels.len() > 0 {
        let front = labels.drop_last();
        lemma_frequency_positive(front, label);
        lemma_frequency_bounds(front, label);
        if labels.last() == label {
            assert(labels[labels.len() - 1] == label);
        } else if frequency(front, label) > 0 {
            let j = choose|j: int| 0 <= j < front.len() && #[trigger] front[j] == label;
            assert(labels[j] == label);
        } else if exists|j: int| 0 <= j < labels.len() && #[trigger] labels[j] == label {
            let j = choose|j: int| 0 <= j < labels.len() && #[trigger] labels[j] == label;
            assert(front[j] == label);
        }
    }
}

/// Taking one more entry adds one to the frequency of that entry's label.
pub proof fn lemma_frequency_step(labels: Seq<i32>, k: int, label: i32)
    requires
        0 <= k < labels.len(),
    ensures
        frequency(labels.take(k + 1), label) == frequency(labels.take(k), label) + if labels[k]
            == label {
            1int
        } else {
            0int
        },
{
    assert(labels.take(k + 1).drop_last() == labels.take(k));
}

/// Finds the label that occurs most often among `labels`, the smallest of
/// them where several occur equally often, and 0 where there is none.
/// `tally` is scratch space with one zero entry for every label that may
/// occur; it is handed back with all entries zero.
pub fn pick_most_frequent(labels: &Vec<i32>, tally: &mut Vec<usize>) -> (target: i32)
    requires
        forall|k: int| 0 <= k < labels@.len() ==> 0 <= #[trigger] labels@[k] < old(tally)@.len(),
        forall|l: int| 0 <= l < old(tally)@.len() ==> #[trigger] old(tally)@[l] == 0,
    ensures
        most_frequent(labels@, target),
        target == target_of(labels@),
        final(tally)@ == old(tally)@,
{
    let n: usize = labels.len();
    let mut k: usize = 0;
    while k < n
        invariant
            n == labels@.len(),
            0 <= k <= n,
            tally@.len() == old(tally)@.len(),
            forall|j: int| 0 <= j < labels@.len() ==> 0 <= #[trigger] labels@[j] < tally@.len(),
            forall|l: i32|
                0 <= l < tally@.len() ==> #[trigger] tally@[l as int] == frequency(
                    labels@.take(k as int),
                    l,
                ),
            forall|i: int| i32::MAX < i < tally@.len() ==> #[trigger] tally@[i] == 0,
        decreases n - k,
    {
        let l: i32 = labels[k];
        proof {
            lemma_frequency_bounds(labels@.take(k as int), l);
            assert forall|m: i32| 0 <= m < tally@.len() implies frequency(
                labels@.take(k + 1),
                m,
            ) == frequency(labels@.take(k as int), m) + if m == l {
                1int
            } else {
                0int
            } by {
                lemma_frequency_step(labels@, k as int, m);
            }
        }
        let count: usize = tally[l as usize];
        tally[l as usize] = count + 1;
        k += 1;
    }
    proof {
        assert(labels@.take(n as int) == labels@);
    }
    let mut best: i32 = 0;
    let mut best_count: usize = 0;
    k = 0;
    while k < n
        invariant
            n == labels@.len(),
            0 <= k <= n,
            forall|j: int| 0 <= j < labels@.len() ==> 0 <= #[trigger] labels@[j] < tally@.len(),
            forall|l: i32|
                0 <= l < tally@.len() ==> #[trigger] tally@[l as int] == frequency(labels@, l),
            k == 0 ==> best == 0 && best_count == 0,
            k > 0 ==> best_count > 0 && frequency(labels@, best) == best_count,
            forall|j: int|
                0 <= j < k ==> frequency(labels@, #[trigger] labels@[j]) < best_count || (frequency(
                    labels@,
                    labels@[j],
                ) == best_count && best <= labels@[j]),
        decreases n - k,
    {
        let l: i32 = labels[k];
        let count: usize = tally[l as usize];
        proof {
            lemma_frequency_positive(labels@, l);
        }
        if count > best_count || (count == best_count && l < best) {
            best = l;
            best_count = count;
        }
        k += 1;
    }
    proof {
        if n > 0 {
            assert forall|l: i32|
                #[trigger] frequency(labels@, l) < frequency(labels@, best) || (frequency(
                    labels@,
                    l,
                ) == frequency(labels@, best) && best <= l) by {
                lemma_frequency_positive(labels@, l);
                lemma_frequency_bounds(labels@, l);
                if frequency(labels@, l) > 0 {
                    let j = choose|j: int| 0 <= j < labels@.len() && #[trigger] labels@[j] == l;
                    assert(frequency(labels@, labels@[j]) < best_count || (frequency(
                        labels@,
                        labels@[j],
                    ) == best_count && best <= labels@[j]));
                }
            }
        }
    }
    k = 0;
    while k < n
        invariant
            n == labels@.len(),
            0 <= k <= n,
            tally@.len() == old(tally)@.len(),
            forall|j: int| 0 <= j < labels@.len() ==> 0 <= #[trigger] labels@[j] < tally@.len(),
            forall|l: i32|
                0 <= l < tally@.len() ==> #[trigger] tally@[l as int] == 0 || (tally@[l as int]
                    == frequency(labels@, l) && forall|j: int|
                    0 <= j < k ==> #[trigger] labels@[j] != l),
            forall|i: int| i32::MAX < i < tally@.len() ==> #[trigger] tally@[i] == 0,
        decreases n - k,
    {
        let l: i32 = labels[k];
        tally[l as usize] = 0;
        k += 1;
    }
    proof {
        assert forall|i: int| 0 <= i < tally@.len() implies tally@[i] == 0 by {
            if i <= i32::MAX {
                let l = i as i32;
                assert(tally@[l as int] == tally@[i]);
                lemma_frequency_positive(labels@, l);
            }
        }
        assert(tally@ =~= old(tally)@);
        lemma_most_frequent_unique(labels@, best, best);
    }
    best
}

/// The output label met in the cell in column `u` of row `v`, if that cell
/// lies inside the grid and carries a label of zero or more other than `own`.
pub open spec fn seen_at(g: Grid<i32>, u: int, v: int, own: i32) -> Seq<i32> {
    if g.inside(u, v) && g.at(u, v) >= 0 && g.at(u, v) != own {
        seq![g.at(u, v)]
    } else {
        Seq::empty()
    }
}

/// The labels met below, above, right and left of the cell `c`, in that order.
pub open spec fn border_of(g: Grid<i32>, c: (usize, usize), own: i32) -> Seq<i32> {
    seen_at(g, c.0 as int, c.1 + 1, own) + seen_at(g, c.0 as int, c.1 - 1, own) + seen_at(
        g,
        c.0 + 1,
        c.1 as int,
        own,
    ) + seen_at(g, c.0 - 1, c.1 as int, own)
}

/// The labels met around the listed cells, cell after cell: one entry for each
/// side on which a cell touches a cell that carries another label of zero or more.
pub open spec fn border(g: Grid<i32>, cells: Seq<(usize, usize)>, own: i32) -> Seq<i32>
    decreases cells.len(),
{
    if cells.len() == 0 {
        Seq::empty()
    } else {
        border(g, cells.drop_last(), own) + border_of(g, cells.last(), own)
    }
}

/// Notes the label of the cell in column `u` of row `v` if it counts.
fn note(out: &Vec2d<i32>, u: usize, v: usize, own: i32, labels: &mut Vec<i32>)
    requires
        out.wf(),
        out@.inside(u as int, v as int),
    ensures
        final(labels)@ == old(labels)@ + seen_at(out@, u as int, v as int, own),
{
    let l: i32 = *out.i(u, v);
    if l >= 0 && l != own {
        labels.push(l);
        assert(labels@ == old(labels)@ + seq![l]);
    } else {
        assert(labels@ == old(labels)@ + Seq::<i32>::empty());
    }
}

/// Notes the labels met below, above, right and left of the cell `c`.
fn note_around(out: &Vec2d<i32>, c: (usize, usize), own: i32, labels: &mut Vec<i32>)
    requires
        out.wf(),
        out@.inside(c.0 as int, c.1 as int),
    ensures
        final(labels)@ == old(labels)@ + border_of(out@, c, own),
{
    let ghost s1 = seen_at(out@, c.0 as int, c.1 + 1, own);
    let ghost s2 = seen_at(out@, c.0 as int, c.1 - 1, own);
    let ghost s3 = seen_at(out@, c.0 + 1, c.1 as int, own);
    let ghost s4 = seen_at(out@, c.0 - 1, c.1 as int, own);
    if c.1 + 1 < out.height {
        note(out, c.0, c.1 + 1, own, labels);
    }
    assert(labels@ == old(labels)@ + s1);
    if c.1 > 0 {
        note(out, c.0, c.1 - 1, own, labels);
    }
    assert(labels@ == old(labels)@ + s1 + s2);
    if c.0 + 1 < out.width {
        note(out, c.0 + 1, c.1, own, labels);
    }
    assert(labels@ == old(labels)@ + s1 + s2 + s3);
    if c.0 > 0 {
        note(out, c.0 - 1, c.1, own, labels);
    }
    assert(labels@ == old(labels)@ + s1 + s2 + s3 + s4);
    assert(old(labels)@ + s1 + s2 + s3 + s4 == old(labels)@ + (s1 + s2 + s3 + s4));
}

/// Lists the labels met around the listed cells.
pub fn border_labels(out: &Vec2d<i32>, cells: &Vec<(usize, usize)>, own: i32) -> (labels: Vec<i32>)
    requires
        out.wf(),
        all_inside(out@, cells@),
    ensures
        labels@ == border(out@, cells@, own),
{
    let mut labels: Vec<i32> = Vec::new();
    let n: usize = cells.len();
    let mut i: usize = 0;
    while i < n
        invariant
            out.wf(),
            all_inside(out@, cells@),
            n == cells@.len(),
            0 <= i <= n,
            labels@ == border(out@, cells@.take(i as int), own),
        decreases n - i,
    {
        let c: (usize, usize) = cells[i];
        assert(out@.inside(c.0 as int, c.1 as int));
        note_around(out, c, own, &mut labels);
        proof {
            assert(cells@.take(i + 1).drop_last() == cells@.take(i as int));
            assert(cells@.take(i + 1).last() == c);
        }
        i += 1;
    }
    proof {
        assert(cells@.take(n as int) == cells@);
    }
    labels
}

} // verus!
