use slic::connectivity::{
    enforce_connectivity, enforce_connectivity_with, relabel, MAX_SIZE_FACTOR, MIN_SIZE_DIVISOR,
};
use slic::fill::flood_fill;
use slic::grid::Vec2d;
use slic::tally::{border_labels, pick_most_frequent};

fn noise(width: usize, height: usize, labels: u64, seed: u64) -> Vec<i32> {
    let mut state = seed;
    let mut cells = Vec::new();
    for _ in 0..width * height {
        state = (state * 1103515245 + 12345) % (1 << 31);
        cells.push(((state >> 16) % labels) as i32);
    }
    cells
}

/// The cells that a flood fill of the test's own reaches from `start` within its label.
fn reach(cells: &[i32], width: usize, height: usize, start: usize) -> usize {
    let mut seen = vec![false; cells.len()];
    let mut stack = vec![start];
    seen[start] = true;
    let mut count = 0;
    while let Some(at) = stack.pop() {
        count += 1;
        let (x, y) = (at % width, at / width);
        let mut next = Vec::new();
        if x > 0 {
            next.push(at - 1);
        }
        if x + 1 < width {
            next.push(at + 1);
        }
        if y > 0 {
            next.push(at - width);
        }
        if y + 1 < height {
            next.push(at + width);
        }
        for n in next {
            if !seen[n] && cells[n] == cells[start] {
                seen[n] = true;
                stack.push(n);
            }
        }
    }
    count
}

fn every_label_is_connected(cells: &[i32], width: usize, height: usize) -> bool {
    (0..cells.len()).all(|start| {
        reach(cells, width, height, start) == cells.iter().filter(|l| **l == cells[start]).count()
    })
}

fn labels_are_dense(cells: &[i32]) -> bool {
    let most = cells.iter().copied().max().unwrap_or(-1);
    cells.iter().all(|l| *l >= 0) && (0..=most).all(|l| cells.contains(&l))
}

fn same_regions(a: &[i32], b: &[i32]) -> bool {
    a.len() == b.len()
        && (0..a.len()).all(|i| (0..a.len()).all(|j| (a[i] == a[j]) == (b[i] == b[j])))
}

#[test]
fn sizes_are_a_quarter_and_five_times_the_average() {
    assert_eq!(MIN_SIZE_DIVISOR, 4);
    assert_eq!(MAX_SIZE_FACTOR, 5);
}

#[test]
fn connected_halves_keep_their_shape() {
    let segments = Vec2d::from_vec(vec![0, 0, 1, 1, 0, 0, 1, 1], 4, 2);
    let out = enforce_connectivity(segments, 2);
    assert_eq!(out.width, 4);
    assert_eq!(out.height, 2);
    assert_eq!(out.vec, vec![0, 0, 1, 1, 0, 0, 1, 1]);
}

#[test]
fn labels_are_numbered_in_the_order_of_the_scan() {
    let segments = Vec2d::from_vec(vec![9, 9, 4, 4, 9, 9, 4, 4], 4, 2);
    let out = enforce_connectivity(segments, 2);
    assert_eq!(out.vec, vec![0, 0, 1, 1, 0, 0, 1, 1]);
}

#[test]
fn scattered_label_is_split() {
    let segments = Vec2d::from_vec(vec![0, 1, 0, 1, 0], 5, 1);
    let out = enforce_connectivity(segments, 2);
    assert_eq!(out.vec, vec![0, 1, 2, 3, 4]);
}

#[test]
fn small_fragment_is_merged_into_its_neighbour() {
    let mut cells = vec![0; 16];
    cells[5] = 7;
    let out = enforce_connectivity(Vec2d::from_vec(cells, 4, 4), 1);
    assert_eq!(out.vec, vec![0; 16]);
}

#[test]
fn equal_tallies_go_to_the_smaller_label() {
    // The cell in the middle of the second row meets label 1 below and to the
    // right, label 0 above and to the left.
    let cells = vec![5, 5, 6, 5, 8, 6, 5, 6, 6, 5, 6, 6];
    let out = enforce_connectivity(Vec2d::from_vec(cells, 3, 4), 1);
    assert_eq!(out.vec, vec![0, 0, 1, 0, 0, 1, 0, 1, 1, 0, 1, 1]);
}

#[test]
fn larger_tally_wins_over_smaller_label() {
    // The lone cell touches label 0 once and label 1 three times.
    let cells = vec![
        5, 5, 5, 5, 5, //
        6, 6, 8, 6, 6, //
        6, 6, 6, 6, 6, //
        6, 6, 6, 6, 6,
    ];
    let out = enforce_connectivity_with(&Vec2d::from_vec(cells, 5, 4), 2, 100);
    assert_eq!(
        out.vec,
        vec![
            0, 0, 0, 0, 0, //
            1, 1, 1, 1, 1, //
            1, 1, 1, 1, 1, //
            1, 1, 1, 1, 1,
        ]
    );
}

#[test]
fn fragment_of_a_quarter_of_the_average_keeps_its_label() {
    // One segment on 16 cells: a fragment needs 4 cells to stay.
    let cells = vec![
        0, 0, 0, 0, //
        0, 7, 7, 0, //
        0, 7, 7, 0, //
        0, 0, 0, 0,
    ];
    let out = enforce_connectivity(Vec2d::from_vec(cells, 4, 4), 1);
    assert_eq!(
        out.vec,
        vec![
            0, 0, 0, 0, //
            0, 1, 1, 0, //
            0, 1, 1, 0, //
            0, 0, 0, 0,
        ]
    );
}

#[test]
fn fragment_below_a_quarter_of_the_average_is_merged() {
    let cells = vec![
        0, 0, 0, 0, //
        0, 7, 7, 0, //
        0, 7, 0, 0, //
        0, 0, 0, 0,
    ];
    let out = enforce_connectivity(Vec2d::from_vec(cells, 4, 4), 1);
    assert_eq!(out.vec, vec![0; 16]);
}

#[test]
fn fill_stops_at_five_times_the_average() {
    // Twelve segments on 12 cells: a fill stops at 5 cells, and no fragment is too small.
    let out = enforce_connectivity(Vec2d::from_vec(vec![3; 12], 12, 1), 12);
    assert_eq!(out.vec, vec![0, 0, 0, 0, 0, 1, 1, 1, 1, 1, 2, 2]);
}

#[test]
fn average_is_rounded_down() {
    // Three segments on 16 cells: the average is 5, a fragment needs 1 cell.
    let cells = vec![
        0, 0, 0, 0, //
        0, 7, 0, 0, //
        0, 0, 0, 0, //
        0, 0, 0, 0,
    ];
    let out = enforce_connectivity(Vec2d::from_vec(cells.clone(), 4, 4), 3);
    assert_eq!(
        out.vec,
        vec![
            0, 0, 0, 0, //
            0, 1, 0, 0, //
            0, 0, 0, 0, //
            0, 0, 0, 0,
        ]
    );
    // Two segments: the average is 8, a fragment needs 2 cells.
    let out = enforce_connectivity(Vec2d::from_vec(cells, 4, 4), 2);
    assert_eq!(out.vec, vec![0; 16]);
}

#[test]
fn fill_stops_at_the_largest_size() {
    let out = enforce_connectivity_with(&Vec2d::from_vec(vec![0; 10], 10, 1), 0, 3);
    assert_eq!(out.vec, vec![0, 0, 0, 1, 1, 1, 2, 2, 2, 3]);
}

#[test]
fn largest_size_of_zero_gives_every_cell_a_label() {
    let out = enforce_connectivity_with(&Vec2d::from_vec(vec![0; 3], 3, 1), 0, 0);
    assert_eq!(out.vec, vec![0, 1, 2]);
}

#[test]
fn unassigned_cells_form_regions_of_their_own() {
    let out = enforce_connectivity(Vec2d::from_vec(vec![-1, -1, 0, 0], 2, 2), 2);
    assert_eq!(out.vec, vec![0, 0, 1, 1]);
}

#[test]
fn small_first_fragment_joins_label_zero() {
    let out = enforce_connectivity_with(&Vec2d::from_vec(vec![5, 6, 6, 6], 4, 1), 2, 10);
    assert_eq!(out.vec, vec![0, 0, 0, 0]);
}

#[test]
fn empty_grid_stays_empty() {
    let out = enforce_connectivity(Vec2d::from_vec(Vec::new(), 0, 0), 3);
    assert_eq!(out.vec, Vec::<i32>::new());
    let out = enforce_connectivity(Vec2d::from_vec(Vec::new(), 4, 0), 3);
    assert_eq!((out.width, out.height), (4, 0));
}

#[test]
fn noise_is_cut_into_connected_regions() {
    let (width, height) = (12, 9);
    let cells = noise(width, height, 3, 2024);
    assert_eq!(&cells[..12], &[2, 0, 2, 1, 1, 0, 2, 1, 1, 2, 1, 0]);
    let out = enforce_connectivity(Vec2d::from_vec(cells, width, height), 6);
    assert_eq!(
        out.vec,
        vec![
            0, 0, 0, 0, 0, 0, 0, 1, 1, 1, 1, 2, //
            0, 0, 0, 0, 0, 0, 0, 1, 1, 2, 2, 2, //
            0, 0, 0, 0, 3, 3, 4, 1, 1, 2, 2, 2, //
            0, 0, 0, 0, 0, 3, 4, 4, 1, 1, 2, 2, //
            0, 0, 0, 0, 0, 3, 4, 4, 5, 5, 2, 2, //
            0, 6, 0, 0, 7, 7, 8, 8, 5, 5, 5, 5, //
            6, 6, 7, 0, 7, 7, 8, 8, 5, 5, 5, 5, //
            6, 6, 7, 7, 7, 7, 8, 8, 5, 5, 5, 5, //
            6, 6, 7, 7, 7, 7, 8, 8, 5, 5, 5, 5,
        ]
    );
    assert!(every_label_is_connected(&out.vec, width, height));
    assert!(labels_are_dense(&out.vec));
}

#[test]
fn noise_with_small_fills() {
    let (width, height) = (12, 9);
    let cells = noise(width, height, 3, 2024);
    let out = enforce_connectivity_with(&Vec2d::from_vec(cells, width, height), 0, 4);
    assert_eq!(
        out.vec,
        vec![
            0, 1, 2, 3, 3, 4, 5, 6, 6, 7, 8, 9, //
            10, 11, 12, 3, 13, 13, 5, 6, 6, 14, 9, 9, //
            15, 15, 15, 3, 16, 16, 17, 18, 19, 14, 20, 9, //
            21, 21, 22, 22, 23, 16, 17, 17, 24, 25, 26, 26, //
            27, 21, 22, 22, 23, 16, 28, 17, 29, 29, 26, 30, //
            31, 32, 33, 34, 35, 36, 37, 37, 38, 29, 29, 39, //
            32, 32, 40, 34, 35, 35, 37, 41, 42, 43, 44, 45, //
            32, 46, 40, 40, 35, 47, 37, 48, 49, 43, 50, 51, //
            52, 53, 40, 54, 55, 55, 56, 48, 57, 58, 59, 60,
        ]
    );
    assert!(every_label_is_connected(&out.vec, width, height));
    assert!(labels_are_dense(&out.vec));
}

#[test]
fn every_output_label_is_connected() {
    for seed in 1..40u64 {
        let width = 3 + (seed as usize * 7) % 11;
        let height = 2 + (seed as usize * 5) % 9;
        let labels = 2 + seed % 4;
        let cells = noise(width, height, labels, seed);
        let count = 1 + (seed as usize * 3) % (width * height);
        let out = enforce_connectivity(Vec2d::from_vec(cells.clone(), width, height), count);
        assert!(every_label_is_connected(&out.vec, width, height));
        assert!(labels_are_dense(&out.vec));
        let min_size = seed as usize % 6;
        let max_size = seed as usize % 9;
        let out =
            enforce_connectivity_with(&Vec2d::from_vec(cells, width, height), min_size, max_size);
        assert!(every_label_is_connected(&out.vec, width, height));
        assert!(labels_are_dense(&out.vec));
    }
}

#[test]
fn connected_regions_of_fitting_size_are_only_renumbered() {
    let cells = vec![
        7, 7, 7, 3, 3, 3, //
        7, 7, 7, 3, 3, 3, //
        9, 9, 1, 1, 1, 1, //
        9, 9, 9, 9, 1, 1,
    ];
    let out = enforce_connectivity(Vec2d::from_vec(cells.clone(), 6, 4), 4);
    assert!(same_regions(&cells, &out.vec));
    assert_eq!(
        out.vec,
        vec![
            0, 0, 0, 1, 1, 1, //
            0, 0, 0, 1, 1, 1, //
            2, 2, 3, 3, 3, 3, //
            2, 2, 2, 2, 3, 3,
        ]
    );
    let again = enforce_connectivity(Vec2d::from_vec(out.vec.clone(), 6, 4), 4);
    assert_eq!(again.vec, out.vec);
}

#[test]
fn second_run_is_a_renumbering_where_sizes_fit() {
    for seed in 1..30u64 {
        let width = 4 + (seed as usize * 7) % 9;
        let height = 3 + (seed as usize * 5) % 7;
        let cells = noise(width, height, 3, seed);
        // With no smallest size and no cut, the first run yields the connected
        // regions of the input, and a second run has nothing left to do.
        let first =
            enforce_connectivity_with(&Vec2d::from_vec(cells, width, height), 0, width * height);
        let second = enforce_connectivity_with(
            &Vec2d::from_vec(first.vec.clone(), width, height),
            1,
            width * height,
        );
        assert!(same_regions(&first.vec, &second.vec));
        assert_eq!(first.vec, second.vec);
    }
}

#[test]
fn flood_fill_gathers_the_region_of_its_seed() {
    let segments = Vec2d::from_vec(
        vec![
            1, 1, 2, //
            2, 1, 2, //
            1, 1, 1,
        ],
        3,
        3,
    );
    let mut out = Vec2d::from_vec(vec![-1; 9], 3, 3);
    let mut cells = vec![(9, 9)];
    flood_fill(&segments, &mut out, &mut cells, 0, 0, 4, 100);
    assert_eq!(out.vec, vec![4, 4, -1, -1, 4, -1, 4, 4, 4]);
    assert_eq!(
        cells,
        vec![(0, 0), (1, 0), (1, 1), (1, 2), (2, 2), (0, 2)]
    );
}

#[test]
fn flood_fill_leaves_labelled_cells_alone() {
    let segments = Vec2d::from_vec(vec![1, 1, 1, 1], 4, 1);
    let mut out = Vec2d::from_vec(vec![-1, -1, 0, -1], 4, 1);
    let mut cells = Vec::new();
    flood_fill(&segments, &mut out, &mut cells, 0, 0, 3, 100);
    assert_eq!(out.vec, vec![3, 3, 0, -1]);
    assert_eq!(cells, vec![(0, 0), (1, 0)]);
}

#[test]
fn flood_fill_looks_below_above_right_left() {
    let segments = Vec2d::from_vec(vec![0; 9], 3, 3);
    let mut out = Vec2d::from_vec(vec![-1; 9], 3, 3);
    let mut cells = Vec::new();
    flood_fill(&segments, &mut out, &mut cells, 1, 1, 0, 5);
    assert_eq!(cells, vec![(1, 1), (1, 2), (1, 0), (2, 1), (0, 1)]);
    assert_eq!(out.vec, vec![-1, 0, -1, 0, 0, 0, -1, 0, -1]);
}

#[test]
fn border_lists_each_touching_side() {
    let out = Vec2d::from_vec(
        vec![
            0, 0, 1, //
            0, 5, 1, //
            -1, 5, 2,
        ],
        3,
        3,
    );
    let cells = vec![(1, 1), (1, 2)];
    assert_eq!(border_labels(&out, &cells, 5), vec![0, 1, 0, 2]);
    assert_eq!(border_labels(&out, &Vec::new(), 5), Vec::<i32>::new());
}

#[test]
fn most_frequent_label_is_picked() {
    let mut tally = vec![0usize; 8];
    assert_eq!(pick_most_frequent(&vec![3, 1, 3, 2, 1, 3], &mut tally), 3);
    assert_eq!(tally, vec![0; 8]);
    assert_eq!(pick_most_frequent(&vec![6, 2, 6, 2], &mut tally), 2);
    assert_eq!(pick_most_frequent(&vec![7], &mut tally), 7);
    assert_eq!(pick_most_frequent(&Vec::new(), &mut tally), 0);
    assert_eq!(tally, vec![0; 8]);
}

#[test]
fn relabel_writes_the_listed_cells() {
    let mut out = Vec2d::from_vec(vec![0, 1, 2, 3, 4, 5], 3, 2);
    relabel(&mut out, &vec![(0, 0), (2, 1), (1, 1)], 9);
    assert_eq!(out.vec, vec![9, 1, 2, 3, 9, 9]);
}
