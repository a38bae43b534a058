use slic::boundary::mark_boundaries;
use slic::cluster::{member_counts, sweep, unassigned_labels, Window};
use slic::connectivity::enforce_connectivity;
use slic::grid::Vec2d;
use slic::outline::outline;
use slic::params::check_parameters;
use slic::spacing::{Outcome, Search, Verdict};

/// The step of the centroid grid, found by halving.
fn spacing(width: usize, height: usize, count: usize) -> f32 {
    let (h, w, n) = (height as f32, width as f32, count as f32);
    let mut search = Search::new(1.0f32.to_bits(), f32::max(h, w).to_bits(), 64);
    loop {
        let mid = (f32::from_bits(search.lower) + f32::from_bits(search.upper)) / 2.0;
        let diff = n - (h / mid) * (w / mid);
        let verdict = if diff.abs() < 0.001 {
            Verdict::Close
        } else if diff > 0.0 {
            Verdict::TooFew
        } else {
            Verdict::TooMany
        };
        match search.narrow(mid.to_bits(), verdict) {
            Outcome::Found(step) => return f32::from_bits(step),
            Outcome::Narrowed(narrower) => search = narrower,
        }
    }
}

/// Clusters an image in which all pixels have one colour, so that only the
/// places of the pixels count.
fn cluster_plain(width: usize, height: usize, count: usize, compactness: f32) -> Vec2d<i32> {
    let step = spacing(width, height, count);
    let mut centroids: Vec<(f32, f32)> = Vec::new();
    for i in 0..count {
        let px = i as f32 * step;
        let x = px % width as f32 + step / 2.0;
        let y = (px / width as f32).floor() * step;
        let at = width * (y as usize) + (x as usize);
        centroids.push(((at % width) as f32, (at / width) as f32));
    }
    let weight = compactness / step;
    let far = |x: usize, y: usize, c: &(f32, f32)| -> u32 {
        (weight * ((x as f32 - c.0).abs() + (y as f32 - c.1).abs())).to_bits()
    };
    let mut labels = unassigned_labels(width, height);
    let mut best = Vec2d::from_vec(vec![0u32; width * height], width, height);
    for _ in 0..6 {
        for at in 0..labels.vec.len() {
            if labels.vec[at] >= 0 {
                best.vec[at] = far(at % width, at / width, &centroids[labels.vec[at] as usize]);
            }
        }
        let mut windows = Vec::new();
        let mut keys = Vec::new();
        for c in centroids.iter() {
            let window = Window::clipped(
                (c.0 - step * 1.2) as usize,
                (c.0 + step * 1.25) as usize,
                (c.1 - step * 1.2) as usize,
                (c.1 + step * 2.0) as usize,
                width,
                height,
            );
            let mut table = Vec::new();
            for y in window.y_min..window.y_max {
                for x in window.x_min..window.x_max {
                    table.push(far(x, y, c));
                }
            }
            keys.push(Vec2d::from_vec(
                table,
                window.x_max - window.x_min,
                window.y_max - window.y_min,
            ));
            windows.push(window);
        }
        sweep(&mut labels, &mut best, &windows, &keys);
        let counts = member_counts(&labels, count);
        let mut sums = vec![(0.0f32, 0.0f32); count];
        for at in 0..labels.vec.len() {
            if labels.vec[at] >= 0 {
                sums[labels.vec[at] as usize].0 += (at % width) as f32;
                sums[labels.vec[at] as usize].1 += (at / width) as f32;
            }
        }
        for k in 0..count {
            if counts[k] > 0 {
                centroids[k] = (sums[k].0 / counts[k] as f32, sums[k].1 / counts[k] as f32);
            }
        }
    }
    labels
}

#[test]
fn spacing_meets_the_segment_count() {
    let step = spacing(4, 4, 2);
    assert!(((4.0 / step) * (4.0 / step) - 2.0).abs() < 0.001);
    assert_eq!(step, 2.828125);
    for (width, height, count) in [(640, 480, 200), (100, 50, 1), (7, 3, 21), (1920, 1080, 2000)] {
        let step = spacing(width, height, count);
        let estimate = (height as f32 / step) * (width as f32 / step);
        assert!((estimate - count as f32).abs() < 0.001);
    }
}

#[test]
fn plain_image_is_cut_in_two() {
    assert_eq!(check_parameters(4, 4, 2, 10.0f32.to_bits()), Ok(()));
    let labels = cluster_plain(4, 4, 2, 10.0);
    assert_eq!(
        labels.vec,
        vec![
            1, 0, 0, 0, //
            1, 0, 0, 0, //
            1, 1, 0, 0, //
            1, 1, 0, 0,
        ]
    );
    let segments = enforce_connectivity(labels, 2);
    assert_eq!(
        segments.vec,
        vec![
            0, 1, 1, 1, //
            0, 1, 1, 1, //
            0, 0, 1, 1, //
            0, 0, 1, 1,
        ]
    );
    let mut pixels = vec![128u8; 4 * 16];
    mark_boundaries(&mut pixels, &segments);
    for at in 0..16 {
        if at == 6 {
            assert_eq!(&pixels[at * 4..at * 4 + 4], &[128, 128, 128, 0]);
        } else {
            assert_eq!(&pixels[at * 4..at * 4 + 4], &[92, 66, 244, 255]);
        }
    }
}

#[test]
fn plain_image_with_one_segment_has_its_rim_marked() {
    let (width, height) = (7, 5);
    let labels = cluster_plain(width, height, 1, 10.0);
    assert_eq!(labels.vec, vec![0; width * height]);
    let segments = enforce_connectivity(labels, 1);
    assert_eq!(segments.vec, vec![0; width * height]);
    let mut pixels = vec![50u8; 4 * width * height];
    mark_boundaries(&mut pixels, &segments);
    for y in 0..height {
        for x in 0..width {
            let at = (y * width + x) * 4;
            if x == 0 || y == 0 || x + 1 == width || y + 1 == height {
                assert_eq!(&pixels[at..at + 4], &[92, 66, 244, 255]);
            } else {
                assert_eq!(&pixels[at..at + 4], &[50, 50, 50, 0]);
            }
        }
    }
}

#[test]
fn pixels_that_no_window_reaches_become_a_region() {
    // One centroid on a long strip: its window never reaches the right half.
    let (width, height) = (40, 2);
    let labels = cluster_plain(width, height, 1, 10.0);
    for y in 0..height {
        for x in 0..width {
            assert_eq!(labels.vec[y * width + x], if x < 20 { 0 } else { -1 });
        }
    }
    let mut pixels = vec![50u8; 4 * width * height];
    let segments = outline(labels, 1, &mut pixels).unwrap();
    for y in 0..height {
        for x in 0..width {
            assert_eq!(segments.vec[y * width + x], if x < 20 { 0 } else { 1 });
            assert_eq!(pixels[(y * width + x) * 4 + 3], 255);
        }
    }
}
