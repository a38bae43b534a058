use slic::boundary::{
    mark_boundaries, on_boundary, CLEAR_ALPHA, EDGE_ALPHA, EDGE_BLUE, EDGE_GREEN, EDGE_RED,
};
use slic::grid::Vec2d;

fn buffer(pixels: usize) -> Vec<u8> {
    let mut bytes = Vec::new();
    for i in 0..pixels {
        bytes.push((i * 4 % 200) as u8 + 1);
        bytes.push((i * 4 % 200) as u8 + 2);
        bytes.push((i * 4 % 200) as u8 + 3);
        bytes.push(200);
    }
    bytes
}

fn is_marked(bytes: &[u8], at: usize) -> bool {
    bytes[at * 4..at * 4 + 4] == [92, 66, 244, 255]
}

fn is_cleared(bytes: &[u8], before: &[u8], at: usize) -> bool {
    bytes[at * 4..at * 4 + 3] == before[at * 4..at * 4 + 3] && bytes[at * 4 + 3] == 0
}

#[test]
fn boundary_colour_is_fixed() {
    assert_eq!(
        [EDGE_RED, EDGE_GREEN, EDGE_BLUE, EDGE_ALPHA, CLEAR_ALPHA],
        [92, 66, 244, 255, 0]
    );
}

#[test]
fn single_label_marks_the_rim_only() {
    let (width, height) = (5, 4);
    let segments = Vec2d::from_vec(vec![0; width * height], width, height);
    let before = buffer(width * height);
    let mut bytes = before.clone();
    mark_boundaries(&mut bytes, &segments);
    assert_eq!(bytes.len(), before.len());
    for y in 0..height {
        for x in 0..width {
            let rim = x == 0 || y == 0 || x == width - 1 || y == height - 1;
            assert_eq!(on_boundary(&segments, x, y), rim);
            if rim {
                assert!(is_marked(&bytes, y * width + x));
            } else {
                assert!(is_cleared(&bytes, &before, y * width + x));
            }
        }
    }
}

#[test]
fn single_pixel_is_a_boundary() {
    let segments = Vec2d::from_vec(vec![0], 1, 1);
    let mut bytes = vec![1, 2, 3, 4];
    mark_boundaries(&mut bytes, &segments);
    assert_eq!(bytes, vec![92, 66, 244, 255]);
}

#[test]
fn both_sides_of_a_border_are_marked() {
    // Two halves of a 6 by 5 image: the columns 2 and 3 face each other.
    let (width, height) = (6, 5);
    let mut labels = Vec::new();
    for _ in 0..height {
        labels.extend_from_slice(&[0, 0, 0, 1, 1, 1]);
    }
    let segments = Vec2d::from_vec(labels, width, height);
    let before = buffer(width * height);
    let mut bytes = before.clone();
    mark_boundaries(&mut bytes, &segments);
    for y in 0..height {
        for x in 0..width {
            let rim = x == 0 || y == 0 || x == width - 1 || y == height - 1;
            let edge = rim || x == 2 || x == 3;
            assert_eq!(is_marked(&bytes, y * width + x), edge);
            if !edge {
                assert!(is_cleared(&bytes, &before, y * width + x));
            }
        }
    }
    assert!(is_cleared(&bytes, &before, 2 * width + 1));
    assert!(is_cleared(&bytes, &before, 2 * width + 4));
}

#[test]
fn unassigned_pixels_are_a_region_of_their_own() {
    let (width, height) = (5, 5);
    let mut labels = vec![0; width * height];
    for y in 0..height {
        for x in 3..width {
            labels[y * width + x] = -1;
        }
    }
    let segments = Vec2d::from_vec(labels, width, height);
    let mut bytes = buffer(width * height);
    mark_boundaries(&mut bytes, &segments);
    assert!(on_boundary(&segments, 2, 2));
    assert!(on_boundary(&segments, 3, 2));
    assert!(!on_boundary(&segments, 1, 2));
    assert!(is_marked(&bytes, 2 * width + 2));
    assert!(is_marked(&bytes, 2 * width + 3));
    assert_eq!(bytes[(2 * width + 1) * 4 + 3], 0);
}

#[test]
fn a_lone_pixel_marks_its_four_neighbours() {
    let (width, height) = (5, 5);
    let mut labels = vec![0; width * height];
    labels[2 * width + 2] = 1;
    let segments = Vec2d::from_vec(labels, width, height);
    let mut bytes = buffer(width * height);
    mark_boundaries(&mut bytes, &segments);
    let marked: Vec<(usize, usize)> = vec![(2, 2), (2, 1), (2, 3), (1, 2), (3, 2)];
    for y in 1..height - 1 {
        for x in 1..width - 1 {
            assert_eq!(is_marked(&bytes, y * width + x), marked.contains(&(x, y)));
        }
    }
}

#[test]
fn empty_image_has_nothing_to_mark() {
    let segments = Vec2d::from_vec(Vec::<i32>::new(), 0, 0);
    let mut bytes: Vec<u8> = Vec::new();
    mark_boundaries(&mut bytes, &segments);
    assert!(bytes.is_empty());
}
