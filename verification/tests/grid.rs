use slic::grid::Vec2d;

#[test]
fn grid_is_row_major() {
    let grid = Vec2d::from_vec(vec![10, 11, 12, 20, 21, 22], 3, 2);
    assert_eq!(grid.width, 3);
    assert_eq!(grid.height, 2);
    assert_eq!(*grid.i(0, 0), 10);
    assert_eq!(*grid.i(1, 0), 11);
    assert_eq!(*grid.i(2, 0), 12);
    assert_eq!(*grid.i(0, 1), 20);
    assert_eq!(*grid.i(1, 1), 21);
    assert_eq!(*grid.i(2, 1), 22);
}

#[test]
fn grid_assign_changes_one_cell() {
    let mut grid = Vec2d::from_vec(vec![0u8; 6], 3, 2);
    grid.i_assign(1, 1, 7);
    assert_eq!(grid.vec, vec![0, 0, 0, 0, 7, 0]);
    grid.i_assign(0, 0, 3);
    assert_eq!(grid.vec, vec![3, 0, 0, 0, 7, 0]);
}

#[test]
fn grid_mutable_borrow_writes_through() {
    let mut grid = Vec2d::from_vec(vec![1, 2, 3, 4, 5, 6], 2, 3);
    assert_eq!(*grid.i_mut(1, 2), 6);
    *grid.i_mut(1, 2) = 60;
    *grid.i_mut(0, 1) += 10;
    assert_eq!(grid.vec, vec![1, 2, 13, 4, 5, 60]);
}

#[test]
fn grid_holds_any_type() {
    let grid = Vec2d::from_vec(vec![String::from("a"), String::from("b")], 1, 2);
    assert_eq!(grid.i(0, 1).as_str(), "b");
}

#[test]
fn grid_of_one_cell() {
    let mut grid = Vec2d::from_vec(vec![5i32], 1, 1);
    assert_eq!(*grid.i(0, 0), 5);
    grid.i_assign(0, 0, -1);
    assert_eq!(grid.vec, vec![-1]);
}
