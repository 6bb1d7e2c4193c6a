use grid_partition::partition::grid::{Cell, CellKey, GridPartition};

#[test]
fn test_cell_add_remove() {
    let mut cell = Cell::new();
    cell.remove(5); // shouldn't panic

    cell.add(4);
    assert_eq!(&vec![4], cell.entities());

    cell.add(5);
    cell.add(6);
    assert_eq!(&vec![4, 5, 6], cell.entities());

    cell.remove(4);
    assert_eq!(&vec![6, 5], cell.entities());
}

#[test]
fn test_cell_key_from_position() {
    let grid = GridPartition::new(10, 10);
    assert_eq!(CellKey::new(0, 0), grid.cell_key((0, 0)));
    assert_eq!(CellKey::new(0, 0), grid.cell_key((5, 5)));
    assert_eq!(CellKey::new(0, 1), grid.cell_key((10, 5)));
    assert_eq!(CellKey::new(1, 0), grid.cell_key((5, 10)));
}

#[test]
fn test_grid_update_entity() {
    let mut grid = GridPartition::new(10, 10);
    grid.update_entity(1, (5, 5));
    grid.update_entity(2, (15, 5));

    assert_eq!(vec![1], grid.cell_entities(CellKey::new(0, 0)));
    assert_eq!(vec![2], grid.cell_entities(CellKey::new(0, 1)));

    grid.update_entity(1, (25, 15));
    assert!(grid.cell_entities(CellKey::new(0, 0)).is_empty());
    assert_eq!(vec![2], grid.cell_entities(CellKey::new(0, 1)));
    assert_eq!(vec![1], grid.cell_entities(CellKey::new(1, 2)));
}

#[test]
fn test_grid_query() {
    let mut grid = GridPartition::new(10, 10);
    grid.update_entity(1, (5, 5));
    grid.update_entity(2, (6, 5));
    grid.update_entity(3, (15, 5));
    grid.update_entity(4, (5, 15));

    assert_eq!(vec![1, 2], grid.query((1, 1), (9, 9)));
    assert_eq!(vec![1, 2, 3, 4], grid.query((0, 0), (20, 20)));
    assert_eq!(vec![1, 2, 3, 4], grid.query((9, 0), (20, 10)));
    assert_eq!(vec![3], grid.query((10, 0), (20, 10)));
}

#[test]
fn test_cell_remove_only_first_occurrence() {
    let mut cell = Cell::new();
    cell.add(9);
    cell.add(8);
    cell.add(9);
    cell.remove(9);
    // the first 9 is swapped out for the last element, which is the other 9
    assert_eq!(&vec![9, 8], cell.entities());
}

#[test]
fn test_cell_remove_absent_is_noop() {
    let mut cell = Cell::new();
    cell.add(1);
    cell.add(2);
    cell.remove(3);
    assert_eq!(&vec![1, 2], cell.entities());
}

#[test]
fn test_cell_key_negative_positions_truncate() {
    let grid = GridPartition::new(10, 10);
    // truncating division maps positions just either side of zero to the
    // same cell, unlike floor division
    assert_eq!(CellKey::new(0, 0), grid.cell_key((-1, -1)));
    assert_eq!(CellKey::new(-1, -1), grid.cell_key((-10, -10)));
    assert_eq!(CellKey::new(0, -1), grid.cell_key((-11, 9)));
    assert_eq!(CellKey::new(-2, 0), grid.cell_key((0, -21)));
}

#[test]
fn test_update_entity_same_position_is_idempotent() {
    let mut grid = GridPartition::new(10, 10);
    grid.update_entity(7, (5, 5));
    grid.update_entity(7, (5, 5));
    assert_eq!(vec![7], grid.cell_entities(CellKey::new(0, 0)));
    assert_eq!(vec![7], grid.query((0, 0), (9, 9)));
}

#[test]
fn test_update_entity_repeated_moves() {
    let mut grid = GridPartition::new(10, 10);
    grid.update_entity(1, (5, 5));
    grid.update_entity(1, (25, 15));
    grid.update_entity(1, (45, 35));
    assert!(grid.cell_entities(CellKey::new(0, 0)).is_empty());
    assert!(grid.cell_entities(CellKey::new(1, 2)).is_empty());
    assert_eq!(vec![1], grid.cell_entities(CellKey::new(3, 4)));
}

#[test]
fn test_query_untouched_region_is_empty() {
    let mut grid = GridPartition::new(10, 10);
    assert!(grid.query((100, 100), (130, 130)).is_empty());

    grid.update_entity(1, (5, 5));
    assert!(grid.query((100, 100), (130, 130)).is_empty());
}

#[test]
fn test_query_inverted_bounds_is_empty() {
    let mut grid = GridPartition::new(10, 10);
    grid.update_entity(1, (5, 5));
    assert!(grid.query((20, 20), (0, 0)).is_empty());
}

#[test]
fn test_query_row_major_order() {
    let mut grid = GridPartition::new(10, 10);
    grid.update_entity(4, (5, 15));
    grid.update_entity(3, (15, 5));
    grid.update_entity(1, (5, 5));
    grid.update_entity(2, (6, 5));
    // cells are reported row by row, and members in insertion order
    assert_eq!(vec![1, 2, 3, 4], grid.query((0, 0), (20, 20)));
}
