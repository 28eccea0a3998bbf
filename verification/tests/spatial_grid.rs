use pgecore::spatial_grid::CellGrid;
use thunderdome::Arena;

// The box of a node is turned into cell ranges by the float layer: with
// `cell_size` 1 and 4 cells per axis the grid spans -2..2, so the box
// -1..1 on every axis covers cells 1..3 on every axis.
#[test]
fn test_add_node() {
    let mut arena = Arena::new();
    let id = arena.insert(0);
    let mut grid = CellGrid::new(4);
    grid.add_node(id, 1..3, 1..3, 1..3);
    let cell = grid.get_cell(1, 1, 1);
    assert_eq!(cell.contains(&id), true);
    let cell = grid.get_cell(1, 1, 2);
    assert_eq!(cell.contains(&id), true);
    let cell = grid.get_cell(1, 2, 1);
    assert_eq!(cell.contains(&id), true);
    let cell = grid.get_cell(1, 2, 2);
    assert_eq!(cell.contains(&id), true);
    let cell = grid.get_cell(2, 1, 1);
    assert_eq!(cell.contains(&id), true);
    let cell = grid.get_cell(2, 1, 2);
    assert_eq!(cell.contains(&id), true);
    let cell = grid.get_cell(2, 2, 1);
    assert_eq!(cell.contains(&id), true);
    let cell = grid.get_cell(2, 2, 2);
    assert_eq!(cell.contains(&id), true);
}

// Cell size 2 with 2 cells per axis spans -2..2; the box (-1,-1,-2)..(0,0,-1)
// covers cell 0 on every axis.
#[test]
fn test_considers_grid_cell_size() {
    let mut arena = Arena::new();
    let id = arena.insert(0);
    let mut grid = CellGrid::new(2);
    grid.add_node(id, 0..1, 0..1, 0..1);
    let cell = grid.get_cell(0, 0, 0);
    assert_eq!(cell.contains(&id), true);
}

// Cell size 5 with 80 cells per axis spans -200..200; the box (1,0,1)..(3,4,3)
// covers cell 40 on every axis.
#[test]
fn test_considers_grid_cell_size2() {
    let mut arena = Arena::new();
    let id = arena.insert(0);
    let mut big_cell = CellGrid::new(80);
    let cells = big_cell.add_node(id, 40..41, 40..41, 40..41);
    assert_eq!(cells, vec![40 + 40 * 80 + 40 * 80 * 80]);
}

#[test]
fn cell_grid_add_visits_box_in_order_and_remove_undoes_it() {
    let mut arena = Arena::new();
    let a = arena.insert(1);
    let b = arena.insert(2);
    let mut grid = CellGrid::new(3);
    assert_eq!(grid.get_cells().len(), 27);
    assert_eq!(grid.get_cell_inx(1, 2, 0), 7);
    let cells = grid.add_node(a, 0..2, 1..2, 0..2);
    assert_eq!(cells, vec![3, 12, 4, 13]);
    grid.add_node(b, 1..2, 1..2, 0..1);
    assert_eq!(grid.get_cell(1, 1, 0), &vec![a, b]);
    grid.rem_node(a);
    assert_eq!(grid.get_cell(1, 1, 0), &vec![b]);
    assert!(grid.get_cell(0, 1, 1).is_empty());
    grid.rem_nodes(&vec![b]);
    assert!(grid.get_cells().iter().all(|c| c.is_empty()));
    // an empty range adds nothing
    assert!(grid.add_node(a, 2..1, 0..3, 0..3).is_empty());
}

#[test]
fn cell_grid_box_fits_exactly_when_every_cell_exists() {
    let grid = CellGrid::new(2);
    assert!(grid.box_fits(&(0..2), &(0..2), &(0..2)));
    // x runs past the side, but every position still names a cell.
    assert!(grid.box_fits(&(0..3), &(0..1), &(0..1)));
    // z = 2 would be cell 8 of 8.
    assert!(!grid.box_fits(&(0..1), &(0..1), &(0..3)));
    assert!(grid.box_fits(&(5..5), &(0..9), &(0..9)));
    assert!(!grid.box_fits(&(0..1), &(0..1), &(usize::MAX - 1..usize::MAX)));
}
