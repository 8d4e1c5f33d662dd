//! The 3x3 cell square of area superweapons.

use vera20k::superweapon::cell_grid::iter_cells_3x3;

#[test]
fn produces_nine_cells() {
    let cells: Vec<(u16, u16)> = iter_cells_3x3(10, 10);
    assert_eq!(cells.len(), 9);
}

#[test]
fn centered_at_given_cell() {
    let cells: Vec<(u16, u16)> = iter_cells_3x3(10, 10);
    assert!(cells.contains(&(10, 10))); // center
    assert!(cells.contains(&(9, 9)));   // NW
    assert!(cells.contains(&(11, 11))); // SE
}

#[test]
fn saturates_at_zero() {
    let cells: Vec<(u16, u16)> = iter_cells_3x3(0, 0);
    assert_eq!(cells.len(), 9);
    // All negative offsets clamp to 0.
    assert!(cells.iter().all(|(x, y)| *x <= 1 && *y <= 1));
}

#[test]
fn saturates_at_max() {
    let cells: Vec<(u16, u16)> = iter_cells_3x3(u16::MAX, u16::MAX);
    assert_eq!(cells.len(), 9);
    assert!(cells.iter().all(|(x, y)| *x >= u16::MAX - 1 && *y >= u16::MAX - 1));
}
