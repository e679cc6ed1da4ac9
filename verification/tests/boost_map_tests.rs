use fleet_suggest::boost_map::{
    blank_map, board_rows, cell_factors, next_cell, relations, ComponentSearchParams, PartSearchParams,
};

#[test]
fn map_cells() {
    let m = blank_map();
    assert_eq!(m[0], [1, 1, 1, 1, 0, 1]);
    assert_eq!(m[1], [0, 1, 1, 1, 1, 0]);
    assert_eq!(m[4], [1, 0, 1, 1, 1, 1]);
}

#[test]
fn cells_reached_two_steps_along_rows_and_columns() {
    let m = blank_map();
    let r = relations(&m);
    assert_eq!(r[0][0], vec![(0, 1), (0, 2), (2, 0)]);
    assert_eq!(r[2][2], vec![(0, 2), (1, 2), (2, 0), (2, 3), (3, 2), (4, 2)]);
    // A blocked cell still reaches its usable neighbours.
    assert_eq!(r[1][0], vec![(0, 0), (1, 1), (1, 2), (2, 0)]);
}

#[test]
fn next_usable_cell() {
    let m = blank_map();
    assert_eq!(next_cell(&m, 0, 3), Some((0, 5)));
    assert_eq!(next_cell(&m, 0, 5), Some((1, 1)));
    assert_eq!(next_cell(&m, 4, 0), Some((4, 2)));
    assert_eq!(next_cell(&m, 4, 5), None);
}

#[test]
fn score_factors_of_a_state() {
    let m = blank_map();
    let r = relations(&m);
    let f = cell_factors(&m, &r, &vec![(0, 0), (0, 2)]);
    assert_eq!(f[0][0], (0, 1));
    assert_eq!(f[0][1], (1, 2));
    assert_eq!(f[0][2], (0, 1));
    assert_eq!(f[2][0], (1, 1));
    assert_eq!(f[1][0], (0, 0));
    assert_eq!(f[0][3], (1, 1));
}

#[test]
fn board_drawing() {
    let rows = board_rows(&vec![(0, 0), (4, 5)]);
    assert_eq!(rows[0], " !  .  .  .     . ");
    assert_eq!(rows[1], "    .  .  .  .    ");
    assert_eq!(rows[4], " .     .  .  .  ! ");
}

#[test]
fn search_params_from_tuples() {
    let p = PartSearchParams::from((3, 2));
    assert_eq!((p.mat_tiles, p.parts_tiles), (3, 2));
    let c = ComponentSearchParams::from((3, 1, 1));
    assert_eq!((c.mat_tiles, c.parts_tiles, c.component_tiles), (3, 1, 1));
}
