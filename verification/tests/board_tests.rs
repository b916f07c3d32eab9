use bevy::ecs::entity::Entity;
use match3::board::{Grid, GridPos, GRID_COLS, GRID_ROWS};
use match3::gems::GemType;
use match3::runs::find_run_indices;

fn ent(i: usize) -> Entity {
    Entity::from_raw_u32(i as u32 + 1).unwrap()
}

fn kind_of(ch: char) -> Option<GemType> {
    match ch {
        'R' => Some(GemType::Red),
        'B' => Some(GemType::Blue),
        'G' => Some(GemType::Green),
        'Y' => Some(GemType::Yellow),
        'P' => Some(GemType::Purple),
        _ => None,
    }
}

/// Builds a grid from eight rows of eight characters; the entity of cell
/// (col, row) is `ent(row * 8 + col)`.
fn grid_from(rows: [&str; 8]) -> Grid {
    let mut grid = Grid::empty();
    for (row, line) in rows.iter().enumerate() {
        for (col, ch) in line.chars().enumerate() {
            if let Some(kind) = kind_of(ch) {
                grid.set_cell(GridPos::new(col, row), ent(row * GRID_COLS + col), kind);
            }
        }
    }
    grid
}

/// A full board without any match and without any valid move.
const STUCK: [&str; 8] = [
    "RBGYRBGY",
    "GYRBGYRB",
    "RBGYRBGY",
    "GYRBGYRB",
    "RBGYRBGY",
    "GYRBGYRB",
    "RBGYRBGY",
    "GYRBGYRB",
];

#[test]
fn grid_pos_new_keeps_coordinates() {
    let p = GridPos::new(3, 5);
    assert_eq!(p.col, 3);
    assert_eq!(p.row, 5);
}

#[test]
fn is_adjacent_only_for_edge_neighbours() {
    let p = GridPos::new(3, 3);
    assert!(p.is_adjacent(GridPos::new(4, 3)));
    assert!(p.is_adjacent(GridPos::new(2, 3)));
    assert!(p.is_adjacent(GridPos::new(3, 2)));
    assert!(p.is_adjacent(GridPos::new(3, 4)));
    assert!(!p.is_adjacent(GridPos::new(4, 4)));
    assert!(!p.is_adjacent(GridPos::new(3, 3)));
    assert!(!p.is_adjacent(GridPos::new(5, 3)));
    assert!(GridPos::new(0, 0).is_adjacent(GridPos::new(1, 0)));
    assert!(GridPos::new(1, 0).is_adjacent(GridPos::new(0, 0)));
}

#[test]
fn empty_grid_has_nothing() {
    let grid = Grid::empty();
    for row in 0..GRID_ROWS {
        for col in 0..GRID_COLS {
            assert_eq!(grid.kind_at(GridPos::new(col, row)), None);
            assert_eq!(grid.entity_at(GridPos::new(col, row)), None);
        }
    }
    assert!(grid.occupied_cells().is_empty());
    assert!(grid.find_all_matches().is_empty());
    assert!(!grid.has_any_valid_move());
}

#[test]
fn set_and_clear_cell() {
    let mut grid = Grid::empty();
    let p = GridPos::new(2, 6);
    grid.set_cell(p, ent(7), GemType::Green);
    assert_eq!(grid.kind_at(p), Some(GemType::Green));
    assert_eq!(grid.entity_at(p), Some(ent(7)));
    assert_eq!(grid.clear_cell(p), Some(ent(7)));
    assert_eq!(grid.kind_at(p), None);
    assert_eq!(grid.entity_at(p), None);
    assert_eq!(grid.clear_cell(p), None);
}

#[test]
fn swap_cells_swaps_both_arrays_and_twice_restores() {
    let mut grid = grid_from(STUCK);
    let a = GridPos::new(0, 0);
    let b = GridPos::new(1, 0);
    grid.swap_cells(a, b);
    assert_eq!(grid.kind_at(a), Some(GemType::Blue));
    assert_eq!(grid.kind_at(b), Some(GemType::Red));
    assert_eq!(grid.entity_at(a), Some(ent(1)));
    assert_eq!(grid.entity_at(b), Some(ent(0)));
    grid.swap_cells(a, b);
    assert_eq!(grid.kind_at(a), Some(GemType::Red));
    assert_eq!(grid.entity_at(b), Some(ent(1)));
}

#[test]
fn swap_with_empty_cell_moves_the_gem() {
    let mut grid = Grid::empty();
    grid.set_cell(GridPos::new(0, 0), ent(0), GemType::Red);
    grid.swap_cells(GridPos::new(0, 0), GridPos::new(0, 1));
    assert_eq!(grid.kind_at(GridPos::new(0, 0)), None);
    assert_eq!(grid.kind_at(GridPos::new(0, 1)), Some(GemType::Red));
    assert_eq!(grid.entity_at(GridPos::new(0, 1)), Some(ent(0)));
}

#[test]
fn occupied_cells_in_row_major_order() {
    let mut grid = Grid::empty();
    grid.set_cell(GridPos::new(5, 4), ent(1), GemType::Red);
    grid.set_cell(GridPos::new(2, 1), ent(2), GemType::Blue);
    grid.set_cell(GridPos::new(7, 1), ent(3), GemType::Blue);
    let cells = grid.occupied_cells();
    assert_eq!(
        cells,
        vec![
            (GridPos::new(2, 1), ent(2)),
            (GridPos::new(7, 1), ent(3)),
            (GridPos::new(5, 4), ent(1)),
        ]
    );
}

#[test]
fn find_run_indices_examples() {
    let r = Some(GemType::Red);
    let b = Some(GemType::Blue);
    assert_eq!(find_run_indices(&[r, r, r, b, b]), vec![0, 1, 2]);
    assert_eq!(find_run_indices(&[b, r, r, r, r]), vec![1, 2, 3, 4]);
    assert_eq!(find_run_indices(&[r, r, None, r, r]), Vec::<usize>::new());
    assert_eq!(find_run_indices(&[None, None, None]), Vec::<usize>::new());
    assert_eq!(find_run_indices(&[r, r, r, b, b, b, b, r]), vec![0, 1, 2, 3, 4, 5, 6]);
    assert_eq!(find_run_indices(&[]), Vec::<usize>::new());
    assert_eq!(find_run_indices(&[r, r]), Vec::<usize>::new());
}

#[test]
fn stuck_board_has_no_match_and_no_move() {
    let grid = grid_from(STUCK);
    assert!(grid.find_all_matches().is_empty());
    assert!(!grid.has_any_valid_move());
}

#[test]
fn find_all_matches_horizontal_and_vertical_each_once() {
    let mut rows = STUCK;
    rows[2] = "RRRYRBGY"; // horizontal run at (0..=2, 2)
    rows[3] = "RYRBGYRB"; // with rows 2 and 4: vertical run at (0, 2..=4)
    rows[4] = "RBGYRBGY";
    // Column 2 now reads R at rows 1, 2 and 3 too; (0,2) and (2,2) lie in
    // two runs each but are listed once.
    let grid = grid_from(rows);
    let matched = grid.find_all_matches();
    assert_eq!(
        matched,
        vec![
            GridPos::new(2, 1),
            GridPos::new(0, 2),
            GridPos::new(1, 2),
            GridPos::new(2, 2),
            GridPos::new(0, 3),
            GridPos::new(2, 3),
            GridPos::new(0, 4),
        ]
    );
}

#[test]
fn swap_creates_match_checks_both_cells() {
    let mut rows = STUCK;
    rows[0] = "RRBRGBGY";
    let mut grid = grid_from(rows);
    // Swapping (2,0) and (3,0) gives R R R B.
    grid.swap_cells(GridPos::new(2, 0), GridPos::new(3, 0));
    assert!(grid.swap_creates_match(GridPos::new(2, 0), GridPos::new(3, 0)));
    assert!(grid.swap_creates_match(GridPos::new(3, 0), GridPos::new(2, 0)));
    grid.swap_cells(GridPos::new(2, 0), GridPos::new(3, 0));
    assert!(!grid.swap_creates_match(GridPos::new(2, 0), GridPos::new(3, 0)));
}

#[test]
fn has_any_valid_move_finds_horizontal_and_vertical_moves() {
    let mut rows = STUCK;
    rows[0] = "RRBRGBGY";
    assert!(grid_from(rows).has_any_valid_move());

    // A vertical move: column 0 reads R, G, R, G... put R at (1,1) so that
    // swapping (0,1) and (1,1) lines up R R R down column 0.
    let mut rows = STUCK;
    rows[1] = "GRRBGYRB";
    assert!(grid_from(rows).has_any_valid_move());
}

#[test]
fn apply_gravity_compacts_columns_and_lists_refills() {
    let mut grid = grid_from(STUCK);
    // Empty (0,2) and (0,5) in column 0 and (3,7) in column 3.
    assert_eq!(grid.clear_cell(GridPos::new(0, 2)), Some(ent(16)));
    assert_eq!(grid.clear_cell(GridPos::new(0, 5)), Some(ent(40)));
    assert_eq!(grid.clear_cell(GridPos::new(3, 7)), Some(ent(59)));
    let refills = grid.apply_gravity();

    // Column 0 was R G . G R . R G (top to bottom); gems fall, keeping order.
    let col0: Vec<Option<GemType>> = (0..GRID_ROWS).map(|r| grid.kind_at(GridPos::new(0, r))).collect();
    assert_eq!(
        col0,
        vec![
            None,
            None,
            Some(GemType::Red),
            Some(GemType::Green),
            Some(GemType::Green),
            Some(GemType::Red),
            Some(GemType::Red),
            Some(GemType::Green),
        ]
    );
    assert_eq!(grid.entity_at(GridPos::new(0, 2)), Some(ent(0)));
    assert_eq!(grid.entity_at(GridPos::new(0, 3)), Some(ent(8)));
    assert_eq!(grid.entity_at(GridPos::new(0, 4)), Some(ent(24)));
    assert_eq!(grid.entity_at(GridPos::new(0, 5)), Some(ent(32)));
    assert_eq!(grid.entity_at(GridPos::new(0, 7)), Some(ent(56)));
    // Column 3 lost its bottom gem: everything moved down one.
    assert_eq!(grid.entity_at(GridPos::new(3, 7)), Some(ent(51)));
    assert_eq!(grid.kind_at(GridPos::new(3, 0)), None);

    let slots: Vec<(GridPos, usize)> = refills.iter().map(|r| (r.pos, r.drop_steps)).collect();
    assert_eq!(
        slots,
        vec![(GridPos::new(0, 0), 2), (GridPos::new(0, 1), 1), (GridPos::new(3, 0), 1)]
    );
    for refill in &refills {
        assert!(GemType::ALL.contains(&refill.kind));
    }
}

#[test]
fn apply_gravity_on_full_board_changes_nothing() {
    let mut grid = grid_from(STUCK);
    let before = grid.occupied_cells();
    let refills = grid.apply_gravity();
    assert!(refills.is_empty());
    assert_eq!(grid.occupied_cells(), before);
}
