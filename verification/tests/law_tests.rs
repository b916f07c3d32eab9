use bevy::ecs::entity::Entity;
use match3::audio::SoundEffect;
use match3::board::{Grid, GridPos, GRID_COLS, GRID_ROWS};
use match3::game_logic::process_swap;
use match3::gems::{random_layout, GemType};

fn ent(i: usize) -> Entity {
    Entity::from_raw_u32(i as u32 + 1).unwrap()
}

fn kind_of(ch: char) -> Option<GemType> {
    match ch {
        'R' => Some(GemType::Red),
        'B' => Some(GemType::Blue),
        'G' => Some(GemType::Green),
        'Y' => Some(GemType::Yellow),
        'P' => Some(GemType::Purple),
        _ => None,
    }
}

fn grid_from(rows: [&str; 8]) -> Grid {
    let mut grid = Grid::empty();
    for (row, line) in rows.iter().enumerate() {
        for (col, ch) in line.chars().enumerate() {
            if let Some(kind) = kind_of(ch) {
                grid.set_cell(GridPos::new(col, row), ent(row * GRID_COLS + col), kind);
            }
        }
    }
    grid
}

fn grid_from_layout(layout: [[GemType; GRID_COLS]; GRID_ROWS]) -> Grid {
    let mut grid = Grid::empty();
    for row in 0..GRID_ROWS {
        for col in 0..GRID_COLS {
            grid.set_cell(GridPos::new(col, row), ent(row * GRID_COLS + col), layout[row][col]);
        }
    }
    grid
}

const STUCK: [&str; 8] = [
    "RBGYRBGY",
    "GYRBGYRB",
    "RBGYRBGY",
    "GYRBGYRB",
    "RBGYRBGY",
    "GYRBGYRB",
    "RBGYRBGY",
    "GYRBGYRB",
];

/// Every pair of a cell with its right or lower neighbour.
fn adjacent_pairs() -> Vec<(GridPos, GridPos)> {
    let mut pairs = Vec::new();
    for row in 0..GRID_ROWS {
        for col in 0..GRID_COLS {
            if col + 1 < GRID_COLS {
                pairs.push((GridPos::new(col, row), GridPos::new(col + 1, row)));
            }
            if row + 1 < GRID_ROWS {
                pairs.push((GridPos::new(col, row), GridPos::new(col, row + 1)));
            }
        }
    }
    pairs
}

/// Whether `process_swap` accepts some adjacent swap, each tried on a copy.
fn some_swap_accepted(rows: [&str; 8]) -> bool {
    adjacent_pairs().into_iter().any(|(a, b)| {
        let mut grid = grid_from(rows);
        process_swap(&mut grid, a, b).sound == SoundEffect::Swap
    })
}

#[test]
fn game_over_iff_no_swap_is_accepted() {
    assert!(!grid_from(STUCK).has_any_valid_move());
    assert!(!some_swap_accepted(STUCK));

    let mut rows = STUCK;
    rows[5] = "GYRBGYBR";
    rows[6] = "RBGYRBRY";
    let movable = grid_from(rows);
    assert!(movable.find_all_matches().is_empty());
    assert_eq!(movable.has_any_valid_move(), some_swap_accepted(rows));
    assert!(movable.has_any_valid_move());
}

#[test]
fn on_a_stable_board_only_the_swapped_cells_can_match() {
    for _ in 0..20 {
        let mut grid = grid_from_layout(random_layout());
        assert!(grid.find_all_matches().is_empty());
        for (a, b) in adjacent_pairs() {
            grid.swap_cells(a, b);
            assert_eq!(grid.swap_creates_match(a, b), !grid.find_all_matches().is_empty());
            grid.swap_cells(a, b);
        }
    }
}

#[test]
fn accepted_swap_leaves_matches_for_the_cascade() {
    let mut rows = STUCK;
    rows[0] = "RRBRGBGY";
    let mut grid = grid_from(rows);
    let outcome = process_swap(&mut grid, GridPos::new(2, 0), GridPos::new(3, 0));
    assert_eq!(outcome.sound, SoundEffect::Swap);
    assert_eq!(
        grid.find_all_matches(),
        vec![GridPos::new(0, 0), GridPos::new(1, 0), GridPos::new(2, 0)]
    );
}

#[test]
fn swapping_twice_restores_the_board() {
    let mut grid = grid_from_layout(random_layout());
    let before = grid.occupied_cells();
    let kinds: Vec<Option<GemType>> =
        before.iter().map(|(p, _)| grid.kind_at(*p)).collect();
    grid.swap_cells(GridPos::new(4, 4), GridPos::new(4, 5));
    grid.swap_cells(GridPos::new(4, 4), GridPos::new(4, 5));
    assert_eq!(grid.occupied_cells(), before);
    let after: Vec<Option<GemType>> = before.iter().map(|(p, _)| grid.kind_at(*p)).collect();
    assert_eq!(after, kinds);
}

#[test]
fn gravity_keeps_every_gem_and_its_order() {
    let mut rows = STUCK;
    rows[1] = "G.RBGYR.";
    rows[4] = ".BGYR.GY";
    let mut grid = grid_from(rows);
    let column_gems = |grid: &Grid, col: usize| -> Vec<(GemType, Entity)> {
        (0..GRID_ROWS)
            .filter_map(|r| {
                let p = GridPos::new(col, r);
                grid.kind_at(p).map(|k| (k, grid.entity_at(p).unwrap()))
            })
            .collect()
    };
    let before: Vec<_> = (0..GRID_COLS).map(|c| column_gems(&grid, c)).collect();
    let refills = grid.apply_gravity();
    let after: Vec<_> = (0..GRID_COLS).map(|c| column_gems(&grid, c)).collect();
    assert_eq!(before, after);
    assert_eq!(refills.len(), 4);
    for refill in &refills {
        assert_eq!(grid.kind_at(refill.pos), None);
        assert_eq!(refill.pos.row, 0);
        assert_eq!(refill.drop_steps, 1);
    }
}
