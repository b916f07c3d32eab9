use bevy::ecs::entity::Entity;
use match3::audio::SoundEffect;
use match3::board::{Grid, GridPos, GRID_COLS, GRID_ROWS};
use match3::game_logic::{
    point_award, process_cascade, process_cascade_with_draws, process_swap, CascadeOutcome, Score,
    SwapOutcome, MINIMUM_MATCH, POINTS_PER_CLEARED_GEM,
};
use match3::gems::{layout_from_draws, random_layout, GemType};
use match3::{GameState, GameSystems, ScreenState};

fn ent(i: usize) -> Entity {
    Entity::from_raw_u32(i as u32 + 1).unwrap()
}

fn kind_of(ch: char) -> Option<GemType> {
    match ch {
        'R' => Some(GemType::Red),
        'B' => Some(GemType::Blue),
        'G' => Some(GemType::Green),
        'Y' => Some(GemType::Yellow),
        'P' => Some(GemType::Purple),
        _ => None,
    }
}

fn grid_from(rows: [&str; 8]) -> Grid {
    let mut grid = Grid::empty();
    for (row, line) in rows.iter().enumerate() {
        for (col, ch) in line.chars().enumerate() {
            if let Some(kind) = kind_of(ch) {
                grid.set_cell(GridPos::new(col, row), ent(row * GRID_COLS + col), kind);
            }
        }
    }
    grid
}

const STUCK: [&str; 8] = [
    "RBGYRBGY",
    "GYRBGYRB",
    "RBGYRBGY",
    "GYRBGYRB",
    "RBGYRBGY",
    "GYRBGYRB",
    "RBGYRBGY",
    "GYRBGYRB",
];

#[test]
fn point_award_is_ten_per_cleared_gem() {
    assert_eq!(MINIMUM_MATCH, 3);
    assert_eq!(POINTS_PER_CLEARED_GEM, 10);
    assert_eq!(point_award(3), 30);
    assert_eq!(point_award(4), 40);
    assert_eq!(point_award(7), 70);
    assert_eq!(point_award(64), 640);
}

#[test]
fn score_starts_at_zero_and_reads_as_text() {
    let score = Score::default();
    assert_eq!(score.value, 0);
    assert_eq!(score.to_string(), "Score: 0");
    assert_eq!(Score { value: 1300 }.to_string(), "Score: 1300");
}

#[test]
fn process_swap_keeps_a_matching_swap() {
    let mut rows = STUCK;
    rows[0] = "RRBRGBGY";
    let mut grid = grid_from(rows);
    let outcome = process_swap(&mut grid, GridPos::new(2, 0), GridPos::new(3, 0));
    assert_eq!(
        outcome,
        SwapOutcome { sound: SoundEffect::Swap, next_state: Some(GameState::Animating) }
    );
    assert_eq!(grid.kind_at(GridPos::new(2, 0)), Some(GemType::Red));
    assert_eq!(grid.kind_at(GridPos::new(3, 0)), Some(GemType::Blue));
    assert_eq!(grid.entity_at(GridPos::new(2, 0)), Some(ent(3)));
}

#[test]
fn process_swap_reverts_a_swap_without_match() {
    let mut grid = grid_from(STUCK);
    let before = grid.occupied_cells();
    let outcome = process_swap(&mut grid, GridPos::new(0, 0), GridPos::new(1, 0));
    assert_eq!(outcome, SwapOutcome { sound: SoundEffect::Invalid, next_state: None });
    assert_eq!(grid.occupied_cells(), before);
    assert_eq!(grid.kind_at(GridPos::new(0, 0)), Some(GemType::Red));
}

#[test]
fn process_cascade_settles_to_playing_or_game_over() {
    let mut rows = STUCK;
    rows[0] = "RRBRGBGY";
    let mut grid = grid_from(rows);
    let mut score = Score { value: 5 };
    match process_cascade(&mut grid, &mut score) {
        CascadeOutcome::Settled(state) => assert_eq!(state, GameState::Playing),
        other => panic!("unexpected {:?}", other),
    }
    assert_eq!(score.value, 5);

    let mut grid = grid_from(STUCK);
    match process_cascade(&mut grid, &mut score) {
        CascadeOutcome::Settled(state) => assert_eq!(state, GameState::GameOver),
        other => panic!("unexpected {:?}", other),
    }
    assert_eq!(score.value, 5);
}

#[test]
fn process_cascade_clears_scores_and_drops() {
    let mut rows = STUCK;
    rows[7] = "GRRRGYRB"; // a run of four? no: R R R at cols 1..=3
    let mut grid = grid_from(rows);
    let mut score = Score { value: 50 };
    match process_cascade(&mut grid, &mut score) {
        CascadeOutcome::Cleared { despawned, refills } => {
            assert_eq!(despawned, vec![ent(57), ent(58), ent(59)]);
            let slots: Vec<(GridPos, usize)> = refills.iter().map(|r| (r.pos, r.drop_steps)).collect();
            assert_eq!(
                slots,
                vec![(GridPos::new(1, 0), 1), (GridPos::new(2, 0), 1), (GridPos::new(3, 0), 1)]
            );
        }
        other => panic!("unexpected {:?}", other),
    }
    assert_eq!(score.value, 80);
    // The gems above fell one row: (1,6) came down to (1,7).
    assert_eq!(grid.entity_at(GridPos::new(1, 7)), Some(ent(49)));
    assert_eq!(grid.kind_at(GridPos::new(1, 0)), None);
}

#[test]
fn process_cascade_score_saturates() {
    let mut rows = STUCK;
    rows[7] = "GRRRGYRB";
    let mut grid = grid_from(rows);
    let mut score = Score { value: u32::MAX - 10 };
    let _ = process_cascade(&mut grid, &mut score);
    assert_eq!(score.value, u32::MAX);
}

#[test]
fn random_no_match_never_completes_a_run() {
    let mut kinds = [[None; GRID_COLS]; GRID_ROWS];
    kinds[3][0] = Some(GemType::Red);
    kinds[3][1] = Some(GemType::Red);
    kinds[1][2] = Some(GemType::Blue);
    kinds[2][2] = Some(GemType::Blue);
    for _ in 0..300 {
        let g = GemType::random_no_match(2, 3, &kinds);
        assert_ne!(g, GemType::Red);
        assert_ne!(g, GemType::Blue);
    }
}

#[test]
fn random_layout_starts_without_matches() {
    for _ in 0..50 {
        let layout = random_layout();
        let mut grid = Grid::empty();
        for row in 0..GRID_ROWS {
            for col in 0..GRID_COLS {
                grid.set_cell(GridPos::new(col, row), ent(row * GRID_COLS + col), layout[row][col]);
            }
        }
        assert!(grid.find_all_matches().is_empty());
        assert_eq!(grid.occupied_cells().len(), GRID_ROWS * GRID_COLS);
    }
}

#[test]
fn random_gem_is_one_of_all() {
    for _ in 0..100 {
        assert!(GemType::ALL.contains(&GemType::random()));
    }
}

#[test]
fn from_index_reads_all_in_order() {
    assert_eq!(GemType::from_index(0), GemType::Red);
    assert_eq!(GemType::from_index(1), GemType::Blue);
    assert_eq!(GemType::from_index(2), GemType::Green);
    assert_eq!(GemType::from_index(3), GemType::Yellow);
    assert_eq!(GemType::from_index(4), GemType::Purple);
}

#[test]
fn sound_effect_asset_paths() {
    assert_eq!(SoundEffect::Select.asset_path(), "audio/select.ogg");
    assert_eq!(SoundEffect::Swap.asset_path(), "audio/swap.ogg");
    assert_eq!(SoundEffect::Match.asset_path(), "audio/match.ogg");
    assert_eq!(SoundEffect::Invalid.asset_path(), "audio/invalid.ogg");
    assert_eq!(SoundEffect::ALL.len(), 4);
}

#[test]
fn states_start_where_the_game_starts() {
    assert_eq!(ScreenState::default(), ScreenState::MainMenu);
    assert_eq!(GameState::default(), GameState::Playing);
    assert_ne!(GameSystems::Input, GameSystems::Logic);
}

#[test]
fn allowed_kinds_rule_out_completed_runs() {
    let mut kinds = [[None; GRID_COLS]; GRID_ROWS];
    kinds[3][0] = Some(GemType::Red);
    kinds[3][1] = Some(GemType::Red);
    kinds[1][2] = Some(GemType::Blue);
    kinds[2][2] = Some(GemType::Blue);
    assert_eq!(
        GemType::allowed_kinds_at(2, 3, &kinds),
        vec![GemType::Green, GemType::Yellow, GemType::Purple]
    );
    assert_eq!(GemType::pick_allowed(2, 3, &kinds, 0), GemType::Green);
    assert_eq!(GemType::pick_allowed(2, 3, &kinds, 2), GemType::Purple);
    assert_eq!(GemType::allowed_kinds_at(0, 0, &kinds), GemType::ALL.to_vec());
    assert_eq!(GemType::pick_allowed(0, 0, &kinds, 1), GemType::Blue);
}

#[test]
fn layout_from_draws_is_determined_by_the_draws() {
    let zeros = [[0usize; GRID_COLS]; GRID_ROWS];
    let layout = layout_from_draws(&zeros);
    let (r, b) = (GemType::Red, GemType::Blue);
    assert_eq!(layout[0], [r, r, b, r, r, b, r, r]);
    assert_eq!(layout[1], [r, r, b, r, r, b, r, r]);
    assert_eq!(layout[2][0], b);
    assert_eq!(layout_from_draws(&zeros), layout);

    let mut draws = zeros;
    draws[0][0] = 6; // 6 mod 5 picks Blue among all five kinds
    assert_eq!(layout_from_draws(&draws)[0][0], b);
}

#[test]
fn grid_from_layout_is_full_and_refill_fills_the_gaps() {
    let layout = layout_from_draws(&[[7usize; GRID_COLS]; GRID_ROWS]);
    let mut entities = [[ent(0); GRID_COLS]; GRID_ROWS];
    for row in 0..GRID_ROWS {
        for col in 0..GRID_COLS {
            entities[row][col] = ent(row * GRID_COLS + col);
        }
    }
    let mut grid = Grid::from_layout(&layout, &entities);
    assert_eq!(grid.occupied_cells().len(), GRID_ROWS * GRID_COLS);
    assert!(grid.find_all_matches().is_empty());
    assert_eq!(grid.kind_at(GridPos::new(3, 4)), Some(layout[4][3]));
    assert_eq!(grid.entity_at(GridPos::new(3, 4)), Some(ent(35)));

    grid.clear_cell(GridPos::new(5, 6));
    grid.clear_cell(GridPos::new(5, 2));
    let refills = grid.apply_gravity();
    assert_eq!(refills.len(), 2);
    let spawned = vec![ent(100), ent(101)];
    grid.refill(&refills, &spawned);
    assert_eq!(grid.occupied_cells().len(), GRID_ROWS * GRID_COLS);
    assert_eq!(grid.entity_at(GridPos::new(5, 0)), Some(ent(100)));
    assert_eq!(grid.entity_at(GridPos::new(5, 1)), Some(ent(101)));
    assert_eq!(grid.kind_at(GridPos::new(5, 1)), Some(refills[1].kind));
}

#[test]
fn cascade_refill_kinds_follow_the_draws() {
    let mut rows = STUCK;
    rows[7] = "GRRRGYRB";
    let mut grid = grid_from(rows);
    let mut score = Score::default();
    let mut draws = [[0usize; GRID_COLS]; GRID_ROWS];
    draws[0][1] = 3; // Yellow
    draws[0][2] = 9; // 9 mod 5 = 4: Purple
    match process_cascade_with_draws(&mut grid, &mut score, &draws) {
        CascadeOutcome::Cleared { refills, .. } => {
            let kinds: Vec<GemType> = refills.iter().map(|r| r.kind).collect();
            assert_eq!(kinds, vec![GemType::Yellow, GemType::Purple, GemType::Red]);
        }
        other => panic!("unexpected {:?}", other),
    }
    assert_eq!(score.value, 30);
}

#[test]
fn gravity_refill_kinds_follow_the_draws() {
    let mut grid = grid_from(STUCK);
    grid.clear_cell(GridPos::new(4, 5));
    let mut draws = [[1usize; GRID_COLS]; GRID_ROWS];
    draws[0][4] = 2;
    let refills = grid.apply_gravity_with_draws(&draws);
    assert_eq!(refills.len(), 1);
    assert_eq!(refills[0].pos, GridPos::new(4, 0));
    assert_eq!(refills[0].kind, GemType::Green);
}
