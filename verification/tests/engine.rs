use rust_life::{Boundary, Coord, Game, GameError};

fn new_test_game(row: usize, col: usize) -> Game {
    Game::new(row, col).unwrap()
}

fn prime_test_cache(game: &mut Game, cells: Vec<Coord>) {
    for cell in &cells {
        let neighbors = game.neighbors(*cell);
        game.set_cell_state(*cell, true).unwrap();
        game.insert_cache(&neighbors);
    }
}

fn seed(game: &mut Game, density: f32) -> Result<(), GameError> {
    if 0f32 > density || 1f32 < density {
        return Err(GameError::InvalidDensity);
    }
    let (row, col) = game.size();
    let target = (row * col) as f32 * density;
    game.init(target as usize)
}

fn init_test_game(row: usize, col: usize, density: f32) -> Game {
    let mut game = Game::new(row, col).unwrap();
    if let Err(e) = seed(&mut game, density) {
        panic!("{:?}", e);
    };
    game
}

fn live_cells(game: &Game) -> Vec<Coord> {
    let (row, col) = game.size();
    let mut cells = Vec::new();
    for r in 0..row {
        for c in 0..col {
            if game.cell_state((r as i128, c as i128)) {
                cells.push((r as i128, c as i128));
            }
        }
    }
    cells
}

fn rule_by_full_scan(game: &Game) -> Vec<Coord> {
    let (row, col) = game.size();
    let mut cells = Vec::new();
    for r in 0..row {
        for c in 0..col {
            let here = (r as i128, c as i128);
            let count = game
                .neighbors(here)
                .iter()
                .filter(|n| game.cell_state(**n))
                .count();
            let alive = game.cell_state(here);
            if count == 3 || (alive && count == 2) {
                cells.push(here);
            }
        }
    }
    cells
}

#[test]
fn set_cell_in_current_space() {
    let mut game = new_test_game(10, 10);
    //Cell state is false initially
    assert!(!game.cell_state((0, 0)));

    game.set_cell_state((0, 0), true).unwrap();
    assert!(game.cell_state((0, 0)));
}

#[test]
fn initialize_space_with_density() {
    let game = init_test_game(10, 10, 0.711);

    let expected_count = (10f32 * 10f32 * 0.711).floor();
    let alive_count = game.alive();
    assert_eq!(
        alive_count, expected_count as usize,
        "expected {} living cells, observed {}",
        expected_count as usize, alive_count
    );
    assert!(
        game.cache_len() > expected_count as usize,
        "expected at least {} items in cache",
        expected_count
    );
}

#[test]
fn should_die() {
    let mut game = new_test_game(10, 10);
    let living_cells = vec![(0, 0)];

    prime_test_cache(&mut game, living_cells);
    game.next();
    assert_eq!(game.alive(), 0, "no cells should be living");
}

#[test]
fn should_live() {
    let mut game = new_test_game(10, 10);
    let living_cells = vec![(0, 0), (0, 1), (1, 0), (1, 1)];

    prime_test_cache(&mut game, living_cells);
    game.next();
    assert_eq!(game.alive(), 4, "no cells should be living");
}

#[test]
fn new_game_is_empty_at_generation_zero() {
    let game = Game::new(3, 7).unwrap();
    assert_eq!(game.alive(), 0);
    assert_eq!(game.generation(), 0);
    assert_eq!(game.size(), (3, 7));
    assert_eq!(game.boundary(), Boundary::Clamped);
    assert_eq!(game.cache_len(), 0);
    assert!(live_cells(&game).is_empty());
}

#[test]
fn new_rejects_a_zero_dimension() {
    assert_eq!(Game::new(0, 5).err(), Some(GameError::InvalidDimension));
    assert_eq!(Game::new(5, 0).err(), Some(GameError::InvalidDimension));
    assert_eq!(Game::new(0, 0).err(), Some(GameError::InvalidDimension));
    assert_eq!(
        Game::with_boundary(0, 1, Boundary::Toroidal).err(),
        Some(GameError::InvalidDimension)
    );
    assert!(Game::new(1, 1).is_ok());
}

#[test]
fn cells_off_the_grid_are_dead() {
    let mut game = new_test_game(4, 6);
    for r in 0..4 {
        for c in 0..6 {
            game.set_cell_state((r, c), true).unwrap();
        }
    }
    assert_eq!(game.alive(), 24);
    assert!(!game.cell_state((-1, 0)));
    assert!(!game.cell_state((0, -1)));
    assert!(!game.cell_state((4, 0)));
    assert!(!game.cell_state((0, 6)));
    assert!(!game.cell_state((i128::MAX, i128::MIN)));
    assert!(!game.cell_state((1 << 64, 0)));
}

#[test]
fn set_cell_state_rejects_coordinates_off_the_grid() {
    let mut game = new_test_game(4, 6);
    game.set_cell_state((1, 1), true).unwrap();
    for coord in [(-1, 0), (0, -1), (4, 0), (0, 6), (i128::MAX, 0), (1 << 64, 1 << 64)] {
        assert_eq!(game.set_cell_state(coord, true), Err(GameError::OutOfBounds));
        assert_eq!(game.set_cell_state(coord, false), Err(GameError::OutOfBounds));
    }
    assert_eq!(game.alive(), 1);
    assert_eq!(live_cells(&game), vec![(1, 1)]);
    assert_eq!(game.generation(), 0);
}

#[test]
fn set_cell_state_counts_a_cell_once() {
    let mut game = new_test_game(5, 5);
    game.set_cell_state((2, 2), true).unwrap();
    game.set_cell_state((2, 2), true).unwrap();
    assert_eq!(game.alive(), 1);
    game.set_cell_state((2, 3), true).unwrap();
    assert_eq!(game.alive(), 2);
    game.set_cell_state((2, 2), false).unwrap();
    assert_eq!(game.alive(), 1);
    game.set_cell_state((2, 2), false).unwrap();
    assert_eq!(game.alive(), 1);
    game.set_cell_state((0, 0), false).unwrap();
    assert_eq!(game.alive(), 1);
    assert_eq!(live_cells(&game), vec![(2, 3)]);
}

#[test]
fn set_cell_state_schedules_the_cell_and_its_neighbours() {
    let mut game = new_test_game(5, 5);
    game.set_cell_state((0, 0), true).unwrap();
    assert_eq!(game.cache_len(), 4);
    for coord in [(0, 0), (0, 1), (1, 0), (1, 1)] {
        assert!(game.is_cached(coord));
    }
    assert!(!game.is_cached((2, 2)));
    game.set_cell_state((0, 0), true).unwrap();
    assert_eq!(game.cache_len(), 4);
    game.set_cell_state((3, 3), false).unwrap();
    assert_eq!(game.cache_len(), 4);
    game.set_cell_state((3, 3), true).unwrap();
    assert_eq!(game.cache_len(), 13);
}

#[test]
fn alive_agrees_with_a_full_scan() {
    let mut game = init_test_game(9, 13, 0.4);
    assert_eq!(game.alive(), live_cells(&game).len());
    for _ in 0..20 {
        game.next();
        assert_eq!(game.alive(), live_cells(&game).len());
    }
    game.set_cell_state((4, 4), true).unwrap();
    assert_eq!(game.alive(), live_cells(&game).len());
    game.set_cell_state((4, 4), false).unwrap();
    assert_eq!(game.alive(), live_cells(&game).len());
}

#[test]
fn neighbors_come_in_a_fixed_order() {
    let game = new_test_game(10, 10);
    assert_eq!(
        game.neighbors((3, 5)),
        [(4, 5), (2, 5), (3, 6), (3, 4), (4, 6), (4, 4), (2, 6), (2, 4)]
    );
    assert_eq!(
        game.neighbors((0, 0)),
        [(1, 0), (-1, 0), (0, 1), (0, -1), (1, 1), (1, -1), (-1, 1), (-1, -1)]
    );
}

#[test]
fn neighbors_wrap_on_a_torus() {
    let game = Game::with_boundary(4, 5, Boundary::Toroidal).unwrap();
    assert_eq!(
        game.neighbors((0, 0)),
        [(1, 0), (3, 0), (0, 1), (0, 4), (1, 1), (1, 4), (3, 1), (3, 4)]
    );
    assert_eq!(
        game.neighbors((3, 4)),
        [(0, 4), (2, 4), (3, 0), (3, 3), (0, 0), (0, 3), (2, 0), (2, 3)]
    );
}

#[test]
fn insert_cache_keeps_cells_of_the_grid_only() {
    let mut game = new_test_game(3, 3);
    game.insert_cache(&[(0, 0), (-1, 0), (0, -1), (3, 0), (0, 3), (2, 2), (0, 0)]);
    assert_eq!(game.cache_len(), 2);
    assert!(game.is_cached((0, 0)));
    assert!(game.is_cached((2, 2)));
    assert!(!game.is_cached((-1, 0)));
    assert!(!game.is_cached((3, 0)));
    assert_eq!(game.alive(), 0);
    game.insert_cache(&[]);
    assert_eq!(game.cache_len(), 2);
}

#[test]
fn next_cell_state_applies_the_rule() {
    let mut game = new_test_game(5, 5);
    for coord in [(1, 1), (1, 2), (1, 3)] {
        game.set_cell_state(coord, true).unwrap();
    }
    // Two live neighbours keep a live cell alive.
    assert_eq!(game.next_cell_state((1, 2)), (true, None));
    // One live neighbour lets a live cell die.
    assert_eq!(game.next_cell_state((1, 1)), (false, Some(game.neighbors((1, 1)))));
    // Three live neighbours bring a dead cell to life.
    assert_eq!(game.next_cell_state((0, 2)), (true, Some(game.neighbors((0, 2)))));
    assert_eq!(game.next_cell_state((2, 2)), (true, Some(game.neighbors((2, 2)))));
    // Two live neighbours leave a dead cell dead.
    assert_eq!(game.next_cell_state((0, 1)), (false, None));
    assert_eq!(game.next_cell_state((4, 4)), (false, None));
    // Off the grid nothing is ever born.
    assert_eq!(game.next_cell_state((-1, 2)), (false, None));
    assert_eq!(game.next_cell_state((i128::MIN, i128::MAX)), (false, None));
}

#[test]
fn next_cell_state_lets_a_crowded_cell_die() {
    let mut game = new_test_game(3, 3);
    for coord in [(0, 0), (0, 1), (0, 2), (1, 0), (1, 1)] {
        game.set_cell_state(coord, true).unwrap();
    }
    // Four live neighbours.
    assert_eq!(game.next_cell_state((1, 1)), (false, Some(game.neighbors((1, 1)))));
    // Three live neighbours keep a live cell alive.
    assert_eq!(game.next_cell_state((0, 0)), (true, None));
    // Three live neighbours bring a dead cell to life.
    assert_eq!(game.next_cell_state((1, 2)), (true, Some(game.neighbors((1, 2)))));

    let mut game = new_test_game(3, 3);
    for coord in [(0, 0), (0, 2), (2, 0), (2, 2)] {
        game.set_cell_state(coord, true).unwrap();
    }
    // Four live neighbours leave a dead cell dead.
    assert_eq!(game.next_cell_state((1, 1)), (false, None));
}

#[test]
fn lone_cell_dies_after_one_step() {
    let mut game = new_test_game(1, 1);
    game.set_cell_state((0, 0), true).unwrap();
    game.next();
    assert_eq!(game.alive(), 0);
    assert_eq!(game.generation(), 1);

    let mut game = new_test_game(8, 8);
    game.set_cell_state((4, 5), true).unwrap();
    game.next();
    assert_eq!(game.alive(), 0);
    assert!(live_cells(&game).is_empty());
}

#[test]
fn block_is_stable() {
    let mut game = new_test_game(6, 6);
    let block = vec![(2, 2), (2, 3), (3, 2), (3, 3)];
    for coord in &block {
        game.set_cell_state(*coord, true).unwrap();
    }
    for step in 1..=25 {
        game.next();
        assert_eq!(game.alive(), 4);
        assert_eq!(live_cells(&game), block);
        assert_eq!(game.generation(), step);
    }
    // Nothing changed, so nothing is left to evaluate.
    assert_eq!(game.cache_len(), 0);
}

#[test]
fn blinker_has_period_two() {
    let mut game = new_test_game(5, 5);
    let across = vec![(2, 1), (2, 2), (2, 3)];
    let down = vec![(1, 2), (2, 2), (3, 2)];
    for coord in &across {
        game.set_cell_state(*coord, true).unwrap();
    }
    for _ in 0..10 {
        game.next();
        assert_eq!(live_cells(&game), down);
        assert_eq!(game.alive(), 3);
        game.next();
        assert_eq!(live_cells(&game), across);
        assert_eq!(game.alive(), 3);
    }
    assert_eq!(game.generation(), 20);
}

#[test]
fn blinker_at_a_clamped_edge_decays() {
    let mut game = new_test_game(5, 5);
    for coord in [(0, 0), (0, 1), (0, 2)] {
        game.set_cell_state(coord, true).unwrap();
    }
    game.next();
    assert_eq!(live_cells(&game), vec![(0, 1), (1, 1)]);
    game.next();
    assert_eq!(game.alive(), 0);
}

#[test]
fn blinker_crosses_the_edge_of_a_torus() {
    let mut game = Game::with_boundary(5, 5, Boundary::Toroidal).unwrap();
    for coord in [(0, 0), (0, 1), (0, 2)] {
        game.set_cell_state(coord, true).unwrap();
    }
    game.next();
    assert_eq!(live_cells(&game), vec![(0, 1), (1, 1), (4, 1)]);
    game.next();
    assert_eq!(live_cells(&game), vec![(0, 0), (0, 1), (0, 2)]);
}

#[test]
fn glider_travels_round_a_torus() {
    let mut game = Game::with_boundary(6, 6, Boundary::Toroidal).unwrap();
    let glider = vec![(0, 1), (1, 2), (2, 0), (2, 1), (2, 2)];
    for coord in &glider {
        game.set_cell_state(*coord, true).unwrap();
    }
    // A glider moves one cell down and right in four steps.
    for _ in 0..4 {
        game.next();
    }
    assert_eq!(live_cells(&game), vec![(1, 2), (2, 3), (3, 1), (3, 2), (3, 3)]);
    for _ in 0..20 {
        game.next();
    }
    assert_eq!(live_cells(&game), glider);
    assert_eq!(game.generation(), 24);
}

#[test]
fn extinction_is_absorbing() {
    let mut game = new_test_game(6, 6);
    for coord in [(0, 0), (5, 5), (2, 3)] {
        game.set_cell_state(coord, true).unwrap();
    }
    game.next();
    assert_eq!(game.alive(), 0);
    for step in 2..=30 {
        game.next();
        assert_eq!(game.alive(), 0);
        assert_eq!(game.generation(), step);
    }
    assert_eq!(game.cache_len(), 0);
}

#[test]
fn step_agrees_with_a_full_scan() {
    for boundary in [Boundary::Clamped, Boundary::Toroidal] {
        let mut game = Game::with_boundary(11, 14, boundary).unwrap();
        game.init(60).unwrap();
        for _ in 0..40 {
            let expected = rule_by_full_scan(&game);
            game.next();
            assert_eq!(live_cells(&game), expected);
            assert_eq!(game.alive(), expected.len());
        }
    }
}

#[test]
fn step_schedules_changed_cells_and_their_neighbours() {
    let mut game = new_test_game(5, 5);
    for coord in [(2, 1), (2, 2), (2, 3)] {
        game.set_cell_state(coord, true).unwrap();
    }
    game.next();
    // (2,1) and (2,3) died, (1,2) and (3,2) were born.
    let mut expected = Vec::new();
    for r in 0..5 {
        for c in 0..5 {
            let near = |p: (i128, i128)| (p.0 - r as i128).abs() <= 1 && (p.1 - c as i128).abs() <= 1;
            if near((2, 1)) || near((2, 3)) || near((1, 2)) || near((3, 2)) {
                expected.push((r as i128, c as i128));
            }
        }
    }
    assert_eq!(game.cache_len(), expected.len());
    for coord in expected {
        assert!(game.is_cached(coord));
    }
}

#[test]
fn init_reaches_the_target_population() {
    let game = init_test_game(10, 10, 0.5);
    assert_eq!(game.alive(), 50);
    assert_eq!(live_cells(&game).len(), 50);
    assert_eq!(game.generation(), 0);

    let game = init_test_game(10, 10, 0.0);
    assert_eq!(game.alive(), 0);
    assert_eq!(game.cache_len(), 0);

    let game = init_test_game(10, 10, 1.0);
    assert_eq!(game.alive(), 100);
    assert_eq!(game.cache_len(), 100);
}

#[test]
fn init_rejects_a_density_out_of_range() {
    let mut game = new_test_game(10, 10);
    assert_eq!(seed(&mut game, -0.1), Err(GameError::InvalidDensity));
    assert_eq!(game.alive(), 0);
    assert_eq!(seed(&mut game, 1.1), Err(GameError::InvalidDensity));
    assert_eq!(game.alive(), 0);
    assert_eq!(game.cache_len(), 0);
}

#[test]
fn init_rejects_a_target_beyond_the_area() {
    let mut game = new_test_game(10, 10);
    game.set_cell_state((3, 3), true).unwrap();
    assert_eq!(game.init(101), Err(GameError::InvalidDensity));
    assert_eq!(game.init(usize::MAX), Err(GameError::InvalidDensity));
    assert_eq!(game.alive(), 1);
    assert_eq!(game.cache_len(), 9);
    assert_eq!(game.init(100), Ok(()));
    assert_eq!(game.alive(), 100);
}

#[test]
fn init_keeps_what_is_alive() {
    let mut game = new_test_game(4, 4);
    game.set_cell_state((1, 1), true).unwrap();
    game.set_cell_state((2, 2), true).unwrap();
    game.init(1).unwrap();
    assert_eq!(live_cells(&game), vec![(1, 1), (2, 2)]);
    game.init(2).unwrap();
    assert_eq!(live_cells(&game), vec![(1, 1), (2, 2)]);
    game.init(9).unwrap();
    assert_eq!(game.alive(), 9);
    assert!(game.cell_state((1, 1)));
    assert!(game.cell_state((2, 2)));
}

#[test]
fn init_schedules_every_new_cell() {
    let mut game = new_test_game(12, 12);
    game.init(30).unwrap();
    for cell in live_cells(&game) {
        assert!(game.is_cached(cell));
        for n in game.neighbors(cell) {
            let on_grid = n.0 >= 0 && n.1 >= 0 && n.0 < 12 && n.1 < 12;
            assert_eq!(game.is_cached(n), on_grid);
        }
    }
}

#[test]
fn dead_cells_are_read_row_by_row() {
    let mut game = new_test_game(2, 3);
    assert_eq!(
        game.dead_cells(),
        vec![(0, 0), (0, 1), (0, 2), (1, 0), (1, 1), (1, 2)]
    );
    game.set_cell_state((0, 1), true).unwrap();
    game.set_cell_state((1, 2), true).unwrap();
    assert_eq!(game.dead_cells(), vec![(0, 0), (0, 2), (1, 0), (1, 1)]);
}

#[test]
fn populate_places_the_picked_candidate() {
    let mut game = new_test_game(2, 3);
    let mut pool = game.dead_cells();
    assert_eq!(game.populate(&mut pool, 1), Ok((0, 1)));
    assert_eq!(pool, vec![(0, 0), (1, 2), (0, 2), (1, 0), (1, 1)]);
    assert_eq!(game.populate(&mut pool, 4), Ok((1, 1)));
    assert_eq!(pool, vec![(0, 0), (1, 2), (0, 2), (1, 0)]);
    assert_eq!(game.populate(&mut pool, 0), Ok((0, 0)));
    assert_eq!(pool, vec![(1, 0), (1, 2), (0, 2)]);
    assert_eq!(live_cells(&game), vec![(0, 0), (0, 1), (1, 1)]);
    assert_eq!(game.alive(), 3);
    assert_eq!(game.cache_len(), 6);
}

#[test]
fn populate_rejects_a_candidate_off_the_grid() {
    let mut game = new_test_game(2, 2);
    let mut pool = vec![(0, 0), (5, 5), (1, 1)];
    assert_eq!(game.populate(&mut pool, 1), Err(GameError::OutOfBounds));
    assert_eq!(pool, vec![(0, 0), (1, 1)]);
    assert_eq!(game.alive(), 0);
    assert_eq!(game.cache_len(), 0);
}

#[test]
fn finished_when_extinct_or_at_the_limit() {
    let mut game = new_test_game(6, 6);
    assert!(game.finished(10));
    for coord in [(2, 2), (2, 3), (3, 2), (3, 3)] {
        game.set_cell_state(coord, true).unwrap();
    }
    assert!(!game.finished(2));
    assert!(game.finished(0));
    game.next();
    assert!(!game.finished(2));
    game.next();
    assert!(game.finished(2));
    assert!(!game.finished(3));
}

#[test]
fn render_draws_header_and_rows() {
    let mut game = new_test_game(2, 3);
    assert_eq!(
        game.render(),
        "Rust Life:\n\tGeneration 0\n\tAlive 0\n\n|   |\n|   |\n"
    );
    game.set_cell_state((0, 1), true).unwrap();
    game.set_cell_state((1, 0), true).unwrap();
    game.set_cell_state((1, 2), true).unwrap();
    assert_eq!(
        game.render(),
        "Rust Life:\n\tGeneration 0\n\tAlive 3\n\n| * |\n|* *|\n"
    );
    game.next();
    assert_eq!(
        game.render(),
        "Rust Life:\n\tGeneration 1\n\tAlive 2\n\n| * |\n| * |\n"
    );
}

#[test]
fn render_writes_numbers_in_decimal() {
    let mut game = new_test_game(12, 12);
    for r in 0..12 {
        for c in 0..12 {
            if (r, c) != (0, 0) && (r, c) != (11, 11) {
                game.set_cell_state((r, c), true).unwrap();
            }
        }
    }
    let text = game.render();
    assert!(text.starts_with("Rust Life:\n\tGeneration 0\n\tAlive 142\n\n| ***********|\n"));
    assert!(text.ends_with("|*********** |\n"));
    assert_eq!(text.lines().count(), 4 + 12);
    let mut game = new_test_game(4, 4);
    for coord in [(1, 1), (1, 2), (2, 1), (2, 2)] {
        game.set_cell_state(coord, true).unwrap();
    }
    for _ in 0..1205 {
        game.next();
    }
    assert_eq!(
        game.render(),
        "Rust Life:\n\tGeneration 1205\n\tAlive 4\n\n|    |\n| ** |\n| ** |\n|    |\n"
    );
}
