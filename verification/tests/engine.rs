use game2048::game::Game2048;
use game2048::game::GameError;
use game2048::game::GameState;
use game2048::game::MoveDirection;
use game2048::game::MoveOutcome;

/// Flatten a board given row by row (top row first) into the engine's
/// storage order, which is `4 * x + y` for cell `(x, y)`.
fn grid_from_rows(rows: [[i32; 4]; 4]) -> Vec<i32> {
    let mut flat: Vec<i32> = vec![0; 16];
    for y in 0..4 {
        for x in 0..4 {
            flat[4 * x + y] = rows[y][x];
        }
    }
    flat
}

fn cells_of(game: &Game2048) -> [[i32; 4]; 4] {
    let mut rows: [[i32; 4]; 4] = [[0; 4]; 4];
    for y in 0..4 {
        for x in 0..4 {
            rows[y][x] = game.get_cell(x, y).unwrap();
        }
    }
    rows
}

#[test]
fn new_engine_is_empty_and_waiting() {
    let game = Game2048::new();
    assert_eq!(game.state(), GameState::WaitingForStart);
    for y in 0..4 {
        for x in 0..4 {
            assert_eq!(game.get_cell(x, y).unwrap(), 0);
        }
    }
}

#[test]
fn get_cell_out_of_bounds() {
    let game = Game2048::new();
    assert_eq!(game.get_cell(4, 0), Err(GameError::OutOfBounds));
    assert_eq!(game.get_cell(0, 4), Err(GameError::OutOfBounds));
    assert!(game.get_cell(3, 3).is_ok());
}

#[test]
fn start_spawns_exactly_one_tile() {
    let mut game = Game2048::new();
    assert_eq!(game.start(), Ok(()));
    assert_eq!(game.state(), GameState::Playing);
    let mut nonzero: u32 = 0;
    for y in 0..4 {
        for x in 0..4 {
            let v = game.get_cell(x, y).unwrap();
            if v != 0 {
                nonzero += 1;
                assert!(v == 2 || v == 4);
            }
        }
    }
    assert_eq!(nonzero, 1);
}

#[test]
fn start_twice_is_invalid() {
    let mut game = Game2048::new();
    assert_eq!(game.start(), Ok(()));
    assert_eq!(game.start(), Err(GameError::InvalidState));
}

#[test]
fn update_before_start_is_invalid() {
    let mut game = Game2048::new();
    assert_eq!(
        game.update(MoveDirection::Left),
        Err(GameError::InvalidState)
    );
}

#[test]
fn rejected_move_changes_nothing() {
    // Every row is flush left with distinct neighbours, so Left is
    // illegal; column 0 holds an equal adjacent pair, so the game is not
    // lost.
    let rows: [[i32; 4]; 4] = [
        [2, 4, 8, 16],
        [4, 8, 16, 32],
        [8, 16, 32, 64],
        [8, 32, 64, 128],
    ];
    let mut game = Game2048::from_grid(grid_from_rows(rows)).unwrap();
    assert_eq!(game.state(), GameState::Playing);
    let before = cells_of(&game);
    assert_eq!(game.update(MoveDirection::Left), Ok(MoveOutcome::Rejected));
    assert_eq!(cells_of(&game), before);
    assert_eq!(game.state(), GameState::Playing);
}

#[test]
fn applied_move_shifts_and_spawns_one_tile() {
    let rows: [[i32; 4]; 4] = [
        [2, 0, 2, 0],
        [0, 0, 0, 0],
        [0, 0, 0, 0],
        [0, 0, 0, 0],
    ];
    let mut game = Game2048::from_grid(grid_from_rows(rows)).unwrap();
    assert_eq!(game.update(MoveDirection::Left), Ok(MoveOutcome::Applied));
    // The shift alone would leave a lone 4 in the top-left corner; the
    // spawn then fills exactly one of the empty cells with a 2 or a 4.
    let expected_shift: [[i32; 4]; 4] = [
        [4, 0, 0, 0],
        [0, 0, 0, 0],
        [0, 0, 0, 0],
        [0, 0, 0, 0],
    ];
    let after = cells_of(&game);
    let mut spawned: u32 = 0;
    for y in 0..4 {
        for x in 0..4 {
            if after[y][x] != expected_shift[y][x] {
                spawned += 1;
                assert_eq!(expected_shift[y][x], 0);
                assert!(after[y][x] == 2 || after[y][x] == 4);
            }
        }
    }
    assert_eq!(spawned, 1);
    assert_eq!(game.state(), GameState::Playing);
}

#[test]
fn merge_conserves_total_value_before_spawn() {
    let rows: [[i32; 4]; 4] = [
        [2, 2, 4, 0],
        [0, 0, 0, 0],
        [0, 0, 0, 0],
        [0, 0, 0, 0],
    ];
    let mut game = Game2048::from_grid(grid_from_rows(rows)).unwrap();
    assert_eq!(game.update(MoveDirection::Left), Ok(MoveOutcome::Applied));
    // The shift conserves the total of 8; the spawn then adds 2 or 4.
    let after = cells_of(&game);
    let total: i32 = after.iter().flatten().sum();
    assert!(total == 10 || total == 12);
}

#[test]
fn win_is_detected_and_ends_the_game() {
    let rows: [[i32; 4]; 4] = [
        [1024, 1024, 0, 0],
        [0, 0, 0, 0],
        [0, 0, 0, 0],
        [0, 0, 0, 0],
    ];
    let mut game = Game2048::from_grid(grid_from_rows(rows)).unwrap();
    assert_eq!(game.state(), GameState::Playing);
    assert_eq!(game.update(MoveDirection::Left), Ok(MoveOutcome::Applied));
    assert_eq!(game.state(), GameState::Won);
    assert_eq!(game.get_cell(0, 0).unwrap(), 2048);
    assert_eq!(
        game.update(MoveDirection::Right),
        Err(GameError::InvalidState)
    );
}

#[test]
fn blocked_grid_is_lost_at_once() {
    // A full grid with no equal neighbours in any row or column: no
    // direction moves, so the loss is detected when the position arises,
    // not lazily on the next move.
    let rows: [[i32; 4]; 4] = [
        [2, 4, 8, 16],
        [4, 8, 16, 32],
        [8, 16, 32, 64],
        [16, 32, 64, 128],
    ];
    let mut game = Game2048::from_grid(grid_from_rows(rows)).unwrap();
    assert_eq!(game.state(), GameState::Lost);
    for d in [
        MoveDirection::Left,
        MoveDirection::Right,
        MoveDirection::Top,
        MoveDirection::Bottom,
    ] {
        assert_eq!(game.update(d), Err(GameError::InvalidState));
    }
}

#[test]
fn invalid_grids_are_rejected() {
    // Wrong length.
    assert!(matches!(
        Game2048::from_grid(vec![0; 15]),
        Err(GameError::InvariantViolation)
    ));
    // Not a power of two.
    assert!(matches!(
        Game2048::from_grid(vec![3; 16]),
        Err(GameError::InvariantViolation)
    ));
    // The winning value cannot stand on a board still in play.
    let mut cells: Vec<i32> = vec![0; 16];
    cells[0] = 2048;
    assert!(matches!(
        Game2048::from_grid(cells),
        Err(GameError::InvariantViolation)
    ));
    // A negative value.
    let mut cells2: Vec<i32> = vec![0; 16];
    cells2[5] = -2;
    assert!(matches!(
        Game2048::from_grid(cells2),
        Err(GameError::InvariantViolation)
    ));
}

#[test]
fn moves_in_each_direction_shift_toward_that_edge() {
    // A single tile in the middle slides flush to the chosen edge, and
    // one new tile spawns somewhere else.
    for (d, expect_x, expect_y) in [
        (MoveDirection::Left, 0usize, 1usize),
        (MoveDirection::Right, 3, 1),
        (MoveDirection::Top, 1, 0),
        (MoveDirection::Bottom, 1, 3),
    ] {
        let rows: [[i32; 4]; 4] = [
            [0, 0, 0, 0],
            [0, 8, 0, 0],
            [0, 0, 0, 0],
            [0, 0, 0, 0],
        ];
        let mut game = Game2048::from_grid(grid_from_rows(rows)).unwrap();
        assert_eq!(game.update(d), Ok(MoveOutcome::Applied));
        assert_eq!(game.get_cell(expect_x, expect_y).unwrap(), 8);
    }
}
