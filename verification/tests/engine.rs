use tetris_engine::game::{ActivePiece, Game, HEIGHT, WIDTH, is_valid_position};
use tetris_engine::tetromino::TetrominoShape;

fn empty_grid() -> [[u8; WIDTH]; HEIGHT] {
    [[0u8; WIDTH]; HEIGHT]
}

fn game_with(
    grid: [[u8; WIDTH]; HEIGHT],
    piece: ActivePiece,
    next: TetrominoShape,
) -> Game {
    Game {
        grid,
        current_piece: Some(piece),
        next_piece: next,
        score: 0,
        is_game_over: false,
        piece_stats: [1, 0, 0, 0, 0, 0, 0],
    }
}

fn piece(shape: TetrominoShape, x: i32, y: i32) -> ActivePiece {
    ActivePiece { shape, x, y, cells: shape.cells() }
}

fn stats_total(g: &Game) -> u64 {
    g.piece_stats.iter().map(|&c| c as u64).sum()
}

fn count_occupied(g: &Game) -> usize {
    let mut n = 0;
    for row in g.grid.iter() {
        for &cell in row.iter() {
            if cell != 0 {
                n += 1;
            }
        }
    }
    n
}

#[test]
fn new_engine_starts_clean() {
    let g = Game::new();
    assert_eq!(g.score, 0);
    assert!(!g.is_game_over);
    assert_eq!(count_occupied(&g), 0);
    let p = g.current_piece.as_ref().unwrap();
    assert_eq!(p.x, (WIDTH / 2) as i32);
    assert_eq!(p.y, 0);
    assert_eq!(p.cells, p.shape.cells());
    assert_eq!(stats_total(&g), 1);
    assert_eq!(g.piece_stats[p.shape.to_index()], 1);
}

#[test]
fn validity_respects_walls_floor_and_blocks() {
    let grid = empty_grid();
    let i_cells = TetrominoShape::I.cells();
    // comfortably inside an empty board
    assert!(is_valid_position(&grid, &i_cells, 5, 0));
    // leftmost cell would sit at column -1
    assert!(!is_valid_position(&grid, &i_cells, 0, 0));
    // rightmost cell would sit at column WIDTH
    assert!(!is_valid_position(&grid, &i_cells, 8, 0));
    // below the bottom row
    assert!(!is_valid_position(&grid, &i_cells, 5, HEIGHT as i32));
    // rows above the top are permitted
    assert!(is_valid_position(&grid, &i_cells, 5, -1));
    // an occupied cell obstructs
    let mut blocked = empty_grid();
    blocked[0][5] = 3;
    assert!(!is_valid_position(&blocked, &i_cells, 5, 0));
    // ... but a cell above the top never consults the board
    let mut top_blocked = empty_grid();
    top_blocked[0][4] = 3;
    assert!(!is_valid_position(&top_blocked, &i_cells, 5, 0));
}

#[test]
fn moves_shift_by_one_and_stop_at_walls() {
    let mut g = game_with(empty_grid(), piece(TetrominoShape::I, 5, 0), TetrominoShape::O);
    g.move_left();
    assert_eq!(g.current_piece.as_ref().unwrap().x, 4);
    g.move_right();
    g.move_right();
    assert_eq!(g.current_piece.as_ref().unwrap().x, 6);
    // I spans columns x-1 ..= x+2: x=1 touches the left wall
    let mut at_wall = game_with(empty_grid(), piece(TetrominoShape::I, 1, 0), TetrominoShape::O);
    at_wall.move_left();
    assert_eq!(at_wall.current_piece.as_ref().unwrap().x, 1);
    // and x=7 touches the right wall
    let mut at_right = game_with(empty_grid(), piece(TetrominoShape::I, 7, 0), TetrominoShape::O);
    at_right.move_right();
    assert_eq!(at_right.current_piece.as_ref().unwrap().x, 7);
    assert_eq!(at_right.score, 0);
}

#[test]
fn rotation_commits_only_when_valid() {
    let mut g = game_with(empty_grid(), piece(TetrominoShape::I, 5, 2), TetrominoShape::O);
    g.rotate();
    // (dx,dy) -> (-dy,dx): the horizontal I becomes vertical
    assert_eq!(g.current_piece.as_ref().unwrap().cells, [(0, 0), (0, -1), (0, 1), (0, 2)]);
    assert_eq!(g.current_piece.as_ref().unwrap().x, 5);
    assert_eq!(g.current_piece.as_ref().unwrap().y, 2);
}

#[test]
fn rotation_rejected_near_wall() {
    // a vertical I at column 1: rotating would push a cell to column -1
    let p = ActivePiece {
        shape: TetrominoShape::I,
        x: 1,
        y: 5,
        cells: [(0, 0), (0, -1), (0, 1), (0, 2)],
    };
    let mut g = game_with(empty_grid(), p, TetrominoShape::O);
    g.rotate();
    let q = g.current_piece.as_ref().unwrap();
    assert_eq!(q.cells, [(0, 0), (0, -1), (0, 1), (0, 2)]);
    assert_eq!((q.x, q.y), (1, 5));
}

#[test]
fn soft_drop_scores_one_and_never_locks() {
    let mut g = game_with(empty_grid(), piece(TetrominoShape::T, 5, 0), TetrominoShape::O);
    g.soft_drop();
    assert_eq!(g.current_piece.as_ref().unwrap().y, 1);
    assert_eq!(g.score, 1);
    // resting on the floor: T occupies rows y and y+1, so y=18 rests
    let mut resting = game_with(empty_grid(), piece(TetrominoShape::T, 5, 18), TetrominoShape::O);
    resting.soft_drop();
    // no movement, no score, and critically no lock
    assert_eq!(resting.current_piece.as_ref().unwrap().y, 18);
    assert_eq!(resting.score, 0);
    assert_eq!(count_occupied(&resting), 0);
}

#[test]
fn gravity_tick_falls_then_locks() {
    let mut g = game_with(empty_grid(), piece(TetrominoShape::T, 5, 17), TetrominoShape::O);
    g.update();
    assert_eq!(g.current_piece.as_ref().unwrap().y, 18);
    assert_eq!(count_occupied(&g), 0);
    g.update();
    // blocked by the floor: the piece locks, T writes value 3 (index 2 + 1)
    assert_eq!(count_occupied(&g), 4);
    assert_eq!(g.grid[18][5], 3);
    assert_eq!(g.grid[18][4], 3);
    assert_eq!(g.grid[18][6], 3);
    assert_eq!(g.grid[19][5], 3);
    // the queued O spawned as the new active piece
    let q = g.current_piece.as_ref().unwrap();
    assert_eq!(q.shape.to_index(), 1);
    assert_eq!((q.x, q.y), (5, 0));
    assert_eq!(q.cells, TetrominoShape::O.cells());
    assert!(!g.is_game_over);
    // its statistic was recorded
    assert_eq!(g.piece_stats[1], 1);
    assert_eq!(stats_total(&g), 2);
}

#[test]
fn tick_until_lock_basic_drop() {
    // the scenario of a fresh engine: tick until the piece locks
    let mut g = Game::new();
    let mut ticks = 0;
    while count_occupied(&g) == 0 {
        g.update();
        ticks += 1;
        assert!(ticks < 100, "piece never locked");
    }
    // the first lock on an empty board writes exactly the four cells
    assert_eq!(count_occupied(&g), 4);
    // and a fresh active piece exists at the spawn row
    let q = g.current_piece.as_ref().unwrap();
    assert_eq!(q.y, 0);
    assert_eq!(q.x, (WIDTH / 2) as i32);
    assert_eq!(stats_total(&g), 2);
}

#[test]
fn hard_drop_scores_two_per_row_and_locks() {
    let mut g = game_with(empty_grid(), piece(TetrominoShape::T, 5, 0), TetrominoShape::O);
    g.hard_drop();
    // T rests at y=18: 18 rows descended, 2 points each
    assert_eq!(g.score, 36);
    assert_eq!(g.grid[18][5], 3);
    assert_eq!(g.grid[19][5], 3);
    assert_eq!(count_occupied(&g), 4);
    let q = g.current_piece.as_ref().unwrap();
    assert_eq!((q.x, q.y), (5, 0));
}

#[test]
fn hard_drop_on_resting_piece_still_locks() {
    let mut g = game_with(empty_grid(), piece(TetrominoShape::T, 5, 18), TetrominoShape::O);
    g.hard_drop();
    assert_eq!(g.score, 0);
    assert_eq!(count_occupied(&g), 4);
}

#[test]
fn single_line_clear_scores_100_and_shifts_rows() {
    let mut grid = empty_grid();
    for c in 0..WIDTH - 1 {
        grid[HEIGHT - 1][c] = 1;
    }
    // a marker above the cleared row, to watch it shift down
    grid[18][0] = 4;
    // a vertical I hanging downward fills the gap at column 9
    let p = ActivePiece {
        shape: TetrominoShape::I,
        x: 9,
        y: 3,
        cells: [(0, 0), (0, -1), (0, -2), (0, -3)],
    };
    let mut g = game_with(grid, p, TetrominoShape::O);
    g.hard_drop();
    // pivot fell from row 3 to row 19: 16 rows at 2 points, plus 100 bonus
    assert_eq!(g.score, 16 * 2 + 100);
    // the old row 18 (marker and one piece cell) is now the bottom row
    assert_eq!(g.grid[19][0], 4);
    assert_eq!(g.grid[19][9], 1);
    for c in 1..WIDTH - 1 {
        assert_eq!(g.grid[19][c], 0);
    }
    // the two remaining piece cells shifted down with their rows
    assert_eq!(g.grid[18][9], 1);
    assert_eq!(g.grid[17][9], 1);
    assert_eq!(count_occupied(&g), 4);
}

#[test]
fn line_clear_bonuses_match_policy() {
    // filling k bottom rows except column 9, then dropping a vertical I
    // that plugs all of them, clears exactly k lines
    let cases: [(usize, u32); 4] = [(1, 100), (2, 300), (3, 500), (4, 800)];
    for &(k, bonus) in cases.iter() {
        let mut grid = empty_grid();
        for r in HEIGHT - k..HEIGHT {
            for c in 0..WIDTH - 1 {
                grid[r][c] = 1;
            }
        }
        let p = ActivePiece {
            shape: TetrominoShape::I,
            x: 9,
            y: 3,
            cells: [(0, 0), (0, -1), (0, -2), (0, -3)],
        };
        let mut g = game_with(grid, p, TetrominoShape::O);
        g.hard_drop();
        assert_eq!(g.score, 16 * 2 + bonus, "wrong score for {} lines", k);
        // the piece cells not on cleared rows survive, shifted down by k
        assert_eq!(count_occupied(&g), 4 - k);
    }
}

#[test]
fn ghost_position_projects_the_landing_pose() {
    let g = game_with(empty_grid(), piece(TetrominoShape::T, 5, 2), TetrominoShape::O);
    let ghost = g.get_ghost_piece_position().unwrap();
    assert_eq!(ghost.x, 5);
    assert_eq!(ghost.y, 18);
    assert_eq!(ghost.cells, TetrominoShape::T.cells());
    assert_eq!(ghost.shape.to_index(), 2);
    // the query mutates nothing
    assert_eq!(g.current_piece.as_ref().unwrap().y, 2);
    assert_eq!(count_occupied(&g), 0);
    // with an obstacle the ghost stops on top of it
    let mut blocked = empty_grid();
    blocked[19][5] = 1;
    let g2 = game_with(blocked, piece(TetrominoShape::T, 5, 2), TetrominoShape::O);
    assert_eq!(g2.get_ghost_piece_position().unwrap().y, 17);
}

#[test]
fn lock_drops_cells_above_the_top() {
    // a piece with one cell above the board locks while poking off the top
    let p = ActivePiece {
        shape: TetrominoShape::I,
        x: 5,
        y: 0,
        cells: [(0, 0), (0, -1), (-1, 0), (1, 0)],
    };
    let mut grid = empty_grid();
    // block the row below so gravity locks immediately
    for c in 0..WIDTH {
        grid[1][c] = 1;
    }
    let mut g = game_with(grid, p, TetrominoShape::O);
    g.update();
    // only the three in-bounds cells were written (value 1 for I); the
    // full row 1 then cleared, shifting the written row down by one
    assert_eq!(count_occupied(&g), 3);
    assert_eq!(g.grid[1][4], 1);
    assert_eq!(g.grid[1][5], 1);
    assert_eq!(g.grid[1][6], 1);
    for c in 0..WIDTH {
        assert_eq!(g.grid[0][c], 0);
    }
    assert_eq!(g.score, 100);
}

#[test]
fn game_over_is_sticky_and_freezes_state() {
    let mut grid = empty_grid();
    // occupy the whole spawn neighbourhood: columns 3..=7, rows 0 and 1
    for r in 0..2 {
        for c in 3..8 {
            grid[r][c] = 1;
        }
    }
    // a piece resting on the floor, away from the spawn area
    let p = ActivePiece {
        shape: TetrominoShape::L,
        x: 1,
        y: 19,
        cells: [(0, 0), (-1, 0), (1, 0), (0, -1)],
    };
    let mut g = game_with(grid, p, TetrominoShape::O);
    g.hard_drop();
    assert!(g.is_game_over);
    // the overlapping spawn piece is still stored for rendering
    assert!(g.current_piece.is_some());

    let frozen_grid = g.grid;
    let frozen_score = g.score;
    let frozen_stats = g.piece_stats;
    let frozen_piece_y = g.current_piece.as_ref().unwrap().y;
    g.update();
    g.move_left();
    g.move_right();
    g.rotate();
    g.soft_drop();
    g.hard_drop();
    assert!(g.is_game_over);
    assert_eq!(g.grid, frozen_grid);
    assert_eq!(g.score, frozen_score);
    assert_eq!(g.piece_stats, frozen_stats);
    assert_eq!(g.current_piece.as_ref().unwrap().y, frozen_piece_y);
}

#[test]
fn score_never_decreases() {
    let mut g = Game::new();
    let mut last = g.score;
    for i in 0..600 {
        match i % 6 {
            0 => g.update(),
            1 => g.move_left(),
            2 => g.rotate(),
            3 => g.soft_drop(),
            4 => g.move_right(),
            _ => g.hard_drop(),
        }
        assert!(g.score >= last, "score decreased");
        last = g.score;
        if g.is_game_over {
            break;
        }
    }
}

#[test]
fn score_and_stats_saturate_at_the_ceiling() {
    let mut g = game_with(empty_grid(), piece(TetrominoShape::T, 5, 18), TetrominoShape::O);
    g.score = u32::MAX - 30;
    g.piece_stats[1] = u32::MAX;
    // resting hard drop: no drop points, no lines, but the O spawn is
    // counted — its counter stays pinned at the ceiling
    g.hard_drop();
    assert_eq!(g.score, u32::MAX - 30);
    assert_eq!(g.piece_stats[1], u32::MAX);
    // a line clear whose bonus would overflow pins the score instead
    let mut grid = empty_grid();
    for c in 0..WIDTH - 1 {
        grid[HEIGHT - 1][c] = 1;
    }
    let p = ActivePiece {
        shape: TetrominoShape::I,
        x: 9,
        y: 3,
        cells: [(0, 0), (0, -1), (0, -2), (0, -3)],
    };
    let mut g2 = game_with(grid, p, TetrominoShape::O);
    g2.score = u32::MAX - 30;
    g2.hard_drop();
    assert_eq!(g2.score, u32::MAX);
}

#[test]
fn stats_total_counts_every_spawn() {
    let mut g = Game::new();
    assert_eq!(stats_total(&g), 1);
    for locks in 1..=20u64 {
        g.hard_drop();
        if g.is_game_over {
            return;
        }
        assert_eq!(stats_total(&g), locks + 1);
    }
}
