//! The rules engine: board, active piece, collision validation, locking,
//! line clearing, scoring and game-over detection.

use vstd::prelude::*;

use crate::tetromino::{Point, TetrominoShape, shape_index, spec_cells};

verus! {

/// Number of columns of the playfield.
pub const WIDTH: usize = 10;

/// Number of rows of the playfield; row 0 is the top.
pub const HEIGHT: usize = 20;

/// The piece currently controlled by the player: its shape identity, the
/// absolute pivot position in board coordinates, and the current relative
/// offsets (rotation is cumulative on these offsets).
pub struct ActivePiece {
    pub shape: TetrominoShape,
    pub x: i32,
    pub y: i32,
    pub cells: [Point; 4],
}

/// The mathematical view of a grid: a sequence of rows, each a sequence of
/// cell values, 0 for empty and 1..=7 for the shape that filled the cell.
pub open spec fn board_of(g: [[u8; WIDTH]; HEIGHT]) -> Seq<Seq<u8>> {
    Seq::new(HEIGHT as nat, |r: int| Seq::new(WIDTH as nat, |c: int| g@[r]@[c]))
}

/// An all-empty row.
pub open spec fn empty_row() -> Seq<u8> {
    Seq::new(WIDTH as nat, |c: int| 0u8)
}

/// An all-empty board.
pub open spec fn empty_board() -> Seq<Seq<u8>> {
    Seq::new(HEIGHT as nat, |r: int| empty_row())
}

/// Well-formed board: full dimensions, and every cell value at most 7
/// (occupied cells hold the owning shape's index plus one).
pub open spec fn board_wf(b: Seq<Seq<u8>>) -> bool {
    &&& b.len() == HEIGHT
    &&& forall|r: int| 0 <= r < b.len() ==> (#[trigger] b[r]).len() == WIDTH
    &&& forall|r: int, c: int|
        0 <= r < b.len() && 0 <= c < b[r].len() ==> #[trigger] b[r][c] <= 7
}

/// A single absolute cell is unobstructed: inside the horizontal bounds,
/// above the bottom, and, when on the board (row at least 0), empty.
/// Rows above the top of the board never count as obstructed.
pub open spec fn cell_ok(b: Seq<Seq<u8>>, cx: int, cy: int) -> bool {
    &&& 0 <= cx < WIDTH as int
    &&& cy < HEIGHT as int
    &&& cy >= 0 ==> b[cy][cx] == 0
}

/// The collision rule shared by every mutator: a pivot and an offset set
/// validate against a board when each of the four resulting cells is
/// unobstructed.
pub open spec fn spec_valid(b: Seq<Seq<u8>>, cells: Seq<Point>, x: int, y: int) -> bool {
    forall|k: int| #![trigger cells[k]]
        0 <= k < cells.len() ==> cell_ok(b, x + cells[k].0, y + cells[k].1)
}

/// A quarter turn of one offset: `(dx, dy)` becomes `(-dy, dx)`.
pub open spec fn rot_point(p: Point) -> Point {
    (((-(p.1 as int)) as i32), p.0)
}

/// A quarter turn of a whole offset set.
pub open spec fn rotated(cells: Seq<Point>) -> Seq<Point> {
    Seq::new(cells.len(), |k: int| rot_point(cells[k]))
}

/// Offsets small enough that every pivot arithmetic below stays far from
/// the integer limits; the canonical offsets satisfy this and a quarter
/// turn preserves it.
pub open spec fn cells_bounded(cells: Seq<Point>) -> bool {
    &&& cells.len() == 4
    &&& forall|k: int| #![trigger cells[k]]
        0 <= k < cells.len() ==> -2 <= cells[k].0 <= 2 && -2 <= cells[k].1 <= 2
}

/// Bounds on an active piece that every engine operation preserves: the
/// offsets stay small, and the pivot stays within the narrow band that a
/// validated position (or the spawn point) allows.
pub open spec fn piece_wf(p: ActivePiece) -> bool {
    &&& cells_bounded(p.cells@)
    &&& -2 <= p.x <= 11
    &&& 0 <= p.y <= 21
}

/// Whether one of the piece's four absolute cells lies on board cell
/// (row `r`, column `c`).
pub open spec fn piece_covers(p: ActivePiece, r: int, c: int) -> bool {
    exists|k: int| #![trigger p.cells@[k]]
        0 <= k < 4 && p.x + p.cells@[k].0 == c && p.y + p.cells@[k].1 == r
}

/// The board with the piece's in-bounds cells overwritten by the piece's
/// shape index plus one; cells above the top of the board are dropped.
pub open spec fn place_piece(b: Seq<Seq<u8>>, p: ActivePiece) -> Seq<Seq<u8>> {
    Seq::new(
        b.len(),
        |r: int|
            Seq::new(
                b[r].len(),
                |c: int|
                    if piece_covers(p, r, c) {
                        (shape_index(p.shape) + 1) as u8
                    } else {
                        b[r][c]
                    },
            ),
    )
}

/// The board after writing one cell value, when the coordinates lie on
/// the board; otherwise the board unchanged.
pub open spec fn write_cell_spec(b: Seq<Seq<u8>>, cx: int, cy: int, v: u8) -> Seq<Seq<u8>> {
    if 0 <= cx < WIDTH as int && 0 <= cy < HEIGHT as int {
        b.update(cy, b[cy].update(cx, v))
    } else {
        b
    }
}

/// A row is full when every one of its cells is occupied.
pub open spec fn row_full(row: Seq<u8>) -> bool {
    forall|c: int| 0 <= c < row.len() ==> #[trigger] row[c] != 0
}

/// The non-full rows of a board, in their original top-to-bottom order.
pub open spec fn surviving_rows(b: Seq<Seq<u8>>) -> Seq<Seq<u8>>
    decreases b.len(),
{
    if b.len() == 0 {
        Seq::<Seq<u8>>::empty()
    } else if row_full(b.first()) {
        surviving_rows(b.drop_first())
    } else {
        seq![b.first()] + surviving_rows(b.drop_first())
    }
}

/// How many rows of a board are full.
pub open spec fn num_full_rows(b: Seq<Seq<u8>>) -> int {
    b.len() - surviving_rows(b).len()
}

/// The board after compaction: as many fresh empty rows on top as there
/// were full rows, then the surviving rows in unchanged relative order.
pub open spec fn cleared_board(b: Seq<Seq<u8>>) -> Seq<Seq<u8>> {
    Seq::new(num_full_rows(b) as nat, |r: int| empty_row()) + surviving_rows(b)
}

/// Bonus points for the number of lines cleared by one lock event.
pub open spec fn line_bonus(n: int) -> int {
    if n == 0 {
        0
    } else if n == 1 {
        100
    } else if n == 2 {
        300
    } else if n == 3 {
        500
    } else if n == 4 {
        800
    } else {
        100
    }
}

/// Sum of the per-shape spawn counters.
pub open spec fn stats_sum(s: Seq<u32>) -> int
    decreases s.len(),
{
    if s.len() == 0 {
        0
    } else {
        s[0] + stats_sum(s.drop_first())
    }
}

/// A sequence of all-zero counters sums to zero.
pub proof fn lemma_stats_sum_zeros(s: Seq<u32>)
    requires
        forall|i: int| 0 <= i < s.len() ==> #[trigger] s[i] == 0,
    ensures
        stats_sum(s) == 0,
    decreases s.len(),
{
    if s.len() > 0 {
        lemma_stats_sum_zeros(s.drop_first());
    }
}

/// Overwriting one counter changes the sum by the difference at that slot.
pub proof fn lemma_stats_sum_update(s: Seq<u32>, i: int, v: u32)
    requires
        0 <= i < s.len(),
    ensures
        stats_sum(s.update(i, v)) == stats_sum(s) - s[i] + v,
    decreases s.len(),
{
    if i == 0 {
        assert(s.update(0, v).drop_first() =~= s.drop_first());
    } else {
        assert(s.update(i, v).drop_first() =~= s.drop_first().update(i - 1, v));
        lemma_stats_sum_update(s.drop_first(), i - 1, v);
    }
}

/// What one lock event does to the engine state: the active piece's
/// in-bounds cells are written to the board, full rows are cleared and
/// their bonus added to the score, the queued shape spawns as the new
/// active piece with one statistic recorded for it, and the game ends
/// exactly when the spawn position does not validate. The new queued
/// shape is random; nothing is promised about it.
pub open spec fn locks_to(pre: Game, post: Game) -> bool
    recommends
        pre.current_piece is Some,
{
    let p = pre.current_piece.unwrap();
    let placed = place_piece(pre.board(), p);
    let n = num_full_rows(placed);
    let sp = WIDTH as int / 2;
    let idx = shape_index(pre.next_piece);
    &&& post.board() == cleared_board(placed)
    &&& post.score == pre.score.saturating_add(line_bonus(n) as u32)
    &&& post.piece_stats@ == pre.piece_stats@.update(idx, pre.piece_stats@[idx].saturating_add(1))
    &&& post.current_piece matches Some(q) && q.shape == pre.next_piece && q.x == WIDTH as i32 / 2
        && q.y == 0 && q.cells@ == spec_cells(pre.next_piece)
    &&& post.is_game_over == !spec_valid(post.board(), spec_cells(pre.next_piece), sp, 0)
    &&& post.score >= pre.score
}

/// What one hard drop does when the active piece is `p` and the game is
/// running: the piece descends exactly `d` rows — every step down to row
/// `p.y + d` validates and one row further does not — two points are
/// awarded per row descended, and the piece then locks from there.
pub open spec fn hard_drops_to(pre: Game, p: ActivePiece, d: int, post: Game) -> bool {
    &&& 0 <= d
    &&& forall|j: int| p.y < j <= p.y + d ==> spec_valid(pre.board(), p.cells@, p.x as int, j)
    &&& !spec_valid(pre.board(), p.cells@, p.x as int, p.y + d + 1)
    &&& locks_to(
        (Game {
            current_piece: Some((ActivePiece { y: (p.y + d) as i32, ..p })),
            score: pre.score.saturating_add((2 * d) as u32),
            ..pre
        }),
        post,
    )
}

/// The game state: the board grid, the falling piece (if any), the queued
/// shape, the score, the sticky game-over flag and the per-shape spawn
/// counters.
pub struct Game {
    pub grid: [[u8; WIDTH]; HEIGHT],
    pub current_piece: Option<ActivePiece>,
    pub next_piece: TetrominoShape,
    pub score: u32,
    pub is_game_over: bool,
    pub piece_stats: [u32; 7],
}

impl Game {
    /// The board grid as a sequence of rows.
    pub open spec fn board(self) -> Seq<Seq<u8>> {
        board_of(self.grid)
    }

    /// The engine invariant: the board is well formed, and the active
    /// piece (when present) is bounded and, unless the game is over, sits
    /// at a validated position.
    pub open spec fn wf(self) -> bool {
        &&& board_wf(self.board())
        &&& match self.current_piece {
            Some(p) => piece_wf(p) && (!self.is_game_over ==> spec_valid(
                self.board(),
                p.cells@,
                p.x as int,
                p.y as int,
            )),
            None => true,
        }
    }

    /// A fresh engine: empty board, a random active piece at the spawn
    /// point, a random queued shape, one statistic recorded for the
    /// spawned shape, zero score, game not over.
    pub fn new() -> (g: Self)
        ensures
            g.wf(),
            g.board() == empty_board(),
            g.score == 0,
            !g.is_game_over,
            g.current_piece matches Some(p) && p.x == WIDTH as i32 / 2 && p.y == 0 && p.cells@
                == spec_cells(p.shape) && g.piece_stats@ == Seq::new(
                7,
                |i: int| if i == shape_index(p.shape) { 1u32 } else { 0u32 },
            ),
            stats_sum(g.piece_stats@) == 1,
    {
        let start_piece = TetrominoShape::random();
        let next_piece = TetrominoShape::random();

        let mut stats: [u32; 7] = [0u32; 7];
        let idx = start_piece.to_index();
        let ghost zeros = stats@;
        stats[idx] = stats[idx] + 1;

        let g = Game {
            grid: [[0u8; WIDTH]; HEIGHT],
            current_piece: Some(ActivePiece::new(start_piece)),
            next_piece,
            score: 0,
            is_game_over: false,
            piece_stats: stats,
        };
        proof {
            assert(g.board() =~~= empty_board());
            lemma_spawn_valid(g.board(), start_piece);
            lemma_stats_sum_zeros(zeros);
            lemma_stats_sum_update(zeros, idx as int, 1u32);
            assert(g.piece_stats@ =~= Seq::new(
                7,
                |i: int| if i == shape_index(start_piece) { 1u32 } else { 0u32 },
            ));
        }
        g
    }

    /// Shifts the active piece one column to the left when the shifted
    /// position validates; otherwise leaves the state untouched. Never
    /// locks, never changes the score.
    pub fn move_left(&mut self)
        requires
            old(self).wf(),
        ensures
            final(self).wf(),
            final(self).score == old(self).score,
            old(self).is_game_over ==> *final(self) == *old(self),
            !old(self).is_game_over ==> match old(self).current_piece {
                Some(p) => if spec_valid(old(self).board(), p.cells@, p.x - 1, p.y as int) {
                    *final(self) == (Game {
                        current_piece: Some((ActivePiece { x: (p.x - 1) as i32, ..p })),
                        ..*old(self)
                    })
                } else {
                    *final(self) == *old(self)
                },
                None => *final(self) == *old(self),
            },
    {
        if self.is_game_over {
            return ;
        }
        let can = match &self.current_piece {
            Some(piece) => is_valid_position(&self.grid, &piece.cells, piece.x - 1, piece.y),
            None => false,
        };
        if can {
            match &mut self.current_piece {
                Some(piece) => {
                    proof {
                        lemma_valid_pivot_bounds(
                            old(self).board(),
                            piece.cells@,
                            piece.x - 1,
                            piece.y as int,
                        );
                    }
                    piece.x = piece.x - 1;
                },
                None => {},
            }
        }
    }

    /// Shifts the active piece one column to the right when the shifted
    /// position validates; otherwise leaves the state untouched. Never
    /// locks, never changes the score.
    pub fn move_right(&mut self)
        requires
            old(self).wf(),
        ensures
            final(self).wf(),
            final(self).score == old(self).score,
            old(self).is_game_over ==> *final(self) == *old(self),
            !old(self).is_game_over ==> match old(self).current_piece {
                Some(p) => if spec_valid(old(self).board(), p.cells@, p.x + 1, p.y as int) {
                    *final(self) == (Game {
                        current_piece: Some((ActivePiece { x: (p.x + 1) as i32, ..p })),
                        ..*old(self)
                    })
                } else {
                    *final(self) == *old(self)
                },
                None => *final(self) == *old(self),
            },
    {
        if self.is_game_over {
            return ;
        }
        let can = match &self.current_piece {
            Some(piece) => is_valid_position(&self.grid, &piece.cells, piece.x + 1, piece.y),
            None => false,
        };
        if can {
            match &mut self.current_piece {
                Some(piece) => {
                    proof {
                        lemma_valid_pivot_bounds(
                            old(self).board(),
                            piece.cells@,
                            piece.x + 1,
                            piece.y as int,
                        );
                    }
                    piece.x = piece.x + 1;
                },
                None => {},
            }
        }
    }

    /// Applies a quarter turn to the active piece's offsets, leaving the
    /// pivot unchanged: the turned offsets are computed as a trial, and
    /// committed only when the trial validates at the current pivot.
    /// There is no wall kick; a rotation that would collide is discarded.
    pub fn rotate(&mut self)
        requires
            old(self).wf(),
        ensures
            final(self).wf(),
            final(self).score == old(self).score,
            old(self).is_game_over ==> *final(self) == *old(self),
            !old(self).is_game_over ==> match old(self).current_piece {
                Some(p) => if spec_valid(
                    old(self).board(),
                    rotated(p.cells@),
                    p.x as int,
                    p.y as int,
                ) {
                    final(self).current_piece matches Some(q) && q.shape == p.shape && q.x == p.x
                        && q.y == p.y && q.cells@ == rotated(p.cells@) && final(self).grid == old(
                        self,
                    ).grid && final(self).next_piece == old(self).next_piece && final(self).score
                        == old(self).score && final(self).is_game_over == old(self).is_game_over
                        && final(self).piece_stats == old(self).piece_stats
                } else {
                    *final(self) == *old(self)
                },
                None => *final(self) == *old(self),
            },
    {
        if self.is_game_over {
            return ;
        }
        let trial: Option<[Point; 4]> = match &self.current_piece {
            Some(piece) => {
                let c0 = piece.cells[0];
                let c1 = piece.cells[1];
                let c2 = piece.cells[2];
                let c3 = piece.cells[3];
                let t: [Point; 4] = [
                    (-c0.1, c0.0),
                    (-c1.1, c1.0),
                    (-c2.1, c2.0),
                    (-c3.1, c3.0),
                ];
                proof {
                    assert(t@ =~= rotated(piece.cells@));
                }
                if is_valid_position(&self.grid, &t, piece.x, piece.y) {
                    Some(t)
                } else {
                    None
                }
            },
            None => None,
        };
        match (&mut self.current_piece, trial) {
            (Some(piece), Some(t)) => {
                proof {
                    lemma_rotated_cells_bounded(piece.cells@);
                }
                piece.cells = t;
            },
            _ => {},
        }
    }

    /// Moves the active piece down exactly one row and adds one point
    /// when the lower position validates; otherwise changes nothing.
    /// A blocked soft drop never locks the piece.
    pub fn soft_drop(&mut self)
        requires
            old(self).wf(),
        ensures
            final(self).wf(),
            final(self).score >= old(self).score,
            old(self).is_game_over ==> *final(self) == *old(self),
            !old(self).is_game_over ==> match old(self).current_piece {
                Some(p) => if spec_valid(old(self).board(), p.cells@, p.x as int, p.y + 1) {
                    *final(self) == (Game {
                        current_piece: Some((ActivePiece { y: (p.y + 1) as i32, ..p })),
                        score: old(self).score.saturating_add(1),
                        ..*old(self)
                    })
                } else {
                    *final(self) == *old(self)
                },
                None => *final(self) == *old(self),
            },
    {
        if self.is_game_over {
            return ;
        }
        let can = match &self.current_piece {
            Some(piece) => is_valid_position(&self.grid, &piece.cells, piece.x, piece.y + 1),
            None => false,
        };
        if can {
            match &mut self.current_piece {
                Some(piece) => {
                    proof {
                        lemma_valid_pivot_bounds(
                            old(self).board(),
                            piece.cells@,
                            piece.x as int,
                            piece.y + 1,
                        );
                    }
                    piece.y = piece.y + 1;
                },
                None => {},
            }
            self.score = self.score.saturating_add(1);
        }
    }

    /// The line-clear pass: removes every full row, compacts the
    /// surviving rows toward the bottom in unchanged relative order,
    /// leaves fresh empty rows on top, and awards the bonus for the
    /// number of rows removed.
    fn check_lines(&mut self)
        ensures
            board_of(final(self).grid) == cleared_board(board_of(old(self).grid)),
            final(self).score == old(self).score.saturating_add(
                line_bonus(num_full_rows(board_of(old(self).grid))) as u32,
            ),
            final(self).score >= old(self).score,
            final(self).current_piece == old(self).current_piece,
            final(self).next_piece == old(self).next_piece,
            final(self).is_game_over == old(self).is_game_over,
            final(self).piece_stats == old(self).piece_stats,
    {
        let g: [[u8; WIDTH]; HEIGHT] = self.grid;
        let ghost gb = board_of(g);
        let mut new_grid: [[u8; WIDTH]; HEIGHT] = [[0u8; WIDTH]; HEIGHT];
        let mut dst: usize = HEIGHT;
        let mut y: usize = HEIGHT;
        let mut lines_cleared: u32 = 0;

        while y > 0
            invariant
                y <= HEIGHT,
                y <= dst <= HEIGHT,
                gb == board_of(g),
                HEIGHT - dst == surviving_rows(gb.skip(y as int)).len(),
                lines_cleared == num_full_rows(gb.skip(y as int)),
                board_of(new_grid).skip(dst as int) == surviving_rows(gb.skip(y as int)),
                forall|r: int, c: int|
                    0 <= r < dst && 0 <= c < WIDTH as int ==> board_of(new_grid)[r][c] == 0,
            decreases y,
        {
            y -= 1;
            let row = g[y];
            let full = row_is_full(&row);
            proof {
                lemma_surviving_rows_props(gb.skip(y as int + 1));
                assert(gb.skip(y as int).drop_first() =~= gb.skip(y as int + 1));
                assert(gb.skip(y as int).first() =~= gb[y as int]);
                assert(row@ =~= gb[y as int]);
            }
            if !full {
                let ghost prev = board_of(new_grid);
                dst -= 1;
                new_grid[dst] = row;
                proof {
                    assert(board_of(new_grid).skip(dst as int) =~~= surviving_rows(
                        gb.skip(y as int),
                    ));
                    assert forall|r: int, c: int|
                        0 <= r < dst && 0 <= c < WIDTH as int implies board_of(new_grid)[r][c]
                        == 0 by {
                        assert(board_of(new_grid)[r][c] == prev[r][c]);
                    }
                }
            } else {
                lines_cleared += 1;
            }
        }
        self.grid = new_grid;
        proof {
            assert(gb.skip(0) =~= gb);
            lemma_surviving_rows_props(gb);
            assert(board_of(new_grid) =~~= cleared_board(gb));
        }
        if lines_cleared > 0 {
            let bonus: u32 = match lines_cleared {
                1 => 100,
                2 => 300,
                3 => 500,
                4 => 800,
                _ => 100,
            };
            self.score = self.score.saturating_add(bonus);
        }
    }

    /// Locks the active piece: writes its in-bounds cells into the board,
    /// runs the line-clear pass, promotes the queued shape to a fresh
    /// active piece, draws a new queued shape at random, records the
    /// spawned shape's statistic, and flags game over when the spawn
    /// position does not validate.
    fn lock_piece(&mut self)
        requires
            old(self).wf(),
            !old(self).is_game_over,
            old(self).current_piece is Some,
        ensures
            final(self).wf(),
            locks_to(*old(self), *final(self)),
    {
        let ghost pre = *old(self);
        let (pcells, px, py, pidx) = match &self.current_piece {
            Some(piece) => (piece.cells, piece.x, piece.y, piece.shape.to_index()),
            None => {
                proof {
                    assert(false);
                }
                return ;
            },
        };
        let v: u8 = (pidx + 1) as u8;

        let (dx0, dy0) = pcells[0];
        write_cell(&mut self.grid, px + dx0, py + dy0, v);
        let (dx1, dy1) = pcells[1];
        write_cell(&mut self.grid, px + dx1, py + dy1, v);
        let (dx2, dy2) = pcells[2];
        write_cell(&mut self.grid, px + dx2, py + dy2, v);
        let (dx3, dy3) = pcells[3];
        write_cell(&mut self.grid, px + dx3, py + dy3, v);
        proof {
            lemma_place_as_writes(pre.board(), pre.current_piece.unwrap(), v);
            assert(board_of(self.grid) == place_piece(pre.board(), pre.current_piece.unwrap()));
            lemma_place_piece_wf(pre.board(), pre.current_piece.unwrap());
        }

        self.check_lines();
        proof {
            lemma_cleared_board_wf(place_piece(pre.board(), pre.current_piece.unwrap()));
        }

        let next_shape = self.next_piece;
        self.next_piece = TetrominoShape::random();

        let idx = next_shape.to_index();
        self.piece_stats[idx] = self.piece_stats[idx].saturating_add(1);

        let new_piece = ActivePiece::new(next_shape);
        if !is_valid_position(&self.grid, &new_piece.cells, new_piece.x, new_piece.y) {
            self.is_game_over = true;
        }
        self.current_piece = Some(new_piece);
    }

    /// The gravity tick: moves the active piece one row down when the
    /// lower position validates, and otherwise locks it. This and a hard
    /// drop are the only operations that lock a piece.
    pub fn update(&mut self)
        requires
            old(self).wf(),
        ensures
            final(self).wf(),
            final(self).score >= old(self).score,
            old(self).is_game_over ==> *final(self) == *old(self),
            !old(self).is_game_over ==> match old(self).current_piece {
                Some(p) => if spec_valid(old(self).board(), p.cells@, p.x as int, p.y + 1) {
                    *final(self) == (Game {
                        current_piece: Some((ActivePiece { y: (p.y + 1) as i32, ..p })),
                        ..*old(self)
                    })
                } else {
                    locks_to(*old(self), *final(self))
                },
                None => *final(self) == *old(self),
            },
    {
        if self.is_game_over {
            return ;
        }
        let can = match &self.current_piece {
            Some(piece) => is_valid_position(&self.grid, &piece.cells, piece.x, piece.y + 1),
            None => false,
        };
        if can {
            match &mut self.current_piece {
                Some(piece) => {
                    proof {
                        lemma_valid_pivot_bounds(
                            old(self).board(),
                            piece.cells@,
                            piece.x as int,
                            piece.y + 1,
                        );
                    }
                    piece.y = piece.y + 1;
                },
                None => {},
            }
        } else if self.current_piece.is_some() {
            self.lock_piece();
        }
    }

    /// Drops the active piece as far down as it validates, awarding two
    /// points per row descended, then locks it unconditionally — even
    /// when it was already resting and descended zero rows.
    pub fn hard_drop(&mut self)
        requires
            old(self).wf(),
        ensures
            final(self).wf(),
            final(self).score >= old(self).score,
            old(self).is_game_over ==> *final(self) == *old(self),
            !old(self).is_game_over ==> match old(self).current_piece {
                Some(p) => exists|d: int| hard_drops_to(*old(self), p, d, *final(self)),
                None => *final(self) == *old(self),
            },
    {
        if self.is_game_over {
            return ;
        }
        let (gy, py) = match &self.current_piece {
            Some(piece) => (landing_row(&self.grid, &piece.cells, piece.x, piece.y), piece.y),
            None => {
                return ;
            },
        };
        let d = gy - py;
        match &mut self.current_piece {
            Some(piece) => {
                piece.y = gy;
            },
            None => {},
        }
        self.score = self.score.saturating_add((2 * d) as u32);
        proof {
            let p = old(self).current_piece.unwrap();
            assert(*self == (Game {
                current_piece: Some((ActivePiece { y: (p.y + d) as i32, ..p })),
                score: old(self).score.saturating_add((2 * d) as u32),
                ..*old(self)
            }));
        }
        self.lock_piece();
        proof {
            let p = old(self).current_piece.unwrap();
            assert(hard_drops_to(*old(self), p, d as int, *self));
        }
    }

    /// A pure query: the pose the active piece would land in if it were
    /// hard-dropped now — same shape, pivot column and offsets, with the
    /// pivot row advanced as far down as validity allows. Returns nothing
    /// when no active piece exists.
    pub fn get_ghost_piece_position(&self) -> (r: Option<ActivePiece>)
        requires
            self.wf(),
        ensures
            match self.current_piece {
                Some(p) => r matches Some(gh) && gh.shape == p.shape && gh.x == p.x && gh.cells@
                    == p.cells@ && p.y <= gh.y <= 21 && (forall|j: int|
                    p.y < j <= gh.y ==> spec_valid(self.board(), p.cells@, p.x as int, j))
                    && !spec_valid(self.board(), p.cells@, p.x as int, gh.y + 1),
                None => r is None,
            },
    {
        match &self.current_piece {
            Some(piece) => {
                let gy = landing_row(&self.grid, &piece.cells, piece.x, piece.y);
                Some(ActivePiece { shape: piece.shape, x: piece.x, y: gy, cells: piece.cells })
            },
            None => None,
        }
    }
}

/// Walks a pivot straight down from the given row and returns the lowest
/// row at which the offsets still validate: every intermediate step down
/// to the result validates, and one row further does not. When even the
/// first step down fails, the starting row itself is returned.
fn landing_row(grid: &[[u8; WIDTH]; HEIGHT], cells: &[Point; 4], x: i32, y: i32) -> (res: i32)
    requires
        cells_bounded(cells@),
        -2 <= x <= 11,
        0 <= y <= 21,
    ensures
        y <= res <= 21,
        forall|j: int| y < j <= res ==> spec_valid(board_of(*grid), cells@, x as int, j),
        !spec_valid(board_of(*grid), cells@, x as int, res as int + 1),
{
    let mut res = y;
    while is_valid_position(grid, cells, x, res + 1)
        invariant
            y <= res <= 21,
            cells_bounded(cells@),
            -2 <= x <= 11,
            forall|k: int| #![trigger cells@[k]]
                0 <= k < 4 ==> i32::MIN <= x + cells@[k].0 <= i32::MAX && i32::MIN <= (res + 1)
                    + cells@[k].1 <= i32::MAX,
            forall|j: int| y < j <= res ==> spec_valid(board_of(*grid), cells@, x as int, j),
        decreases 22 - res,
    {
        res = res + 1;
        proof {
            lemma_valid_pivot_bounds(board_of(*grid), cells@, x as int, res as int);
        }
    }
    res
}

/// Checks whether every cell of a row is occupied.
fn row_is_full(row: &[u8; WIDTH]) -> (full: bool)
    ensures
        full == row_full(row@),
{
    let mut c: usize = 0;
    while c < WIDTH
        invariant
            c <= WIDTH,
            forall|j: int| 0 <= j < c ==> #[trigger] row@[j] != 0,
        decreases WIDTH - c,
    {
        if row[c] == 0 {
            return false;
        }
        c += 1;
    }
    true
}

impl ActivePiece {
    /// A freshly spawned piece: pivot at the spawn point (WIDTH/2, 0) with
    /// the shape's canonical offsets.
    pub fn new(shape: TetrominoShape) -> (p: Self)
        ensures
            p.shape == shape,
            p.x == WIDTH as i32 / 2,
            p.y == 0,
            p.cells@ == spec_cells(shape),
            piece_wf(p),
    {
        let p = ActivePiece { shape, x: (WIDTH / 2) as i32, y: 0, cells: shape.cells() };
        proof {
            lemma_canonical_cells_bounded(shape);
        }
        p
    }
}

/// The canonical offsets of every shape are four pairs with both
/// components between -2 and 2.
pub proof fn lemma_canonical_cells_bounded(s: TetrominoShape)
    ensures
        cells_bounded(spec_cells(s)),
{
}

/// A quarter turn keeps an offset set bounded.
pub proof fn lemma_rotated_cells_bounded(cells: Seq<Point>)
    requires
        cells_bounded(cells),
    ensures
        cells_bounded(rotated(cells)),
{
}

/// A freshly spawned piece validates against any board whose top two rows
/// are empty in the five spawn columns; on an all-empty board in
/// particular.
pub proof fn lemma_spawn_valid(b: Seq<Seq<u8>>, s: TetrominoShape)
    requires
        board_wf(b),
        forall|r: int, c: int| 0 <= r < 2 && 3 <= c <= 7 ==> #[trigger] b[r][c] == 0,
    ensures
        spec_valid(b, spec_cells(s), WIDTH as int / 2, 0),
{
    lemma_canonical_cells_bounded(s);
    assert forall|k: int| 0 <= k < spec_cells(s).len() implies cell_ok(
        b,
        WIDTH as int / 2 + spec_cells(s)[k].0,
        0 + spec_cells(s)[k].1,
    ) by {
        let c = WIDTH as int / 2 + spec_cells(s)[k].0;
        let r = 0 + spec_cells(s)[k].1;
        assert(0 <= spec_cells(s)[k].1 <= 1);
        assert(3 <= c <= 7);
        assert(b[r][c] == 0);
    }
}

/// Writes one cell of the grid when the coordinates lie on the board;
/// coordinates off the board (including rows above the top) are ignored.
fn write_cell(grid: &mut [[u8; WIDTH]; HEIGHT], cx: i32, cy: i32, v: u8)
    ensures
        board_of(*final(grid)) == write_cell_spec(board_of(*old(grid)), cx as int, cy as int, v),
{
    if cx >= 0 && cx < WIDTH as i32 && cy >= 0 && cy < HEIGHT as i32 {
        grid[cy as usize][cx as usize] = v;
        proof {
            assert(board_of(*grid) =~~= write_cell_spec(
                board_of(*old(grid)),
                cx as int,
                cy as int,
                v,
            ));
        }
    } else {
        proof {
            assert(board_of(*grid) =~~= write_cell_spec(
                board_of(*old(grid)),
                cx as int,
                cy as int,
                v,
            ));
        }
    }
}

/// Writing the four cells of a piece one after the other produces exactly
/// the placement of the piece: previously-empty cells under the piece's
/// in-bounds cells now hold the piece's value, and no other cell changes.
pub proof fn lemma_place_as_writes(b: Seq<Seq<u8>>, p: ActivePiece, v: u8)
    requires
        b.len() == HEIGHT,
        forall|r: int| 0 <= r < b.len() ==> (#[trigger] b[r]).len() == WIDTH,
        v == (shape_index(p.shape) + 1) as u8,
    ensures
        ({
            let b1 = write_cell_spec(b, p.x + p.cells@[0].0, p.y + p.cells@[0].1, v);
            let b2 = write_cell_spec(b1, p.x + p.cells@[1].0, p.y + p.cells@[1].1, v);
            let b3 = write_cell_spec(b2, p.x + p.cells@[2].0, p.y + p.cells@[2].1, v);
            let b4 = write_cell_spec(b3, p.x + p.cells@[3].0, p.y + p.cells@[3].1, v);
            b4 == place_piece(b, p)
        }),
{
    let b1 = write_cell_spec(b, p.x + p.cells@[0].0, p.y + p.cells@[0].1, v);
    let b2 = write_cell_spec(b1, p.x + p.cells@[1].0, p.y + p.cells@[1].1, v);
    let b3 = write_cell_spec(b2, p.x + p.cells@[2].0, p.y + p.cells@[2].1, v);
    let b4 = write_cell_spec(b3, p.x + p.cells@[3].0, p.y + p.cells@[3].1, v);
    assert(b4.len() == b.len());
    assert forall|r: int| 0 <= r < b.len() implies #[trigger] b4[r].len() == b[r].len() by {}
    assert forall|r: int, c: int| 0 <= r < b.len() && 0 <= c < b[r].len() implies #[trigger] b4[r][c]
        == (if piece_covers(p, r, c) {
        v
    } else {
        b[r][c]
    }) by {
        if piece_covers(p, r, c) {
            let k = choose|k: int|
                0 <= k < 4 && p.x + p.cells@[k].0 == c && p.y + p.cells@[k].1 == r;
            assert(0 <= k < 4);
            if k == 0 {
                assert(b1[r][c] == v);
            } else if k == 1 {
                assert(b2[r][c] == v);
            } else if k == 2 {
                assert(b3[r][c] == v);
            } else {
                assert(b4[r][c] == v);
            }
        } else {
            assert(!(0 <= 0 < 4 && p.x + p.cells@[0].0 == c && p.y + p.cells@[0].1 == r));
            assert(!(0 <= 1 < 4 && p.x + p.cells@[1].0 == c && p.y + p.cells@[1].1 == r));
            assert(!(0 <= 2 < 4 && p.x + p.cells@[2].0 == c && p.y + p.cells@[2].1 == r));
            assert(!(0 <= 3 < 4 && p.x + p.cells@[3].0 == c && p.y + p.cells@[3].1 == r));
        }
    }
    assert(b4 =~~= place_piece(b, p));
}

/// Every surviving row is one of the board's rows (so compaction invents
/// no cells), there are no more survivors than rows, and no survivor is
/// full.
pub proof fn lemma_surviving_rows_props(b: Seq<Seq<u8>>)
    ensures
        surviving_rows(b).len() <= b.len(),
        forall|i: int|
            0 <= i < surviving_rows(b).len() ==> exists|j: int|
                0 <= j < b.len() && #[trigger] surviving_rows(b)[i] == b[j],
        forall|i: int|
            0 <= i < surviving_rows(b).len() ==> !row_full(#[trigger] surviving_rows(b)[i]),
    decreases b.len(),
{
    if b.len() == 0 {
    } else {
        let rest = b.drop_first();
        lemma_surviving_rows_props(rest);
        if row_full(b.first()) {
            assert forall|i: int| 0 <= i < surviving_rows(b).len() implies exists|j: int|
                0 <= j < b.len() && #[trigger] surviving_rows(b)[i] == b[j] by {
                let j0 = choose|j: int|
                    0 <= j < rest.len() && #[trigger] surviving_rows(rest)[i] == rest[j];
                assert(rest[j0] == b[j0 + 1]);
                assert(surviving_rows(b)[i] == b[j0 + 1]);
            }
        } else {
            assert forall|i: int| 0 <= i < surviving_rows(b).len() implies exists|j: int|
                0 <= j < b.len() && #[trigger] surviving_rows(b)[i] == b[j] by {
                if i == 0 {
                    assert(surviving_rows(b)[0] == b[0]);
                } else {
                    let j0 = choose|j: int|
                        0 <= j < rest.len() && #[trigger] surviving_rows(rest)[i - 1] == rest[j];
                    assert(rest[j0] == b[j0 + 1]);
                    assert(surviving_rows(b)[i] == b[j0 + 1]);
                }
            }
        }
    }
}

/// Compaction keeps the board well formed and of unchanged dimensions.
pub proof fn lemma_cleared_board_wf(b: Seq<Seq<u8>>)
    requires
        board_wf(b),
    ensures
        board_wf(cleared_board(b)),
        cleared_board(b).len() == b.len(),
        0 <= num_full_rows(b) <= b.len(),
{
    lemma_surviving_rows_props(b);
    let cb = cleared_board(b);
    assert forall|r: int| 0 <= r < cb.len() implies (#[trigger] cb[r]).len() == WIDTH by {
        if r >= num_full_rows(b) {
            let i = r - num_full_rows(b);
            let j0 = choose|j: int|
                0 <= j < b.len() && #[trigger] surviving_rows(b)[i] == b[j];
            assert(cb[r] == b[j0]);
        }
    }
    assert forall|r: int, c: int|
        0 <= r < cb.len() && 0 <= c < cb[r].len() implies #[trigger] cb[r][c] <= 7 by {
        if r >= num_full_rows(b) {
            let i = r - num_full_rows(b);
            let j0 = choose|j: int|
                0 <= j < b.len() && #[trigger] surviving_rows(b)[i] == b[j];
            assert(cb[r] == b[j0]);
        }
    }
}

/// Placing a piece keeps the board well formed: dimensions are unchanged
/// and the written value is the shape index plus one, at most 7.
pub proof fn lemma_place_piece_wf(b: Seq<Seq<u8>>, p: ActivePiece)
    requires
        board_wf(b),
    ensures
        board_wf(place_piece(b, p)),
        place_piece(b, p).len() == b.len(),
        forall|r: int|
            0 <= r < b.len() ==> (#[trigger] place_piece(b, p)[r]).len() == b[r].len(),
{
    assert(0 <= shape_index(p.shape) < 7);
}

/// Locking writes exactly the in-bounds cells of the piece: every board
/// cell under one of the piece's cells holds the piece's shape index plus
/// one after placement, and every other board cell is unchanged.
pub proof fn lemma_place_piece_cells(b: Seq<Seq<u8>>, p: ActivePiece)
    ensures
        place_piece(b, p).len() == b.len(),
        forall|r: int| 0 <= r < b.len() ==> (#[trigger] place_piece(b, p)[r]).len() == b[r].len(),
        forall|r: int, c: int|
            0 <= r < b.len() && 0 <= c < b[r].len() && piece_covers(p, r, c)
                ==> #[trigger] place_piece(b, p)[r][c] == (shape_index(p.shape) + 1) as u8,
        forall|r: int, c: int|
            0 <= r < b.len() && 0 <= c < b[r].len() && !piece_covers(p, r, c)
                ==> #[trigger] place_piece(b, p)[r][c] == b[r][c],
{
}

/// Line clearing preserves the relative top-to-bottom order of the
/// non-full rows: the compacted board is exactly as many fresh empty
/// rows as there were full rows, followed by the surviving rows in their
/// original order, none of which is full.
pub proof fn lemma_line_clear_row_order(b: Seq<Seq<u8>>)
    ensures
        0 <= num_full_rows(b) <= b.len(),
        cleared_board(b).len() == b.len(),
        cleared_board(b).skip(num_full_rows(b)) == surviving_rows(b),
        forall|r: int| 0 <= r < num_full_rows(b) ==> #[trigger] cleared_board(b)[r] == empty_row(),
        forall|i: int|
            0 <= i < surviving_rows(b).len() ==> !row_full(#[trigger] surviving_rows(b)[i]),
        forall|i: int|
            0 <= i < surviving_rows(b).len() ==> exists|j: int|
                0 <= j < b.len() && #[trigger] surviving_rows(b)[i] == b[j],
{
    lemma_surviving_rows_props(b);
    assert(cleared_board(b).skip(num_full_rows(b)) =~= surviving_rows(b));
}

/// The surviving rows are exactly what the standard sequence filter
/// keeps of the board's rows: compaction removes the full rows and
/// nothing else, preserving the order of the rest.
pub proof fn lemma_surviving_rows_is_filter(b: Seq<Seq<u8>>)
    ensures
        surviving_rows(b) == b.filter(|row: Seq<u8>| !row_full(row)),
    decreases b.len(),
{
    reveal_with_fuel(Seq::filter, 2);
    let pred = |row: Seq<u8>| !row_full(row);
    if b.len() == 0 {
        assert(b.filter(pred) =~= Seq::<Seq<u8>>::empty());
    } else {
        lemma_surviving_rows_is_filter(b.drop_first());
        assert(b =~= seq![b.first()] + b.drop_first());
        Seq::filter_distributes_over_add(seq![b.first()], b.drop_first(), pred);
        assert(seq![b.first()].drop_last() =~= Seq::<Seq<u8>>::empty());
        if pred(b.first()) {
            assert(seq![b.first()].filter(pred) =~= seq![b.first()]);
        } else {
            assert(seq![b.first()].filter(pred) =~= Seq::<Seq<u8>>::empty());
            assert(surviving_rows(b) =~= b.filter(pred));
        }
    }
}

/// Stats conservation: one lock event increments the total spawn count by
/// exactly one, as long as the spawned shape's counter has not reached
/// the saturation ceiling.
pub proof fn lemma_lock_adds_one_stat(pre: Game, post: Game)
    requires
        pre.current_piece is Some,
        locks_to(pre, post),
        pre.piece_stats@[shape_index(pre.next_piece)] < u32::MAX,
    ensures
        stats_sum(post.piece_stats@) == stats_sum(pre.piece_stats@) + 1,
{
    lemma_stats_sum_update(
        pre.piece_stats@,
        shape_index(pre.next_piece),
        (pre.piece_stats@[shape_index(pre.next_piece)] + 1) as u32,
    );
}

/// A validated position keeps the pivot in a narrow band: the pivot
/// column within 2 of the walls and the pivot row at most 2 below the
/// bottom row (the pivot row has no lower bound, since cells above the
/// top of the board are permitted).
pub proof fn lemma_valid_pivot_bounds(b: Seq<Seq<u8>>, cells: Seq<Point>, x: int, y: int)
    requires
        cells_bounded(cells),
        spec_valid(b, cells, x, y),
    ensures
        -2 <= x <= 11,
        y <= 21,
{
    assert(cell_ok(b, x + cells[0].0, y + cells[0].1));
}

/// Checks whether the four cells of an offset set, anchored at the given
/// pivot, validate against the board: every resulting column inside
/// [0, WIDTH), every resulting row strictly less than HEIGHT, and every
/// cell with a non-negative row empty on the board. Rows above the top
/// (negative) are never obstructed.
pub fn is_valid_position(grid: &[[u8; WIDTH]; HEIGHT], cells: &[Point; 4], x: i32, y: i32) -> (r:
    bool)
    requires
        forall|k: int| #![trigger cells@[k]]
            0 <= k < 4 ==> i32::MIN <= x + cells@[k].0 <= i32::MAX && i32::MIN <= y
                + cells@[k].1 <= i32::MAX,
    ensures
        r == spec_valid(board_of(*grid), cells@, x as int, y as int),
{
    let mut k: usize = 0;
    while k < 4
        invariant
            k <= 4,
            forall|k: int| #![trigger cells@[k]]
                0 <= k < 4 ==> i32::MIN <= x + cells@[k].0 <= i32::MAX && i32::MIN <= y
                    + cells@[k].1 <= i32::MAX,
            forall|j: int| #![trigger cells@[j]]
                0 <= j < k ==> cell_ok(board_of(*grid), x + cells@[j].0, y + cells@[j].1),
        decreases 4 - k,
    {
        let (local_x, local_y) = cells[k];
        let abs_x = x + local_x;
        let abs_y = y + local_y;
        if abs_x < 0 || abs_x >= WIDTH as i32 || abs_y >= HEIGHT as i32 {
            proof {
                assert(!cell_ok(board_of(*grid), x + cells@[k as int].0, y + cells@[k as int].1));
            }
            return false;
        }
        if abs_y >= 0 {
            if grid[abs_y as usize][abs_x as usize] != 0 {
                proof {
                    assert(board_of(*grid)[abs_y as int][abs_x as int] != 0);
                    assert(!cell_ok(
                        board_of(*grid),
                        x + cells@[k as int].0,
                        y + cells@[k as int].1,
                    ));
                }
                return false;
            }
        }
        proof {
            assert(cell_ok(board_of(*grid), x + cells@[k as int].0, y + cells@[k as int].1));
        }
        k += 1;
    }
    true
}

} // verus!

