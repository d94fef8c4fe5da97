//! The board engine: grid, state machine, moves and spawning.
//!
//! The grid is a 4x4 matrix of cells, stored column by column: cell
//! `(x, y)` lives at flat index `4 * x + y`. A cell holds `0` when empty
//! and a power of two between 2 and 2048 otherwise. The engine owns the
//! grid, the game-state machine and the random source used to spawn tiles.

use vstd::prelude::*;

use crate::line::int_view;
use crate::line::lemma_changed_line_has_empty;
use crate::line::lemma_shift_len;
use crate::line::lemma_shift_preserves_sum;
use crate::line::lemma_shift_values;
use crate::line::seq_sum;
use crate::line::shift_line;
use crate::line::shift_spec;
use crate::line::tiles_bounded;
use crate::line::value_from;

verus! {

/// The width of the board, in cells.
pub const FIELD_WIDTH: usize = 4;

/// The height of the board, in cells.
pub const FIELD_HEIGHT: usize = 4;

/// The tile value that wins the game.
pub const WIN_VALUE: i32 = 2048;

/// Which way the tiles travel on a move.
#[derive(Clone, Copy, Debug, PartialEq, Eq, Structural)]
pub enum MoveDirection {
    Left,
    Right,
    Top,
    Bottom,
}

/// The engine's state machine. `Won` and `Lost` are terminal: no further
/// moves are accepted in them.
#[derive(Clone, Copy, Debug, PartialEq, Eq, Structural)]
pub enum GameState {
    WaitingForStart,
    Playing,
    Lost,
    Won,
}

/// A caller fault or internal fault surfaced by the engine. A rejected
/// move is not an error and is reported through `MoveOutcome` instead.
#[derive(Clone, Copy, Debug, PartialEq, Eq, Structural)]
pub enum GameError {
    /// Cell coordinates outside the grid.
    OutOfBounds,
    /// An operation invoked in a state that forbids it.
    InvalidState,
    /// A grid that breaks the board invariant.
    InvariantViolation,
}

/// What a legal call of `update` did.
#[derive(Clone, Copy, Debug, PartialEq, Eq, Structural)]
pub enum MoveOutcome {
    /// The move changed the grid; a tile was spawned.
    Applied,
    /// The move would not change the grid; nothing happened.
    Rejected,
}

/// Relies on `rand::rngs::ThreadRng`, the rand crate's handle to the
/// thread-local generator; the engine owns one and draws from it when
/// spawning tiles.
#[verifier::external_type_specification]
#[verifier::external_body]
pub struct ExThreadRng(rand::rngs::ThreadRng);

/// Relies on `rand::thread_rng`: returns a handle to the thread-local
/// generator. Nothing is assumed of the values it will produce.
#[verifier::external_body]
fn fresh_rng() -> rand::rngs::ThreadRng {
    rand::thread_rng()
}

/// Relies on `rand::Rng::gen_range` over `0..n`: it returns a value of
/// that range and panics only when the range is empty, which the
/// precondition rules out. Only membership in the range is stated; no two
/// draws need agree.
#[verifier::external_body]
fn random_below(rng: &mut rand::rngs::ThreadRng, n: usize) -> (r: usize)
    requires
        n > 0,
    ensures
        r < n,
{
    rand::Rng::gen_range(rng, 0..n)
}

/// Whether tiles travel toward the high-index end of a line for this
/// direction.
pub open spec fn travels_forward(d: MoveDirection) -> bool {
    match d {
        MoveDirection::Right | MoveDirection::Bottom => true,
        MoveDirection::Left | MoveDirection::Top => false,
    }
}

/// The line (row for Left/Right, column for Top/Bottom) that flat cell `k`
/// belongs to.
pub open spec fn line_of(d: MoveDirection, k: int) -> int {
    match d {
        MoveDirection::Left | MoveDirection::Right => k % 4,
        MoveDirection::Top | MoveDirection::Bottom => k / 4,
    }
}

/// The position of flat cell `k` within its line.
pub open spec fn pos_of(d: MoveDirection, k: int) -> int {
    match d {
        MoveDirection::Left | MoveDirection::Right => k / 4,
        MoveDirection::Top | MoveDirection::Bottom => k % 4,
    }
}

/// The flat index of position `j` of line `i`.
pub open spec fn flat_index(d: MoveDirection, i: int, j: int) -> int {
    match d {
        MoveDirection::Left | MoveDirection::Right => 4 * j + i,
        MoveDirection::Top | MoveDirection::Bottom => 4 * i + j,
    }
}

/// Line `i` of the grid, read in storage order.
pub open spec fn grid_line(g: Seq<int>, d: MoveDirection, i: int) -> Seq<int> {
    Seq::new(4, |j: int| g[flat_index(d, i, j)])
}

/// The whole grid after the shift-and-merge pass of a move in direction
/// `d`, before any tile is spawned.
pub open spec fn shifted_grid(g: Seq<int>, d: MoveDirection) -> Seq<int> {
    Seq::new(
        16,
        |k: int|
            shift_spec(grid_line(g, d, line_of(d, k)), travels_forward(d))[pos_of(d, k)],
    )
}

/// A move in direction `d` is legal exactly when its shift-and-merge pass
/// would change some cell.
pub open spec fn move_changes(g: Seq<int>, d: MoveDirection) -> bool {
    shifted_grid(g, d) != g
}

/// No direction yields a legal move: the loss condition.
pub open spec fn no_moves(g: Seq<int>) -> bool {
    forall|d: MoveDirection| !move_changes(g, d)
}

/// A power of two that a tile may hold.
pub open spec fn pow2_tile(v: int) -> bool {
    ||| v == 2
    ||| v == 4
    ||| v == 8
    ||| v == 16
    ||| v == 32
    ||| v == 64
    ||| v == 128
    ||| v == 256
    ||| v == 512
    ||| v == 1024
    ||| v == 2048
}

/// The board invariant for one cell: empty, or a power of two up to the
/// winning value.
pub open spec fn cell_ok(v: int) -> bool {
    v == 0 || pow2_tile(v)
}

/// While the game is still being played no cell has reached the winning
/// value: the first merge that produces it ends the game.
pub open spec fn playing_cell_ok(v: int) -> bool {
    v == 0 || (pow2_tile(v) && v < 2048)
}

/// Cell `k`, previously empty, became a 2 or a 4, and every other cell is
/// unchanged.
pub open spec fn spawned_at(before: Seq<int>, after: Seq<int>, k: int) -> bool {
    &&& 0 <= k < before.len()
    &&& before[k] == 0
    &&& (after[k] == 2 || after[k] == 4)
    &&& forall|j: int| 0 <= j < before.len() && j != k ==> after[j] == before[j]
}

/// Exactly one previously empty cell of `before` became a 2 or a 4 in
/// `after`, and every other cell is unchanged: the shape of a tile spawn.
pub open spec fn spawn_step(before: Seq<int>, after: Seq<int>) -> bool {
    &&& after.len() == before.len()
    &&& exists|k: int| spawned_at(before, after, k)
}

/// The 2048 board engine.
pub struct Game2048 {
    playground: Vec<i32>,
    game_state: GameState,
    rng: rand::rngs::ThreadRng,
}

impl Game2048 {
    /// The mathematical value of each cell, in flat storage order.
    pub closed spec fn grid_view(self) -> Seq<int> {
        int_view(self.playground@)
    }

    /// The current state, as contracts speak of it.
    pub closed spec fn state_view(self) -> GameState {
        self.game_state
    }

    /// The board invariant.
    pub closed spec fn wf(self) -> bool {
        &&& self.playground@.len() == 16
        &&& forall|k: int| 0 <= k < 16 ==> cell_ok(#[trigger] self.grid_view()[k])
        &&& (self.game_state is Playing ==> forall|k: int|
            0 <= k < 16 ==> playing_cell_ok(#[trigger] self.grid_view()[k]))
        &&& (self.game_state is WaitingForStart ==> forall|k: int|
            0 <= k < 16 ==> #[trigger] self.grid_view()[k] == 0)
    }

    /// A fresh engine: an all-empty grid, waiting to be started.
    pub fn new() -> (r: Game2048)
        ensures
            r.wf(),
            r.state_view() is WaitingForStart,
            forall|k: int| 0 <= k < 16 ==> #[trigger] r.grid_view()[k] == 0,
    {
        let mut playground: Vec<i32> = Vec::new();
        let mut i: usize = 0;
        while i < 16
            invariant
                i <= 16,
                playground@.len() == i,
                forall|k: int| 0 <= k < i ==> #[trigger] playground@[k] == 0i32,
            decreases 16 - i,
        {
            playground.push(0);
            i = i + 1;
        }
        Game2048 { playground, game_state: GameState::WaitingForStart, rng: fresh_rng() }
    }

    /// The current state of the game's state machine.
    pub fn state(&self) -> (r: GameState)
        ensures
            r == self.state_view(),
    {
        self.game_state
    }

    /// The value at cell `(x, y)`: coordinates off the board are a caller
    /// bug and are rejected rather than clamped.
    pub fn get_cell(&self, x: usize, y: usize) -> (r: Result<i32, GameError>)
        requires
            self.wf(),
        ensures
            (x >= 4 || y >= 4) <==> r == Err::<i32, GameError>(GameError::OutOfBounds),
            x < 4 && y < 4 ==> (r matches Ok(v) && v as int == self.grid_view()[
                4 * (x as int) + (y as int)
            ]),
    {
        if x >= FIELD_WIDTH || y >= FIELD_HEIGHT {
            return Err(GameError::OutOfBounds);
        }
        Ok(self.playground[4 * x + y])
    }

    /// Line `i` of the grid for direction `d`, copied out in storage order.
    fn extract_line(&self, d: MoveDirection, i: usize) -> (r: Vec<i32>)
        requires
            self.wf(),
            i < 4,
        ensures
            r@.len() == 4,
            int_view(r@) == grid_line(self.grid_view(), d, i as int),
            tiles_bounded(int_view(r@)),
    {
        let ghost g = self.grid_view();
        let mut r: Vec<i32> = Vec::new();
        let mut j: usize = 0;
        while j < 4
            invariant
                j <= 4,
                i < 4,
                self.wf(),
                g == self.grid_view(),
                r@.len() == j,
                forall|m: int|
                    0 <= m < j ==> int_view(r@)[m] == grid_line(g, d, i as int)[m] && 0
                        <= #[trigger] int_view(r@)[m] <= 2048,
            decreases 4 - j,
        {
            let k: usize = match d {
                MoveDirection::Left | MoveDirection::Right => 4 * j + i,
                MoveDirection::Top | MoveDirection::Bottom => 4 * i + j,
            };
            proof {
                assert(k as int == flat_index(d, i as int, j as int));
                assert(cell_ok(g[k as int]));
            }
            let ghost r0 = r@;
            r.push(self.playground[k]);
            proof {
                assert forall|m: int|
                    0 <= m < j + 1 implies int_view(r@)[m] == grid_line(g, d, i as int)[m] && 0
                    <= int_view(r@)[m] <= 2048 by {
                    if m < j {
                        assert(r@[m] == r0[m]);
                        assert(int_view(r0)[m] == grid_line(g, d, i as int)[m]);
                        assert(0 <= int_view(r0)[m] <= 2048);
                    } else {
                        assert(r@[m] == self.playground@[k as int]);
                        assert(int_view(r@)[m] == g[k as int]);
                    }
                }
            }
            j = j + 1;
        }
        proof {
            assert(int_view(r@) =~= grid_line(g, d, i as int));
        }
        r
    }

    /// Whether the shift-and-merge pass of a move in direction `d` would
    /// change the grid: the authoritative legality rule.
    fn can_move_in_direction(&self, d: MoveDirection) -> (r: bool)
        requires
            self.wf(),
        ensures
            r == move_changes(self.grid_view(), d),
    {
        let ghost g = self.grid_view();
        let fwd = matches!(d, MoveDirection::Right | MoveDirection::Bottom);
        proof {
            assert(fwd == travels_forward(d));
        }
        let mut i: usize = 0;
        while i < 4
            invariant
                i <= 4,
                self.wf(),
                g == self.grid_view(),
                fwd == travels_forward(d),
                forall|ii: int|
                    0 <= ii < i ==> #[trigger] shift_spec(grid_line(g, d, ii), travels_forward(d))
                        == grid_line(g, d, ii),
            decreases 4 - i,
        {
            let line = self.extract_line(d, i);
            let out = shift_line(&line, fwd);
            if !vec_eq(&out, &line) {
                proof {
                    let lv = int_view(line@);
                    let ov = int_view(out@);
                    lemma_shift_len(lv, fwd);
                    if forall|j: int| 0 <= j < 4 ==> #[trigger] ov[j] == lv[j] {
                        assert(ov =~= lv);
                    }
                    let j = choose|j: int| 0 <= j < 4 && ov[j] != lv[j];
                    let k = flat_index(d, i as int, j);
                    assert(0 <= k < 16);
                    assert(line_of(d, k) == i as int && pos_of(d, k) == j);
                    assert(shifted_grid(g, d)[k] == ov[j]);
                    assert(g[k] == lv[j]);
                    assert(shifted_grid(g, d)[k] != g[k]);
                }
                return true;
            }
            i = i + 1;
        }
        proof {
            assert forall|k: int| 0 <= k < 16 implies shifted_grid(g, d)[k] == g[k] by {
                let ii = line_of(d, k);
                let j = pos_of(d, k);
                assert(0 <= ii < 4 && 0 <= j < 4);
                assert(flat_index(d, ii, j) == k);
                assert(shifted_grid(g, d)[k] == shift_spec(grid_line(g, d, ii), travels_forward(d))[j]);
                assert(grid_line(g, d, ii)[j] == g[k]);
            }
            assert(shifted_grid(g, d) =~= g);
        }
        false
    }

    /// Apply the shift-and-merge pass of a move in direction `d` to every
    /// line of the grid.
    fn move_in_direction(&mut self, d: MoveDirection)
        requires
            old(self).wf(),
        ensures
            final(self).grid_view() == shifted_grid(old(self).grid_view(), d),
            final(self).grid_view().len() == 16,
            final(self).state_view() == old(self).state_view(),
    {
        let ghost g = self.grid_view();
        let fwd = matches!(d, MoveDirection::Right | MoveDirection::Bottom);
        proof {
            assert(fwd == travels_forward(d));
        }
        let mut lines: Vec<Vec<i32>> = Vec::new();
        let mut i: usize = 0;
        while i < 4
            invariant
                i <= 4,
                self.wf(),
                g == self.grid_view(),
                fwd == travels_forward(d),
                lines@.len() == i,
                forall|ii: int|
                    0 <= ii < i ==> int_view(#[trigger] lines@[ii]@) == shift_spec(
                        grid_line(g, d, ii),
                        travels_forward(d),
                    ) && lines@[ii]@.len() == 4,
            decreases 4 - i,
        {
            let line = self.extract_line(d, i);
            let out = shift_line(&line, fwd);
            lines.push(out);
            i = i + 1;
        }
        let mut ng: Vec<i32> = Vec::new();
        let mut k: usize = 0;
        while k < 16
            invariant
                k <= 16,
                fwd == travels_forward(d),
                lines@.len() == 4,
                forall|ii: int|
                    0 <= ii < 4 ==> int_view(#[trigger] lines@[ii]@) == shift_spec(
                        grid_line(g, d, ii),
                        travels_forward(d),
                    ) && lines@[ii]@.len() == 4,
                ng@.len() == k,
                forall|m: int| 0 <= m < k ==> int_view(ng@)[m] == #[trigger] shifted_grid(g, d)[m],
            decreases 16 - k,
        {
            let (li, pj): (usize, usize) = match d {
                MoveDirection::Left | MoveDirection::Right => (k % 4, k / 4),
                MoveDirection::Top | MoveDirection::Bottom => (k / 4, k % 4),
            };
            proof {
                assert(li as int == line_of(d, k as int));
                assert(pj as int == pos_of(d, k as int));
                assert(li < 4 && pj < 4);
            }
            let row = &lines[li];
            let v = row[pj];
            ng.push(v);
            proof {
                assert(v as int == shift_spec(grid_line(g, d, li as int), travels_forward(d))[
                    pj as int
                ]);
                assert(int_view(ng@)[k as int] == shifted_grid(g, d)[k as int]);
            }
            k = k + 1;
        }
        self.playground = ng;
        proof {
            assert(self.grid_view() =~= shifted_grid(g, d));
        }
    }

    /// Place a new tile, 2 or 4, into an empty cell chosen at random. The
    /// cell is drawn uniformly from the empty ones and the value 4 comes
    /// up with probability one in ten; the contract states only what holds
    /// of every draw.
    fn generate_and_place_random_block(&mut self)
        requires
            old(self).playground@.len() == 16,
            exists|k: int| 0 <= k < 16 && old(self).grid_view()[k] == 0,
        ensures
            spawn_step(old(self).grid_view(), final(self).grid_view()),
            final(self).state_view() == old(self).state_view(),
            final(self).playground@.len() == 16,
    {
        let ghost g0 = self.grid_view();
        let mut available_cells: Vec<usize> = Vec::new();
        let mut k: usize = 0;
        while k < 16
            invariant
                k <= 16,
                self.playground@.len() == 16,
                g0 == self.grid_view(),
                forall|m: int|
                    0 <= m < available_cells@.len() ==> #[trigger] available_cells@[m] < 16
                        && g0[available_cells@[m] as int] == 0,
                forall|m: usize|
                    m < k && g0[m as int] == 0 ==> #[trigger] available_cells@.contains(m),
            decreases 16 - k,
        {
            if self.playground[k] == 0 {
                let ghost av0 = available_cells@;
                available_cells.push(k);
                proof {
                    assert forall|m: usize|
                        m < k + 1 && g0[m as int] == 0 implies #[trigger] available_cells@.contains(
                        m,
                    ) by {
                        if m < k {
                            assert(av0.contains(m));
                            let n = choose|n: int| 0 <= n < av0.len() && av0[n] == m;
                            assert(available_cells@[n] == m);
                        } else {
                            assert(available_cells@[av0.len() as int] == k);
                        }
                    }
                }
            }
            k = k + 1;
        }
        proof {
            let w = choose|k: int| 0 <= k < 16 && g0[k] == 0;
            assert(available_cells@.contains(w as usize));
            assert(available_cells@.len() > 0);
        }
        let idx = random_below(&mut self.rng, available_cells.len());
        let cell = available_cells[idx];
        let pick = random_below(&mut self.rng, 10);
        let value: i32 = if pick == 0 {
            4
        } else {
            2
        };
        self.playground.set(cell, value);
        proof {
            let c = cell as int;
            assert(g0[c] == 0);
            assert(self.grid_view()[c] == value as int);
            assert forall|j: int| 0 <= j < 16 && j != c implies self.grid_view()[j] == g0[j] by {
                assert(self.playground@[j] == old(self).playground@[j]);
            }
            assert(spawned_at(g0, self.grid_view(), c));
        }
    }

    /// Whether some cell holds the winning value.
    fn has_win_tile(&self) -> (r: bool)
        requires
            self.playground@.len() == 16,
        ensures
            r == exists|k: int| 0 <= k < 16 && #[trigger] self.grid_view()[k] == 2048,
    {
        let mut k: usize = 0;
        while k < 16
            invariant
                k <= 16,
                self.playground@.len() == 16,
                forall|m: int| 0 <= m < k ==> #[trigger] self.grid_view()[m] != 2048,
            decreases 16 - k,
        {
            if self.playground[k] == WIN_VALUE {
                proof {
                    assert(self.grid_view()[k as int] == 2048);
                }
                return true;
            }
            k = k + 1;
        }
        false
    }

    /// Whether any of the four directions yields a legal move.
    fn any_move(&self) -> (r: bool)
        requires
            self.wf(),
        ensures
            r == !no_moves(self.grid_view()),
    {
        let ghost g = self.grid_view();
        let a = self.can_move_in_direction(MoveDirection::Left);
        let b = self.can_move_in_direction(MoveDirection::Right);
        let c = self.can_move_in_direction(MoveDirection::Top);
        let e = self.can_move_in_direction(MoveDirection::Bottom);
        let r = a || b || c || e;
        proof {
            if !r {
                assert forall|d: MoveDirection| !move_changes(g, d) by {
                    match d {
                        MoveDirection::Left => assert(!move_changes(g, MoveDirection::Left)),
                        MoveDirection::Right => assert(!move_changes(g, MoveDirection::Right)),
                        MoveDirection::Top => assert(!move_changes(g, MoveDirection::Top)),
                        MoveDirection::Bottom => assert(!move_changes(g, MoveDirection::Bottom)),
                    }
                }
            }
        }
        r
    }

    /// Start a new game: the first tile is spawned and the engine enters
    /// `Playing`. Fails when the game has already started.
    pub fn start(&mut self) -> (r: Result<(), GameError>)
        requires
            old(self).wf(),
        ensures
            final(self).wf(),
            (old(self).state_view() is WaitingForStart) <==> r == Ok::<(), GameError>(()),
            !(old(self).state_view() is WaitingForStart) ==> *final(self) == *old(self) && r
                == Err::<(), GameError>(GameError::InvalidState),
            r == Ok::<(), GameError>(()) ==> final(self).state_view() is Playing && spawn_step(
                old(self).grid_view(),
                final(self).grid_view(),
            ),
    {
        if !(matches!(self.game_state, GameState::WaitingForStart)) {
            return Err(GameError::InvalidState);
        }
        let ghost g0 = self.grid_view();
        self.game_state = GameState::Playing;
        proof {
            assert(self.grid_view()[0] == 0);
        }
        self.generate_and_place_random_block();
        proof {
            lemma_spawn_changes_one(g0, self.grid_view());
            assert forall|k: int|
                0 <= k < 16 implies playing_cell_ok(#[trigger] self.grid_view()[k]) by {
                assert(self.grid_view()[k] == g0[k] || self.grid_view()[k] == 2
                    || self.grid_view()[k] == 4);
            }
        }
        Ok(())
    }

    /// Apply a move. A direction whose shift-and-merge pass would change
    /// nothing is rejected and leaves the engine untouched; a legal move
    /// shifts the grid, spawns one tile, and then settles the state:
    /// `Won` when the pass produced the winning value, else `Lost` when no
    /// direction moves any more, else still `Playing`.
    pub fn update(&mut self, move_direction: MoveDirection) -> (r: Result<
        MoveOutcome,
        GameError,
    >)
        requires
            old(self).wf(),
        ensures
            final(self).wf(),
            (old(self).state_view() is Playing) <==> r != Err::<MoveOutcome, GameError>(GameError::InvalidState),
            !(old(self).state_view() is Playing) ==> *final(self) == *old(self),
            (r == Ok::<MoveOutcome, GameError>(MoveOutcome::Rejected)) <==> (old(self).state_view() is Playing && !move_changes(old(self).grid_view(), move_direction)),
            r == Ok::<MoveOutcome, GameError>(MoveOutcome::Rejected) ==> *final(self) == *old(self),
            (r == Ok::<MoveOutcome, GameError>(MoveOutcome::Applied)) <==> (old(self).state_view() is Playing && move_changes(old(self).grid_view(), move_direction)),
            r == Ok::<MoveOutcome, GameError>(MoveOutcome::Applied) ==> spawn_step(shifted_grid(old(self).grid_view(), move_direction), final(self).grid_view()),
            r == Ok::<MoveOutcome, GameError>(MoveOutcome::Applied) ==> ((final(self).state_view() is Won) <==> exists|k: int| 0 <= k < 16 && #[trigger] shifted_grid(old(self).grid_view(), move_direction)[k] == 2048),
            (r == Ok::<MoveOutcome, GameError>(MoveOutcome::Applied) && !(final(self).state_view() is Won)) ==> ((final(self).state_view() is Lost) <==> no_moves(final(self).grid_view())),
            (r == Ok::<MoveOutcome, GameError>(MoveOutcome::Applied) && !(final(self).state_view() is Won) && !(final(self).state_view() is Lost)) ==> final(self).state_view() is Playing,
    {
        if !(matches!(self.game_state, GameState::Playing)) {
            return Err(GameError::InvalidState);
        }
        let ghost gold = self.grid_view();
        if !self.can_move_in_direction(move_direction) {
            return Ok(MoveOutcome::Rejected);
        }
        self.move_in_direction(move_direction);
        let ghost sg = self.grid_view();
        let won = self.has_win_tile();
        proof {
            lemma_changed_grid_has_empty(gold, move_direction);
            lemma_shifted_grid_cells_ok(gold, move_direction);
        }
        self.generate_and_place_random_block();
        proof {
            lemma_spawn_changes_one(sg, self.grid_view());
        }
        if won {
            self.game_state = GameState::Won;
            proof {
                assert forall|k: int|
                    0 <= k < 16 implies cell_ok(#[trigger] self.grid_view()[k]) by {
                    assert(self.grid_view()[k] == sg[k] || self.grid_view()[k] == 2
                        || self.grid_view()[k] == 4);
                }
            }
        } else {
            proof {
                assert forall|k: int|
                    0 <= k < 16 implies playing_cell_ok(#[trigger] self.grid_view()[k]) by {
                    assert(self.grid_view()[k] == sg[k] || self.grid_view()[k] == 2
                        || self.grid_view()[k] == 4);
                    assert(sg[k] != 2048);
                    assert(cell_ok(sg[k]));
                }
            }
            if !self.any_move() {
                self.game_state = GameState::Lost;
            }
        }
        Ok(MoveOutcome::Applied)
    }

    /// Build an engine around a given grid, as a position mid-game: the
    /// cells are listed in flat storage order, `4 * x + y` for cell
    /// `(x, y)`. A grid that breaks the board invariant is rejected. The
    /// loss check runs at once, exactly as it would after a spawn, so a
    /// blocked grid starts out `Lost` rather than lazily.
    pub fn from_grid(cells: Vec<i32>) -> (r: Result<Game2048, GameError>)
        ensures
            (cells@.len() == 16 && forall|k: int|
                0 <= k < 16 ==> playing_cell_ok(#[trigger] int_view(cells@)[k])) <==> r is Ok,
            r matches Err(e) ==> e == GameError::InvariantViolation,
            r matches Ok(eng) ==> {
                &&& eng.wf()
                &&& eng.grid_view() == int_view(cells@)
                &&& (eng.state_view() is Lost <==> no_moves(int_view(cells@)))
                &&& (!(eng.state_view() is Lost) ==> eng.state_view() is Playing)
            },
    {
        if cells.len() != 16 {
            return Err(GameError::InvariantViolation);
        }
        let mut k: usize = 0;
        while k < 16
            invariant
                k <= 16,
                cells@.len() == 16,
                forall|m: int| 0 <= m < k ==> playing_cell_ok(#[trigger] int_view(cells@)[m]),
            decreases 16 - k,
        {
            if !playing_tile_ok_exec(cells[k]) {
                proof {
                    assert(!playing_cell_ok(int_view(cells@)[k as int]));
                }
                return Err(GameError::InvariantViolation);
            }
            k = k + 1;
        }
        let mut engine = Game2048 {
            playground: cells,
            game_state: GameState::Playing,
            rng: fresh_rng(),
        };
        if !engine.any_move() {
            engine.game_state = GameState::Lost;
        }
        Ok(engine)
    }
}

/// Whether a cell value is allowed on a board still in play: empty or a
/// power of two below the winning value.
fn playing_tile_ok_exec(v: i32) -> (r: bool)
    ensures
        r == playing_cell_ok(v as int),
{
    v == 0 || v == 2 || v == 4 || v == 8 || v == 16 || v == 32 || v == 64 || v == 128 || v == 256
        || v == 512 || v == 1024
}

/// Law: the shift-and-merge pass of a move conserves the total of the
/// tile values on the board; only the spawn that follows adds value.
pub proof fn lemma_move_preserves_sum(g: Seq<int>, d: MoveDirection)
    requires
        g.len() == 16,
    ensures
        seq_sum(shifted_grid(g, d)) == seq_sum(g),
{
    let sg = shifted_grid(g, d);
    let fwd = travels_forward(d);
    let l0 = grid_line(g, d, 0);
    let l1 = grid_line(g, d, 1);
    let l2 = grid_line(g, d, 2);
    let l3 = grid_line(g, d, 3);
    let s0 = shift_spec(l0, fwd);
    let s1 = shift_spec(l1, fwd);
    let s2 = shift_spec(l2, fwd);
    let s3 = shift_spec(l3, fwd);
    lemma_shift_len(l0, fwd);
    lemma_shift_len(l1, fwd);
    lemma_shift_len(l2, fwd);
    lemma_shift_len(l3, fwd);
    lemma_shift_preserves_sum(l0, fwd);
    lemma_shift_preserves_sum(l1, fwd);
    lemma_shift_preserves_sum(l2, fwd);
    lemma_shift_preserves_sum(l3, fwd);
    crate::line::lemma_sum_elements16(g);
    crate::line::lemma_sum_elements16(sg);
    crate::line::lemma_sum_elements4(l0);
    crate::line::lemma_sum_elements4(l1);
    crate::line::lemma_sum_elements4(l2);
    crate::line::lemma_sum_elements4(l3);
    crate::line::lemma_sum_elements4(s0);
    crate::line::lemma_sum_elements4(s1);
    crate::line::lemma_sum_elements4(s2);
    crate::line::lemma_sum_elements4(s3);
    assert(seq_sum(sg) == seq_sum(s0) + seq_sum(s1) + seq_sum(s2) + seq_sum(s3));
    assert(seq_sum(g) == seq_sum(l0) + seq_sum(l1) + seq_sum(l2) + seq_sum(l3));
}

/// After a spawn every cell holds its old value, a 2 or a 4.
proof fn lemma_spawn_changes_one(before: Seq<int>, after: Seq<int>)
    requires
        before.len() == 16,
        spawn_step(before, after),
    ensures
        forall|k: int|
            0 <= k < 16 ==> (#[trigger] after[k] == before[k] || after[k] == 2 || after[k] == 4),
{
    let c = choose|k: int| spawned_at(before, after, k);
    assert forall|k: int|
        0 <= k < 16 implies (after[k] == before[k] || after[k] == 2 || after[k] == 4) by {
        if k != c {
            assert(after[k] == before[k]);
        }
    }
}

/// Law: a shift-and-merge pass that changes the grid always leaves at
/// least one empty cell, so the spawn that follows a legal move never
/// lacks room.
pub proof fn lemma_changed_grid_has_empty(g: Seq<int>, d: MoveDirection)
    requires
        g.len() == 16,
        move_changes(g, d),
    ensures
        exists|k: int| 0 <= k < 16 && #[trigger] shifted_grid(g, d)[k] == 0,
{
    let sg = shifted_grid(g, d);
    let fwd = travels_forward(d);
    if forall|k: int| 0 <= k < 16 ==> #[trigger] sg[k] == g[k] {
        assert(sg =~= g);
    }
    let k0 = choose|k: int| 0 <= k < 16 && sg[k] != g[k];
    let i = line_of(d, k0);
    let j0 = pos_of(d, k0);
    assert(0 <= i < 4 && 0 <= j0 < 4);
    assert(flat_index(d, i, j0) == k0);
    let li = grid_line(g, d, i);
    assert(li[j0] == g[k0]);
    assert(sg[k0] == shift_spec(li, fwd)[j0]);
    assert(shift_spec(li, fwd) != li);
    lemma_changed_line_has_empty(li, fwd);
    let j = choose|j: int| 0 <= j < li.len() && shift_spec(li, fwd)[j] == 0;
    let k = flat_index(d, i, j);
    assert(0 <= k < 16);
    assert(line_of(d, k) == i && pos_of(d, k) == j);
    assert(sg[k] == 0);
}

/// Every cell of the shifted grid is empty, a tile that stood in the old
/// grid, or the double of one; on a board still in play that keeps every
/// cell a power of two no larger than the winning value.
pub proof fn lemma_shifted_grid_cells_ok(g: Seq<int>, d: MoveDirection)
    requires
        g.len() == 16,
        forall|k: int| 0 <= k < 16 ==> playing_cell_ok(#[trigger] g[k]),
    ensures
        forall|k: int| 0 <= k < 16 ==> cell_ok(#[trigger] shifted_grid(g, d)[k]),
{
    let sg = shifted_grid(g, d);
    let fwd = travels_forward(d);
    assert forall|k: int| 0 <= k < 16 implies cell_ok(#[trigger] sg[k]) by {
        let i = line_of(d, k);
        let j = pos_of(d, k);
        assert(0 <= i < 4 && 0 <= j < 4);
        let li = grid_line(g, d, i);
        lemma_shift_values(li, fwd);
        lemma_shift_len(li, fwd);
        assert(sg[k] == shift_spec(li, fwd)[j]);
        assert(value_from(li, shift_spec(li, fwd)[j]));
        if sg[k] != 0 {
            let m = choose|m: int|
                0 <= m < li.len() && (sg[k] == li[m] || sg[k] == 2 * li[m]);
            assert(li[m] == g[flat_index(d, i, m)]);
            assert(0 <= flat_index(d, i, m) < 16);
            assert(playing_cell_ok(li[m]));
        }
    }
}

fn vec_eq(a: &Vec<i32>, b: &Vec<i32>) -> (r: bool)
    requires
        a@.len() == b@.len(),
    ensures
        r == (int_view(a@) == int_view(b@)),
{
    let mut i: usize = 0;
    while i < a.len()
        invariant
            i <= a@.len(),
            a@.len() == b@.len(),
            forall|m: int| 0 <= m < i ==> #[trigger] a@[m] == b@[m],
        decreases a@.len() - i,
    {
        if a[i] != b[i] {
            proof {
                assert(int_view(a@)[i as int] != int_view(b@)[i as int]);
            }
            return false;
        }
        i = i + 1;
    }
    proof {
        assert(int_view(a@) =~= int_view(b@));
    }
    true
}

} // verus!
