//! The game state and its basic queries.
//!
//! A `State` owns the board cells, the move history, and the cached winner;
//! the pushing rules live in [`crate::rules`], winner detection in
//! [`crate::winner`], and the textual codec in [`crate::codec`].

use vstd::prelude::*;

use crate::model::Board;

verus! {

/// The two players.  Red always moves first.
#[derive(PartialEq, Eq, Structural, Debug, Clone, Copy)]
pub enum Player {
    Red,
    Blue,
}

/// The edge a piece is injected from in a given row.
#[derive(PartialEq, Eq, Structural, Debug, Clone, Copy)]
pub enum Side {
    Left,
    Right,
}

pub const FIRST_PLAYER: Player = Player::Red;

/// Smallest accepted board dimension.
pub const MIN_DIM: u8 = 1;

/// Default board dimensions when a caller asks for an empty game.
pub const DEFAULT_GAME_SIZE: u8 = 7;

/// The vertical axis: a row index, historically called a height.
pub type Height = u8;

/// A position on the board, `(x, y)`.
pub type Coords = (u8, u8);

/// A play bound to its player.
pub type Turn = (Player, Height, Side);

/// A play without the player.
pub type Move = (Height, Side);

pub type CoordsHistory = Vec<Coords>;

pub type Cell = Option<Player>;

pub type Field = Vec<Cell>;

/// Everything that can go wrong in the engine.
#[derive(PartialEq, Eq, Structural, Debug, Clone, Copy)]
pub enum GameError {
    /// Empty input, a ragged grid, or a dimension below the minimum.
    InvalidDimensions,
    /// A token of the textual form is not a plain number.
    InvalidToken,
    /// Two cells of the textual form claim the same turn number.
    DuplicateTurn,
    /// The turn numbers of the textual form do not form a prefix `1..N`.
    NonContiguousHistory,
    /// A coordinate outside the board.
    OutOfBounds,
    /// The game is already won or stalemated.
    GameOver,
    /// The pushed turn names a player who is not to move.
    WrongPlayer,
    /// The chosen row has no empty cell left.
    RowFull,
    /// Undo on an empty history.
    NoMoves,
}

/// A game in progress: the board cells, the move history that produced them,
/// and the winner cache maintained by pushes.
#[derive(Debug, Clone, PartialEq, Eq)]
pub struct State {
    pub size_x: u8,
    pub size_y: u8,
    /// Landing position of each move, in play order.
    pub coords_history: CoordsHistory,
    /// Row-major cells, derived from the history but kept for speed.
    pub field: Field,
    /// Winner found by the last push, if any; cleared by `pop`.
    pub winner_cache: Cell,
}

impl View for State {
    type V = Board;

    open spec fn view(&self) -> Board {
        Board {
            size_x: self.size_x as int,
            size_y: self.size_y as int,
            field: self.field@,
            hist: self.coords_history@,
            winner: self.winner_cache,
        }
    }
}

/// Matrix coordinate to row-major array index.
pub fn calc_field_index(size_x: u8, x: u8, y: u8) -> (i: usize)
    ensures
        i == y as int * size_x as int + x as int,
{
    proof {
        assert((y as int) * (size_x as int) <= 255 * 255) by (nonlinear_arith)
            requires
                y as int <= 255,
                size_x as int <= 255,
        ;
    }
    y as usize * size_x as usize + x as usize
}

/// Row-major array index back to the matrix coordinate.
pub fn calc_coords(size_x: u8, index: usize) -> (c: Coords)
    requires
        size_x >= 1,
        index < size_x as int * 256,
    ensures
        c.0 as int == index as int % size_x as int,
        c.1 as int == index as int / size_x as int,
{
    proof {
        assert((index as int) / (size_x as int) < 256) by (nonlinear_arith)
            requires
                size_x >= 1,
                index < size_x as int * 256,
        ;
    }
    ((index % size_x as usize) as u8, (index / size_x as usize) as u8)
}

impl State {
    /// An empty board of the given dimensions.
    pub fn new(size_x: u8, size_y: u8) -> (s: State)
        requires
            size_x >= 1,
            size_y >= 1,
        ensures
            s@ == (Board {
                size_x: size_x as int,
                size_y: size_y as int,
                field: Seq::new((size_x as nat) * (size_y as nat), |i: int| None::<Player>),
                hist: Seq::<Coords>::empty(),
                winner: None::<Player>,
            }),
            s@.wf(),
    {
        proof {
            assert((size_x as int) * (size_y as int) <= 255 * 255) by (nonlinear_arith)
                requires
                    size_x as int <= 255,
                    size_y as int <= 255,
            ;
        }
        let size: usize = size_x as usize * size_y as usize;
        let mut field: Field = Vec::new();
        for k in 0..size
            invariant
                field@ =~= Seq::new(k as nat, |i: int| None::<Player>),
        {
            field.push(None);
        }
        let s = State {
            size_x,
            size_y,
            coords_history: Vec::new(),
            field,
            winner_cache: None,
        };
        proof {
            assert(s@.field =~= Seq::new((size_x as nat) * (size_y as nat), |i: int| None::<Player>));
            assert forall|x: int, y: int|
                s@.in_bounds(x, y) implies !((#[trigger] s@.cell_at(x, y)) is Some) by {
                crate::model::lemma_idx_in_range(s@, x, y);
            }
            assert(s@.wf());
        }
        s
    }

    /// A verified deep copy: the copy's model equals this state's.
    pub fn duplicate(&self) -> (r: State)
        ensures
            r@ == self@,
    {
        let mut field: Field = Vec::new();
        for k in 0..self.field.len()
            invariant
                field@ =~= self.field@.take(k as int),
        {
            field.push(self.field[k]);
        }
        let mut coords_history: CoordsHistory = Vec::new();
        for k in 0..self.coords_history.len()
            invariant
                coords_history@ =~= self.coords_history@.take(k as int),
        {
            coords_history.push(self.coords_history[k]);
        }
        proof {
            assert(field@ =~= self.field@);
            assert(coords_history@ =~= self.coords_history@);
        }
        State {
            size_x: self.size_x,
            size_y: self.size_y,
            coords_history,
            field,
            winner_cache: self.winner_cache,
        }
    }

    /// Number of moves played so far.
    pub fn current_depth(&self) -> (n: usize)
        ensures
            n == self@.depth(),
    {
        self.coords_history.len()
    }

    /// Number of cells of the board: the largest possible depth.
    pub fn max_depth(&self) -> (n: usize)
        ensures
            n == self@.cells(),
    {
        proof {
            assert((self.size_x as int) * (self.size_y as int) <= 255 * 255) by (nonlinear_arith)
                requires
                    self.size_x as int <= 255,
                    self.size_y as int <= 255,
            ;
        }
        self.size_x as usize * self.size_y as usize
    }

    /// Number of empty cells left: how many moves can still be played.
    pub fn depth_left(&self) -> (n: usize)
        requires
            self@.wf_board(),
        ensures
            n == self@.cells() - self@.depth(),
    {
        self.max_depth() - self.current_depth()
    }

    /// The player who made the last move, if any.
    pub fn last_player(&self) -> (r: Option<Player>)
        ensures
            self@.depth() == 0 ==> r is None,
            self@.depth() > 0 ==> r == Some(self@.last_mover()),
    {
        let n = self.coords_history.len();
        if n == 0 {
            None
        } else if (n - 1) % 2 == 0 {
            Some(Player::Red)
        } else {
            Some(Player::Blue)
        }
    }

}

/// Anything to do directly with the coordinates on the field.
pub trait MatrixOperations: Sized {
    /// The board model these matrix operations are about.
    spec fn model(&self) -> Board;

    /// Matrix coordinate to row-major array index.
    fn calc_field_index(&self, x: u8, y: u8) -> (i: usize)
        ensures
            i == self.model().idx(x as int, y as int),
    ;

    /// Cell at `(x, y)`, or `OutOfBounds`.
    fn get_cell(&self, x: u8, y: u8) -> (r: Result<Cell, GameError>)
        requires
            self.model().wf_board(),
        ensures
            self.model().in_bounds(x as int, y as int) ==> r == Ok::<Cell, GameError>(
                self.model().cell_at(x as int, y as int),
            ),
            !self.model().in_bounds(x as int, y as int) ==> r == Err::<Cell, GameError>(
                GameError::OutOfBounds,
            ),
    ;

    /// Where a piece pushed into row `y` from `direction` would land: the
    /// first empty cell along the sweep from that edge, `None` when the row
    /// is full, `OutOfBounds` when `y` is no row of this board.
    fn next_cell_towards(&self, direction: Side, y: u8) -> (r: Result<Option<Coords>, GameError>)
        requires
            self.model().wf_board(),
        ensures
            y as int >= self.model().size_y ==> r == Err::<Option<Coords>, GameError>(
                GameError::OutOfBounds,
            ),
            (y as int) < self.model().size_y ==> match r {
                Ok(Some(c)) => c.1 == y && self.model().landing(direction, y as int, c.0 as int),
                Ok(None) => self.model().row_full(y as int),
                Err(_) => false,
            },
    ;
}

/// The game "domain" logic: whose turn it is and how the game stands.
pub trait GameOperations: MatrixOperations {
    /// The player to move, or `GameOver` when the game cannot continue.
    fn next_player(&self) -> (r: Result<Player, GameError>)
        requires
            self.model().wf(),
        ensures
            self.model().can_continue() ==> r == Ok::<Player, GameError>(
                self.model().next_player(),
            ),
            !self.model().can_continue() ==> r == Err::<Player, GameError>(GameError::GameOver),
    ;

    fn can_continue(&self) -> (r: bool)
        ensures
            r == self.model().can_continue(),
    ;

    /// The cached winner, if any.
    fn try_winner(&self) -> (r: Cell)
        ensures
            r == self.model().winner,
    ;

    fn is_finished(&self) -> (r: bool)
        ensures
            r == self.model().is_finished(),
    ;

    fn is_stalemate(&self) -> (r: bool)
        ensures
            r == self.model().is_stalemate(),
    ;
}

impl MatrixOperations for State {
    open spec fn model(&self) -> Board {
        self@
    }

    fn calc_field_index(&self, x: u8, y: u8) -> (i: usize) {
        calc_field_index(self.size_x, x, y)
    }

    fn get_cell(&self, x: u8, y: u8) -> (r: Result<Cell, GameError>) {
        if x >= self.size_x || y >= self.size_y {
            return Err(GameError::OutOfBounds);
        }
        let i = calc_field_index(self.size_x, x, y);
        proof {
            crate::model::lemma_idx_in_range(self@, x as int, y as int);
        }
        Ok(self.field[i])
    }

    fn next_cell_towards(&self, direction: Side, y: u8) -> (r: Result<
        Option<Coords>,
        GameError,
    >)
    {
        if y >= self.size_y {
            return Err(GameError::OutOfBounds);
        }
        let size_x = self.size_x;
        let mut i: u8 = 0;
        while i < size_x
            invariant
                self@.wf_board(),
                y < self@.size_y,
                size_x == self@.size_x,
                i <= size_x,
                match direction {
                    Side::Left => forall|x2: int|
                        0 <= x2 < i ==> (#[trigger] self@.cell_at(x2, y as int)) is Some,
                    Side::Right => forall|x2: int|
                        size_x - i <= x2 < size_x ==> (#[trigger] self@.cell_at(
                            x2,
                            y as int,
                        )) is Some,
                },
            decreases size_x - i,
        {
            let x = match direction {
                Side::Left => i,
                Side::Right => size_x - i - 1,
            };
            let k = calc_field_index(size_x, x, y);
            proof {
                crate::model::lemma_idx_in_range(self@, x as int, y as int);
            }
            if self.field[k].is_none() {
                return Ok(Some((x, y)));
            }
            i = i + 1;
        }
        Ok(None)
    }
}

impl GameOperations for State {
    fn next_player(&self) -> (r: Result<Player, GameError>) {
        if !self.can_continue() {
            return Err(GameError::GameOver);
        }
        let n = self.coords_history.len();
        if n == 0 {
            Ok(FIRST_PLAYER)
        } else {
            let c = self.coords_history[n - 1];
            proof {
                assert(self@.placed_ok(self@.depth() - 1));
            }
            let i = calc_field_index(self.size_x, c.0, c.1);
            proof {
                crate::model::lemma_idx_in_range(self@, c.0 as int, c.1 as int);
            }
            match self.field[i] {
                Some(Player::Red) => Ok(Player::Blue),
                Some(Player::Blue) => Ok(Player::Red),
                None => {
                    proof {
                        assert(false);
                    }
                    Err(GameError::GameOver)
                },
            }
        }
    }

    fn can_continue(&self) -> (r: bool) {
        !self.is_finished() && !self.is_stalemate()
    }

    fn try_winner(&self) -> (r: Cell) {
        self.winner_cache
    }

    fn is_finished(&self) -> (r: bool) {
        self.winner_cache.is_some()
    }

    fn is_stalemate(&self) -> (r: bool) {
        !self.is_finished() && self.max_depth() == self.coords_history.len()
    }
}

} // verus!
