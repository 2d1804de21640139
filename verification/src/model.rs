//! The mathematical model of a game state.
//!
//! `Board` is the ghost-level picture of a [`crate::game::State`]: board
//! dimensions, the cell contents, the move history, and the cached winner.
//! Every contract of the executable engine is phrased over this model.

use vstd::prelude::*;

use crate::game::{Cell, Coords, Move, Player, Side, Turn};

verus! {

/// How many consecutive cells of one player make a winning run.
pub const WIN_LEN: u8 = 4;

/// Ghost mirror of a game state.
#[verifier::ext_equal]
pub ghost struct Board {
    pub size_x: int,
    pub size_y: int,
    /// Row-major cells; index of `(x, y)` is `y * size_x + x`.
    pub field: Seq<Cell>,
    /// Landing coordinates of each move, in play order.
    pub hist: Seq<Coords>,
    /// The incrementally maintained winner, if any.
    pub winner: Option<Player>,
}

/// The player who owns the move at 0-based history position `i`:
/// Red moves first and the players alternate.
pub open spec fn player_of_index(i: int) -> Player {
    if i % 2 == 0 {
        Player::Red
    } else {
        Player::Blue
    }
}

/// Step in x per unit step along direction `d`
/// (0 horizontal, 1 vertical, 2 falling diagonal, 3 rising diagonal).
pub open spec fn dir_dx(d: int) -> int {
    if d == 1 {
        0
    } else {
        1
    }
}

/// Step in y per unit step along direction `d`.
pub open spec fn dir_dy(d: int) -> int {
    if d == 0 {
        0
    } else if d == 3 {
        -1
    } else {
        1
    }
}

impl Board {
    pub open spec fn cells(self) -> int {
        self.size_x * self.size_y
    }

    pub open spec fn idx(self, x: int, y: int) -> int {
        y * self.size_x + x
    }

    pub open spec fn in_bounds(self, x: int, y: int) -> bool {
        0 <= x < self.size_x && 0 <= y < self.size_y
    }

    pub open spec fn coords_ok(self, c: Coords) -> bool {
        self.in_bounds(c.0 as int, c.1 as int)
    }

    pub open spec fn cell_at(self, x: int, y: int) -> Cell {
        self.field[self.idx(x, y)]
    }

    pub open spec fn cell_of(self, c: Coords) -> Cell {
        self.cell_at(c.0 as int, c.1 as int)
    }

    pub open spec fn hist_at(self, i: int) -> Coords {
        self.hist[i]
    }

    /// Number of moves played so far.
    pub open spec fn depth(self) -> int {
        self.hist.len() as int
    }

    /// History entry `i` landed in bounds and its cell holds the right player.
    pub open spec fn placed_ok(self, i: int) -> bool {
        &&& self.coords_ok(self.hist_at(i))
        &&& self.cell_of(self.hist_at(i)) == Some(player_of_index(i))
    }

    /// Some history entry accounts for the occupied cell `(x, y)`.
    pub open spec fn filled_by_hist(self, x: int, y: int) -> bool {
        exists|i: int| 0 <= i < self.depth() && #[trigger] self.hist_at(i) == (x as u8, y as u8)
    }

    /// Structural well-formedness: dimensions, field size, and the exact
    /// correspondence between the history and the occupied cells.
    pub open spec fn wf_board(self) -> bool {
        &&& 1 <= self.size_x <= 255
        &&& 1 <= self.size_y <= 255
        &&& self.field.len() == self.cells()
        &&& self.depth() <= self.cells()
        &&& forall|i: int| 0 <= i < self.depth() ==> #[trigger] self.placed_ok(i)
        &&& forall|i: int, j: int|
            0 <= i < self.depth() && 0 <= j < self.depth() && i != j ==> #[trigger] self.hist_at(i)
                != #[trigger] self.hist_at(j)
        &&& forall|x: int, y: int|
            self.in_bounds(x, y) && (#[trigger] self.cell_at(x, y)) is Some
                ==> self.filled_by_hist(x, y)
    }

    /// Cell at offset `j` (may be negative) from `(x, y)` along direction `d`
    /// is in bounds and holds `p`.
    pub open spec fn ray_ok(self, x: int, y: int, d: int, j: int, p: Player) -> bool {
        &&& self.in_bounds(x + j * dir_dx(d), y + j * dir_dy(d))
        &&& self.cell_at(x + j * dir_dx(d), y + j * dir_dy(d)) == Some(p)
    }

    /// `ray_ok` at the mirrored offset `-k`: the run towards lower offsets.
    pub open spec fn ray_back(self, x: int, y: int, d: int, k: int, p: Player) -> bool {
        self.ray_ok(x, y, d, -k, p)
    }

    /// The window of `WIN_LEN` cells at offsets `a .. a + WIN_LEN` from
    /// `(x, y)` along `d` lies in bounds and is filled with `p`.
    pub open spec fn window_ok(self, x: int, y: int, d: int, a: int, p: Player) -> bool {
        forall|j: int| a <= j < a + WIN_LEN ==> #[trigger] self.ray_ok(x, y, d, j, p)
    }

    /// A winning run of `p` along direction `d` passes through `(lx, ly)`.
    pub open spec fn wins_dir(self, p: Player, lx: int, ly: int, d: int) -> bool {
        exists|a: int| 1 - WIN_LEN <= a <= 0 && #[trigger] self.window_ok(lx, ly, d, a, p)
    }

    /// A winning run of `p` in one of the four line directions passes
    /// through `(lx, ly)`.
    pub open spec fn wins_at(self, p: Player, lx: int, ly: int) -> bool {
        ||| self.wins_dir(p, lx, ly, 0)
        ||| self.wins_dir(p, lx, ly, 1)
        ||| self.wins_dir(p, lx, ly, 2)
        ||| self.wins_dir(p, lx, ly, 3)
    }

    pub open spec fn last_coords(self) -> Coords {
        self.hist.last()
    }

    /// The player who made the most recent move.
    pub open spec fn last_mover(self) -> Player {
        player_of_index(self.depth() - 1)
    }

    /// The winner as recomputed from the last move outward: only lines
    /// through the last move can newly become winning.
    pub open spec fn computed_winner(self) -> Option<Player> {
        if self.depth() == 0 {
            None
        } else if self.wins_at(
            self.last_mover(),
            self.last_coords().0 as int,
            self.last_coords().1 as int,
        ) {
            Some(self.last_mover())
        } else {
            None
        }
    }

    /// The cached winner never claims a run that is not on the board.
    /// (After an undo the cache may understate a win, so only this
    /// direction is invariant.)
    pub open spec fn winner_sound(self) -> bool {
        match self.winner {
            Some(p) => {
                &&& self.depth() > 0
                &&& p == self.last_mover()
                &&& self.wins_at(p, self.last_coords().0 as int, self.last_coords().1 as int)
            },
            None => true,
        }
    }

    /// Full well-formedness of a reachable state.
    pub open spec fn wf(self) -> bool {
        self.wf_board() && self.winner_sound()
    }

    /// The player to move next.
    pub open spec fn next_player(self) -> Player {
        player_of_index(self.depth())
    }

    pub open spec fn is_finished(self) -> bool {
        self.winner is Some
    }

    pub open spec fn is_stalemate(self) -> bool {
        !self.is_finished() && self.depth() == self.cells()
    }

    pub open spec fn can_continue(self) -> bool {
        !self.is_finished() && !self.is_stalemate()
    }

    pub open spec fn row_full(self, y: int) -> bool {
        forall|x: int| 0 <= x < self.size_x ==> (#[trigger] self.cell_at(x, y)) is Some
    }

    /// `x` is where a piece pushed into row `y` from `side` lands: the first
    /// empty cell along the sweep from that edge.
    pub open spec fn landing(self, side: Side, y: int, x: int) -> bool {
        &&& self.in_bounds(x, y)
        &&& self.cell_at(x, y) is None
        &&& match side {
            Side::Left => forall|x2: int| 0 <= x2 < x ==> (#[trigger] self.cell_at(x2, y)) is Some,
            Side::Right => forall|x2: int|
                x < x2 < self.size_x ==> (#[trigger] self.cell_at(x2, y)) is Some,
        }
    }

    /// The landing column for a push into row `y` from `side`
    /// (meaningful only when the row is not full).
    pub open spec fn landing_x(self, side: Side, y: int) -> int {
        choose|x: int| self.landing(side, y, x)
    }

    /// Which error `push` reports for a turn it rejects (checks are made in
    /// this order: game over, wrong player, row out of bounds, row full).
    pub open spec fn push_err(self, t: Turn) -> crate::game::GameError {
        if !self.can_continue() {
            crate::game::GameError::GameOver
        } else if t.0 != self.next_player() {
            crate::game::GameError::WrongPlayer
        } else if !((t.1 as int) < self.size_y) {
            crate::game::GameError::OutOfBounds
        } else {
            crate::game::GameError::RowFull
        }
    }

    /// Whether `push` accepts the turn `t`.
    pub open spec fn push_ok(self, t: Turn) -> bool {
        &&& self.can_continue()
        &&& t.0 == self.next_player()
        &&& (t.1 as int) < self.size_y
        &&& !self.row_full(t.1 as int)
    }

    /// The board after placing `p` at `c` and recomputing the winner from
    /// that move.
    pub open spec fn placed(self, c: Coords, p: Player) -> Board {
        let grown = Board {
            field: self.field.update(self.idx(c.0 as int, c.1 as int), Some(p)),
            hist: self.hist.push(c),
            ..self
        };
        Board { winner: grown.computed_winner(), ..grown }
    }

    /// Where the turn `t` lands.
    pub open spec fn push_dest(self, t: Turn) -> Coords {
        (self.landing_x(t.2, t.1 as int) as u8, t.1)
    }

    /// The board after a successful `push(t)`.
    pub open spec fn after_push(self, t: Turn) -> Board {
        self.placed(self.push_dest(t), t.0)
    }

    /// The board after a successful `pop`: the last move is erased and the
    /// winner cache is cleared rather than recomputed.
    pub open spec fn after_pop(self) -> Board {
        Board {
            field: self.field.update(
                self.idx(self.last_coords().0 as int, self.last_coords().1 as int),
                None,
            ),
            hist: self.hist.drop_last(),
            winner: None,
            ..self
        }
    }

    /// The row visited at step `i` of the center-out sweep: the middle row
    /// first, then one off-center on each side in turn.
    pub open spec fn order_y(self, i: int) -> int {
        if i % 2 == 1 {
            self.size_y / 2 - (i + 1) / 2
        } else {
            self.size_y / 2 + i / 2
        }
    }

    /// The legal moves contributed by row `y`: both sides if the row has an
    /// empty cell, nothing otherwise.
    pub open spec fn row_moves(self, y: int) -> Seq<Move> {
        if self.row_full(y) {
            Seq::empty()
        } else {
            seq![(y as u8, Side::Left), (y as u8, Side::Right)]
        }
    }

    /// Legal moves gathered from the first `n` steps of the center-out sweep.
    pub open spec fn moves_upto(self, n: int) -> Seq<Move>
        decreases n,
    {
        if n <= 0 {
            Seq::empty()
        } else {
            self.moves_upto(n - 1) + self.row_moves(self.order_y(n - 1))
        }
    }

    /// What `possible_moves` returns: empty on a finished (or full) board,
    /// else all legal moves in center-out row order, Left before Right.
    pub open spec fn possible_moves(self) -> Seq<Move> {
        if self.is_finished() {
            Seq::empty()
        } else {
            self.moves_upto(self.size_y)
        }
    }

    /// Playing `m` for the player to move ends the game at once.
    pub open spec fn move_wins(self, m: Move) -> bool {
        self.after_push((self.next_player(), m.0, m.1)).is_finished()
    }

    /// Position of the first immediately winning move at or after `i` in
    /// the move order, or the number of moves when none remains.
    pub open spec fn first_winning_move_from(self, i: int) -> int
        decreases self.possible_moves().len() - i,
    {
        if i < 0 || i >= self.possible_moves().len() {
            self.possible_moves().len() as int
        } else if self.move_wins(self.possible_moves()[i]) {
            i
        } else {
            self.first_winning_move_from(i + 1)
        }
    }

    /// Position of the first immediately winning move in the move order,
    /// or the number of moves when there is none.
    pub open spec fn first_winning_move(self) -> int {
        self.first_winning_move_from(0)
    }
}

/// When the moves up to position `i` do not win and the move at `i` does,
/// `i` is the first winning position.
pub proof fn lemma_first_win_here(b: Board, k: int, i: int)
    requires
        0 <= k <= i < b.possible_moves().len(),
        forall|j: int| k <= j < i ==> !b.move_wins(#[trigger] b.possible_moves()[j]),
        b.move_wins(b.possible_moves()[i]),
    ensures
        b.first_winning_move_from(k) == i,
    decreases i - k,
{
    if k < i {
        lemma_first_win_here(b, k + 1, i);
    }
}

/// When no move wins at once, the first winning position is past the end.
pub proof fn lemma_first_win_none(b: Board, k: int)
    requires
        0 <= k,
        forall|j: int|
            k <= j < b.possible_moves().len() ==> !b.move_wins(#[trigger] b.possible_moves()[j]),
    ensures
        b.first_winning_move_from(k) == b.possible_moves().len(),
    decreases b.possible_moves().len() - k,
{
    if k < b.possible_moves().len() {
        lemma_first_win_none(b, k + 1);
    }
}

/// The first winning position is in range, wins, and nothing before it
/// does; and it exists exactly when some move wins at once.
pub proof fn lemma_first_win_props(b: Board, k: int)
    requires
        0 <= k <= b.possible_moves().len(),
    ensures
        k <= b.first_winning_move_from(k) <= b.possible_moves().len(),
        b.first_winning_move_from(k) < b.possible_moves().len() ==> b.move_wins(
            b.possible_moves()[b.first_winning_move_from(k)],
        ),
        forall|j: int|
            k <= j < b.first_winning_move_from(k) ==> !b.move_wins(
                #[trigger] b.possible_moves()[j],
            ),
    decreases b.possible_moves().len() - k,
{
    if k < b.possible_moves().len() && !b.move_wins(b.possible_moves()[k]) {
        lemma_first_win_props(b, k + 1);
    }
}

/// An in-bounds coordinate has its row-major index inside the field.
pub proof fn lemma_idx_in_range(b: Board, x: int, y: int)
    requires
        b.in_bounds(x, y),
    ensures
        0 <= b.idx(x, y) < b.cells(),
{
    assert(y * b.size_x + x < b.size_x * b.size_y) by (nonlinear_arith)
        requires
            0 <= x < b.size_x,
            0 <= y < b.size_y,
    ;
    assert(0 <= y * b.size_x) by (nonlinear_arith)
        requires
            0 <= y,
            0 <= b.size_x,
    ;
}

/// How many cells of a field hold a piece.
pub open spec fn count_occupied(field: Seq<Cell>) -> int
    decreases field.len(),
{
    if field.len() == 0 {
        0
    } else {
        count_occupied(field.drop_last()) + if field.last() is Some {
            1int
        } else {
            0int
        }
    }
}

proof fn lemma_count_all_none(field: Seq<Cell>)
    requires
        forall|i: int| 0 <= i < field.len() ==> (#[trigger] field[i]) is None,
    ensures
        count_occupied(field) == 0,
    decreases field.len(),
{
    if field.len() > 0 {
        let f2 = field.drop_last();
        assert forall|i: int| 0 <= i < f2.len() implies (#[trigger] f2[i]) is None by {
            assert(f2[i] == field[i]);
        }
        lemma_count_all_none(f2);
    }
}

proof fn lemma_count_clear_one(field: Seq<Cell>, k: int)
    requires
        0 <= k < field.len(),
        field[k] is Some,
    ensures
        count_occupied(field.update(k, None)) == count_occupied(field) - 1,
    decreases field.len(),
{
    if k == field.len() - 1 {
        assert(field.update(k, None).drop_last() =~= field.drop_last());
        assert(field.update(k, None).last() is None);
    } else {
        assert(field.update(k, None).drop_last() =~= field.drop_last().update(k, None));
        assert(field.drop_last()[k] == field[k]);
        lemma_count_clear_one(field.drop_last(), k);
        assert(field.update(k, None).last() == field.last());
    }
}

proof fn lemma_count_low_has_gap(field: Seq<Cell>)
    requires
        count_occupied(field) < field.len(),
    ensures
        exists|i: int| 0 <= i < field.len() && (#[trigger] field[i]) is None,
    decreases field.len(),
{
    if field.last() is None {
        assert(field[field.len() - 1] is None);
    } else {
        lemma_count_low_has_gap(field.drop_last());
        let i = choose|i: int|
            0 <= i < field.drop_last().len() && (#[trigger] field.drop_last()[i]) is None;
        assert(field[i] is None);
    }
}

/// A well-formed board has exactly as many occupied cells as moves played.
pub proof fn lemma_occupancy(b: Board)
    requires
        b.wf_board(),
    ensures
        count_occupied(b.field) == b.depth(),
    decreases b.hist.len(),
{
    if b.depth() == 0 {
        assert forall|i: int| 0 <= i < b.field.len() implies (#[trigger] b.field[i]) is None by {
            let x = i % b.size_x;
            let y = i / b.size_x;
            vstd::arithmetic::div_mod::lemma_fundamental_div_mod(i, b.size_x);
            assert(y < b.size_y) by (nonlinear_arith)
                requires
                    b.size_x >= 1,
                    0 <= i < b.size_x * b.size_y,
                    y == i / b.size_x,
            ;
            assert(y >= 0) by (nonlinear_arith)
                requires
                    b.size_x >= 1,
                    i >= 0,
                    y == i / b.size_x,
            ;
            assert(b.in_bounds(x, y));
            assert(b.idx(x, y) == i);
            if b.cell_at(x, y) is Some {
                assert(b.filled_by_hist(x, y));
            }
        }
        lemma_count_all_none(b.field);
    } else {
        lemma_after_pop_wf(b);
        lemma_occupancy(b.after_pop());
        let cl = b.last_coords();
        assert(b.placed_ok(b.depth() - 1));
        lemma_idx_in_range(b, cl.0 as int, cl.1 as int);
        lemma_count_clear_one(b.field, b.idx(cl.0 as int, cl.1 as int));
    }
}

/// The center-out sweep stays on the board.
pub proof fn lemma_order_y_range(b: Board, i: int)
    requires
        b.size_y >= 1,
        0 <= i < b.size_y,
    ensures
        0 <= b.order_y(i) < b.size_y,
{
}

/// Every move the sweep gathers names a row on the board that still has
/// room.
pub proof fn lemma_moves_elements(b: Board, n: int)
    requires
        1 <= b.size_y <= 255,
        0 <= n <= b.size_y,
    ensures
        forall|i: int|
            0 <= i < b.moves_upto(n).len() ==> ((#[trigger] b.moves_upto(n)[i]).0 as int)
                < b.size_y && !b.row_full(b.moves_upto(n)[i].0 as int),
    decreases n,
{
    if n > 0 {
        lemma_moves_elements(b, n - 1);
        lemma_order_y_range(b, n - 1);
        assert forall|i: int|
            0 <= i < b.moves_upto(n).len() implies ((#[trigger] b.moves_upto(n)[i]).0 as int)
            < b.size_y && !b.row_full(b.moves_upto(n)[i].0 as int) by {
            let pre = b.moves_upto(n - 1);
            if i < pre.len() {
                assert(b.moves_upto(n)[i] == pre[i]);
            } else {
                let y = b.order_y(n - 1);
                assert(!b.row_full(y));
                assert(b.moves_upto(n)[i] == b.row_moves(y)[i - pre.len()]);
                assert(((y as u8) as int) == y);
            }
        }
    }
}

proof fn lemma_moves_upto_mono(b: Board, m: int, n: int)
    requires
        0 <= m <= n,
    ensures
        b.moves_upto(m).len() <= b.moves_upto(n).len(),
    decreases n,
{
    if n > m {
        lemma_moves_upto_mono(b, m, n - 1);
    }
}

proof fn lemma_count_le(field: Seq<Cell>)
    ensures
        0 <= count_occupied(field) <= field.len(),
    decreases field.len(),
{
    if field.len() > 0 {
        lemma_count_le(field.drop_last());
    }
}

proof fn lemma_count_full_all_some(field: Seq<Cell>)
    requires
        count_occupied(field) == field.len(),
    ensures
        forall|i: int| 0 <= i < field.len() ==> (#[trigger] field[i]) is Some,
    decreases field.len(),
{
    if field.len() > 0 {
        lemma_count_le(field.drop_last());
        assert(field.last() is Some);
        lemma_count_full_all_some(field.drop_last());
        assert forall|i: int| 0 <= i < field.len() implies (#[trigger] field[i]) is Some by {
            if i < field.len() - 1 {
                assert(field.drop_last()[i] is Some);
            }
        }
    }
}

proof fn lemma_moves_upto_all_full(b: Board, n: int)
    requires
        b.size_y >= 1,
        0 <= n <= b.size_y,
        forall|y: int| 0 <= y < b.size_y ==> b.row_full(y),
    ensures
        b.moves_upto(n).len() == 0,
    decreases n,
{
    if n > 0 {
        lemma_moves_upto_all_full(b, n - 1);
        lemma_order_y_range(b, n - 1);
        assert(b.row_full(b.order_y(n - 1)));
    }
}

/// A game that cannot continue offers no moves.
pub proof fn lemma_no_continue_no_moves(b: Board)
    requires
        b.wf(),
        !b.can_continue(),
    ensures
        b.possible_moves().len() == 0,
{
    if !b.is_finished() {
        assert(b.is_stalemate());
        lemma_occupancy(b);
        lemma_count_full_all_some(b.field);
        assert forall|y: int| 0 <= y < b.size_y implies b.row_full(y) by {
            assert forall|x: int| 0 <= x < b.size_x implies (#[trigger] b.cell_at(x, y)) is Some by {
                lemma_idx_in_range(b, x, y);
            }
        }
        lemma_moves_upto_all_full(b, b.size_y);
    }
}

/// A row with room has a landing cell for either side.
pub proof fn lemma_landing_exists(b: Board, side: Side, y: int)
    requires
        b.wf_board(),
        0 <= y < b.size_y,
        !b.row_full(y),
    ensures
        exists|x: int| b.landing(side, y, x),
{
    let xe = choose|x: int| 0 <= x < b.size_x && !((#[trigger] b.cell_at(x, y)) is Some);
    match side {
        Side::Left => lemma_first_empty_left(b, y, xe),
        Side::Right => lemma_first_empty_right(b, y, xe),
    }
}

proof fn lemma_first_empty_left(b: Board, y: int, x: int)
    requires
        b.wf_board(),
        0 <= y < b.size_y,
        0 <= x < b.size_x,
        b.cell_at(x, y) is None,
    ensures
        exists|xl: int| b.landing(Side::Left, y, xl),
    decreases x,
{
    if forall|x2: int| 0 <= x2 < x ==> (#[trigger] b.cell_at(x2, y)) is Some {
        assert(b.landing(Side::Left, y, x));
    } else {
        let x2 = choose|x2: int| 0 <= x2 < x && !((#[trigger] b.cell_at(x2, y)) is Some);
        lemma_first_empty_left(b, y, x2);
    }
}

proof fn lemma_first_empty_right(b: Board, y: int, x: int)
    requires
        b.wf_board(),
        0 <= y < b.size_y,
        0 <= x < b.size_x,
        b.cell_at(x, y) is None,
    ensures
        exists|xr: int| b.landing(Side::Right, y, xr),
    decreases b.size_x - x,
{
    if forall|x2: int| x < x2 < b.size_x ==> (#[trigger] b.cell_at(x2, y)) is Some {
        assert(b.landing(Side::Right, y, x));
    } else {
        let x2 = choose|x2: int| x < x2 < b.size_x && !((#[trigger] b.cell_at(x2, y)) is Some);
        lemma_first_empty_right(b, y, x2);
    }
}

/// Undoing a just-applied turn restores the state it was applied to
/// exactly: the cell is cleared, the history entry removed, and the winner
/// cache returns to the `None` it must have held for the push to be legal.
pub proof fn lemma_push_pop_identity(b: Board, t: Turn)
    requires
        b.wf(),
        b.push_ok(t),
    ensures
        b.after_push(t).after_pop() == b,
{
    let y = t.1 as int;
    lemma_landing_exists(b, t.2, y);
    let c = b.push_dest(t);
    assert(b.landing(t.2, y, b.landing_x(t.2, y)));
    assert(b.coords_ok(c) && b.cell_of(c) is None);
    lemma_idx_in_range(b, c.0 as int, c.1 as int);
    let pushed = b.after_push(t);
    assert(pushed.last_coords() == c);
    assert(pushed.after_pop().field =~= b.field);
    assert(pushed.after_pop().hist =~= b.hist);
    assert(b.winner is None);
    assert(pushed.after_pop() =~= b);
}

/// While the game can continue there is a legal move: some cell is empty,
/// so some row still has room, and the sweep visits every row.
pub proof fn lemma_can_continue_moves(b: Board)
    requires
        b.wf(),
        b.can_continue(),
    ensures
        b.possible_moves().len() > 0,
{
    lemma_occupancy(b);
    lemma_count_low_has_gap(b.field);
    let i = choose|i: int| 0 <= i < b.field.len() && (#[trigger] b.field[i]) is None;
    let x = i % b.size_x;
    let y = i / b.size_x;
    vstd::arithmetic::div_mod::lemma_fundamental_div_mod(i, b.size_x);
    assert(y < b.size_y) by (nonlinear_arith)
        requires
            b.size_x >= 1,
            0 <= i < b.size_x * b.size_y,
            y == i / b.size_x,
    ;
    assert(y >= 0) by (nonlinear_arith)
        requires
            b.size_x >= 1,
            i >= 0,
            y == i / b.size_x,
    ;
    assert(b.cell_at(x, y) is None);
    assert(!b.row_full(y));
    // The step of the sweep that visits row `y`.
    let half = b.size_y / 2;
    let step = if y >= half {
        2 * (y - half)
    } else {
        2 * (half - y) - 1
    };
    assert(0 <= step < b.size_y);
    assert(b.order_y(step) == y);
    assert(b.moves_upto(step + 1).len() >= 2);
    lemma_moves_upto_mono(b, step + 1, b.size_y);
}
pub proof fn lemma_place_wf(b: Board, c: Coords, p: Player)
    requires
        b.wf_board(),
        b.coords_ok(c),
        b.cell_of(c) is None,
        b.depth() < b.cells(),
        p == player_of_index(b.depth()),
    ensures
        b.placed(c, p).wf_board(),
{
    let nb = b.placed(c, p);
    let kl = b.idx(c.0 as int, c.1 as int);
    lemma_idx_in_range(b, c.0 as int, c.1 as int);
    assert forall|i: int| 0 <= i < nb.depth() implies #[trigger] nb.placed_ok(i) by {
        if i < b.depth() {
            assert(b.placed_ok(i));
            let ci = b.hist_at(i);
            lemma_idx_in_range(b, ci.0 as int, ci.1 as int);
            if b.idx(ci.0 as int, ci.1 as int) == kl {
                assert(b.cell_of(ci) == b.cell_of(c));
            }
            assert(nb.hist_at(i) == ci);
            assert(nb.cell_of(ci) == b.cell_of(ci));
        } else {
            assert(nb.hist_at(i) == c);
            assert(nb.cell_of(c) == Some(p));
        }
    }
    assert forall|i: int, j: int|
        0 <= i < nb.depth() && 0 <= j < nb.depth() && i != j implies #[trigger] nb.hist_at(i)
        != #[trigger] nb.hist_at(j) by {
        if i < b.depth() && j < b.depth() {
            assert(b.hist_at(i) != b.hist_at(j));
        } else if i < b.depth() {
            assert(b.placed_ok(i));
            assert(b.hist_at(i) != c);
        } else {
            assert(b.placed_ok(j));
            assert(b.hist_at(j) != c);
        }
    }
    assert forall|x: int, y: int|
        nb.in_bounds(x, y) && (#[trigger] nb.cell_at(x, y)) is Some implies nb.filled_by_hist(
        x,
        y,
    ) by {
        lemma_idx_in_range(b, x, y);
        if b.idx(x, y) == kl {
            lemma_idx_injective(b, x, y, c.0 as int, c.1 as int);
            assert(nb.hist_at(b.depth()) == (x as u8, y as u8));
        } else {
            assert(b.cell_at(x, y) is Some);
            let i = choose|i: int| 0 <= i < b.depth() && #[trigger] b.hist_at(i) == (
                x as u8,
                y as u8,
            );
            assert(nb.hist_at(i) == (x as u8, y as u8));
        }
    }
}

/// Erasing the last move's cell and dropping it from the history keeps the
/// board well-formed.
pub proof fn lemma_after_pop_wf(b: Board)
    requires
        b.wf_board(),
        b.depth() > 0,
    ensures
        b.after_pop().wf_board(),
{
    let nb = b.after_pop();
    let cl = b.last_coords();
    let last = b.depth() - 1;
    assert(b.placed_ok(last));
    let kl = b.idx(cl.0 as int, cl.1 as int);
    lemma_idx_in_range(b, cl.0 as int, cl.1 as int);
    assert forall|i: int| 0 <= i < nb.depth() implies #[trigger] nb.placed_ok(i) by {
        assert(b.placed_ok(i));
        let ci = b.hist_at(i);
        lemma_idx_in_range(b, ci.0 as int, ci.1 as int);
        if b.idx(ci.0 as int, ci.1 as int) == kl {
            lemma_idx_injective(b, ci.0 as int, ci.1 as int, cl.0 as int, cl.1 as int);
            assert(ci == cl);
            assert(b.hist_at(i) != b.hist_at(last));
        }
        assert(nb.hist_at(i) == ci);
        assert(nb.cell_of(ci) == b.cell_of(ci));
    }
    assert forall|i: int, j: int|
        0 <= i < nb.depth() && 0 <= j < nb.depth() && i != j implies #[trigger] nb.hist_at(i)
        != #[trigger] nb.hist_at(j) by {
        assert(b.hist_at(i) != b.hist_at(j));
        assert(nb.hist_at(i) == b.hist_at(i));
        assert(nb.hist_at(j) == b.hist_at(j));
    }
    assert forall|x: int, y: int|
        nb.in_bounds(x, y) && (#[trigger] nb.cell_at(x, y)) is Some implies nb.filled_by_hist(
        x,
        y,
    ) by {
        lemma_idx_in_range(b, x, y);
        if b.idx(x, y) == kl {
            assert(nb.cell_at(x, y) is None);
        } else {
            assert(b.cell_at(x, y) is Some);
            let i = choose|i: int| 0 <= i < b.depth() && #[trigger] b.hist_at(i) == (
                x as u8,
                y as u8,
            );
            if i == last {
                lemma_idx_injective(b, x, y, cl.0 as int, cl.1 as int);
            }
            assert(nb.hist_at(i) == (x as u8, y as u8));
        }
    }
}

/// At most one cell of a row can be the landing cell for a given side.
pub proof fn lemma_landing_unique(b: Board, side: Side, y: int, x1: int, x2: int)
    requires
        b.landing(side, y, x1),
        b.landing(side, y, x2),
    ensures
        x1 == x2,
{
    if x1 < x2 {
        match side {
            Side::Left => assert(b.cell_at(x1, y) is Some),
            Side::Right => assert(b.cell_at(x2, y) is Some),
        }
    }
    if x2 < x1 {
        match side {
            Side::Left => assert(b.cell_at(x2, y) is Some),
            Side::Right => assert(b.cell_at(x1, y) is Some),
        }
    }
}

/// Structural well-formedness reads the dimensions, the cells and the
/// history, never the cached winner.
pub proof fn lemma_wf_board_ignores_cache(b1: Board, b2: Board)
    requires
        b1.size_x == b2.size_x,
        b1.size_y == b2.size_y,
        b1.field == b2.field,
        b1.hist == b2.hist,
        b1.wf_board(),
    ensures
        b2.wf_board(),
{
    assert forall|i: int| 0 <= i < b2.depth() implies #[trigger] b2.placed_ok(i) by {
        assert(b1.placed_ok(i));
        assert(b2.hist_at(i) == b1.hist_at(i));
        assert(b2.cell_of(b2.hist_at(i)) == b1.cell_of(b1.hist_at(i)));
    }
    assert forall|i: int, j: int|
        0 <= i < b2.depth() && 0 <= j < b2.depth() && i != j implies #[trigger] b2.hist_at(i)
        != #[trigger] b2.hist_at(j) by {
        assert(b1.hist_at(i) != b1.hist_at(j));
    }
    assert forall|x: int, y: int|
        b2.in_bounds(x, y) && (#[trigger] b2.cell_at(x, y)) is Some implies b2.filled_by_hist(
        x,
        y,
    ) by {
        assert(b1.cell_at(x, y) is Some);
        let i = choose|i: int| 0 <= i < b1.depth() && #[trigger] b1.hist_at(i) == (x as u8, y as u8);
        assert(b2.hist_at(i) == (x as u8, y as u8));
    }
}

/// The winner predicates read the dimensions, the cells and the history,
/// never the cached winner: two boards that agree on those agree on every
/// winning run.
pub proof fn lemma_wins_at_ignores_cache(b1: Board, b2: Board, p: Player, lx: int, ly: int)
    requires
        b1.size_x == b2.size_x,
        b1.size_y == b2.size_y,
        b1.field == b2.field,
    ensures
        b1.wins_at(p, lx, ly) == b2.wins_at(p, lx, ly),
{
    assert forall|d: int, a: int| #[trigger] b1.window_ok(lx, ly, d, a, p) implies b2.window_ok(
        lx,
        ly,
        d,
        a,
        p,
    ) by {
        assert forall|j: int| a <= j < a + WIN_LEN implies #[trigger] b2.ray_ok(lx, ly, d, j, p) by {
            assert(b1.ray_ok(lx, ly, d, j, p));
        }
    }
    assert forall|d: int, a: int| #[trigger] b2.window_ok(lx, ly, d, a, p) implies b1.window_ok(
        lx,
        ly,
        d,
        a,
        p,
    ) by {
        assert forall|j: int| a <= j < a + WIN_LEN implies #[trigger] b1.ray_ok(lx, ly, d, j, p) by {
            assert(b2.ray_ok(lx, ly, d, j, p));
        }
    }
}

/// Row-major indexing is injective on in-bounds coordinates.
pub proof fn lemma_idx_injective(b: Board, x1: int, y1: int, x2: int, y2: int)
    requires
        b.in_bounds(x1, y1),
        b.in_bounds(x2, y2),
        b.idx(x1, y1) == b.idx(x2, y2),
    ensures
        x1 == x2 && y1 == y2,
{
    assert(x1 == x2 && y1 == y2) by (nonlinear_arith)
        requires
            0 <= x1 < b.size_x,
            0 <= y1 < b.size_y,
            0 <= x2 < b.size_x,
            0 <= y2 < b.size_y,
            y1 * b.size_x + x1 == y2 * b.size_x + x2,
    ;
}

} // verus!
