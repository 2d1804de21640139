//! The pushing rules: where a piece lands, applying and undoing a turn, and
//! the legal-move enumeration that feeds the adversary search.

use vstd::prelude::*;

use crate::game::{calc_field_index, Coords, GameError, GameOperations, MatrixOperations, Move, Player, Side, State, Turn};
use crate::model::{
    lemma_after_pop_wf, lemma_idx_in_range, lemma_landing_unique, lemma_place_wf,
    lemma_wf_board_ignores_cache, lemma_wins_at_ignores_cache, Board,
};

verus! {

impl State {
    /// Check a turn without applying it: which error `push` would report,
    /// or nothing when it would be accepted.
    pub fn validate_turn(&self, turn: Turn) -> (r: Result<(), GameError>)
        requires
            self@.wf(),
        ensures
            r is Ok <==> self@.push_ok(turn),
            !self@.push_ok(turn) ==> r == Err::<(), GameError>(self@.push_err(turn)),
    {
        if !self.can_continue() {
            return Err(GameError::GameOver);
        }
        let np = match self.next_player() {
            Ok(p) => p,
            Err(_) => {
                proof {
                    assert(false);
                }
                return Err(GameError::GameOver);
            },
        };
        if np != turn.0 {
            return Err(GameError::WrongPlayer);
        }
        match self.next_cell_towards(turn.2, turn.1) {
            Err(e) => Err(e),
            Ok(None) => Err(GameError::RowFull),
            Ok(Some(_)) => Ok(()),
        }
    }

    /// Validate and apply a turn: the landing cell is appended to the
    /// history, the cell is written, and the winner is recomputed from this
    /// move.  On any error the state is unchanged.
    pub fn push(&mut self, turn: Turn) -> (r: Result<(), GameError>)
        requires
            old(self)@.wf(),
        ensures
            final(self)@.wf(),
            r is Ok <==> old(self)@.push_ok(turn),
            old(self)@.push_ok(turn) ==> final(self)@ == old(self)@.after_push(turn),
            !old(self)@.push_ok(turn) ==> final(self)@ == old(self)@ && r == Err::<(), GameError>(
                old(self)@.push_err(turn),
            ),
    {
        if !self.can_continue() {
            return Err(GameError::GameOver);
        }
        let np = match self.next_player() {
            Ok(p) => p,
            Err(_) => {
                proof {
                    assert(false);
                }
                return Err(GameError::GameOver);
            },
        };
        if np != turn.0 {
            return Err(GameError::WrongPlayer);
        }
        let next = match self.next_cell_towards(turn.2, turn.1) {
            Ok(n) => n,
            Err(e) => {
                return Err(e);
            },
        };
        let c = match next {
            Some(c) => c,
            None => {
                return Err(GameError::RowFull);
            },
        };
        let ghost pre = self@;
        proof {
            assert(pre.push_ok(turn));
            // The landing cell the scan found is the one the model names.
            assert(pre.landing(turn.2, turn.1 as int, pre.landing_x(turn.2, turn.1 as int)));
            lemma_landing_unique(
                pre,
                turn.2,
                turn.1 as int,
                c.0 as int,
                pre.landing_x(turn.2, turn.1 as int),
            );
            assert(c == pre.push_dest(turn));
        }
        self.coords_history.push(c);
        let k = calc_field_index(self.size_x, c.0, c.1);
        proof {
            lemma_idx_in_range(pre, c.0 as int, c.1 as int);
            lemma_place_wf(pre, c, turn.0);
        }
        self.field[k] = Some(turn.0);
        proof {
            assert(self@ =~= Board { winner: pre.winner, ..pre.placed(c, turn.0) });
            lemma_wf_board_ignores_cache(pre.placed(c, turn.0), self@);
        }
        let w = self.compute_winner();
        self.winner_cache = w;
        proof {
            assert(self@ =~= pre.placed(c, turn.0));
            assert(self@ == pre.after_push(turn));
            // The cache write does not disturb the run the winner names.
            match self@.winner {
                Some(p) => {
                    let lc = self@.last_coords();
                    lemma_wins_at_ignores_cache(
                        Board { winner: pre.winner, ..pre.placed(c, turn.0) },
                        self@,
                        p,
                        lc.0 as int,
                        lc.1 as int,
                    );
                },
                None => {},
            }
            assert(self@.wf());
        }
        Ok(())
    }

    /// Apply a move for whichever player is to move.
    pub fn push_move(&mut self, m: Move) -> (r: Result<(), GameError>)
        requires
            old(self)@.wf(),
        ensures
            final(self)@.wf(),
            r is Ok <==> old(self)@.push_ok((old(self)@.next_player(), m.0, m.1)),
            old(self)@.push_ok((old(self)@.next_player(), m.0, m.1)) ==> final(self)@ == old(
                self,
            )@.after_push((old(self)@.next_player(), m.0, m.1)),
            !old(self)@.push_ok((old(self)@.next_player(), m.0, m.1)) ==> final(self)@ == old(
                self,
            )@ && r == Err::<(), GameError>(
                old(self)@.push_err((old(self)@.next_player(), m.0, m.1)),
            ),
    {
        let p = match self.next_player() {
            Ok(p) => p,
            Err(_) => {
                return Err(GameError::GameOver);
            },
        };
        self.push((p, m.0, m.1))
    }

    /// Undo the last move: its cell is cleared and the winner cache is
    /// cleared with it (not recomputed).
    pub fn pop(&mut self) -> (r: Result<(), GameError>)
        requires
            old(self)@.wf(),
        ensures
            final(self)@.wf(),
            old(self)@.depth() == 0 ==> final(self)@ == old(self)@ && r == Err::<(), GameError>(
                GameError::NoMoves,
            ),
            old(self)@.depth() > 0 ==> final(self)@ == old(self)@.after_pop() && r == Ok::<
                (),
                GameError,
            >(()),
    {
        let ghost pre = self@;
        let c = match self.coords_history.pop() {
            Some(c) => c,
            None => {
                return Err(GameError::NoMoves);
            },
        };
        proof {
            assert(pre.placed_ok(pre.depth() - 1));
            assert(c == pre.last_coords());
            lemma_idx_in_range(pre, c.0 as int, c.1 as int);
            lemma_after_pop_wf(pre);
        }
        let k = calc_field_index(self.size_x, c.0, c.1);
        self.field[k] = None;
        self.winner_cache = None;
        proof {
            assert(self@ =~= pre.after_pop());
        }
        Ok(())
    }

    /// All legal moves, in center-out row order with `Left` listed before
    /// `Right` inside each row; empty when the game is over.
    pub fn possible_moves(&self) -> (r: Vec<Move>)
        requires
            self@.wf_board(),
        ensures
            r@ == self@.possible_moves(),
    {
        let mut res: Vec<Move> = Vec::new();
        if self.is_finished() {
            return res;
        }
        let half: u8 = self.size_y / 2;
        let sy = self.size_y;
        let mut i: u8 = 0;
        while i < sy
            invariant
                self@.wf_board(),
                !self@.is_finished(),
                half == self@.size_y / 2,
                sy == self@.size_y,
                i <= sy,
                res@ == self@.moves_upto(i as int),
            decreases sy - i,
        {
            let y: u8 = if i % 2 == 1 {
                half - (i + 1) / 2
            } else {
                half + i / 2
            };
            proof {
                assert(y as int == self@.order_y(i as int));
                assert(0 <= (y as int) < self@.size_y);
            }
            match self.next_cell_towards(Side::Left, y) {
                Ok(Some(_)) => {
                    res.push((y, Side::Left));
                    res.push((y, Side::Right));
                    proof {
                        assert(!self@.row_full(y as int));
                        assert(res@ =~= self@.moves_upto(i as int) + self@.row_moves(y as int));
                    }
                },
                Ok(None) => {
                    proof {
                        assert(res@ =~= self@.moves_upto(i as int) + self@.row_moves(y as int));
                    }
                },
                Err(_) => {
                    proof {
                        assert(false);
                    }
                },
            }
            i = i + 1;
        }
        res
    }

    /// Whether pushing `turn` would be legal and immediately win the game.
    pub fn is_turn_winning(&self, turn: Turn) -> (r: bool)
        requires
            self@.wf(),
        ensures
            r == (self@.push_ok(turn) && self@.after_push(turn).is_finished()),
    {
        let mut probe = self.duplicate();
        match probe.push(turn) {
            Ok(_) => probe.is_finished(),
            Err(_) => false,
        }
    }
}

} // verus!
