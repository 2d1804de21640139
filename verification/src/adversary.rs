//! The two adversaries: a random player and the searching bot, plus the
//! policy that decides when the search is cheap enough to run.

use vstd::prelude::*;

use rand::Rng;

use crate::adversary_minimax::{minimax, MINMAX_DEPTH_RESTRICTION};
use crate::game::{GameOperations, Move, State};
use crate::model::{lemma_can_continue_moves, lemma_no_continue_no_moves};

verus! {

/// Which adversary plays.
#[derive(PartialEq, Eq, Structural, Debug, Clone, Copy)]
pub enum BotId {
    RANDY,
    SMART,
}

/// Relies on rand's `thread_rng` and `Rng::gen_range`: some number below
/// the bound; nothing further is assumed of the draw.
#[verifier::external_body]
fn random_below(n: usize) -> (r: usize)
    requires
        n > 0,
    ensures
        r < n,
{
    rand::thread_rng().gen_range(0..n)
}

/// A uniformly random legal move; nothing when the game offers none.
fn randy(game: &State) -> (r: Option<Move>)
    requires
        game@.wf(),
    ensures
        r is Some <==> game@.possible_moves().len() > 0,
        r matches Some(m) ==> game@.possible_moves().contains(m),
{
    let actions = game.possible_moves();
    if actions.len() == 0 {
        None
    } else {
        let k = random_below(actions.len());
        let m = actions[k];
        proof {
            assert(game@.possible_moves()[k as int] == m);
        }
        Some(m)
    }
}

/// The chosen bot's move: always a legal move of this position, `None`
/// when the game is over.  The random bot always moves while the game can
/// continue; so does the smart bot while it is still in its random
/// opening phases.  In the smart bot's searching phase an immediately
/// winning move, when one exists, is taken.
pub fn bot_move(bot_id: &BotId, game: &State) -> (r: Option<Move>)
    requires
        game@.wf(),
    ensures
        r matches Some(m) ==> game@.possible_moves().contains(m),
        !game@.can_continue() ==> r is None,
        game@.can_continue() ==> r is Some || (bot_id is SMART && game@.depth() >= 2 && game@.cells()
            - game@.depth() <= MINMAX_DEPTH_RESTRICTION as int),
        (bot_id is SMART && game@.can_continue() && game@.depth() >= 2 && game@.cells()
            - game@.depth() <= MINMAX_DEPTH_RESTRICTION as int && (exists|m: Move|
            #[trigger] game@.possible_moves().contains(m) && game@.move_wins(m))) ==> (r matches Some(
            w,
        ) && game@.move_wins(w)),
{
    proof {
        if game@.can_continue() {
            lemma_can_continue_moves(game@);
        } else {
            lemma_no_continue_no_moves(game@);
        }
    }
    match bot_id {
        BotId::RANDY => randy(game),
        BotId::SMART => {
            match game.next_player() {
                Err(_) => None,
                Ok(_) => {
                    // The first two plies are random; so is play while the
                    // board still has more room than the search budget.
                    if game.current_depth() < 2 {
                        randy(game)
                    } else if game.depth_left() > MINMAX_DEPTH_RESTRICTION as usize {
                        randy(game)
                    } else {
                        minimax(game)
                    }
                },
            }
        },
    }
}

} // verus!
