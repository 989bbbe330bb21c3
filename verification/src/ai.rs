//! A uniform-random move policy over the legal moves of a state.

use vstd::prelude::*;

use rand::prelude::SliceRandom;

use crate::game::{GameState, Move, legal_moves, successors};

verus! {

/// Relies on rand's `SliceRandom::choose`: `Some` of an element of the
/// slice picked uniformly at random, and `None` exactly when it is empty.
#[verifier::external_body]
fn choose_move(moves: &Vec<Move>) -> (r: Option<Move>)
    ensures
        r is Some <==> moves@.len() > 0,
        r matches Some(m) ==> moves@.contains(m),
{
    moves.as_slice().choose(&mut rand::thread_rng()).copied()
}

/// A random legal move of the state, or `None` exactly when the game offers
/// none — the terminal signal.
pub fn random_move(state: GameState) -> (r: Option<Move>)
    requires
        state.wf(),
    ensures
        r is Some <==> legal_moves(state).len() > 0,
        r matches Some(m) ==> legal_moves(state).contains(m),
{
    let succ = successors(&state);
    choose_move(&succ)
}

} // verus!
