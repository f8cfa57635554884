//! The pluggable move-choosing agents and their shared capability surface.
use vstd::prelude::*;

verus! {

use crate::moves::{Move, MoveDestination};
use crate::state::{GameState, state_wf, legal_move};

/// A cap on scores under which every search agent can run its simulations
/// without arithmetic overflow.
pub open spec fn scores_modest(s: crate::state::StateV) -> bool {
    forall|i: int| 0 <= i < s.players.len() ==> (#[trigger] s.players[i]).score <= 1000000
}

/// An agent that chooses a move for the acting player, or none when the
/// position offers no legal move.
pub trait AIAgent {
    fn get_move(&mut self, game_state: &GameState) -> (r: Option<Move>)
        requires
            state_wf(game_state@),
            scores_modest(game_state@),
    ;
}

/// An agent that picks the first legal move that avoids the floor.
#[derive(Debug)]
pub struct SimpleAI;

impl AIAgent for SimpleAI {
    /// Returns the first legal move aimed at a pattern line, the first
    /// legal move of all if every move floors its tiles, and nothing when
    /// no move is legal.
    fn get_move(&mut self, game_state: &GameState) -> (r: Option<Move>)
        ensures
            r is None <==> (forall|m: Move| !legal_move(game_state@, m)),
            r matches Some(m) ==> legal_move(game_state@, m),
            (exists|m: Move|
                legal_move(game_state@, m) && (#[trigger] m.destination) matches
                    MoveDestination::PatternLine(i)) ==> (r matches Some(m)
                && m.destination matches MoveDestination::PatternLine(i)),
    {
        let legal_moves = game_state.get_legal_moves();
        if legal_moves.len() == 0 {
            proof {
                assert forall|m: Move| !legal_move(game_state@, m) by {
                    if legal_move(game_state@, m) {
                        assert(legal_moves@.contains(m));
                    }
                }
            }
            return None;
        }
        let mut i: usize = 0;
        while i < legal_moves.len()
            invariant
                i <= legal_moves@.len(),
                forall|m: Move| #[trigger] legal_moves@.contains(m) <==> legal_move(game_state@, m),
                forall|k: int|
                    0 <= k < i ==> !((#[trigger] legal_moves@[k]).destination matches
                        MoveDestination::PatternLine(p)),
            decreases legal_moves@.len() - i,
        {
            if let MoveDestination::PatternLine(_) = legal_moves[i].destination {
                proof {
                    assert(legal_moves@.contains(legal_moves@[i as int]));
                }
                return Some(legal_moves[i]);
            }
            i = i + 1;
        }
        proof {
            assert(legal_moves@.contains(legal_moves@[0]));
            assert forall|m: Move|
                legal_move(game_state@, m) implies !((#[trigger] m.destination) matches
                MoveDestination::PatternLine(p)) by {
                assert(legal_moves@.contains(m));
                let k = choose|k: int| 0 <= k < legal_moves@.len() && legal_moves@[k] == m;
            }
        }
        Some(legal_moves[0])
    }
}

/// A stand-in for a person at the table: in a headless run it never moves.
#[derive(Debug)]
pub struct HumanAgent;

impl AIAgent for HumanAgent {
    /// Never chooses a move; the surrounding interface supplies one.
    fn get_move(&mut self, _game_state: &GameState) -> (r: Option<Move>)
        ensures
            r is None,
    {
        None
    }
}

} // verus!
