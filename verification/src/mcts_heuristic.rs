//! A search agent that feeds the PUCT tree with uniform priors and
//! heuristic-rollout value estimates.
use vstd::prelude::*;

verus! {

use crate::moves::Move;
use crate::state::{GameState, state_wf, legal_move};
use crate::agent::{AIAgent, scores_modest};
use crate::mcts::{Mcts, MctsPolicy, PRIOR_SCALE, VALUE_SCALE, VALUE_BOUND, sync_target};
use crate::heuristic::{rollout_scores, playout_trace};

/// An evaluation policy that weighs every legal move equally and estimates
/// a position's value by one heuristic rollout to the end of the game.
#[derive(Debug)]
pub struct HeuristicPolicy;

impl MctsPolicy for HeuristicPolicy {
    /// Grades a position: one pair per legal move, each holding the
    /// uniform fixed-point prior, and the acting player's final score of
    /// one rollout (a non-negative scaled game score) as the value.
    fn evaluate(&self, game_state: &GameState) -> (r: (i64, Vec<(Move, u64)>))
        ensures
            -VALUE_BOUND <= r.0 <= VALUE_BOUND,
            forall|k: int|
                0 <= k < r.1@.len() ==> legal_move(game_state@, (#[trigger] r.1@[k]).0)
                    && r.1@[k].1 <= PRIOR_SCALE,
            forall|k1: int, k2: int| 0 <= k1 < k2 < r.1@.len() ==> r.1@[k1].0 != r.1@[k2].0,
            forall|m: Move|
                #[trigger] legal_move(game_state@, m) ==> exists|k: int|
                    0 <= k < r.1@.len() && r.1@[k].0 == m,
            r.0 >= 0,
            r.1@.len() > 0 ==> forall|k: int|
                0 <= k < r.1@.len() ==> (#[trigger] r.1@[k]).1 as int == PRIOR_SCALE as int
                    / r.1@.len() as int,
            exists|tr: Seq<crate::state::StateV>|
                #[trigger] playout_trace(tr) && tr.len() >= 1 && tr[0] == game_state@ && r.0
                    == (crate::state::state_tiling_spec(tr.last()).players[
                    game_state@.current_player_idx as int
                ].score + crate::board::end_game_bonus(
                    crate::state::state_tiling_spec(tr.last()).players[
                        game_state@.current_player_idx as int
                    ],
                )) * (VALUE_SCALE as int),
    {
        let legal_moves = game_state.get_legal_moves();
        let n = legal_moves.len();
        let probability: u64 = if n == 0 {
            0
        } else {
            PRIOR_SCALE / (n as u64)
        };
        proof {
            if n > 0 {
                assert(PRIOR_SCALE as int / (n as int) <= PRIOR_SCALE as int) by (nonlinear_arith)
                    requires n >= 1,
                ;
            }
        }
        let mut policy: Vec<(Move, u64)> = Vec::new();
        let mut k: usize = 0;
        while k < n
            invariant
                n == legal_moves@.len(),
                k <= n,
                probability <= PRIOR_SCALE,
                forall|j: int|
                    #![all_triggers]
                    0 <= j < legal_moves@.len() ==> legal_moves@.contains(legal_moves@[j]),
                forall|m: Move| #[trigger] legal_moves@.contains(m) <==> legal_move(game_state@, m),
                forall|j1: int, j2: int|
                    0 <= j1 < j2 < legal_moves@.len() ==> legal_moves@[j1] != legal_moves@[j2],
                policy@.len() == k,
                forall|j: int|
                    0 <= j < k ==> (#[trigger] policy@[j]).0 == legal_moves@[j] && policy@[j].1
                        == probability,
            decreases n - k,
        {
            policy.push((legal_moves[k], probability));
            k = k + 1;
        }
        let scores = rollout_scores(game_state);
        let value = (scores[game_state.current_player_idx] as i64) * VALUE_SCALE;
        let result = (value, policy);
        proof {
            assert(result.1 == policy);
            let cur = game_state@.current_player_idx as int;
            let tr = choose|tr: Seq<crate::state::StateV>|
                #[trigger] playout_trace(tr) && tr.len() >= 1 && tr[0] == game_state@
                    && tr.last().players.len() == scores@.len() && (tr.last().end_game_triggered
                    || crate::heuristic::round_steps(tr) >= 1000 || (forall|m: Move|
                    !legal_move(tr.last(), m))) && (forall|j: int|
                    0 <= j < scores@.len() ==> scores@[j] as int
                        == crate::state::state_tiling_spec(tr.last()).players[j].score
                        + crate::board::end_game_bonus(
                        crate::state::state_tiling_spec(tr.last()).players[j],
                    ));
            assert(scores@[cur] as int == crate::state::state_tiling_spec(tr.last()).players[
                cur
            ].score + crate::board::end_game_bonus(
                crate::state::state_tiling_spec(tr.last()).players[cur],
            ));
            assert(playout_trace(tr) && tr.len() >= 1 && tr[0] == game_state@ && result.0
                == (crate::state::state_tiling_spec(tr.last()).players[cur].score
                + crate::board::end_game_bonus(
                    crate::state::state_tiling_spec(tr.last()).players[cur],
                )) * (VALUE_SCALE as int));
            assert forall|j1: int, j2: int| 0 <= j1 < j2 < result.1@.len() implies result.1@[
                j1
            ].0 != result.1@[j2].0 by {
                assert(policy@[j1].0 == legal_moves@[j1]);
                assert(policy@[j2].0 == legal_moves@[j2]);
            }
            assert forall|j: int|
                0 <= j < result.1@.len() implies legal_move(
                game_state@,
                (#[trigger] result.1@[j]).0,
            ) by {
                assert(policy@[j].0 == legal_moves@[j]);
                assert(legal_moves@.contains(legal_moves@[j]));
            }
            assert forall|m: Move| #[trigger] legal_move(game_state@, m) implies exists|k: int|
                0 <= k < result.1@.len() && result.1@[k].0 == m by {
                assert(legal_moves@.contains(m));
                let kw = choose|kw: int| 0 <= kw < legal_moves@.len() && legal_moves@[kw] == m;
                assert(0 <= kw < result.1@.len() && result.1@[kw].0 == m);
            }
        }
        result
    }

    /// Duplicates the stateless policy.
    fn clone_policy(&self) -> (r: Self)
        ensures
            r == *self,
    {
        HeuristicPolicy
    }
}

/// A search agent driving the PUCT tree with the heuristic rollout policy.
pub struct MctsHeuristicAI {
    mcts: Option<Mcts<HeuristicPolicy>>,
    iterations: u32,
}

impl MctsHeuristicAI {
    /// The persistent tree, when one exists, is well-formed.
    #[verifier::type_invariant]
    spec fn tree_sound(self) -> bool {
        self.mcts matches Some(mc) ==> crate::mcts::mcts_wf(mc)
    }

    /// Whether the agent has not searched yet.
    pub closed spec fn is_fresh(&self) -> bool {
        self.mcts is None
    }

    /// How many search iterations each move request runs.
    pub closed spec fn search_iterations(&self) -> u32 {
        self.iterations
    }

    /// The agent's search tree, once one exists.
    pub closed spec fn searched_tree(&self) -> Seq<crate::mcts::Node> {
        self.mcts->0.tree@
    }

    /// The position at the root of the agent's tree, if one exists.
    pub closed spec fn searched_root(&self) -> Option<crate::state::StateV> {
        match self.mcts {
            Some(mc) => Some(mc.tree@[0].game_state@),
            None => None,
        }
    }

    /// Builds an agent that will run the given number of search iterations
    /// per move.
    pub fn new(iterations: u32) -> (r: MctsHeuristicAI)
        ensures
            r.is_fresh(),
            r.search_iterations() == iterations,
    {
        MctsHeuristicAI { mcts: None, iterations }
    }
}

impl AIAgent for MctsHeuristicAI {
    /// Chooses a move by re-anchoring the persistent tree on the current
    /// position, searching, and reading off the most visited root child.
    /// The chosen move is legal in the position the tree searched from,
    /// whose player boards equal the current position's; on a first call
    /// that position is the current one exactly.  With at least one
    /// iteration requested, nothing is returned exactly when that position
    /// offers no legal move (unless the visit-count ceiling was reached).
    #[verifier::rlimit(60)]
    fn get_move(&mut self, game_state: &GameState) -> (r: Option<Move>)
        ensures
            final(self).searched_root() matches Some(root) && root.players
                == game_state@.players && (r matches Some(m) ==> legal_move(root, m)),
            old(self).is_fresh() ==> (r matches Some(m) ==> legal_move(game_state@, m)),
            (old(self).search_iterations() >= 1 && final(self).searched_tree()[0].visit_count
                < u32::MAX) ==> (r is None <==> (forall|m: Move|
                !legal_move(final(self).searched_root()->0, m))),
            (old(self).is_fresh() && old(self).search_iterations() >= 1) ==> (r is None <==> (
            forall|m: Move| !legal_move(game_state@, m))),
            r matches Some(m) ==> exists|j: int|
                0 <= j < final(self).searched_tree()[0].children@.len() && (#[trigger] final(self).searched_tree()[0].children@[j]).0 == m && (forall|k: int|
                    0 <= k < final(self).searched_tree()[0].children@.len() ==> final(self).searched_tree()[(#[trigger] final(self).searched_tree()[0].children@[
                        k
                    ]).1 as int].visit_count <= final(self).searched_tree()[final(self).searched_tree()[0].children@[j].1 as int].visit_count),
    {
        proof {
            use_type_invariant(&*self);
        }
        let iterations = self.iterations;
        let mut taken: Option<Mcts<HeuristicPolicy>> = None;
        core::mem::swap(&mut self.mcts, &mut taken);
        let mut mcts = match taken {
            Some(mcts) => mcts,
            None => Mcts::new(game_state.clone(), HeuristicPolicy),
        };
        let ghost t_pre = mcts.tree@;
        mcts.sync_tree_with_state(game_state);
        proof {
            crate::mcts::lemma_sync_idempotent(t_pre, game_state@);
            assert(crate::mcts::node_wf(mcts.tree@, 0));
        }
        let ghost t_sync = mcts.tree@;
        // stay below the visit-count ceiling when a reused subtree arrives
        // with statistics
        let root_visits = mcts.tree[0].visit_count;
        let to_run: u32 = if iterations <= u32::MAX - root_visits {
            iterations
        } else {
            u32::MAX - root_visits
        };
        mcts.run_search(to_run);
        let r = mcts.best_move();
        proof {
            if r is Some {
                assert(crate::mcts::node_wf(mcts.tree@, 0));
            }
            if old(self).is_fresh() && iterations >= 1 {
                // a fresh agent syncs onto the position itself and runs the
                // full request
                assert(t_sync[0].game_state@ == game_state@);
                assert(t_sync[0].children@.len() == 0);
                assert(root_visits == 0);
                assert(to_run == iterations);
                assert(mcts.tree@[0].game_state@ == game_state@);
                if r is None {
                    assert(mcts.tree@[0].children@.len() == 0);
                    assert forall|m: Move| !legal_move(game_state@, m) by {
                        if legal_move(t_sync[0].game_state@, m) {
                            assert(mcts.tree@[0].children@.len() > 0);
                        }
                    }
                } else {
                    assert(crate::mcts::node_wf(mcts.tree@, 0));
                    assert(mcts.tree@[0].children@.len() > 0);
                    assert(legal_move(
                        mcts.tree@[0].game_state@,
                        mcts.tree@[0].children@[0].0,
                    ));
                }
            }
            if iterations >= 1 && mcts.tree@[0].visit_count < u32::MAX {
                assert(to_run >= 1) by {
                    if to_run < iterations {
                        assert(mcts.tree@[0].visit_count == root_visits + to_run);
                    }
                }
                assert(mcts.tree@[0].game_state@ == t_sync[0].game_state@);
                if r is None {
                    assert(mcts.tree@[0].children@.len() == 0);
                    assert(t_sync[0].children@.len() == 0);
                    assert forall|m: Move|
                        !legal_move(mcts.tree@[0].game_state@, m) by {
                        if legal_move(t_sync[0].game_state@, m) {
                            assert(mcts.tree@[0].children@.len() > 0);
                        }
                    }
                } else {
                    assert(crate::mcts::node_wf(mcts.tree@, 0));
                    assert(mcts.tree@[0].children@.len() > 0);
                    assert(legal_move(
                        mcts.tree@[0].game_state@,
                        mcts.tree@[0].children@[0].0,
                    ));
                }
            }
        }
        self.mcts = Some(mcts);
        proof {
            assert(iterations == old(self).search_iterations());
            assert(self.searched_root()->0 == self.searched_tree()[0].game_state@);
            if iterations >= 1 && self.searched_tree()[0].visit_count < u32::MAX {
                if r is None {
                    assert(forall|m: Move| !legal_move(self.searched_root()->0, m));
                } else {
                    assert(legal_move(
                        self.searched_root()->0,
                        self.searched_tree()[0].children@[0].0,
                    ));
                    assert(!(forall|m: Move| !legal_move(self.searched_root()->0, m)));
                }
            }
        }
        r
    }
}

} // verus!
