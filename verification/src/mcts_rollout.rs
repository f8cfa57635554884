//! The rollout-based UCT search: incremental expansion of one untried move
//! per iteration, full-game heuristic rollouts as value estimates, and
//! per-player score vectors backpropagated up the tree.
use vstd::prelude::*;

verus! {

use crate::moves::Move;
use crate::state::{GameState, StateV, state_wf, legal_move, apply_move_spec};
use crate::agent::{AIAgent, scores_modest};
use crate::heuristic::rollout_scores;
use crate::mcts::{isqrt, sqrt_nat};

/// The bound on any single rollout score.
pub const ROLLOUT_SCORE_BOUND: u64 = 1100000;

/// One position in the rollout search tree.
pub struct Node {
    pub game_state: GameState,
    pub parent: Option<usize>,
    pub children: Vec<usize>,
    /// The move that led from the parent to this node; absent for roots.
    pub action: Option<Move>,
    /// Legal moves not yet expanded from this node; shrinks to empty.
    pub untried_actions: Vec<Move>,
    pub visits: u32,
    /// Accumulated rollout scores, one sum per player.
    pub scores: Vec<u64>,
}

/// Well-formedness of the rollout arena relative to its root: links point
/// downward and in range, untried moves are legal where they sit, score
/// vectors match the player count and are bounded by the visits, visits
/// never exceed the parent's, and the root's children carry legal actions.
pub open spec fn arena_wf(t: Seq<Node>, root: int) -> bool {
    &&& 0 <= root < t.len()
    &&& forall|i: int|
        0 <= i < t.len() ==> ((#[trigger] t[i].parent) matches Some(p) ==> (p as int) < i)
    &&& forall|i: int, j: int|
        0 <= i < t.len() && 0 <= j < t[i].children@.len() ==> i < ((#[trigger] t[i].children@[j])
            as int) < t.len()
    &&& forall|i: int, k: int|
        0 <= i < t.len() && 0 <= k < t[i].untried_actions@.len() ==> legal_move(
            t[i].game_state@,
            (#[trigger] t[i].untried_actions@[k]),
        )
    &&& forall|i: int|
        0 <= i < t.len() ==> state_wf((#[trigger] t[i].game_state)@) && scores_modest(
            t[i].game_state@,
        ) && t[i].scores@.len() == t[i].game_state@.players.len() && t[i].game_state@.players.len()
            == t[root].game_state@.players.len()
    &&& forall|i: int, j: int|
        0 <= i < t.len() && 0 <= j < t[i].scores@.len() ==> (#[trigger] t[i].scores@[j]) as int
            <= (t[i].visits as int) * (ROLLOUT_SCORE_BOUND as int)
    &&& forall|i: int|
        0 <= i < t.len() ==> ((#[trigger] t[i].parent) matches Some(p) ==> t[i].visits <= t[
            p as int
        ].visits)
    &&& forall|i: int, j: int|
        0 <= i < t.len() && 0 <= j < t[i].children@.len() ==> (t[(#[trigger] t[i].children@[
            j
        ]) as int].parent == Some(i as usize) ==> ((t[t[i].children@[j] as int].action matches Some(
            m,
        ) && legal_move(t[i].game_state@, m)) && t[t[i].children@[j] as int].game_state@
            == apply_move_spec(t[i].game_state@, t[t[i].children@[j] as int].action->0)))
    &&& forall|i: int, j: int|
        0 <= i < t.len() && 0 <= j < t[i].children@.len() ==> (t[(#[trigger] t[i].children@[
            j
        ]) as int].parent matches Some(p) ==> p == i)
    &&& forall|i: int| root < i < t.len() ==> (#[trigger] t[i].parent) is Some
    &&& forall|j: int|
        0 <= j < t[root].children@.len() ==> t[(#[trigger] t[root].children@[j]) as int].parent
            == Some(root as usize)
}

/// The floor of the base-two logarithm.
pub open spec fn log2_floor(n: int) -> int
    decreases n,
{
    if n < 2 {
        0
    } else {
        1 + log2_floor(n / 2)
    }
}

/// A fixed-point natural logarithm, scaled by one thousand: the floor
/// base-two logarithm times the thousandfold logarithm of two.
pub open spec fn ln_fp(n: int) -> int {
    log2_floor(n) * 693
}

/// The UCT priority of a child in fixed point: its mean rollout score for
/// the parent's acting player plus an exploration bonus of twice the
/// square root of the logarithm of the parent's visits over the child's.
pub open spec fn uct_spec(sum: int, visits: int, parent_visits: int) -> int {
    (sum * 1000) / visits + 2 * sqrt_nat((ln_fp(parent_visits) * 1000) / visits)
}

/// Below the `k`-th power of two, the base-two logarithm stays below `k`.
proof fn lemma_log2_below(n: int, k: nat)
    requires
        k >= 1,
        n < vstd::arithmetic::power2::pow2(k),
    ensures
        log2_floor(n) <= k - 1,
    decreases k,
{
    vstd::arithmetic::power2::lemma_pow2_unfold(k);
    if n >= 2 {
        assert(n / 2 < vstd::arithmetic::power2::pow2((k - 1) as nat));
        if k >= 2 {
            lemma_log2_below(n / 2, (k - 1) as nat);
        } else {
            assert(vstd::arithmetic::power2::pow2(1) == 2) by {
                vstd::arithmetic::power2::lemma2_to64();
            }
        }
    }
}

/// The base-two logarithm of a thirty-two-bit value stays below
/// thirty-two.
proof fn lemma_log2_bound(n: int)
    requires
        n <= u32::MAX,
    ensures
        log2_floor(n) <= 31,
{
    vstd::arithmetic::power2::lemma2_to64();
    if n < vstd::arithmetic::power2::pow2(32) {
        lemma_log2_below(n, 32);
    }
}

/// The base-two logarithm is never negative.
proof fn lemma_log2_nonneg(n: int)
    ensures
        log2_floor(n) >= 0,
    decreases n,
{
    if n >= 2 {
        lemma_log2_nonneg(n / 2);
    }
}

/// Computes the floor base-two logarithm.
fn log2_of(n: u32) -> (r: u32)
    ensures
        r == log2_floor(n as int),
        r <= 31,
{
    proof {
        lemma_log2_bound(n as int);
        lemma_log2_nonneg(n as int);
    }
    let mut m: u32 = n;
    let mut r: u32 = 0;
    while m >= 2
        invariant
            log2_floor(n as int) == r + log2_floor(m as int),
            log2_floor(n as int) <= 31,
            log2_floor(m as int) >= 0,
            r <= 31,
        decreases m,
    {
        proof {
            lemma_log2_nonneg(m as int / 2);
        }
        m = m / 2;
        r = r + 1;
    }
    r
}

/// Computes a child's UCT priority in fixed point.
fn uct_value(sum: u64, visits: u32, parent_visits: u32) -> (r: u128)
    requires
        visits >= 1,
        sum <= (visits as u64) * ROLLOUT_SCORE_BOUND,
    ensures
        r == uct_spec(sum as int, visits as int, parent_visits as int),
{
    proof {
        assert((sum as int) * 1000 <= 0xFFFF_FFFF * (ROLLOUT_SCORE_BOUND as int) * 1000)
            by (nonlinear_arith)
            requires
                sum as int <= (visits as int) * (ROLLOUT_SCORE_BOUND as int),
                0 <= visits as int <= 0xFFFF_FFFF,
        ;
    }
    let exploitation: u128 = ((sum as u128) * 1000) / (visits as u128);
    let lg = log2_of(parent_visits);
    let ln_scaled: u64 = (lg as u64) * 693;
    let arg: u64 = (ln_scaled * 1000) / (visits as u64);
    proof {
        assert(arg <= 0xFFFF_FFFF);
        assert(arg as int == (ln_fp(parent_visits as int) * 1000) / (visits as int));
    }
    let root = isqrt(arg);
    exploitation + 2 * (root as u128)
}

/// Builds the score vector of a fresh node: one zero per player.
fn zero_scores(n: usize) -> (r: Vec<u64>)
    ensures
        r@.len() == n,
        forall|j: int| 0 <= j < n ==> #[trigger] r@[j] == 0,
{
    let mut r: Vec<u64> = Vec::new();
    let mut i: usize = 0;
    while i < n
        invariant
            i <= n,
            r@.len() == i,
            forall|j: int| 0 <= j < i ==> #[trigger] r@[j] == 0,
        decreases n - i,
    {
        r.push(0);
        i = i + 1;
    }
    r
}

/// Resets the arena to a single root holding the given position, with its
/// legal moves untried.
pub(crate) fn create_root(nodes: &mut Vec<Node>, root_idx: &mut usize, game_state: &GameState)
    requires
        state_wf(game_state@),
        scores_modest(game_state@),
    ensures
        final(nodes)@.len() == 1,
        *final(root_idx) == 0,
        arena_wf(final(nodes)@, 0),
        final(nodes)@[0].game_state@ == game_state@,
        final(nodes)@[0].visits == 0,
        final(nodes)@[0].children@.len() == 0,
        forall|m: Move|
            final(nodes)@[0].untried_actions@.contains(m) <==> legal_move(game_state@, m),
{
    let untried_actions = game_state.get_legal_moves();
    let n_players = game_state.players.len();
    let root_node = Node {
        untried_actions,
        game_state: game_state.clone(),
        parent: None,
        children: Vec::new(),
        action: None,
        visits: 0,
        scores: zero_scores(n_players),
    };
    let mut fresh: Vec<Node> = Vec::new();
    fresh.push(root_node);
    core::mem::swap(nodes, &mut fresh);
    *root_idx = 0;
    proof {
        assert forall|k: int|
            0 <= k < final(nodes)@[0].untried_actions@.len() implies legal_move(
            final(nodes)@[0].game_state@,
            final(nodes)@[0].untried_actions@[k],
        ) by {
            assert(final(nodes)@[0].untried_actions@.contains(
                final(nodes)@[0].untried_actions@[k],
            ));
        }
    }
}

} // verus!

verus! {

use crate::state::{
    lemma_legal_move_in_range, lemma_apply_move_preserves_scores, players_eq,
};

/// Expands one untried move of a node: pops the most recently listed move,
/// applies it to a copy of the node's position, and registers the new
/// child.  Returns the new node's index.
#[verifier::rlimit(100)]
#[verifier::spinoff_prover]
pub(crate) fn expand(nodes: &mut Vec<Node>, root: usize, node_index: usize) -> (new_index: usize)
    requires
        arena_wf(old(nodes)@, root as int),
        node_index < old(nodes)@.len(),
        old(nodes)@[node_index as int].untried_actions@.len() > 0,
    ensures
        arena_wf(final(nodes)@, root as int),
        final(nodes)@.len() == old(nodes)@.len() + 1,
        new_index == old(nodes)@.len(),
        final(nodes)@[new_index as int].visits == 0,
        final(nodes)@[new_index as int].parent == Some(node_index),
        final(nodes)@[new_index as int].children@.len() == 0,
        final(nodes)@[new_index as int].action == Some(
            old(nodes)@[node_index as int].untried_actions@.last(),
        ),
        final(nodes)@[new_index as int].game_state@ == apply_move_spec(
            old(nodes)@[node_index as int].game_state@,
            old(nodes)@[node_index as int].untried_actions@.last(),
        ),
        final(nodes)@[node_index as int].untried_actions@ == old(nodes)@[
            node_index as int
        ].untried_actions@.drop_last(),
        forall|m: Move|
            final(nodes)@[new_index as int].untried_actions@.contains(m) <==> legal_move(
                final(nodes)@[new_index as int].game_state@,
                m,
            ),
        final(nodes)@[node_index as int].children@ == old(nodes)@[
            node_index as int
        ].children@.push(new_index),
        forall|i: int|
            0 <= i < old(nodes)@.len() && i != node_index ==> (#[trigger] final(nodes)@[
                i
            ]).children == old(nodes)@[i].children && final(nodes)@[i].untried_actions == old(nodes)@[i].untried_actions,
        forall|i: int|
            0 <= i < old(nodes)@.len() ==> (#[trigger] final(nodes)@[i]).game_state == old(nodes)@[i].game_state && final(nodes)@[i].visits == old(nodes)@[i].visits && final(nodes)@[i].scores == old(nodes)@[i].scores && final(nodes)@[i].parent == old(nodes)@[i].parent && final(nodes)@[i].action == old(nodes)@[i].action,
    {
    let ghost t0 = nodes@;
    let action_to_try = match nodes[node_index].untried_actions.len() {
        0 => {
            proof {
                assert(false);
            }
            nodes[node_index].untried_actions[0]
        },
        _ => {
            let n = &mut nodes[node_index];
            let m = n.untried_actions.pop();
            match m {
                Some(m) => m,
                None => {
                    proof {
                        assert(false);
                    }
                    Move {
                        source: crate::moves::MoveSource::Center,
                        tile: crate::tiles::Tile::Blue,
                        destination: crate::moves::MoveDestination::Floor,
                    }
                },
            }
        },
    };
    proof {
        assert(legal_move(t0[node_index as int].game_state@, action_to_try));
        lemma_legal_move_in_range(t0[node_index as int].game_state@, action_to_try);
    }
    let mut new_state = nodes[node_index].game_state.clone();
    new_state.apply_move(&action_to_try);
    proof {
        lemma_apply_move_preserves_scores(t0[node_index as int].game_state@, action_to_try);
    }
    let untried_actions = new_state.get_legal_moves();
    proof {
        assert(forall|m: Move|
            untried_actions@.contains(m) <==> legal_move(new_state@, m));
    }
    let n_players = new_state.players.len();
    let new_node = Node {
        untried_actions,
        game_state: new_state,
        parent: Some(node_index),
        children: Vec::new(),
        action: Some(action_to_try),
        visits: 0,
        scores: zero_scores(n_players),
    };
    let new_index = nodes.len();
    nodes.push(new_node);
    let n = &mut nodes[node_index];
    n.children.push(new_index);
    proof {
        let t2 = nodes@;
        assert forall|k: int|
            0 <= k < t2[new_index as int].untried_actions@.len() implies legal_move(
            t2[new_index as int].game_state@,
            t2[new_index as int].untried_actions@[k],
        ) by {
            assert(t2[new_index as int].untried_actions@.contains(
                t2[new_index as int].untried_actions@[k],
            ));
        }
        assert(t2[node_index as int].children@.drop_last() =~= t0[node_index as int].children@);
        assert(t2[node_index as int].untried_actions@ =~= t0[
            node_index as int
        ].untried_actions@.drop_last());
        assert forall|i: int, j: int|
            0 <= i < t2.len() && 0 <= j < t2[i].children@.len() implies (t2[(#[trigger] t2[
            i
        ].children@[j]) as int].parent matches Some(p) ==> p == i) by {
            if i == node_index as int && j == t2[i].children@.len() - 1 {
                assert(t2[i].children@[j] == new_index);
                assert(t2[new_index as int].parent == Some(node_index));
            } else {
                assert(t2[i].children@[j] == t0[i].children@[j]);
                assert((t0[i].children@[j] as int) < t0.len());
                assert(t2[t0[i].children@[j] as int].parent == t0[t0[i].children@[
                    j
                ] as int].parent);
            }
        }
        assert(arena_wf(t2, root as int));
    }
    new_index
}

/// Estimates a node's value by one full-game heuristic rollout from its
/// position: the final scores, after end-game bonuses, of some completed
/// playout of that position.
pub(crate) fn simulate(nodes: &Vec<Node>, root: usize, node_index: usize) -> (r: Vec<u32>)
    requires
        arena_wf(nodes@, root as int),
        node_index < nodes@.len(),
    ensures
        r@.len() == nodes@[node_index as int].game_state@.players.len(),
        forall|j: int| 0 <= j < r@.len() ==> #[trigger] r@[j] <= 1100000,
        exists|tr: Seq<StateV>|
            #[trigger] crate::heuristic::playout_trace(tr) && tr.len() >= 1 && tr[0] == nodes@[
                node_index as int
            ].game_state@ && tr.last().players.len() == r@.len() && (
            tr.last().end_game_triggered || crate::heuristic::round_steps(tr) >= 1000 || (forall|
                m: Move,
            |
                !legal_move(tr.last(), m))) && (forall|j: int|
                0 <= j < r@.len() ==> r@[j] as int == crate::state::state_tiling_spec(
                    tr.last(),
                ).players[j].score + crate::board::end_game_bonus(
                    crate::state::state_tiling_spec(tr.last()).players[j],
                )),
{
    rollout_scores(&nodes[node_index].game_state)
}

/// The chain of positions from a node up to its topmost ancestor.
pub open spec fn chain(t: Seq<Node>, i: int) -> Set<int>
    decreases i,
{
    if i < 0 || i >= t.len() {
        Set::<int>::empty()
    } else {
        match t[i].parent {
            None => Set::<int>::empty().insert(i),
            Some(p) => if (p as int) < i {
                chain(t, p as int).insert(i)
            } else {
                Set::<int>::empty().insert(i)
            },
        }
    }
}

proof fn lemma_chain_range(t: Seq<Node>, i: int)
    ensures
        forall|x: int| chain(t, i).contains(x) ==> 0 <= x <= i && x < t.len(),
    decreases i,
{
    if 0 <= i < t.len() {
        match t[i].parent {
            None => {},
            Some(p) => {
                if (p as int) < i {
                    lemma_chain_range(t, p as int);
                }
            },
        }
    }
    assert forall|x: int| chain(t, i).contains(x) implies 0 <= x <= i && x < t.len() by {
        if 0 <= i < t.len() {
            match t[i].parent {
                None => {},
                Some(p) => {
                    if (p as int) < i && x != i {
                        assert(chain(t, p as int).contains(x));
                    }
                },
            }
        }
    }
}

proof fn lemma_chain_parent_closed(t: Seq<Node>, s: int, c: int)
    requires
        0 <= s < t.len(),
        chain(t, s).contains(c),
        t[c].parent matches Some(p) && (p as int) < c,
        forall|i: int|
            0 <= i < t.len() ==> ((#[trigger] t[i].parent) matches Some(p2) ==> (p2 as int) < i),
    ensures
        chain(t, s).contains(t[c].parent->0 as int),
    decreases s,
{
    lemma_chain_range(t, s);
    if c == s {
        let p = t[s].parent->0 as int;
        assert(chain(t, p).contains(p)) by {
            if 0 <= p < t.len() {
                match t[p].parent {
                    None => {},
                    Some(q) => {},
                }
            }
        }
    } else {
        let p = t[s].parent->0 as int;
        lemma_chain_parent_closed(t, p, c);
    }
}

/// Chains only read the parent links, so extending the arena with new
/// nodes leaves old chains unchanged.
proof fn lemma_chain_frame(t1: Seq<Node>, t2: Seq<Node>, i: int)
    requires
        t1.len() <= t2.len(),
        forall|k: int| 0 <= k < t1.len() ==> t1[k].parent == t2[k].parent,
        i < t1.len(),
    ensures
        chain(t1, i) == chain(t2, i),
    decreases i,
{
    if 0 <= i {
        match t1[i].parent {
            None => {
                assert(chain(t1, i) =~= chain(t2, i));
            },
            Some(p) => {
                if (p as int) < i {
                    lemma_chain_frame(t1, t2, p as int);
                }
                assert(chain(t1, i) =~= chain(t2, i));
            },
        }
    } else {
        assert(chain(t1, i) =~= chain(t2, i));
    }
}

/// Adds a rollout's scores and one visit to every node from the expanded
/// node up to the top of its chain.
#[verifier::rlimit(80)]
pub(crate) fn backpropagate(nodes: &mut Vec<Node>, root: usize, start_index: usize, final_scores: &Vec<u32>)
    requires
        arena_wf(old(nodes)@, root as int),
        start_index < old(nodes)@.len(),
        forall|i: int| 0 <= i < old(nodes)@.len() ==> (#[trigger] old(nodes)@[i]).visits < u32::MAX,
        final_scores@.len() == old(nodes)@[start_index as int].game_state@.players.len(),
        forall|j: int| 0 <= j < final_scores@.len() ==> #[trigger] final_scores@[j] <= 1100000,
    ensures
        arena_wf(final(nodes)@, root as int),
        final(nodes)@.len() == old(nodes)@.len(),
        forall|i: int|
            0 <= i < old(nodes)@.len() ==> (#[trigger] final(nodes)@[i]).game_state == old(nodes)@[i].game_state && final(nodes)@[i].parent == old(nodes)@[i].parent && final(nodes)@[i].children == old(nodes)@[i].children && final(nodes)@[i].untried_actions == old(nodes)@[i].untried_actions && final(nodes)@[i].action == old(nodes)@[i].action,
        forall|i: int|
            0 <= i < old(nodes)@.len() ==> old(nodes)@[i].visits <= (#[trigger] final(nodes)@[i]).visits <= old(nodes)@[i].visits + 1,
        forall|i: int|
            0 <= i < old(nodes)@.len() ==> (#[trigger] final(nodes)@[i]).visits as int == old(nodes)@[i].visits as int + (if chain(old(nodes)@, start_index as int).contains(i) {
                1int
            } else {
                0int
            }),
        forall|i: int, j: int|
            0 <= i < old(nodes)@.len() && 0 <= j < old(nodes)@[i].scores@.len() ==> (
            #[trigger] final(nodes)@[i].scores@[j]) as int == old(nodes)@[i].scores@[j] as int + (
            if chain(old(nodes)@, start_index as int).contains(i) && j < final_scores@.len() {
                final_scores@[j] as int
            } else {
                0int
            }),
    {
    let ghost t0 = nodes@;
    let ghost anc = chain(t0, start_index as int);
    proof {
        lemma_chain_range(t0, start_index as int);
    }
    let mut current_index: Option<usize> = Some(start_index);
    while current_index.is_some()
        invariant
            arena_wf(t0, root as int),
            start_index < t0.len(),
            anc == chain(t0, start_index as int),
            forall|i: int| 0 <= i < t0.len() ==> (#[trigger] t0[i]).visits < u32::MAX,
            final_scores@.len() == t0[start_index as int].game_state@.players.len(),
            forall|j: int| 0 <= j < final_scores@.len() ==> #[trigger] final_scores@[j] <= 1100000,
            nodes@.len() == t0.len(),
            forall|i: int|
                0 <= i < t0.len() ==> (#[trigger] nodes@[i]).game_state == t0[i].game_state
                    && nodes@[i].parent == t0[i].parent && nodes@[i].children == t0[i].children
                    && nodes@[i].untried_actions == t0[i].untried_actions && nodes@[i].action == t0[
                    i
                ].action,
            current_index matches Some(idx) ==> (idx as int) < t0.len() && anc.contains(idx as int)
                && chain(t0, idx as int) <= anc,
            forall|i: int|
                0 <= i < t0.len() ==> (#[trigger] nodes@[i]).visits as int == t0[i].visits as int
                    + (if anc.contains(i) && !(match current_index {
                    Some(idx) => chain(t0, idx as int).contains(i),
                    None => false,
                }) {
                    1int
                } else {
                    0int
                }),
            forall|i: int, j: int|
                0 <= i < t0.len() && 0 <= j < t0[i].scores@.len() ==> (#[trigger] nodes@[
                    i
                ].scores@[j]) as int == t0[i].scores@[j] as int + (if anc.contains(i) && !(match
                current_index {
                    Some(idx) => chain(t0, idx as int).contains(i),
                    None => false,
                }) && j < final_scores@.len() {
                    final_scores@[j] as int
                } else {
                    0int
                }),
            forall|i: int| 0 <= i < t0.len() ==> (#[trigger] nodes@[i]).scores@.len() == t0[i].scores@.len(),
        decreases (match current_index {
            Some(idx) => idx as int + 1,
            None => 0int,
        }),
    {
        let index = match current_index {
            Some(i) => i,
            None => {
                proof {
                    assert(false);
                }
                0
            },
        };
        proof {
            assert(chain(t0, index as int).contains(index as int));
            lemma_chain_range(t0, index as int);
        }
        let nscores = nodes[index].scores.len();
        proof {
            assert(nodes@[index as int].scores@.len() == t0[index as int].scores@.len());
            assert(t0[index as int].scores@.len() == t0[index as int].game_state@.players.len());
            assert(t0[index as int].game_state@.players.len() == t0[
                root as int
            ].game_state@.players.len());
            assert(t0[start_index as int].game_state@.players.len() == t0[
                root as int
            ].game_state@.players.len());
        }
        let mut j: usize = 0;
        while j < nscores
            invariant
                arena_wf(t0, root as int),
                index < t0.len(),
                nodes@.len() == t0.len(),
                nscores == t0[index as int].scores@.len(),
                nscores == final_scores@.len(),
                j <= nscores,
                anc.contains(index as int),
                chain(t0, index as int).contains(index as int),
                forall|jj: int|
                    0 <= jj < final_scores@.len() ==> #[trigger] final_scores@[jj] <= 1100000,
                forall|i: int|
                    0 <= i < t0.len() ==> (#[trigger] nodes@[i]).game_state == t0[i].game_state
                        && nodes@[i].parent == t0[i].parent && nodes@[i].children == t0[i].children
                        && nodes@[i].untried_actions == t0[i].untried_actions && nodes@[i].action
                        == t0[i].action && nodes@[i].visits == (if i == index {
                        t0[i].visits
                    } else {
                        nodes@[i].visits
                    }),
                forall|i: int|
                    0 <= i < t0.len() && i != index ==> (#[trigger] nodes@[i]).visits as int == t0[
                        i
                    ].visits as int + (if anc.contains(i) && !chain(t0, index as int).contains(i) {
                        1int
                    } else {
                        0int
                    }),
                nodes@[index as int].visits == t0[index as int].visits,
                forall|i: int|
                    0 <= i < t0.len() ==> (#[trigger] nodes@[i]).scores@.len() == t0[
                        i
                    ].scores@.len(),
                forall|i: int, jj: int|
                    0 <= i < t0.len() && i != index && 0 <= jj < t0[i].scores@.len() ==> (
                    #[trigger] nodes@[i].scores@[jj]) as int == t0[i].scores@[jj] as int + (if
                    anc.contains(i) && !chain(t0, index as int).contains(i) && jj
                        < final_scores@.len() {
                        final_scores@[jj] as int
                    } else {
                        0int
                    }),
                forall|jj: int|
                    0 <= jj < t0[index as int].scores@.len() ==> (#[trigger] nodes@[
                        index as int
                    ].scores@[jj]) as int == t0[index as int].scores@[jj] as int + (if jj < j {
                        final_scores@[jj] as int
                    } else {
                        0int
                    }),
                forall|i: int| 0 <= i < t0.len() ==> (#[trigger] t0[i]).visits < u32::MAX,
            decreases nscores - j,
        {
            proof {
                let vi = t0[index as int].visits as int;
                let rb = ROLLOUT_SCORE_BOUND as int;
                assert(vi * rb <= 0xFFFF_FFFF * rb) by (nonlinear_arith)
                    requires 0 <= vi <= 0xFFFF_FFFF, rb >= 0,
                ;
            }
            let add = final_scores[j];
            let n = &mut nodes[index];
            let cur = n.scores[j];
            n.scores[j] = cur + (add as u64);
            j = j + 1;
        }
        let n = &mut nodes[index];
        n.visits = n.visits + 1;
        current_index = n.parent;
        proof {
            if index > 0 && t0[index as int].parent is Some {
                let p = t0[index as int].parent->0 as int;
                lemma_chain_parent_closed(t0, start_index as int, index as int);
                assert(chain(t0, index as int) == chain(t0, p).insert(index as int));
                lemma_chain_range(t0, p);
                assert(!chain(t0, p).contains(index as int));
            }
        }
    }
    proof {
        let t2 = nodes@;
        assert forall|i: int, j: int|
            0 <= i < t2.len() && 0 <= j < t2[i].scores@.len() implies (#[trigger] t2[
            i
        ].scores@[j]) as int <= (t2[i].visits as int) * (ROLLOUT_SCORE_BOUND as int) by {
            let vi = t0[i].visits as int;
            let rb = ROLLOUT_SCORE_BOUND as int;
            assert(t0[i].scores@[j] as int <= vi * rb);
            if anc.contains(i) {
                assert((vi + 1) * rb == vi * rb + rb) by (nonlinear_arith);
            }
        }
        assert forall|i: int|
            0 <= i < t2.len() implies ((#[trigger] t2[i].parent) matches Some(p) ==> t2[i].visits
            <= t2[p as int].visits) by {
            if t2[i].parent matches Some(p) {
                if anc.contains(i) {
                    lemma_chain_parent_closed(t0, start_index as int, i);
                }
            }
        }
        assert(arena_wf(t2, root as int));
    }
}

} // verus!

verus! {

/// Whether child `a` ranks at least as high as child `b` under the UCT
/// rule, for a parent with `pv` visits whose acting player is `player`: an
/// unvisited child outranks every visited one.
pub open spec fn uct_ge(t: Seq<Node>, a: int, b: int, pv: int, player: int) -> bool {
    if t[a].visits == 0 {
        true
    } else if t[b].visits == 0 {
        false
    } else {
        uct_spec(t[a].scores@[player] as int, t[a].visits as int, pv) >= uct_spec(
            t[b].scores@[player] as int,
            t[b].visits as int,
            pv,
        )
    }
}

/// A UCT selection walk: it starts at the root, only descends from nodes
/// with nothing left untried, and each step enters a child that ranks at
/// least as high as every sibling under the UCT rule.
#[verifier::opaque]
pub open spec fn uct_selection_path(t: Seq<Node>, root: int, path: Seq<int>) -> bool {
    &&& path.len() >= 1
    &&& path[0] == root
    &&& forall|k: int|
        0 <= k < path.len() - 1 ==> t[#[trigger] path[k]].untried_actions@.len() == 0 && (exists|
            j: int,
        |
            0 <= j < t[path[k]].children@.len() && t[path[k]].children@[j] as int == path[k + 1]
                && (forall|j2: int|
                0 <= j2 < t[path[k]].children@.len() ==> uct_ge(
                    t,
                    path[k + 1],
                    t[path[k]].children@[j2] as int,
                    t[path[k]].visits as int,
                    t[path[k]].game_state@.current_player_idx as int,
                )))
}

/// Walks from the root by the UCT rule — any unvisited child first, then
/// the highest mean-score-plus-exploration — and expands the first node
/// with an untried move; a childless node with nothing untried is a
/// terminal leaf.  Either exactly one node is created, a child of the
/// walked-to node by its most recently listed untried move, or the arena
/// is unchanged and the result is such a terminal leaf.
#[verifier::rlimit(100)]
pub(crate) fn select_and_expand(nodes: &mut Vec<Node>, root: usize) -> (r: usize)
    requires
        arena_wf(old(nodes)@, root as int),
    ensures
        arena_wf(final(nodes)@, root as int),
        r < final(nodes)@.len(),
        final(nodes)@.len() >= old(nodes)@.len(),
        chain(final(nodes)@, r as int).contains(root as int),
        exists|path: Seq<int>|
            #[trigger] uct_selection_path(old(nodes)@, root as int, path) && ((final(nodes)@
                == old(nodes)@ && path.last() == r as int) || (final(nodes)@.len() == old(
                nodes,
            )@.len() + 1 && final(nodes)@[r as int].parent == Some(path.last() as usize))),
        (old(nodes)@[root as int].untried_actions@.len() > 0 || old(nodes)@[
            root as int
        ].children@.len() > 0) ==> final(nodes)@[root as int].children@.len() > 0,
        (old(nodes)@[root as int].untried_actions@.len() == 0 && old(nodes)@[
            root as int
        ].children@.len() == 0) ==> final(nodes)@ == old(nodes)@ && r == root,
        (final(nodes)@ == old(nodes)@ && final(nodes)@[r as int].children@.len() == 0 && final(nodes)@[r as int].untried_actions@.len() == 0) || (final(nodes)@.len() == old(nodes)@.len() + 1
            && r as int == old(nodes)@.len() && final(nodes)@[r as int].visits == 0 && (exists|
            p: int,
        |
            0 <= p < old(nodes)@.len() && final(nodes)@[r as int].parent == Some(p as usize)
                && old(nodes)@[p].untried_actions@.len() > 0 && (#[trigger] final(nodes)@[
                r as int
            ].action) == Some(old(nodes)@[p].untried_actions@.last()) && final(nodes)@[
                r as int
            ].game_state@ == apply_move_spec(
                old(nodes)@[p].game_state@,
                old(nodes)@[p].untried_actions@.last(),
            ))),
        forall|i: int|
            0 <= i < old(nodes)@.len() ==> (#[trigger] final(nodes)@[i]).game_state == old(nodes)@[i].game_state && final(nodes)@[i].visits == old(nodes)@[i].visits && final(nodes)@[i].parent == old(nodes)@[i].parent && final(nodes)@[i].action == old(nodes)@[i].action && final(nodes)@[i].scores == old(nodes)@[i].scores,
        forall|i: int|
            0 <= i < old(nodes)@.len() ==> (#[trigger] final(nodes)@[i]).children@.len() >= old(nodes)@[i].children@.len(),
        forall|i: int|
            old(nodes)@.len() <= i < final(nodes)@.len() ==> (#[trigger] final(nodes)@[i]).visits
                == 0,
    {
    let ghost t0 = nodes@;
    let mut current_index: usize = root;
    let ghost mut path: Seq<int> = seq![root as int];
    proof {
        reveal(uct_selection_path);
        assert(uct_selection_path(t0, root as int, path));
    }
    while nodes[current_index].untried_actions.len() == 0 && nodes[current_index].children.len()
        > 0
        invariant
            nodes@ == t0,
            arena_wf(t0, root as int),
            root <= current_index < t0.len(),
            chain(t0, current_index as int).contains(root as int),
            current_index as int > root as int ==> t0[root as int].children@.len() > 0,
            uct_selection_path(t0, root as int, path),
            path.last() == current_index as int,
        decreases t0.len() - current_index,
    {
        let node_visits = nodes[current_index].visits;
        let player = nodes[current_index].game_state.current_player_idx;
        proof {
            assert(state_wf(t0[current_index as int].game_state@));
        }
        let n_children = nodes[current_index].children.len();
        let mut best: usize = nodes[current_index].children[0];
        proof {
            assert(t0[current_index as int].children@[0] == best);
            assert((best as int) < t0.len());
        }
        let mut k: usize = 1;
        while k < n_children
            invariant
                nodes@ == t0,
                arena_wf(t0, root as int),
                current_index < t0.len(),
                player == t0[current_index as int].game_state@.current_player_idx,
                player < t0[current_index as int].game_state@.players.len(),
                node_visits == t0[current_index as int].visits,
                n_children == t0[current_index as int].children@.len(),
                n_children > 0,
                1 <= k <= n_children,
                (best as int) < t0.len(),
                exists|j: int|
                    0 <= j < n_children && (#[trigger] t0[current_index as int].children@[j])
                        == best,
                forall|k2: int|
                    0 <= k2 < k ==> uct_ge(
                        t0,
                        best as int,
                        (#[trigger] t0[current_index as int].children@[k2]) as int,
                        node_visits as int,
                        player as int,
                    ),
            decreases n_children - k,
        {
            let c = nodes[current_index].children[k];
            proof {
                assert(t0[current_index as int].children@[k as int] == c);
                assert((c as int) < t0.len());
                assert((best as int) < t0.len());
                assert(t0[c as int].scores@.len() == t0[c as int].game_state@.players.len());
                assert(t0[best as int].scores@.len() == t0[
                    best as int
                ].game_state@.players.len());
            }
            let c_visits = nodes[c].visits;
            let best_visits = nodes[best].visits;
            if c_visits == 0 {
                best = c;
            } else if best_visits == 0 {
                // keep the unvisited candidate
            } else {
                let c_uct = uct_value(nodes[c].scores[player], c_visits, node_visits);
                let b_uct = uct_value(nodes[best].scores[player], best_visits, node_visits);
                if c_uct >= b_uct {
                    proof {
                        // every earlier candidate was visited, else the
                        // incumbent would be unvisited
                        assert forall|k2: int|
                            0 <= k2 < k + 1 implies uct_ge(
                            t0,
                            c as int,
                            (#[trigger] t0[current_index as int].children@[k2]) as int,
                            node_visits as int,
                            player as int,
                        ) by {
                            if k2 < k {
                                assert(uct_ge(
                                    t0,
                                    best as int,
                                    t0[current_index as int].children@[k2] as int,
                                    node_visits as int,
                                    player as int,
                                ));
                            } else {
                                assert(t0[current_index as int].children@[k2] as int == c as int);
                            }
                        }
                    }
                    best = c;
                }
            }
            k = k + 1;
        }
        proof {
            let j = choose|j: int|
                0 <= j < n_children && (#[trigger] t0[current_index as int].children@[j]) == best;
            assert((current_index as int) < (best as int));
            // links below the current root stay intact, so the walk keeps
            // the root on its chain
            assert((best as int) > root as int);
            assert(t0[best as int].parent is Some);
            assert(t0[best as int].parent == Some(current_index));
            assert(chain(t0, best as int) == chain(t0, current_index as int).insert(
                best as int,
            ));
            reveal(uct_selection_path);
            let p2 = path.push(best as int);
            assert forall|k2: int| 0 <= k2 < p2.len() - 1 implies t0[#[trigger] p2[
                k2
            ]].untried_actions@.len() == 0 && (exists|j3: int|
                0 <= j3 < t0[p2[k2]].children@.len() && t0[p2[k2]].children@[j3] as int == p2[k2
                    + 1] && (forall|j2: int|
                    0 <= j2 < t0[p2[k2]].children@.len() ==> uct_ge(
                        t0,
                        p2[k2 + 1],
                        t0[p2[k2]].children@[j2] as int,
                        t0[p2[k2]].visits as int,
                        t0[p2[k2]].game_state@.current_player_idx as int,
                    ))) by {
                if k2 < path.len() - 1 {
                    assert(p2[k2] == path[k2] && p2[k2 + 1] == path[k2 + 1]);
                } else {
                    assert(p2[k2] == current_index as int && p2[k2 + 1] == best as int);
                    assert(0 <= j < t0[current_index as int].children@.len() && t0[
                        current_index as int
                    ].children@[j] as int == best as int);
                }
            }
            assert(uct_selection_path(t0, root as int, p2));
            path = p2;
        }
        current_index = best;
    }
    if nodes[current_index].untried_actions.len() > 0 {
        let new_index = expand(nodes, root, current_index);
        proof {
            assert(uct_selection_path(t0, root as int, path) && path.last()
                == current_index as int);
            assert(final(nodes)@[new_index as int].parent == Some(current_index));
            lemma_chain_frame(t0, nodes@, current_index as int);
            assert(chain(nodes@, new_index as int) == chain(nodes@, current_index as int).insert(
                new_index as int,
            ));
            assert(chain(nodes@, new_index as int).contains(root as int));
            if current_index as int == root as int {
                assert(nodes@[root as int].children@.len() > 0);
            }
            assert(exists|p: int|
                0 <= p < t0.len() && nodes@[new_index as int].parent == Some(p as usize) && t0[
                    p
                ].untried_actions@.len() > 0 && (#[trigger] nodes@[new_index as int].action)
                    == Some(t0[p].untried_actions@.last()) && nodes@[new_index as int].game_state@
                    == apply_move_spec(t0[p].game_state@, t0[p].untried_actions@.last())) by {
                assert(0 <= current_index < t0.len() && nodes@[new_index as int].parent == Some(
                    current_index,
                ) && t0[current_index as int].untried_actions@.len() > 0 && nodes@[
                    new_index as int
                ].action == Some(t0[current_index as int].untried_actions@.last()) && nodes@[
                    new_index as int
                ].game_state@ == apply_move_spec(
                    t0[current_index as int].game_state@,
                    t0[current_index as int].untried_actions@.last(),
                ));
            }
        }
        new_index
    } else {
        proof {
            assert(uct_selection_path(t0, root as int, path) && path.last()
                == current_index as int);
            assert(nodes@ == t0);
        }
        current_index
    }
}

/// Runs the given number of rollout-search iterations: each selects and
/// expands a node, plays one rollout from it, and backpropagates the
/// scores up the tree.  The root gains one visit per iteration, and its
/// children only ever accumulate.
#[verifier::rlimit(100)]
pub(crate) fn run_search(nodes: &mut Vec<Node>, root: usize, iterations: u32)
    requires
        arena_wf(old(nodes)@, root as int),
        forall|i: int|
            0 <= i < old(nodes)@.len() ==> (#[trigger] old(nodes)@[i]).visits as int + iterations
                <= u32::MAX,
    ensures
        arena_wf(final(nodes)@, root as int),
        final(nodes)@[root as int].game_state == old(nodes)@[root as int].game_state,
        final(nodes)@[root as int].visits == old(nodes)@[root as int].visits + iterations,
        (iterations >= 1 && (old(nodes)@[root as int].untried_actions@.len() > 0 || old(nodes)@[
            root as int
        ].children@.len() > 0)) ==> final(nodes)@[root as int].children@.len() > 0,
        (old(nodes)@[root as int].untried_actions@.len() == 0 && old(nodes)@[
            root as int
        ].children@.len() == 0) ==> final(nodes)@[root as int].children@.len() == 0,
    {
    let ghost t0 = old(nodes)@;
    let mut it: u32 = 0;
    while it < iterations
        invariant
            it <= iterations,
            t0 == old(nodes)@,
            arena_wf(nodes@, root as int),
            nodes@[root as int].game_state == t0[root as int].game_state,
            nodes@[root as int].visits == t0[root as int].visits + it,
            forall|i: int|
                0 <= i < nodes@.len() ==> (#[trigger] nodes@[i]).visits as int + (iterations - it)
                    <= u32::MAX,
            (it >= 1 && (t0[root as int].untried_actions@.len() > 0 || t0[
                root as int
            ].children@.len() > 0)) ==> nodes@[root as int].children@.len() > 0,
            nodes@[root as int].children@.len() >= t0[root as int].children@.len(),
            (t0[root as int].untried_actions@.len() == 0 && t0[root as int].children@.len() == 0)
                ==> nodes@[root as int].children@.len() == 0 && nodes@[
                root as int
            ].untried_actions@.len() == 0,
            it == 0 ==> nodes@[root as int].untried_actions == t0[root as int].untried_actions
                && nodes@[root as int].children == t0[root as int].children,
        decreases iterations - it,
    {
        let ghost t_it = nodes@;
        let node_index = select_and_expand(nodes, root);
        let final_scores = simulate(nodes, root, node_index);
        proof {
            assert(chain(nodes@, node_index as int).contains(root as int));
        }
        backpropagate(nodes, root, node_index, &final_scores);
        it = it + 1;
    }
}

/// The first root child (in list order) whose player boards equal the
/// given position's, if any.
pub open spec fn first_match_child(t: Seq<Node>, cs: Seq<usize>, s: StateV, j: int) -> Option<int>
    decreases cs.len() - j,
{
    if j < 0 || j >= cs.len() {
        None
    } else if t[cs[j] as int].game_state@.players == s.players {
        Some(cs[j] as int)
    } else {
        first_match_child(t, cs, s, j + 1)
    }
}

/// Re-anchors the arena on the actual current position: an empty arena or
/// an unmatched position starts a fresh single-node tree, while the first
/// root child whose player boards equal the position's becomes the new
/// root with its parent link cleared, keeping every node and statistic of
/// the arena.
#[verifier::rlimit(100)]
#[verifier::spinoff_prover]
pub(crate) fn sync_with_game_state(
    nodes: &mut Vec<Node>,
    root_idx: &mut usize,
    game_state: &GameState,
)
    requires
        old(nodes)@.len() > 0 ==> arena_wf(old(nodes)@, *old(root_idx) as int),
        state_wf(game_state@),
        scores_modest(game_state@),
    ensures
        arena_wf(final(nodes)@, *final(root_idx) as int),
        final(nodes)@[*final(root_idx) as int].game_state@.players == game_state@.players,
        old(nodes)@.len() == 0 ==> final(nodes)@.len() == 1 && *final(root_idx) == 0 && final(nodes)@[*final(root_idx) as int].game_state@ == game_state@ && final(nodes)@[*final(root_idx) as int].children@.len() == 0 && final(nodes)@[*final(root_idx) as int].visits == 0 && (
        forall|m: Move|
            final(nodes)@[*final(root_idx) as int].untried_actions@.contains(m) <==> legal_move(
                game_state@,
                m,
            )),
        old(nodes)@.len() > 0 ==> (first_match_child(
            old(nodes)@,
            old(nodes)@[*old(root_idx) as int].children@,
            game_state@,
            0,
        ) matches Some(c) ==> (final(nodes)@.len() == old(nodes)@.len() && (*final(root_idx)) as int == c && final(nodes)@[c].parent is None && final(nodes)@[c].visits == old(nodes)@[c].visits && final(nodes)@[c].children == old(nodes)@[c].children && final(nodes)@[
            c
        ].untried_actions == old(nodes)@[c].untried_actions && final(nodes)@[c].scores == old(nodes)@[c].scores && final(nodes)@[c].game_state == old(nodes)@[c].game_state && (forall|i: int|
            0 <= i < old(nodes)@.len() && i != c ==> final(nodes)@[i] == old(nodes)@[i]))),
        old(nodes)@.len() > 0 ==> (first_match_child(
            old(nodes)@,
            old(nodes)@[*old(root_idx) as int].children@,
            game_state@,
            0,
        ) is None ==> final(nodes)@.len() == 1 && *final(root_idx) == 0 && final(nodes)@[
            0
        ].game_state@ == game_state@ && final(nodes)@[0].visits == 0),
    {
    let ghost t0 = nodes@;
    if nodes.len() == 0 {
        create_root(nodes, root_idx, game_state);
        return ;
    }
    let root = *root_idx;
    let n_children = nodes[root].children.len();
    let mut found: Option<usize> = None;
    let mut j: usize = 0;
    while j < n_children && found.is_none()
        invariant
            nodes@ == t0,
            arena_wf(t0, root as int),
            root == *old(root_idx),
            n_children == t0[root as int].children@.len(),
            j <= n_children,
            state_wf(game_state@),
            found is None ==> first_match_child(t0, t0[root as int].children@, game_state@, 0)
                == first_match_child(t0, t0[root as int].children@, game_state@, j as int),
            found matches Some(c) ==> (c as int) < t0.len() && t0[
                c as int
            ].game_state@.players == game_state@.players && first_match_child(
                t0,
                t0[root as int].children@,
                game_state@,
                0,
            ) == Some(c as int) && (exists|j2: int|
                0 <= j2 < t0[root as int].children@.len() && (#[trigger] t0[
                    root as int
                ].children@[j2]) == c),
        decreases n_children - j, (if found is None { 1int } else { 0int }),
    {
        let c = nodes[root].children[j];
        proof {
            assert(t0[root as int].children@[j as int] == c);
            assert(t0[c as int].game_state@.players =~= Seq::new(
                nodes[c as int].game_state.players@.len(),
                |i: int| nodes[c as int].game_state.players@[i]@,
            ));
        }
        if players_eq(&nodes[c].game_state.players, &game_state.players) {
            proof {
                assert(t0[c as int].game_state@.players =~= game_state@.players);
                assert(t0[root as int].children@[j as int] == c);
            }
            found = Some(c);
        } else {
            proof {
                assert(t0[c as int].game_state@.players != game_state@.players);
            }
            j = j + 1;
        }
    }
    match found {
        Some(c) => {
            proof {
                let j2 = choose|j2: int|
                    0 <= j2 < t0[root as int].children@.len() && (#[trigger] t0[
                        root as int
                    ].children@[j2]) == c;
                assert((root as int) < c as int);
                assert forall|k2: int|
                    0 <= k2 < t0[c as int].children@.len() implies t0[(#[trigger] t0[
                    c as int
                ].children@[k2]) as int].parent == Some(c) by {
                    let ch = t0[c as int].children@[k2] as int;
                    assert((c as int) < ch < t0.len());
                    assert(t0[ch].parent is Some);
                }
            }
            let n = &mut nodes[c];
            n.parent = None;
            *root_idx = c;
            proof {
                let t2 = nodes@;
                assert forall|i: int, j2: int|
                    0 <= i < t2.len() && 0 <= j2 < t2[i].children@.len() implies (t2[(
                #[trigger] t2[i].children@[j2]) as int].parent == Some(i as usize) ==> ((t2[
                    t2[i].children@[j2] as int
                ].action matches Some(m) && legal_move(t2[i].game_state@, m)) && t2[
                    t2[i].children@[j2] as int
                ].game_state@ == apply_move_spec(
                    t2[i].game_state@,
                    t2[t2[i].children@[j2] as int].action->0,
                ))) by {
                    assert(t0[i].children@[j2] == t2[i].children@[j2]);
                }
                assert forall|i: int, j2: int|
                    0 <= i < t2.len() && 0 <= j2 < t2[i].children@.len() implies (t2[(
                #[trigger] t2[i].children@[j2]) as int].parent matches Some(p) ==> p == i) by {
                    assert(t0[i].children@[j2] == t2[i].children@[j2]);
                    let ch = t2[i].children@[j2] as int;
                    if ch != c as int {
                        assert(t2[ch].parent == t0[ch].parent);
                    } else {
                        assert(t2[ch].parent is None);
                    }
                }
                assert(arena_wf(t2, c as int));
            }
        },
        None => {
            create_root(nodes, root_idx, game_state);
        },
    }
}

/// The action of the root's most visited child; on equal visit counts the
/// later child wins.  Nothing is returned while the root has no children.
pub(crate) fn best_root_move(nodes: &Vec<Node>, root: usize) -> (r: Option<Move>)
    requires
        arena_wf(nodes@, root as int),
    ensures
        r is None <==> nodes@[root as int].children@.len() == 0,
        r matches Some(m) ==> legal_move(nodes@[root as int].game_state@, m),
        r matches Some(m) ==> exists|j: int|
            0 <= j < nodes@[root as int].children@.len() && nodes@[(#[trigger] nodes@[
                root as int
            ].children@[j]) as int].action == Some(m) && (forall|k: int|
                0 <= k < nodes@[root as int].children@.len() ==> nodes@[(#[trigger] nodes@[
                    root as int
                ].children@[k]) as int].visits <= nodes@[nodes@[root as int].children@[
                    j
                ] as int].visits),
    {
    let n_children = nodes[root].children.len();
    if n_children == 0 {
        return None;
    }
    let mut best: usize = nodes[root].children[0];
    proof {
        assert(nodes@[root as int].children@[0] == best);
    }
    let mut best_visits = nodes[best].visits;
    let ghost best_j = 0int;
    let mut k: usize = 1;
    while k < n_children
        invariant
            arena_wf(nodes@, root as int),
            root < nodes@.len(),
            n_children == nodes@[root as int].children@.len(),
            1 <= k <= n_children,
            0 <= best_j < k,
            nodes@[root as int].children@[best_j] == best,
            exists|j: int|
                0 <= j < n_children && (#[trigger] nodes@[root as int].children@[j]) == best,
            best_visits == nodes@[best as int].visits,
            forall|k2: int|
                0 <= k2 < k ==> nodes@[(#[trigger] nodes@[root as int].children@[k2]) as int].visits
                    <= best_visits,
        decreases n_children - k,
    {
        let c = nodes[root].children[k];
        proof {
            assert(nodes@[root as int].children@[k as int] == c);
        }
        let v = nodes[c].visits;
        if v >= best_visits {
            best = c;
            best_visits = v;
            proof {
                best_j = k as int;
            }
        }
        k = k + 1;
    }
    proof {
        let j = choose|j: int|
            0 <= j < n_children && (#[trigger] nodes@[root as int].children@[j]) == best;
        assert(nodes@[best as int].parent == Some(root));
    }
    match &nodes[best].action {
        Some(m) => Some(*m),
        None => {
            proof {
                assert(false);
            }
            None
        },
    }
}

/// A stateful rollout-search agent: it builds one tree over a whole game
/// and keeps the matching subtree across real moves.
pub struct MctsAI {
    nodes: Vec<Node>,
    root_idx: usize,
}

impl MctsAI {
    /// The arena, when nonempty, is well-formed around its root.
    #[verifier::type_invariant]
    spec fn arena_sound(self) -> bool {
        self.nodes@.len() == 0 || arena_wf(self.nodes@, self.root_idx as int)
    }

    /// Whether the agent has not searched yet.
    pub closed spec fn is_fresh(&self) -> bool {
        self.nodes@.len() == 0
    }

    /// The agent's arena, once one exists.
    pub closed spec fn searched_nodes(&self) -> Seq<Node> {
        self.nodes@
    }

    /// The index of the arena's current root.
    pub closed spec fn root_index(&self) -> int {
        self.root_idx as int
    }

    /// The position at the root of the agent's tree, if one exists.
    pub closed spec fn current_root(&self) -> Option<StateV> {
        if self.nodes@.len() == 0 {
            None
        } else {
            Some(self.nodes@[self.root_idx as int].game_state@)
        }
    }

    /// Builds an empty agent; the tree grows on the first move request.
    pub fn new() -> (r: MctsAI)
        ensures
            r.is_fresh(),
    {
        MctsAI { nodes: Vec::new(), root_idx: 0 }
    }
}

impl AIAgent for MctsAI {
    /// Chooses a move: re-anchors the tree on the current position, runs
    /// five thousand rollout iterations (fewer only near the visit-count
    /// ceiling), and returns the most visited root child's action.  The
    /// move is legal in the tree's root position, whose player boards
    /// equal the current position's; on a first call that position is the
    /// current one exactly, and nothing is returned exactly when it offers
    /// no legal move.
    fn get_move(&mut self, game_state: &GameState) -> (r: Option<Move>)
        ensures
            final(self).current_root() matches Some(root) && root.players
                == game_state@.players && (r matches Some(m) ==> legal_move(root, m)),
            old(self).is_fresh() ==> (r matches Some(m) ==> legal_move(game_state@, m)),
            old(self).is_fresh() ==> (r is None <==> (forall|m: Move|
                !legal_move(game_state@, m))),
            r is None <==> final(self).searched_nodes()[final(self).root_index()].children@.len()
                == 0,
            r matches Some(m) ==> exists|j: int|
                0 <= j < final(self).searched_nodes()[final(self).root_index()].children@.len()
                    && final(self).searched_nodes()[(#[trigger] final(self).searched_nodes()[
                    final(self).root_index()
                ].children@[j]) as int].action == Some(m) && (forall|k: int|
                    0 <= k < final(self).searched_nodes()[final(self).root_index()].children@.len() ==> final(self).searched_nodes()[(
                    #[trigger] final(self).searched_nodes()[final(self).root_index()].children@[
                        k
                    ]) as int].visits <= final(self).searched_nodes()[final(self).searched_nodes()[
                        final(self).root_index()
                    ].children@[j] as int].visits),
    {
        proof {
            use_type_invariant(&*self);
        }
        let mut nodes: Vec<Node> = Vec::new();
        core::mem::swap(&mut self.nodes, &mut nodes);
        let mut root_idx = self.root_idx;
        sync_with_game_state(&mut nodes, &mut root_idx, game_state);
        let ghost t_sync = nodes@;
        let mut max_visits: u32 = 0;
        let mut i: usize = 0;
        while i < nodes.len()
            invariant
                i <= nodes@.len(),
                forall|k: int| 0 <= k < i ==> (#[trigger] nodes@[k]).visits <= max_visits,
                max_visits == 0 || (exists|k: int|
                    0 <= k < i && (#[trigger] nodes@[k]).visits == max_visits),
            decreases nodes@.len() - i,
        {
            if nodes[i].visits > max_visits {
                max_visits = nodes[i].visits;
            }
            i = i + 1;
        }
        let iterations: u32 = if max_visits <= u32::MAX - 5000 {
            5000
        } else {
            u32::MAX - max_visits
        };
        run_search(&mut nodes, root_idx, iterations);
        let r = best_root_move(&nodes, root_idx);
        proof {
            if old(self).is_fresh() {
                // a fresh agent syncs onto the position itself and runs a
                // full batch, so the root is expanded exactly when a legal
                // move exists
                assert(t_sync[root_idx as int].game_state@ == game_state@);
                assert(iterations >= 1);
                if r is None {
                    assert(nodes@[root_idx as int].children@.len() == 0);
                    assert(t_sync[root_idx as int].untried_actions@.len() == 0 || t_sync[
                        root_idx as int
                    ].children@.len() > 0);
                    assert forall|m: Move| !legal_move(game_state@, m) by {
                        if legal_move(t_sync[root_idx as int].game_state@, m) {
                            assert(t_sync[root_idx as int].untried_actions@.contains(m));
                        }
                    }
                } else {
                    assert(legal_move(nodes@[root_idx as int].game_state@, r->0));
                }
            }
        }
        self.root_idx = root_idx;
        core::mem::swap(&mut self.nodes, &mut nodes);
        r
    }
}

} // verus!
