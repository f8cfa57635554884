//! The prior-guided Monte-Carlo tree search: an arena of nodes, selection
//! by the PUCT rule, one-shot policy-driven expansion, and sign-flipping
//! backpropagation.  Value statistics are fixed-point integers: a value of
//! one is [`VALUE_SCALE`], a prior probability of one is [`PRIOR_SCALE`].
use vstd::prelude::*;

verus! {

use crate::moves::Move;
use crate::state::{GameState, StateV, state_wf, legal_move, apply_move_spec};
use crate::agent::scores_modest;

/// Fixed-point scale of value estimates: this many units stand for 1.0.
pub const VALUE_SCALE: i64 = 1000;

/// Fixed-point scale of prior probabilities: this many units stand for 1.0.
pub const PRIOR_SCALE: u64 = 1000000;

/// The largest magnitude an evaluation may return: the largest respresentable
/// game score at [`VALUE_SCALE`].
pub const VALUE_BOUND: i64 = 4294967295000;

/// A strategy that judges a position: a scalar value estimate from the
/// acting player's perspective, and a prior probability for each legal
/// move.
pub trait MctsPolicy: Sized {
    /// Evaluates a position.  The value stays within [`VALUE_BOUND`]; the
    /// returned moves are exactly the legal moves of the position, each
    /// appearing once with a prior within [`PRIOR_SCALE`].
    fn evaluate(&self, game_state: &GameState) -> (r: (i64, Vec<(Move, u64)>))
        requires
            state_wf(game_state@),
            scores_modest(game_state@),
        ensures
            -VALUE_BOUND <= r.0 <= VALUE_BOUND,
            forall|k: int|
                0 <= k < r.1@.len() ==> legal_move(game_state@, (#[trigger] r.1@[k]).0)
                    && r.1@[k].1 <= PRIOR_SCALE,
            forall|k1: int, k2: int| 0 <= k1 < k2 < r.1@.len() ==> r.1@[k1].0 != r.1@[k2].0,
            forall|m: Move|
                #[trigger] legal_move(game_state@, m) ==> exists|k: int|
                    0 <= k < r.1@.len() && r.1@[k].0 == m,
    ;

    /// Duplicates the strategy; the copy is equal to the original.
    fn clone_policy(&self) -> (r: Self)
        ensures
            r == *self,
    ;
}

/// One position in the search tree, owned by the arena and addressed by
/// index.
pub struct Node {
    pub parent: Option<usize>,
    pub children: Vec<(Move, usize)>,
    pub visit_count: u32,
    pub total_action_value: i128,
    pub prior_probability: u64,
    pub game_state: GameState,
    /// How many search iterations ended with this node as the selected
    /// leaf; ghost bookkeeping for the visit-conservation law.
    pub leaf_hits: Ghost<nat>,
}

/// The running mean of accumulated values, rounded toward zero; zero before
/// any visit.
pub open spec fn mean_value_spec(total: int, visits: int) -> int {
    if visits <= 0 {
        0
    } else if total >= 0 {
        total / visits
    } else {
        -((-total) / visits)
    }
}

/// A mean of values bounded by `bound` stays within `bound`.
pub proof fn lemma_mean_bounded(total: int, visits: int, bound: int)
    requires
        0 <= visits,
        0 <= bound,
        -(visits * bound) <= total <= visits * bound,
    ensures
        -bound <= mean_value_spec(total, visits) <= bound,
{
    if visits > 0 {
        if total >= 0 {
            vstd::arithmetic::div_mod::lemma_div_is_ordered(total, visits * bound, visits);
            vstd::arithmetic::div_mod::lemma_div_multiples_vanish(bound, visits);
            vstd::arithmetic::div_mod::lemma_div_pos_is_pos(total, visits);
        } else {
            vstd::arithmetic::div_mod::lemma_div_is_ordered(-total, visits * bound, visits);
            vstd::arithmetic::div_mod::lemma_div_multiples_vanish(bound, visits);
            vstd::arithmetic::div_mod::lemma_div_pos_is_pos(-total, visits);
        }
    }
}

impl Node {
    /// Builds a fresh, unvisited node.
    pub(crate) fn new(parent: Option<usize>, prior: u64, game_state: GameState) -> (r: Node)
        ensures
            r.parent == parent,
            r.children@.len() == 0,
            r.visit_count == 0,
            r.total_action_value == 0,
            r.prior_probability == prior,
            r.game_state@ == game_state@,
            r.leaf_hits@ == 0,
    {
        Node {
            parent,
            children: Vec::new(),
            visit_count: 0,
            total_action_value: 0,
            prior_probability: prior,
            game_state,
            leaf_hits: Ghost(0nat),
        }
    }

    /// The node's mean action value in fixed point: accumulated value over
    /// visits, zero before any visit.
    pub fn mean_action_value(&self) -> (r: i128)
        requires
            self.total_action_value > i128::MIN,
        ensures
            r == mean_value_spec(self.total_action_value as int, self.visit_count as int),
            (-(self.visit_count as int * VALUE_BOUND as int) <= self.total_action_value as int
                <= self.visit_count as int * VALUE_BOUND as int) ==> -(VALUE_BOUND as int) <= r
                <= VALUE_BOUND as int,
    {
        proof {
            if -(self.visit_count as int * VALUE_BOUND as int) <= self.total_action_value as int
                <= self.visit_count as int * VALUE_BOUND as int {
                lemma_mean_bounded(
                    self.total_action_value as int,
                    self.visit_count as int,
                    VALUE_BOUND as int,
                );
            }
        }
        if self.visit_count == 0 {
            0
        } else if self.total_action_value >= 0 {
            self.total_action_value / (self.visit_count as i128)
        } else {
            -((-self.total_action_value) / (self.visit_count as i128))
        }
    }
}

/// The integer square root: the greatest integer whose square does not
/// exceed `n`.
pub open spec fn sqrt_nat(n: int) -> int {
    choose|r: int| 0 <= r && #[trigger] (r * r) <= n < (r + 1) * (r + 1)
}

/// The integer square root exists and is unique.
pub proof fn lemma_sqrt_unique(n: int, r: int)
    requires
        0 <= r,
        r * r <= n,
        n < (r + 1) * (r + 1),
    ensures
        sqrt_nat(n) == r,
{
    assert forall|r2: int| 0 <= r2 && #[trigger] (r2 * r2) <= n < (r2 + 1) * (r2 + 1) implies r2 == r by {
        if r2 < r {
            vstd::arithmetic::mul::lemma_mul_inequality(r2 + 1, r, r2 + 1);
            vstd::arithmetic::mul::lemma_mul_inequality(r2 + 1, r, r);
            assert((r2 + 1) * (r2 + 1) <= r * r) by (nonlinear_arith)
                requires 0 <= r2 + 1 <= r,
            ;
        }
        if r2 > r {
            assert((r + 1) * (r + 1) <= r2 * r2) by (nonlinear_arith)
                requires 0 <= r + 1 <= r2,
            ;
        }
    }
}

/// Computes the integer square root by counting up; inputs stay small (a
/// visit count), so the walk is short.
pub(crate) fn isqrt(n: u64) -> (r: u64)
    requires
        n <= 0xFFFF_FFFF,
    ensures
        r * r <= n < (r + 1) * (r + 1),
        r <= 0x1_0000,
        r as int == sqrt_nat(n as int),
{
    let mut r: u64 = 0;
    let mut sq: u64 = 1;
    while sq <= n
        invariant
            n <= 0xFFFF_FFFF,
            r <= 0x1_0000,
            r * r <= n,
            sq == (r + 1) * (r + 1),
        decreases n - r * r,
    {
        proof {
            assert(r < 0x1_0000) by (nonlinear_arith)
                requires r * r <= n, n < 0x1_0000_0000, 0 <= r,
            ;
            assert(r * r < (r + 1) * (r + 1)) by (nonlinear_arith)
                requires 0 <= r,
            ;
        }
        r = r + 1;
        proof {
            assert(((r + 1) as int) * ((r + 1) as int) <= 0x1_0001 * 0x1_0001) by (nonlinear_arith)
                requires ((r + 1) as int) <= 0x1_0001,
            ;
        }
        sq = (r + 1) * (r + 1);
    }
    proof {
        lemma_sqrt_unique(n as int, r as int);
    }
    r
}

/// The PUCT priority of a child in fixed point: the negated mean value (the
/// child stores values from its own acting player's perspective) plus an
/// exploration term weighing the prior by the parent's and child's visits,
/// with exploration constant 1.41.
pub open spec fn puct_spec(prior: int, visits: int, total: int, parent_visits: int) -> int {
    -mean_value_spec(total, visits) + (141 * prior * sqrt_nat(parent_visits) * VALUE_SCALE) / (100
        * PRIOR_SCALE as int * (1 + visits))
}

} // verus!

verus! {

/// The search tree: an append-only arena of nodes (the root at index zero)
/// and the evaluation policy that grades new leaves.
pub struct Mcts<P: MctsPolicy> {
    pub tree: Vec<Node>,
    pub policy_handler: P,
}

/// The summed visit counts of a node's children.
pub open spec fn sum_child_visits(t: Seq<Node>, cs: Seq<(Move, usize)>) -> int
    decreases cs.len(),
{
    if cs.len() == 0 {
        0
    } else {
        sum_child_visits(t, cs.drop_last()) + (if (cs.last().1 as int) < t.len() {
            t[cs.last().1 as int].visit_count as int
        } else {
            0
        })
    }
}

/// Everything that holds of one node of a well-formed tree: parent and
/// child links are in range and mutually consistent, child indices and
/// moves are unique, every child holds the position its move leads to, the
/// visit count equals the leaf hits plus the children's visits, the
/// accumulated value is bounded by the visits, and the position is sound.
pub open spec fn node_wf(t: Seq<Node>, i: int) -> bool {
    &&& (i == 0 ==> t[0].parent is None)
    &&& (i > 0 ==> (t[i].parent matches Some(p) && (p as int) < i))
    &&& forall|j: int|
        0 <= j < t[i].children@.len() ==> i < ((#[trigger] t[i].children@[j]).1 as int) < t.len()
            && t[t[i].children@[j].1 as int].parent == Some(i as usize) && legal_move(
            t[i].game_state@,
            t[i].children@[j].0,
        ) && t[t[i].children@[j].1 as int].game_state@ == apply_move_spec(
            t[i].game_state@,
            t[i].children@[j].0,
        )
    &&& forall|j1: int, j2: int|
        0 <= j1 < j2 < t[i].children@.len() ==> (#[trigger] t[i].children@[j1]).1 != (
        #[trigger] t[i].children@[j2]).1 && t[i].children@[j1].0 != t[i].children@[j2].0
    &&& (i > 0 ==> exists|j: int|
        0 <= j < t[t[i].parent->0 as int].children@.len() && (#[trigger] t[
            t[i].parent->0 as int
        ].children@[j]).1 as int == i)
    &&& t[i].visit_count as int == t[i].leaf_hits@ + sum_child_visits(t, t[i].children@)
    &&& -(t[i].visit_count as int * VALUE_BOUND as int) <= t[i].total_action_value as int <= t[
        i
    ].visit_count as int * VALUE_BOUND as int
    &&& t[i].prior_probability <= PRIOR_SCALE
    &&& state_wf(t[i].game_state@)
    &&& scores_modest(t[i].game_state@)
}

/// A well-formed arena: nonempty, every node well-formed.
pub open spec fn tree_wf(t: Seq<Node>) -> bool {
    &&& 1 <= t.len()
    &&& forall|i: int| 0 <= i < t.len() ==> #[trigger] node_wf(t, i)
}

/// A well-formed search: its arena is well-formed.
pub open spec fn mcts_wf<P: MctsPolicy>(m: Mcts<P>) -> bool {
    tree_wf(m.tree@)
}

/// The indices on the path from a node up to the root, the node itself
/// included.
pub open spec fn ancestors(t: Seq<Node>, i: int) -> Set<int>
    decreases i,
{
    if i < 0 || i >= t.len() {
        Set::<int>::empty()
    } else {
        match t[i].parent {
            None => Set::<int>::empty().insert(i),
            Some(p) => if (p as int) < i {
                ancestors(t, p as int).insert(i)
            } else {
                Set::<int>::empty().insert(i)
            },
        }
    }
}

/// Ancestors of a node lie between the root and the node.
pub proof fn lemma_ancestors_range(t: Seq<Node>, i: int)
    ensures
        forall|x: int| ancestors(t, i).contains(x) ==> 0 <= x <= i && x < t.len(),
    decreases i,
{
    if 0 <= i < t.len() {
        match t[i].parent {
            None => {},
            Some(p) => {
                if (p as int) < i {
                    lemma_ancestors_range(t, p as int);
                }
            },
        }
    }
    assert forall|x: int| ancestors(t, i).contains(x) implies 0 <= x <= i && x < t.len() by {
        if 0 <= i < t.len() {
            match t[i].parent {
                None => {},
                Some(p) => {
                    if (p as int) < i && x != i {
                        assert(ancestors(t, p as int).contains(x));
                    }
                },
            }
        }
    }
}

/// A node is its own ancestor.
pub proof fn lemma_ancestors_self(t: Seq<Node>, i: int)
    requires
        0 <= i < t.len(),
    ensures
        ancestors(t, i).contains(i),
{
}

/// The root is an ancestor of every node.
pub proof fn lemma_ancestors_root(t: Seq<Node>, i: int)
    requires
        tree_wf(t),
        0 <= i < t.len(),
    ensures
        ancestors(t, i).contains(0),
    decreases i,
{
    assert(node_wf(t, i));
    if i > 0 {
        lemma_ancestors_root(t, t[i].parent->0 as int);
    }
}

/// Every ancestor except the node itself is some ancestor's parent.
pub proof fn lemma_ancestors_pred_exists(t: Seq<Node>, s: int, i: int)
    requires
        tree_wf(t),
        0 <= s < t.len(),
        ancestors(t, s).contains(i),
        i != s,
    ensures
        exists|c: int|
            #[trigger] ancestors(t, s).contains(c) && 0 < c < t.len() && t[c].parent == Some(
                i as usize,
            ),
    decreases s,
{
    assert(node_wf(t, s));
    let p = t[s].parent->0 as int;
    if s > 0 {
        lemma_ancestors_range(t, p);
        if i == p {
            lemma_ancestors_self(t, s);
            assert(ancestors(t, s).contains(s) && 0 < s < t.len() && t[s].parent == Some(
                i as usize,
            ));
        } else {
            lemma_ancestors_pred_exists(t, p, i);
            let c = choose|c: int|
                #[trigger] ancestors(t, p).contains(c) && 0 < c < t.len() && t[c].parent == Some(
                    i as usize,
                );
            assert(ancestors(t, s).contains(c));
        }
    }
}

/// The parent of any ancestor is itself an ancestor.
pub proof fn lemma_ancestors_parent_closed(t: Seq<Node>, s: int, c: int)
    requires
        tree_wf(t),
        0 <= s < t.len(),
        ancestors(t, s).contains(c),
        c > 0,
    ensures
        ancestors(t, s).contains(t[c].parent->0 as int),
    decreases s,
{
    assert(node_wf(t, s));
    lemma_ancestors_range(t, s);
    assert(0 < c <= s && c < t.len());
    assert(node_wf(t, c));
    assert(s > 0);
    let p = t[s].parent->0 as int;
    if c == s {
        lemma_ancestors_self(t, p);
        assert(ancestors(t, s).contains(p));
    } else {
        lemma_ancestors_parent_closed(t, p, c);
    }
}

/// Two distinct ancestors of one node never share a parent: the path up is
/// a chain.
pub proof fn lemma_ancestors_parent_unique(t: Seq<Node>, s: int, c1: int, c2: int)
    requires
        tree_wf(t),
        0 <= s < t.len(),
        ancestors(t, s).contains(c1),
        ancestors(t, s).contains(c2),
        c1 > 0,
        c2 > 0,
        t[c1].parent == t[c2].parent,
    ensures
        c1 == c2,
    decreases s,
{
    assert(node_wf(t, s));
    lemma_ancestors_range(t, s);
    assert(0 < c1 <= s && c1 < t.len());
    assert(0 < c2 <= s && c2 < t.len());
    assert(node_wf(t, c1));
    assert(node_wf(t, c2));
    assert(s > 0);
    let p = t[s].parent->0 as int;
    if c1 == s && c2 == s {
    } else if c1 == s && c2 != s {
        lemma_ancestors_range(t, p);
        assert(ancestors(t, p).contains(c2));
        assert(c2 <= p);
        assert((t[c2].parent->0 as int) < c2);
        assert(t[c2].parent == Some(p as usize));
    } else if c2 == s && c1 != s {
        lemma_ancestors_range(t, p);
        assert(ancestors(t, p).contains(c1));
        assert(c1 <= p);
        assert((t[c1].parent->0 as int) < c1);
        assert(t[c1].parent == Some(p as usize));
    } else {
        lemma_ancestors_parent_unique(t, p, c1, c2);
    }
}

/// How many child entries point into a set of indices.
pub open spec fn count_children_in(cs: Seq<(Move, usize)>, a: Set<int>) -> int
    decreases cs.len(),
{
    if cs.len() == 0 {
        0
    } else {
        count_children_in(cs.drop_last(), a) + (if a.contains(cs.last().1 as int) {
            1int
        } else {
            0int
        })
    }
}

/// Summed child visits only read the children's visit counts.
pub proof fn lemma_sum_frame(t1: Seq<Node>, t2: Seq<Node>, cs: Seq<(Move, usize)>)
    requires
        t1.len() <= t2.len(),
        forall|c: int|
            0 <= c < t1.len() ==> t1[c].visit_count == t2[c].visit_count,
        forall|j: int| 0 <= j < cs.len() ==> (#[trigger] cs[j]).1 < t1.len(),
    ensures
        sum_child_visits(t1, cs) == sum_child_visits(t2, cs),
    decreases cs.len(),
{
    if cs.len() > 0 {
        lemma_sum_frame(t1, t2, cs.drop_last());
    }
}

/// When each visit count rises by one exactly on a set of indices, the
/// summed child visits rise by the number of children in the set.
pub proof fn lemma_sum_bump(t1: Seq<Node>, t2: Seq<Node>, cs: Seq<(Move, usize)>, a: Set<int>)
    requires
        t1.len() == t2.len(),
        forall|c: int|
            0 <= c < t1.len() ==> t2[c].visit_count as int == t1[c].visit_count as int + (if
            a.contains(c) {
                1int
            } else {
                0int
            }),
        forall|j: int| 0 <= j < cs.len() ==> (#[trigger] cs[j]).1 < t1.len(),
    ensures
        sum_child_visits(t2, cs) == sum_child_visits(t1, cs) + count_children_in(cs, a),
    decreases cs.len(),
{
    if cs.len() > 0 {
        lemma_sum_bump(t1, t2, cs.drop_last(), a);
    }
}

/// No child entry in the set means no change.
pub proof fn lemma_count_children_zero(cs: Seq<(Move, usize)>, a: Set<int>)
    requires
        forall|j: int| 0 <= j < cs.len() ==> !a.contains((#[trigger] cs[j]).1 as int),
    ensures
        count_children_in(cs, a) == 0,
    decreases cs.len(),
{
    if cs.len() > 0 {
        lemma_count_children_zero(cs.drop_last(), a);
    }
}

/// Exactly one child entry in the set means a rise of one.
pub proof fn lemma_count_children_one(cs: Seq<(Move, usize)>, a: Set<int>, j0: int)
    requires
        0 <= j0 < cs.len(),
        a.contains(cs[j0].1 as int),
        forall|j: int|
            0 <= j < cs.len() && j != j0 ==> !a.contains((#[trigger] cs[j]).1 as int),
    ensures
        count_children_in(cs, a) == 1,
    decreases cs.len(),
{
    if j0 == cs.len() - 1 {
        lemma_count_children_zero(cs.drop_last(), a);
    } else {
        lemma_count_children_one(cs.drop_last(), a, j0);
    }
}

/// The summed child visits dominate each child's own count.
pub proof fn lemma_sum_ge_member(t: Seq<Node>, cs: Seq<(Move, usize)>, j: int)
    requires
        0 <= j < cs.len(),
        (cs[j].1 as int) < t.len(),
        forall|k: int| 0 <= k < cs.len() ==> (#[trigger] cs[k]).1 < t.len(),
    ensures
        sum_child_visits(t, cs) >= t[cs[j].1 as int].visit_count as int,
        sum_child_visits(t, cs) >= 0,
    decreases cs.len(),
{
    lemma_sum_nonneg(t, cs);
    if j == cs.len() - 1 {
        lemma_sum_nonneg(t, cs.drop_last());
    } else {
        lemma_sum_ge_member(t, cs.drop_last(), j);
    }
}

/// Summed child visits are never negative.
pub proof fn lemma_sum_nonneg(t: Seq<Node>, cs: Seq<(Move, usize)>)
    ensures
        sum_child_visits(t, cs) >= 0,
    decreases cs.len(),
{
    if cs.len() > 0 {
        lemma_sum_nonneg(t, cs.drop_last());
    }
}

/// No node is visited more often than the root.
pub proof fn lemma_visits_le_root(t: Seq<Node>, i: int)
    requires
        tree_wf(t),
        0 <= i < t.len(),
    ensures
        t[i].visit_count <= t[0].visit_count,
    decreases i,
{
    if i > 0 {
        assert(node_wf(t, i));
        let p = t[i].parent->0 as int;
        assert(node_wf(t, p));
        let j = choose|j: int|
            0 <= j < t[p].children@.len() && (#[trigger] t[p].children@[j]).1 as int == i;
        assert(forall|k: int|
            0 <= k < t[p].children@.len() ==> (#[trigger] t[p].children@[k]).1 < t.len());
        lemma_sum_ge_member(t, t[p].children@, j);
        lemma_visits_le_root(t, p);
    }
}

/// Ancestor sets only read the parent links.
pub proof fn lemma_ancestors_frame(t1: Seq<Node>, t2: Seq<Node>, i: int)
    requires
        t1.len() == t2.len(),
        forall|k: int| 0 <= k < t1.len() ==> t1[k].parent == t2[k].parent,
    ensures
        ancestors(t1, i) == ancestors(t2, i),
    decreases i,
{
    if 0 <= i < t1.len() {
        match t1[i].parent {
            None => {
                assert(ancestors(t1, i) =~= ancestors(t2, i));
            },
            Some(p) => {
                if (p as int) < i {
                    lemma_ancestors_frame(t1, t2, p as int);
                }
                assert(ancestors(t1, i) =~= ancestors(t2, i));
            },
        }
    } else {
        assert(ancestors(t1, i) =~= ancestors(t2, i));
    }
}

} // verus!

verus! {

impl<P: MctsPolicy> Mcts<P> {
    /// Walks from the selected leaf to the root, counting one visit at
    /// every node on the path and accumulating the leaf evaluation: added
    /// where the acting player matches the leaf's, subtracted where it is
    /// an opponent's turn.
    #[verifier::rlimit(100)]
    fn backpropagation(&mut self, start_idx: usize, value: i64)
        requires
            tree_wf(old(self).tree@),
            start_idx < old(self).tree@.len(),
            -VALUE_BOUND <= value <= VALUE_BOUND,
            old(self).tree@[0].visit_count < u32::MAX,
        ensures
            tree_wf(final(self).tree@),
            final(self).tree@.len() == old(self).tree@.len(),
            final(self).policy_handler == old(self).policy_handler,
            forall|i: int|
                0 <= i < old(self).tree@.len() ==> (#[trigger] final(self).tree@[i]).parent == old(self).tree@[i].parent && final(self).tree@[i].children == old(self).tree@[i].children
                    && final(self).tree@[i].prior_probability == old(self).tree@[i].prior_probability && final(self).tree@[i].game_state == old(self).tree@[i].game_state,
            forall|i: int|
                0 <= i < old(self).tree@.len() ==> (#[trigger] final(self).tree@[i]).visit_count
                    as int == old(self).tree@[i].visit_count as int + (if ancestors(
                    old(self).tree@,
                    start_idx as int,
                ).contains(i) {
                    1int
                } else {
                    0int
                }),
            final(self).tree@[start_idx as int].leaf_hits@ == old(self).tree@[
                start_idx as int
            ].leaf_hits@ + 1,
            forall|i: int|
                0 <= i < old(self).tree@.len() && i != start_idx ==> (#[trigger] final(self).tree@[i]).leaf_hits@ == old(self).tree@[i].leaf_hits@,
            forall|i: int|
                0 <= i < old(self).tree@.len() ==> (#[trigger] final(self).tree@[i]).total_action_value
                    as int == old(self).tree@[i].total_action_value as int + (if ancestors(
                    old(self).tree@,
                    start_idx as int,
                ).contains(i) {
                    if old(self).tree@[i].game_state@.current_player_idx == old(self).tree@[
                        start_idx as int
                    ].game_state@.current_player_idx {
                        value as int
                    } else {
                        -(value as int)
                    }
                } else {
                    0int
                }),
            final(self).tree@[0].visit_count == old(self).tree@[0].visit_count + 1,
    {
        let ghost t0 = self.tree@;
        let ghost anc = ancestors(t0, start_idx as int);
        proof {
            lemma_ancestors_root(t0, start_idx as int);
            lemma_ancestors_range(t0, start_idx as int);
            lemma_ancestors_self(t0, start_idx as int);
        }
        let player_at_leaf = self.tree[start_idx].game_state.current_player_idx;
        let leaf_node = &mut self.tree[start_idx];
        let ghost lh = leaf_node.leaf_hits@;
        leaf_node.leaf_hits = Ghost(lh + 1);
        let mut current_idx_opt: Option<usize> = Some(start_idx);
        while current_idx_opt.is_some()
            invariant
                tree_wf(t0),
                start_idx < t0.len(),
                -VALUE_BOUND <= value <= VALUE_BOUND,
                t0[0].visit_count < u32::MAX,
                anc == ancestors(t0, start_idx as int),
                player_at_leaf == t0[start_idx as int].game_state@.current_player_idx,
                self.tree@.len() == t0.len(),
                self.policy_handler == old(self).policy_handler,
                forall|i: int|
                    0 <= i < t0.len() ==> (#[trigger] self.tree@[i]).parent == t0[i].parent
                        && self.tree@[i].children == t0[i].children
                        && self.tree@[i].prior_probability == t0[i].prior_probability
                        && self.tree@[i].game_state == t0[i].game_state,
                self.tree@[start_idx as int].leaf_hits@ == t0[start_idx as int].leaf_hits@ + 1,
                forall|i: int|
                    0 <= i < t0.len() && i != start_idx ==> (#[trigger] self.tree@[i]).leaf_hits@
                        == t0[i].leaf_hits@,
                current_idx_opt matches Some(idx) ==> (idx as int) < t0.len() && anc.contains(
                    idx as int,
                ) && ancestors(t0, idx as int) <= anc,
                forall|i: int|
                    0 <= i < t0.len() ==> (#[trigger] self.tree@[i]).visit_count as int == t0[
                        i
                    ].visit_count as int + (if anc.contains(i) && !(match current_idx_opt {
                        Some(idx) => ancestors(t0, idx as int).contains(i),
                        None => false,
                    }) {
                        1int
                    } else {
                        0int
                    }),
                forall|i: int|
                    0 <= i < t0.len() ==> (#[trigger] self.tree@[i]).total_action_value as int
                        == t0[i].total_action_value as int + (if anc.contains(i) && !(match
                    current_idx_opt {
                        Some(idx) => ancestors(t0, idx as int).contains(i),
                        None => false,
                    }) {
                        if t0[i].game_state@.current_player_idx == player_at_leaf {
                            value as int
                        } else {
                            -(value as int)
                        }
                    } else {
                        0int
                    }),
            decreases (match current_idx_opt {
                Some(idx) => idx as int + 1,
                None => 0int,
            }),
        {
            let idx = match current_idx_opt {
                Some(idx) => idx,
                None => {
                    proof {
                        assert(false);
                    }
                    0
                },
            };
            proof {
                assert(node_wf(t0, idx as int));
                lemma_ancestors_self(t0, idx as int);
                lemma_ancestors_range(t0, idx as int);
                lemma_visits_le_root(t0, idx as int);
                if idx > 0 {
                    let p = t0[idx as int].parent->0 as int;
                    lemma_ancestors_range(t0, p);
                }
            }
            let node = &mut self.tree[idx];
            node.visit_count = node.visit_count + 1;
            proof {
                let vi = t0[idx as int].visit_count as int;
                let vb = VALUE_BOUND as int;
                assert(vi * vb <= 0xFFFF_FFFF * vb) by (nonlinear_arith)
                    requires 0 <= vi <= 0xFFFF_FFFF, 0 <= vb,
                ;
            }
            if node.game_state.current_player_idx == player_at_leaf {
                node.total_action_value = node.total_action_value + value as i128;
            } else {
                node.total_action_value = node.total_action_value - value as i128;
            }
            current_idx_opt = node.parent;
            proof {
                if idx > 0 {
                    let p = t0[idx as int].parent->0 as int;
                    lemma_ancestors_parent_closed(t0, start_idx as int, idx as int);
                    assert(ancestors(t0, idx as int) == ancestors(t0, p).insert(idx as int));
                    lemma_ancestors_range(t0, p);
                    assert(!ancestors(t0, p).contains(idx as int));
                }
            }
        }
        proof {
            let t2 = self.tree@;
            assert forall|i: int| 0 <= i < t2.len() implies #[trigger] node_wf(t2, i) by {
                assert(node_wf(t0, i));
                assert(forall|j: int|
                    0 <= j < t0[i].children@.len() ==> (#[trigger] t0[i].children@[j]).1
                        < t0.len());
                lemma_sum_bump(t0, t2, t0[i].children@, anc);
                if !anc.contains(i) {
                    assert forall|j: int|
                        0 <= j < t0[i].children@.len() implies !anc.contains(
                        (#[trigger] t0[i].children@[j]).1 as int,
                    ) by {
                        let c = t0[i].children@[j].1 as int;
                        if anc.contains(c) {
                            assert(t0[c].parent == Some(i as usize));
                            lemma_ancestors_parent_closed(t0, start_idx as int, c);
                        }
                    }
                    lemma_count_children_zero(t0[i].children@, anc);
                } else if i == start_idx {
                    lemma_ancestors_range(t0, start_idx as int);
                    assert forall|j: int|
                        0 <= j < t0[i].children@.len() implies !anc.contains(
                        (#[trigger] t0[i].children@[j]).1 as int,
                    ) by {
                        let c = t0[i].children@[j].1 as int;
                        assert(c > i);
                    }
                    lemma_count_children_zero(t0[i].children@, anc);
                } else {
                    lemma_ancestors_pred_exists(t0, start_idx as int, i);
                    let c = choose|c: int|
                        #[trigger] ancestors(t0, start_idx as int).contains(c) && 0 < c < t0.len()
                            && t0[c].parent == Some(i as usize);
                    assert(node_wf(t0, c));
                    let j0 = choose|j: int|
                        0 <= j < t0[t0[c].parent->0 as int].children@.len() && (#[trigger] t0[
                            t0[c].parent->0 as int
                        ].children@[j]).1 as int == c;
                    assert(t0[i].children@[j0].1 as int == c);
                    assert forall|j: int|
                        0 <= j < t0[i].children@.len() && j != j0 implies !anc.contains(
                        (#[trigger] t0[i].children@[j]).1 as int,
                    ) by {
                        let c2 = t0[i].children@[j].1 as int;
                        if anc.contains(c2) {
                            assert(t0[c2].parent == Some(i as usize));
                            assert(c2 != c);
                            lemma_ancestors_parent_unique(t0, start_idx as int, c, c2);
                        }
                    }
                    lemma_count_children_one(t0[i].children@, anc, j0);
                }
            }
        }
    }
}

} // verus!

verus! {

use crate::state::{
    lemma_legal_move_in_range, lemma_apply_move_preserves_scores, players_eq,
};

impl<P: MctsPolicy> Mcts<P> {
    /// Builds a one-node tree around the given position.
    pub fn new(initial_state: GameState, policy_handler: P) -> (r: Mcts<P>)
        requires
            state_wf(initial_state@),
            scores_modest(initial_state@),
        ensures
            mcts_wf(r),
            r.tree@.len() == 1,
            r.tree@[0].children@.len() == 0,
            r.tree@[0].visit_count == 0,
            r.tree@[0].leaf_hits@ == 0,
            r.tree@[0].total_action_value == 0,
            r.tree@[0].prior_probability == PRIOR_SCALE,
            r.tree@[0].game_state@ == initial_state@,
            r.policy_handler == policy_handler,
    {
        let mut tree: Vec<Node> = Vec::new();
        tree.push(Node::new(None, PRIOR_SCALE, initial_state));
        let r = Mcts { tree, policy_handler };
        proof {
            assert(node_wf(r.tree@, 0));
        }
        r
    }

    /// The PUCT priority of a node against its parent's visit count.
    fn puct_score(&self, node_idx: usize, parent_visit_count: u32) -> (r: i128)
        requires
            tree_wf(self.tree@),
            node_idx < self.tree@.len(),
        ensures
            r == puct_spec(
                self.tree@[node_idx as int].prior_probability as int,
                self.tree@[node_idx as int].visit_count as int,
                self.tree@[node_idx as int].total_action_value as int,
                parent_visit_count as int,
            ),
    {
        proof {
            assert(node_wf(self.tree@, node_idx as int));
        }
        let node = &self.tree[node_idx];
        let q = -node.mean_action_value();
        let sqrt_parent = isqrt(parent_visit_count as u64);
        proof {
            let pr = node.prior_probability as int;
            let sq = sqrt_parent as int;
            assert((141 * pr) * sq <= 141000000 * 0x1_0000) by (nonlinear_arith)
                requires 0 <= pr <= 1000000, 0 <= sq <= 0x1_0000,
            ;
        }
        let numerator: i128 = 141 * (node.prior_probability as i128) * (sqrt_parent as i128) * (
        VALUE_SCALE as i128);
        let denominator: i128 = 100 * (PRIOR_SCALE as i128) * (1 + node.visit_count as i128);
        q + numerator / denominator
    }

    /// The child of a node with the highest PUCT priority; on equal
    /// priorities the later child wins.
    fn best_child(&self, node_idx: usize) -> (r: usize)
        requires
            tree_wf(self.tree@),
            node_idx < self.tree@.len(),
            self.tree@[node_idx as int].children@.len() > 0,
        ensures
            node_idx < r < self.tree@.len(),
            exists|j: int|
                0 <= j < self.tree@[node_idx as int].children@.len() && (#[trigger] self.tree@[
                    node_idx as int
                ].children@[j]).1 == r && (forall|k: int|
                    0 <= k < self.tree@[node_idx as int].children@.len() ==> child_puct(
                        self.tree@,
                        node_idx as int,
                        k,
                    ) <= child_puct(self.tree@, node_idx as int, j)),
    {
        proof {
            assert(node_wf(self.tree@, node_idx as int));
        }
        let parent_visits = self.tree[node_idx].visit_count;
        let n_children = self.tree[node_idx].children.len();
        let mut best_idx: usize = self.tree[node_idx].children[0].1;
        let mut best_score = self.puct_score(best_idx, parent_visits);
        let ghost best_j = 0int;
        let mut k: usize = 1;
        while k < n_children
            invariant
                tree_wf(self.tree@),
                node_idx < self.tree@.len(),
                n_children == self.tree@[node_idx as int].children@.len(),
                parent_visits == self.tree@[node_idx as int].visit_count,
                1 <= k <= n_children,
                0 <= best_j < k,
                self.tree@[node_idx as int].children@[best_j].1 == best_idx,
                best_score == child_puct(self.tree@, node_idx as int, best_j),
                forall|k2: int|
                    0 <= k2 < k ==> child_puct(self.tree@, node_idx as int, k2) <= best_score,
            decreases n_children - k,
        {
            proof {
                assert(node_wf(self.tree@, node_idx as int));
            }
            let c = self.tree[node_idx].children[k].1;
            let score = self.puct_score(c, parent_visits);
            if score >= best_score {
                best_idx = c;
                best_score = score;
                proof {
                    best_j = k as int;
                }
            }
            k = k + 1;
        }
        proof {
            assert(node_wf(self.tree@, node_idx as int));
        }
        best_idx
    }

    /// Walks from the root along highest-priority children until reaching a
    /// node with no children yet; the walk is a descent that maximizes the
    /// PUCT priority at every step.
    fn selection(&self) -> (r: usize)
        requires
            tree_wf(self.tree@),
        ensures
            r < self.tree@.len(),
            self.tree@[r as int].children@.len() == 0,
            exists|path: Seq<int>|
                #[trigger] selection_path(self.tree@, path) && path.last() == r as int,
    {
        let mut current_idx: usize = 0;
        let ghost mut path: Seq<int> = seq![0int];
        while self.tree[current_idx].children.len() > 0
            invariant
                tree_wf(self.tree@),
                current_idx < self.tree@.len(),
                selection_path(self.tree@, path),
                path.last() == current_idx as int,
            decreases self.tree@.len() - current_idx,
        {
            let next = self.best_child(current_idx);
            proof {
                let t = self.tree@;
                let p2 = path.push(next as int);
                assert forall|k: int| 0 <= k < p2.len() - 1 implies exists|j: int|
                    0 <= j < t[#[trigger] p2[k]].children@.len() && t[p2[k]].children@[j].1 as int
                        == p2[k + 1] && (forall|j2: int|
                        0 <= j2 < t[p2[k]].children@.len() ==> child_puct(t, p2[k], j2)
                            <= child_puct(t, p2[k], j)) by {
                    if k < path.len() - 1 {
                        assert(p2[k] == path[k] && p2[k + 1] == path[k + 1]);
                        assert(exists|j: int|
                            0 <= j < t[path[k]].children@.len() && t[path[k]].children@[j].1 as int
                                == path[k + 1] && (forall|j2: int|
                                0 <= j2 < t[path[k]].children@.len() ==> child_puct(t, path[k], j2)
                                    <= child_puct(t, path[k], j)));
                    } else {
                        assert(p2[k] == current_idx as int && p2[k + 1] == next as int);
                    }
                }
                path = p2;
            }
            current_idx = next;
        }
        proof {
            assert(selection_path(self.tree@, path) && path.last() == current_idx as int);
        }
        current_idx
    }

    /// Expands a leaf in one shot: evaluates its position, then creates one
    /// child per returned move, each holding the position its move leads to
    /// and the prior the policy assigned.  Returns the leaf's value
    /// estimate.
    #[verifier::rlimit(100)]
    fn expansion(&mut self, leaf_idx: usize) -> (value: i64)
        requires
            tree_wf(old(self).tree@),
            leaf_idx < old(self).tree@.len(),
            old(self).tree@[leaf_idx as int].children@.len() == 0,
        ensures
            tree_wf(final(self).tree@),
            final(self).tree@.len() >= old(self).tree@.len(),
            final(self).policy_handler == old(self).policy_handler,
            -VALUE_BOUND <= value <= VALUE_BOUND,
            forall|i: int|
                0 <= i < old(self).tree@.len() ==> (#[trigger] final(self).tree@[i]).visit_count
                    == old(self).tree@[i].visit_count && final(self).tree@[i].total_action_value
                    == old(self).tree@[i].total_action_value && final(self).tree@[i].leaf_hits@
                    == old(self).tree@[i].leaf_hits@ && final(self).tree@[i].parent == old(self).tree@[i].parent && final(self).tree@[i].prior_probability == old(self).tree@[i].prior_probability && final(self).tree@[i].game_state == old(self).tree@[i].game_state,
            forall|i: int|
                0 <= i < old(self).tree@.len() && i != leaf_idx ==> (#[trigger] final(self).tree@[i]).children == old(self).tree@[i].children,
            forall|i: int|
                old(self).tree@.len() <= i < final(self).tree@.len() ==> (#[trigger] final(self).tree@[i]).visit_count == 0 && final(self).tree@[i].leaf_hits@ == 0,
            final(self).tree@.len() == old(self).tree@.len() + final(self).tree@[
                leaf_idx as int
            ].children@.len(),
            forall|j: int|
                0 <= j < final(self).tree@[leaf_idx as int].children@.len() ==> (#[trigger] final(self).tree@[leaf_idx as int].children@[j]).1 as int == old(self).tree@.len() + j
                    && final(self).tree@[old(self).tree@.len() + j].parent == Some(leaf_idx)
                    && final(self).tree@[old(self).tree@.len() + j].game_state@ == apply_move_spec(
                    old(self).tree@[leaf_idx as int].game_state@,
                    final(self).tree@[leaf_idx as int].children@[j].0,
                ),
            forall|m: Move|
                #[trigger] legal_move(old(self).tree@[leaf_idx as int].game_state@, m)
                    <==> (exists|j: int|
                    0 <= j < final(self).tree@[leaf_idx as int].children@.len() && (
                    #[trigger] final(self).tree@[leaf_idx as int].children@[j]).0 == m),
            exists|s_arg: GameState, pol: (i64, Vec<(Move, u64)>)|
                s_arg@ == old(self).tree@[leaf_idx as int].game_state@ && #[trigger] call_ensures(
                    P::evaluate,
                    (&old(self).policy_handler, &s_arg),
                    pol,
                ) && value == pol.0 && final(self).tree@[leaf_idx as int].children@.len()
                    == pol.1@.len() && (forall|j: int|
                    0 <= j < pol.1@.len() ==> (#[trigger] final(self).tree@[
                        leaf_idx as int
                    ].children@[j]).0 == pol.1@[j].0 && final(self).tree@[old(self).tree@.len()
                        + j].prior_probability == pol.1@[j].1),
    {
        let ghost t0 = self.tree@;
        let ghost n0 = t0.len() as int;
        proof {
            assert(node_wf(t0, leaf_idx as int));
        }
        let leaf_state = self.tree[leaf_idx].game_state.clone();
        let evaluated = self.policy_handler.evaluate(&leaf_state);
        proof {
            assert(call_ensures(P::evaluate, (&self.policy_handler, &leaf_state), evaluated));
        }
        let value = evaluated.0;
        let policy = evaluated.1;
        let n_moves = policy.len();
        let mut k: usize = 0;
        while k < n_moves
            invariant
                tree_wf(self.tree@),
                leaf_idx < n0,
                n0 == t0.len(),
                tree_wf(t0),
                t0[leaf_idx as int].children@.len() == 0,
                leaf_state@ == t0[leaf_idx as int].game_state@,
                state_wf(leaf_state@),
                scores_modest(leaf_state@),
                n_moves == policy@.len(),
                k <= n_moves,
                forall|j: int|
                    0 <= j < policy@.len() ==> legal_move(leaf_state@, (#[trigger] policy@[j]).0)
                        && policy@[j].1 <= PRIOR_SCALE,
                forall|j1: int, j2: int|
                    0 <= j1 < j2 < policy@.len() ==> policy@[j1].0 != policy@[j2].0,
                self.policy_handler == old(self).policy_handler,
                self.tree@.len() == n0 + k,
                forall|i: int|
                    0 <= i < n0 ==> (#[trigger] self.tree@[i]).visit_count == t0[i].visit_count
                        && self.tree@[i].total_action_value == t0[i].total_action_value
                        && self.tree@[i].leaf_hits@ == t0[i].leaf_hits@ && self.tree@[i].parent
                        == t0[i].parent && self.tree@[i].prior_probability == t0[
                        i
                    ].prior_probability && self.tree@[i].game_state == t0[i].game_state,
                forall|i: int|
                    0 <= i < n0 && i != leaf_idx ==> (#[trigger] self.tree@[i]).children == t0[
                        i
                    ].children,
                self.tree@[leaf_idx as int].children@.len() == k,
                forall|j: int|
                    0 <= j < k ==> (#[trigger] self.tree@[leaf_idx as int].children@[j]).0
                        == policy@[j].0 && self.tree@[leaf_idx as int].children@[j].1 as int == n0
                        + j,
                forall|i: int|
                    n0 <= i < n0 + k ==> (#[trigger] self.tree@[i]).visit_count == 0
                        && self.tree@[i].leaf_hits@ == 0 && self.tree@[i].parent == Some(leaf_idx)
                        && self.tree@[i].game_state@ == apply_move_spec(
                        leaf_state@,
                        policy@[i - n0].0,
                    ) && self.tree@[i].total_action_value == 0
                        && self.tree@[i].prior_probability == policy@[i - n0].1,
            decreases n_moves - k,
        {
            let ghost t_before = self.tree@;
            let m = policy[k].0;
            let prior = policy[k].1;
            let mut new_state = leaf_state.clone();
            proof {
                lemma_legal_move_in_range(leaf_state@, m);
            }
            new_state.apply_move(&m);
            proof {
                lemma_apply_move_preserves_scores(leaf_state@, m);
            }
            let new_node_idx = self.tree.len();
            self.tree.push(Node::new(Some(leaf_idx), prior, new_state));
            let leaf_node = &mut self.tree[leaf_idx];
            leaf_node.children.push((m, new_node_idx));
            proof {
                let t2 = self.tree@;
                let leaf = leaf_idx as int;
                let nk = n0 + k;
                assert(t2.len() == nk + 1);
                assert(forall|c: int|
                    0 <= c < t_before.len() && c != leaf ==> t2[c] == t_before[c]);
                assert(t2[leaf].parent == t_before[leaf].parent && t2[leaf].game_state
                    == t_before[leaf].game_state && t2[leaf].visit_count == t_before[
                    leaf
                ].visit_count && t2[leaf].leaf_hits == t_before[leaf].leaf_hits && t2[
                    leaf
                ].prior_probability == t_before[leaf].prior_probability && t2[
                    leaf
                ].total_action_value == t_before[leaf].total_action_value);
                assert(t2[leaf].children@ =~= t_before[leaf].children@.push(
                    (m, new_node_idx),
                ));
                assert(forall|c: int|
                    0 <= c < t_before.len() ==> (#[trigger] t2[c]).visit_count == t_before[
                        c
                    ].visit_count && t2[c].parent == t_before[c].parent && t2[c].game_state
                        == t_before[c].game_state);
                assert forall|i: int| 0 <= i < t2.len() implies #[trigger] node_wf(t2, i) by {
                    if i < nk {
                        assert(node_wf(t_before, i));
                        assert(forall|j: int|
                            0 <= j < t_before[i].children@.len() ==> (#[trigger] t_before[
                                i
                            ].children@[j]).1 < t_before.len());
                        lemma_sum_frame(t_before, t2, t_before[i].children@);
                        if i != leaf {
                            assert(t2[i].children == t_before[i].children);
                            assert(t2[i].visit_count as int == t2[i].leaf_hits@
                                + sum_child_visits(t2, t2[i].children@));
                            if i > 0 {
                                let p = t2[i].parent->0 as int;
                                assert(node_wf(t_before, i));
                                let j = choose|j: int|
                                    0 <= j < t_before[p].children@.len() && (#[trigger] t_before[
                                        p
                                    ].children@[j]).1 as int == i;
                                assert(t2[p].children@[j].1 as int == i);
                            }
                            assert(node_wf(t2, i));
                        } else {
                            assert(t2[i].children@.drop_last() =~= t_before[i].children@);
                            assert(sum_child_visits(t2, t2[i].children@) == sum_child_visits(
                                t2,
                                t_before[i].children@,
                            ) + t2[nk].visit_count);
                            assert(t2[nk].visit_count == 0);
                            assert(t2[i].visit_count as int == t2[i].leaf_hits@
                                + sum_child_visits(t2, t2[i].children@));
                            // the new child entry is sound
                            assert(t2[i].children@[k as int] == (m, new_node_idx));
                            assert(t2[i].game_state@ == leaf_state@);
                            assert(legal_move(t2[i].game_state@, m));
                            assert(t2[nk].game_state@ == apply_move_spec(t2[i].game_state@, m));
                            assert(t2[nk].parent == Some(leaf_idx));
                            // older entries still point at their children
                            assert(forall|j: int|
                                0 <= j < k ==> (#[trigger] t2[i].children@[j]) == t_before[
                                    i
                                ].children@[j]);
                            assert forall|j1: int, j2: int|
                                0 <= j1 < j2 < t2[i].children@.len() implies (#[trigger] t2[
                                i
                            ].children@[j1]).1 != (#[trigger] t2[i].children@[j2]).1 && t2[
                                i
                            ].children@[j1].0 != t2[i].children@[j2].0 by {
                                if j2 < k {
                                } else {
                                    assert(t2[i].children@[j1].1 as int == n0 + j1);
                                    assert(t2[i].children@[j1].0 == policy@[j1].0);
                                    assert(t2[i].children@[j2] == (m, new_node_idx));
                                }
                            }
                            if i > 0 {
                                let p = t2[i].parent->0 as int;
                                let j = choose|j: int|
                                    0 <= j < t_before[p].children@.len() && (#[trigger] t_before[
                                        p
                                    ].children@[j]).1 as int == i;
                                assert(t2[p].children@[j].1 as int == i);
                            }
                            assert(node_wf(t2, i));
                        }
                    } else {
                        assert(t2[i].children@.len() == 0);
                        assert(t2[i].visit_count == 0);
                        assert(t2[i].leaf_hits@ == 0);
                        assert(t2[i].parent == Some(leaf_idx));
                        assert(t2[leaf].children@[k as int].1 as int == i);
                        assert(node_wf(t2, i));
                    }
                }
            }
            k = k + 1;
        }
        proof {
            assert forall|m: Move|
                #[trigger] legal_move(t0[leaf_idx as int].game_state@, m) implies (exists|j: int|
                0 <= j < self.tree@[leaf_idx as int].children@.len() && (#[trigger] self.tree@[
                leaf_idx as int
            ].children@[j]).0 == m) by {
                assert(legal_move(leaf_state@, m));
                let j = choose|j: int| 0 <= j < policy@.len() && policy@[j].0 == m;
                assert(self.tree@[leaf_idx as int].children@[j].0 == m);
            }
            assert forall|m: Move| (exists|j: int|
                0 <= j < self.tree@[leaf_idx as int].children@.len() && (#[trigger] self.tree@[
                leaf_idx as int
            ].children@[j]).0 == m) implies #[trigger] legal_move(
                t0[leaf_idx as int].game_state@,
                m,
            ) by {
                let j = choose|j: int|
                    0 <= j < self.tree@[leaf_idx as int].children@.len() && (#[trigger] self.tree@[
                    leaf_idx as int
                ].children@[j]).0 == m;
                assert(legal_move(leaf_state@, policy@[j].0));
            }
            assert((value, policy) == evaluated);
            assert(call_ensures(
                P::evaluate,
                (&old(self).policy_handler, &leaf_state),
                (value, policy),
            ));
        }
        value
    }

    /// Runs the given number of search iterations: each selects a leaf by
    /// PUCT, expands it with the policy's moves, and backpropagates the
    /// policy's value estimate along the path.  The root gains exactly one
    /// visit per iteration; the arena is append-only, every existing node
    /// keeping its position, links and prior; and a root without legal
    /// moves gains no children — every iteration ends at it.
    pub fn run_search(&mut self, iterations: u32)
        requires
            mcts_wf(*old(self)),
            old(self).tree@[0].visit_count + iterations <= u32::MAX,
        ensures
            mcts_wf(*final(self)),
            final(self).tree@.len() >= old(self).tree@.len(),
            final(self).tree@[0].visit_count == old(self).tree@[0].visit_count + iterations,
            final(self).tree@[0].game_state == old(self).tree@[0].game_state,
            final(self).policy_handler == old(self).policy_handler,
            forall|i: int|
                0 <= i < old(self).tree@.len() ==> (#[trigger] final(self).tree@[i]).parent == old(self).tree@[i].parent && final(self).tree@[i].game_state == old(self).tree@[
                    i
                ].game_state && final(self).tree@[i].prior_probability == old(self).tree@[
                    i
                ].prior_probability,
            forall|i: int|
                0 <= i < old(self).tree@.len() ==> (#[trigger] final(self).tree@[i]).children@.len()
                    >= old(self).tree@[i].children@.len() && final(self).tree@[i].children@.take(
                    old(self).tree@[i].children@.len() as int,
                ) == old(self).tree@[i].children@,
            (old(self).tree@[0].children@.len() == 0 && (forall|m: Move|
                !legal_move(old(self).tree@[0].game_state@, m))) ==> final(self).tree@.len()
                == old(self).tree@.len() && final(self).tree@[0].children@.len() == 0,
            (old(self).tree@[0].children@.len() == 0 && iterations >= 1 && (exists|m: Move|
                legal_move(old(self).tree@[0].game_state@, m))) ==> final(self).tree@[0].children@.len() > 0,
            (old(self).tree@[0].children@.len() == 0 && iterations >= 1 && (exists|m: Move|
                legal_move(old(self).tree@[0].game_state@, m))) ==> final(self).tree@[0].leaf_hits@ == old(self).tree@[0].leaf_hits@ + 1,
            (old(self).tree@[0].children@.len() == 0 && (forall|m: Move|
                !legal_move(old(self).tree@[0].game_state@, m))) ==> final(self).tree@[0].leaf_hits@ == old(self).tree@[0].leaf_hits@ + iterations,
    {
        let ghost t0 = old(self).tree@;
        let mut i: u32 = 0;
        while i < iterations
            invariant
                i <= iterations,
                mcts_wf(*self),
                t0 == old(self).tree@,
                tree_wf(t0),
                self.tree@.len() >= t0.len(),
                self.tree@[0].visit_count == t0[0].visit_count + i,
                t0[0].visit_count + iterations <= u32::MAX,
                self.tree@[0].game_state == t0[0].game_state,
                self.policy_handler == old(self).policy_handler,
                forall|k: int|
                    0 <= k < t0.len() ==> (#[trigger] self.tree@[k]).parent == t0[k].parent
                        && self.tree@[k].game_state == t0[k].game_state
                        && self.tree@[k].prior_probability == t0[k].prior_probability,
                forall|k: int|
                    0 <= k < t0.len() ==> (#[trigger] self.tree@[k]).children@.len() >= t0[
                        k
                    ].children@.len() && self.tree@[k].children@.take(t0[k].children@.len() as int)
                        == t0[k].children@,
                (t0[0].children@.len() == 0 && (forall|m: Move|
                    !legal_move(t0[0].game_state@, m))) ==> self.tree@.len() == t0.len()
                    && self.tree@[0].children@.len() == 0,
                (t0[0].children@.len() == 0 && i >= 1 && (exists|m: Move|
                    legal_move(t0[0].game_state@, m))) ==> self.tree@[0].children@.len() > 0,
                (t0[0].children@.len() == 0 && (exists|m: Move|
                    legal_move(t0[0].game_state@, m))) ==> self.tree@[0].leaf_hits@ == t0[
                    0
                ].leaf_hits@ + (if i >= 1 {
                    1nat
                } else {
                    0nat
                }),
                (t0[0].children@.len() == 0 && (forall|m: Move|
                    !legal_move(t0[0].game_state@, m))) ==> self.tree@[0].leaf_hits@ == t0[
                    0
                ].leaf_hits@ + i,
                i == 0 ==> self.tree@ == t0,
            decreases iterations - i,
        {
            let ghost t_it = self.tree@;
            let leaf_idx = self.selection();
            let value = self.expansion(leaf_idx);
            proof {
                // existing children only gain entries
                assert forall|k: int|
                    0 <= k < t0.len() implies (#[trigger] self.tree@[k]).children@.len() >= t0[
                    k
                ].children@.len() && self.tree@[k].children@.take(t0[k].children@.len() as int)
                    == t0[k].children@ by {
                    if k != leaf_idx {
                        assert(self.tree@[k].children == t_it[k].children);
                    } else {
                        // a selected leaf had no children, so none were on
                        // record before this call either
                        assert(t_it[k].children@.len() == 0);
                        assert(t0[k].children@.len() <= t_it[k].children@.len());
                        assert(self.tree@[k].children@.take(0) =~= Seq::<(Move, usize)>::empty());
                        assert(t0[k].children@ =~= Seq::<(Move, usize)>::empty());
                    }
                }
                if t0[0].children@.len() == 0 && (forall|m: Move|
                    !legal_move(t0[0].game_state@, m)) {
                    assert(t_it.len() == t0.len());
                    assert(t_it[0].children@.len() == 0);
                    lemma_childless_root_is_alone(t_it);
                    assert(leaf_idx == 0);
                    assert(t_it[0].game_state@ == t0[0].game_state@);
                    assert(self.tree@[0].children@.len() == 0) by {
                        if self.tree@[0].children@.len() > 0 {
                            let m0 = self.tree@[0].children@[0].0;
                            assert(exists|j: int|
                                0 <= j < self.tree@[0].children@.len() && (#[trigger] self.tree@[
                                0
                            ].children@[j]).0 == m0);
                            assert(legal_move(t_it[0].game_state@, m0));
                        }
                    }
                    assert(self.tree@.len() == t_it.len());
                }
                if t0[0].children@.len() == 0 && (exists|m: Move|
                    legal_move(t0[0].game_state@, m)) && i == 0 {
                    assert(t_it == t0);
                    lemma_childless_root_is_alone(t_it);
                    assert(leaf_idx == 0);
                    let m = choose|m: Move| legal_move(t0[0].game_state@, m);
                    assert(legal_move(t_it[0].game_state@, m));
                    assert(self.tree@[0].children@.len() > 0);
                }
                if t0[0].children@.len() == 0 && (exists|m: Move|
                    legal_move(t0[0].game_state@, m)) && i >= 1 {
                    assert(t_it[0].children@.len() > 0);
                    if leaf_idx == 0 {
                        assert(t_it[0].children@.len() == 0);
                    }
                    assert(self.tree@[0].children == t_it[0].children);
                }
            }
            let ghost leaf_was_root = leaf_idx == 0;
            self.backpropagation(leaf_idx, value);
            proof {
                // an expanded root stops being a leaf, so it takes exactly
                // one direct visit over the whole batch when moves exist —
                // and every visit when none do
                if t0[0].children@.len() == 0 && (exists|m: Move|
                    legal_move(t0[0].game_state@, m)) {
                    if i == 0 {
                        assert(leaf_was_root);
                        assert(self.tree@[0].leaf_hits@ == t0[0].leaf_hits@ + 1);
                    } else {
                        assert(!leaf_was_root);
                        assert(self.tree@[0].leaf_hits@ == t0[0].leaf_hits@ + 1);
                    }
                }
                if t0[0].children@.len() == 0 && (forall|m: Move|
                    !legal_move(t0[0].game_state@, m)) {
                    assert(leaf_was_root);
                    assert(self.tree@[0].leaf_hits@ == t0[0].leaf_hits@ + i + 1);
                }
            }
            i = i + 1;
        }
    }

    /// The move of the root's most visited child; on equal visit counts the
    /// later child wins.  Nothing is returned while the root has no
    /// children.
    pub fn best_move(&self) -> (r: Option<Move>)
        requires
            mcts_wf(*self),
        ensures
            r is None <==> self.tree@[0].children@.len() == 0,
            r matches Some(m) ==> legal_move(self.tree@[0].game_state@, m),
            r matches Some(m) ==> exists|j: int|
                0 <= j < self.tree@[0].children@.len() && (#[trigger] self.tree@[0].children@[j]).0
                    == m && (forall|k: int|
                    0 <= k < self.tree@[0].children@.len() ==> self.tree@[(
                    #[trigger] self.tree@[0].children@[k]).1 as int].visit_count <= self.tree@[
                        self.tree@[0].children@[j].1 as int
                    ].visit_count),
    {
        proof {
            assert(node_wf(self.tree@, 0));
        }
        let n_children = self.tree[0].children.len();
        if n_children == 0 {
            return None;
        }
        let mut best_k: usize = 0;
        let mut best_visits = self.tree[self.tree[0].children[0].1].visit_count;
        let mut k: usize = 1;
        while k < n_children
            invariant
                mcts_wf(*self),
                n_children == self.tree@[0].children@.len(),
                1 <= k <= n_children,
                best_k < k,
                best_visits == self.tree@[self.tree@[0].children@[best_k as int].1 as int].visit_count,
                forall|k2: int|
                    0 <= k2 < k ==> self.tree@[(#[trigger] self.tree@[0].children@[k2]).1 as int].visit_count
                        <= best_visits,
            decreases n_children - k,
        {
            proof {
                assert(node_wf(self.tree@, 0));
            }
            let visits = self.tree[self.tree[0].children[k].1].visit_count;
            if visits >= best_visits {
                best_k = k;
                best_visits = visits;
            }
            k = k + 1;
        }
        proof {
            assert(node_wf(self.tree@, 0));
        }
        Some(self.tree[0].children[best_k].0)
    }
}

/// A well-formed tree whose root has no children is the root alone: every
/// other node's parent chain would have to surface in the root's child
/// list.
pub proof fn lemma_childless_root_is_alone(t: Seq<Node>)
    requires
        tree_wf(t),
        t[0].children@.len() == 0,
    ensures
        t.len() == 1,
{
    if t.len() > 1 {
        assert(node_wf(t, 1));
        assert(t[1].parent->0 as int == 0);
    }
}

/// A selection walk: it starts at the root, and each step descends into a
/// child of maximal PUCT priority.
pub open spec fn selection_path(t: Seq<Node>, path: Seq<int>) -> bool {
    &&& path.len() >= 1
    &&& path[0] == 0
    &&& forall|k: int|
        0 <= k < path.len() - 1 ==> exists|j: int|
            0 <= j < t[#[trigger] path[k]].children@.len() && t[path[k]].children@[j].1 as int
                == path[k + 1] && (forall|j2: int|
                0 <= j2 < t[path[k]].children@.len() ==> child_puct(t, path[k], j2) <= child_puct(
                    t,
                    path[k],
                    j,
                ))
}

/// The PUCT priority of the `j`-th child of node `i`.
pub open spec fn child_puct(t: Seq<Node>, i: int, j: int) -> int {
    puct_spec(
        t[t[i].children@[j].1 as int].prior_probability as int,
        t[t[i].children@[j].1 as int].visit_count as int,
        t[t[i].children@[j].1 as int].total_action_value as int,
        t[i].visit_count as int,
    )
}

} // verus!

verus! {

/// The first root child (in order) whose player boards equal the given
/// position's, if any.
pub open spec fn first_match_from(t: Seq<Node>, cs: Seq<(Move, usize)>, s: StateV, j: int) -> Option<
    int,
>
    decreases cs.len() - j,
{
    if j < 0 || j >= cs.len() {
        None
    } else if t[cs[j].1 as int].game_state@.players == s.players {
        Some(cs[j].1 as int)
    } else {
        first_match_from(t, cs, s, j + 1)
    }
}

/// The position the tree re-roots onto: the first root child matching the
/// given position by player boards, or the position itself when none
/// matches.
pub open spec fn sync_target(t: Seq<Node>, s: StateV) -> StateV {
    match first_match_from(t, t[0].children@, s, 0) {
        Some(c) => t[c].game_state@,
        None => s,
    }
}

/// A found match really matches, and lies inside the tree.
pub proof fn lemma_first_match_props(t: Seq<Node>, cs: Seq<(Move, usize)>, s: StateV, j: int)
    requires
        forall|k: int| 0 <= k < cs.len() ==> ((#[trigger] cs[k]).1 as int) < t.len(),
    ensures
        first_match_from(t, cs, s, j) matches Some(c) ==> 0 <= c < t.len()
            && t[c].game_state@.players == s.players,
    decreases cs.len() - j,
{
    if 0 <= j < cs.len() {
        lemma_first_match_props(t, cs, s, j + 1);
    }
}

/// Re-rooting lands on a position whose player boards equal the given
/// position's; a tree whose root has no children re-roots onto the
/// position itself.
pub proof fn lemma_sync_idempotent(t: Seq<Node>, s: StateV)
    requires
        tree_wf(t),
    ensures
        sync_target(t, s).players == s.players,
        t[0].children@.len() == 0 ==> sync_target(t, s) == s,
{
    assert(node_wf(t, 0));
    lemma_first_match_props(t, t[0].children@, s, 0);
}

/// Law: at every node, the visit count equals the number of iterations
/// that ended there plus the visits of its children — in particular at the
/// root, where the visits equal the iterations run.
pub proof fn lemma_visit_conservation<P: MctsPolicy>(m: Mcts<P>, i: int)
    requires
        mcts_wf(m),
        0 <= i < m.tree@.len(),
    ensures
        m.tree@[i].visit_count as int == m.tree@[i].leaf_hits@ + sum_child_visits(
            m.tree@,
            m.tree@[i].children@,
        ),
{
    assert(node_wf(m.tree@, i));
}

/// Law: every mean action value in a well-formed tree stays within the
/// value range the policy produces.
pub proof fn lemma_mean_value_in_range<P: MctsPolicy>(m: Mcts<P>, i: int)
    requires
        mcts_wf(m),
        0 <= i < m.tree@.len(),
    ensures
        -(VALUE_BOUND as int) <= mean_value_spec(
            m.tree@[i].total_action_value as int,
            m.tree@[i].visit_count as int,
        ) <= VALUE_BOUND as int,
{
    assert(node_wf(m.tree@, i));
    lemma_mean_bounded(
        m.tree@[i].total_action_value as int,
        m.tree@[i].visit_count as int,
        VALUE_BOUND as int,
    );
}

impl<P: MctsPolicy> Mcts<P> {
    /// Re-roots the tree onto the actual current position: if a root child
    /// matches it by player boards, that child's whole subtree — nodes,
    /// statistics and edges — becomes the new tree, renumbered from the
    /// matched node; otherwise the tree is discarded and rebuilt around
    /// the given position.
    pub fn sync_tree_with_state(&mut self, current_game_state: &GameState)
        requires
            mcts_wf(*old(self)),
            state_wf(current_game_state@),
            scores_modest(current_game_state@),
        ensures
            mcts_wf(*final(self)),
            final(self).policy_handler == old(self).policy_handler,
            final(self).tree@[0].game_state@ == sync_target(
                old(self).tree@,
                current_game_state@,
            ),
            first_match_from(
                old(self).tree@,
                old(self).tree@[0].children@,
                current_game_state@,
                0,
            ) is None ==> final(self).tree@.len() == 1 && final(self).tree@[0].children@.len()
                == 0 && final(self).tree@[0].visit_count == 0 && final(self).tree@[0].leaf_hits@
                == 0,
            first_match_from(
                old(self).tree@,
                old(self).tree@[0].children@,
                current_game_state@,
                0,
            ) matches Some(c) ==> final(self).tree@[0].visit_count == old(self).tree@[
                c
            ].visit_count && final(self).tree@[0].total_action_value == old(self).tree@[
                c
            ].total_action_value && final(self).tree@[0].leaf_hits == old(self).tree@[c].leaf_hits
                && final(self).tree@[0].children@.len() == old(self).tree@[c].children@.len() && (
            forall|j: int|
                0 <= j < final(self).tree@[0].children@.len() ==> (#[trigger] final(self).tree@[0].children@[j]).0 == old(self).tree@[c].children@[j].0 && final(self).tree@[final(self).tree@[0].children@[j].1 as int].visit_count == old(self).tree@[old(self).tree@[c].children@[j].1 as int].visit_count),
    {
        let ghost t0 = self.tree@;
        proof {
            assert(node_wf(t0, 0));
            lemma_first_match_props(t0, t0[0].children@, current_game_state@, 0);
        }
        let n_children = self.tree[0].children.len();
        let mut found: Option<usize> = None;
        let mut j: usize = 0;
        while j < n_children && found.is_none()
            invariant
                mcts_wf(*self),
                self.tree@ == t0,
                self.policy_handler == old(self).policy_handler,
                n_children == t0[0].children@.len(),
                j <= n_children,
                state_wf(current_game_state@),
                found is None ==> first_match_from(
                    t0,
                    t0[0].children@,
                    current_game_state@,
                    0,
                ) == first_match_from(t0, t0[0].children@, current_game_state@, j as int),
                found matches Some(c) ==> (c as int) < t0.len() && first_match_from(
                    t0,
                    t0[0].children@,
                    current_game_state@,
                    0,
                ) == Some(c as int),
            decreases n_children - j, (if found is None { 1int } else { 0int }),
        {
            proof {
                assert(node_wf(t0, 0));
            }
            let c = self.tree[0].children[j].1;
            proof {
                assert(t0[c as int].game_state@.players =~= Seq::new(
                    self.tree[c as int].game_state.players@.len(),
                    |i: int| self.tree[c as int].game_state.players@[i]@,
                ));
            }
            if players_eq(&self.tree[c].game_state.players, &current_game_state.players) {
                proof {
                    assert(t0[c as int].game_state@.players =~= current_game_state@.players);
                }
                found = Some(c);
            } else {
                proof {
                    assert(t0[c as int].game_state@.players != current_game_state@.players);
                }
                j = j + 1;
            }
        }
        match found {
            Some(c) => {
                let new_tree = promote_subtree(&self.tree, c);
                self.tree = new_tree;
            },
            None => {
                let policy = self.policy_handler.clone_policy();
                *self = Mcts::new(current_game_state.clone(), policy);
            },
        }
    }
}

} // verus!

verus! {

/// Whether node `i` belongs to the subtree rooted at `c`: it is `c`
/// itself, or its parent chain stays inside the subtree.
pub open spec fn kept(t: Seq<Node>, c: int, i: int) -> bool
    decreases i,
{
    if i == c {
        true
    } else if c < i && i < t.len() {
        match t[i].parent {
            Some(p) => (p as int) < i && kept(t, c, p as int),
            None => false,
        }
    } else {
        false
    }
}

/// How many subtree nodes lie below index `i`.
pub open spec fn kept_count(t: Seq<Node>, c: int, i: int) -> int
    decreases i - c,
{
    if i <= c {
        0
    } else {
        kept_count(t, c, i - 1) + if kept(t, c, i - 1) {
            1int
        } else {
            0int
        }
    }
}

proof fn lemma_kept_count_nonneg(t: Seq<Node>, c: int, i: int)
    ensures
        kept_count(t, c, i) >= 0,
    decreases i - c,
{
    if i > c {
        lemma_kept_count_nonneg(t, c, i - 1);
    }
}

/// The new index of a kept node grows strictly with its old index.
proof fn lemma_kept_count_mono(t: Seq<Node>, c: int, k1: int, k2: int)
    requires
        c <= k1 < k2,
        kept(t, c, k1),
    ensures
        kept_count(t, c, k1) < kept_count(t, c, k2),
    decreases k2 - k1,
{
    if k2 > k1 + 1 {
        lemma_kept_count_mono(t, c, k1, k2 - 1);
    }
}

/// Every new index below the subtree size is some kept node's new index.
proof fn lemma_kept_surjective(t: Seq<Node>, c: int, v: int, n: int)
    requires
        c <= n,
        0 <= v < kept_count(t, c, n),
    ensures
        exists|k: int|
            c <= k < n && #[trigger] kept(t, c, k) && kept_count(t, c, k) == v,
    decreases n - c,
{
    if n > c {
        if kept(t, c, n - 1) && kept_count(t, c, n - 1) == v {
            assert(c <= n - 1 < n && kept(t, c, n - 1) && kept_count(t, c, n - 1) == v);
        } else {
            lemma_kept_surjective(t, c, v, n - 1);
            let k = choose|k: int|
                c <= k < n - 1 && #[trigger] kept(t, c, k) && kept_count(t, c, k) == v;
            assert(c <= k < n && kept(t, c, k) && kept_count(t, c, k) == v);
        }
    }
}

/// How one renumbered node mirrors its source: same statistics, position
/// and moves, with parent and child indices passed through the map.
pub open spec fn node_corresponds(t: Seq<Node>, o: Seq<Node>, mp: Seq<usize>, c: int, k: int) -> bool {
    let v = mp[k] as int;
    &&& v < o.len()
    &&& o[v].visit_count == t[k].visit_count
    &&& o[v].total_action_value == t[k].total_action_value
    &&& o[v].prior_probability == t[k].prior_probability
    &&& o[v].leaf_hits == t[k].leaf_hits
    &&& o[v].game_state@ == t[k].game_state@
    &&& o[v].children@.len() == t[k].children@.len()
    &&& forall|j: int|
        0 <= j < t[k].children@.len() ==> (#[trigger] o[v].children@[j]).0 == t[k].children@[j].0
            && o[v].children@[j].1 == mp[t[k].children@[j].1 as int]
    &&& o[v].parent == (if k == c {
        None
    } else {
        Some(mp[t[k].parent->0 as int])
    })
}

/// Corresponding children carry corresponding visit counts, so the sums
/// agree.
proof fn lemma_sum_corresponding(
    t: Seq<Node>,
    o: Seq<Node>,
    cs_old: Seq<(Move, usize)>,
    cs_new: Seq<(Move, usize)>,
)
    requires
        cs_old.len() == cs_new.len(),
        forall|j: int|
            0 <= j < cs_old.len() ==> ((#[trigger] cs_old[j]).1 as int) < t.len() && ((
            #[trigger] cs_new[j]).1 as int) < o.len() && o[cs_new[j].1 as int].visit_count == t[
                cs_old[j].1 as int
            ].visit_count,
    ensures
        sum_child_visits(o, cs_new) == sum_child_visits(t, cs_old),
    decreases cs_old.len(),
{
    if cs_old.len() > 0 {
        lemma_sum_corresponding(t, o, cs_old.drop_last(), cs_new.drop_last());
    }
}

} // verus!

verus! {

/// Copies the subtree rooted at `c` into a fresh arena in index order: the
/// matched node becomes the root (parent cleared), every kept node keeps
/// its statistics and position, and every edge is renumbered.
#[verifier::rlimit(100)]
fn promote_subtree(tree: &Vec<Node>, c: usize) -> (out: Vec<Node>)
    requires
        tree_wf(tree@),
        c < tree@.len(),
    ensures
        tree_wf(out@),
        out@.len() >= 1,
        out@[0].game_state@ == tree@[c as int].game_state@,
        out@[0].visit_count == tree@[c as int].visit_count,
        out@[0].total_action_value == tree@[c as int].total_action_value,
        out@[0].leaf_hits == tree@[c as int].leaf_hits,
        out@[0].prior_probability == tree@[c as int].prior_probability,
        out@[0].children@.len() == tree@[c as int].children@.len(),
        forall|j: int|
            0 <= j < out@[0].children@.len() ==> (#[trigger] out@[0].children@[j]).0 == tree@[
                c as int
            ].children@[j].0 && out@[out@[0].children@[j].1 as int].visit_count == tree@[tree@[
                c as int
            ].children@[j].1 as int].visit_count,
{
    let ghost t = tree@;
    let n = tree.len();
    let mut map: Vec<usize> = Vec::new();
    let mut z: usize = 0;
    while z < n
        invariant
            z <= n,
            map@.len() == z,
            forall|k: int| 0 <= k < z ==> #[trigger] map@[k] == usize::MAX,
        decreases n - z,
    {
        map.push(usize::MAX);
        z = z + 1;
    }
    let mut count: usize = 0;
    let mut i: usize = c;
    while i < n
        invariant
            tree_wf(t),
            t == tree@,
            c < n,
            n == t.len(),
            c <= i <= n,
            map@.len() == n,
            count as int == kept_count(t, c as int, i as int),
            count <= i - c,
            forall|k: int| 0 <= k < c ==> #[trigger] map@[k] == usize::MAX,
            forall|k: int| i <= k < n ==> #[trigger] map@[k] == usize::MAX,
            forall|k: int|
                c <= k < i && kept(t, c as int, k) ==> (#[trigger] map@[k]) as int == kept_count(
                    t,
                    c as int,
                    k,
                ) && (map@[k] as int) < count,
            forall|k: int|
                c <= k < i && !kept(t, c as int, k) ==> #[trigger] map@[k] == usize::MAX,
        decreases n - i,
    {
        proof {
            assert(node_wf(t, i as int));
            lemma_kept_count_nonneg(t, c as int, i as int);
        }
        let keep: bool = if i == c {
            true
        } else {
            match tree[i].parent {
                Some(p) => map[p] != usize::MAX,
                None => false,
            }
        };
        proof {
            if i > c {
                match t[i as int].parent {
                    Some(p) => {
                        if (p as int) < c {
                            assert(!kept(t, c as int, p as int));
                        }
                    },
                    None => {},
                }
            }
            assert(keep == kept(t, c as int, i as int));
        }
        if keep {
            map[i] = count;
            count = count + 1;
        }
        i = i + 1;
    }
    let ghost mp = map@;
    let mut out: Vec<Node> = Vec::new();
    let mut i2: usize = c;
    while i2 < n
        invariant
            tree_wf(t),
            t == tree@,
            c < n,
            n == t.len(),
            c <= i2 <= n,
            mp == map@,
            mp.len() == n,
            count as int == kept_count(t, c as int, n as int),
            count <= n,
            forall|k: int|
                0 <= k < n ==> (kept(t, c as int, k) <==> (#[trigger] mp[k]) != usize::MAX),
            forall|k: int|
                0 <= k < n && kept(t, c as int, k) ==> (#[trigger] mp[k]) as int == kept_count(
                    t,
                    c as int,
                    k,
                ) && (mp[k] as int) < count,
            out@.len() as int == kept_count(t, c as int, i2 as int),
            forall|k: int|
                c <= k < i2 && #[trigger] kept(t, c as int, k) ==> node_corresponds(
                    t,
                    out@,
                    mp,
                    c as int,
                    k,
                ),
        decreases n - i2,
    {
        proof {
            assert(node_wf(t, i2 as int));
        }
        if map[i2] != usize::MAX {
            proof {
                assert(kept(t, c as int, i2 as int));
                assert(mp[i2 as int] as int == out@.len());
            }
            let n_children = tree[i2].children.len();
            let mut new_children: Vec<(Move, usize)> = Vec::new();
            let mut j: usize = 0;
            while j < n_children
                invariant
                    tree_wf(t),
                    t == tree@,
                    c < n,
                    n == t.len(),
                    c <= i2 < n,
                    kept(t, c as int, i2 as int),
                    mp == map@,
                    mp.len() == n,
                    forall|k: int|
                        0 <= k < n ==> (kept(t, c as int, k) <==> (#[trigger] mp[k])
                            != usize::MAX),
                    n_children == t[i2 as int].children@.len(),
                    j <= n_children,
                    new_children@.len() == j,
                    forall|jj: int|
                        0 <= jj < j ==> (#[trigger] new_children@[jj]).0 == t[
                            i2 as int
                        ].children@[jj].0 && new_children@[jj].1 == mp[t[i2 as int].children@[
                            jj
                        ].1 as int],
                decreases n_children - j,
            {
                proof {
                    assert(node_wf(t, i2 as int));
                }
                let pair = tree[i2].children[j];
                let ch = pair.1;
                proof {
                    assert(t[ch as int].parent == Some(i2));
                    assert(kept(t, c as int, ch as int));
                }
                new_children.push((pair.0, map[ch]));
                j = j + 1;
            }
            let new_parent: Option<usize> = if i2 == c {
                None
            } else {
                match tree[i2].parent {
                    Some(p) => Some(map[p]),
                    None => {
                        proof {
                            assert(false);
                        }
                        None
                    },
                }
            };
            let src = &tree[i2];
            let ghost lh = src.leaf_hits@;
            out.push(
                Node {
                    parent: new_parent,
                    children: new_children,
                    visit_count: src.visit_count,
                    total_action_value: src.total_action_value,
                    prior_probability: src.prior_probability,
                    game_state: src.game_state.clone(),
                    leaf_hits: Ghost(lh),
                },
            );
            proof {
                assert(node_corresponds(t, out@, mp, c as int, i2 as int));
                assert forall|k: int|
                    c <= k < i2 + 1 && #[trigger] kept(t, c as int, k) implies node_corresponds(
                    t,
                    out@,
                    mp,
                    c as int,
                    k,
                ) by {
                    if k < i2 {
                        assert((mp[k] as int) < out@.len() - 1);
                    }
                }
            }
        }
        i2 = i2 + 1;
    }
    proof {
        let o = out@;
        assert(kept(t, c as int, c as int));
        lemma_kept_count_mono(t, c as int, c as int, n as int);
        assert(o.len() >= 1);
        assert(mp[c as int] == 0);
        assert(node_corresponds(t, o, mp, c as int, c as int));
        assert(node_wf(t, c as int));
        assert forall|jj: int|
            0 <= jj < o[0].children@.len() implies (#[trigger] o[0].children@[jj]).0 == t[
            c as int
        ].children@[jj].0 && o[o[0].children@[jj].1 as int].visit_count == t[t[
            c as int
        ].children@[jj].1 as int].visit_count by {
            let ch = t[c as int].children@[jj].1 as int;
            assert(t[ch].parent == Some(c));
            assert(kept(t, c as int, ch));
            assert(node_corresponds(t, o, mp, c as int, ch));
        }
        assert forall|v: int| 0 <= v < o.len() implies #[trigger] node_wf(o, v) by {
            lemma_kept_surjective(t, c as int, v, n as int);
            let k = choose|k: int|
                c <= k < n && #[trigger] kept(t, c as int, k) && kept_count(t, c as int, k) == v;
            assert(mp[k] as int == v);
            assert(node_corresponds(t, o, mp, c as int, k));
            assert(node_wf(t, k));
            // the root of the new arena is exactly the matched node
            if v == 0 {
                if k != c {
                    lemma_kept_count_mono(t, c as int, c as int, k);
                }
                assert(k == c);
                assert(o[0].parent is None);
            } else {
                if k == c {
                    assert(kept_count(t, c as int, c as int) == 0);
                }
                assert(k != c);
                let pk = t[k].parent->0 as int;
                assert(kept(t, c as int, pk));
                lemma_kept_count_mono(t, c as int, pk, k);
                assert(o[v].parent == Some(mp[pk]));
                assert((mp[pk] as int) < v);
            }
            // each child entry lands in range, above its parent, with the
            // parent link pointing back
            assert forall|j: int|
                0 <= j < o[v].children@.len() implies v < ((#[trigger] o[v].children@[j]).1 as int)
                < o.len() && o[o[v].children@[j].1 as int].parent == Some(mp[k]) && legal_move(
                o[v].game_state@,
                o[v].children@[j].0,
            ) && o[o[v].children@[j].1 as int].game_state@ == apply_move_spec(
                o[v].game_state@,
                o[v].children@[j].0,
            ) by {
                let ch = t[k].children@[j].1 as int;
                assert(t[ch].parent == Some(k as usize));
                assert(kept(t, c as int, ch));
                assert(node_corresponds(t, o, mp, c as int, ch));
                lemma_kept_count_mono(t, c as int, k, ch);
                lemma_kept_count_mono(t, c as int, ch, n as int);
                assert(o[v].children@[j].1 == mp[ch]);
                assert(ch != c) by {
                    if ch == c {
                        assert(kept_count(t, c as int, c as int) == 0);
                        lemma_kept_count_mono(t, c as int, c as int, k);
                        lemma_kept_count_nonneg(t, c as int, k);
                    }
                };
                assert(o[mp[ch] as int].parent == Some(mp[t[ch].parent->0 as int]));
            }
            // child indices and moves stay pairwise distinct
            assert forall|j1: int, j2: int|
                0 <= j1 < j2 < o[v].children@.len() implies (#[trigger] o[v].children@[j1]).1 != (
            #[trigger] o[v].children@[j2]).1 && o[v].children@[j1].0 != o[v].children@[j2].0 by {
                let c1 = t[k].children@[j1].1 as int;
                let c2 = t[k].children@[j2].1 as int;
                assert(t[c1].parent == Some(k as usize));
                assert(t[c2].parent == Some(k as usize));
                assert(kept(t, c as int, c1));
                assert(kept(t, c as int, c2));
                if c1 < c2 {
                    lemma_kept_count_mono(t, c as int, c1, c2);
                } else {
                    lemma_kept_count_mono(t, c as int, c2, c1);
                }
            }
            // a non-root node still sits in its parent's child list
            if v > 0 {
                let pk = t[k].parent->0 as int;
                assert(node_wf(t, pk));
                assert(kept(t, c as int, pk));
                assert(node_corresponds(t, o, mp, c as int, pk));
                let j = choose|j: int|
                    0 <= j < t[t[k].parent->0 as int].children@.len() && (#[trigger] t[t[
                        k
                    ].parent->0 as int].children@[j]).1 as int == k;
                assert(o[mp[pk] as int].children@[j].1 == mp[k]);
                assert(o[v].parent->0 as int == mp[pk] as int);
                assert(o[o[v].parent->0 as int].children@[j].1 as int == v);
            }
            // the visit ledger carries over child by child
            assert forall|j: int|
                0 <= j < t[k].children@.len() implies ((#[trigger] t[k].children@[j]).1 as int)
                < t.len() && ((#[trigger] o[v].children@[j]).1 as int) < o.len() && o[o[
                v
            ].children@[j].1 as int].visit_count == t[t[k].children@[j].1 as int].visit_count by {
                let ch = t[k].children@[j].1 as int;
                assert(t[ch].parent == Some(k as usize));
                assert(kept(t, c as int, ch));
                assert(node_corresponds(t, o, mp, c as int, ch));
                lemma_kept_count_mono(t, c as int, ch, n as int);
            }
            lemma_sum_corresponding(t, o, t[k].children@, o[v].children@);
            assert(o[v].visit_count as int == o[v].leaf_hits@ + sum_child_visits(
                o,
                o[v].children@,
            ));
        }
    }
    out
}

} // verus!
