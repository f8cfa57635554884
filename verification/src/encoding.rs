//! The fixed-size numeric encoding that connects game positions to a
//! value/policy function: a feature vector over fixed-offset regions, and
//! the masking that turns a raw policy head into a distribution over legal
//! moves.  Features are fixed-point integers scaled by [`INPUT_SCALE`];
//! masked policies are exact rationals, a weight per move over a shared
//! denominator.
use vstd::prelude::*;

verus! {

use crate::tiles::{Tile, color_index, count_color};
use crate::moves::{Move, MoveSource};
use crate::state::{GameState, StateV, state_wf};

/// The number of factory displays the encoding can hold.
pub const NUM_FACTORIES: usize = 9;

/// The number of tile colors.
pub const NUM_COLORS: usize = 5;

/// How many center-pool positions the encoding can hold.
pub const MAX_CENTER_TILES: usize = 27;

/// The largest supported player count.
pub const MAX_PLAYERS: usize = 4;

/// One-hot slots for each player's pattern lines.
pub const PATTERN_LINE_SLOTS: usize = 25;

/// One-hot slots for each player's wall.
pub const WALL_SLOTS: usize = 25;

/// One-hot slots for each player's floor line.
pub const FLOOR_SLOTS: usize = 7;

/// The fixed length of the feature vector, constant across player counts.
pub const INPUT_SIZE: usize = (NUM_FACTORIES * NUM_COLORS * 4) + (MAX_CENTER_TILES * NUM_COLORS) + (
MAX_PLAYERS * (1 + PATTERN_LINE_SLOTS + WALL_SLOTS + FLOOR_SLOTS + 1)) + 1;

/// The fixed length of the policy vector: one slot per factory-color pair
/// plus one per center color.
pub const POLICY_SIZE: usize = (NUM_FACTORIES * NUM_COLORS) + NUM_COLORS;

/// The fixed-point scale of feature values: this many units stand for 1.0.
pub const INPUT_SCALE: u32 = 100;

/// The policy slot of a source-color pair: factories first, the center
/// last.
pub open spec fn policy_slot(t: Tile, src: MoveSource) -> int {
    match src {
        MoveSource::Factory(i) => i * 5 + color_index(t),
        MoveSource::Center => 45 + color_index(t),
    }
}

/// Computes the policy slot of a move's source-color pair.
pub fn move_to_policy_index(move_tile: Tile, move_source: &MoveSource) -> (r: Option<usize>)
    requires
        move_source matches MoveSource::Factory(i) ==> i < NUM_FACTORIES,
    ensures
        r matches Some(s) ==> s == policy_slot(move_tile, *move_source) && s < POLICY_SIZE,
        r is Some,
{
    let color_idx = crate::tiles::color_to_index(move_tile);
    match move_source {
        MoveSource::Factory(idx) => Some(*idx * NUM_COLORS + color_idx),
        MoveSource::Center => Some(NUM_FACTORIES * NUM_COLORS + color_idx),
    }
}

/// A raw policy output clipped to be non-negative.
pub open spec fn clip(x: int) -> int {
    if x < 0 {
        0
    } else {
        x
    }
}

/// The clipped raw weight a move reads from its policy slot.
pub open spec fn slot_weight(raw: Seq<i64>, m: Move) -> int {
    clip(raw[policy_slot(m.tile, m.source)] as int)
}

/// Whether an earlier move in the list shares this move's source-color
/// slot.
pub open spec fn seen_before(legal: Seq<Move>, k: int) -> bool {
    exists|j: int|
        0 <= j < k && policy_slot((#[trigger] legal[j]).tile, legal[j].source) == policy_slot(
            legal[k].tile,
            legal[k].source,
        )
}

/// The clipped weights of the first `upto` moves, each distinct slot
/// counted once.
pub open spec fn distinct_slot_total(legal: Seq<Move>, raw: Seq<i64>, upto: int) -> int
    decreases upto,
{
    if upto <= 0 {
        0
    } else {
        distinct_slot_total(legal, raw, upto - 1) + (if seen_before(legal, upto - 1) {
            0int
        } else {
            slot_weight(raw, legal[upto - 1])
        })
    }
}

/// The bound the masking asks of each raw policy output.
pub const RAW_POLICY_BOUND: i64 = 1000000000000;

/// Whether a move list and raw policy fit the encoding: factory indices in
/// range, the raw vector of policy size with bounded entries.
pub open spec fn mask_input_ok(legal: Seq<Move>, raw: Seq<i64>) -> bool {
    &&& forall|k: int|
        0 <= k < legal.len() ==> ((#[trigger] legal[k]).source matches MoveSource::Factory(i)
            ==> i < NUM_FACTORIES)
    &&& raw.len() == POLICY_SIZE
    &&& forall|s: int| 0 <= s < raw.len() ==> (#[trigger] raw[s]) <= RAW_POLICY_BOUND
}

/// Masks a raw policy onto the legal moves and renormalizes it exactly:
/// each move is paired with a non-negative weight, and the returned
/// denominator is the sum of the weights over distinct source-color slots.
/// When every weight clips to zero the distribution falls back to uniform:
/// weight one per move over the move count.  A move's probability is its
/// weight divided by the denominator.
pub fn mask_and_normalize_policy(legal_moves: &Vec<Move>, raw_policy: &Vec<i64>) -> (r: (Vec<
    (Move, u64),
>, u64))
    requires
        mask_input_ok(legal_moves@, raw_policy@),
    ensures
        r.1 > 0,
        legal_moves@.len() == 0 ==> r.0@.len() == 0,
        legal_moves@.len() > 0 ==> r.0@.len() == legal_moves@.len(),
        distinct_slot_total(legal_moves@, raw_policy@, legal_moves@.len() as int) > 0 ==> (forall|
            k: int,
        |
            0 <= k < r.0@.len() ==> (#[trigger] r.0@[k]).0 == legal_moves@[k] && r.0@[k].1 as int
                == slot_weight(raw_policy@, legal_moves@[k])) && r.1 as int == distinct_slot_total(
            legal_moves@,
            raw_policy@,
            legal_moves@.len() as int,
        ),
        (distinct_slot_total(legal_moves@, raw_policy@, legal_moves@.len() as int) == 0
            && legal_moves@.len() > 0) ==> (forall|k: int|
            0 <= k < r.0@.len() ==> (#[trigger] r.0@[k]).0 == legal_moves@[k] && r.0@[k].1 == 1)
            && r.1 == legal_moves@.len(),
{
    let ghost legal = legal_moves@;
    let ghost raw = raw_policy@;
    let n = legal_moves.len();
    if n == 0 {
        return (Vec::new(), 1);
    }
    let mut total: u64 = 0;
    let ghost mut seen: Set<int> = Set::empty();
    let mut k: usize = 0;
    while k < n
        invariant
            mask_input_ok(legal, raw),
            legal == legal_moves@,
            raw == raw_policy@,
            n == legal.len(),
            k <= n,
            total as int == distinct_slot_total(legal, raw, k as int),
            seen.finite(),
            seen.subset_of(vstd::set_lib::set_int_range(0, 50)),
            forall|s: int|
                seen.contains(s) <==> exists|j: int|
                    0 <= j < k && policy_slot((#[trigger] legal[j]).tile, legal[j].source) == s,
            total as int <= seen.len() * (RAW_POLICY_BOUND as int),
        decreases n - k,
    {
        let m = legal_moves[k];
        let slot = match move_to_policy_index(m.tile, &m.source) {
            Some(s) => s,
            None => 0,
        };
        let mut dup = false;
        let mut j: usize = 0;
        while j < k
            invariant
                mask_input_ok(legal, raw),
                legal == legal_moves@,
                n == legal.len(),
                k < n,
                j <= k,
                m == legal[k as int],
                slot == policy_slot(m.tile, m.source),
                dup == (exists|j2: int|
                    0 <= j2 < j && policy_slot(
                        (#[trigger] legal[j2]).tile,
                        legal[j2].source,
                    ) == slot),
            decreases k - j,
        {
            let mj = legal_moves[j];
            let slot_j = match move_to_policy_index(mj.tile, &mj.source) {
                Some(s) => s,
                None => 0,
            };
            if slot_j == slot {
                dup = true;
            }
            j = j + 1;
        }
        proof {
            assert(dup == seen_before(legal, k as int));
            assert(dup == seen.contains(slot as int));
        }
        if !dup {
            let w = raw_policy[slot];
            if w > 0 {
                proof {
                    vstd::set_lib::lemma_int_range(0, 50);
                    assert(seen.insert(slot as int).subset_of(
                        vstd::set_lib::set_int_range(0, 50),
                    ));
                    vstd::set_lib::lemma_len_subset(
                        seen.insert(slot as int),
                        vstd::set_lib::set_int_range(0, 50),
                    );
                    assert(seen.len() + 1 <= 50);
                    let sl = seen.len() as int;
                    let rb = RAW_POLICY_BOUND as int;
                    assert((sl + 1) * rb <= 50 * rb) by (nonlinear_arith)
                        requires sl + 1 <= 50, rb >= 0,
                    ;
                    assert((sl + 1) * rb == sl * rb + rb) by (nonlinear_arith);
                }
                total = total + (w as u64);
            }
            proof {
                seen = seen.insert(slot as int);
                if total as int > seen.len() * (RAW_POLICY_BOUND as int) {
                    let sl0 = (seen.len() - 1) as int;
                    let rb = RAW_POLICY_BOUND as int;
                    assert((sl0 + 1) * rb == sl0 * rb + rb) by (nonlinear_arith);
                    assert(false);
                }
            }
        }
        proof {
            assert forall|s: int|
                seen.contains(s) <==> exists|j2: int|
                    0 <= j2 < k + 1 && policy_slot(
                        (#[trigger] legal[j2]).tile,
                        legal[j2].source,
                    ) == s by {}
        }
        k = k + 1;
    }
    let mut pairs: Vec<(Move, u64)> = Vec::new();
    if total > 0 {
        let mut k2: usize = 0;
        while k2 < n
            invariant
                mask_input_ok(legal, raw),
                legal == legal_moves@,
                raw == raw_policy@,
                n == legal.len(),
                k2 <= n,
                pairs@.len() == k2,
                forall|i: int|
                    0 <= i < k2 ==> (#[trigger] pairs@[i]).0 == legal[i] && pairs@[i].1 as int
                        == slot_weight(raw, legal[i]),
            decreases n - k2,
        {
            let m = legal_moves[k2];
            let slot = match move_to_policy_index(m.tile, &m.source) {
                Some(s) => s,
                None => 0,
            };
            let w = raw_policy[slot];
            let weight: u64 = if w > 0 {
                w as u64
            } else {
                0
            };
            pairs.push((m, weight));
            k2 = k2 + 1;
        }
        (pairs, total)
    } else {
        let mut k2: usize = 0;
        while k2 < n
            invariant
                legal == legal_moves@,
                n == legal.len(),
                k2 <= n,
                pairs@.len() == k2,
                forall|i: int|
                    0 <= i < k2 ==> (#[trigger] pairs@[i]).0 == legal[i] && pairs@[i].1 == 1,
            decreases n - k2,
        {
            pairs.push((legal_moves[k2], 1));
            k2 = k2 + 1;
        }
        (pairs, n as u64)
    }
}

/// The sum of the weights of a masked policy.
pub open spec fn sum_weights(pairs: Seq<(Move, u64)>) -> int
    decreases pairs.len(),
{
    if pairs.len() == 0 {
        0
    } else {
        sum_weights(pairs.drop_last()) + pairs.last().1
    }
}

/// Law: in the uniform fallback, the per-move probabilities sum exactly to
/// one — each move holds weight one and the denominator is the move count.
pub proof fn lemma_uniform_mask_sums(pairs: Seq<(Move, u64)>)
    requires
        forall|k: int| 0 <= k < pairs.len() ==> (#[trigger] pairs[k]).1 == 1,
    ensures
        sum_weights(pairs) == pairs.len(),
    decreases pairs.len(),
{
    if pairs.len() > 0 {
        lemma_uniform_mask_sums(pairs.drop_last());
    }
}

/// Law: a uniform positive raw policy gives every legal move the same
/// weight, so masking reproduces a uniform distribution over exactly the
/// legal moves.
pub proof fn lemma_uniform_raw_uniform_mask(legal: Seq<Move>, raw: Seq<i64>, c: i64)
    requires
        mask_input_ok(legal, raw),
        forall|s: int| 0 <= s < raw.len() ==> (#[trigger] raw[s]) == c,
        c >= 0,
    ensures
        forall|k: int|
            0 <= k < legal.len() ==> slot_weight(raw, #[trigger] legal[k]) == c,
{
    assert forall|k: int|
        0 <= k < legal.len() implies slot_weight(raw, #[trigger] legal[k]) == c by {
        let m = legal[k];
        assert(0 <= policy_slot(m.tile, m.source) < 50);
    }
}

} // verus!

verus! {

use crate::board::board_wf;

/// The offset of the center region.
pub const CENTER_BASE: usize = 180;

/// The offset of the per-player region.
pub const PLAYERS_BASE: usize = 315;

/// The value of one feature of the factory region: on when the factory
/// holds at least `s + 1` tiles of the color.
pub open spec fn factory_feature(s: StateV, f: int, c: int, slot: int) -> int {
    if f < s.factories.len() && slot < count_color(s.factories[f], crate::tiles::color_of_index(c)) {
        100
    } else {
        0
    }
}

/// The value of one feature of the center region: on when that center
/// position holds that color.
pub open spec fn center_feature(s: StateV, p: int, c: int) -> int {
    if p < s.center.len() && s.center[p] == crate::tiles::color_of_index(c) {
        100
    } else {
        0
    }
}

/// The value of one offset within a player block; absent players encode as
/// zeros.
pub open spec fn player_feature(s: StateV, p: int, off: int) -> int {
    if p >= s.players.len() {
        0
    } else {
        let b = s.players[p];
        if off == 0 {
            b.score as int
        } else if off < 26 {
            let row = (off - 1) / 5;
            let k = (off - 1) % 5;
            if k < b.pattern_lines[row].len() {
                100
            } else {
                0
            }
        } else if off < 51 {
            let row = (off - 26) / 5;
            let col = (off - 26) % 5;
            if b.wall[row][col] is Some {
                100
            } else {
                0
            }
        } else if off < 58 {
            if off - 51 < b.floor_line.len() && off - 51 < 7 {
                100
            } else {
                0
            }
        } else {
            if b.has_first_player_marker {
                100
            } else {
                0
            }
        }
    }
}

impl GameState {
    /// Encodes the position as the fixed-length feature vector, scaled by
    /// [`INPUT_SCALE`]: factory one-hots by color multiplicity, center
    /// one-hots by position and color, one block per player (score,
    /// pattern-line fill, wall fill, floor fill, marker) with absent
    /// players zero-filled, and finally whose turn it is.
    pub fn state_to_input(&self) -> (r: Vec<u32>)
        requires
            state_wf(self@),
            self@.players.len() <= MAX_PLAYERS,
            self@.factories.len() <= NUM_FACTORIES,
            self@.center.len() <= MAX_CENTER_TILES,
        ensures
            r@.len() == INPUT_SIZE,
            forall|f: int, c: int, slot: int|
                0 <= f < 9 && 0 <= c < 5 && 0 <= slot < 4 ==> r@[f * 20 + c * 4 + slot] as int
                    == factory_feature(self@, f, c, slot),
            forall|p: int, c: int|
                0 <= p < 27 && 0 <= c < 5 ==> r@[CENTER_BASE + p * 5 + c] as int == center_feature(
                    self@,
                    p,
                    c,
                ),
            forall|p: int, off: int|
                0 <= p < 4 && 0 <= off < 59 ==> r@[PLAYERS_BASE + p * 59 + off] as int
                    == player_feature(self@, p, off),
            r@[INPUT_SIZE - 1] as int == (self@.current_player_idx + 1) * 25,
    {
        let ghost s = self@;
        let mut input: Vec<u32> = Vec::new();
        let mut f: usize = 0;
        while f < 9
            invariant
                state_wf(s),
                s == self@,
                f <= 9,
                input@.len() == f * 20,
                forall|f2: int, c: int, slot: int|
                    0 <= f2 < f && 0 <= c < 5 && 0 <= slot < 4 ==> input@[f2 * 20 + c * 4 + slot]
                        as int == factory_feature(s, f2, c, slot),
            decreases 9 - f,
        {
            let mut c: usize = 0;
            while c < 5
                invariant
                    state_wf(s),
                    s == self@,
                    f < 9,
                    c <= 5,
                    input@.len() == f * 20 + c * 4,
                    forall|f2: int, c2: int, slot: int|
                        0 <= f2 < f && 0 <= c2 < 5 && 0 <= slot < 4 ==> input@[f2 * 20 + c2 * 4
                            + slot] as int == factory_feature(s, f2, c2, slot),
                    forall|c2: int, slot: int|
                        0 <= c2 < c && 0 <= slot < 4 ==> input@[f * 20 + c2 * 4 + slot] as int
                            == factory_feature(s, f as int, c2, slot),
                decreases 5 - c,
            {
                let color = crate::tiles::index_to_color(c);
                let cnt: usize = if f < self.factories.len() {
                    proof {
                        assert(s.factories[f as int] == self.factories@[f as int]@);
                    }
                    crate::tiles::count_tiles(&self.factories[f], color)
                } else {
                    0
                };
                let mut slot: usize = 0;
                while slot < 4
                    invariant
                        state_wf(s),
                        s == self@,
                        f < 9,
                        c < 5,
                        slot <= 4,
                        color == crate::tiles::color_of_index(c as int),
                        (f as int) < s.factories.len() ==> cnt == count_color(
                            s.factories[f as int],
                            color,
                        ),
                        (f as int) >= s.factories.len() ==> cnt == 0,
                        input@.len() == f * 20 + c * 4 + slot,
                        forall|f2: int, c2: int, slot2: int|
                            0 <= f2 < f && 0 <= c2 < 5 && 0 <= slot2 < 4 ==> input@[f2 * 20 + c2
                                * 4 + slot2] as int == factory_feature(s, f2, c2, slot2),
                        forall|c2: int, slot2: int|
                            0 <= c2 < c && 0 <= slot2 < 4 ==> input@[f * 20 + c2 * 4 + slot2]
                                as int == factory_feature(s, f as int, c2, slot2),
                        forall|slot2: int|
                            0 <= slot2 < slot ==> input@[f * 20 + c * 4 + slot2] as int
                                == factory_feature(s, f as int, c as int, slot2),
                    decreases 4 - slot,
                {
                    if slot < cnt {
                        input.push(100);
                    } else {
                        input.push(0);
                    }
                    slot = slot + 1;
                }
                c = c + 1;
            }
            f = f + 1;
        }
        let mut p: usize = 0;
        while p < 27
            invariant
                state_wf(s),
                s == self@,
                p <= 27,
                input@.len() == 180 + p * 5,
                forall|f2: int, c: int, slot: int|
                    0 <= f2 < 9 && 0 <= c < 5 && 0 <= slot < 4 ==> input@[f2 * 20 + c * 4 + slot]
                        as int == factory_feature(s, f2, c, slot),
                forall|p2: int, c: int|
                    0 <= p2 < p && 0 <= c < 5 ==> input@[180 + p2 * 5 + c] as int
                        == center_feature(s, p2, c),
            decreases 27 - p,
        {
            let mut c: usize = 0;
            while c < 5
                invariant
                    state_wf(s),
                    s == self@,
                    p < 27,
                    c <= 5,
                    input@.len() == 180 + p * 5 + c,
                    forall|f2: int, c2: int, slot: int|
                        0 <= f2 < 9 && 0 <= c2 < 5 && 0 <= slot < 4 ==> input@[f2 * 20 + c2 * 4
                            + slot] as int == factory_feature(s, f2, c2, slot),
                    forall|p2: int, c2: int|
                        0 <= p2 < p && 0 <= c2 < 5 ==> input@[180 + p2 * 5 + c2] as int
                            == center_feature(s, p2, c2),
                    forall|c2: int|
                        0 <= c2 < c ==> input@[180 + p * 5 + c2] as int == center_feature(
                            s,
                            p as int,
                            c2,
                        ),
                decreases 5 - c,
            {
                let color = crate::tiles::index_to_color(c);
                if p < self.center.len() && self.center[p] == color {
                    input.push(100);
                } else {
                    input.push(0);
                }
                c = c + 1;
            }
            p = p + 1;
        }
        let mut pl: usize = 0;
        while pl < 4
            invariant
                state_wf(s),
                s == self@,
                s.players.len() <= 4,
                pl <= 4,
                input@.len() == 315 + pl * 59,
                forall|f2: int, c: int, slot: int|
                    0 <= f2 < 9 && 0 <= c < 5 && 0 <= slot < 4 ==> input@[f2 * 20 + c * 4 + slot]
                        as int == factory_feature(s, f2, c, slot),
                forall|p2: int, c: int|
                    0 <= p2 < 27 && 0 <= c < 5 ==> input@[180 + p2 * 5 + c] as int
                        == center_feature(s, p2, c),
                forall|p2: int, off: int|
                    0 <= p2 < pl && 0 <= off < 59 ==> input@[315 + p2 * 59 + off] as int
                        == player_feature(s, p2, off),
            decreases 4 - pl,
        {
            if pl < self.players.len() {
                proof {
                    assert(s.players[pl as int] == self.players@[pl as int]@);
                    assert(board_wf(s.players[pl as int]));
                }
                let board = &self.players[pl];
                input.push(board.score);
                proof {
                    assert(input@[315 + pl * 59] == board.score);
                    assert(board@.score == board.score);
                    assert(player_feature(s, pl as int, 0) == s.players[pl as int].score as int);
                }
                let mut row: usize = 0;
                while row < 5
                    invariant
                        state_wf(s),
                        s == self@,
                        pl < 4,
                        (pl as int) < s.players.len(),
                        board == &self.players[pl as int],
                        s.players[pl as int] == board@,
                        row <= 5,
                        input@.len() == 315 + pl * 59 + 1 + row * 5,
                        forall|f2: int, c2: int, slot2: int|
                            0 <= f2 < 9 && 0 <= c2 < 5 && 0 <= slot2 < 4 ==> input@[f2 * 20 + c2
                                * 4 + slot2] as int == factory_feature(s, f2, c2, slot2),
                        forall|p2: int, c2: int|
                            0 <= p2 < 27 && 0 <= c2 < 5 ==> input@[180 + p2 * 5 + c2] as int
                                == center_feature(s, p2, c2),
                        forall|p2: int, off2: int|
                            0 <= p2 < pl && 0 <= off2 < 59 ==> input@[315 + p2 * 59 + off2] as int
                                == player_feature(s, p2, off2),
                        input@[315 + pl * 59] as int == player_feature(s, pl as int, 0),
                        forall|off: int|
                            1 <= off < 1 + row * 5 ==> input@[315 + pl * 59 + off] as int
                                == player_feature(s, pl as int, off),
                    decreases 5 - row,
                {
                    let line_len = board.pattern_lines[row].len();
                    let mut k: usize = 0;
                    while k < 5
                        invariant
                            state_wf(s),
                            s == self@,
                            pl < 4,
                            (pl as int) < s.players.len(),
                            s.players[pl as int] == board@,
                            row < 5,
                            k <= 5,
                            line_len == s.players[pl as int].pattern_lines[row as int].len(),
                            input@.len() == 315 + pl * 59 + 1 + row * 5 + k,
                        forall|f2: int, c2: int, slot2: int|
                            0 <= f2 < 9 && 0 <= c2 < 5 && 0 <= slot2 < 4 ==> input@[f2 * 20 + c2
                                * 4 + slot2] as int == factory_feature(s, f2, c2, slot2),
                        forall|p2: int, c2: int|
                            0 <= p2 < 27 && 0 <= c2 < 5 ==> input@[180 + p2 * 5 + c2] as int
                                == center_feature(s, p2, c2),
                        forall|p2: int, off2: int|
                            0 <= p2 < pl && 0 <= off2 < 59 ==> input@[315 + p2 * 59 + off2] as int
                                == player_feature(s, p2, off2),
                        input@[315 + pl * 59] as int == player_feature(s, pl as int, 0),
                            forall|off: int|
                                1 <= off < 1 + row * 5 + k ==> input@[315 + pl * 59 + off] as int
                                    == player_feature(s, pl as int, off),
                        decreases 5 - k,
                    {
                        if k < line_len {
                            input.push(100);
                        } else {
                            input.push(0);
                        }
                        proof {
                            let off = 1 + row * 5 + k;
                            assert((off - 1) / 5 == row && (off - 1) % 5 == k) by (nonlinear_arith)
                                requires 0 <= row < 5, 0 <= k < 5, off == 1 + row * 5 + k,
                            ;
                        }
                        k = k + 1;
                    }
                    row = row + 1;
                }
                let mut wr: usize = 0;
                while wr < 5
                    invariant
                        state_wf(s),
                        s == self@,
                        pl < 4,
                        (pl as int) < s.players.len(),
                        board == &self.players[pl as int],
                        s.players[pl as int] == board@,
                        wr <= 5,
                        input@.len() == 315 + pl * 59 + 26 + wr * 5,
                        forall|f2: int, c2: int, slot2: int|
                            0 <= f2 < 9 && 0 <= c2 < 5 && 0 <= slot2 < 4 ==> input@[f2 * 20 + c2
                                * 4 + slot2] as int == factory_feature(s, f2, c2, slot2),
                        forall|p2: int, c2: int|
                            0 <= p2 < 27 && 0 <= c2 < 5 ==> input@[180 + p2 * 5 + c2] as int
                                == center_feature(s, p2, c2),
                        forall|p2: int, off2: int|
                            0 <= p2 < pl && 0 <= off2 < 59 ==> input@[315 + p2 * 59 + off2] as int
                                == player_feature(s, p2, off2),
                        input@[315 + pl * 59] as int == player_feature(s, pl as int, 0),
                        forall|off: int|
                            1 <= off < 26 + wr * 5 ==> input@[315 + pl * 59 + off] as int
                                == player_feature(s, pl as int, off),
                    decreases 5 - wr,
                {
                    proof {
                        assert(s.players[pl as int].wall[wr as int] == board.wall@[wr as int]@);
                    }
                    let mut col: usize = 0;
                    while col < 5
                        invariant
                            state_wf(s),
                            s == self@,
                            pl < 4,
                            (pl as int) < s.players.len(),
                            board == &self.players[pl as int],
                            s.players[pl as int] == board@,
                            wr < 5,
                            col <= 5,
                            input@.len() == 315 + pl * 59 + 26 + wr * 5 + col,
                        forall|f2: int, c2: int, slot2: int|
                            0 <= f2 < 9 && 0 <= c2 < 5 && 0 <= slot2 < 4 ==> input@[f2 * 20 + c2
                                * 4 + slot2] as int == factory_feature(s, f2, c2, slot2),
                        forall|p2: int, c2: int|
                            0 <= p2 < 27 && 0 <= c2 < 5 ==> input@[180 + p2 * 5 + c2] as int
                                == center_feature(s, p2, c2),
                        forall|p2: int, off2: int|
                            0 <= p2 < pl && 0 <= off2 < 59 ==> input@[315 + p2 * 59 + off2] as int
                                == player_feature(s, p2, off2),
                        input@[315 + pl * 59] as int == player_feature(s, pl as int, 0),
                            forall|off: int|
                                1 <= off < 26 + wr * 5 + col ==> input@[315 + pl * 59 + off]
                                    as int == player_feature(s, pl as int, off),
                        decreases 5 - col,
                    {
                        proof {
                            assert(s.players[pl as int].wall[wr as int] == board.wall@[
                                wr as int
                            ]@);
                        }
                        if board.wall[wr][col].is_some() {
                            input.push(100);
                        } else {
                            input.push(0);
                        }
                        proof {
                            let off = 26 + wr * 5 + col;
                            assert((off - 26) / 5 == wr && (off - 26) % 5 == col)
                                by (nonlinear_arith)
                                requires 0 <= wr < 5, 0 <= col < 5, off == 26 + wr * 5 + col,
                            ;
                        }
                        col = col + 1;
                    }
                    wr = wr + 1;
                }
                let floor_len = board.floor_line.len();
                let mut fk: usize = 0;
                while fk < 7
                    invariant
                        state_wf(s),
                        s == self@,
                        pl < 4,
                        (pl as int) < s.players.len(),
                        s.players[pl as int] == board@,
                        fk <= 7,
                        floor_len == s.players[pl as int].floor_line.len(),
                        input@.len() == 315 + pl * 59 + 51 + fk,
                        forall|f2: int, c2: int, slot2: int|
                            0 <= f2 < 9 && 0 <= c2 < 5 && 0 <= slot2 < 4 ==> input@[f2 * 20 + c2
                                * 4 + slot2] as int == factory_feature(s, f2, c2, slot2),
                        forall|p2: int, c2: int|
                            0 <= p2 < 27 && 0 <= c2 < 5 ==> input@[180 + p2 * 5 + c2] as int
                                == center_feature(s, p2, c2),
                        forall|p2: int, off2: int|
                            0 <= p2 < pl && 0 <= off2 < 59 ==> input@[315 + p2 * 59 + off2] as int
                                == player_feature(s, p2, off2),
                        input@[315 + pl * 59] as int == player_feature(s, pl as int, 0),
                        forall|off: int|
                            1 <= off < 51 + fk ==> input@[315 + pl * 59 + off] as int
                                == player_feature(s, pl as int, off),
                    decreases 7 - fk,
                {
                    if fk < floor_len {
                        input.push(100);
                    } else {
                        input.push(0);
                    }
                    fk = fk + 1;
                }
                if board.has_first_player_marker {
                    input.push(100);
                } else {
                    input.push(0);
                }
            } else {
                let mut z: usize = 0;
                while z < 59
                    invariant
                        state_wf(s),
                        s == self@,
                        pl < 4,
                        (pl as int) >= s.players.len(),
                        z <= 59,
                        input@.len() == 315 + pl * 59 + z,
                        forall|f2: int, c2: int, slot2: int|
                            0 <= f2 < 9 && 0 <= c2 < 5 && 0 <= slot2 < 4 ==> input@[f2 * 20 + c2
                                * 4 + slot2] as int == factory_feature(s, f2, c2, slot2),
                        forall|p2: int, c2: int|
                            0 <= p2 < 27 && 0 <= c2 < 5 ==> input@[180 + p2 * 5 + c2] as int
                                == center_feature(s, p2, c2),
                        forall|p2: int, off2: int|
                            0 <= p2 < pl && 0 <= off2 < 59 ==> input@[315 + p2 * 59 + off2] as int
                                == player_feature(s, p2, off2),
                        forall|off: int|
                            0 <= off < z ==> input@[315 + pl * 59 + off] as int == player_feature(
                                s,
                                pl as int,
                                off,
                            ),
                    decreases 59 - z,
                {
                    input.push(0);
                    z = z + 1;
                }
            }
            pl = pl + 1;
        }
        let turn: u32 = ((self.current_player_idx as u32) + 1) * 25;
        input.push(turn);
        input
    }
}

} // verus!

verus! {

use crate::mcts::{Mcts, MctsPolicy, mcts_wf, Node, node_wf};

/// The visit count of the last root child whose move reads the given
/// policy slot, among the first `upto` children; zero when none does.
pub open spec fn visit_count_for_slot(t: Seq<Node>, cs: Seq<(Move, usize)>, s: int, upto: int) -> int
    decreases upto,
{
    if upto <= 0 {
        0
    } else if policy_slot(cs[upto - 1].0.tile, cs[upto - 1].0.source) == s {
        t[cs[upto - 1].1 as int].visit_count as int
    } else {
        visit_count_for_slot(t, cs, s, upto - 1)
    }
}

/// Reads the search statistics off a tree as a policy vector: each slot
/// holds the visit count of the root child taking that source-color pair,
/// over the root's own visit count.  Nothing is returned before the first
/// search iteration.
pub fn visit_policy<P: MctsPolicy>(mcts: &Mcts<P>) -> (r: Option<(Vec<u32>, u32)>)
    requires
        mcts_wf(*mcts),
        forall|j: int|
            0 <= j < mcts.tree@[0].children@.len() ==> ((#[trigger] mcts.tree@[0].children@[
                j
            ]).0.source matches MoveSource::Factory(i) ==> i < NUM_FACTORIES),
    ensures
        r is None <==> mcts.tree@[0].visit_count == 0,
        r matches Some(pv) ==> pv.1 == mcts.tree@[0].visit_count && pv.0@.len() == POLICY_SIZE && (
        forall|s: int|
            0 <= s < POLICY_SIZE ==> pv.0@[s] as int == visit_count_for_slot(
                mcts.tree@,
                mcts.tree@[0].children@,
                s,
                mcts.tree@[0].children@.len() as int,
            )),
{
    proof {
        assert(node_wf(mcts.tree@, 0));
    }
    let root_visits = mcts.tree[0].visit_count;
    if root_visits == 0 {
        return None;
    }
    let mut policy_vec: Vec<u32> = Vec::new();
    let mut z: usize = 0;
    while z < POLICY_SIZE
        invariant
            z <= POLICY_SIZE,
            policy_vec@.len() == z,
            forall|s: int| 0 <= s < z ==> #[trigger] policy_vec@[s] == 0,
        decreases POLICY_SIZE - z,
    {
        policy_vec.push(0);
        z = z + 1;
    }
    let n_children = mcts.tree[0].children.len();
    let mut j: usize = 0;
    while j < n_children
        invariant
            mcts_wf(*mcts),
            n_children == mcts.tree@[0].children@.len(),
            j <= n_children,
            forall|j2: int|
                0 <= j2 < n_children ==> ((#[trigger] mcts.tree@[0].children@[j2]).0.source
                    matches MoveSource::Factory(i) ==> i < NUM_FACTORIES),
            policy_vec@.len() == POLICY_SIZE,
            forall|s: int|
                0 <= s < POLICY_SIZE ==> #[trigger] policy_vec@[s] as int == visit_count_for_slot(
                    mcts.tree@,
                    mcts.tree@[0].children@,
                    s,
                    j as int,
                ),
        decreases n_children - j,
    {
        proof {
            assert(node_wf(mcts.tree@, 0));
        }
        let mv = mcts.tree[0].children[j].0;
        let child_idx = mcts.tree[0].children[j].1;
        let policy_idx = match move_to_policy_index(mv.tile, &mv.source) {
            Some(s) => s,
            None => 0,
        };
        let child_visits = mcts.tree[child_idx].visit_count;
        policy_vec[policy_idx] = child_visits;
        j = j + 1;
    }
    Some((policy_vec, root_visits))
}

} // verus!
