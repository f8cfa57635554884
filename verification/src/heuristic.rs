//! A rule-based move chooser: prioritized heuristics that play one turn
//! well without looking ahead.  It also serves as the rollout policy of the
//! tree searches.
use vstd::prelude::*;

verus! {

use crate::tiles::{Tile, count_color};
use crate::moves::{Move, MoveSource, MoveDestination};
use crate::board::{BoardV, PlayerBoard, board_wf, wall_col};
use crate::state::{
    GameState, StateV, state_wf, legal_move, source_tiles, source_in_range, acting_board,
};
use crate::agent::AIAgent;

/// How many tiles of the move's color sit at its source.
pub open spec fn count_at_source(s: StateV, src: MoveSource, t: Tile) -> int {
    count_color(source_tiles(s, src), t)
}

/// Counts the tiles of one color at a move source.
pub(crate) fn count_tiles_at_source(game_state: &GameState, source: &MoveSource, tile: Tile) -> (r:
    usize)
    requires
        source_in_range(game_state@, *source),
    ensures
        r == count_at_source(game_state@, *source, tile),
{
    let v: &Vec<Tile> = match source {
        MoveSource::Factory(idx) => {
            proof {
                assert(game_state@.factories[*idx as int] == game_state.factories@[*idx as int]@);
            }
            &game_state.factories[*idx]
        },
        MoveSource::Center => &game_state.center,
    };
    let mut cnt: usize = 0;
    let mut i: usize = 0;
    while i < v.len()
        invariant
            i <= v@.len(),
            cnt == count_color(v@.take(i as int), tile),
            cnt <= i,
        decreases v@.len() - i,
    {
        proof {
            reveal(Seq::filter);
            assert(v@.take(i + 1).drop_last() =~= v@.take(i as int));
        }
        if v[i] == tile {
            cnt = cnt + 1;
        }
        i = i + 1;
    }
    proof {
        assert(v@.take(v@.len() as int) =~= v@);
    }
    cnt
}

/// How many cells of the first `upto` rows of one wall column are tiled.
pub open spec fn col_filled_count(w: Seq<Seq<Option<Tile>>>, col: int, upto: int) -> int
    decreases upto,
{
    if upto <= 0 {
        0
    } else {
        col_filled_count(w, col, upto - 1) + if w[upto - 1][col] is Some {
            1int
        } else {
            0int
        }
    }
}

/// Progress of one wall column: its number of tiled cells.
pub open spec fn column_progress(b: BoardV, col: int) -> int {
    col_filled_count(b.wall, col, 5)
}

/// Counts the tiled cells of one wall column.
pub(crate) fn calculate_column_progress_by_index(player: &PlayerBoard, col_idx: usize) -> (r: usize)
    requires
        col_idx < 5,
        board_wf(player@),
    ensures
        r == column_progress(player@, col_idx as int),
        r <= 5,
    {
    let mut count: usize = 0;
    let mut i: usize = 0;
    while i < 5
        invariant
            i <= 5,
            col_idx < 5,
            board_wf(player@),
            count == col_filled_count(player@.wall, col_idx as int, i as int),
            count <= i,
        decreases 5 - i,
    {
        proof {
            assert(player@.wall[i as int] == player.wall@[i as int]@);
        }
        if player.wall[i][col_idx].is_some() {
            count = count + 1;
        }
        i = i + 1;
    }
    count
}

/// Progress of the wall column that the given color occupies in the given
/// row.
pub open spec fn column_progress_of(b: BoardV, row: int, t: Tile) -> int {
    column_progress(b, wall_col(row, t))
}

/// Counts the tiled cells of the column a color would occupy in a row.
pub(crate) fn calculate_column_progress(player: &PlayerBoard, row_idx: usize, tile: Tile) -> (r:
    usize)
    requires
        row_idx < 5,
        board_wf(player@),
    ensures
        r == column_progress_of(player@, row_idx as int, tile),
        r <= 5,
{
    let col_idx = crate::board::wall_column_of(row_idx, tile);
    calculate_column_progress_by_index(player, col_idx)
}

/// How many already tiled wall cells neighbour the cell a color would take
/// in a row: same-row left and right, same-column above and below.
pub open spec fn adjacency_score(b: BoardV, row: int, t: Tile) -> int {
    let col = wall_col(row, t);
    (if col > 0 && b.wall[row][col - 1] is Some {
        1int
    } else {
        0int
    }) + (if col < 4 && b.wall[row][col + 1] is Some {
        1int
    } else {
        0int
    }) + (if row > 0 && b.wall[row - 1][col] is Some {
        1int
    } else {
        0int
    }) + (if row < 4 && b.wall[row + 1][col] is Some {
        1int
    } else {
        0int
    })
}

/// Counts the tiled neighbours of the wall cell a color would take.
pub(crate) fn calculate_adjacency_score(player: &PlayerBoard, row_idx: usize, tile: Tile) -> (r:
    usize)
    requires
        row_idx < 5,
        board_wf(player@),
    ensures
        r == adjacency_score(player@, row_idx as int, tile),
        r <= 4,
{
    let col_idx = crate::board::wall_column_of(row_idx, tile);
    let mut score: usize = 0;
    proof {
        assert(player@.wall[row_idx as int] == player.wall@[row_idx as int]@);
    }
    if col_idx > 0 && player.wall[row_idx][col_idx - 1].is_some() {
        score = score + 1;
    }
    if col_idx < 4 && player.wall[row_idx][col_idx + 1].is_some() {
        score = score + 1;
    }
    if row_idx > 0 {
        proof {
            assert(player@.wall[row_idx - 1] == player.wall@[row_idx - 1]@);
        }
        if player.wall[row_idx - 1][col_idx].is_some() {
            score = score + 1;
        }
    }
    if row_idx < 4 {
        proof {
            assert(player@.wall[row_idx + 1] == player.wall@[row_idx + 1]@);
        }
        if player.wall[row_idx + 1][col_idx].is_some() {
            score = score + 1;
        }
    }
    score
}

/// The round has not seen a move yet: nothing has fallen to the center.
pub open spec fn first_move_of_round(s: StateV) -> bool {
    s.center.len() == 0
}

/// Whether the round's first move has happened yet.
pub(crate) fn is_first_move_of_round(game_state: &GameState) -> (r: bool)
    ensures
        r == first_move_of_round(game_state@),
{
    game_state.center.len() == 0
}

/// The first priority rule: a pattern-line move whose tiles exactly fill
/// the line's remaining space.
pub open spec fn big_grab(s: StateV, m: Move) -> bool {
    &&& m.destination matches MoveDestination::PatternLine(idx) && count_at_source(
        s,
        m.source,
        m.tile,
    ) == idx + 1 - acting_board(s).pattern_lines[idx as int].len()
}

/// The row index a pattern-line move aims at, or a negative value for floor
/// moves.
pub open spec fn move_row(m: Move) -> int {
    match m.destination {
        MoveDestination::PatternLine(idx) => idx as int,
        MoveDestination::Floor => -1,
    }
}

/// Finds an exact-fill move aiming at the highest possible row, if any
/// qualifies.
pub(crate) fn find_big_grab_move(game_state: &GameState, legal_moves: &Vec<Move>) -> (r: Option<
    Move,
>)
    requires
        state_wf(game_state@),
        forall|k: int|
            0 <= k < legal_moves@.len() ==> legal_move(game_state@, #[trigger] legal_moves@[k]),
    ensures
        r matches Some(m) ==> legal_moves@.contains(m) && big_grab(game_state@, m),
        r matches Some(m) ==> forall|k: int|
            0 <= k < legal_moves@.len() && big_grab(game_state@, #[trigger] legal_moves@[k])
                ==> move_row(legal_moves@[k]) <= move_row(m),
        r is None ==> forall|k: int|
            0 <= k < legal_moves@.len() ==> !big_grab(game_state@, #[trigger] legal_moves@[k]),
{
    let ghost s = game_state@;
    let mut best: Option<Move> = None;
    let mut best_row: usize = 0;
    let mut i: usize = 0;
    while i < legal_moves.len()
        invariant
            state_wf(s),
            s == game_state@,
            i <= legal_moves@.len(),
            forall|k: int| 0 <= k < legal_moves@.len() ==> legal_move(s, #[trigger] legal_moves@[k]),
            best is None ==> forall|k: int|
                0 <= k < i ==> !big_grab(s, #[trigger] legal_moves@[k]),
            best matches Some(m) ==> legal_moves@.contains(m) && big_grab(s, m) && move_row(m)
                == best_row,
            best matches Some(m) ==> forall|k: int|
                0 <= k < i && big_grab(s, #[trigger] legal_moves@[k]) ==> move_row(legal_moves@[k])
                    <= best_row,
        decreases legal_moves@.len() - i,
    {
        let m = legal_moves[i];
        proof {
            assert(legal_moves@.contains(legal_moves@[i as int]));
        }
        if let MoveDestination::PatternLine(idx) = m.destination {
            let tile_count = count_tiles_at_source(game_state, &m.source, m.tile);
            proof {
                assert(acting_board(s) == game_state.players@[
                    game_state.current_player_idx as int
                ]@);
            }
            let line_len = game_state.players[game_state.current_player_idx].pattern_lines[
                idx
            ].len();
            let space_available = (idx + 1) - line_len;
            if tile_count == space_available {
                if best.is_none() || idx > best_row {
                    best = Some(m);
                    best_row = idx;
                }
            }
        }
        i = i + 1;
    }
    best
}

} // verus!

verus! {

/// A center move aimed at a pattern line.
pub open spec fn center_pattern(m: Move) -> bool {
    m.source is Center && m.destination matches MoveDestination::PatternLine(idx)
}

/// Center priority one: two or more tiles that exactly top off a line.
pub open spec fn center_rule_a(s: StateV, m: Move) -> bool {
    &&& m.source is Center
    &&& m.destination matches MoveDestination::PatternLine(idx) && count_at_source(
        s,
        m.source,
        m.tile,
    ) >= 2 && acting_board(s).pattern_lines[idx as int].len() + count_at_source(s, m.source, m.tile)
        == idx + 1
}

/// Center priority two: two or more tiles toward a lower row, judged by
/// column progress.
pub open spec fn center_rule_b(s: StateV, m: Move) -> bool {
    &&& m.source is Center
    &&& m.destination matches MoveDestination::PatternLine(idx) && idx >= 2 && count_at_source(
        s,
        m.source,
        m.tile,
    ) >= 2
}

/// Center priority three: a single tile that completes a line.
pub open spec fn center_rule_c(s: StateV, m: Move) -> bool {
    &&& m.source is Center
    &&& m.destination matches MoveDestination::PatternLine(idx) && count_at_source(
        s,
        m.source,
        m.tile,
    ) == 1 && acting_board(s).pattern_lines[idx as int].len() + 1 == idx + 1
}

/// Column progress of a pattern-line move's wall cell; floor moves score
/// nothing.
pub open spec fn move_col_progress(s: StateV, m: Move) -> int {
    match m.destination {
        MoveDestination::PatternLine(idx) => column_progress_of(acting_board(s), idx as int, m.tile),
        MoveDestination::Floor => 0,
    }
}

/// While the first-player marker still sits in the center, picks a center
/// move by three prioritized rules: an exact top-off, then best column
/// progress with two or more tiles, then a single-tile line completion on
/// the highest row.
pub(crate) fn find_untouched_center_move(game_state: &GameState, legal_moves: &Vec<Move>) -> (r:
    Option<Move>)
    requires
        state_wf(game_state@),
        forall|k: int|
            0 <= k < legal_moves@.len() ==> legal_move(game_state@, #[trigger] legal_moves@[k]),
    ensures
        r is None ==> forall|k: int|
            0 <= k < legal_moves@.len() ==> !center_rule_a(game_state@, #[trigger] legal_moves@[k])
                && !center_rule_b(game_state@, legal_moves@[k]) && !center_rule_c(
                game_state@,
                legal_moves@[k],
            ),
        r matches Some(m) ==> legal_moves@.contains(m) && (center_rule_a(game_state@, m) || (
        center_rule_b(game_state@, m) && (forall|k: int|
            0 <= k < legal_moves@.len() && center_rule_b(game_state@, #[trigger] legal_moves@[k])
                ==> move_col_progress(game_state@, legal_moves@[k]) <= move_col_progress(
                game_state@,
                m,
            )) && (forall|k: int|
            0 <= k < legal_moves@.len() ==> !center_rule_a(
                game_state@,
                #[trigger] legal_moves@[k],
            ))) || (center_rule_c(game_state@, m) && (forall|k: int|
            0 <= k < legal_moves@.len() && center_rule_c(game_state@, #[trigger] legal_moves@[k])
                ==> move_row(legal_moves@[k]) <= move_row(m)) && (forall|k: int|
            0 <= k < legal_moves@.len() ==> !center_rule_a(game_state@, #[trigger] legal_moves@[k])
                && !center_rule_b(game_state@, legal_moves@[k])))),
{
    let ghost s = game_state@;
    let current = game_state.current_player_idx;
    let mut i: usize = 0;
    while i < legal_moves.len()
        invariant
            state_wf(s),
            s == game_state@,
            current == game_state.current_player_idx,
            i <= legal_moves@.len(),
            forall|k: int| 0 <= k < legal_moves@.len() ==> legal_move(s, #[trigger] legal_moves@[k]),
            forall|k: int| 0 <= k < i ==> !center_rule_a(s, #[trigger] legal_moves@[k]),
        decreases legal_moves@.len() - i,
    {
        let m = legal_moves[i];
        proof {
            assert(legal_moves@.contains(legal_moves@[i as int]));
        }
        if let MoveDestination::PatternLine(idx) = m.destination {
            if let MoveSource::Center = m.source {
                let tile_count = count_tiles_at_source(game_state, &m.source, m.tile);
                if tile_count >= 2 {
                    proof {
                        assert(acting_board(s) == game_state.players@[current as int]@);
                    }
                    let line_len = game_state.players[current].pattern_lines[idx].len();
                    if tile_count <= 5 && line_len + tile_count == idx + 1 {
                        return Some(m);
                    }
                    proof {
                        assert(!center_rule_a(s, m));
                    }
                }
            }
        }
        i = i + 1;
    }
    let mut best_b: Option<Move> = None;
    let mut best_b_progress: usize = 0;
    let mut j: usize = 0;
    while j < legal_moves.len()
        invariant
            state_wf(s),
            s == game_state@,
            current == game_state.current_player_idx,
            j <= legal_moves@.len(),
            forall|k: int| 0 <= k < legal_moves@.len() ==> legal_move(s, #[trigger] legal_moves@[k]),
            best_b is None ==> forall|k: int|
                0 <= k < j ==> !center_rule_b(s, #[trigger] legal_moves@[k]),
            best_b matches Some(m) ==> legal_moves@.contains(m) && center_rule_b(s, m)
                && move_col_progress(s, m) == best_b_progress,
            best_b matches Some(m) ==> forall|k: int|
                0 <= k < j && center_rule_b(s, #[trigger] legal_moves@[k]) ==> move_col_progress(
                    s,
                    legal_moves@[k],
                ) <= best_b_progress,
        decreases legal_moves@.len() - j,
    {
        let m = legal_moves[j];
        proof {
            assert(legal_moves@.contains(legal_moves@[j as int]));
        }
        if let MoveDestination::PatternLine(idx) = m.destination {
            if let MoveSource::Center = m.source {
                if idx >= 2 {
                    let tile_count = count_tiles_at_source(game_state, &m.source, m.tile);
                    if tile_count >= 2 {
                        proof {
                            assert(acting_board(s) == game_state.players@[current as int]@);
                        }
                        let progress = calculate_column_progress(
                            &game_state.players[current],
                            idx,
                            m.tile,
                        );
                        if best_b.is_none() || progress >= best_b_progress {
                            best_b = Some(m);
                            best_b_progress = progress;
                        }
                    }
                }
            }
        }
        j = j + 1;
    }
    if let Some(m) = best_b {
        return Some(m);
    }
    let mut best_c: Option<Move> = None;
    let mut best_c_row: usize = 0;
    let mut l: usize = 0;
    while l < legal_moves.len()
        invariant
            state_wf(s),
            s == game_state@,
            current == game_state.current_player_idx,
            l <= legal_moves@.len(),
            forall|k: int| 0 <= k < legal_moves@.len() ==> legal_move(s, #[trigger] legal_moves@[k]),
            best_c is None ==> forall|k: int|
                0 <= k < l ==> !center_rule_c(s, #[trigger] legal_moves@[k]),
            best_c matches Some(m) ==> legal_moves@.contains(m) && center_rule_c(s, m) && move_row(
                m,
            ) == best_c_row,
            best_c matches Some(m) ==> forall|k: int|
                0 <= k < l && center_rule_c(s, #[trigger] legal_moves@[k]) ==> move_row(
                    legal_moves@[k],
                ) <= best_c_row,
        decreases legal_moves@.len() - l,
    {
        let m = legal_moves[l];
        proof {
            assert(legal_moves@.contains(legal_moves@[l as int]));
        }
        if let MoveDestination::PatternLine(idx) = m.destination {
            if let MoveSource::Center = m.source {
                let tile_count = count_tiles_at_source(game_state, &m.source, m.tile);
                if tile_count == 1 {
                    proof {
                        assert(acting_board(s) == game_state.players@[current as int]@);
                    }
                    let line_len = game_state.players[current].pattern_lines[idx].len();
                    if line_len + 1 == idx + 1 {
                        if best_c.is_none() || idx >= best_c_row {
                            best_c = Some(m);
                            best_c_row = idx;
                        }
                    }
                }
            }
        }
        l = l + 1;
    }
    best_c
}

/// The first-move rule's candidates: a move onto row one that can reach two
/// tiles there.
pub open spec fn first_move_rule(s: StateV, m: Move) -> bool {
    &&& m.destination == MoveDestination::PatternLine(1usize)
    &&& count_at_source(s, m.source, m.tile) + acting_board(s).pattern_lines[1].len() >= 2
}

/// On the round's first move, aims at pattern row one, preferring the best
/// wall adjacency.
pub(crate) fn find_first_move_priority(game_state: &GameState, legal_moves: &Vec<Move>) -> (r:
    Option<Move>)
    requires
        state_wf(game_state@),
        forall|k: int|
            0 <= k < legal_moves@.len() ==> legal_move(game_state@, #[trigger] legal_moves@[k]),
    ensures
        r is None ==> forall|k: int|
            0 <= k < legal_moves@.len() ==> !first_move_rule(game_state@, #[trigger] legal_moves@[k]),
        r matches Some(m) ==> legal_moves@.contains(m) && first_move_rule(game_state@, m) && (
        forall|k: int|
            0 <= k < legal_moves@.len() && first_move_rule(game_state@, #[trigger] legal_moves@[k])
                ==> adjacency_score(acting_board(game_state@), 1, legal_moves@[k].tile)
                <= adjacency_score(acting_board(game_state@), 1, m.tile)),
{
    let ghost s = game_state@;
    let current = game_state.current_player_idx;
    let mut best: Option<Move> = None;
    let mut best_adj: usize = 0;
    let mut i: usize = 0;
    while i < legal_moves.len()
        invariant
            state_wf(s),
            s == game_state@,
            current == game_state.current_player_idx,
            i <= legal_moves@.len(),
            forall|k: int| 0 <= k < legal_moves@.len() ==> legal_move(s, #[trigger] legal_moves@[k]),
            best is None ==> forall|k: int|
                0 <= k < i ==> !first_move_rule(s, #[trigger] legal_moves@[k]),
            best matches Some(m) ==> legal_moves@.contains(m) && first_move_rule(s, m)
                && adjacency_score(acting_board(s), 1, m.tile) == best_adj,
            best matches Some(m) ==> forall|k: int|
                0 <= k < i && first_move_rule(s, #[trigger] legal_moves@[k]) ==> adjacency_score(
                    acting_board(s),
                    1,
                    legal_moves@[k].tile,
                ) <= best_adj,
        decreases legal_moves@.len() - i,
    {
        let m = legal_moves[i];
        proof {
            assert(legal_moves@.contains(legal_moves@[i as int]));
        }
        let mut is_candidate = false;
        if let MoveDestination::PatternLine(idx) = m.destination {
            if idx == 1 {
                let tile_count = count_tiles_at_source(game_state, &m.source, m.tile);
                proof {
                    assert(acting_board(s) == game_state.players@[current as int]@);
                }
                let line_len = game_state.players[current].pattern_lines[1].len();
                if tile_count >= 2 || tile_count + line_len >= 2 {
                    is_candidate = true;
                }
            }
        }
        if is_candidate {
            proof {
                assert(acting_board(s) == game_state.players@[current as int]@);
            }
            let adj = calculate_adjacency_score(&game_state.players[current], 1, m.tile);
            if best.is_none() || adj >= best_adj {
                best = Some(m);
                best_adj = adj;
            }
        }
        i = i + 1;
    }
    best
}

} // verus!

verus! {

/// The general heuristic's score for a move: tiles placed pay ten each, an
/// exact or overshooting fill pays fifteen, wall adjacency pays five per
/// neighbour and neighbouring column progress three per cell, while every
/// tile dropped to the floor costs twenty; a pure floor move always scores
/// below every placement move.
pub open spec fn general_score(s: StateV, m: Move) -> int {
    let cnt = count_at_source(s, m.source, m.tile);
    match m.destination {
        MoveDestination::Floor => -(cnt * 20) - 1,
        MoveDestination::PatternLine(idx) => {
            let b = acting_board(s);
            let space = idx + 1 - b.pattern_lines[idx as int].len();
            let placed = if cnt <= space {
                cnt
            } else {
                space
            };
            let to_floor = if cnt - space >= 0 {
                cnt - space
            } else {
                0
            };
            let col = wall_col(idx as int, m.tile);
            (placed * 10) - (to_floor * 20) + (if cnt >= space {
                15int
            } else {
                0int
            }) + adjacency_score(b, idx as int, m.tile) * 5 + (if col > 0 {
                3 * column_progress(b, col - 1)
            } else {
                0int
            }) + (if col < 4 {
                3 * column_progress(b, col + 1)
            } else {
                0int
            })
        },
    }
}

/// Scores one legal move by the general heuristic.
fn general_move_score(game_state: &GameState, m: &Move) -> (r: i128)
    requires
        state_wf(game_state@),
        legal_move(game_state@, *m),
    ensures
        r == general_score(game_state@, *m),
{
    let ghost s = game_state@;
    let tile_count = count_tiles_at_source(game_state, &m.source, m.tile);
    let cnt = tile_count as i128;
    match m.destination {
        MoveDestination::Floor => -(cnt * 20) - 1,
        MoveDestination::PatternLine(idx) => {
            proof {
                assert(acting_board(s) == game_state.players@[game_state.current_player_idx as int]@);
            }
            let player = &game_state.players[game_state.current_player_idx];
            let line_len = player.pattern_lines[idx].len();
            let space = ((idx + 1) - line_len) as i128;
            let placed: i128 = if cnt <= space {
                cnt
            } else {
                space
            };
            let to_floor: i128 = if cnt - space >= 0 {
                cnt - space
            } else {
                0
            };
            let mut score: i128 = placed * 10 - to_floor * 20;
            if cnt >= space {
                score = score + 15;
            }
            let adj = calculate_adjacency_score(player, idx, m.tile);
            score = score + (adj as i128) * 5;
            let col = crate::board::wall_column_of(idx, m.tile);
            if col > 0 {
                let p = calculate_column_progress_by_index(player, col - 1);
                score = score + 3 * (p as i128);
            }
            if col < 4 {
                let p = calculate_column_progress_by_index(player, col + 1);
                score = score + 3 * (p as i128);
            }
            score
        },
    }
}

/// Picks a legal move with the highest general-heuristic score; none only
/// when no move is legal.
pub(crate) fn find_best_general_move(game_state: &GameState, legal_moves: &Vec<Move>) -> (r: Option<
    Move,
>)
    requires
        state_wf(game_state@),
        forall|k: int|
            0 <= k < legal_moves@.len() ==> legal_move(game_state@, #[trigger] legal_moves@[k]),
    ensures
        r is None <==> legal_moves@.len() == 0,
        r matches Some(m) ==> legal_moves@.contains(m) && forall|k: int|
            0 <= k < legal_moves@.len() ==> general_score(game_state@, #[trigger] legal_moves@[k])
                <= general_score(game_state@, m),
{
    let ghost s = game_state@;
    if legal_moves.len() == 0 {
        return None;
    }
    let mut best: Move = legal_moves[0];
    proof {
        assert(legal_moves@.contains(legal_moves@[0]));
    }
    let mut best_score = general_move_score(game_state, &legal_moves[0]);
    let mut i: usize = 1;
    while i < legal_moves.len()
        invariant
            state_wf(s),
            s == game_state@,
            1 <= i <= legal_moves@.len(),
            forall|k: int| 0 <= k < legal_moves@.len() ==> legal_move(s, #[trigger] legal_moves@[k]),
            legal_moves@.contains(best),
            best_score == general_score(s, best),
            forall|k: int|
                0 <= k < i ==> general_score(s, #[trigger] legal_moves@[k]) <= best_score,
        decreases legal_moves@.len() - i,
    {
        proof {
            assert(legal_moves@.contains(legal_moves@[i as int]));
        }
        let score = general_move_score(game_state, &legal_moves[i]);
        if score >= best_score {
            best = legal_moves[i];
            best_score = score;
        }
        i = i + 1;
    }
    Some(best)
}

/// Whether any legal move qualifies for the exact-fill rule.
pub open spec fn exists_big_grab(s: StateV) -> bool {
    exists|m: Move| #[trigger] legal_move(s, m) && big_grab(s, m)
}

/// Whether the marker-in-center stage would choose a move.
pub open spec fn center_stage_applies(s: StateV) -> bool {
    &&& s.first_player_marker_in_center
    &&& exists|m: Move|
        #[trigger] legal_move(s, m) && (center_rule_a(s, m) || center_rule_b(s, m)
            || center_rule_c(s, m))
}

/// Whether the first-move stage would choose a move.
pub open spec fn first_stage_applies(s: StateV) -> bool {
    &&& first_move_of_round(s)
    &&& exists|m: Move| #[trigger] legal_move(s, m) && first_move_rule(s, m)
}

/// What the rule cascade guarantees of a chosen move: it is legal; when an
/// exact fill exists it is a row-maximal exact fill; failing that, while
/// the marker sits untouched it follows the center rules; and when no
/// earlier stage applies it maximizes the general score.
pub open spec fn heuristic_choice(s: StateV, m: Move) -> bool {
    &&& legal_move(s, m)
    &&& exists_big_grab(s) ==> (big_grab(s, m) && (forall|m2: Move|
        #[trigger] legal_move(s, m2) && big_grab(s, m2) ==> move_row(m2) <= move_row(m)))
    &&& (!exists_big_grab(s) && center_stage_applies(s)) ==> (center_rule_a(s, m)
        || center_rule_b(s, m) || center_rule_c(s, m))
    &&& (!exists_big_grab(s) && !center_stage_applies(s) && !first_stage_applies(s)) ==> (forall|
        m2: Move,
    |
        #[trigger] legal_move(s, m2) ==> general_score(s, m2) <= general_score(s, m))
}

/// An agent that chooses by the prioritized heuristics: exact fills first,
/// then center moves while the marker is untouched, then a first-move rule,
/// then the general score.
#[derive(Debug)]
pub struct HeuristicAI;

impl HeuristicAI {
    /// Chooses a legal move by the rule cascade, or nothing when no move is
    /// legal.
    pub fn choose_move(game_state: &GameState) -> (r: Option<Move>)
        requires
            state_wf(game_state@),
        ensures
            r is None <==> (forall|m: Move| !legal_move(game_state@, m)),
            r matches Some(m) ==> heuristic_choice(game_state@, m),
            r matches Some(m) ==> legal_move(game_state@, m),
            exists_big_grab(game_state@) ==> (r matches Some(m) && big_grab(game_state@, m) && (
            forall|m2: Move|
                #[trigger] legal_move(game_state@, m2) && big_grab(game_state@, m2) ==> move_row(m2)
                    <= move_row(m))),
            (!exists_big_grab(game_state@) && center_stage_applies(game_state@)) ==> (r matches Some(
                m,
            ) && (center_rule_a(game_state@, m) || center_rule_b(game_state@, m) || center_rule_c(
                game_state@,
                m,
            ))),
            (!exists_big_grab(game_state@) && !center_stage_applies(game_state@)
                && !first_stage_applies(game_state@) && (exists|m: Move|
                legal_move(game_state@, m))) ==> (r matches Some(m) && (forall|m2: Move|
                #[trigger] legal_move(game_state@, m2) ==> general_score(game_state@, m2)
                    <= general_score(game_state@, m))),
    {
        let ghost s = game_state@;
        let legal_moves = game_state.get_legal_moves();
        proof {
            if legal_moves@.len() == 0 {
                assert forall|m: Move| !legal_move(s, m) by {
                    if legal_move(s, m) {
                        assert(legal_moves@.contains(m));
                    }
                }
            } else {
                assert(legal_moves@.contains(legal_moves@[0]));
                assert(legal_move(s, legal_moves@[0]));
            }
            assert forall|k: int|
                0 <= k < legal_moves@.len() implies legal_move(s, #[trigger] legal_moves@[k]) by {
                assert(legal_moves@.contains(legal_moves@[k]));
            }
        }
        if legal_moves.len() == 0 {
            return None;
        }
        if let Some(best_move) = find_big_grab_move(game_state, &legal_moves) {
            proof {
                assert(legal_move(s, best_move));
                assert forall|m2: Move|
                    #[trigger] legal_move(s, m2) && big_grab(s, m2) implies move_row(m2)
                    <= move_row(best_move) by {
                    assert(legal_moves@.contains(m2));
                    let k = choose|k: int| 0 <= k < legal_moves@.len() && legal_moves@[k] == m2;
                }
            }
            return Some(best_move);
        }
        proof {
            assert(!exists_big_grab(s)) by {
                if exists_big_grab(s) {
                    let m = choose|m: Move| legal_move(s, m) && big_grab(s, m);
                    assert(legal_moves@.contains(m));
                    let k = choose|k: int| 0 <= k < legal_moves@.len() && legal_moves@[k] == m;
                }
            }
        }
        if game_state.first_player_marker_in_center {
            if let Some(best_move) = find_untouched_center_move(game_state, &legal_moves) {
                proof {
                    assert(legal_move(s, best_move));
                }
                return Some(best_move);
            }
            proof {
                assert(!center_stage_applies(s)) by {
                    if center_stage_applies(s) {
                        let m = choose|m: Move|
                            #[trigger] legal_move(s, m) && (center_rule_a(s, m) || center_rule_b(
                                s,
                                m,
                            ) || center_rule_c(s, m));
                        assert(legal_moves@.contains(m));
                        let k = choose|k: int| 0 <= k < legal_moves@.len() && legal_moves@[k] == m;
                    }
                }
            }
        } else {
            proof {
                assert(!center_stage_applies(s));
            }
        }
        if is_first_move_of_round(game_state) {
            if let Some(best_move) = find_first_move_priority(game_state, &legal_moves) {
                proof {
                    assert(legal_move(s, best_move));
                }
                return Some(best_move);
            }
            proof {
                assert(!first_stage_applies(s)) by {
                    if first_stage_applies(s) {
                        let m = choose|m: Move| #[trigger] legal_move(s, m) && first_move_rule(s, m);
                        assert(legal_moves@.contains(m));
                        let k = choose|k: int| 0 <= k < legal_moves@.len() && legal_moves@[k] == m;
                    }
                }
            }
        } else {
            proof {
                assert(!first_stage_applies(s));
            }
        }
        let r = find_best_general_move(game_state, &legal_moves);
        proof {
            let m = r->Some_0;
            assert(legal_move(s, m));
            assert forall|m2: Move| #[trigger] legal_move(s, m2) implies general_score(s, m2)
                <= general_score(s, m) by {
                assert(legal_moves@.contains(m2));
                let k = choose|k: int| 0 <= k < legal_moves@.len() && legal_moves@[k] == m2;
            }
        }
        r
    }
}

impl AIAgent for HeuristicAI {
    /// Chooses a move by the rule cascade, or nothing when no move is
    /// legal; the choice satisfies every cascade guarantee.
    fn get_move(&mut self, game_state: &GameState) -> (r: Option<Move>)
        ensures
            r is None <==> (forall|m: Move| !legal_move(game_state@, m)),
            r matches Some(m) ==> legal_move(game_state@, m),
            r matches Some(m) ==> heuristic_choice(game_state@, m),
    {
        HeuristicAI::choose_move(game_state)
    }
}

} // verus!

verus! {

use crate::state::{round_over, draftable_tiles, lemma_apply_move_decreases_tiles};
use crate::agent::scores_modest;

/// What any one refill of the factories guarantees, whatever the random
/// draws: the boards, turn and end flag stand, the center empties, the
/// marker returns, and the drawn tiles come from the bag and discard pile.
pub open spec fn refill_outcome(a: StateV, b: StateV) -> bool {
    &&& b.players == a.players
    &&& b.current_player_idx == a.current_player_idx
    &&& b.end_game_triggered == a.end_game_triggered
    &&& b.center.len() == 0
    &&& b.first_player_marker_in_center
    &&& b.factories.len() == a.factories.len()
    &&& crate::state::reserve_multiset(b) == a.tile_bag.to_multiset().add(
        a.discard_pile.to_multiset(),
    )
}

/// One step of a playout: at a round end the tiling phase and then some
/// refill outcome, otherwise a drafting move chosen by the rule cascade.
pub open spec fn playout_step(a: StateV, b: StateV) -> bool {
    if crate::state::round_over(a) {
        refill_outcome(crate::state::state_tiling_spec(a), b)
    } else {
        exists|m: Move|
            #[trigger] heuristic_choice(a, m) && b == crate::state::apply_move_spec(a, m)
    }
}

/// How many steps of a trace leave a finished round: its tiling-and-refill
/// steps.
pub open spec fn round_steps(tr: Seq<StateV>) -> int
    decreases tr.len(),
{
    if tr.len() <= 1 {
        0
    } else {
        round_steps(tr.drop_last()) + if crate::state::round_over(tr[tr.len() - 2]) {
            1int
        } else {
            0int
        }
    }
}

/// A playout trace: consecutive positions joined by playout steps.
pub open spec fn playout_trace(tr: Seq<StateV>) -> bool {
    forall|i: int| 0 <= i < tr.len() - 1 ==> #[trigger] playout_step(tr[i], tr[i + 1])
}

/// Plays a position to the end of the game with the heuristic chooser:
/// drafting moves until the round empties, then tiling and refilling,
/// until the end-game trigger is reached — or a generous round budget runs
/// out (guarding positions that can never end), or no move is legal.
/// Returns each player's final score after end-game bonuses of exactly
/// such a playout.
pub(crate) fn rollout_scores(game_state: &GameState) -> (r: Vec<u32>)
    requires
        state_wf(game_state@),
        scores_modest(game_state@),
    ensures
        r@.len() == game_state@.players.len(),
        forall|j: int| 0 <= j < r@.len() ==> r@[j] <= 1100000,
        exists|tr: Seq<StateV>|
            #[trigger] playout_trace(tr) && tr.len() >= 1 && tr[0] == game_state@
                && tr.last().players.len() == r@.len() && (tr.last().end_game_triggered
                || round_steps(tr) >= 1000 || (forall|m: Move| !legal_move(tr.last(), m))) && (
            forall|j: int|
                0 <= j < r@.len() ==> r@[j] as int == crate::state::state_tiling_spec(
                    tr.last(),
                ).players[j].score + crate::board::end_game_bonus(
                    crate::state::state_tiling_spec(tr.last()).players[j],
                )),
{
    let mut sim_state = game_state.clone();
    let ghost mut trace: Seq<StateV> = seq![game_state@];
    let mut fuel: usize = 1000;
    let mut stopped = false;
    while !sim_state.end_game_triggered && fuel > 0 && !stopped
        invariant
            state_wf(sim_state@),
            sim_state@.players.len() == game_state@.players.len(),
            fuel <= 1000,
            playout_trace(trace),
            trace.len() >= 1,
            trace[0] == game_state@,
            trace.last() == sim_state@,
            round_steps(trace) == 1000 - fuel,
            stopped ==> (forall|m: Move| !legal_move(sim_state@, m)),
            forall|i: int|
                0 <= i < sim_state@.players.len() ==> (#[trigger] sim_state@.players[i]).score
                    <= 1000000 + 50 * (1000 - fuel),
        decreases fuel, draftable_tiles(sim_state@), (if stopped { 0int } else { 1int }),
    {
        proof {
            crate::state::lemma_factories_total_nonneg_pub(sim_state@);
        }
        if sim_state.is_round_over() {
            proof {
                crate::state::lemma_state_tiling_score_bound(sim_state@);
            }
            let ghost s_before = sim_state@;
            sim_state.run_tiling_phase();
            let ghost s_tiled = sim_state@;
            sim_state.refill_factories();
            proof {
                assert(s_tiled == crate::state::state_tiling_spec(s_before));
                assert(refill_outcome(s_tiled, sim_state@));
                assert(playout_step(s_before, sim_state@));
                let tr2 = trace.push(sim_state@);
                assert forall|i: int| 0 <= i < tr2.len() - 1 implies #[trigger] playout_step(
                    tr2[i],
                    tr2[i + 1],
                ) by {
                    if i < trace.len() - 1 {
                        assert(playout_step(trace[i], trace[i + 1]));
                    }
                }
                assert(tr2.drop_last() =~= trace);
                assert(crate::state::round_over(tr2[tr2.len() - 2]));
                assert(round_steps(tr2) == round_steps(trace) + 1);
                trace = tr2;
            }
            fuel = fuel - 1;
        } else {
            let chosen = HeuristicAI::choose_move(&sim_state);
            match chosen {
                Some(best_move) => {
                    proof {
                        lemma_apply_move_decreases_tiles(sim_state@, best_move);
                        crate::state::lemma_legal_move_in_range(sim_state@, best_move);
                        crate::state::lemma_apply_move_preserves_scores(sim_state@, best_move);
                    }
                    let ghost s_before = sim_state@;
                    sim_state.apply_move(&best_move);
                    proof {
                        assert(playout_step(s_before, sim_state@)) by {
                            assert(heuristic_choice(s_before, best_move) && sim_state@
                                == crate::state::apply_move_spec(s_before, best_move));
                        }
                        let tr2 = trace.push(sim_state@);
                        assert forall|i: int| 0 <= i < tr2.len() - 1 implies #[trigger] playout_step(
                            tr2[i],
                            tr2[i + 1],
                        ) by {
                            if i < trace.len() - 1 {
                                assert(playout_step(trace[i], trace[i + 1]));
                            }
                        }
                        assert(tr2.drop_last() =~= trace);
                        assert(!crate::state::round_over(tr2[tr2.len() - 2]));
                        assert(round_steps(tr2) == round_steps(trace));
                        trace = tr2;
                    }
                },
                None => {
                    stopped = true;
                },
            }
        }
    }
    let ghost s_end = sim_state@;
    proof {
        assert(s_end.end_game_triggered || round_steps(trace) >= 1000 || (forall|m: Move|
            !legal_move(s_end, m)));
        crate::state::lemma_state_tiling_score_bound(sim_state@);
    }
    sim_state.run_tiling_phase();
    let ghost s_tiled_final = sim_state@;
    proof {
        assert(s_tiled_final == crate::state::state_tiling_spec(s_end));
        assert forall|i: int|
            0 <= i < sim_state@.players.len() implies (#[trigger] sim_state@.players[i]).score + 95
            <= u32::MAX by {}
    }
    sim_state.apply_end_game_scoring();
    proof {
        assert forall|i: int|
            0 <= i < sim_state@.players.len() implies (#[trigger] sim_state@.players[i]).score
            <= 1100000 by {
            crate::board::lemma_end_game_bonus_bound(sim_state@.players[i]);
        }
    }
    let ghost s_scored = sim_state@;
    let mut scores: Vec<u32> = Vec::new();
    let mut i: usize = 0;
    while i < sim_state.players.len()
        invariant
            state_wf(sim_state@),
            sim_state@ == s_scored,
            i <= sim_state@.players.len(),
            scores@.len() == i,
            forall|i2: int|
                0 <= i2 < sim_state@.players.len() ==> (#[trigger] sim_state@.players[i2]).score
                    <= 1100000,
            forall|j: int| 0 <= j < i ==> #[trigger] scores@[j] <= 1100000,
            forall|j: int| 0 <= j < i ==> #[trigger] scores@[j] == s_scored.players[j].score,
        decreases sim_state@.players.len() - i,
    {
        proof {
            assert(sim_state@.players[i as int] == sim_state.players@[i as int]@);
        }
        scores.push(sim_state.players[i].score);
        i = i + 1;
    }
    proof {
        assert(trace.last() == s_end);
        assert forall|j: int| 0 <= j < scores@.len() implies #[trigger] scores@[j] as int
            == crate::state::state_tiling_spec(s_end).players[j].score
            + crate::board::end_game_bonus(crate::state::state_tiling_spec(s_end).players[j]) by {
            assert(scores@[j] == s_scored.players[j].score);
            crate::board::lemma_end_game_bonus_bound(s_tiled_final.players[j]);
            assert(s_scored.players[j] == (crate::board::BoardV {
                score: (s_tiled_final.players[j].score + crate::board::end_game_bonus(
                    s_tiled_final.players[j],
                )) as u32,
                ..s_tiled_final.players[j]
            }));
            assert(crate::state::state_tiling_spec(s_end).players[j] == s_tiled_final.players[j]);
        }
        assert(playout_trace(trace) && trace.len() >= 1 && trace[0] == game_state@
            && trace.last().players.len() == scores@.len());
    }
    scores
}

} // verus!
