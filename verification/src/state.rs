//! The full game position: player boards, factory displays, the shared
//! center pool, the tile bag and discard pile, and turn bookkeeping.
use vstd::prelude::*;

verus! {

use crate::tiles::{Tile, count_color};
use crate::moves::{Move, MoveSource, MoveDestination};
use crate::board::{
    PlayerBoard, BoardV, board_wf, placement_valid, board_eq, clone_tiles,
};

/// A complete game position.
#[derive(Debug)]
pub struct GameState {
    pub players: Vec<PlayerBoard>,
    pub factories: Vec<Vec<Tile>>,
    pub center: Vec<Tile>,
    pub tile_bag: Vec<Tile>,
    pub discard_pile: Vec<Tile>,
    pub current_player_idx: usize,
    pub first_player_marker_in_center: bool,
    pub end_game_triggered: bool,
}

/// The mathematical value of a [`GameState`].
#[verifier::ext_equal]
pub ghost struct StateV {
    pub players: Seq<BoardV>,
    pub factories: Seq<Seq<Tile>>,
    pub center: Seq<Tile>,
    pub tile_bag: Seq<Tile>,
    pub discard_pile: Seq<Tile>,
    pub current_player_idx: usize,
    pub first_player_marker_in_center: bool,
    pub end_game_triggered: bool,
}

impl View for GameState {
    type V = StateV;

    open spec fn view(&self) -> StateV {
        StateV {
            players: Seq::new(self.players@.len(), |i: int| self.players@[i]@),
            factories: Seq::new(self.factories@.len(), |i: int| self.factories@[i]@),
            center: self.center@,
            tile_bag: self.tile_bag@,
            discard_pile: self.discard_pile@,
            current_player_idx: self.current_player_idx,
            first_player_marker_in_center: self.first_player_marker_in_center,
            end_game_triggered: self.end_game_triggered,
        }
    }
}

/// Well-formedness of a position: at least one player, a valid acting-player
/// index, and dimensionally sound boards.
pub open spec fn state_wf(s: StateV) -> bool {
    &&& s.players.len() >= 1
    &&& (s.current_player_idx as int) < s.players.len()
    &&& forall|i: int| 0 <= i < s.players.len() ==> board_wf(#[trigger] s.players[i])
}

/// The tiles sitting at a move source.
pub open spec fn source_tiles(s: StateV, src: MoveSource) -> Seq<Tile> {
    match src {
        MoveSource::Factory(i) => s.factories[i as int],
        MoveSource::Center => s.center,
    }
}

/// Whether a source names an existing factory.
pub open spec fn source_in_range(s: StateV, src: MoveSource) -> bool {
    match src {
        MoveSource::Factory(i) => (i as int) < s.factories.len(),
        MoveSource::Center => true,
    }
}

/// The board of the player whose turn it is.
pub open spec fn acting_board(s: StateV) -> BoardV {
    s.players[s.current_player_idx as int]
}

/// A move is legal when its source holds at least one tile of its color and
/// its destination is the floor or a pattern line that accepts the color.
pub open spec fn legal_move(s: StateV, m: Move) -> bool {
    &&& source_in_range(s, m.source)
    &&& source_tiles(s, m.source).contains(m.tile)
    &&& match m.destination {
        MoveDestination::PatternLine(r) => r < 5 && placement_valid(
            acting_board(s),
            r as int,
            m.tile,
        ),
        MoveDestination::Floor => true,
    }
}

/// Whether a move's indices stay inside the position, so that applying it
/// cannot index out of bounds.  Every legal move is in range.
pub open spec fn move_in_range(s: StateV, m: Move) -> bool {
    &&& source_in_range(s, m.source)
    &&& (m.destination matches MoveDestination::PatternLine(r) ==> r < 5)
}

/// Whether a sequence of tiles holds a given color.
pub fn tiles_contain(v: &Vec<Tile>, t: Tile) -> (r: bool)
    ensures
        r == v@.contains(t),
{
    let mut i: usize = 0;
    while i < v.len()
        invariant
            i <= v@.len(),
            forall|k: int| 0 <= k < i ==> v@[k] != t,
        decreases v@.len() - i,
    {
        if v[i] == t {
            return true;
        }
        i = i + 1;
    }
    false
}

/// A sequence that extends a prefix keeps the prefix's elements.
proof fn lemma_prefix_contains(a: Seq<Move>, b: Seq<Move>)
    requires
        a.len() <= b.len(),
        b.take(a.len() as int) == a,
    ensures
        forall|m: Move| a.contains(m) ==> #[trigger] b.contains(m),
{
    assert forall|m: Move| a.contains(m) implies #[trigger] b.contains(m) by {
        let k = choose|k: int| 0 <= k < a.len() && a[k] == m;
        assert(b.take(a.len() as int)[k] == b[k]);
        assert(b[k] == m);
    }
}

/// Indexing inside a preserved prefix reads the prefix.
proof fn lemma_prefix_index(a: Seq<Move>, b: Seq<Move>, k: int)
    requires
        a.len() <= b.len(),
        b.take(a.len() as int) == a,
        0 <= k < a.len(),
    ensures
        b[k] == a[k],
{
    assert(b.take(a.len() as int)[k] == b[k]);
}

/// Appends every legal move that takes from one source, grouped by color
/// and then by destination row with the floor last.
fn push_moves_for_source(
    moves: &mut Vec<Move>,
    src: MoveSource,
    tiles: &Vec<Tile>,
    board: &PlayerBoard,
)
    requires
        board_wf(board@),
    ensures
        final(moves)@.len() >= old(moves)@.len(),
        final(moves)@.take(old(moves)@.len() as int) == old(moves)@,
        forall|k: int|
            old(moves)@.len() <= k < final(moves)@.len() ==> (#[trigger] final(moves)@[k]).source
                == src,
        forall|k1: int, k2: int|
            old(moves)@.len() <= k1 < k2 < final(moves)@.len() ==> final(moves)@[k1]
                != final(moves)@[k2],
        forall|m: Move|
            #[trigger] final(moves)@.contains(m) <==> (old(moves)@.contains(m) || (m.source == src
                && tiles@.contains(m.tile) && (m.destination matches MoveDestination::PatternLine(
                r,
            ) ==> r < 5 && placement_valid(board@, r as int, m.tile)))),
{
    let ghost n0 = moves@.len() as int;
    let mut ci: usize = 0;
    while ci < 5
        invariant
            ci <= 5,
            board_wf(board@),
            n0 == old(moves)@.len(),
            moves@.len() >= n0,
            moves@.take(n0) == old(moves)@,
            forall|k: int| n0 <= k < moves@.len() ==> (#[trigger] moves@[k]).source == src,
            forall|k: int|
                n0 <= k < moves@.len() ==> crate::tiles::color_index((#[trigger] moves@[k]).tile)
                    < ci,
            forall|k1: int, k2: int|
                n0 <= k1 < k2 < moves@.len() ==> moves@[k1] != moves@[k2],
            forall|m: Move|
                #[trigger] moves@.contains(m) <==> (old(moves)@.contains(m) || (m.source == src
                    && crate::tiles::color_index(m.tile) < ci && tiles@.contains(m.tile) && (
                m.destination matches MoveDestination::PatternLine(r) ==> r < 5 && placement_valid(
                    board@,
                    r as int,
                    m.tile,
                )))),
        decreases 5 - ci,
    {
        let t = crate::tiles::index_to_color(ci);
        if tiles_contain(tiles, t) {
            let ghost pre = moves@;
            let mut r: usize = 0;
            while r < 5
                invariant
                    r <= 5,
                    ci < 5,
                    t == crate::tiles::color_of_index(ci as int),
                    crate::tiles::color_index(t) == ci,
                    board_wf(board@),
                    tiles@.contains(t),
                    n0 == old(moves)@.len(),
                    n0 <= pre.len(),
                    pre.take(n0) == old(moves)@,
                    moves@.len() >= pre.len(),
                    moves@.take(pre.len() as int) == pre,
                    forall|k: int|
                        pre.len() <= k < moves@.len() ==> (#[trigger] moves@[k]).source == src
                            && moves@[k].tile == t,
                    forall|k: int|
                        pre.len() <= k < moves@.len() ==> ((#[trigger] moves@[k]).destination
                            matches MoveDestination::PatternLine(pr) && pr < r && placement_valid(
                            board@,
                            pr as int,
                            t,
                        )),
                    forall|k1: int, k2: int|
                        pre.len() <= k1 < k2 < moves@.len() ==> moves@[k1] != moves@[k2],
                    forall|pr: int|
                        0 <= pr < r && placement_valid(board@, pr, t) ==> moves@.contains(
                            Move {
                                source: src,
                                tile: t,
                                destination: MoveDestination::PatternLine(pr as usize),
                            },
                        ),
                decreases 5 - r,
            {
                if board.is_placement_valid(r, t) {
                    let ghost before = moves@;
                    moves.push(Move { source: src, tile: t, destination: MoveDestination::PatternLine(r) });
                    proof {
                        assert(moves@.take(pre.len() as int) =~= before.take(pre.len() as int));
                        assert(moves@.take(before.len() as int) =~= before);
                        lemma_prefix_contains(before, moves@);
                        assert(moves@.contains(moves@[moves@.len() - 1]));
                    }
                }
                r = r + 1;
            }
            let ghost before_floor = moves@;
            moves.push(Move { source: src, tile: t, destination: MoveDestination::Floor });
            proof {
                let floor_move = Move { source: src, tile: t, destination: MoveDestination::Floor };
                assert(moves@.take(before_floor.len() as int) =~= before_floor);
                lemma_prefix_contains(before_floor, moves@);
                assert(n0 <= pre.len());
                assert(before_floor.take(pre.len() as int) == pre);
                assert(pre.take(n0) == old(moves)@);
                assert forall|k: int| 0 <= k < n0 implies moves@[k] == old(moves)@[k] by {
                    lemma_prefix_index(before_floor, moves@, k);
                    lemma_prefix_index(pre, before_floor, k);
                    assert(pre.take(n0)[k] == pre[k]);
                }
                assert(moves@.take(n0) =~= old(moves)@);
                assert(moves@[moves@.len() - 1] == floor_move);
                assert(moves@.contains(floor_move));
                // every element of the block region is indexed by its position
                assert forall|k: int| n0 <= k < moves@.len() implies (#[trigger] moves@[k]).source
                    == src by {
                    if k < pre.len() {
                        lemma_prefix_index(before_floor, moves@, k);
                        lemma_prefix_index(pre, before_floor, k);
                    } else if k < before_floor.len() {
                        lemma_prefix_index(before_floor, moves@, k);
                    }
                }
                assert forall|k: int| n0 <= k < moves@.len() implies crate::tiles::color_index(
                    (#[trigger] moves@[k]).tile,
                ) < ci + 1 by {
                    if k < pre.len() {
                        lemma_prefix_index(before_floor, moves@, k);
                        lemma_prefix_index(pre, before_floor, k);
                    } else if k < before_floor.len() {
                        lemma_prefix_index(before_floor, moves@, k);
                    }
                }
                assert forall|k1: int, k2: int| n0 <= k1 < k2 < moves@.len() implies moves@[k1]
                    != moves@[k2] by {
                    if k2 < before_floor.len() {
                        lemma_prefix_index(before_floor, moves@, k1);
                        lemma_prefix_index(before_floor, moves@, k2);
                        if k2 < pre.len() {
                            lemma_prefix_index(pre, before_floor, k1);
                            lemma_prefix_index(pre, before_floor, k2);
                        } else if k1 < pre.len() {
                            lemma_prefix_index(pre, before_floor, k1);
                            // an old entry has a smaller color index than t
                            assert(crate::tiles::color_index(moves@[k1].tile) < ci);
                        }
                    } else {
                        // k2 is the floor move of this block
                        if k1 < pre.len() {
                            lemma_prefix_index(before_floor, moves@, k1);
                            lemma_prefix_index(pre, before_floor, k1);
                            assert(crate::tiles::color_index(moves@[k1].tile) < ci);
                        } else {
                            lemma_prefix_index(before_floor, moves@, k1);
                            assert(moves@[k1].destination matches MoveDestination::PatternLine(pr));
                        }
                    }
                }
                // membership, forward direction
                assert forall|m: Move| #[trigger] moves@.contains(m) implies (old(
                    moves,
                )@.contains(m) || (m.source == src && crate::tiles::color_index(m.tile) < ci + 1
                    && tiles@.contains(m.tile) && (m.destination matches
                MoveDestination::PatternLine(r) ==> r < 5 && placement_valid(
                    board@,
                    r as int,
                    m.tile,
                )))) by {
                    let k = choose|k: int| 0 <= k < moves@.len() && moves@[k] == m;
                    if k < pre.len() {
                        lemma_prefix_index(before_floor, moves@, k);
                        lemma_prefix_index(pre, before_floor, k);
                        assert(pre[k] == m);
                        assert(pre.contains(m));
                    } else if k < before_floor.len() {
                        lemma_prefix_index(before_floor, moves@, k);
                        assert(before_floor[k] == m);
                    }
                }
                // membership, backward direction
                assert forall|m: Move| (old(moves)@.contains(m) || (m.source == src
                    && crate::tiles::color_index(m.tile) < ci + 1 && tiles@.contains(m.tile) && (
                m.destination matches MoveDestination::PatternLine(r) ==> r < 5 && placement_valid(
                    board@,
                    r as int,
                    m.tile,
                )))) implies #[trigger] moves@.contains(m) by {
                    if old(moves)@.contains(m) || (m.source == src && crate::tiles::color_index(
                        m.tile,
                    ) < ci && tiles@.contains(m.tile) && (m.destination matches
                    MoveDestination::PatternLine(r) ==> r < 5 && placement_valid(
                        board@,
                        r as int,
                        m.tile,
                    ))) {
                        assert(pre.contains(m));
                        lemma_prefix_contains(pre, before_floor);
                        assert(before_floor.contains(m));
                    } else {
                        assert(m.source == src && crate::tiles::color_index(m.tile) == ci
                            && tiles@.contains(m.tile));
                        assert(m.tile == t) by {
                            crate::tiles::lemma_color_index_injective(m.tile, t);
                        }
                        match m.destination {
                            MoveDestination::PatternLine(pr) => {
                                assert(before_floor.contains(
                                    Move {
                                        source: src,
                                        tile: t,
                                        destination: MoveDestination::PatternLine(pr),
                                    },
                                ));
                            },
                            MoveDestination::Floor => {
                                assert(moves@[moves@.len() - 1] == m);
                            },
                        }
                    }
                }
            }
        } else {
            proof {
                assert forall|m: Move| (m.source == src && crate::tiles::color_index(m.tile) == ci
                    && tiles@.contains(m.tile)) implies false by {
                    crate::tiles::lemma_color_index_injective(m.tile, t);
                }
            }
        }
        ci = ci + 1;
    }
}

impl GameState {
    /// Lists every legal move of the acting player: for each factory and for
    /// the center, each available color may go to each pattern line that
    /// accepts it, or to the floor.  The result holds exactly the legal
    /// moves, without duplicates.
    pub fn get_legal_moves(&self) -> (r: Vec<Move>)
        requires
            state_wf(self@),
        ensures
            forall|m: Move| #[trigger] r@.contains(m) <==> legal_move(self@, m),
            forall|k1: int, k2: int| 0 <= k1 < k2 < r@.len() ==> r@[k1] != r@[k2],
    {
        let mut legal_moves: Vec<Move> = Vec::new();
        let current = self.current_player_idx;
        let ghost s = self@;
        let mut f: usize = 0;
        while f < self.factories.len()
            invariant
                state_wf(s),
                s == self@,
                current == self.current_player_idx,
                f <= self.factories@.len(),
                forall|k1: int, k2: int|
                    0 <= k1 < k2 < legal_moves@.len() ==> legal_moves@[k1] != legal_moves@[k2],
                forall|k: int|
                    0 <= k < legal_moves@.len() ==> ((#[trigger] legal_moves@[k]).source matches
                        MoveSource::Factory(i) && i < f),
                forall|m: Move|
                    #[trigger] legal_moves@.contains(m) <==> (legal_move(s, m) && (m.source matches
                        MoveSource::Factory(i) && i < f)),
            decreases self.factories@.len() - f,
        {
            proof {
                assert(self@.players[current as int] == self.players@[current as int]@);
                assert(self@.factories[f as int] == self.factories@[f as int]@);
            }
            let ghost before = legal_moves@;
            push_moves_for_source(
                &mut legal_moves,
                MoveSource::Factory(f),
                &self.factories[f],
                &self.players[current],
            );
            proof {
                assert forall|k: int| 0 <= k < before.len() implies legal_moves@[k] == before[k]
                    by {
                    lemma_prefix_index(before, legal_moves@, k);
                }
                assert forall|m: Move| #[trigger] legal_moves@.contains(m) implies (legal_move(
                    s,
                    m,
                ) && (m.source matches MoveSource::Factory(i) && i < f + 1)) by {
                    if !before.contains(m) {
                        assert(m.source == MoveSource::Factory(f));
                        assert(source_tiles(s, m.source) == self.factories@[f as int]@);
                    }
                }
                assert forall|k1: int, k2: int| 0 <= k1 < k2 < legal_moves@.len() implies
                    legal_moves@[k1] != legal_moves@[k2] by {
                    if k2 < before.len() {
                        lemma_prefix_index(before, legal_moves@, k1);
                        lemma_prefix_index(before, legal_moves@, k2);
                        assert(before[k1] != before[k2]);
                    } else if k1 < before.len() {
                        lemma_prefix_index(before, legal_moves@, k1);
                        assert(before[k1].source matches MoveSource::Factory(i) && i < f);
                        assert(legal_moves@[k2].source == MoveSource::Factory(f));
                    }
                }
                assert forall|k: int| 0 <= k < legal_moves@.len() implies ((
                #[trigger] legal_moves@[k]).source matches MoveSource::Factory(i) && i < f + 1)
                    by {
                    if k < before.len() {
                        assert(legal_moves@[k] == before[k]);
                    }
                }
                assert forall|m: Move| (legal_move(s, m) && (m.source matches
                    MoveSource::Factory(i) && i < f + 1)) implies #[trigger] legal_moves@.contains(
                    m,
                ) by {
                    let i = m.source->Factory_0;
                    if i < f {
                        assert(before.contains(m));
                        let k = choose|k: int| 0 <= k < before.len() && before[k] == m;
                        assert(legal_moves@.take(before.len() as int)[k] == m);
                        assert(legal_moves@[k] == m);
                    } else {
                        assert(source_tiles(s, m.source) == self.factories@[f as int]@);
                    }
                }
            }
            f = f + 1;
        }
        proof {
            assert(self@.players[current as int] == self.players@[current as int]@);
        }
        let ghost before_center = legal_moves@;
        push_moves_for_source(
            &mut legal_moves,
            MoveSource::Center,
            &self.center,
            &self.players[current],
        );
        proof {
            assert forall|k: int| 0 <= k < before_center.len() implies legal_moves@[k]
                == before_center[k] by {
                lemma_prefix_index(before_center, legal_moves@, k);
            }
            assert forall|m: Move| #[trigger] legal_moves@.contains(m) implies legal_move(s, m)
                by {
                if !before_center.contains(m) {
                    assert(m.source == MoveSource::Center);
                    assert(source_tiles(s, m.source) == self.center@);
                }
            }
            assert forall|m: Move| legal_move(s, m) implies #[trigger] legal_moves@.contains(m)
                by {
                match m.source {
                    MoveSource::Factory(i) => {
                        assert(before_center.contains(m));
                        let k = choose|k: int|
                            0 <= k < before_center.len() && before_center[k] == m;
                        assert(legal_moves@.take(before_center.len() as int)[k] == m);
                        assert(legal_moves@[k] == m);
                    },
                    MoveSource::Center => {
                        assert(source_tiles(s, m.source) == self.center@);
                    },
                }
            }
            assert forall|k1: int, k2: int|
                0 <= k1 < k2 < legal_moves@.len() implies legal_moves@[k1] != legal_moves@[k2] by {
                if k2 < before_center.len() {
                    lemma_prefix_index(before_center, legal_moves@, k1);
                    lemma_prefix_index(before_center, legal_moves@, k2);
                    assert(before_center[k1] != before_center[k2]);
                } else if k1 < before_center.len() {
                    lemma_prefix_index(before_center, legal_moves@, k1);
                    assert(before_center[k1].source matches MoveSource::Factory(i));
                    assert(legal_moves@[k2].source == MoveSource::Center);
                }
            }
        }
        legal_moves
    }
}

} // verus!

verus! {

use crate::board::{place_tiles_spec, will_complete_row};

/// The tiles left at a source after every tile of one color is taken.
pub open spec fn removed_color(tiles: Seq<Tile>, t: Tile) -> Seq<Tile> {
    tiles.filter(|x: Tile| x != t)
}

/// The position after one drafting move: the chosen color leaves its
/// source, the rest of a factory moves to the center, the acting player
/// places the taken tiles (and the first-player marker on a first take from
/// the center), the end-game flag trips when a wall row is about to be
/// completed, and the turn passes to the next player.
pub open spec fn apply_move_spec(s: StateV, m: Move) -> StateV {
    let src = source_tiles(s, m.source);
    let cnt = count_color(src, m.tile);
    let rem = removed_color(src, m.tile);
    let cur = s.current_player_idx as int;
    let takes_marker = m.source is Center && s.first_player_marker_in_center;
    let b0 = s.players[cur];
    let b1 = BoardV {
        has_first_player_marker: b0.has_first_player_marker || takes_marker,
        ..b0
    };
    let b2 = place_tiles_spec(b1, Seq::new(cnt as nat, |j: int| m.tile), m.destination);
    StateV {
        players: s.players.update(cur, b2),
        factories: match m.source {
            MoveSource::Factory(i) => s.factories.update(i as int, Seq::<Tile>::empty()),
            MoveSource::Center => s.factories,
        },
        center: match m.source {
            MoveSource::Factory(i) => s.center + rem,
            MoveSource::Center => rem,
        },
        tile_bag: s.tile_bag,
        discard_pile: s.discard_pile,
        current_player_idx: ((cur + 1) % (s.players.len() as int)) as usize,
        first_player_marker_in_center: if m.source is Center {
            false
        } else {
            s.first_player_marker_in_center
        },
        end_game_triggered: s.end_game_triggered || (match m.destination {
            MoveDestination::PatternLine(r) => will_complete_row(b2, r as int),
            MoveDestination::Floor => false,
        }),
    }
}

/// Splits a source's tiles by one color: how many tiles match, and the
/// others in their original order.
fn partition_tiles(v: &Vec<Tile>, t: Tile) -> (r: (usize, Vec<Tile>))
    ensures
        r.0 == count_color(v@, t),
        r.1@ == removed_color(v@, t),
{
    let mut cnt: usize = 0;
    let mut rest: Vec<Tile> = Vec::new();
    let mut i: usize = 0;
    while i < v.len()
        invariant
            i <= v@.len(),
            cnt == count_color(v@.take(i as int), t),
            cnt <= i,
            rest@ == removed_color(v@.take(i as int), t),
        decreases v@.len() - i,
    {
        proof {
            reveal(Seq::filter);
            assert(v@.take(i + 1).drop_last() =~= v@.take(i as int));
        }
        if v[i] == t {
            cnt = cnt + 1;
        } else {
            rest.push(v[i]);
        }
        i = i + 1;
    }
    proof {
        assert(v@.take(v@.len() as int) =~= v@);
    }
    (cnt, rest)
}

impl GameState {
    /// Applies one drafting move for the acting player.
    pub fn apply_move(&mut self, player_move: &Move)
        requires
            state_wf(old(self)@),
            move_in_range(old(self)@, *player_move),
        ensures
            final(self)@ == apply_move_spec(old(self)@, *player_move),
            state_wf(final(self)@),
    {
        let ghost s0 = old(self)@;
        let current = self.current_player_idx;
        let (cnt, mut remaining) = match player_move.source {
            MoveSource::Factory(idx) => {
                proof {
                    assert(self@.factories[idx as int] == self.factories@[idx as int]@);
                }
                let r = partition_tiles(&self.factories[idx], player_move.tile);
                self.factories[idx] = Vec::new();
                proof {
                    assert(self@.factories =~= s0.factories.update(
                        idx as int,
                        Seq::<Tile>::empty(),
                    ));
                }
                r
            },
            MoveSource::Center => {
                let r = partition_tiles(&self.center, player_move.tile);
                r
            },
        };
        match player_move.source {
            MoveSource::Factory(_) => {
                self.center.append(&mut remaining);
            },
            MoveSource::Center => {
                self.center = remaining;
                if self.first_player_marker_in_center {
                    self.first_player_marker_in_center = false;
                    let p = &mut self.players[current];
                    p.has_first_player_marker = true;
                }
            },
        }
        let mut taken: Vec<Tile> = Vec::new();
        let mut j: usize = 0;
        while j < cnt
            invariant
                j <= cnt,
                taken@ == Seq::new(j as nat, |k: int| player_move.tile),
            decreases cnt - j,
        {
            taken.push(player_move.tile);
            proof {
                assert(taken@ =~= Seq::new((j + 1) as nat, |k: int| player_move.tile));
            }
            j = j + 1;
        }
        let ghost b1 = self@.players[current as int];
        proof {
            assert(self@.players[current as int] == self.players@[current as int]@);
            assert(b1 =~~= BoardV {
                has_first_player_marker: s0.players[current as int].has_first_player_marker || (
                player_move.source is Center && s0.first_player_marker_in_center),
                ..s0.players[current as int]
            });
            assert(board_wf(s0.players[current as int]));
            assert(board_wf(b1));
        }
        let p = &mut self.players[current];
        p.place_tiles(&mut taken, &player_move.destination);
        let ghost b2 = self@.players[current as int];
        if let MoveDestination::PatternLine(idx) = player_move.destination {
            proof {
                assert(self@.players[current as int] == self.players@[current as int]@);
            }
            let completes = self.players[current].will_complete_horizontal_row(idx);
            if !self.end_game_triggered && completes {
                self.end_game_triggered = true;
            }
        }
        let nplayers = self.players.len();
        proof {
            assert(self.players@.len() == s0.players.len());
            assert(current < nplayers);
        }
        self.current_player_idx = (current + 1) % nplayers;
        proof {
            let spec_result = apply_move_spec(s0, *player_move);
            assert(b1 =~~= BoardV {
                has_first_player_marker: s0.players[current as int].has_first_player_marker || (
                player_move.source is Center && s0.first_player_marker_in_center),
                ..s0.players[current as int]
            });
            assert(b2 == place_tiles_spec(
                b1,
                Seq::new(cnt as nat, |k: int| player_move.tile),
                player_move.destination,
            ));
            assert(self@.players =~~= spec_result.players);
            assert(self@ =~~= spec_result);
        }
    }
}

} // verus!

verus! {

use crate::board::{board_tiling_spec, board_tiling_discard, completed_any, complete_row_count};

/// A round's drafting is over when every factory and the center are empty.
pub open spec fn round_over(s: StateV) -> bool {
    &&& forall|i: int| 0 <= i < s.factories.len() ==> (#[trigger] s.factories[i]).len() == 0
    &&& s.center.len() == 0
}

/// Splitting a source by one color accounts for every tile, and a present
/// color is counted at least once.
pub proof fn lemma_count_split(s: Seq<Tile>, t: Tile)
    ensures
        count_color(s, t) + removed_color(s, t).len() == s.len(),
        count_color(s, t) >= 0,
        s.contains(t) ==> count_color(s, t) >= 1,
    decreases s.len(),
{
    reveal(Seq::filter);
    if s.len() > 0 {
        lemma_count_split(s.drop_last(), t);
        if s.contains(t) && s.last() != t {
            let k = choose|k: int| 0 <= k < s.len() && s[k] == t;
            assert(s.drop_last()[k] == t);
            assert(s.drop_last().contains(t));
        }
    }
}

/// A legal move never indexes out of the position.
pub proof fn lemma_legal_move_in_range(s: StateV, m: Move)
    requires
        legal_move(s, m),
    ensures
        move_in_range(s, m),
{
}

/// Total number of tiles in the first `upto` factories.
pub open spec fn factories_total(fs: Seq<Seq<Tile>>, upto: int) -> int
    decreases upto,
{
    if upto <= 0 {
        0
    } else {
        factories_total(fs, upto - 1) + fs[upto - 1].len()
    }
}

/// Total number of draftable tiles on the table.
pub open spec fn draftable_tiles(s: StateV) -> int {
    factories_total(s.factories, s.factories.len() as int) + s.center.len()
}

proof fn lemma_factories_total_nonneg(fs: Seq<Seq<Tile>>, upto: int)
    ensures
        factories_total(fs, upto) >= 0,
    decreases upto,
{
    if upto > 0 {
        lemma_factories_total_nonneg(fs, upto - 1);
    }
}

proof fn lemma_factories_total_update_empty(fs: Seq<Seq<Tile>>, i: int, upto: int)
    requires
        0 <= i < fs.len(),
        upto <= fs.len(),
    ensures
        factories_total(fs.update(i, Seq::<Tile>::empty()), upto) == factories_total(fs, upto) - (
        if i < upto {
            fs[i].len() as int
        } else {
            0
        }),
    decreases upto,
{
    if upto > 0 {
        lemma_factories_total_update_empty(fs, i, upto - 1);
    }
}

/// A tiling phase adds at most fifty points to any player's score.
pub proof fn lemma_state_tiling_score_bound(s: StateV)
    requires
        state_wf(s),
    ensures
        forall|i: int|
            0 <= i < s.players.len() ==> (#[trigger] state_tiling_spec(s).players[i]).score
                <= s.players[i].score + 50,
{
    assert forall|i: int|
        0 <= i < s.players.len() implies (#[trigger] state_tiling_spec(s).players[i]).score
        <= s.players[i].score + 50 by {
        crate::board::lemma_tiling_gain_bound(s.players[i], 5);
        assert(state_tiling_spec(s).players[i] == board_tiling_spec(s.players[i]));
    }
}

/// The pool of draftable tiles is never negative.
pub proof fn lemma_factories_total_nonneg_pub(s: StateV)
    ensures
        draftable_tiles(s) >= 0,
{
    lemma_factories_total_nonneg(s.factories, s.factories.len() as int);
}

/// Applying a legal move strictly shrinks the pool of draftable tiles: the
/// taken tiles leave the table.
pub proof fn lemma_apply_move_decreases_tiles(s: StateV, m: Move)
    requires
        state_wf(s),
        legal_move(s, m),
    ensures
        draftable_tiles(apply_move_spec(s, m)) < draftable_tiles(s),
        draftable_tiles(apply_move_spec(s, m)) >= 0,
{
    let s2 = apply_move_spec(s, m);
    let src = source_tiles(s, m.source);
    lemma_count_split(src, m.tile);
    match m.source {
        MoveSource::Factory(i) => {
            lemma_factories_total_update_empty(s.factories, i as int, s.factories.len() as int);
            lemma_factories_total_nonneg(s2.factories, s2.factories.len() as int);
        },
        MoveSource::Center => {
            assert(s2.factories == s.factories);
            lemma_factories_total_nonneg(s2.factories, s2.factories.len() as int);
        },
    }
}

/// Applying a move never changes any player's score: drafting only moves
/// tiles.
pub proof fn lemma_apply_move_preserves_scores(s: StateV, m: Move)
    requires
        state_wf(s),
    ensures
        apply_move_spec(s, m).players.len() == s.players.len(),
        forall|i: int|
            0 <= i < s.players.len() ==> (#[trigger] apply_move_spec(s, m).players[i]).score == s.players[i].score,
{
    let s2 = apply_move_spec(s, m);
    assert forall|i: int| 0 <= i < s.players.len() implies (#[trigger] s2.players[i]).score
        == s.players[i].score by {
        if i == s.current_player_idx as int {
            assert(s2.players[i].score == s.players[i].score);
        }
    }
}

/// Copies a list of factory displays.
pub(crate) fn clone_factories(v: &Vec<Vec<Tile>>) -> (r: Vec<Vec<Tile>>)
    ensures
        r@.len() == v@.len(),
        forall|k: int| 0 <= k < v@.len() ==> #[trigger] r@[k]@ == v@[k]@,
{
    let mut r: Vec<Vec<Tile>> = Vec::new();
    let mut i: usize = 0;
    while i < v.len()
        invariant
            i <= v@.len(),
            r@.len() == i,
            forall|k: int| 0 <= k < i ==> #[trigger] r@[k]@ == v@[k]@,
        decreases v@.len() - i,
    {
        r.push(clone_tiles(&v[i]));
        i = i + 1;
    }
    r
}

/// Copies a list of player boards.
pub(crate) fn clone_players(v: &Vec<PlayerBoard>) -> (r: Vec<PlayerBoard>)
    ensures
        r@.len() == v@.len(),
        forall|k: int| 0 <= k < v@.len() ==> #[trigger] r@[k]@ == v@[k]@,
{
    let mut r: Vec<PlayerBoard> = Vec::new();
    let mut i: usize = 0;
    while i < v.len()
        invariant
            i <= v@.len(),
            r@.len() == i,
            forall|k: int| 0 <= k < i ==> #[trigger] r@[k]@ == v@[k]@,
        decreases v@.len() - i,
    {
        r.push(v[i].clone());
        i = i + 1;
    }
    r
}

impl Clone for GameState {
    /// Copies the position; the copy's mathematical value equals the
    /// original's.
    fn clone(&self) -> (r: Self)
        ensures
            r@ == self@,
    {
        let r = GameState {
            players: clone_players(&self.players),
            factories: clone_factories(&self.factories),
            center: clone_tiles(&self.center),
            tile_bag: clone_tiles(&self.tile_bag),
            discard_pile: clone_tiles(&self.discard_pile),
            current_player_idx: self.current_player_idx,
            first_player_marker_in_center: self.first_player_marker_in_center,
            end_game_triggered: self.end_game_triggered,
        };
        proof {
            assert(r@ =~~= self@);
        }
        r
    }
}

/// Compares two player lists by their full contents.
pub fn players_eq(a: &Vec<PlayerBoard>, b: &Vec<PlayerBoard>) -> (r: bool)
    ensures
        r == (Seq::new(a@.len(), |i: int| a@[i]@) == Seq::new(b@.len(), |i: int| b@[i]@)),
{
    let ghost av = Seq::new(a@.len(), |i: int| a@[i]@);
    let ghost bv = Seq::new(b@.len(), |i: int| b@[i]@);
    if a.len() != b.len() {
        proof {
            assert(av.len() != bv.len());
        }
        return false;
    }
    let mut i: usize = 0;
    while i < a.len()
        invariant
            a@.len() == b@.len(),
            av == Seq::new(a@.len(), |k: int| a@[k]@),
            bv == Seq::new(b@.len(), |k: int| b@[k]@),
            i <= a@.len(),
            forall|k: int| 0 <= k < i ==> av[k] == bv[k],
        decreases a@.len() - i,
    {
        if !board_eq(&a[i], &b[i]) {
            proof {
                assert(av[i as int] != bv[i as int]);
            }
            return false;
        }
        i = i + 1;
    }
    proof {
        assert(av =~= bv);
    }
    true
}

impl GameState {
    /// Whether the round's drafting phase is finished.
    pub fn is_round_over(&self) -> (r: bool)
        ensures
            r == round_over(self@),
    {
        let mut i: usize = 0;
        while i < self.factories.len()
            invariant
                i <= self.factories@.len(),
                forall|k: int| 0 <= k < i ==> (#[trigger] self@.factories[k]).len() == 0,
            decreases self.factories@.len() - i,
        {
            proof {
                assert(self@.factories[i as int] == self.factories@[i as int]@);
            }
            if self.factories[i].len() > 0 {
                return false;
            }
            i = i + 1;
        }
        self.center.len() == 0
    }
}

/// The least player index that holds the first-player marker, if any.
pub open spec fn first_marker_idx(players: Seq<BoardV>, upto: int) -> Option<int>
    decreases upto,
{
    if upto <= 0 {
        None
    } else {
        match first_marker_idx(players, upto - 1) {
            Some(i) => Some(i),
            None => if players[upto - 1].has_first_player_marker {
                Some(upto - 1)
            } else {
                None
            },
        }
    }
}

/// Who starts the next round: the marker holder, or the acting player if
/// nobody holds it.
pub open spec fn next_starter(s: StateV) -> int {
    match first_marker_idx(s.players, s.players.len() as int) {
        Some(i) => i,
        None => s.current_player_idx as int,
    }
}

/// The tiles that the first `upto` players' tiling phases discard, in
/// player order.
pub open spec fn tiling_discards(players: Seq<BoardV>, upto: int) -> Seq<Tile>
    decreases upto,
{
    if upto <= 0 {
        Seq::<Tile>::empty()
    } else {
        tiling_discards(players, upto - 1) + board_tiling_discard(players[upto - 1])
    }
}

/// The position after the whole table's tiling phase: every board tiled,
/// discards collected in player order, the end-game flag tripped by any
/// completed row, and the turn handed to the next round's starter.
pub open spec fn state_tiling_spec(s: StateV) -> StateV {
    StateV {
        players: Seq::new(s.players.len(), |i: int| board_tiling_spec(s.players[i])),
        discard_pile: s.discard_pile + tiling_discards(s.players, s.players.len() as int),
        current_player_idx: next_starter(s) as usize,
        end_game_triggered: s.end_game_triggered || (exists|i: int|
            0 <= i < s.players.len() && completed_any(#[trigger] s.players[i])),
        ..s
    }
}

impl GameState {
    /// Runs every player's tiling phase and prepares the next round's turn
    /// order.
    pub fn run_tiling_phase(&mut self)
        requires
            state_wf(old(self)@),
            forall|i: int|
                0 <= i < old(self)@.players.len() ==> (#[trigger] old(self)@.players[i]).score + 50
                    <= u32::MAX,
        ensures
            final(self)@ == state_tiling_spec(old(self)@),
            state_wf(final(self)@),
    {
        let ghost s0 = old(self)@;
        let mut starter = self.current_player_idx;
        let mut found = false;
        let mut i: usize = 0;
        while i < self.players.len()
            invariant
                state_wf(s0),
                s0 == self@,
                i <= self.players@.len(),
                !found ==> first_marker_idx(s0.players, i as int) is None && starter
                    == s0.current_player_idx,
                found ==> first_marker_idx(s0.players, i as int) == Some(starter as int),
                starter < self.players@.len() || starter == s0.current_player_idx,
            decreases self.players@.len() - i,
        {
            proof {
                assert(self@.players[i as int] == self.players@[i as int]@);
            }
            if !found && self.players[i].has_first_player_marker {
                starter = i;
                found = true;
            }
            i = i + 1;
        }
        proof {
            assert(starter as int == next_starter(s0));
        }
        let mut any_completed = false;
        let mut j: usize = 0;
        while j < self.players.len()
            invariant
                state_wf(s0),
                j <= self.players@.len(),
                self.players@.len() == s0.players.len(),
                self.factories@ == old(self).factories@,
                self.center@ == old(self).center@,
                self.tile_bag@ == old(self).tile_bag@,
                self.current_player_idx == old(self).current_player_idx,
                self.first_player_marker_in_center == old(self).first_player_marker_in_center,
                self.end_game_triggered == old(self).end_game_triggered,
                forall|i2: int|
                    0 <= i2 < s0.players.len() ==> (#[trigger] s0.players[i2]).score + 50
                        <= u32::MAX,
                forall|k: int|
                    j <= k < s0.players.len() ==> #[trigger] self.players@[k]@ == s0.players[k],
                forall|k: int|
                    0 <= k < j ==> #[trigger] self.players@[k]@ == board_tiling_spec(s0.players[k]),
                self.discard_pile@ == s0.discard_pile + tiling_discards(s0.players, j as int),
                any_completed == (exists|k: int|
                    0 <= k < j && completed_any(#[trigger] s0.players[k])),
            decreases self.players@.len() - j,
        {
            proof {
                assert(self.players@[j as int]@ == s0.players[j as int]);
                assert(board_wf(s0.players[j as int]));
            }
            let p = &mut self.players[j];
            let completed = p.run_tiling_phase(&mut self.discard_pile);
            if completed {
                any_completed = true;
            }
            proof {
                assert(self.discard_pile@ =~= s0.discard_pile + tiling_discards(
                    s0.players,
                    j + 1,
                ));
            }
            j = j + 1;
        }
        self.current_player_idx = starter;
        if any_completed {
            self.end_game_triggered = true;
        }
        proof {
            assert(self@.players =~~= state_tiling_spec(s0).players);
            assert(self@ =~~= state_tiling_spec(s0));
            assert forall|k: int| 0 <= k < self@.players.len() implies board_wf(
                #[trigger] self@.players[k],
            ) by {
                assert(self@.players[k] == board_tiling_spec(s0.players[k]));
                assert(board_wf(s0.players[k]));
                crate::board::lemma_wall_after_frame(s0.players[k], 5);
            }
        }
    }

    /// Adds each player's end-of-game bonuses to their score.
    pub fn apply_end_game_scoring(&mut self)
        requires
            state_wf(old(self)@),
            forall|i: int|
                0 <= i < old(self)@.players.len() ==> (#[trigger] old(self)@.players[i]).score + 95
                    <= u32::MAX,
        ensures
            final(self)@.players.len() == old(self)@.players.len(),
            forall|i: int|
                0 <= i < old(self)@.players.len() ==> #[trigger] final(self)@.players[i] == (
                BoardV {
                    score: (old(self)@.players[i].score + crate::board::end_game_bonus(
                        old(self)@.players[i],
                    )) as u32,
                    ..old(self)@.players[i]
                }),
            final(self)@ == (StateV { players: final(self)@.players, ..old(self)@ }),
            state_wf(final(self)@),
    {
        let ghost s0 = old(self)@;
        let mut i: usize = 0;
        while i < self.players.len()
            invariant
                state_wf(s0),
                i <= self.players@.len(),
                self.players@.len() == s0.players.len(),
                self.factories@ == old(self).factories@,
                self.center@ == old(self).center@,
                self.tile_bag@ == old(self).tile_bag@,
                self.discard_pile@ == old(self).discard_pile@,
                self.current_player_idx == old(self).current_player_idx,
                self.first_player_marker_in_center == old(self).first_player_marker_in_center,
                self.end_game_triggered == old(self).end_game_triggered,
                forall|i2: int|
                    0 <= i2 < s0.players.len() ==> (#[trigger] s0.players[i2]).score + 95
                        <= u32::MAX,
                forall|k: int|
                    i <= k < s0.players.len() ==> #[trigger] self.players@[k]@ == s0.players[k],
                forall|k: int|
                    0 <= k < i ==> #[trigger] self.players@[k]@ == (BoardV {
                        score: (s0.players[k].score + crate::board::end_game_bonus(
                            s0.players[k],
                        )) as u32,
                        ..s0.players[k]
                    }),
            decreases self.players@.len() - i,
        {
            proof {
                assert(self.players@[i as int]@ == s0.players[i as int]);
                assert(board_wf(s0.players[i as int]));
            }
            let bonus = self.players[i].calculate_end_game_bonuses();
            let p = &mut self.players[i];
            p.score = p.score + bonus;
            i = i + 1;
        }
        proof {
            assert(self@ =~~= StateV { players: self@.players, ..s0 });
        }
    }
}

/// Lexicographic comparison of final standings: score first, then number
/// of complete wall rows.
pub open spec fn standing_ge(a: BoardV, b: BoardV) -> bool {
    ||| a.score > b.score
    ||| (a.score == b.score && complete_row_count(a.wall, 5) >= complete_row_count(b.wall, 5))
}

impl GameState {
    /// The index of the winning player: the last index that is maximal by
    /// score and then by complete wall rows.
    pub fn winner_index(&self) -> (r: usize)
        requires
            state_wf(self@),
        ensures
            r < self@.players.len(),
            forall|k: int|
                0 <= k < self@.players.len() ==> standing_ge(
                    self@.players[r as int],
                    #[trigger] self@.players[k],
                ),
            forall|k: int|
                r < k < self@.players.len() ==> !standing_ge(
                    #[trigger] self@.players[k],
                    self@.players[r as int],
                ),
    {
        let mut best: usize = 0;
        let mut best_score = self.players[0].score;
        proof {
            assert(self@.players[0] == self.players@[0]@);
        }
        let mut best_rows = self.players[0].count_complete_rows();
        let mut i: usize = 1;
        while i < self.players.len()
            invariant
                state_wf(self@),
                1 <= i <= self.players@.len(),
                best < i,
                best_score == self@.players[best as int].score,
                best_rows == complete_row_count(self@.players[best as int].wall, 5),
                forall|k: int|
                    0 <= k < i ==> standing_ge(
                        self@.players[best as int],
                        #[trigger] self@.players[k],
                    ),
                forall|k: int|
                    best < k < i ==> !standing_ge(
                        #[trigger] self@.players[k],
                        self@.players[best as int],
                    ),
            decreases self.players@.len() - i,
        {
            proof {
                assert(self@.players[i as int] == self.players@[i as int]@);
                assert(board_wf(self@.players[i as int]));
            }
            let score_i = self.players[i].score;
            let rows_i = self.players[i].count_complete_rows();
            if score_i > best_score || (score_i == best_score && rows_i >= best_rows) {
                best = i;
                best_score = score_i;
                best_rows = rows_i;
            }
            i = i + 1;
        }
        best
    }

    /// Whether another player matches the winner's score and complete-row
    /// count without being board-for-board identical.
    pub fn winner_is_tied(&self, winner: usize) -> (r: bool)
        requires
            state_wf(self@),
            winner < self@.players.len(),
        ensures
            r == (exists|k: int|
                0 <= k < self@.players.len() && #[trigger] self@.players[k] != self@.players[
                    winner as int
                ] && self@.players[k].score == self@.players[winner as int].score
                    && complete_row_count(self@.players[k].wall, 5) == complete_row_count(
                    self@.players[winner as int].wall,
                    5,
                )),
    {
        let wscore = self.players[winner].score;
        proof {
            assert(self@.players[winner as int] == self.players@[winner as int]@);
        }
        let wrows = self.players[winner].count_complete_rows();
        let mut i: usize = 0;
        while i < self.players.len()
            invariant
                state_wf(self@),
                winner < self@.players.len(),
                i <= self.players@.len(),
                wscore == self@.players[winner as int].score,
                wrows == complete_row_count(self@.players[winner as int].wall, 5),
                forall|k: int|
                    0 <= k < i ==> !(#[trigger] self@.players[k] != self@.players[winner as int]
                        && self@.players[k].score == wscore && complete_row_count(
                        self@.players[k].wall,
                        5,
                    ) == wrows),
            decreases self.players@.len() - i,
        {
            proof {
                assert(self@.players[i as int] == self.players@[i as int]@);
                assert(board_wf(self@.players[i as int]));
            }
            let score_i = self.players[i].score;
            let rows_i = self.players[i].count_complete_rows();
            if score_i == wscore && rows_i == wrows {
                if !board_eq(&self.players[i], &self.players[winner]) {
                    return true;
                }
            }
            i = i + 1;
        }
        false
    }
}

/// The player-visible part of a position, captured for game logs before a
/// move is applied.
#[derive(Debug)]
pub struct TurnState {
    pub players: Vec<PlayerBoard>,
    pub factories: Vec<Vec<Tile>>,
    pub center: Vec<Tile>,
    pub current_player_idx: usize,
    pub first_player_marker_in_center: bool,
    pub end_game_triggered: bool,
}

impl TurnState {
    /// Captures the visible fields of a position.
    pub fn from_state(game_state: &GameState) -> (r: TurnState)
        ensures
            r.players@.len() == game_state.players@.len(),
            forall|k: int|
                0 <= k < game_state.players@.len() ==> #[trigger] r.players@[k]@
                    == game_state@.players[k],
            r.factories@.len() == game_state.factories@.len(),
            forall|k: int|
                0 <= k < game_state.factories@.len() ==> #[trigger] r.factories@[k]@
                    == game_state@.factories[k],
            r.center@ == game_state@.center,
            r.current_player_idx == game_state@.current_player_idx,
            r.first_player_marker_in_center == game_state@.first_player_marker_in_center,
            r.end_game_triggered == game_state@.end_game_triggered,
    {
        TurnState {
            players: clone_players(&game_state.players),
            factories: clone_factories(&game_state.factories),
            center: clone_tiles(&game_state.center),
            current_player_idx: game_state.current_player_idx,
            first_player_marker_in_center: game_state.first_player_marker_in_center,
            end_game_triggered: game_state.end_game_triggered,
        }
    }
}

} // verus!

verus! {

use vstd::seq_lib::group_seq_properties;
use vstd::multiset::Multiset;
use crate::rng::{rand_below, shuffle_tiles};

/// The tiles held by the first `upto` factories, as one multiset.
pub open spec fn factories_multiset(fs: Seq<Seq<Tile>>, upto: int) -> Multiset<Tile>
    decreases upto,
{
    if upto <= 0 {
        Multiset::<Tile>::empty()
    } else {
        factories_multiset(fs, upto - 1).add(fs[upto - 1].to_multiset())
    }
}

/// Every tile on the table or in reserve, as one multiset: the bag, the
/// discard pile and the factory displays together.
pub open spec fn reserve_multiset(s: StateV) -> Multiset<Tile> {
    s.tile_bag.to_multiset().add(s.discard_pile.to_multiset()).add(
        factories_multiset(s.factories, s.factories.len() as int),
    )
}

proof fn lemma_factories_multiset_frame(a: Seq<Seq<Tile>>, b: Seq<Seq<Tile>>, upto: int)
    requires
        forall|k: int| 0 <= k < upto ==> a[k] == b[k],
    ensures
        factories_multiset(a, upto) == factories_multiset(b, upto),
    decreases upto,
{
    if upto > 0 {
        lemma_factories_multiset_frame(a, b, upto - 1);
    }
}

/// The tile sequence the game starts from: twenty tiles of each color.
pub open spec fn initial_bag() -> Seq<Tile> {
    Seq::new(100, |i: int| crate::tiles::color_of_index(i / 20))
}

impl GameState {
    /// Empties each factory and refills it with up to four tiles drawn at
    /// random from the bag, turning the discard pile into a fresh bag
    /// whenever the bag runs dry.  The center is cleared and the
    /// first-player marker returns to it.  Whatever the draws, the refilled
    /// factories hold exactly the tiles that left the bag and discard pile.
    pub fn refill_factories(&mut self)
        ensures
            final(self)@.players == old(self)@.players,
            final(self)@.current_player_idx == old(self)@.current_player_idx,
            final(self)@.end_game_triggered == old(self)@.end_game_triggered,
            final(self)@.center.len() == 0,
            final(self)@.first_player_marker_in_center,
            final(self)@.factories.len() == old(self)@.factories.len(),
            forall|f: int|
                0 <= f < final(self)@.factories.len()
                    ==> (#[trigger] final(self)@.factories[f]).len() <= 4,
            (exists|f: int|
                0 <= f < final(self)@.factories.len()
                    && (#[trigger] final(self)@.factories[f]).len() < 4) ==> final(self)@.tile_bag.len() == 0 && final(self)@.discard_pile.len() == 0,
            reserve_multiset(final(self)@) == old(self)@.tile_bag.to_multiset().add(
                old(self)@.discard_pile.to_multiset(),
            ),
    {
        let ghost s0 = self@;
        let ghost m0 = s0.tile_bag.to_multiset().add(s0.discard_pile.to_multiset());
        let nf = self.factories.len();
        let mut f: usize = 0;
        while f < nf
            invariant
                nf == self.factories@.len(),
                f <= nf,
                self.players@ == old(self).players@,
                self.center@ == old(self).center@,
                self.current_player_idx == old(self).current_player_idx,
                self.first_player_marker_in_center == old(self).first_player_marker_in_center,
                self.end_game_triggered == old(self).end_game_triggered,
                m0 == old(self)@.tile_bag.to_multiset().add(old(self)@.discard_pile.to_multiset()),
                forall|k: int| 0 <= k < f ==> (#[trigger] self@.factories[k]).len() <= 4,
                (exists|k: int| 0 <= k < f && (#[trigger] self@.factories[k]).len() < 4)
                    ==> self.tile_bag@.len() == 0 && self.discard_pile@.len() == 0,
                self.tile_bag@.to_multiset().add(self.discard_pile@.to_multiset()).add(
                    factories_multiset(self@.factories, f as int),
                ) == m0,
            decreases nf - f,
        {
            let ghost fs_before = self@.factories;
            let ghost both_empty0 = self.tile_bag@.len() == 0 && self.discard_pile@.len() == 0;
            let mut fac: Vec<Tile> = Vec::new();
            let mut d: usize = 0;
            let mut stop = false;
            proof {
                broadcast use group_seq_properties;

                assert(fac@.to_multiset() =~= Multiset::<Tile>::empty());
            }
            while d < 4 && !stop
                invariant
                    d <= 4,
                    fac@.len() == d || stop,
                    stop ==> self.tile_bag@.len() == 0 && self.discard_pile@.len() == 0,
                    both_empty0 ==> self.tile_bag@.len() == 0 && self.discard_pile@.len() == 0
                        && fac@.len() == 0,
                    fac@.len() <= d,
                    nf == self.factories@.len(),
                    f < nf,
                    self@.factories == fs_before,
                    self.players@ == old(self).players@,
                    self.center@ == old(self).center@,
                    self.current_player_idx == old(self).current_player_idx,
                    self.first_player_marker_in_center == old(self).first_player_marker_in_center,
                    self.end_game_triggered == old(self).end_game_triggered,
                    self.tile_bag@.to_multiset().add(self.discard_pile@.to_multiset()).add(
                        factories_multiset(fs_before, f as int),
                    ).add(fac@.to_multiset()) == m0,
                decreases 4 - d, (if stop { 0int } else { 1int }),
            {
                if self.tile_bag.len() == 0 {
                    if self.discard_pile.len() == 0 {
                        stop = true;
                    } else {
                        let ghost old_bag = self.tile_bag@;
                        let ghost old_discard = self.discard_pile@;
                        core::mem::swap(&mut self.tile_bag, &mut self.discard_pile);
                        shuffle_tiles(&mut self.tile_bag);
                        proof {
                            assert(self.tile_bag@.to_multiset().add(
                                self.discard_pile@.to_multiset(),
                            ) =~= old_bag.to_multiset().add(old_discard.to_multiset()));
                        }
                    }
                }
                if !stop {
                    if self.tile_bag.len() > 0 {
                        let ghost old_bag = self.tile_bag@;
                        let ghost old_fac = fac@;
                        let k = rand_below(self.tile_bag.len());
                        let t = self.tile_bag.remove(k);
                        fac.push(t);
                        proof {
                            broadcast use group_seq_properties;

                            assert(self.tile_bag@.to_multiset() =~= old_bag.to_multiset().remove(
                                t,
                            ));
                            assert(fac@.to_multiset() =~= old_fac.to_multiset().insert(t));
                            assert(old_bag.to_multiset().count(t) >= 1) by {
                                assert(old_bag[k as int] == t);
                                assert(old_bag.contains(t));
                            }
                            assert(self.tile_bag@.to_multiset().add(
                                self.discard_pile@.to_multiset(),
                            ).add(factories_multiset(fs_before, f as int)).add(fac@.to_multiset())
                                =~= m0);
                        }
                    }
                    d = d + 1;
                }
            }
            self.factories[f] = fac;
            proof {
                assert forall|k: int|
                    0 <= k < f + 1 && (#[trigger] self@.factories[k]).len() < 4 implies
                    self.tile_bag@.len() == 0 && self.discard_pile@.len() == 0 by {
                    if k < f {
                        assert(fs_before[k].len() < 4);
                    }
                }
                assert(self@.factories =~= fs_before.update(f as int, fac@));
                lemma_factories_multiset_frame(self@.factories, fs_before, f as int);
                lemma_factories_prefix_step(self@.factories, f as int);
                assert(self@.factories[f as int] == fac@);
                assert(factories_multiset(self@.factories, f + 1) == factories_multiset(
                    fs_before,
                    f as int,
                ).add(fac@.to_multiset()));
                assert(self.tile_bag@.to_multiset().add(self.discard_pile@.to_multiset()).add(
                    factories_multiset(self@.factories, f + 1),
                ) =~= m0);
            }
            f = f + 1;
        }
        self.center.clear();
        self.first_player_marker_in_center = true;
        proof {
            assert(reserve_multiset(self@) == m0);
        }
    }
}

/// One more factory's tiles extend the prefix multiset.
proof fn lemma_factories_prefix_step(fs: Seq<Seq<Tile>>, f: int)
    requires
        0 <= f,
    ensures
        factories_multiset(fs, f + 1) == factories_multiset(fs, f).add(fs[f].to_multiset()),
{
}

impl GameState {
    /// Builds the opening position for the given number of players: empty
    /// boards, a shuffled bag of twenty tiles per color, and factory
    /// displays (five, seven or nine by player count) filled from the bag.
    pub fn new(num_players: usize) -> (r: GameState)
        requires
            2 <= num_players <= 4,
        ensures
            state_wf(r@),
            r@.players.len() == num_players,
            forall|i: int|
                0 <= i < num_players ==> #[trigger] r@.players[i] == crate::board::initial_board(),
            r@.factories.len() == (if num_players == 2 {
                5int
            } else if num_players == 3 {
                7int
            } else {
                9int
            }),
            forall|f: int|
                0 <= f < r@.factories.len() ==> (#[trigger] r@.factories[f]).len() <= 4,
            (exists|f: int|
                0 <= f < r@.factories.len() && (#[trigger] r@.factories[f]).len() < 4)
                ==> r@.tile_bag.len() == 0 && r@.discard_pile.len() == 0,
            r@.center.len() == 0,
            r@.current_player_idx == 0,
            r@.first_player_marker_in_center,
            !r@.end_game_triggered,
            reserve_multiset(r@) == initial_bag().to_multiset(),
    {
        proof {
            broadcast use group_seq_properties;

        }
        let mut players: Vec<PlayerBoard> = Vec::new();
        let mut i: usize = 0;
        while i < num_players
            invariant
                i <= num_players,
                players@.len() == i,
                forall|k: int|
                    0 <= k < i ==> #[trigger] players@[k]@ == crate::board::initial_board(),
            decreases num_players - i,
        {
            players.push(PlayerBoard::new());
            i = i + 1;
        }
        let mut tile_bag: Vec<Tile> = Vec::new();
        let mut ci: usize = 0;
        while ci < 5
            invariant
                ci <= 5,
                tile_bag@.len() == 20 * ci,
                tile_bag@ == initial_bag().take(20 * ci),
            decreases 5 - ci,
        {
            let t = crate::tiles::index_to_color(ci);
            let mut k: usize = 0;
            while k < 20
                invariant
                    k <= 20,
                    ci < 5,
                    t == crate::tiles::color_of_index(ci as int),
                    tile_bag@.len() == 20 * ci + k,
                    tile_bag@ == initial_bag().take(20 * ci + k),
                decreases 20 - k,
            {
                tile_bag.push(t);
                proof {
                    assert(initial_bag()[20 * (ci as int) + k] == t);
                    assert(tile_bag@ =~= initial_bag().take(20 * ci + k + 1));
                }
                k = k + 1;
            }
            ci = ci + 1;
        }
        proof {
            assert(tile_bag@ =~= initial_bag());
        }
        shuffle_tiles(&mut tile_bag);
        let num_factories: usize = if num_players == 2 {
            5
        } else if num_players == 3 {
            7
        } else {
            9
        };
        let mut factories: Vec<Vec<Tile>> = Vec::new();
        let mut fi: usize = 0;
        while fi < num_factories
            invariant
                fi <= num_factories,
                factories@.len() == fi,
                forall|k: int| 0 <= k < fi ==> (#[trigger] factories@[k]@).len() == 0,
            decreases num_factories - fi,
        {
            factories.push(Vec::new());
            fi = fi + 1;
        }
        let mut game_state = GameState {
            players,
            factories,
            center: Vec::new(),
            tile_bag,
            discard_pile: Vec::new(),
            current_player_idx: 0,
            first_player_marker_in_center: true,
            end_game_triggered: false,
        };
        proof {
            broadcast use group_seq_properties;

            lemma_factories_empty_prefix(game_state@.factories, num_factories as int);
            assert(reserve_multiset(game_state@) =~= initial_bag().to_multiset());
        }
        let ghost bag_before = game_state@.tile_bag;
        game_state.refill_factories();
        proof {
            broadcast use group_seq_properties;

            assert(reserve_multiset(game_state@) == bag_before.to_multiset().add(
                Seq::<Tile>::empty().to_multiset(),
            ));
            assert(Seq::<Tile>::empty().to_multiset() =~= Multiset::<Tile>::empty());
            assert(reserve_multiset(game_state@) =~= initial_bag().to_multiset());
        }
        game_state
    }
}

/// Empty factories contribute nothing to the multiset.
proof fn lemma_factories_empty_prefix(fs: Seq<Seq<Tile>>, upto: int)
    requires
        forall|k: int| 0 <= k < upto ==> (#[trigger] fs[k]).len() == 0,
    ensures
        factories_multiset(fs, upto) =~= Multiset::<Tile>::empty(),
    decreases upto,
{
    broadcast use vstd::multiset::group_multiset_axioms;
    broadcast use group_seq_properties;

    if upto > 0 {
        lemma_factories_empty_prefix(fs, upto - 1);
        assert(fs[upto - 1].to_multiset().len() == 0);
        vstd::multiset::lemma_multiset_empty_len(fs[upto - 1].to_multiset());
        assert(fs[upto - 1].to_multiset() =~= Multiset::<Tile>::empty());
    }
}

} // verus!
