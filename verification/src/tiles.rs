//! Tile colors and bag summaries.
use vstd::prelude::*;

verus! {

/// One of the five tile colors drafted during the game.
#[derive(Debug, Clone, Copy, PartialEq, Eq, Structural, Hash)]
pub enum Tile {
    Blue,
    Yellow,
    Red,
    Black,
    White,
}

/// The numeric index of a color, used by the fixed-size encoding.
pub open spec fn color_index(t: Tile) -> int {
    match t {
        Tile::Blue => 0,
        Tile::Yellow => 1,
        Tile::Red => 2,
        Tile::Black => 3,
        Tile::White => 4,
    }
}

/// Maps a tile color to its slot index in the policy and feature encodings.
pub fn color_to_index(tile: Tile) -> (r: usize)
    ensures
        r == color_index(tile),
{
    match tile {
        Tile::Blue => 0,
        Tile::Yellow => 1,
        Tile::Red => 2,
        Tile::Black => 3,
        Tile::White => 4,
    }
}

/// The color with the given index.
pub open spec fn color_of_index(i: int) -> Tile {
    if i == 0 {
        Tile::Blue
    } else if i == 1 {
        Tile::Yellow
    } else if i == 2 {
        Tile::Red
    } else if i == 3 {
        Tile::Black
    } else {
        Tile::White
    }
}

/// Maps a slot index back to its tile color.
pub fn index_to_color(i: usize) -> (r: Tile)
    requires
        i < 5,
    ensures
        r == color_of_index(i as int),
        color_index(r) == i,
{
    if i == 0 {
        Tile::Blue
    } else if i == 1 {
        Tile::Yellow
    } else if i == 2 {
        Tile::Red
    } else if i == 3 {
        Tile::Black
    } else {
        Tile::White
    }
}

/// Distinct colors have distinct indices.
pub proof fn lemma_color_index_injective(a: Tile, b: Tile)
    ensures
        color_index(a) == color_index(b) ==> a == b,
{
}

/// How many tiles of a given color a sequence holds.
pub open spec fn count_color(s: Seq<Tile>, t: Tile) -> int {
    s.filter(|x: Tile| x == t).len() as int
}

/// Counts the tiles of one color in a collection.
pub fn count_tiles(v: &Vec<Tile>, t: Tile) -> (r: usize)
    ensures
        r == count_color(v@, t),
        r <= v@.len(),
{
    let mut cnt: usize = 0;
    let mut i: usize = 0;
    while i < v.len()
        invariant
            i <= v@.len(),
            cnt == count_color(v@.take(i as int), t),
            cnt <= i,
        decreases v@.len() - i,
    {
        proof {
            reveal(Seq::filter);
            assert(v@.take(i + 1).drop_last() =~= v@.take(i as int));
        }
        if v[i] == t {
            cnt = cnt + 1;
        }
        i = i + 1;
    }
    proof {
        assert(v@.take(v@.len() as int) =~= v@);
    }
    cnt
}

/// Per-color tallies of a collection of tiles.
#[derive(Debug, Clone, PartialEq, Eq, Structural)]
pub struct TileBagSummary {
    pub blue: usize,
    pub yellow: usize,
    pub red: usize,
    pub black: usize,
    pub white: usize,
}

impl TileBagSummary {
    /// Tallies the tiles of a bag, color by color.
    pub fn from_vec(tiles: &Vec<Tile>) -> (r: TileBagSummary)
        ensures
            r.blue == count_color(tiles@, Tile::Blue),
            r.yellow == count_color(tiles@, Tile::Yellow),
            r.red == count_color(tiles@, Tile::Red),
            r.black == count_color(tiles@, Tile::Black),
            r.white == count_color(tiles@, Tile::White),
    {
        let mut summary = TileBagSummary { blue: 0, yellow: 0, red: 0, black: 0, white: 0 };
        let mut i: usize = 0;
        while i < tiles.len()
            invariant
                i <= tiles@.len(),
                summary.blue == count_color(tiles@.take(i as int), Tile::Blue),
                summary.yellow == count_color(tiles@.take(i as int), Tile::Yellow),
                summary.red == count_color(tiles@.take(i as int), Tile::Red),
                summary.black == count_color(tiles@.take(i as int), Tile::Black),
                summary.white == count_color(tiles@.take(i as int), Tile::White),
            decreases tiles@.len() - i,
        {
            proof {
                reveal(Seq::filter);
                assert(tiles@.take(i + 1).drop_last() =~= tiles@.take(i as int));
            }
            match tiles[i] {
                Tile::Blue => summary.blue = summary.blue + 1,
                Tile::Yellow => summary.yellow = summary.yellow + 1,
                Tile::Red => summary.red = summary.red + 1,
                Tile::Black => summary.black = summary.black + 1,
                Tile::White => summary.white = summary.white + 1,
            }
            i = i + 1;
        }
        proof {
            assert(tiles@.take(tiles@.len() as int) =~= tiles@);
        }
        summary
    }
}

} // verus!
