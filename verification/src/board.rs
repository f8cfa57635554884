//! One player's board: score, pattern lines, wall, floor line and the
//! first-player marker.
use vstd::prelude::*;

verus! {

use crate::tiles::{Tile, color_index, color_to_index};
use crate::moves::MoveDestination;

/// Number of pattern-line rows and of wall rows.
pub const NUM_ROWS: usize = 5;

/// Number of wall columns.
pub const NUM_COLS: usize = 5;

/// A player's side of the table.
///
/// `pattern_lines[i]` holds at most `i + 1` tiles of one color waiting to be
/// tiled; `wall[i][j]` is the permanently placed tile of row `i`, column `j`,
/// if any; `floor_line` holds tiles that will be scored as penalties.
#[derive(Debug)]
pub struct PlayerBoard {
    pub score: u32,
    pub pattern_lines: Vec<Vec<Tile>>,
    pub wall: Vec<Vec<Option<Tile>>>,
    pub floor_line: Vec<Tile>,
    pub has_first_player_marker: bool,
}

/// The mathematical value of a [`PlayerBoard`].
#[verifier::ext_equal]
pub ghost struct BoardV {
    pub score: u32,
    pub pattern_lines: Seq<Seq<Tile>>,
    pub wall: Seq<Seq<Option<Tile>>>,
    pub floor_line: Seq<Tile>,
    pub has_first_player_marker: bool,
}

impl View for PlayerBoard {
    type V = BoardV;

    open spec fn view(&self) -> BoardV {
        BoardV {
            score: self.score,
            pattern_lines: Seq::new(self.pattern_lines@.len(), |i: int| self.pattern_lines@[i]@),
            wall: Seq::new(self.wall@.len(), |i: int| self.wall@[i]@),
            floor_line: self.floor_line@,
            has_first_player_marker: self.has_first_player_marker,
        }
    }
}

/// Dimensional well-formedness: five pattern lines of bounded length and a
/// five-by-five wall.
pub open spec fn board_wf(b: BoardV) -> bool {
    &&& b.pattern_lines.len() == 5
    &&& forall|i: int| 0 <= i < 5 ==> #[trigger] b.pattern_lines[i].len() <= i + 1
    &&& b.wall.len() == 5
    &&& forall|i: int| 0 <= i < 5 ==> #[trigger] b.wall[i].len() == 5
}

/// The wall column that holds the given color in the given row.  The wall
/// layout shifts the color order right by one column per row.
pub open spec fn wall_col(row: int, t: Tile) -> int {
    (color_index(t) + row) % 5
}

/// Computes the wall column of a color in a row.
pub fn wall_column_of(row: usize, tile: Tile) -> (c: usize)
    requires
        row < 5,
    ensures
        c == wall_col(row as int, tile),
        c < 5,
{
    (color_to_index(tile) + row) % 5
}

/// The color that the wall layout assigns to a cell.
pub open spec fn wall_color(row: int, col: int) -> Tile {
    crate::tiles::color_of_index(((col - row) % 5 + 5) % 5)
}

/// A pattern line is full when it holds as many tiles as its capacity.
pub open spec fn line_full(b: BoardV, r: int) -> bool {
    b.pattern_lines[r].len() == r + 1
}

/// How many cells of a wall row are already tiled.
pub open spec fn count_some(row: Seq<Option<Tile>>) -> int {
    row.filter(|x: Option<Tile>| x is Some).len() as int
}

/// A fresh, empty board.
pub open spec fn initial_board() -> BoardV {
    BoardV {
        score: 0,
        pattern_lines: Seq::new(5, |i: int| Seq::<Tile>::empty()),
        wall: Seq::new(5, |i: int| Seq::new(5, |j: int| None::<Tile>)),
        floor_line: Seq::<Tile>::empty(),
        has_first_player_marker: false,
    }
}

/// Whether tiles of a color may be placed on a pattern line: the line must
/// have room, hold only that color, and the matching wall cell must be free.
pub open spec fn placement_valid(b: BoardV, idx: int, t: Tile) -> bool {
    &&& b.pattern_lines[idx].len() < idx + 1
    &&& (b.pattern_lines[idx].len() == 0 || b.pattern_lines[idx][0] == t)
    &&& b.wall[idx][wall_col(idx, t)] is None
}

impl PlayerBoard {
    /// Builds an empty board with five pattern lines and a blank wall.
    pub fn new() -> (r: PlayerBoard)
        ensures
            r@ == initial_board(),
            board_wf(r@),
    {
        let mut pattern_lines: Vec<Vec<Tile>> = Vec::new();
        let mut i: usize = 0;
        while i < 5
            invariant
                i <= 5,
                pattern_lines@.len() == i,
                forall|k: int| 0 <= k < i ==> #[trigger] pattern_lines@[k]@ == Seq::<Tile>::empty(),
            decreases 5 - i,
        {
            pattern_lines.push(Vec::new());
            i = i + 1;
        }
        let mut wall: Vec<Vec<Option<Tile>>> = Vec::new();
        let mut r: usize = 0;
        while r < 5
            invariant
                r <= 5,
                wall@.len() == r,
                forall|k: int| 0 <= k < r ==> #[trigger] wall@[k]@ == Seq::new(5, |j: int| None::<Tile>),
            decreases 5 - r,
        {
            let mut row: Vec<Option<Tile>> = Vec::new();
            let mut c: usize = 0;
            while c < 5
                invariant
                    c <= 5,
                    row@.len() == c,
                    forall|k: int| 0 <= k < c ==> #[trigger] row@[k] is None,
                decreases 5 - c,
            {
                row.push(None);
                c = c + 1;
            }
            proof {
                assert(row@ =~= Seq::new(5, |j: int| None::<Tile>));
            }
            wall.push(row);
            r = r + 1;
        }
        let board = PlayerBoard {
            score: 0,
            pattern_lines,
            wall,
            floor_line: Vec::new(),
            has_first_player_marker: false,
        };
        proof {
            assert(board@ =~~= initial_board());
        }
        board
    }

    /// Whether a color may be placed on the given pattern line right now.
    pub fn is_placement_valid(&self, pattern_line_idx: usize, tile_color: Tile) -> (r: bool)
        requires
            pattern_line_idx < 5,
            board_wf(self@),
        ensures
            r == placement_valid(self@, pattern_line_idx as int, tile_color),
    {
        let line = &self.pattern_lines[pattern_line_idx];
        if line.len() >= pattern_line_idx + 1 {
            return false;
        }
        if line.len() > 0 && line[0] != tile_color {
            return false;
        }
        let col_idx = wall_column_of(pattern_line_idx, tile_color);
        proof {
            assert(self@.wall[pattern_line_idx as int] == self.wall@[pattern_line_idx as int]@);
        }
        if self.wall[pattern_line_idx][col_idx].is_some() {
            return false;
        }
        true
    }

    /// Whether tiling the given full pattern line would complete its wall row.
    pub(crate) fn will_complete_horizontal_row(&self, pattern_line_idx: usize) -> (r: bool)
        requires
            pattern_line_idx < 5,
            board_wf(self@),
        ensures
            r == will_complete_row(self@, pattern_line_idx as int),
    {
        if self.pattern_lines[pattern_line_idx].len() != pattern_line_idx + 1 {
            return false;
        }
        proof {
            assert(self@.wall[pattern_line_idx as int] == self.wall@[pattern_line_idx as int]@);
        }
        let filled = count_row_filled(&self.wall[pattern_line_idx]);
        filled == 4
    }

    /// How many wall rows are fully tiled.
    pub fn count_complete_rows(&self) -> (r: usize)
        requires
            board_wf(self@),
        ensures
            r == complete_row_count(self@.wall, 5),
            r <= 5,
    {
        let mut count: usize = 0;
        let mut i: usize = 0;
        while i < 5
            invariant
                i <= 5,
                board_wf(self@),
                count == complete_row_count(self@.wall, i as int),
                count <= i,
            decreases 5 - i,
        {
            proof {
                assert(self@.wall[i as int] == self.wall@[i as int]@);
            }
            let filled = count_row_filled(&self.wall[i]);
            if filled == 5 {
                proof {
                    lemma_count_some_full(self@.wall[i as int]);
                }
                count = count + 1;
            } else {
                proof {
                    lemma_count_some_full(self@.wall[i as int]);
                }
            }
            i = i + 1;
        }
        count
    }
}

/// Tiling this full line would put the fifth tile on its wall row.
pub open spec fn will_complete_row(b: BoardV, r: int) -> bool {
    &&& line_full(b, r)
    &&& count_some(b.wall[r]) == 4
}

/// A wall row is complete when all five cells are tiled.
pub open spec fn row_complete(w: Seq<Seq<Option<Tile>>>, r: int) -> bool {
    forall|c: int| 0 <= c < 5 ==> (#[trigger] w[r][c]) is Some
}

/// How many of the first `upto` wall rows are complete.
pub open spec fn complete_row_count(w: Seq<Seq<Option<Tile>>>, upto: int) -> int
    decreases upto,
{
    if upto <= 0 {
        0
    } else {
        complete_row_count(w, upto - 1) + if row_complete(w, upto - 1) {
            1int
        } else {
            0int
        }
    }
}

/// A full row holds five placed cells, and conversely.
pub proof fn lemma_count_some_full(row: Seq<Option<Tile>>)
    requires
        row.len() == 5,
    ensures
        count_some(row) == 5 <==> (forall|c: int| 0 <= c < 5 ==> (#[trigger] row[c]) is Some),
        count_some(row) == 4 <==> (exists|c: int|
            0 <= c < 5 && row[c] is None && forall|d: int|
                0 <= d < 5 && d != c ==> (#[trigger] row[d]) is Some),
        0 <= count_some(row) <= 5,
{
    lemma_count_some_pointwise(row, 5);
    assert(row.take(5) =~= row);
}

/// Counts the placed cells of one wall row.
pub fn count_row_filled(row: &Vec<Option<Tile>>) -> (r: usize)
    requires
        row@.len() == 5,
    ensures
        r == count_some(row@),
        r <= 5,
{
    let mut count: usize = 0;
    let mut i: usize = 0;
    while i < 5
        invariant
            i <= 5,
            row@.len() == 5,
            count == count_some(row@.take(i as int)),
            count <= i,
        decreases 5 - i,
    {
        proof {
            reveal(Seq::filter);
            assert(row@.take(i + 1).drop_last() =~= row@.take(i as int));
        }
        if row[i].is_some() {
            count = count + 1;
        }
        i = i + 1;
    }
    proof {
        assert(row@.take(5) =~= row@);
    }
    count
}

/// Relates a row's placed-cell count to its pointwise contents.
proof fn lemma_count_some_pointwise(row: Seq<Option<Tile>>, n: int)
    requires
        0 <= n <= row.len(),
    ensures
        0 <= count_some(row.take(n)) <= n,
        count_some(row.take(n)) == n <==> (forall|c: int|
            0 <= c < n ==> (#[trigger] row[c]) is Some),
        count_some(row.take(n)) == n - 1 <==> (exists|c: int|
            0 <= c < n && row[c] is None && forall|d: int|
                0 <= d < n && d != c ==> (#[trigger] row[d]) is Some),
    decreases n,
{
    reveal(Seq::filter);
    if n > 0 {
        lemma_count_some_pointwise(row, n - 1);
        assert(row.take(n).drop_last() =~= row.take(n - 1));
        assert(row.take(n).last() == row[n - 1]);
    }
}

} // verus!

verus! {

/// The last `k` elements of `tiles`, in reverse order: the order in which
/// they are moved one by one onto a pattern line.
pub open spec fn rev_tail(tiles: Seq<Tile>, k: int) -> Seq<Tile> {
    Seq::new(k as nat, |j: int| tiles[tiles.len() - 1 - j])
}

/// The board after placing a batch of tiles on the given destination:
/// tiles go to the floor line directly, or fill the pattern line from the
/// end of the batch with the overflow spilling onto the floor.
pub open spec fn place_tiles_spec(b: BoardV, tiles: Seq<Tile>, dest: MoveDestination) -> BoardV {
    match dest {
        MoveDestination::Floor => BoardV { floor_line: b.floor_line + tiles, ..b },
        MoveDestination::PatternLine(idx) => {
            let space = idx + 1 - b.pattern_lines[idx as int].len();
            let k = if tiles.len() <= space {
                tiles.len() as int
            } else {
                space
            };
            BoardV {
                pattern_lines: b.pattern_lines.update(
                    idx as int,
                    b.pattern_lines[idx as int] + rev_tail(tiles, k),
                ),
                floor_line: b.floor_line + tiles.take(tiles.len() - k),
                ..b
            }
        },
    }
}

impl PlayerBoard {
    /// Moves a batch of tiles onto the destination, filling a pattern line
    /// from the end of the batch and spilling the rest onto the floor line.
    /// The batch is drained.
    pub fn place_tiles(&mut self, tiles_to_place: &mut Vec<Tile>, destination: &MoveDestination)
        requires
            board_wf(old(self)@),
            destination matches MoveDestination::PatternLine(idx) ==> idx < 5,
        ensures
            final(tiles_to_place)@.len() == 0,
            final(self)@ == place_tiles_spec(
                old(self)@,
                old(tiles_to_place)@,
                *destination,
            ),
            board_wf(final(self)@),
    {
        match destination {
            MoveDestination::Floor => {
                self.floor_line.append(tiles_to_place);
                proof {
                    assert(self@ =~~= place_tiles_spec(
                        old(self)@,
                        old(tiles_to_place)@,
                        *destination,
                    ));
                }
            },
            MoveDestination::PatternLine(idx) => {
                let idx = *idx;
                let capacity = idx + 1;
                let ghost tiles0 = old(tiles_to_place)@;
                let ghost line0 = old(self)@.pattern_lines[idx as int];
                while tiles_to_place.len() > 0 && self.pattern_lines[idx].len() < capacity
                    invariant
                        idx < 5,
                        capacity == idx + 1,
                        board_wf(old(self)@),
                        tiles0 == old(tiles_to_place)@,
                        line0 == old(self)@.pattern_lines[idx as int],
                        tiles_to_place@.len() <= tiles0.len(),
                        tiles_to_place@ == tiles0.take(tiles_to_place@.len() as int),
                        self.pattern_lines@.len() == 5,
                        self.pattern_lines@[idx as int]@ == line0 + rev_tail(
                            tiles0,
                            tiles0.len() - tiles_to_place@.len(),
                        ),
                        self.pattern_lines@[idx as int]@.len() <= capacity,
                        tiles_to_place@.len() < tiles0.len() ==> self.pattern_lines@[
                            idx as int
                        ]@.len() > line0.len(),
                        forall|i: int|
                            0 <= i < 5 && i != idx ==> #[trigger] self.pattern_lines@[i]
                                == old(self).pattern_lines@[i],
                        self.score == old(self).score,
                        self.wall@ == old(self).wall@,
                        self.floor_line@ == old(self).floor_line@,
                        self.has_first_player_marker == old(self).has_first_player_marker,
                    decreases tiles_to_place@.len(),
                {
                    let t = match tiles_to_place.pop() {
                        Some(t) => t,
                        None => {
                            proof {
                                assert(false);
                            }
                            Tile::Blue
                        },
                    };
                    proof {
                        assert(tiles0.take((tiles_to_place@.len() + 1) as int).last() == tiles0[
                            tiles_to_place@.len() as int
                        ]);
                        assert(tiles0.take((tiles_to_place@.len() + 1) as int).drop_last()
                            =~= tiles0.take(tiles_to_place@.len() as int));
                    }
                    self.pattern_lines[idx].push(t);
                    proof {
                        assert(self.pattern_lines@[idx as int]@ =~= line0 + rev_tail(
                            tiles0,
                            tiles0.len() - tiles_to_place@.len(),
                        ));
                    }
                }
                let ghost rem = tiles_to_place@.len() as int;
                self.floor_line.append(tiles_to_place);
                proof {
                    let space = idx + 1 - line0.len();
                    let k = if tiles0.len() <= space {
                        tiles0.len() as int
                    } else {
                        space
                    };
                    let d = tiles0.len() - rem;
                    assert(self.pattern_lines@[idx as int]@.len() == line0.len() + d);
                    assert(d == k);
                    assert(self@.pattern_lines =~~= place_tiles_spec(
                        old(self)@,
                        tiles0,
                        *destination,
                    ).pattern_lines);
                    assert(self@ =~~= place_tiles_spec(old(self)@, tiles0, *destination));
                }
            },
        }
    }
}

} // verus!

verus! {

/// Length of the run of placed cells immediately left of `col` in `row`.
pub open spec fn run_left(w: Seq<Seq<Option<Tile>>>, row: int, col: int) -> int
    decreases col,
{
    if col <= 0 {
        0
    } else if w[row][col - 1] is Some {
        1 + run_left(w, row, col - 1)
    } else {
        0
    }
}

/// Length of the run of placed cells immediately right of `col` in `row`.
pub open spec fn run_right(w: Seq<Seq<Option<Tile>>>, row: int, col: int) -> int
    decreases 5 - col,
{
    if col >= 4 {
        0
    } else if w[row][col + 1] is Some {
        1 + run_right(w, row, col + 1)
    } else {
        0
    }
}

/// Length of the run of placed cells immediately above `row` in `col`.
pub open spec fn run_up(w: Seq<Seq<Option<Tile>>>, row: int, col: int) -> int
    decreases row,
{
    if row <= 0 {
        0
    } else if w[row - 1][col] is Some {
        1 + run_up(w, row - 1, col)
    } else {
        0
    }
}

/// Length of the run of placed cells immediately below `row` in `col`.
pub open spec fn run_down(w: Seq<Seq<Option<Tile>>>, row: int, col: int) -> int
    decreases 5 - row,
{
    if row >= 4 {
        0
    } else if w[row + 1][col] is Some {
        1 + run_down(w, row + 1, col)
    } else {
        0
    }
}

/// Points scored for placing a tile at a wall cell: the lengths of the
/// horizontal and vertical contiguous runs through the cell, counting the
/// cell itself in each; an isolated direction contributes only once.
pub open spec fn placement_score(w: Seq<Seq<Option<Tile>>>, row: int, col: int) -> int {
    let h = 1 + run_left(w, row, col) + run_right(w, row, col);
    let v = 1 + run_up(w, row, col) + run_down(w, row, col);
    if h > 1 && v > 1 {
        h + v
    } else if h > v {
        h
    } else {
        v
    }
}

pub proof fn lemma_run_left_bound(w: Seq<Seq<Option<Tile>>>, row: int, col: int)
    ensures
        0 <= run_left(w, row, col) <= if col >= 0 { col } else { 0 },
    decreases col,
{
    if col > 0 {
        lemma_run_left_bound(w, row, col - 1);
    }
}

pub proof fn lemma_run_right_bound(w: Seq<Seq<Option<Tile>>>, row: int, col: int)
    requires
        col <= 4,
    ensures
        0 <= run_right(w, row, col) <= 4 - col,
    decreases 5 - col,
{
    if col < 4 {
        lemma_run_right_bound(w, row, col + 1);
    }
}

pub proof fn lemma_run_up_bound(w: Seq<Seq<Option<Tile>>>, row: int, col: int)
    ensures
        0 <= run_up(w, row, col) <= if row >= 0 { row } else { 0 },
    decreases row,
{
    if row > 0 {
        lemma_run_up_bound(w, row - 1, col);
    }
}

pub proof fn lemma_run_down_bound(w: Seq<Seq<Option<Tile>>>, row: int, col: int)
    requires
        row <= 4,
    ensures
        0 <= run_down(w, row, col) <= 4 - row,
    decreases 5 - row,
{
    if row < 4 {
        lemma_run_down_bound(w, row + 1, col);
    }
}

/// A single placement scores between one and ten points.
pub proof fn lemma_placement_score_bound(w: Seq<Seq<Option<Tile>>>, row: int, col: int)
    requires
        0 <= row < 5,
        0 <= col < 5,
    ensures
        1 <= placement_score(w, row, col) <= 10,
{
    lemma_run_left_bound(w, row, col);
    lemma_run_right_bound(w, row, col);
    lemma_run_up_bound(w, row, col);
    lemma_run_down_bound(w, row, col);
}

/// The color waiting on a pattern line.
pub open spec fn row_color(b: BoardV, r: int) -> Tile {
    b.pattern_lines[r][0]
}

/// A pattern line is tiled onto the wall when it is full and its color's
/// wall cell is still free.
pub open spec fn row_tileable(b: BoardV, r: int) -> bool {
    &&& line_full(b, r)
    &&& b.wall[r][wall_col(r, row_color(b, r))] is None
}

/// The wall after tiling the first `upto` rows, in ascending row order.
pub open spec fn wall_after(b: BoardV, upto: int) -> Seq<Seq<Option<Tile>>>
    decreases upto,
{
    if upto <= 0 {
        b.wall
    } else {
        let w = wall_after(b, upto - 1);
        let r = upto - 1;
        if row_tileable(b, r) {
            w.update(r, w[r].update(wall_col(r, row_color(b, r)), Some(row_color(b, r))))
        } else {
            w
        }
    }
}

/// The points gained from tiling the first `upto` rows, each scored against
/// the wall as it stood when that row was tiled.
pub open spec fn tiling_gain(b: BoardV, upto: int) -> int
    decreases upto,
{
    if upto <= 0 {
        0
    } else {
        tiling_gain(b, upto - 1) + if row_tileable(b, upto - 1) {
            placement_score(
                wall_after(b, upto - 1),
                upto - 1,
                wall_col(upto - 1, row_color(b, upto - 1)),
            )
        } else {
            0int
        }
    }
}

/// The tiles of the first `upto` tiled pattern lines, in row order: they
/// are cleared to the discard pile.
pub open spec fn cleared_tiles(b: BoardV, upto: int) -> Seq<Tile>
    decreases upto,
{
    if upto <= 0 {
        Seq::<Tile>::empty()
    } else {
        cleared_tiles(b, upto - 1) + if row_tileable(b, upto - 1) {
            b.pattern_lines[upto - 1]
        } else {
            Seq::<Tile>::empty()
        }
    }
}

/// Penalty points for `n` items on the floor line, following the printed
/// penalty track; items past the seventh cost nothing.
pub open spec fn floor_penalty(n: int) -> int {
    if n <= 0 {
        0
    } else if n == 1 {
        1
    } else if n == 2 {
        2
    } else if n == 3 {
        4
    } else if n == 4 {
        6
    } else if n == 5 {
        8
    } else if n == 6 {
        11
    } else {
        14
    }
}

/// How many items count toward the floor penalty: floor tiles plus the
/// first-player marker if held.
pub open spec fn floor_items(b: BoardV) -> int {
    b.floor_line.len() + if b.has_first_player_marker {
        1int
    } else {
        0int
    }
}

/// Whether tiling completes at least one wall row.
pub open spec fn completed_any(b: BoardV) -> bool {
    exists|r: int| 0 <= r < 5 && #[trigger] row_tileable(b, r) && count_some(b.wall[r]) == 4
}

/// Subtraction on scores that stops at zero.
pub open spec fn sat_sub(a: int, p: int) -> int {
    if a - p < 0 {
        0
    } else {
        a - p
    }
}

/// The board after a full tiling phase: full lines tiled onto the wall in
/// row order, points gained and floor penalties paid, floor and marker
/// cleared.
pub open spec fn board_tiling_spec(b: BoardV) -> BoardV {
    BoardV {
        score: sat_sub(b.score + tiling_gain(b, 5), floor_penalty(floor_items(b))) as u32,
        pattern_lines: Seq::new(
            5,
            |r: int|
                if row_tileable(b, r) {
                    Seq::<Tile>::empty()
                } else {
                    b.pattern_lines[r]
                },
        ),
        wall: wall_after(b, 5),
        floor_line: Seq::<Tile>::empty(),
        has_first_player_marker: false,
    }
}

/// The tiles a tiling phase sends to the discard pile: the cleared pattern
/// lines in row order, then the whole floor line.
pub open spec fn board_tiling_discard(b: BoardV) -> Seq<Tile> {
    cleared_tiles(b, 5) + b.floor_line
}

/// The total tiling gain over five rows stays within fifty points.
pub proof fn lemma_tiling_gain_bound(b: BoardV, upto: int)
    requires
        0 <= upto <= 5,
    ensures
        0 <= tiling_gain(b, upto) <= 10 * upto,
    decreases upto,
{
    if upto > 0 {
        lemma_tiling_gain_bound(b, upto - 1);
        if row_tileable(b, upto - 1) {
            lemma_placement_score_bound(
                wall_after(b, upto - 1),
                upto - 1,
                wall_col(upto - 1, row_color(b, upto - 1)),
            );
        }
    }
}

/// The rows of the partially tiled wall keep their length, and rows at or
/// above `upto` are untouched.
pub proof fn lemma_wall_after_frame(b: BoardV, upto: int)
    requires
        board_wf(b),
        0 <= upto <= 5,
    ensures
        wall_after(b, upto).len() == 5,
        forall|r: int| 0 <= r < 5 ==> (#[trigger] wall_after(b, upto)[r]).len() == 5,
        forall|r: int| upto <= r < 5 ==> #[trigger] wall_after(b, upto)[r] == b.wall[r],
        forall|r: int|
            0 <= r < upto && !row_tileable(b, r) ==> #[trigger] wall_after(b, upto)[r] == b.wall[r],
        forall|r: int|
            0 <= r < upto && row_tileable(b, r) ==> #[trigger] wall_after(b, upto)[r] == b.wall[
                r
            ].update(wall_col(r, row_color(b, r)), Some(row_color(b, r))),
    decreases upto,
{
    if upto > 0 {
        lemma_wall_after_frame(b, upto - 1);
    }
}

/// Looks up the penalty for `n` floor items.
pub fn floor_penalty_of(n: usize) -> (r: u32)
    ensures
        r == floor_penalty(n as int),
        r <= 14,
{
    if n == 0 {
        0
    } else if n == 1 {
        1
    } else if n == 2 {
        2
    } else if n == 3 {
        4
    } else if n == 4 {
        6
    } else if n == 5 {
        8
    } else if n == 6 {
        11
    } else {
        14
    }
}

impl PlayerBoard {
    /// Scores the placement of a tile at the given wall cell by the runs it
    /// joins.
    fn calculate_placement_score(&self, row: usize, col: usize) -> (r: u32)
        requires
            row < 5,
            col < 5,
            board_wf(self@),
        ensures
            r == placement_score(self@.wall, row as int, col as int),
            1 <= r <= 10,
    {
        let ghost w = self@.wall;
        let mut horizontal: u32 = 1;
        let mut i: usize = col;
        while i > 0 && self.wall[row][i - 1].is_some()
            invariant
                board_wf(self@),
                w == self@.wall,
                row < 5,
                col < 5,
                i <= col,
                horizontal == 1 + (col - i),
                run_left(w, row as int, col as int) == col - i + run_left(w, row as int, i as int),
            decreases i,
        {
            proof {
                assert(self@.wall[row as int] == self.wall@[row as int]@);
            }
            i = i - 1;
            horizontal = horizontal + 1;
        }
        proof {
            assert(self@.wall[row as int] == self.wall@[row as int]@);
            assert(run_left(w, row as int, i as int) == 0);
        }
        let mut j: usize = col;
        while j < 4 && self.wall[row][j + 1].is_some()
            invariant
                board_wf(self@),
                w == self@.wall,
                row < 5,
                col <= j <= 4,
                horizontal == 1 + run_left(w, row as int, col as int) + (j - col),
                horizontal <= 1 + j,
                run_right(w, row as int, col as int) == j - col + run_right(w, row as int, j as int),
            decreases 4 - j,
        {
            proof {
                assert(self@.wall[row as int] == self.wall@[row as int]@);
            }
            j = j + 1;
            horizontal = horizontal + 1;
        }
        proof {
            assert(self@.wall[row as int] == self.wall@[row as int]@);
            assert(run_right(w, row as int, j as int) == 0);
        }
        let mut vertical: u32 = 1;
        let mut u: usize = row;
        while u > 0 && self.wall[u - 1][col].is_some()
            invariant
                board_wf(self@),
                w == self@.wall,
                row < 5,
                col < 5,
                u <= row,
                vertical == 1 + (row - u),
                run_up(w, row as int, col as int) == row - u + run_up(w, u as int, col as int),
            decreases u,
        {
            proof {
                assert(self@.wall[u - 1] == self.wall@[u - 1]@);
            }
            u = u - 1;
            vertical = vertical + 1;
        }
        proof {
            if u > 0 {
                assert(self@.wall[u - 1] == self.wall@[u - 1]@);
            }
            assert(run_up(w, u as int, col as int) == 0);
        }
        let mut d: usize = row;
        while d < 4 && self.wall[d + 1][col].is_some()
            invariant
                board_wf(self@),
                w == self@.wall,
                col < 5,
                row <= d <= 4,
                vertical == 1 + run_up(w, row as int, col as int) + (d - row),
                vertical <= 1 + d,
                run_down(w, row as int, col as int) == d - row + run_down(w, d as int, col as int),
            decreases 4 - d,
        {
            proof {
                assert(self@.wall[d + 1] == self.wall@[d + 1]@);
            }
            d = d + 1;
            vertical = vertical + 1;
        }
        proof {
            if d < 4 {
                assert(self@.wall[d + 1] == self.wall@[d + 1]@);
            }
            assert(run_down(w, d as int, col as int) == 0);
        }
        if horizontal > 1 && vertical > 1 {
            horizontal + vertical
        } else if horizontal > vertical {
            horizontal
        } else {
            vertical
        }
    }

    /// Runs the tiling phase of one board: moves each full pattern line's
    /// color onto the wall (top row first), scores the placements, pays the
    /// floor penalty, and sends cleared tiles and the floor line to the
    /// discard pile.  Returns whether a wall row was completed, which
    /// triggers the end of the game.
    #[verifier::rlimit(60)]
    pub fn run_tiling_phase(&mut self, discard_pile: &mut Vec<Tile>) -> (completed: bool)
        requires
            board_wf(old(self)@),
            old(self).score + 50 <= u32::MAX,
        ensures
            final(self)@ == board_tiling_spec(old(self)@),
            final(discard_pile)@ == old(discard_pile)@ + board_tiling_discard(old(self)@),
            completed == completed_any(old(self)@),
            board_wf(final(self)@),
    {
        let ghost b0 = old(self)@;
        let mut completed = false;
        let mut new_score: u32 = 0;
        let mut cleared: Vec<Tile> = Vec::new();
        let mut row_idx: usize = 0;
        while row_idx < 5
            invariant
                row_idx <= 5,
                board_wf(b0),
                b0.score == old(self).score,
                old(self).score + 50 <= u32::MAX,
                self.score == old(self).score,
                self.floor_line@ == b0.floor_line,
                self.has_first_player_marker == b0.has_first_player_marker,
                self.pattern_lines@.len() == 5,
                self.wall@.len() == 5,
                forall|r: int|
                    row_idx <= r < 5 ==> #[trigger] self.pattern_lines@[r]@ == b0.pattern_lines[r],
                forall|r: int|
                    0 <= r < row_idx ==> #[trigger] self.pattern_lines@[r]@ == (if row_tileable(
                        b0,
                        r,
                    ) {
                        Seq::<Tile>::empty()
                    } else {
                        b0.pattern_lines[r]
                    }),
                self@.wall =~= wall_after(b0, row_idx as int),
                new_score == tiling_gain(b0, row_idx as int),
                new_score <= 10 * row_idx,
                cleared@ == cleared_tiles(b0, row_idx as int),
                completed == (exists|r: int|
                    0 <= r < row_idx && #[trigger] row_tileable(b0, r) && count_some(b0.wall[r])
                        == 4),
            decreases 5 - row_idx,
        {
            proof {
                lemma_wall_after_frame(b0, row_idx as int);
                lemma_tiling_gain_bound(b0, row_idx as int);
            }
            if self.pattern_lines[row_idx].len() == row_idx + 1 {
                let tile_color = self.pattern_lines[row_idx][0];
                let col_idx = wall_column_of(row_idx, tile_color);
                proof {
                    assert(self@.wall[row_idx as int] == self.wall@[row_idx as int]@);
                    assert(self.pattern_lines@[row_idx as int]@ == b0.pattern_lines[
                        row_idx as int
                    ]);
                    assert(tile_color == row_color(b0, row_idx as int));
                }
                if self.wall[row_idx][col_idx].is_none() {
                    proof {
                        assert(row_tileable(b0, row_idx as int));
                        lemma_placement_score_bound(self@.wall, row_idx as int, col_idx as int);
                    }
                    let pscore = self.calculate_placement_score(row_idx, col_idx);
                    new_score = new_score + pscore;
                    let ghost wall_before = self@.wall;
                    self.wall[row_idx][col_idx] = Some(tile_color);
                    proof {
                        assert(self@.wall =~= wall_before.update(
                            row_idx as int,
                            wall_before[row_idx as int].update(col_idx as int, Some(tile_color)),
                        ));
                        assert(self@.wall =~= wall_after(b0, row_idx + 1));
                    }
                    cleared.append(&mut self.pattern_lines[row_idx]);
                    let filled = count_row_filled(&self.wall[row_idx]);
                    proof {
                        assert(self@.wall[row_idx as int] == self.wall@[row_idx as int]@);
                        lemma_count_some_full(b0.wall[row_idx as int]);
                        lemma_count_some_full(self@.wall[row_idx as int]);
                        assert(count_some(b0.wall[row_idx as int]) == 4 ==> filled == 5)
                        by {
                            if count_some(b0.wall[row_idx as int]) == 4 {
                                assert(self@.wall[row_idx as int] == b0.wall[row_idx as int].update(
                                    col_idx as int,
                                    Some(tile_color),
                                ));
                            }
                        };
                        assert(filled == 5 ==> count_some(b0.wall[row_idx as int]) == 4)
                        by {
                            if filled == 5 {
                                assert(self@.wall[row_idx as int] == b0.wall[row_idx as int].update(
                                    col_idx as int,
                                    Some(tile_color),
                                ));
                                assert forall|c: int|
                                    0 <= c < 5 && c != col_idx implies (#[trigger] b0.wall[
                                    row_idx as int
                                ][c]) is Some by {
                                    assert(self@.wall[row_idx as int][c] is Some);
                                    assert(b0.wall[row_idx as int][c] == self@.wall[
                                        row_idx as int
                                    ][c]);
                                }
                            }
                        };
                    }
                    if filled == 5 {
                        completed = true;
                    }
                } else {
                    proof {
                        assert(!row_tileable(b0, row_idx as int));
                    }
                }
            } else {
                proof {
                    assert(!line_full(b0, row_idx as int));
                    assert(!row_tileable(b0, row_idx as int));
                }
            }
            row_idx = row_idx + 1;
        }
        proof {
            lemma_tiling_gain_bound(b0, 5);
        }
        self.score = self.score + new_score;
        let base = self.floor_line.len();
        let marker_extra: usize = if self.has_first_player_marker {
            1
        } else {
            0
        };
        let n = if base >= 7 {
            7
        } else {
            base + marker_extra
        };
        proof {
            assert(floor_penalty(n as int) == floor_penalty(floor_items(b0)));
        }
        let penalty = floor_penalty_of(n);
        if self.score >= penalty {
            self.score = self.score - penalty;
        } else {
            self.score = 0;
        }
        discard_pile.append(&mut cleared);
        discard_pile.append(&mut self.floor_line);
        self.has_first_player_marker = false;
        proof {
            lemma_wall_after_frame(b0, 5);
            assert(self@ =~~= board_tiling_spec(b0));
            assert(final(discard_pile)@ =~= old(discard_pile)@ + board_tiling_discard(b0));
            assert(board_wf(self@));
        }
        completed
    }
}

} // verus!

verus! {

/// A wall column is complete when all five cells are tiled.
pub open spec fn col_complete(w: Seq<Seq<Option<Tile>>>, c: int) -> bool {
    forall|r: int| 0 <= r < 5 ==> (#[trigger] w[r][c]) is Some
}

/// How many of the first `upto` wall columns are complete.
pub open spec fn complete_col_count(w: Seq<Seq<Option<Tile>>>, upto: int) -> int
    decreases upto,
{
    if upto <= 0 {
        0
    } else {
        complete_col_count(w, upto - 1) + if col_complete(w, upto - 1) {
            1int
        } else {
            0int
        }
    }
}

/// How many cells of one wall row hold the given color.
pub open spec fn count_color_row(row: Seq<Option<Tile>>, t: Tile) -> int {
    row.filter(|x: Option<Tile>| x == Some(t)).len() as int
}

/// How many cells of the first `upto` wall rows hold the given color.
pub open spec fn color_cells(w: Seq<Seq<Option<Tile>>>, upto: int, t: Tile) -> int
    decreases upto,
{
    if upto <= 0 {
        0
    } else {
        color_cells(w, upto - 1, t) + count_color_row(w[upto - 1], t)
    }
}

/// A color is complete when all five of its wall cells are tiled.
pub open spec fn color_complete(w: Seq<Seq<Option<Tile>>>, t: Tile) -> bool {
    color_cells(w, 5, t) == 5
}

/// How many of the first `upto` colors (by index) are complete.
pub open spec fn complete_color_count(w: Seq<Seq<Option<Tile>>>, upto: int) -> int
    decreases upto,
{
    if upto <= 0 {
        0
    } else {
        complete_color_count(w, upto - 1) + if color_complete(
            w,
            crate::tiles::color_of_index(upto - 1),
        ) {
            1int
        } else {
            0int
        }
    }
}

/// End-of-game bonus points: two per complete row, seven per complete
/// column, ten per fully placed color.
pub open spec fn end_game_bonus(b: BoardV) -> int {
    2 * complete_row_count(b.wall, 5) + 7 * complete_col_count(b.wall, 5) + 10
        * complete_color_count(b.wall, 5)
}

/// Row, column and color tallies stay within their maxima.
pub proof fn lemma_bonus_counts_bound(w: Seq<Seq<Option<Tile>>>, upto: int)
    requires
        0 <= upto <= 5,
    ensures
        0 <= complete_row_count(w, upto) <= upto,
        0 <= complete_col_count(w, upto) <= upto,
        0 <= complete_color_count(w, upto) <= upto,
    decreases upto,
{
    if upto > 0 {
        lemma_bonus_counts_bound(w, upto - 1);
    }
}

/// End-of-game bonuses never exceed ninety-five points.
pub proof fn lemma_end_game_bonus_bound(b: BoardV)
    ensures
        0 <= end_game_bonus(b) <= 95,
{
    lemma_bonus_counts_bound(b.wall, 5);
}

/// Counts the cells of one wall row that hold the given color.
fn count_color_in_row(row: &Vec<Option<Tile>>, t: Tile) -> (r: usize)
    requires
        row@.len() == 5,
    ensures
        r == count_color_row(row@, t),
        r <= 5,
{
    let mut count: usize = 0;
    let mut i: usize = 0;
    while i < 5
        invariant
            i <= 5,
            row@.len() == 5,
            count == count_color_row(row@.take(i as int), t),
            count <= i,
        decreases 5 - i,
    {
        proof {
            reveal(Seq::filter);
            assert(row@.take(i + 1).drop_last() =~= row@.take(i as int));
        }
        match row[i] {
            Some(x) => {
                if x == t {
                    count = count + 1;
                }
            },
            None => {},
        }
        i = i + 1;
    }
    proof {
        assert(row@.take(5) =~= row@);
    }
    count
}

impl PlayerBoard {
    /// Sums the end-of-game bonuses for complete rows, complete columns and
    /// fully placed colors.
    pub fn calculate_end_game_bonuses(&self) -> (r: u32)
        requires
            board_wf(self@),
        ensures
            r == end_game_bonus(self@),
            r <= 95,
    {
        let ghost w = self@.wall;
        let mut bonus: u32 = 0;
        let mut row: usize = 0;
        while row < 5
            invariant
                row <= 5,
                board_wf(self@),
                w == self@.wall,
                bonus == 2 * complete_row_count(w, row as int),
                bonus <= 2 * row,
            decreases 5 - row,
        {
            proof {
                assert(self@.wall[row as int] == self.wall@[row as int]@);
                lemma_bonus_counts_bound(w, row as int);
            }
            let filled = count_row_filled(&self.wall[row]);
            proof {
                lemma_count_some_full(w[row as int]);
            }
            if filled == 5 {
                bonus = bonus + 2;
            }
            row = row + 1;
        }
        let mut col: usize = 0;
        while col < 5
            invariant
                col <= 5,
                board_wf(self@),
                w == self@.wall,
                bonus == 2 * complete_row_count(w, 5) + 7 * complete_col_count(w, col as int),
                bonus <= 10 + 7 * col,
            decreases 5 - col,
        {
            proof {
                lemma_bonus_counts_bound(w, 5);
                lemma_bonus_counts_bound(w, col as int);
            }
            let mut all_some = true;
            let mut r2: usize = 0;
            while r2 < 5
                invariant
                    r2 <= 5,
                    col < 5,
                    board_wf(self@),
                    w == self@.wall,
                    all_some == (forall|k: int| 0 <= k < r2 ==> (#[trigger] w[k][col as int]) is Some),
                decreases 5 - r2,
            {
                proof {
                    assert(self@.wall[r2 as int] == self.wall@[r2 as int]@);
                }
                if self.wall[r2][col].is_none() {
                    all_some = false;
                }
                r2 = r2 + 1;
            }
            if all_some {
                bonus = bonus + 7;
            }
            col = col + 1;
        }
        let mut ci: usize = 0;
        while ci < 5
            invariant
                ci <= 5,
                board_wf(self@),
                w == self@.wall,
                bonus == 2 * complete_row_count(w, 5) + 7 * complete_col_count(w, 5) + 10
                    * complete_color_count(w, ci as int),
                bonus <= 45 + 10 * ci,
            decreases 5 - ci,
        {
            proof {
                lemma_bonus_counts_bound(w, 5);
                lemma_bonus_counts_bound(w, ci as int);
            }
            let t = crate::tiles::index_to_color(ci);
            let mut cells: usize = 0;
            let mut r3: usize = 0;
            while r3 < 5
                invariant
                    r3 <= 5,
                    board_wf(self@),
                    w == self@.wall,
                    cells == color_cells(w, r3 as int, t),
                    cells <= 5 * r3,
                decreases 5 - r3,
            {
                proof {
                    assert(self@.wall[r3 as int] == self.wall@[r3 as int]@);
                }
                let c = count_color_in_row(&self.wall[r3], t);
                cells = cells + c;
                r3 = r3 + 1;
            }
            if cells == 5 {
                bonus = bonus + 10;
            }
            ci = ci + 1;
        }
        bonus
    }
}

/// Copies a vector of tiles.
pub(crate) fn clone_tiles(v: &Vec<Tile>) -> (r: Vec<Tile>)
    ensures
        r@ == v@,
{
    let mut r: Vec<Tile> = Vec::new();
    let mut i: usize = 0;
    while i < v.len()
        invariant
            i <= v@.len(),
            r@ == v@.take(i as int),
        decreases v@.len() - i,
    {
        r.push(v[i]);
        proof {
            assert(r@ =~= v@.take(i + 1));
        }
        i = i + 1;
    }
    proof {
        assert(v@.take(v@.len() as int) =~= v@);
    }
    r
}

/// Copies one wall row.
fn clone_opt_row(v: &Vec<Option<Tile>>) -> (r: Vec<Option<Tile>>)
    ensures
        r@ == v@,
{
    let mut r: Vec<Option<Tile>> = Vec::new();
    let mut i: usize = 0;
    while i < v.len()
        invariant
            i <= v@.len(),
            r@ == v@.take(i as int),
        decreases v@.len() - i,
    {
        r.push(v[i]);
        proof {
            assert(r@ =~= v@.take(i + 1));
        }
        i = i + 1;
    }
    proof {
        assert(v@.take(v@.len() as int) =~= v@);
    }
    r
}

impl Clone for PlayerBoard {
    /// Copies the board; the copy's mathematical value equals the original's.
    fn clone(&self) -> (r: Self)
        ensures
            r@ == self@,
    {
        let mut pattern_lines: Vec<Vec<Tile>> = Vec::new();
        let mut i: usize = 0;
        while i < self.pattern_lines.len()
            invariant
                i <= self.pattern_lines@.len(),
                pattern_lines@.len() == i,
                forall|k: int|
                    0 <= k < i ==> #[trigger] pattern_lines@[k]@ == self.pattern_lines@[k]@,
            decreases self.pattern_lines@.len() - i,
        {
            pattern_lines.push(clone_tiles(&self.pattern_lines[i]));
            i = i + 1;
        }
        let mut wall: Vec<Vec<Option<Tile>>> = Vec::new();
        let mut j: usize = 0;
        while j < self.wall.len()
            invariant
                j <= self.wall@.len(),
                wall@.len() == j,
                forall|k: int| 0 <= k < j ==> #[trigger] wall@[k]@ == self.wall@[k]@,
            decreases self.wall@.len() - j,
        {
            wall.push(clone_opt_row(&self.wall[j]));
            j = j + 1;
        }
        let r = PlayerBoard {
            score: self.score,
            pattern_lines,
            wall,
            floor_line: clone_tiles(&self.floor_line),
            has_first_player_marker: self.has_first_player_marker,
        };
        proof {
            assert(r@ =~~= self@);
        }
        r
    }
}

/// Compares two tile sequences.
pub(crate) fn tiles_eq(a: &Vec<Tile>, b: &Vec<Tile>) -> (r: bool)
    ensures
        r == (a@ == b@),
{
    if a.len() != b.len() {
        proof {
            assert(a@.len() != b@.len());
        }
        return false;
    }
    let mut i: usize = 0;
    while i < a.len()
        invariant
            a@.len() == b@.len(),
            i <= a@.len(),
            forall|k: int| 0 <= k < i ==> a@[k] == b@[k],
        decreases a@.len() - i,
    {
        if a[i] != b[i] {
            proof {
                assert(a@[i as int] != b@[i as int]);
            }
            return false;
        }
        i = i + 1;
    }
    proof {
        assert(a@ =~= b@);
    }
    true
}

/// Compares two wall rows.
fn opt_rows_eq(a: &Vec<Option<Tile>>, b: &Vec<Option<Tile>>) -> (r: bool)
    ensures
        r == (a@ == b@),
{
    if a.len() != b.len() {
        proof {
            assert(a@.len() != b@.len());
        }
        return false;
    }
    let mut i: usize = 0;
    while i < a.len()
        invariant
            a@.len() == b@.len(),
            i <= a@.len(),
            forall|k: int| 0 <= k < i ==> a@[k] == b@[k],
        decreases a@.len() - i,
    {
        if a[i] != b[i] {
            proof {
                assert(a@[i as int] != b@[i as int]);
            }
            return false;
        }
        i = i + 1;
    }
    proof {
        assert(a@ =~= b@);
    }
    true
}

/// Compares two boards by their full contents: score, pattern lines, wall,
/// floor line and marker.
pub fn board_eq(a: &PlayerBoard, b: &PlayerBoard) -> (r: bool)
    ensures
        r == (a@ == b@),
{
    if a.score != b.score {
        return false;
    }
    if a.has_first_player_marker != b.has_first_player_marker {
        return false;
    }
    if !tiles_eq(&a.floor_line, &b.floor_line) {
        return false;
    }
    if a.pattern_lines.len() != b.pattern_lines.len() {
        proof {
            assert(a@.pattern_lines.len() != b@.pattern_lines.len());
        }
        return false;
    }
    let mut i: usize = 0;
    while i < a.pattern_lines.len()
        invariant
            a.pattern_lines@.len() == b.pattern_lines@.len(),
            i <= a.pattern_lines@.len(),
            forall|k: int| 0 <= k < i ==> a@.pattern_lines[k] == b@.pattern_lines[k],
        decreases a.pattern_lines@.len() - i,
    {
        if !tiles_eq(&a.pattern_lines[i], &b.pattern_lines[i]) {
            proof {
                assert(a@.pattern_lines[i as int] != b@.pattern_lines[i as int]);
            }
            return false;
        }
        proof {
            assert(a@.pattern_lines[i as int] == b@.pattern_lines[i as int]);
        }
        i = i + 1;
    }
    if a.wall.len() != b.wall.len() {
        proof {
            assert(a@.wall.len() != b@.wall.len());
        }
        return false;
    }
    let mut j: usize = 0;
    while j < a.wall.len()
        invariant
            a.wall@.len() == b.wall@.len(),
            j <= a.wall@.len(),
            forall|k: int| 0 <= k < j ==> a@.wall[k] == b@.wall[k],
        decreases a.wall@.len() - j,
    {
        if !opt_rows_eq(&a.wall[j], &b.wall[j]) {
            proof {
                assert(a@.wall[j as int] != b@.wall[j as int]);
            }
            return false;
        }
        proof {
            assert(a@.wall[j as int] == b@.wall[j as int]);
        }
        j = j + 1;
    }
    proof {
        assert(a@.pattern_lines =~= b@.pattern_lines);
        assert(a@.wall =~= b@.wall);
        assert(a@ =~= b@);
    }
    true
}

} // verus!
