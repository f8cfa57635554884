use azul_engine::board::{board_eq, PlayerBoard};
use azul_engine::moves::{Move, MoveDestination, MoveSource};
use azul_engine::state::GameState;
use azul_engine::tiles::{Tile, TileBagSummary};

fn empty_state(num_players: usize, factories: Vec<Vec<Tile>>, center: Vec<Tile>) -> GameState {
    let mut players = Vec::new();
    for _ in 0..num_players {
        players.push(PlayerBoard::new());
    }
    GameState {
        players,
        factories,
        center,
        tile_bag: Vec::new(),
        discard_pile: Vec::new(),
        current_player_idx: 0,
        first_player_marker_in_center: true,
        end_game_triggered: false,
    }
}

#[test]
fn new_board_is_empty() {
    let b = PlayerBoard::new();
    assert_eq!(b.score, 0);
    assert_eq!(b.pattern_lines.len(), 5);
    for line in &b.pattern_lines {
        assert_eq!(line.len(), 0);
    }
    assert_eq!(b.wall.len(), 5);
    for row in &b.wall {
        assert_eq!(row.len(), 5);
        for cell in row {
            assert!(cell.is_none());
        }
    }
    assert_eq!(b.floor_line.len(), 0);
    assert!(!b.has_first_player_marker);
}

#[test]
fn placement_validity_rules() {
    let mut b = PlayerBoard::new();
    assert!(b.is_placement_valid(0, Tile::Blue));
    b.pattern_lines[1].push(Tile::Red);
    // a line holding red rejects blue but accepts more red
    assert!(!b.is_placement_valid(1, Tile::Blue));
    assert!(b.is_placement_valid(1, Tile::Red));
    // a full line accepts nothing
    b.pattern_lines[1].push(Tile::Red);
    assert!(!b.is_placement_valid(1, Tile::Red));
    // an occupied wall cell blocks its color: blue sits at row 0, column 0
    let mut b2 = PlayerBoard::new();
    b2.wall[0][0] = Some(Tile::Blue);
    assert!(!b2.is_placement_valid(0, Tile::Blue));
    assert!(b2.is_placement_valid(0, Tile::Red));
}

#[test]
fn place_tiles_fills_line_and_overflows() {
    let mut b = PlayerBoard::new();
    let mut tiles = vec![Tile::Blue, Tile::Blue, Tile::Blue];
    b.place_tiles(&mut tiles, &MoveDestination::PatternLine(1));
    assert_eq!(tiles.len(), 0);
    assert_eq!(b.pattern_lines[1].len(), 2);
    assert_eq!(b.floor_line.len(), 1);
}

#[test]
fn place_tiles_floor_directly() {
    let mut b = PlayerBoard::new();
    let mut tiles = vec![Tile::Red, Tile::Red];
    b.place_tiles(&mut tiles, &MoveDestination::Floor);
    assert_eq!(b.floor_line, vec![Tile::Red, Tile::Red]);
    assert_eq!(b.pattern_lines[0].len(), 0);
}

#[test]
fn tiling_scores_single_tile() {
    let mut b = PlayerBoard::new();
    b.pattern_lines[0].push(Tile::Blue);
    let mut discard = Vec::new();
    let completed = b.run_tiling_phase(&mut discard);
    assert!(!completed);
    assert_eq!(b.score, 1);
    assert_eq!(b.wall[0][0], Some(Tile::Blue));
    assert_eq!(b.pattern_lines[0].len(), 0);
    assert_eq!(discard.len(), 1);
}

#[test]
fn tiling_scores_adjacent_run() {
    let mut b = PlayerBoard::new();
    // yellow already placed at row 0, column 1; blue lands at column 0
    b.wall[0][1] = Some(Tile::Yellow);
    b.pattern_lines[0].push(Tile::Blue);
    let mut discard = Vec::new();
    b.run_tiling_phase(&mut discard);
    assert_eq!(b.score, 2);
}

#[test]
fn floor_penalty_track() {
    let mut b = PlayerBoard::new();
    b.score = 10;
    b.floor_line = vec![Tile::Red, Tile::Red, Tile::Red];
    let mut discard = Vec::new();
    b.run_tiling_phase(&mut discard);
    // the first three floor slots cost one, one, and two points
    assert_eq!(b.score, 6);
    assert_eq!(b.floor_line.len(), 0);
    assert_eq!(discard.len(), 3);
}

#[test]
fn floor_penalty_saturates_at_zero() {
    let mut b = PlayerBoard::new();
    b.score = 1;
    b.floor_line = vec![Tile::Red; 7];
    let mut discard = Vec::new();
    b.run_tiling_phase(&mut discard);
    assert_eq!(b.score, 0);
}

#[test]
fn marker_counts_toward_penalty() {
    let mut b = PlayerBoard::new();
    b.score = 5;
    b.has_first_player_marker = true;
    b.floor_line = vec![Tile::Red];
    let mut discard = Vec::new();
    b.run_tiling_phase(&mut discard);
    // two items cost one point each
    assert_eq!(b.score, 3);
    assert!(!b.has_first_player_marker);
}

#[test]
fn tiling_reports_completed_row() {
    let mut b = PlayerBoard::new();
    // row 0 holds blue..black; white completes it from the pattern line
    b.wall[0][0] = Some(Tile::Blue);
    b.wall[0][1] = Some(Tile::Yellow);
    b.wall[0][2] = Some(Tile::Red);
    b.wall[0][3] = Some(Tile::Black);
    b.pattern_lines[0].push(Tile::White);
    let mut discard = Vec::new();
    let completed = b.run_tiling_phase(&mut discard);
    assert!(completed);
    assert_eq!(b.count_complete_rows(), 1);
}

#[test]
fn end_game_bonuses_exact() {
    let mut b = PlayerBoard::new();
    // one complete row of five colors pays two points
    b.wall[0][0] = Some(Tile::Blue);
    b.wall[0][1] = Some(Tile::Yellow);
    b.wall[0][2] = Some(Tile::Red);
    b.wall[0][3] = Some(Tile::Black);
    b.wall[0][4] = Some(Tile::White);
    assert_eq!(b.calculate_end_game_bonuses(), 2);
    // adding a complete column pays seven more
    b.wall[1][0] = Some(Tile::White);
    b.wall[2][0] = Some(Tile::Black);
    b.wall[3][0] = Some(Tile::Red);
    b.wall[4][0] = Some(Tile::Yellow);
    assert_eq!(b.calculate_end_game_bonuses(), 2 + 7);
    // five cells of one color pay ten more: blue now covers row 0 and column 0
    let mut b2 = PlayerBoard::new();
    b2.wall[0][0] = Some(Tile::Blue);
    b2.wall[1][1] = Some(Tile::Blue);
    b2.wall[2][2] = Some(Tile::Blue);
    b2.wall[3][3] = Some(Tile::Blue);
    b2.wall[4][4] = Some(Tile::Blue);
    assert_eq!(b2.calculate_end_game_bonuses(), 10);
}

#[test]
fn bag_summary_counts() {
    let tiles = vec![Tile::Blue, Tile::Red, Tile::Blue, Tile::White];
    let s = TileBagSummary::from_vec(&tiles);
    assert_eq!(s.blue, 2);
    assert_eq!(s.red, 1);
    assert_eq!(s.white, 1);
    assert_eq!(s.yellow, 0);
    assert_eq!(s.black, 0);
}

#[test]
fn apply_move_moves_tiles() {
    let mut s = empty_state(
        2,
        vec![vec![Tile::Blue, Tile::Blue, Tile::Red]],
        Vec::new(),
    );
    let m = Move {
        source: MoveSource::Factory(0),
        tile: Tile::Blue,
        destination: MoveDestination::PatternLine(1),
    };
    s.apply_move(&m);
    assert_eq!(s.factories[0].len(), 0);
    assert_eq!(s.center, vec![Tile::Red]);
    assert_eq!(s.players[0].pattern_lines[1], vec![Tile::Blue, Tile::Blue]);
    assert_eq!(s.current_player_idx, 1);
    assert!(s.first_player_marker_in_center);
}

#[test]
fn center_move_takes_marker() {
    let mut s = empty_state(2, vec![], vec![Tile::Red, Tile::Blue]);
    let m = Move {
        source: MoveSource::Center,
        tile: Tile::Red,
        destination: MoveDestination::Floor,
    };
    s.apply_move(&m);
    assert!(!s.first_player_marker_in_center);
    assert!(s.players[0].has_first_player_marker);
    assert_eq!(s.center, vec![Tile::Blue]);
    assert_eq!(s.players[0].floor_line, vec![Tile::Red]);
}

#[test]
fn legal_moves_cover_sources() {
    let s = empty_state(2, vec![vec![Tile::Blue]], vec![Tile::Red]);
    let moves = s.get_legal_moves();
    // blue from the factory: five rows and the floor; red from the center: same
    assert_eq!(moves.len(), 12);
    for m in &moves {
        match m.source {
            MoveSource::Factory(i) => {
                assert!(i < s.factories.len());
                assert!(s.factories[i].contains(&m.tile));
            }
            MoveSource::Center => assert!(s.center.contains(&m.tile)),
        }
    }
}

#[test]
fn round_over_detection() {
    let s = empty_state(2, vec![vec![], vec![]], Vec::new());
    assert!(s.is_round_over());
    let s2 = empty_state(2, vec![vec![Tile::Blue]], Vec::new());
    assert!(!s2.is_round_over());
}

#[test]
fn new_game_setup() {
    let s = GameState::new(2);
    assert_eq!(s.players.len(), 2);
    assert_eq!(s.factories.len(), 5);
    for f in &s.factories {
        assert!(f.len() <= 4);
    }
    assert_eq!(s.center.len(), 0);
    assert!(s.first_player_marker_in_center);
    assert!(!s.end_game_triggered);
    // twenty tiles of each color across bag and factories
    let mut all = s.tile_bag.clone();
    for f in &s.factories {
        all.extend_from_slice(f);
    }
    let summary = TileBagSummary::from_vec(&all);
    assert_eq!(summary.blue, 20);
    assert_eq!(summary.yellow, 20);
    assert_eq!(summary.red, 20);
    assert_eq!(summary.black, 20);
    assert_eq!(summary.white, 20);
    assert_eq!(GameState::new(3).factories.len(), 7);
    assert_eq!(GameState::new(4).factories.len(), 9);
}

#[test]
fn state_tiling_rotates_to_marker_holder() {
    let mut s = empty_state(2, vec![], Vec::new());
    s.players[1].has_first_player_marker = true;
    s.players[0].pattern_lines[0].push(Tile::Blue);
    s.run_tiling_phase();
    assert_eq!(s.current_player_idx, 1);
    assert_eq!(s.players[0].score, 1);
    assert!(!s.players[1].has_first_player_marker);
}

#[test]
fn winner_by_score_then_rows() {
    let mut s = empty_state(2, vec![], Vec::new());
    s.players[0].score = 10;
    s.players[1].score = 20;
    assert_eq!(s.winner_index(), 1);
    assert!(!s.winner_is_tied(1));
    // equal scores: complete rows break the tie
    let mut s2 = empty_state(2, vec![], Vec::new());
    s2.players[0].score = 10;
    s2.players[1].score = 10;
    for c in 0..5 {
        s2.players[0].wall[0][c] = Some(Tile::Blue);
    }
    assert_eq!(s2.winner_index(), 0);
    // identical standings on different boards are a tie
    let mut s3 = empty_state(2, vec![], Vec::new());
    s3.players[0].score = 10;
    s3.players[1].score = 10;
    s3.players[1].floor_line.push(Tile::Red);
    let w = s3.winner_index();
    assert!(s3.winner_is_tied(w));
}

#[test]
fn board_eq_compares_contents() {
    let a = PlayerBoard::new();
    let b = PlayerBoard::new();
    assert!(board_eq(&a, &b));
    let mut c = PlayerBoard::new();
    c.score = 1;
    assert!(!board_eq(&a, &c));
    let d = a.clone();
    assert!(board_eq(&a, &d));
}

#[test]
fn end_game_scoring_adds_bonuses() {
    let mut s = empty_state(2, vec![], Vec::new());
    s.players[0].wall[0][0] = Some(Tile::Blue);
    s.players[0].wall[0][1] = Some(Tile::Yellow);
    s.players[0].wall[0][2] = Some(Tile::Red);
    s.players[0].wall[0][3] = Some(Tile::Black);
    s.players[0].wall[0][4] = Some(Tile::White);
    s.players[0].score = 7;
    s.apply_end_game_scoring();
    assert_eq!(s.players[0].score, 9);
    assert_eq!(s.players[1].score, 0);
}
