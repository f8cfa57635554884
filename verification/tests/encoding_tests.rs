use azul_engine::board::PlayerBoard;
use azul_engine::encoding::{
    mask_and_normalize_policy, move_to_policy_index, visit_policy, INPUT_SIZE, POLICY_SIZE,
};
use azul_engine::mcts::Mcts;
use azul_engine::mcts_heuristic::HeuristicPolicy;
use azul_engine::moves::{Move, MoveDestination, MoveSource};
use azul_engine::state::GameState;
use azul_engine::tiles::Tile;

fn empty_state(num_players: usize, factories: Vec<Vec<Tile>>, center: Vec<Tile>) -> GameState {
    let mut players = Vec::new();
    for _ in 0..num_players {
        players.push(PlayerBoard::new());
    }
    GameState {
        players,
        factories,
        center,
        tile_bag: Vec::new(),
        discard_pile: Vec::new(),
        current_player_idx: 0,
        first_player_marker_in_center: true,
        end_game_triggered: false,
    }
}

#[test]
fn policy_slots_by_source_and_color() {
    assert_eq!(move_to_policy_index(Tile::Blue, &MoveSource::Factory(0)), Some(0));
    assert_eq!(move_to_policy_index(Tile::White, &MoveSource::Factory(8)), Some(44));
    assert_eq!(move_to_policy_index(Tile::Blue, &MoveSource::Center), Some(45));
    assert_eq!(move_to_policy_index(Tile::White, &MoveSource::Center), Some(49));
}

#[test]
fn uniform_raw_policy_round_trips_to_uniform() {
    // encoding a state, masking a uniform raw policy against its legal
    // moves, and decoding reproduces a uniform distribution over exactly
    // the legal moves present at encode time
    let game = GameState::new(2);
    let legal = game.get_legal_moves();
    assert!(!legal.is_empty());
    let raw = vec![1i64; POLICY_SIZE];
    let (pairs, den) = mask_and_normalize_policy(&legal, &raw);
    assert_eq!(pairs.len(), legal.len());
    // every legal move comes back, each with the same weight
    let mut slots = Vec::new();
    for (k, (m, w)) in pairs.iter().enumerate() {
        assert_eq!(*m, legal[k]);
        assert_eq!(*w, 1);
        let s = move_to_policy_index(m.tile, &m.source).unwrap();
        if !slots.contains(&s) {
            slots.push(s);
        }
    }
    // the denominator is the number of distinct source-color pairs, so the
    // per-slot probabilities sum exactly to one
    assert_eq!(den as usize, slots.len());
}

#[test]
fn mask_falls_back_to_uniform_on_dead_output() {
    let game = empty_state(2, vec![vec![Tile::Blue]], Vec::new());
    let legal = game.get_legal_moves();
    let raw = vec![0i64; POLICY_SIZE];
    let (pairs, den) = mask_and_normalize_policy(&legal, &raw);
    assert_eq!(pairs.len(), legal.len());
    for (w, m) in pairs.iter().map(|(m, w)| (w, m)) {
        assert_eq!(*w, 1);
        assert!(legal.contains(m));
    }
    assert_eq!(den as usize, legal.len());
    // the uniform weights sum exactly to the denominator
    let total: u64 = pairs.iter().map(|(_, w)| *w).sum();
    assert_eq!(total, den);
}

#[test]
fn mask_clips_negative_outputs() {
    let legal = vec![
        Move { source: MoveSource::Center, tile: Tile::Blue, destination: MoveDestination::Floor },
        Move { source: MoveSource::Center, tile: Tile::Red, destination: MoveDestination::Floor },
    ];
    let mut raw = vec![0i64; POLICY_SIZE];
    raw[45] = 7;
    raw[47] = -5;
    let (pairs, den) = mask_and_normalize_policy(&legal, &raw);
    assert_eq!(pairs.len(), 2);
    assert_eq!(pairs[0].1, 7);
    assert_eq!(pairs[1].1, 0);
    assert_eq!(den, 7);
}

#[test]
fn empty_legal_moves_mask_is_empty() {
    let legal: Vec<Move> = Vec::new();
    let raw = vec![1i64; POLICY_SIZE];
    let (pairs, den) = mask_and_normalize_policy(&legal, &raw);
    assert!(pairs.is_empty());
    assert_eq!(den, 1);
}

#[test]
fn feature_vector_layout() {
    let mut game = empty_state(2, vec![vec![Tile::Blue, Tile::Blue, Tile::Red]], Vec::new());
    game.players[0].score = 37;
    game.players[0].pattern_lines[1].push(Tile::Red);
    game.players[0].wall[2][2] = Some(Tile::Blue);
    game.players[0].floor_line.push(Tile::White);
    game.players[0].has_first_player_marker = true;
    let input = game.state_to_input();
    assert_eq!(input.len(), INPUT_SIZE);
    // factory 0 holds two blue tiles and one red
    assert_eq!(input[0], 100);
    assert_eq!(input[1], 100);
    assert_eq!(input[2], 0);
    assert_eq!(input[8], 100);
    assert_eq!(input[9], 0);
    // the center is empty
    for i in 180..315 {
        assert_eq!(input[i], 0);
    }
    // player 0: score, one pattern tile on row 1, one wall cell, one floor
    // tile, the marker
    assert_eq!(input[315], 37);
    assert_eq!(input[315 + 1 + 5], 100);
    assert_eq!(input[315 + 1 + 6], 0);
    assert_eq!(input[315 + 26 + 12], 100);
    assert_eq!(input[315 + 51], 100);
    assert_eq!(input[315 + 52], 0);
    assert_eq!(input[315 + 58], 100);
    // player 1 is blank, players 2 and 3 are absent
    for i in (315 + 59)..(315 + 4 * 59) {
        assert_eq!(input[i], 0);
    }
    // player 0 acts: the turn feature reads one quarter
    assert_eq!(input[INPUT_SIZE - 1], 25);
}

#[test]
fn feature_vector_constant_length() {
    assert_eq!(GameState::new(2).state_to_input().len(), INPUT_SIZE);
    assert_eq!(GameState::new(3).state_to_input().len(), INPUT_SIZE);
    assert_eq!(GameState::new(4).state_to_input().len(), INPUT_SIZE);
}

#[test]
fn visit_policy_reads_search_statistics() {
    let game = GameState::new(2);
    let mcts = Mcts::new(game, HeuristicPolicy);
    // before any search there is nothing to read
    assert!(visit_policy(&mcts).is_none());
    let mut mcts = mcts;
    mcts.run_search(12);
    let (pv, den) = visit_policy(&mcts).expect("searched");
    assert_eq!(den, 12);
    assert_eq!(pv.len(), POLICY_SIZE);
    let total: u32 = pv.iter().sum();
    assert!(total <= 12);
    assert!(total > 0);
}
