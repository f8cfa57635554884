use azul_engine::agent::AIAgent;
use azul_engine::board::PlayerBoard;
use azul_engine::heuristic::HeuristicAI;
use azul_engine::mcts::Mcts;
use azul_engine::mcts_heuristic::{HeuristicPolicy, MctsHeuristicAI};
use azul_engine::mcts_rollout::MctsAI;
use azul_engine::moves::{Move, MoveDestination, MoveSource};
use azul_engine::state::{players_eq, GameState};
use azul_engine::tiles::Tile;

fn empty_state(num_players: usize, factories: Vec<Vec<Tile>>, center: Vec<Tile>) -> GameState {
    let mut players = Vec::new();
    for _ in 0..num_players {
        players.push(PlayerBoard::new());
    }
    GameState {
        players,
        factories,
        center,
        tile_bag: Vec::new(),
        discard_pile: Vec::new(),
        current_player_idx: 0,
        first_player_marker_in_center: true,
        end_game_triggered: false,
    }
}

#[test]
fn rollout_policy_search_chooses_legal_move() {
    // two players, the opening position, five hundred search iterations:
    // the chosen move must be one of the legal moves of that exact state
    let game = GameState::new(2);
    let legal = game.get_legal_moves();
    let mut agent = MctsHeuristicAI::new(500);
    let chosen = agent.get_move(&game);
    let m = chosen.expect("the opening position offers moves");
    assert!(legal.contains(&m));
}

#[test]
fn exact_fill_rule_is_deterministic() {
    // exactly one legal move fills a pattern row with no overflow; every
    // other placement overflows or floors: the first priority rule picks it
    let s = empty_state(2, vec![vec![Tile::Blue, Tile::Blue, Tile::Blue]], Vec::new());
    let mut agent = HeuristicAI;
    let chosen = agent.get_move(&s).expect("moves exist");
    assert_eq!(
        chosen,
        Move {
            source: MoveSource::Factory(0),
            tile: Tile::Blue,
            destination: MoveDestination::PatternLine(2),
        }
    );
}

#[test]
fn sync_to_unrelated_state_discards_tree() {
    let a = GameState::new(2);
    let mut mcts = Mcts::new(a, HeuristicPolicy);
    mcts.run_search(20);
    assert!(mcts.tree.len() > 1);
    // a three-player position can never match a two-player tree
    let b = GameState::new(3);
    mcts.sync_tree_with_state(&b);
    assert_eq!(mcts.tree.len(), 1);
    assert_eq!(mcts.tree[0].visit_count, 0);
    assert!(players_eq(&mcts.tree[0].game_state.players, &b.players));
    assert!(mcts.best_move().is_none());
}

#[test]
fn sync_keeps_matched_subtree_statistics() {
    // after a real move that matches a searched child, the child's whole
    // subtree and its statistics become the new tree
    let a = GameState::new(2);
    let mut real = a.clone();
    let mut mcts = Mcts::new(a, HeuristicPolicy);
    mcts.run_search(40);
    let m = mcts.best_move().expect("the opening position offers moves");
    real.apply_move(&m);
    // the first root child whose boards match the real position
    let c = mcts.tree[0]
        .children
        .iter()
        .map(|&(_, c)| c)
        .find(|&c| players_eq(&mcts.tree[c].game_state.players, &real.players))
        .expect("the played move's child matches");
    // boards can coincide across moves, so the first match may differ from
    // the played child; the sync must carry over exactly its statistics
    let child_visits = mcts.tree[c].visit_count;
    let child_children = mcts.tree[c].children.len();
    mcts.sync_tree_with_state(&real);
    assert_eq!(mcts.tree[0].visit_count, child_visits);
    assert_eq!(mcts.tree[0].children.len(), child_children);
    assert!(mcts.tree.len() >= 1 + child_children);
    assert!(players_eq(&mcts.tree[0].game_state.players, &real.players));
}

#[test]
fn sync_twice_is_idempotent() {
    let a = GameState::new(2);
    let s = GameState::new(2);
    let mut mcts = Mcts::new(a, HeuristicPolicy);
    mcts.run_search(10);
    mcts.sync_tree_with_state(&s);
    let players_after_first: Vec<PlayerBoard> =
        mcts.tree[0].game_state.players.iter().map(|p| p.clone()).collect();
    mcts.sync_tree_with_state(&s);
    assert_eq!(mcts.tree.len(), 1);
    assert!(players_eq(&mcts.tree[0].game_state.players, &players_after_first));
    assert!(players_eq(&mcts.tree[0].game_state.players, &s.players));
}

#[test]
fn search_counts_every_iteration_at_root() {
    let game = GameState::new(2);
    let mut mcts = Mcts::new(game, HeuristicPolicy);
    mcts.run_search(25);
    assert_eq!(mcts.tree[0].visit_count, 25);
    let child_visits: u32 = mcts.tree[0]
        .children
        .iter()
        .map(|&(_, c)| mcts.tree[c].visit_count)
        .sum();
    // every iteration either ended at the root or passed through one child
    assert!(child_visits <= 25);
    // after the first iteration expands the root, all pass through children
    assert_eq!(child_visits, 24);
}

#[test]
fn mean_value_stays_in_range() {
    let game = GameState::new(2);
    let mut mcts = Mcts::new(game, HeuristicPolicy);
    mcts.run_search(15);
    for node in &mcts.tree {
        let mean = node.mean_action_value();
        assert!(mean >= -azul_engine::mcts::VALUE_BOUND as i128);
        assert!(mean <= azul_engine::mcts::VALUE_BOUND as i128);
    }
}

#[test]
fn rollout_agent_moves_legally_near_end() {
    let mut s = empty_state(2, vec![vec![Tile::Blue]], Vec::new());
    s.end_game_triggered = true;
    let legal = s.get_legal_moves();
    let mut agent = MctsAI::new();
    let chosen = agent.get_move(&s).expect("a move exists");
    assert!(legal.contains(&chosen));
}

#[test]
fn heuristic_prefers_untouched_center() {
    // with the marker untouched, two center tiles exactly topping off row 1
    // beat a lone factory tile
    let mut s = empty_state(
        2,
        vec![vec![Tile::Red]],
        vec![Tile::Blue, Tile::Blue],
    );
    let mut agent = HeuristicAI;
    let chosen = agent.get_move(&s).expect("moves exist");
    assert_eq!(chosen.source, MoveSource::Center);
    assert_eq!(chosen.tile, Tile::Blue);
    assert_eq!(chosen.destination, MoveDestination::PatternLine(1));
}

#[test]
fn simple_ai_avoids_floor() {
    let s = empty_state(2, vec![vec![Tile::Blue]], Vec::new());
    let mut agent = azul_engine::agent::SimpleAI;
    let chosen = agent.get_move(&s).expect("moves exist");
    assert!(matches!(chosen.destination, MoveDestination::PatternLine(_)));
}

#[test]
fn human_agent_defers() {
    let s = GameState::new(2);
    let mut agent = azul_engine::agent::HumanAgent;
    assert!(agent.get_move(&s).is_none());
}

#[test]
fn no_legal_moves_yields_none() {
    let s = empty_state(2, vec![], Vec::new());
    let mut agent = HeuristicAI;
    assert!(agent.get_move(&s).is_none());
}
