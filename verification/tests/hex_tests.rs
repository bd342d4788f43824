use nexus_engines::entropy::{get_best_move, EngineError};
use nexus_engines::hexstate::{get_neighbors, nb_get, nb_len, HexState, Player};
use nexus_engines::mcts::{EngineConfig, MCTSEngine};
use nexus_engines::rng::seed_rng;
use nexus_engines::unionfind::UnionFind;

#[test]
fn test_invalid_board_size() {
    let board = [0u8; 10];
    let r = get_best_move(&board, true, 10, 7, 1);
    match r {
        Err(e) => {
            assert_eq!(e, EngineError::InvalidBoardSize);
            assert_eq!(e.message(), "Invalid board size");
        },
        Ok(_) => panic!("a short board must be refused"),
    }
}

#[test]
fn test_union_find_links_by_unions() {
    let mut uf = UnionFind::new(10);
    assert!(!uf.connected(1, 2));
    uf.union(1, 2);
    assert!(uf.connected(1, 2));
    uf.union(2, 3);
    assert!(uf.connected(1, 3));
    assert!(!uf.connected(1, 4));
}

#[test]
fn test_union_find_order_insensitive() {
    // The same two unions in either order join the same elements.
    let mut a = UnionFind::new(8);
    a.union(0, 1);
    a.union(2, 3);
    let mut b = UnionFind::new(8);
    b.union(2, 3);
    b.union(0, 1);
    for x in 0..8 {
        for y in 0..8 {
            assert_eq!(a.connected(x, y), b.connected(x, y));
        }
    }
}

#[test]
fn test_corner_neighbors() {
    // Cell (0,0) of an even row has exactly the east and south neighbors.
    let v = get_neighbors(0);
    assert_eq!(nb_len(&v), 2);
    let mut seen = [false; 2];
    for i in 0..2 {
        let n = nb_get(&v, i);
        if n == 1 {
            seen[0] = true;
        }
        if n == 11 {
            seen[1] = true;
        }
    }
    assert!(seen[0] && seen[1]);
}

#[test]
fn test_make_move_keeps_inverse_map() {
    let mut s = HexState::new();
    s.make_move(5, Player::Human);
    assert_eq!(s.board[5], Player::Human);
    assert_eq!(s.empty_cells.len(), 120);
    assert_eq!(s.turn_count, 1);
    // Every remaining empty cell is found again through the inverse map.
    for i in 0..121usize {
        if s.board[i] == Player::Nobody {
            let p = s.empty_cells_map[i];
            assert_eq!(s.empty_cells[p], i);
        }
    }
}

#[test]
fn test_row_connection_wins() {
    let mut s = HexState::new();
    for c in 0..11usize {
        s.make_move(c, Player::Human);
    }
    assert_eq!(s.check_winner(), Player::Human);
}

#[test]
fn test_mcts_visit_accounting() {
    // One full simulate-and-backpropagate cycle: the root and the new child
    // each gain exactly one visit.
    let state = HexState::new();
    let config = EngineConfig {
        max_simulations: 1,
        playout_heuristic_chance_percent: 0,
        selection_temperature_tenths: 0,
    };
    let mut engine = MCTSEngine::new(state, Player::AI, config, seed_rng(7));
    let result = engine.search(60000);
    assert_eq!(result.total_simulations, 1);
    assert_eq!(engine.nodes[0].visits, 1);
    assert_eq!(engine.nodes.len(), 2);
    assert_eq!(engine.nodes[1].visits, 1);
}

#[test]
fn test_first_move_not_corner() {
    // Empty board, AI to move, a budget of one thousand simulations: the
    // chosen move must not be a board corner.
    let state = HexState::new();
    let config = EngineConfig {
        max_simulations: 1000,
        playout_heuristic_chance_percent: 30,
        selection_temperature_tenths: 0,
    };
    let mut engine = MCTSEngine::new(state, Player::AI, config, seed_rng(12345));
    let result = engine.search(30000);
    let mi = result.best_move.expect("the empty board has moves");
    let corner = (mi.r == 0 || mi.r == 10) && (mi.c == 0 || mi.c == 10);
    assert!(!corner, "the centrality heuristic must keep the opening move off the corners");
}

#[test]
fn test_engine_full_call() {
    let board = [0u8; 121];
    let r = get_best_move(&board, true, 300, 3, 99).expect("the board length is right");
    assert!(r.total_simulations <= 30000);
    let mi = r.best_move.expect("moves exist on an empty board");
    assert!(mi.r < 11 && mi.c < 11);
}
