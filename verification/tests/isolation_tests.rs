use nexus_engines::bitboard::{count_ones, pos_to_index};
use nexus_engines::board::GameState;
use nexus_engines::board::Move;
use nexus_engines::endgame::{
    estimate_longest_path, longest_path_from_position, should_solve_exactly, solve_endgame,
};
use nexus_engines::eval::{
    get_phase_weights, evaluate_advanced, CriticalCellsCache, EvalWeights,
};
use nexus_engines::opening::{evaluate_opening_move, get_opening_move, is_opening_phase};
use nexus_engines::partition::{detect_partition_bitboard, queen_flood_fill, would_cause_partition};
use nexus_engines::search::{find_best_move, get_destroy_candidates_advanced_export, manhattan_distance, SearchConfig};
use nexus_engines::search_advanced::{find_best_move_advanced_detailed, AdvancedSearchConfig};
use nexus_engines::transposition::{Bound, TranspositionTable, update_hash_after_move};

#[test]
fn test_should_solve_exactly() {
    assert!(should_solve_exactly(10));
    assert!(should_solve_exactly(18));
    assert!(!should_solve_exactly(20));
    assert!(!should_solve_exactly(30));
}

#[test]
fn test_estimate_longest_path() {
    assert_eq!(estimate_longest_path(10), 7);
    assert_eq!(estimate_longest_path(20), 15);
}

#[test]
fn test_opening_phase_detection() {
    assert!(is_opening_phase(8, 4));
    assert!(is_opening_phase(12, 8));
    assert!(!is_opening_phase(14, 10));
    assert!(!is_opening_phase(20, 15));
}

#[test]
fn test_no_partition_empty_board() {
    let player_pos = (0, 0);
    let ai_pos = (6, 6);
    let destroyed = 0u64;

    let result = detect_partition_bitboard(player_pos, ai_pos, destroyed);
    assert!(!result.is_partitioned);
}

#[test]
fn test_queen_flood_fill() {
    let start_pos = (3, 3);
    let blocked = 0u64;

    let reachable = queen_flood_fill(start_pos, blocked);

    assert_eq!(count_ones(reachable), 49);
}

#[test]
fn test_queen_flood_fill_blocked() {
    let start_pos = (0, 0);

    let mut blocked = 0u64;
    for i in 0..7 {
        blocked |= 1u64 << pos_to_index(i, i);
    }

    let reachable = queen_flood_fill(start_pos, blocked);

    assert!(count_ones(reachable) < 49);
    assert!(count_ones(reachable) > 0);
}

#[test]
fn test_partition_column_wall() {
    // A full destroyed column genuinely separates the two pieces: the region
    // sizes count the empty cells on each side.
    let player_pos = (0, 0);
    let ai_pos = (6, 6);
    let mut destroyed = 0u64;
    for r in 0..7 {
        destroyed |= 1u64 << pos_to_index(r, 3);
    }
    let result = detect_partition_bitboard(player_pos, ai_pos, destroyed);
    assert!(result.is_partitioned);
    assert_eq!(result.player_region_size, 20);
    assert_eq!(result.ai_region_size, 20);
    assert_eq!(result.player_region_size + result.ai_region_size, 49 - 7 - 2);
}

#[test]
fn test_longest_path_simple() {
    let start_pos = (0, 0);
    let mut reachable = 0u64;
    reachable |= 1u64 << pos_to_index(0, 0);
    reachable |= 1u64 << pos_to_index(0, 1);
    reachable |= 1u64 << pos_to_index(0, 2);

    let blocked = 0u64;
    let visited = 1u64 << pos_to_index(0, 0);

    let result = longest_path_from_position(start_pos, reachable, blocked, visited, 1000);

    assert_eq!(result.length, 2);
    assert!(!result.timed_out);
}

#[test]
fn test_solve_endgame_corridor() {
    // AI confined to a three-cell corridor: two further moves are possible.
    let full: u64 = (1u64 << 49) - 1;
    let keep = (1u64 << pos_to_index(0, 0))
        | (1u64 << pos_to_index(0, 1))
        | (1u64 << pos_to_index(0, 2))
        | (1u64 << pos_to_index(6, 6));
    let state = GameState {
        player: 1u64 << pos_to_index(6, 6),
        ai: 1u64 << pos_to_index(0, 0),
        destroyed: full & !keep,
    };
    let region = (1u64 << pos_to_index(0, 1)) | (1u64 << pos_to_index(0, 2));
    let result = solve_endgame(&state, region, true, 1000);
    assert!(result.solved);
    assert_eq!(result.longest_path, 2);
    assert!(result.best_move.is_some());
}

#[test]
fn test_opening_move_generation() {
    let state = GameState { player: 1u64 << 0, ai: 1u64 << 48, destroyed: 0 };

    let mv = get_opening_move(&state, 2);
    assert!(mv.is_some());

    if let Some(m) = mv {
        let dist_to_center = (m.to.0 as i32 - 3).abs() + (m.to.1 as i32 - 3).abs();
        assert!(dist_to_center <= 3, "Opening move should be relatively close to center");
    }
}

#[test]
fn test_center_preference() {
    let state = GameState { player: 1u64 << 0, ai: 1u64 << 48, destroyed: 0 };

    let center_move = Move { from: (6, 6), to: (3, 3), destroy: (0, 0), score: 0 };
    let corner_move = Move { from: (6, 6), to: (6, 5), destroy: (0, 0), score: 0 };

    let center_score = evaluate_opening_move(&state, &center_move, 4);
    let corner_score = evaluate_opening_move(&state, &corner_move, 4);

    assert!(center_score > corner_score, "Center moves should score higher than corner moves");
}

#[test]
fn test_zobrist_hash_uniqueness() {
    let tt = TranspositionTable::new();

    let state1 = GameState { player: 1u64 << 0, ai: 1u64 << 48, destroyed: 0 };
    let state2 = GameState { player: 1u64 << 1, ai: 1u64 << 48, destroyed: 0 };

    let hash1 = tt.compute_hash(&state1, true);
    let hash2 = tt.compute_hash(&state2, true);

    assert_ne!(hash1, hash2);
}

#[test]
fn test_zobrist_hash_turn_difference() {
    let tt = TranspositionTable::new();

    let state = GameState { player: 1u64 << 0, ai: 1u64 << 48, destroyed: 0 };

    let hash_ai_turn = tt.compute_hash(&state, true);
    let hash_player_turn = tt.compute_hash(&state, false);

    assert_ne!(hash_ai_turn, hash_player_turn);
}

#[test]
fn test_zobrist_hash_destroyed_difference() {
    let tt = TranspositionTable::new();

    let state1 = GameState { player: 1u64 << 0, ai: 1u64 << 48, destroyed: 0 };
    let state2 = GameState {
        player: 1u64 << 0,
        ai: 1u64 << 48,
        destroyed: 1u64 << pos_to_index(3, 3),
    };

    assert_ne!(tt.compute_hash(&state1, true), tt.compute_hash(&state2, true));
}

#[test]
fn test_zobrist_determinism_across_tables() {
    let t1 = TranspositionTable::new();
    let t2 = TranspositionTable::new();
    let state = GameState {
        player: 1u64 << pos_to_index(2, 3),
        ai: 1u64 << pos_to_index(5, 1),
        destroyed: (1u64 << pos_to_index(3, 3)) | (1u64 << pos_to_index(0, 6)),
    };
    assert_eq!(t1.compute_hash(&state, true), t2.compute_hash(&state, true));
    assert_eq!(t1.compute_hash(&state, false), t2.compute_hash(&state, false));
}

#[test]
fn test_incremental_hash_matches_recompute() {
    let tt = TranspositionTable::new();
    let old_state = GameState { player: 1u64 << 0, ai: 1u64 << 48, destroyed: 0 };
    let new_state = GameState {
        player: 1u64 << 0,
        ai: 1u64 << pos_to_index(3, 3),
        destroyed: 1u64 << pos_to_index(6, 6),
    };
    let old_hash = tt.compute_hash(&old_state, true);
    let incremental = update_hash_after_move(&tt, old_hash, &old_state, &new_state, true, false);
    assert_eq!(incremental, tt.compute_hash(&new_state, false));
}

#[test]
fn test_transposition_table_store_probe() {
    let mut tt = TranspositionTable::new();

    let state = GameState { player: 1u64 << 0, ai: 1u64 << 48, destroyed: 0 };

    let hash = tt.compute_hash(&state, true);

    tt.store(hash, 5, 100, Bound::Exact, None);

    let entry = tt.probe(hash, 5, -1000, 1000);
    assert!(entry.is_some());

    if let Some(e) = entry {
        assert_eq!(e.score, 100);
        assert_eq!(e.depth, 5);
        assert_eq!(e.bound, Bound::Exact);
        assert_eq!(e.generation, 0);
    }
}

#[test]
fn test_transposition_table_depth_requirement() {
    let mut tt = TranspositionTable::new();

    let state = GameState { player: 1u64 << 0, ai: 1u64 << 48, destroyed: 0 };

    let hash = tt.compute_hash(&state, true);

    tt.store(hash, 3, 100, Bound::Exact, None);

    let entry = tt.probe(hash, 5, -1000, 1000);

    assert!(entry.is_none());
}

#[test]
fn test_phase_weights_change_by_phase() {
    assert_eq!(get_phase_weights(5).center_control, 50);
    assert_eq!(get_phase_weights(20).territory, 80);
    assert_eq!(get_phase_weights(35).partition_advantage, 10000);
}

#[test]
fn test_evaluate_neutral_on_empty_mask() {
    let state = GameState { player: 0, ai: 1u64 << 48, destroyed: 0 };
    let weights = EvalWeights::nexus_5();
    let mut cache = CriticalCellsCache::new();
    let (score, components) = evaluate_advanced(&state, &weights, &mut cache);
    assert_eq!(score, 0);
    assert_eq!(components.territory, 0);
    assert_eq!(components.mobility, 0);
}

#[test]
fn test_manhattan_distance_formula() {
    assert_eq!(manhattan_distance((0, 0), (3, 4)), 7);
    assert_eq!(manhattan_distance((6, 6), (6, 6)), 0);
}

#[test]
fn test_destroy_candidates_are_legal() {
    let state = GameState { player: 1u64 << 0, ai: 1u64 << 48, destroyed: 0 };
    let mv = Move { from: (6, 6), to: (3, 3), destroy: (0, 0), score: 0 };
    let cands = get_destroy_candidates_advanced_export(&state, &mv, true, 6);
    assert_eq!(cands.len(), 6);
    for (r, c) in cands {
        assert!(r < 7 && c < 7);
        assert!(!(r == 0 && c == 0));
        assert!(!(r == 6 && c == 6));
        assert!(!(r == 3 && c == 3));
    }
}

#[test]
fn test_find_best_move_returns_legal_move() {
    let state = GameState { player: 1u64 << 0, ai: 1u64 << 48, destroyed: 0 };
    let config = SearchConfig { max_depth: 2, time_limit_ms: 500 };
    let mut cache = CriticalCellsCache::new();
    let mv = find_best_move(&state, config, &mut cache);
    assert!(mv.is_some());
    let mv = mv.unwrap();
    assert!(mv.to.0 < 7 && mv.to.1 < 7);
    assert!(mv.destroy.0 < 7 && mv.destroy.1 < 7);
}

#[test]
fn test_engine_respects_partition() {
    // Player at (0,0), AI at (6,6), a full destroyed column between them: the
    // engine must play inside the AI's own region, never across the wall.
    let mut destroyed = 0u64;
    for r in 0..7 {
        destroyed |= 1u64 << pos_to_index(r, 3);
    }
    let state = GameState {
        player: 1u64 << pos_to_index(0, 0),
        ai: 1u64 << pos_to_index(6, 6),
        destroyed,
    };
    let part = detect_partition_bitboard((0, 0), (6, 6), destroyed);
    assert!(part.is_partitioned);
    let config = AdvancedSearchConfig::for_difficulty(5, 500);
    let mut cache = CriticalCellsCache::new();
    let result = find_best_move_advanced_detailed(&state, config, &mut cache);
    let mv = result.best_move.expect("a legal move exists");
    assert!(mv.to.1 >= 4, "the move must stay in the AI's region");
}

use nexus_engines::voronoi::calculate_voronoi_optimized;

#[test]
fn test_voronoi_basic() {
    let player_pos = (0, 0);
    let ai_pos = (6, 6);
    let destroyed = 0u64;

    let result = calculate_voronoi_optimized(player_pos, ai_pos, destroyed);

    assert!(result.player_count > 0);
    assert!(result.ai_count > 0);

    let total = result.player_count + result.ai_count + result.contested_count;
    assert!(total <= 47);
}

#[test]
fn test_voronoi_contested() {
    let player_pos = (3, 0);
    let ai_pos = (3, 6);
    let destroyed = 0u64;

    let result = calculate_voronoi_optimized(player_pos, ai_pos, destroyed);

    assert!(result.contested_count > 0);
}

#[test]
fn test_voronoi_blocked() {
    let player_pos = (0, 0);
    let ai_pos = (6, 6);

    let mut destroyed = 0u64;
    for i in 0..7 {
        destroyed |= 1u64 << pos_to_index(i, i);
    }
    destroyed &= !(1u64 << pos_to_index(0, 0));
    destroyed &= !(1u64 << pos_to_index(6, 6));

    let result = calculate_voronoi_optimized(player_pos, ai_pos, destroyed);

    assert!(result.player_count > 0);
    assert!(result.ai_count > 0);
}

#[test]
fn test_diagonal_wall_does_not_partition() {
    // Destroying the main diagonal (1,1)..(5,5) leaves the board connected:
    // queen moves slip diagonally between the destroyed cells.
    let player_pos = (0, 6);
    let ai_pos = (6, 0);
    let mut destroyed = 0u64;
    for i in 1..6 {
        destroyed |= 1u64 << pos_to_index(i, i);
    }
    let result = detect_partition_bitboard(player_pos, ai_pos, destroyed);
    assert!(!result.is_partitioned);
}

#[test]
fn test_completing_diagonal_causes_no_partition() {
    // With (1,1)..(4,4) gone, destroying (5,5) still leaves a diagonal
    // crossing open: no partition arises.
    let player_pos = (0, 6);
    let ai_pos = (6, 0);
    let mut destroyed = 0u64;
    for i in 1..5 {
        destroyed |= 1u64 << pos_to_index(i, i);
    }
    assert!(!would_cause_partition(player_pos, ai_pos, destroyed, (5, 5)));
}

#[test]
fn test_full_diagonal_wall_still_connected() {
    // Even the complete corner-to-corner diagonal fails to separate the
    // pieces.
    let player_pos = (0, 6);
    let ai_pos = (6, 0);
    let mut destroyed = 0u64;
    for i in 0..7 {
        destroyed |= 1u64 << pos_to_index(i, i);
    }
    let result = detect_partition_bitboard(player_pos, ai_pos, destroyed);
    assert!(!result.is_partitioned);
}
