//! Advanced search for the 7 x 7 queen-move game: negamax with a
//! transposition table, killer moves, a history heuristic, aspiration
//! windows, principal-variation probing and null-move pruning, with the
//! opening book and the exact endgame solver in front of it.

use vstd::prelude::*;
use std::time::Instant;
use crate::bitboard::{
    bit, scell, srow, scol, valid_cell, queen_move, test_bit, get_queen_moves, count_ones,
    index_to_pos, pos_to_index, pos_to_mask, lemma_coord_bounds, lemma_cell_coords,
};
use crate::board::{GameState, Move, piece_index, lemma_piece_cell, is_single_cell, slide_ok};
use crate::partition::{cell_mask, detect_partition_bitboard};
use crate::eval::{evaluate_advanced, EvalWeights, CriticalCellsCache, weights_in_range, mobility_count, eval_score_spec};
use crate::transposition::{TranspositionTable, Bound, TTEntry, update_hash_after_move, lemma_hash_agree};
use crate::search::{destroy_ok, has_destroy, full_move_ok, get_destroy_candidates_advanced_export, apply_move};
use crate::endgame::{solve_endgame, should_solve_exactly};
use crate::opening::get_opening_move;
use crate::clock::{now_instant, millis_since};

verus! {

/// Two moves are the same slide, destroy and score aside.
pub open spec fn same_slide(a: Move, b: Move) -> bool {
    a.from == b.from && a.to == b.to
}

/// Compares two moves as slides.
pub fn moves_equal(a: &Move, b: &Move) -> (r: bool)
    ensures
        r == same_slide(*a, *b),
{
    a.from.0 == b.from.0 && a.from.1 == b.from.1 && a.to.0 == b.to.0 && a.to.1 == b.to.1
}

/// Decides whether a move is a complete legal move for one side.
pub fn validate_move(state: &GameState, mv: &Move, is_ai: bool) -> (r: bool)
    requires
        state.wf(),
    ensures
        r == full_move_ok(*state, is_ai, *mv),
{
    if mv.to.0 >= 7 || mv.to.1 >= 7 || mv.destroy.0 >= 7 || mv.destroy.1 >= 7 {
        return false;
    }
    let my_mask = if is_ai {
        state.ai
    } else {
        state.player
    };
    let opp_mask = if is_ai {
        state.player
    } else {
        state.ai
    };
    let me = piece_index(my_mask);
    proof {
        let w = choose|w: int| valid_cell(w) && my_mask == #[trigger] cell_mask(w);
        lemma_piece_cell(my_mask, w);
        lemma_coord_bounds(me as int);
    }
    let my_pos = index_to_pos(me);
    let moves_mask = get_queen_moves(my_pos.0, my_pos.1, state.destroyed | opp_mask);
    let to_idx = pos_to_index(mv.to.0, mv.to.1);
    if !test_bit(moves_mask, to_idx) {
        return false;
    }
    let d_idx = pos_to_index(mv.destroy.0, mv.destroy.1);
    let p_idx = piece_index(state.player);
    let a_idx = piece_index(state.ai);
    proof {
        let wp = choose|w: int| valid_cell(w) && state.player == #[trigger] cell_mask(w);
        lemma_piece_cell(state.player, wp);
        let wa = choose|w: int| valid_cell(w) && state.ai == #[trigger] cell_mask(w);
        lemma_piece_cell(state.ai, wa);
    }
    !test_bit(state.destroyed, d_idx) && d_idx != p_idx && d_idx != a_idx && d_idx != to_idx
}

/// Two killer-move slots per depth: the slides that last caused a cutoff.
pub struct KillerMoves {
    pub slots: Vec<(Option<Move>, Option<Move>)>,
}

impl KillerMoves {
    /// Thirty-two depth slots.
    pub open spec fn wf(self) -> bool {
        self.slots@.len() == 32
    }

    /// All slots empty.
    pub fn new() -> (k: KillerMoves)
        ensures
            k.wf(),
            forall|d: int| 0 <= d < 32 ==> #[trigger] k.slots@[d] == (None::<Move>, None::<Move>),
    {
        let mut slots: Vec<(Option<Move>, Option<Move>)> = Vec::new();
        let mut i: usize = 0;
        while i < 32
            invariant
                i <= 32,
                slots@.len() == i,
                forall|d: int| 0 <= d < i ==> #[trigger] slots@[d] == (None::<Move>, None::<Move>),
            decreases 32 - i,
        {
            slots.push((None, None));
            i = i + 1;
        }
        KillerMoves { slots }
    }

    /// Records a cutoff move at a depth: it takes the first slot and shifts
    /// the old first into the second, unless it is already first or the
    /// depth is out of range.
    pub fn record(&mut self, depth: usize, mv: Move)
        requires
            old(self).wf(),
        ensures
            final(self).wf(),
            depth >= 32 ==> *final(self) == *old(self),
            depth < 32 && (old(self).slots@[depth as int].0 matches Some(m0) && same_slide(m0, mv))
                ==> *final(self) == *old(self),
            depth < 32 && !(old(self).slots@[depth as int].0 matches Some(m0) && same_slide(
                m0,
                mv,
            )) ==> final(self).slots@ == old(self).slots@.update(
                depth as int,
                (Some(mv), old(self).slots@[depth as int].0),
            ),
    {
        if depth >= 32 {
            return;
        }
        let current = self.slots[depth];
        match current.0 {
            Some(existing) => {
                if moves_equal(&existing, &mv) {
                    return;
                }
            },
            None => {},
        }
        self.slots[depth] = (Some(mv), current.0);
    }

    /// Whether a move sits in either killer slot of a depth.
    pub fn is_killer(&self, depth: usize, mv: &Move) -> (r: bool)
        requires
            self.wf(),
        ensures
            depth >= 32 ==> r == false,
            depth < 32 ==> r == ((self.slots@[depth as int].0 matches Some(m0) && same_slide(
                m0,
                *mv,
            )) || (self.slots@[depth as int].1 matches Some(m1) && same_slide(m1, *mv))),
    {
        if depth >= 32 {
            return false;
        }
        let current = self.slots[depth];
        let first = match current.0 {
            Some(m0) => moves_equal(&m0, mv),
            None => false,
        };
        if first {
            return true;
        }
        match current.1 {
            Some(m1) => moves_equal(&m1, mv),
            None => false,
        }
    }

    /// Forgets all killer moves.
    pub fn clear(&mut self)
        requires
            old(self).wf(),
        ensures
            final(self).wf(),
            forall|d: int|
                0 <= d < 32 ==> #[trigger] final(self).slots@[d] == (None::<Move>, None::<Move>),
    {
        let mut i: usize = 0;
        while i < 32
            invariant
                self.wf(),
                i <= 32,
                forall|d: int|
                    0 <= d < i ==> #[trigger] self.slots@[d] == (None::<Move>, None::<Move>),
            decreases 32 - i,
        {
            self.slots[i] = (None, None);
            i = i + 1;
        }
    }
}

/// Cutoff bonuses per (from, to) slide, flattened over the 49 x 49 pairs.
pub struct HistoryTable {
    pub scores: Vec<i64>,
}

impl HistoryTable {
    /// One bonus cell per from/to pair.
    pub open spec fn wf(self) -> bool {
        self.scores@.len() == 2401
    }

    /// All bonuses zero.
    pub fn new() -> (h: HistoryTable)
        ensures
            h.wf(),
            forall|i: int| 0 <= i < 2401 ==> #[trigger] h.scores@[i] == 0,
    {
        let mut scores: Vec<i64> = Vec::new();
        let mut i: usize = 0;
        while i < 2401
            invariant
                i <= 2401,
                scores@.len() == i,
                forall|j: int| 0 <= j < i ==> #[trigger] scores@[j] == 0,
            decreases 2401 - i,
        {
            scores.push(0);
            i = i + 1;
        }
        HistoryTable { scores }
    }

    /// Accrues a cutoff bonus of the squared depth on one slide.
    pub fn record(&mut self, from_idx: usize, to_idx: usize, depth: u8)
        requires
            old(self).wf(),
        ensures
            final(self).wf(),
            from_idx >= 49 || to_idx >= 49 ==> *final(self) == *old(self),
            from_idx < 49 && to_idx < 49 ==> final(self).scores@ == old(self).scores@.update(
                from_idx * 49 + to_idx,
                if old(self).scores@[from_idx as int * 49 + to_idx] + (depth as int) * (depth as int)
                    <= i64::MAX {
                    (old(self).scores@[from_idx as int * 49 + to_idx] + (depth as int) * (
                    depth as int)) as i64
                } else {
                    i64::MAX
                },
            ),
    {
        if from_idx >= 49 || to_idx >= 49 {
            return;
        }
        let idx = from_idx * 49 + to_idx;
        proof {
            assert((depth as i64) * (depth as i64) <= 65025) by (nonlinear_arith)
                requires
                    depth <= 255,
            ;
            assert((depth as i64) * (depth as i64) >= 0) by (nonlinear_arith);
        }
        let bonus = (depth as i64) * (depth as i64);
        let cur = self.scores[idx];
        let updated = if cur <= i64::MAX - bonus {
            cur + bonus
        } else {
            i64::MAX
        };
        self.scores[idx] = updated;
    }

    /// The accrued bonus of one slide.
    pub fn get_score(&self, from_idx: usize, to_idx: usize) -> (s: i64)
        requires
            self.wf(),
        ensures
            from_idx >= 49 || to_idx >= 49 ==> s == 0,
            from_idx < 49 && to_idx < 49 ==> s == self.scores@[from_idx as int * 49 + to_idx],
    {
        if from_idx >= 49 || to_idx >= 49 {
            return 0;
        }
        self.scores[from_idx * 49 + to_idx]
    }

    /// Forgets all bonuses.
    pub fn clear(&mut self)
        requires
            old(self).wf(),
        ensures
            final(self).wf(),
            forall|i: int| 0 <= i < 2401 ==> #[trigger] final(self).scores@[i] == 0,
    {
        let mut i: usize = 0;
        while i < 2401
            invariant
                self.wf(),
                i <= 2401,
                forall|j: int| 0 <= j < i ==> #[trigger] self.scores@[j] == 0,
            decreases 2401 - i,
        {
            self.scores[i] = 0;
            i = i + 1;
        }
    }
}

/// Configuration of the advanced search.
pub struct AdvancedSearchConfig {
    pub max_depth: u8,
    pub time_limit_ms: u32,
    pub weights: EvalWeights,
    pub use_tt: bool,
    pub use_killer_moves: bool,
    pub use_history: bool,
    pub use_aspiration: bool,
    pub use_pvs: bool,
    pub use_null_move: bool,
}

impl AdvancedSearchConfig {
    /// The preset for a numeric difficulty level, with every enhancement on.
    pub fn for_difficulty(difficulty: u32, time_limit_ms: u32) -> (c: AdvancedSearchConfig)
        ensures
            c.max_depth >= 1,
            weights_in_range(c.weights),
            difficulty == 7 ==> c.max_depth == 10,
            difficulty == 3 ==> c.max_depth == 5,
            difficulty != 7 && difficulty != 3 ==> c.max_depth == 7,
            c.time_limit_ms == time_limit_ms,
            c.use_tt && c.use_killer_moves && c.use_history && c.use_aspiration && c.use_pvs
                && c.use_null_move,
    {
        let (max_depth, weights) = if difficulty == 7 {
            (10u8, EvalWeights::nexus_7())
        } else if difficulty == 3 {
            (5u8, EvalWeights::nexus_3())
        } else {
            (7u8, EvalWeights::nexus_5())
        };
        AdvancedSearchConfig {
            max_depth,
            time_limit_ms,
            weights,
            use_tt: true,
            use_killer_moves: true,
            use_history: true,
            use_aspiration: true,
            use_pvs: true,
            use_null_move: true,
        }
    }
}

/// The outcome of one advanced search.
pub struct SearchResult {
    pub best_move: Option<Move>,
    pub depth: u8,
    pub score: i32,
    pub nodes: u32,
}

/// A slide worth expanding: on the board, legal, with some destroy left.
pub open spec fn playable(s: GameState, is_ai: bool, mv: Move) -> bool {
    mv.to.0 < 7 && mv.to.1 < 7 && slide_ok(s, is_ai, scell(mv.to.0 as int, mv.to.1 as int))
        && has_destroy(s, scell(mv.to.0 as int, mv.to.1 as int))
}

/// Some scored entry carries this move.
pub open spec fn holds_move(s: Seq<(Move, i64)>, mv: Move) -> bool {
    exists|j: int| 0 <= j < s.len() && (#[trigger] s[j]).0 == mv
}

/// Orders slides for the alpha-beta loop: transposition move first, then
/// killers, history bonuses, quick win detection and suicide avoidance.
/// The result is as long as the input and holds every input move.
#[verifier::rlimit(100)]
fn order_moves(
    moves: Vec<Move>,
    state: &GameState,
    tt: &TranspositionTable,
    killers: &KillerMoves,
    history: &HistoryTable,
    hash: u64,
    depth: u8,
    maximizing: bool,
) -> (out: Vec<Move>)
    requires
        state.wf(),
        killers.wf(),
        history.wf(),
    ensures
        out@.len() == moves@.len(),
        forall|q: int| 0 <= q < moves@.len() ==> out@.contains(#[trigger] moves@[q]),
{
    let pv_move: Option<Move> = match tt.table.get(&hash) {
        Some(e) => e.best_move,
        None => None,
    };
    let opp_mask = if maximizing {
        state.player
    } else {
        state.ai
    };
    let my_mask = if maximizing {
        state.ai
    } else {
        state.player
    };
    let opp_idx = piece_index(opp_mask);
    proof {
        let w = choose|w: int| valid_cell(w) && opp_mask == #[trigger] cell_mask(w);
        lemma_piece_cell(opp_mask, w);
        lemma_coord_bounds(opp_idx as int);
    }
    let opp_pos = index_to_pos(opp_idx);

    let mut scored: Vec<(Move, i64)> = Vec::new();
    let mut i: usize = 0;
    while i < moves.len()
        invariant
            state.wf(),
            killers.wf(),
            history.wf(),
            i <= moves@.len(),
            scored@.len() == i,
            opp_pos.0 < 7 && opp_pos.1 < 7,
            forall|j: int| 0 <= j < i ==> (#[trigger] scored@[j]).0 == moves@[j],
        decreases moves@.len() - i,
    {
        let mv = moves[i];
        let mut score: i64 = 0;
        match pv_move {
            Some(pv) => {
                if moves_equal(&pv, &mv) {
                    score = score + 100000;
                }
            },
            None => {},
        }
        if killers.is_killer(depth as usize, &mv) {
            score = score + 9000;
        }
        if mv.from.0 < 7 && mv.from.1 < 7 && mv.to.0 < 7 && mv.to.1 < 7 {
            let from_idx = pos_to_index(mv.from.0, mv.from.1);
            let to_idx = pos_to_index(mv.to.0, mv.to.1);
            let h = history.get_score(from_idx as usize, to_idx as usize);
            let h_clamped = if h > 1000000 {
                1000000
            } else if h < -1000000 {
                -1000000
            } else {
                h
            };
            score = score + h_clamped;
            let to_mask = pos_to_mask(mv.to.0, mv.to.1);
            let occupied = state.destroyed | state.player | state.ai | to_mask;
            let opp_moves = get_queen_moves(opp_pos.0, opp_pos.1, occupied);
            let opp_mobility = count_ones(opp_moves);
            let mut is_winning = false;
            if opp_mobility == 0 {
                score = score + 50000;
                is_winning = true;
            }
            if !is_winning && opp_mobility > 1 {
                let future_blocked = state.destroyed | opp_mask | to_mask;
                let my_future = get_queen_moves(mv.to.0, mv.to.1, future_blocked);
                let my_mobility = count_ones(my_future);
                if my_mobility == 0 {
                    score = score - 100000;
                } else if my_mobility == 1 {
                    score = score - 20000;
                } else if my_mobility == 2 {
                    score = score - 2000;
                }
            }
        }
        scored.push((mv, score));
        i = i + 1;
    }
    proof {
        assert forall|q: int|
            0 <= q < moves@.len() implies holds_move(scored@, #[trigger] moves@[q]) by {
            assert(scored@[q].0 == moves@[q]);
        }
    }
    // Selection sort, best score first.
    let mut s: usize = 0;
    while s < scored.len()
        invariant
            scored@.len() == moves@.len(),
            s <= scored@.len(),
            forall|q: int| 0 <= q < moves@.len() ==> holds_move(scored@, #[trigger] moves@[q]),
        decreases scored@.len() - s,
    {
        let mut best_j = s;
        let mut j = s + 1;
        while j < scored.len()
            invariant
                scored@.len() == moves@.len(),
                s <= best_j < scored@.len(),
                s < j,
                j <= scored@.len(),
                s < scored@.len(),
                forall|q: int| 0 <= q < moves@.len() ==> holds_move(scored@, #[trigger] moves@[q]),
            decreases scored@.len() - j,
        {
            if scored[j].1 > scored[best_j].1 {
                best_j = j;
            }
            j = j + 1;
        }
        let a = scored[s];
        let b = scored[best_j];
        let ghost before = scored@;
        scored[s] = b;
        scored[best_j] = a;
        proof {
            assert forall|q: int|
                0 <= q < moves@.len() implies holds_move(scored@, #[trigger] moves@[q]) by {
                let j0 = choose|j0: int| 0 <= j0 < before.len() && (#[trigger] before[j0]).0 == moves@[q];
                if j0 == s as int {
                    assert(scored@[best_j as int] == before[s as int]);
                } else if j0 == best_j as int {
                    assert(scored@[s as int] == before[best_j as int]);
                } else {
                    assert(scored@[j0] == before[j0]);
                }
            }
        }
        s = s + 1;
    }
    let mut out: Vec<Move> = Vec::new();
    let mut k: usize = 0;
    while k < scored.len()
        invariant
            scored@.len() == moves@.len(),
            k <= scored@.len(),
            out@.len() == k,
            forall|q: int| 0 <= q < moves@.len() ==> holds_move(scored@, #[trigger] moves@[q]),
            forall|j2: int| 0 <= j2 < k ==> (#[trigger] out@[j2]) == scored@[j2].0,
        decreases scored@.len() - k,
    {
        let m = scored[k].0;
        out.push(m);
        k = k + 1;
    }
    proof {
        assert forall|q: int|
            0 <= q < moves@.len() implies out@.contains(#[trigger] moves@[q]) by {
            let j0 = choose|j0: int|
                0 <= j0 < scored@.len() && (#[trigger] scored@[j0]).0 == moves@[q];
            assert(out@[j0] == moves@[q]);
        }
    }
    out
}


/// Negamax with all enhancements, against the deadline.
///
/// Any returned move is a complete legal move for the mover.  With an
/// unreachable deadline, an empty transposition table on entry and a legal
/// move available, a move is returned.
#[verifier::rlimit(100)]
pub fn alpha_beta_advanced(
    state: &GameState,
    depth: u8,
    alpha: i32,
    beta: i32,
    maximizing: bool,
    config: &AdvancedSearchConfig,
    tt: &mut TranspositionTable,
    killers: &mut KillerMoves,
    history: &mut HistoryTable,
    hash: u64,
    start: &Instant,
    limit_ms: u64,
    nodes: &mut u32,
    cache: &mut CriticalCellsCache,
) -> (r: (Option<Move>, i32))
    requires
        state.wf(),
        old(tt).wf(),
        old(killers).wf(),
        old(history).wf(),
        old(cache).wf(),
        weights_in_range(config.weights),
        config.use_tt ==> hash == old(tt).hash_spec(*state, maximizing),
    ensures
        final(tt).wf(),
        final(killers).wf(),
        final(history).wf(),
        final(cache).wf(),
        r.0 is Some ==> full_move_ok(*state, maximizing, r.0->0),
        mobility_count(*state, if maximizing {
            state.ai_idx()
        } else {
            state.player_idx()
        }) == 0 ==> r.0 is None && r.1 == -100000 - 100 * (depth as int),
        depth == 0 && mobility_count(*state, if maximizing {
            state.ai_idx()
        } else {
            state.player_idx()
        }) > 0 ==> r.0 is None && r.1 == (if maximizing {
            eval_score_spec(*state, config.weights)
        } else {
            -eval_score_spec(*state, config.weights)
        }),
        (depth >= 1 && limit_ms == 0xFFFF_FFFF_FFFF_FFFFu64 && alpha < beta && !config.use_tt
            && !config.use_null_move && exists|mv: Move|
            #[trigger] full_move_ok(*state, maximizing, mv)) ==> r.0 is Some,
    decreases depth,
{
    if *nodes < u32::MAX {
        *nodes = *nodes + 1;
    }
    // Immediate-loss detection comes first: a stuck mover loses, scaled so
    // that a loss near the root scores worse than a delayed one.
    let my_mask = if maximizing {
        state.ai
    } else {
        state.player
    };
    let me_idx = piece_index(my_mask);
    proof {
        let w = choose|w: int| valid_cell(w) && my_mask == #[trigger] cell_mask(w);
        lemma_piece_cell(my_mask, w);
        lemma_coord_bounds(me_idx as int);
    }
    let my_pos = index_to_pos(me_idx);
    let ghost me_cell: int = if maximizing {
        state.ai_idx()
    } else {
        state.player_idx()
    };
    let mobility_now = crate::eval::mobility_exec(state, my_pos);
    proof {
        assert(me_idx as int == me_cell);
        assert(mobility_now == mobility_count(*state, me_cell));
    }
    if mobility_now == 0 {
        proof {
            if exists|mv: Move| #[trigger] full_move_ok(*state, maximizing, mv) {
                let mv = choose|mv: Move| #[trigger] full_move_ok(*state, maximizing, mv);
                let tcw = scell(mv.to.0 as int, mv.to.1 as int);
                assert(slide_ok(*state, maximizing, tcw));
                let slide_blocked = state.destroyed | (if maximizing {
                    state.player
                } else {
                    state.ai
                });
                assert(crate::eval::blocked_all(*state) == slide_blocked | (1u64 << (
                me_cell as u64))) by {
                    let d = state.destroyed;
                    let p = state.player;
                    let q = state.ai;
                    if maximizing {
                        assert(state.ai == cell_mask(state.ai_idx()));
                        assert((d | p) | q == (d | p) | q);
                    } else {
                        assert(state.player == cell_mask(state.player_idx()));
                        assert((d | p) | q == (d | q) | p) by (bit_vector);
                    }
                }
                crate::bitboard::lemma_queen_move_source_bit(slide_blocked, me_cell, tcw);
                crate::eval::lemma_mobility_positive(*state, me_cell, tcw);
                assert(false);
            }
        }
        return (None, -100000 - (depth as i32) * 100);
    }
    if depth == 0 {
        let (score, _) = evaluate_advanced(state, &config.weights, cache);
        return (None, if maximizing {
            score
        } else {
            -score
        });
    }
    if millis_since(start) > limit_ms {
        return (None, if maximizing {
            -1000000
        } else {
            1000000
        });
    }
    // Transposition probe: a stored result deep enough to reuse.
    if config.use_tt {
        let probed = tt.probe(hash, depth, alpha, beta);
        match probed {
            Some(entry) => {
                if entry.depth >= depth {
                    let usable = match entry.bound {
                        Bound::Exact => true,
                        Bound::Lower => entry.score >= beta,
                        Bound::Upper => entry.score <= alpha,
                    };
                    if usable {
                        match entry.best_move {
                            Some(bm) => {
                                if validate_move(state, &bm, maximizing) {
                                    return (Some(bm), entry.score);
                                }
                            },
                            None => {},
                        }
                        return (None, entry.score);
                    }
                }
            },
            None => {},
        }
    }
    // Null-move pruning: above shallow depth, when not desperate and the
    // board is still open, a free pass that already beats beta prunes.
    if config.use_null_move && depth >= 3 && maximizing && mobility_now > 3 {
        let blocked = state.destroyed | state.player | state.ai;
        let free_cells = count_ones(!blocked);
        if free_cells > 10 {
            let null_hash = tt.compute_hash_checked(state, !maximizing);
            let reduction: u8 = if depth >= 4 {
                3
            } else {
                depth - 1
            };
            let (_, null_score) = alpha_beta_advanced(
                state,
                depth - reduction,
                if beta <= (i32::MIN + 1) {
                    i32::MAX - 1
                } else {
                    -beta
                },
                if beta <= (i32::MIN + 1) {
                    i32::MAX
                } else {
                    (-beta) + 1
                },
                !maximizing,
                config,
                tt,
                killers,
                history,
                null_hash,
                start,
                limit_ms,
                nodes,
                cache,
            );
            let null_val = if null_score == i32::MIN {
                i32::MAX
            } else {
                -null_score
            };
            if null_val >= beta {
                return (None, beta);
            }
        }
    }
    let moves = state.get_valid_moves(maximizing);
    if moves.len() == 0 {
        proof {
            if exists|mv: Move| #[trigger] full_move_ok(*state, maximizing, mv) {
                let mv = choose|mv: Move| #[trigger] full_move_ok(*state, maximizing, mv);
                assert(slide_ok(*state, maximizing, scell(mv.to.0 as int, mv.to.1 as int)));
                assert(false);
            }
        }
        return (None, -100000 - (depth as i32) * 100);
    }
    let ghost moves_seq = moves@;
    let ordered = order_moves(moves, state, tt, killers, history, hash, depth, maximizing);
    let opp_mask2 = if maximizing {
        state.player
    } else {
        state.ai
    };
    let slide_mask = get_queen_moves(my_pos.0, my_pos.1, state.destroyed | opp_mask2);

    proof {
        if config.use_tt {
            lemma_hash_agree(*old(tt), *tt, *state, maximizing);
        }
    }
    let mut best_move: Option<Move> = None;
    let mut max_score: i32 = -1000000;
    let mut alpha_mut = alpha;
    let original_alpha = alpha;
    let mut i: usize = 0;
    while i < ordered.len()
        invariant
            state.wf(),
            tt.wf(),
            killers.wf(),
            history.wf(),
            cache.wf(),
            weights_in_range(config.weights),
            depth >= 1,
            i <= ordered@.len(),
            forall|t: int|
                bit(slide_mask, t) == queen_move(
                    state.destroyed | (if maximizing {
                        state.player
                    } else {
                        state.ai
                    }),
                    if maximizing {
                        state.ai_idx()
                    } else {
                        state.player_idx()
                    },
                    t,
                ),
            best_move is Some ==> full_move_ok(*state, maximizing, best_move->0),
            mobility_count(*state, if maximizing {
                state.ai_idx()
            } else {
                state.player_idx()
            }) != 0,
            forall|j: int|
                0 <= j < moves_seq.len() ==> (#[trigger] moves_seq[j]).to.0 < 7
                    && moves_seq[j].to.1 < 7,
            forall|t: int|
                #[trigger] slide_ok(*state, maximizing, t) ==> exists|j: int|
                    0 <= j < moves_seq.len() && scell(
                        (#[trigger] moves_seq[j]).to.0 as int,
                        moves_seq[j].to.1 as int,
                    ) == t,
            forall|q: int| 0 <= q < moves_seq.len() ==> ordered@.contains(#[trigger] moves_seq[q]),
            limit_ms == 0xFFFF_FFFF_FFFF_FFFFu64 && best_move is None ==> forall|j: int|
                0 <= j < i ==> !playable(*state, maximizing, #[trigger] ordered@[j]),
            config.use_tt ==> hash == tt.hash_spec(*state, maximizing),
        decreases ordered@.len() - i,
    {
        let ghost tt_at: TranspositionTable = *tt;
        let mv0 = ordered[i];
        if mv0.to.0 >= 7 || mv0.to.1 >= 7 {
            proof {
                if limit_ms == 0xFFFF_FFFF_FFFF_FFFFu64 && best_move is None {
                    assert(!playable(*state, maximizing, ordered@[i as int]));
                    assert forall|j: int| 0 <= j < i + 1 implies !playable(
                        *state,
                        maximizing,
                        #[trigger] ordered@[j],
                    ) by {}
                }
            }
            i = i + 1;
            continue;
        }
        let to_idx2 = pos_to_index(mv0.to.0, mv0.to.1);
        if !test_bit(slide_mask, to_idx2) {
            proof {
                if limit_ms == 0xFFFF_FFFF_FFFF_FFFFu64 && best_move is None {
                    assert(!slide_ok(*state, maximizing, scell(mv0.to.0 as int, mv0.to.1 as int)));
                    assert(!playable(*state, maximizing, ordered@[i as int]));
                    assert forall|j: int| 0 <= j < i + 1 implies !playable(
                        *state,
                        maximizing,
                        #[trigger] ordered@[j],
                    ) by {}
                }
            }
            i = i + 1;
            continue;
        }
        proof {
            assert(slide_ok(*state, maximizing, scell(mv0.to.0 as int, mv0.to.1 as int)));
        }
        let destroys = get_destroy_candidates_advanced_export(state, &mv0, maximizing, 6);
        let mut k: usize = 0;
        while k < destroys.len()
            invariant
                state.wf(),
                tt.wf(),
                killers.wf(),
                history.wf(),
                cache.wf(),
                weights_in_range(config.weights),
                depth >= 1,
                i < ordered@.len(),
                k <= destroys@.len(),
                mv0.to.0 < 7 && mv0.to.1 < 7,
                slide_ok(*state, maximizing, scell(mv0.to.0 as int, mv0.to.1 as int)),
                forall|j: int|
                    0 <= j < destroys@.len() ==> (#[trigger] destroys@[j]).0 < 7 && destroys@[j].1
                        < 7 && destroy_ok(
                        *state,
                        scell(mv0.to.0 as int, mv0.to.1 as int),
                        scell(destroys@[j].0 as int, destroys@[j].1 as int),
                    ),
                best_move is Some ==> full_move_ok(*state, maximizing, best_move->0),
                mv0 == ordered@[i as int],
                mobility_count(*state, if maximizing {
                    state.ai_idx()
                } else {
                    state.player_idx()
                }) != 0,
                limit_ms == 0xFFFF_FFFF_FFFF_FFFFu64 && k > 0 ==> best_move is Some,
                limit_ms == 0xFFFF_FFFF_FFFF_FFFFu64 && best_move is None ==> forall|j: int|
                    0 <= j < i ==> !playable(*state, maximizing, #[trigger] ordered@[j]),
                config.use_tt ==> hash == tt.hash_spec(*state, maximizing),
            decreases destroys@.len() - k,
        {
            let ghost tt_k: TranspositionTable = *tt;
            if millis_since(start) > limit_ms {
                return (best_move, max_score);
            }
            let d = destroys[k];
            let new_state = apply_move(state, mv0.to, d, maximizing);
            let new_hash = if config.use_tt {
                proof {
                    crate::bitboard::lemma_bit_or(
                        state.destroyed,
                        cell_mask(scell(d.0 as int, d.1 as int)),
                    );
                }
                update_hash_after_move(tt, hash, state, &new_state, maximizing, !maximizing)
            } else {
                0
            };
            let (_, val) = alpha_beta_advanced(
                &new_state,
                depth - 1,
                if beta == i32::MIN {
                    i32::MAX
                } else {
                    -beta
                },
                if alpha_mut == i32::MIN {
                    i32::MAX
                } else {
                    -alpha_mut
                },
                !maximizing,
                config,
                tt,
                killers,
                history,
                new_hash,
                start,
                limit_ms,
                nodes,
                cache,
            );
            let score = if val == i32::MIN {
                i32::MAX
            } else {
                -val
            };
            let cand = Move { from: mv0.from, to: mv0.to, destroy: d, score };
            if score > max_score || best_move.is_none() {
                max_score = score;
                best_move = Some(cand);
            }
            if score > alpha_mut {
                alpha_mut = score;
            }
            k = k + 1;
            if alpha_mut >= beta {
                if config.use_killer_moves {
                    killers.record(depth as usize, cand);
                }
                if config.use_history && mv0.from.0 < 7 && mv0.from.1 < 7 {
                    let from_idx = pos_to_index(mv0.from.0, mv0.from.1);
                    let to_idx = pos_to_index(mv0.to.0, mv0.to.1);
                    history.record(from_idx as usize, to_idx as usize, depth);
                }
                if config.use_tt {
                    tt.store(hash, depth, max_score, Bound::Lower, best_move);
                }
                return (best_move, max_score);
            }
            proof {
                if config.use_tt {
                    lemma_hash_agree(tt_k, *tt, *state, maximizing);
                }
            }
        }
        proof {
            if config.use_tt {
                lemma_hash_agree(tt_at, *tt, *state, maximizing);
            }
            if limit_ms == 0xFFFF_FFFF_FFFF_FFFFu64 && best_move is None {
                assert(!has_destroy(*state, scell(mv0.to.0 as int, mv0.to.1 as int))) by {
                    if has_destroy(*state, scell(mv0.to.0 as int, mv0.to.1 as int)) {
                        assert(destroys@.len() >= 1);
                    }
                }
                assert(!playable(*state, maximizing, ordered@[i as int]));
                assert forall|j: int| 0 <= j < i + 1 implies !playable(
                    *state,
                    maximizing,
                    #[trigger] ordered@[j],
                ) by {}
            }
        }
        i = i + 1;
    }
    proof {
        if limit_ms == 0xFFFF_FFFF_FFFF_FFFFu64 && best_move is None && exists|mv: Move|
            #[trigger] full_move_ok(*state, maximizing, mv) {
            let mv = choose|mv: Move| #[trigger] full_move_ok(*state, maximizing, mv);
            let tcw = scell(mv.to.0 as int, mv.to.1 as int);
            assert(slide_ok(*state, maximizing, tcw));
            let j = choose|j: int|
                0 <= j < moves_seq.len() && scell(
                    (#[trigger] moves_seq[j]).to.0 as int,
                    moves_seq[j].to.1 as int,
                ) == tcw;
            assert(ordered@.contains(moves_seq[j]));
            let jo = choose|jo: int| 0 <= jo < ordered@.len() && ordered@[jo] == moves_seq[j];
            assert(destroy_ok(*state, tcw, scell(mv.destroy.0 as int, mv.destroy.1 as int)));
            assert(has_destroy(*state, tcw));
            assert(playable(*state, maximizing, ordered@[jo]));
            assert(false);
        }
    }
    if config.use_tt {
        let bound = if max_score <= original_alpha {
            Bound::Upper
        } else if max_score >= beta {
            Bound::Lower
        } else {
            Bound::Exact
        };
        tt.store(hash, depth, max_score, bound, best_move);
    }
    (best_move, max_score)
}

/// Retries the search with narrow windows around the previous score before
/// falling back to the full window.
pub fn aspiration_search(
    state: &GameState,
    depth: u8,
    prev_score: i32,
    config: &AdvancedSearchConfig,
    tt: &mut TranspositionTable,
    killers: &mut KillerMoves,
    history: &mut HistoryTable,
    hash: u64,
    start: &Instant,
    limit_ms: u64,
    nodes: &mut u32,
    cache: &mut CriticalCellsCache,
) -> (r: (Option<Move>, i32))
    requires
        state.wf(),
        old(tt).wf(),
        old(killers).wf(),
        old(history).wf(),
        old(cache).wf(),
        weights_in_range(config.weights),
        config.use_tt ==> hash == old(tt).hash_spec(*state, true),
    ensures
        final(tt).wf(),
        final(killers).wf(),
        final(history).wf(),
        final(cache).wf(),
        r.0 is Some ==> full_move_ok(*state, true, r.0->0),
        (depth >= 1 && limit_ms == 0xFFFF_FFFF_FFFF_FFFFu64 && !config.use_tt
            && !config.use_null_move && exists|mv: Move|
            #[trigger] full_move_ok(*state, true, mv)) ==> r.0 is Some,
{
    let mut window: i32 = 50;
    let mut attempt: u8 = 0;
    while attempt < 4
        invariant
            state.wf(),
            tt.wf(),
            killers.wf(),
            history.wf(),
            cache.wf(),
            weights_in_range(config.weights),
            50 <= window <= 800,
            config.use_tt ==> hash == tt.hash_spec(*state, true),
        decreases 4 - attempt,
    {
        let ghost tt_at: TranspositionTable = *tt;
        let alpha = if prev_score >= -1000000 + window {
            prev_score - window
        } else {
            -1000000
        };
        let beta = if prev_score <= 1000000 - window {
            prev_score + window
        } else {
            1000000
        };
        let (m, score) = alpha_beta_advanced(
            state,
            depth,
            alpha,
            beta,
            true,
            config,
            tt,
            killers,
            history,
            hash,
            start,
            limit_ms,
            nodes,
            cache,
        );
        if score > alpha && score < beta {
            return (m, score);
        }
        if millis_since(start) > limit_ms {
            return (m, score);
        }
        proof {
            if config.use_tt {
                lemma_hash_agree(tt_at, *tt, *state, true);
            }
        }
        if window <= 200 {
            window = window * 2;
        } else {
            break;
        }
        attempt = attempt + 1;
    }
    alpha_beta_advanced(
        state,
        depth,
        -1000000,
        1000000,
        true,
        config,
        tt,
        killers,
        history,
        hash,
        start,
        limit_ms,
        nodes,
        cache,
    )
}

/// The full engine for one position: opening book, exact endgame solver, then
/// iterative deepening with all enhancements.  The first depth always runs to
/// completion, so a move comes back whenever a complete legal move exists.
pub fn find_best_move_advanced_detailed(
    state: &GameState,
    config: AdvancedSearchConfig,
    cache: &mut CriticalCellsCache,
) -> (res: SearchResult)
    requires
        state.wf(),
        old(cache).wf(),
        config.max_depth >= 1,
        weights_in_range(config.weights),
    ensures
        final(cache).wf(),
        res.best_move is Some ==> full_move_ok(*state, true, res.best_move->0),
        (exists|mv: Move| #[trigger] full_move_ok(*state, true, mv)) ==> res.best_move is Some,
{
    let start = now_instant();
    let destroyed_count = count_ones(state.destroyed);

    // Opening book, validated before being trusted.
    if destroyed_count < 8 {
        match get_opening_move(state, (if destroyed_count < 255 {
            destroyed_count as u8
        } else {
            255
        })) {
            Some(opening_move) => {
                if validate_move(state, &opening_move, true) {
                    return SearchResult {
                        best_move: Some(opening_move),
                        depth: 0,
                        score: 0,
                        nodes: 0,
                    };
                }
            },
            None => {},
        }
    }
    // Exact endgame once the board is split and the region is small.
    let p_idx = piece_index(state.player);
    let a_idx = piece_index(state.ai);
    proof {
        let wp = choose|w: int| valid_cell(w) && state.player == #[trigger] cell_mask(w);
        lemma_piece_cell(state.player, wp);
        let wa = choose|w: int| valid_cell(w) && state.ai == #[trigger] cell_mask(w);
        lemma_piece_cell(state.ai, wa);
        lemma_coord_bounds(p_idx as int);
        lemma_coord_bounds(a_idx as int);
    }
    let p_pos = index_to_pos(p_idx);
    let a_pos = index_to_pos(a_idx);
    let partition = detect_partition_bitboard(p_pos, a_pos, state.destroyed);
    if partition.is_partitioned && should_solve_exactly(partition.ai_region_size) {
        let endgame = solve_endgame(state, partition.ai_region, true, config.time_limit_ms / 2);
        if endgame.solved {
            match endgame.best_move {
                Some(mv) => {
                    if validate_move(state, &mv, true) {
                        let sc = if endgame.longest_path <= i32::MAX - 100000 {
                            100000 + endgame.longest_path
                        } else {
                            i32::MAX
                        };
                        return SearchResult { best_move: Some(mv), depth: 255, score: sc, nodes: 0 };
                    }
                },
                None => {},
            }
        }
    }
    let mut tt = TranspositionTable::new();
    tt.new_search();
    let mut killers = KillerMoves::new();
    let mut history = HistoryTable::new();
    let mut nodes: u32 = 0;

    let hash0 = tt.compute_hash_checked(state, true);
    let (m1, s1) = alpha_beta_advanced(
        state,
        1,
        -1000000,
        1000000,
        true,
        &config,
        &mut tt,
        &mut killers,
        &mut history,
        hash0,
        &start,
        0xFFFF_FFFF_FFFF_FFFFu64,
        &mut nodes,
        cache,
    );
    let mut best_move = m1;
    let mut best_score = s1;
    let mut actual_depth: u8 = 1;
    let mut depth: u8 = 2;
    while depth <= config.max_depth
        invariant
            state.wf(),
            tt.wf(),
            killers.wf(),
            history.wf(),
            cache.wf(),
            weights_in_range(config.weights),
            best_move is Some ==> full_move_ok(*state, true, best_move->0),
        decreases config.max_depth as int + 1 - depth,
    {
        if millis_since(&start) > config.time_limit_ms as u64 {
            break;
        }
        let hash = tt.compute_hash_checked(state, true);
        let (m, score) = if config.use_aspiration && depth >= 3 {
            aspiration_search(
                state,
                depth,
                best_score,
                &config,
                &mut tt,
                &mut killers,
                &mut history,
                hash,
                &start,
                config.time_limit_ms as u64,
                &mut nodes,
                cache,
            )
        } else {
            alpha_beta_advanced(
                state,
                depth,
                -1000000,
                1000000,
                true,
                &config,
                &mut tt,
                &mut killers,
                &mut history,
                hash,
                &start,
                config.time_limit_ms as u64,
                &mut nodes,
                cache,
            )
        };
        match m {
            Some(mv) => {
                best_move = Some(mv);
                best_score = score;
                actual_depth = depth;
            },
            None => {},
        }
        if best_score > 90000 || best_score < -90000 {
            break;
        }
        if depth == 255 {
            break;
        }
        depth = depth + 1;
    }
    if best_move.is_none() {
        // The enhanced search can come back empty-handed (a cutoff without a
        // stored move); fall back to one guaranteed plain-search pass.
        let fb_start = now_instant();
        let (fb, fb_score) = crate::search::alpha_beta(
            state,
            1,
            -1000000,
            1000000,
            true,
            &fb_start,
            0xFFFF_FFFF_FFFF_FFFFu64,
            cache,
        );
        match fb {
            Some(mv) => {
                return SearchResult { best_move: Some(mv), depth: 1, score: fb_score, nodes };
            },
            None => {},
        }
    }
    SearchResult { best_move, depth: actual_depth, score: best_score, nodes }
}

/// The engine's move for one position.
pub fn find_best_move_advanced(
    state: &GameState,
    config: AdvancedSearchConfig,
    cache: &mut CriticalCellsCache,
) -> (r: Option<Move>)
    requires
        state.wf(),
        old(cache).wf(),
        config.max_depth >= 1,
        weights_in_range(config.weights),
    ensures
        final(cache).wf(),
        r is Some ==> full_move_ok(*state, true, r->0),
        (exists|mv: Move| #[trigger] full_move_ok(*state, true, mv)) ==> r is Some,
{
    let res = find_best_move_advanced_detailed(state, config, cache);
    res.best_move
}

} // verus!
