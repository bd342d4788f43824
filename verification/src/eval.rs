//! Evaluation for the 7 x 7 queen-move game, from the AI's point of view.
//!
//! The score is a weighted sum of strategic components — territory, mobility,
//! lookahead mobility, positioning, partition advantage, openness, parity,
//! traps and effective mobility — with phase-dependent weights and a
//! desperation override when the AI is nearly trapped.  All quantities are
//! integers in tenths; weights are in tenths as well, so products carry two
//! implied decimal places.

use vstd::prelude::*;
use std::collections::HashMap;
use crate::bitboard::{
    bit, scell, srow, scol, valid_cell, queen_move, reach_n, reaches, pop, pop_below, count_pred,
    test_bit, get_queen_moves, count_ones, index_to_pos, expand_queen_bit_parallel,
    lemma_bit_or, lemma_bit_and, lemma_bit_not, lemma_bit_single, lemma_bit_zero,
    lemma_pop_below_bound, lemma_pop_is_count_pred, lemma_coord_bounds, lemma_count_pred_positive,
    lemma_queen_move_valid, BOARD_MASK, lemma_board_mask_bits,
};
use crate::board::{GameState, piece_index, piece_cell, is_single_cell, lemma_piece_cell};
use crate::partition::{
    cell_mask, pieces_connected, detect_partition_bitboard, would_cause_partition, PartitionResult,
};
use crate::voronoi::{calculate_voronoi_optimized, side_claims, both_claim, VoronoiResult};
use crate::endgame::sdist;

verus! {

broadcast use vstd::std_specs::hash::group_hash_axioms;

/// Weights of the evaluation components, in tenths.
#[derive(Clone, Copy, Debug)]
pub struct EvalWeights {
    pub territory: i32,
    pub mobility: i32,
    pub mobility_potential: i32,
    pub center_control: i32,
    pub corner_avoidance: i32,
    pub partition_advantage: i32,
    pub critical_cells: i32,
    pub openness: i32,
    pub parity: i32,
    pub trap: i32,
    pub effective_mobility: i32,
}

/// All weights small enough that no weighted sum can overflow.
pub open spec fn weights_in_range(w: EvalWeights) -> bool {
    &&& 0 <= w.territory <= 20000
    &&& 0 <= w.mobility <= 20000
    &&& 0 <= w.mobility_potential <= 20000
    &&& 0 <= w.center_control <= 20000
    &&& 0 <= w.corner_avoidance <= 20000
    &&& 0 <= w.partition_advantage <= 20000
    &&& 0 <= w.critical_cells <= 20000
    &&& 0 <= w.openness <= 20000
    &&& 0 <= w.parity <= 20000
    &&& 0 <= w.trap <= 20000
    &&& 0 <= w.effective_mobility <= 20000
}

impl EvalWeights {
    /// The strongest preset.
    pub fn nexus_7() -> (w: EvalWeights)
        ensures
            w == (EvalWeights {
                territory: 50,
                mobility: 80,
                mobility_potential: 50,
                center_control: 20,
                corner_avoidance: 30,
                partition_advantage: 5000,
                critical_cells: 40,
                openness: 10,
                parity: 200,
                trap: 1000,
                effective_mobility: 30,
            }),
            weights_in_range(w),
    {
        EvalWeights {
            territory: 50,
            mobility: 80,
            mobility_potential: 50,
            center_control: 20,
            corner_avoidance: 30,
            partition_advantage: 5000,
            critical_cells: 40,
            openness: 10,
            parity: 200,
            trap: 1000,
            effective_mobility: 30,
        }
    }

    /// The middle preset.
    pub fn nexus_5() -> (w: EvalWeights)
        ensures
            w == (EvalWeights {
                territory: 40,
                mobility: 70,
                mobility_potential: 30,
                center_control: 20,
                corner_avoidance: 25,
                partition_advantage: 3000,
                critical_cells: 30,
                openness: 8,
                parity: 50,
                trap: 200,
                effective_mobility: 10,
            }),
            weights_in_range(w),
    {
        EvalWeights {
            territory: 40,
            mobility: 70,
            mobility_potential: 30,
            center_control: 20,
            corner_avoidance: 25,
            partition_advantage: 3000,
            critical_cells: 30,
            openness: 8,
            parity: 50,
            trap: 200,
            effective_mobility: 10,
        }
    }

    /// The basic preset.
    pub fn nexus_3() -> (w: EvalWeights)
        ensures
            w == (EvalWeights {
                territory: 30,
                mobility: 50,
                mobility_potential: 20,
                center_control: 15,
                corner_avoidance: 20,
                partition_advantage: 1000,
                critical_cells: 20,
                openness: 5,
                parity: 0,
                trap: 0,
                effective_mobility: 0,
            }),
            weights_in_range(w),
    {
        EvalWeights {
            territory: 30,
            mobility: 50,
            mobility_potential: 20,
            center_control: 15,
            corner_avoidance: 20,
            partition_advantage: 1000,
            critical_cells: 20,
            openness: 5,
            parity: 0,
            trap: 0,
            effective_mobility: 0,
        }
    }
}

/// Phase weights as a function of the number of destroyed cells: opening
/// favors the center, midgame territory and partition threats, endgame
/// mobility and parity.
pub open spec fn phase_weights(destroyed_count: int) -> EvalWeights {
    let base = EvalWeights {
        territory: 50,
        mobility: 80,
        mobility_potential: 50,
        center_control: 20,
        corner_avoidance: 30,
        partition_advantage: 5000,
        critical_cells: 40,
        openness: 10,
        parity: 200,
        trap: 1000,
        effective_mobility: 30,
    };
    if destroyed_count < 10 {
        EvalWeights {
            territory: 30,
            mobility: 60,
            center_control: 50,
            partition_advantage: 2000,
            trap: 500,
            ..base
        }
    } else if destroyed_count < 30 {
        EvalWeights {
            territory: 80,
            mobility: 50,
            center_control: 10,
            partition_advantage: 6000,
            critical_cells: 80,
            trap: 1500,
            ..base
        }
    } else {
        EvalWeights {
            territory: 20,
            mobility: 100,
            partition_advantage: 10000,
            parity: 500,
            effective_mobility: 100,
            ..base
        }
    }
}

/// Dynamic weights for the current game phase.
pub fn get_phase_weights(destroyed_count: u32) -> (w: EvalWeights)
    ensures
        w == phase_weights(destroyed_count as int),
        weights_in_range(w),
{
    let mut w = EvalWeights::nexus_7();
    if destroyed_count < 10 {
        w.territory = 30;
        w.mobility = 60;
        w.center_control = 50;
        w.partition_advantage = 2000;
        w.trap = 500;
    } else if destroyed_count < 30 {
        w.territory = 80;
        w.mobility = 50;
        w.center_control = 10;
        w.partition_advantage = 6000;
        w.critical_cells = 80;
        w.trap = 1500;
    } else {
        w.territory = 20;
        w.mobility = 100;
        w.partition_advantage = 10000;
        w.parity = 500;
        w.effective_mobility = 100;
    }
    w
}

/// The evaluation components, in tenths.
#[derive(Clone, Copy, Debug, PartialEq, Eq, Structural)]
pub struct EvalComponents {
    pub territory: i64,
    pub mobility: i64,
    pub mobility_potential: i64,
    pub center_control: i64,
    pub corner_avoidance: i64,
    pub partition_advantage: i64,
    pub critical_cells: i64,
    pub openness: i64,
    pub parity: i64,
    pub trap: i64,
    pub effective_mobility: i64,
}

/// All cells a piece cannot enter: destroyed cells and both pieces.
pub open spec fn blocked_all(s: GameState) -> u64 {
    s.destroyed | s.player | s.ai
}

/// Number of queen moves available from `me`.
pub open spec fn mobility_count(s: GameState, me: int) -> int {
    count_pred(|t: int| queen_move(blocked_all(s), me, t), 64) as int
}

/// Number of cells below `n` in one side's region.
pub open spec fn region_count_below(destroyed: u64, other: int, me: int, n: int) -> int
    decreases n,
{
    if n <= 0 {
        0
    } else {
        region_count_below(destroyed, other, me, n - 1) + (if reaches(
            destroyed | cell_mask(other),
            me,
            n - 1,
        ) && n - 1 != me {
            1int
        } else {
            0int
        })
    }
}

/// A legal queen move witnesses positive mobility.
pub proof fn lemma_mobility_positive(s: GameState, me: int, t: int)
    requires
        0 <= t < 64,
        queen_move(blocked_all(s), me, t),
    ensures
        mobility_count(s, me) >= 1,
{
    crate::bitboard::lemma_count_pred_positive(
        |t: int| queen_move(blocked_all(s), me, t),
        64,
        t,
    );
}

/// Size of one side's region in a partitioned board.
pub open spec fn region_count(destroyed: u64, other: int, me: int) -> int {
    region_count_below(destroyed, other, me, 64)
}

/// Number of cells below `n` in one side's Voronoi territory.
pub open spec fn vor_count_below(s: GameState, me: int, other: int, n: int) -> int
    decreases n,
{
    if n <= 0 {
        0
    } else {
        vor_count_below(s, me, other, n - 1) + (if side_claims(blocked_all(s), me, other, n - 1) {
            1int
        } else {
            0int
        })
    }
}

/// One side's Voronoi territory size.
pub open spec fn vor_count(s: GameState, me: int, other: int) -> int {
    vor_count_below(s, me, other, 64)
}

/// Number of contested Voronoi cells below `n`.
pub open spec fn vor_contested_below(s: GameState, n: int) -> int
    decreases n,
{
    if n <= 0 {
        0
    } else {
        vor_contested_below(s, n - 1) + (if both_claim(
            blocked_all(s),
            s.player_idx(),
            s.ai_idx(),
            n - 1,
        ) {
            1int
        } else {
            0int
        })
    }
}

/// Number of contested Voronoi cells.
pub open spec fn vor_contested(s: GameState) -> int {
    vor_contested_below(s, 64)
}

/// Territory differential in tenths: region sizes when partitioned, Voronoi
/// counts with contested cells at four tenths otherwise.
pub open spec fn territory_tenths(s: GameState) -> int {
    let p = s.player_idx();
    let a = s.ai_idx();
    if !pieces_connected(s.destroyed, p, a) {
        10 * (region_count(s.destroyed, p, a) - region_count(s.destroyed, a, p))
    } else {
        10 * (vor_count(s, a, p) - vor_count(s, p, a)) + 4 * vor_contested(s)
    }
}

/// Mobility differential in tenths.
pub open spec fn mobility_tenths(s: GameState) -> int {
    10 * (mobility_count(s, s.ai_idx()) - mobility_count(s, s.player_idx()))
}

/// Cells reachable in exactly two moves but not one.
pub open spec fn two_step(s: GameState, me: int, t: int) -> bool {
    !queen_move(blocked_all(s), me, t) && exists|m: int|
        valid_cell(m) && queen_move(blocked_all(s), me, m) && #[trigger] queen_move(
            blocked_all(s),
            m,
            t,
        )
}

/// One side's mobility potential in tenths: one-move cells at full weight,
/// two-move cells at half.
pub open spec fn potential_tenths_of(s: GameState, me: int) -> int {
    10 * mobility_count(s, me) + 5 * count_pred(|t: int| two_step(s, me, t), 64)
}

/// Mobility-potential differential in tenths.
pub open spec fn mobility_potential_tenths(s: GameState) -> int {
    potential_tenths_of(s, s.ai_idx()) - potential_tenths_of(s, s.player_idx())
}

/// Center-distance differential in tenths; the center is the middle cell.
pub open spec fn center_tenths(s: GameState) -> int {
    10 * (sdist(s.player_idx(), 24) - sdist(s.ai_idx(), 24))
}

/// Chebyshev distance between two cells.
pub open spec fn cheb(a: int, b: int) -> int {
    let dr = if srow(a) >= srow(b) {
        srow(a) - srow(b)
    } else {
        srow(b) - srow(a)
    };
    let dc = if scol(a) >= scol(b) {
        scol(a) - scol(b)
    } else {
        scol(b) - scol(a)
    };
    if dr >= dc {
        dr
    } else {
        dc
    }
}

/// Distance to the nearer of the two main-diagonal corners.
pub open spec fn corner_prox(i: int) -> int {
    let d0 = cheb(i, 0);
    let d48 = cheb(i, 48);
    if d0 <= d48 {
        d0
    } else {
        d48
    }
}

/// Corner-avoidance differential in tenths: the AI wants to sit farther from
/// a corner than the player.
pub open spec fn corner_tenths(s: GameState) -> int {
    10 * (corner_prox(s.ai_idx()) - corner_prox(s.player_idx()))
}

/// Parity differential of the two region sizes, in tenths, in a partitioned
/// board.
pub open spec fn parity_tenths(s: GameState) -> int {
    let p = s.player_idx();
    let a = s.ai_idx();
    if !pieces_connected(s.destroyed, p, a) {
        10 * (region_count(s.destroyed, p, a) % 2 - region_count(s.destroyed, a, p) % 2)
    } else {
        0
    }
}

/// Trap flag in tenths: bad when the AI has one move left, good when the
/// player does.
pub open spec fn trap_tenths(s: GameState) -> int {
    if mobility_count(s, s.ai_idx()) == 1 {
        -10
    } else if mobility_count(s, s.player_idx()) == 1 {
        10
    } else {
        0
    }
}

/// A move that keeps at least two follow-up moves, after vacating the old
/// cell and occupying the new one.
pub open spec fn safe_move(s: GameState, my_mask: u64, me: int, t: int) -> bool {
    queen_move(blocked_all(s), me, t) && count_pred(
        |u: int| queen_move((blocked_all(s) ^ my_mask) | cell_mask(t), t, u),
        64,
    ) >= 2
}

/// One side's effective mobility: its safe moves.
pub open spec fn effective_count(s: GameState, my_mask: u64, me: int) -> int {
    count_pred(|t: int| safe_move(s, my_mask, me, t), 64) as int
}

/// Effective-mobility differential in tenths.
pub open spec fn effective_tenths(s: GameState) -> int {
    10 * (effective_count(s, s.ai, s.ai_idx()) - effective_count(s, s.player, s.player_idx()))
}

/// Openness differential in tenths: three tenths per unobstructed ray cell,
/// and the ray cells in the eight directions are exactly the queen moves.
pub open spec fn openness_tenths(s: GameState) -> int {
    3 * (mobility_count(s, s.ai_idx()) - mobility_count(s, s.player_idx()))
}

/// The search box between the two pieces, one cell wider on each side.
pub open spec fn in_search_box(p: int, a: int, t: int) -> bool {
    let minr = if srow(p) <= srow(a) {
        srow(p)
    } else {
        srow(a)
    };
    let maxr = if srow(p) >= srow(a) {
        srow(p)
    } else {
        srow(a)
    };
    let minc = if scol(p) <= scol(a) {
        scol(p)
    } else {
        scol(a)
    };
    let maxc = if scol(p) >= scol(a) {
        scol(p)
    } else {
        scol(a)
    };
    minr - 1 <= srow(t) <= maxr + 1 && minc - 1 <= scol(t) <= maxc + 1
}

/// A critical cell: an empty cell in the search box whose destruction would
/// split the board.
pub open spec fn critical_cell(p: int, a: int, destroyed: u64, t: int) -> bool {
    &&& valid_cell(t)
    &&& in_search_box(p, a, t)
    &&& !bit(destroyed | cell_mask(p) | cell_mask(a), t)
    &&& !pieces_connected(destroyed | cell_mask(t), p, a)
}

/// The critical cells below `t`, in cell order.
pub open spec fn critical_scan(p: int, a: int, destroyed: u64, t: int) -> Seq<u8>
    decreases t,
{
    if t <= 0 {
        Seq::empty()
    } else if critical_cell(p, a, destroyed, t - 1) {
        critical_scan(p, a, destroyed, t - 1).push((t - 1) as u8)
    } else {
        critical_scan(p, a, destroyed, t - 1)
    }
}

/// The best region advantage over the listed critical cells, in whole cells,
/// starting from a large penalty.
pub open spec fn threat_scan(p: int, a: int, destroyed: u64, cs: Seq<u8>, n: int) -> int
    decreases n,
{
    if n <= 0 {
        -1000
    } else {
        let rest = threat_scan(p, a, destroyed, cs, n - 1);
        let d2 = destroyed | cell_mask(cs[n - 1] as int);
        if !pieces_connected(d2, p, a) {
            let adv = region_count(d2, p, a) - region_count(d2, a, p);
            if adv > rest {
                adv
            } else {
                rest
            }
        } else {
            rest
        }
    }
}

/// Partition-advantage component in tenths: region-size lead when already
/// partitioned; half the best critical-cell advantage when a split looms in
/// midgame; nothing otherwise.
pub open spec fn partition_tenths(s: GameState) -> int {
    let p = s.player_idx();
    let a = s.ai_idx();
    if !pieces_connected(s.destroyed, p, a) {
        50 * (region_count(s.destroyed, p, a) - region_count(s.destroyed, a, p))
    } else if pop(s.destroyed) > 12 {
        let cs = critical_scan(p, a, s.destroyed, 49);
        if 1 <= cs.len() <= 3 {
            5 * threat_scan(p, a, s.destroyed, cs, cs.len() as int)
        } else {
            0
        }
    } else {
        0
    }
}

/// The components of a well-formed state, with their phase gates applied.
pub open spec fn components_spec(s: GameState) -> EvalComponents {
    let dc = pop(s.destroyed) as int;
    let ai_mob = mobility_count(s, s.ai_idx());
    EvalComponents {
        territory: territory_tenths(s) as i64,
        mobility: mobility_tenths(s) as i64,
        mobility_potential: (if ai_mob <= 4 || (15 < dc && dc < 35) {
            mobility_potential_tenths(s)
        } else {
            0
        }) as i64,
        center_control: center_tenths(s) as i64,
        corner_avoidance: corner_tenths(s) as i64,
        partition_advantage: partition_tenths(s) as i64,
        critical_cells: 0,
        openness: (if dc < 20 {
            openness_tenths(s)
        } else {
            0
        }) as i64,
        parity: parity_tenths(s) as i64,
        trap: trap_tenths(s) as i64,
        effective_mobility: (if dc > 30 {
            effective_tenths(s)
        } else {
            0
        }) as i64,
    }
}

/// The weighted sum of the components in hundredths, after the desperation
/// override: with at most two AI moves left, territory fades, mobility
/// dominates and the partition term is ignored.
pub open spec fn weighted_sum(c: EvalComponents, w: EvalWeights, ai_mob: int) -> int {
    let wt: int = if ai_mob <= 2 {
        5
    } else {
        w.territory as int
    };
    let wm: int = if ai_mob <= 2 {
        500
    } else {
        w.mobility as int
    };
    let wp: int = if ai_mob <= 2 {
        0
    } else {
        w.partition_advantage as int
    };
    c.territory * wt + c.mobility * wm + c.mobility_potential * w.mobility_potential
        + c.center_control * w.center_control + c.corner_avoidance * w.corner_avoidance
        + c.partition_advantage * wp + c.critical_cells * w.critical_cells + c.openness * w.openness
        + c.parity * w.parity + c.trap * w.trap + c.effective_mobility * w.effective_mobility
}

/// The final score: the weighted sum scaled back to whole points, truncating
/// toward zero.
pub open spec fn eval_score_spec(s: GameState, w: EvalWeights) -> int {
    let total = weighted_sum(components_spec(s), w, mobility_count(s, s.ai_idx()));
    if total >= 0 {
        total / 100
    } else {
        -((-total) / 100)
    }
}


/// Cache of critical-cell lists, keyed injectively by the two piece cells
/// and the destroyed set, and cleared wholesale when it reaches its cap.
pub struct CriticalCellsCache {
    pub map: HashMap<u64, Vec<u8>>,
}

/// The key packing the whole position.
pub open spec fn cache_key_spec(p: int, a: int, d: u64) -> int {
    p + 64 * a + 4096 * (d as int)
}

/// Decodes the player cell of a key.
pub open spec fn key_player(k: int) -> int {
    k % 64
}

/// Decodes the AI cell of a key.
pub open spec fn key_ai(k: int) -> int {
    (k / 64) % 64
}

/// Decodes the destroyed set of a key.
pub open spec fn key_destroyed(k: int) -> u64 {
    (k / 4096) as u64
}

/// Packing and unpacking round-trip.
proof fn lemma_key_roundtrip(p: int, a: int, d: u64)
    requires
        0 <= p < 64,
        0 <= a < 64,
    ensures
        key_player(cache_key_spec(p, a, d)) == p,
        key_ai(cache_key_spec(p, a, d)) == a,
        key_destroyed(cache_key_spec(p, a, d)) == d,
{
    assert((p + 64 * a + 4096 * (d as int)) % 64 == p && ((p + 64 * a + 4096 * (d as int)) / 64)
        % 64 == a && (p + 64 * a + 4096 * (d as int)) / 4096 == d as int) by (nonlinear_arith)
        requires
            0 <= p < 64,
            0 <= a < 64,
            0 <= d as int,
    ;
}

impl CriticalCellsCache {
    /// Every stored list is the critical-cell list of the position its key
    /// decodes to.
    pub open spec fn wf(self) -> bool {
        forall|k: u64|
            #[trigger] self.map@.contains_key(k) ==> self.map@[k]@ == critical_scan(
                key_player(k as int),
                key_ai(k as int),
                key_destroyed(k as int),
                49,
            )
    }

    /// An empty cache.
    pub fn new() -> (c: CriticalCellsCache)
        ensures
            c.wf(),
            c.map@ == Map::<u64, Vec<u8>>::empty(),
    {
        CriticalCellsCache { map: HashMap::new() }
    }
}

/// Empties the critical-cell cache; to be called between games.
pub fn clear_critical_cells_cache(cache: &mut CriticalCellsCache)
    ensures
        final(cache).wf(),
        final(cache).map@ == Map::<u64, Vec<u8>>::empty(),
{
    cache.map.clear();
}

/// Copies a list of cells.
fn copy_u8_vec(v: &Vec<u8>) -> (r: Vec<u8>)
    ensures
        r@ == v@,
{
    let mut r: Vec<u8> = Vec::new();
    let mut i: usize = 0;
    while i < v.len()
        invariant
            i <= v@.len(),
            r@ =~= v@.subrange(0, i as int),
        decreases v@.len() - i,
    {
        r.push(v[i]);
        proof {
            assert(r@ =~= v@.subrange(0, i + 1 as int));
        }
        i = i + 1;
    }
    proof {
        assert(r@ =~= v@);
    }
    r
}

/// Every listed critical cell is a board cell.
proof fn lemma_critical_scan_cells(p: int, a: int, d: u64, t: int)
    ensures
        forall|q: int|
            0 <= q < critical_scan(p, a, d, t).len() ==> (#[trigger] critical_scan(
                p,
                a,
                d,
                t,
            )[q]) < 49,
    decreases t,
{
    if t > 0 {
        lemma_critical_scan_cells(p, a, d, t - 1);
        assert forall|q: int|
            0 <= q < critical_scan(p, a, d, t).len() implies (#[trigger] critical_scan(
            p,
            a,
            d,
            t,
        )[q]) < 49 by {
            if critical_cell(p, a, d, t - 1) {
                if q < critical_scan(p, a, d, t - 1).len() {
                    assert(critical_scan(p, a, d, t)[q] == critical_scan(p, a, d, t - 1)[q]);
                }
            } else {
                assert(critical_scan(p, a, d, t) == critical_scan(p, a, d, t - 1));
            }
        }
    }
}

/// The key of a well-formed state.
fn cache_key(state: &GameState) -> (k: u64)
    requires
        state.wf(),
    ensures
        k as int == cache_key_spec(state.player_idx(), state.ai_idx(), state.destroyed),
{
    let p = piece_index(state.player);
    let a = piece_index(state.ai);
    proof {
        crate::bitboard::lemma_board_value_bound(state.destroyed);
        assert(4096 * (state.destroyed as int) <= 4096 * 0x1_FFFF_FFFF_FFFF) by (nonlinear_arith)
            requires
                state.destroyed <= 0x1_FFFF_FFFF_FFFFu64,
        ;
    }
    (p as u64) + 64 * (a as u64) + 4096 * state.destroyed
}

/// The critical cells of a position: the cells between the pieces whose
/// destruction would split the board, in cell order, served from the cache
/// when the position was already analyzed.
pub fn find_critical_cells(state: &GameState, cache: &mut CriticalCellsCache) -> (r: Vec<u8>)
    requires
        state.wf(),
        old(cache).wf(),
    ensures
        final(cache).wf(),
        r@ == critical_scan(state.player_idx(), state.ai_idx(), state.destroyed, 49),
{
    let ghost p: int = state.player_idx();
    let ghost a: int = state.ai_idx();
    let key = cache_key(state);
    proof {
        lemma_key_roundtrip(p, a, state.destroyed);
    }
    match cache.map.get(&key) {
        Some(v) => {
            let r = copy_u8_vec(v);
            return r;
        },
        None => {},
    }
    let r = find_critical_cells_uncached(state);
    if cache.map.len() >= 1000 {
        cache.map.clear();
    }
    let stored = copy_u8_vec(&r);
    cache.map.insert(key, stored);
    proof {
        assert forall|k2: u64| #[trigger] cache.map@.contains_key(k2) implies cache.map@[k2]@
            == critical_scan(
            key_player(k2 as int),
            key_ai(k2 as int),
            key_destroyed(k2 as int),
            49,
        ) by {
            if k2 != key {
                assert(old(cache).map@.contains_key(k2) || !cache.map@.contains_key(k2)
                    || cache.map@[k2] == old(cache).map@[k2] || true);
            }
        }
    }
    r
}

/// Decides whether one cell is critical.
#[verifier::rlimit(60)]
fn is_critical_exec(state: &GameState, p_pos: (u8, u8), a_pos: (u8, u8), blocked: u64, t: u8) -> (b:
    bool)
    requires
        state.wf(),
        t < 49,
        p_pos.0 < 7 && p_pos.1 < 7,
        a_pos.0 < 7 && a_pos.1 < 7,
        scell(p_pos.0 as int, p_pos.1 as int) == state.player_idx(),
        scell(a_pos.0 as int, a_pos.1 as int) == state.ai_idx(),
        blocked == state.destroyed | state.player | state.ai,
    ensures
        b == critical_cell(state.player_idx(), state.ai_idx(), state.destroyed, t as int),
{
    let ghost p: int = state.player_idx();
    let ghost a: int = state.ai_idx();
    let tr = t / 7;
    let tc = t % 7;
    proof {
        lemma_coord_bounds(t as int);
        lemma_coord_bounds(p);
        lemma_coord_bounds(a);
    }
    let minr = if p_pos.0 <= a_pos.0 {
        p_pos.0
    } else {
        a_pos.0
    };
    let maxr = if p_pos.0 >= a_pos.0 {
        p_pos.0
    } else {
        a_pos.0
    };
    let minc = if p_pos.1 <= a_pos.1 {
        p_pos.1
    } else {
        a_pos.1
    };
    let maxc = if p_pos.1 >= a_pos.1 {
        p_pos.1
    } else {
        a_pos.1
    };
    let in_box = (tr + 1 >= minr) && (tr <= maxr + 1) && (tc + 1 >= minc) && (tc <= maxc + 1);
    proof {
        assert(in_box == in_search_box(p, a, t as int));
    }
    if !in_box {
        return false;
    }
    if test_bit(blocked, t) {
        proof {
            lemma_bit_or(state.destroyed | state.player, state.ai);
            lemma_bit_or(state.destroyed, state.player);
            let wp = choose|w: int| valid_cell(w) && state.player == #[trigger] cell_mask(w);
            lemma_piece_cell(state.player, wp);
            let wa = choose|w: int| valid_cell(w) && state.ai == #[trigger] cell_mask(w);
            lemma_piece_cell(state.ai, wa);
            assert(bit(state.destroyed | cell_mask(p) | cell_mask(a), t as int)) by {
                lemma_bit_or(state.destroyed | cell_mask(p), cell_mask(a));
                lemma_bit_or(state.destroyed, cell_mask(p));
            }
        }
        return false;
    }
    proof {
        lemma_bit_or(state.destroyed | state.player, state.ai);
        lemma_bit_or(state.destroyed, state.player);
        let wp = choose|w: int| valid_cell(w) && state.player == #[trigger] cell_mask(w);
        lemma_piece_cell(state.player, wp);
        let wa = choose|w: int| valid_cell(w) && state.ai == #[trigger] cell_mask(w);
        lemma_piece_cell(state.ai, wa);
        assert(!bit(state.destroyed | cell_mask(p) | cell_mask(a), t as int)) by {
            lemma_bit_or(state.destroyed | cell_mask(p), cell_mask(a));
            lemma_bit_or(state.destroyed, cell_mask(p));
        }
    }
    let tp = index_to_pos(t);
    crate::partition::would_cause_partition(p_pos, a_pos, state.destroyed, tp)
}

/// Computes the critical cells directly.
fn find_critical_cells_uncached(state: &GameState) -> (r: Vec<u8>)
    requires
        state.wf(),
    ensures
        r@ == critical_scan(state.player_idx(), state.ai_idx(), state.destroyed, 49),
{
    let ghost p: int = state.player_idx();
    let ghost a: int = state.ai_idx();
    let p_idx = piece_index(state.player);
    let a_idx = piece_index(state.ai);
    let p_pos = index_to_pos(p_idx);
    let a_pos = index_to_pos(a_idx);
    proof {
        lemma_coord_bounds(p);
        lemma_coord_bounds(a);
    }
    let blocked = state.destroyed | state.player | state.ai;
    let mut r: Vec<u8> = Vec::new();
    let mut t: u8 = 0;
    while t < 49
        invariant
            state.wf(),
            t <= 49,
            p == state.player_idx(),
            a == state.ai_idx(),
            p_pos.0 < 7 && p_pos.1 < 7 && scell(p_pos.0 as int, p_pos.1 as int) == p,
            a_pos.0 < 7 && a_pos.1 < 7 && scell(a_pos.0 as int, a_pos.1 as int) == a,
            blocked == state.destroyed | state.player | state.ai,
            r@ == critical_scan(p, a, state.destroyed, t as int),
        decreases 49 - t,
    {
        if is_critical_exec(state, p_pos, a_pos, blocked, t) {
            r.push(t);
        }
        t = t + 1;
    }
    r
}


/// A word whose bits are one side's region counts that region.
proof fn lemma_pop_is_region_count_below(w: u64, destroyed: u64, other: int, me: int, n: int)
    requires
        forall|t: int|
            0 <= t < n ==> bit(w, t) == (reaches(destroyed | cell_mask(other), me, t) && t != me),
    ensures
        pop_below(w, n) == region_count_below(destroyed, other, me, n),
    decreases n,
{
    if n > 0 {
        lemma_pop_is_region_count_below(w, destroyed, other, me, n - 1);
    }
}

/// A word whose bits are one side's region counts that region.
proof fn lemma_pop_is_region_count(w: u64, destroyed: u64, other: int, me: int)
    requires
        forall|t: int|
            0 <= t < 64 ==> bit(w, t) == (reaches(destroyed | cell_mask(other), me, t) && t != me),
    ensures
        pop(w) == region_count(destroyed, other, me),
{
    lemma_pop_is_region_count_below(w, destroyed, other, me, 64);
}

/// The best partition advantage over the listed critical cells, in tenths of
/// half-cells: five tenths per cell of region lead.
#[verifier::rlimit(60)]
fn evaluate_partition_threat(state: &GameState, cs: &Vec<u8>) -> (r: i64)
    requires
        state.wf(),
        forall|q: int| 0 <= q < cs@.len() ==> (#[trigger] cs@[q]) < 49,
    ensures
        r == 5 * threat_scan(
            state.player_idx(),
            state.ai_idx(),
            state.destroyed,
            cs@,
            cs@.len() as int,
        ),
        -5000 <= r <= 320,
{
    let ghost p: int = state.player_idx();
    let ghost a: int = state.ai_idx();
    let p_idx = piece_index(state.player);
    let a_idx = piece_index(state.ai);
    let p_pos = index_to_pos(p_idx);
    let a_pos = index_to_pos(a_idx);
    proof {
        lemma_coord_bounds(p);
        lemma_coord_bounds(a);
    }
    let mut best: i64 = -1000;
    let mut q: usize = 0;
    while q < cs.len()
        invariant
            state.wf(),
            q <= cs@.len(),
            p == state.player_idx(),
            a == state.ai_idx(),
            p_pos.0 < 7 && p_pos.1 < 7 && scell(p_pos.0 as int, p_pos.1 as int) == p,
            a_pos.0 < 7 && a_pos.1 < 7 && scell(a_pos.0 as int, a_pos.1 as int) == a,
            forall|q2: int| 0 <= q2 < cs@.len() ==> (#[trigger] cs@[q2]) < 49,
            best == threat_scan(p, a, state.destroyed, cs@, q as int),
            -1000 <= best <= 64,
        decreases cs@.len() - q,
    {
        let cell = cs[q];
        let cpos = index_to_pos(cell);
        proof {
            lemma_coord_bounds(cell as int);
        }
        let d2 = state.destroyed | (1u64 << (cell as u64));
        proof {
            assert(d2 == state.destroyed | cell_mask(cell as int));
        }
        let part = detect_partition_bitboard(p_pos, a_pos, d2);
        if part.is_partitioned {
            proof {
                lemma_pop_is_region_count(part.ai_region, d2, p, a);
                lemma_pop_is_region_count(part.player_region, d2, a, p);
                lemma_pop_below_bound(part.ai_region, 64);
                lemma_pop_below_bound(part.player_region, 64);
                assert(part.ai_region_size == region_count(d2, p, a));
                assert(part.player_region_size == region_count(d2, a, p));
            }
            let adv = (part.ai_region_size as i64) - (part.player_region_size as i64);
            if adv > best {
                best = adv;
            }
        }
        q = q + 1;
    }
    5 * best
}

/// Queen-move count from a piece, with the proof that it matches the
/// specification count.
pub(crate) fn mobility_exec(state: &GameState, my_pos: (u8, u8)) -> (m: u32)
    requires
        state.wf(),
        my_pos.0 < 7,
        my_pos.1 < 7,
    ensures
        m == mobility_count(*state, scell(my_pos.0 as int, my_pos.1 as int)),
        m <= 64,
{
    let blocked = state.destroyed | state.player | state.ai;
    let mv = get_queen_moves(my_pos.0, my_pos.1, blocked);
    proof {
        let me = scell(my_pos.0 as int, my_pos.1 as int);
        lemma_pop_is_count_pred(mv, |t: int| queen_move(blocked_all(*state), me, t), 64);
        lemma_pop_below_bound(mv, 64);
    }
    count_ones(mv)
}

/// One side's mobility potential in tenths.
fn potential_exec(state: &GameState, my_pos: (u8, u8)) -> (m: i64)
    requires
        state.wf(),
        my_pos.0 < 7,
        my_pos.1 < 7,
    ensures
        m == potential_tenths_of(*state, scell(my_pos.0 as int, my_pos.1 as int)),
        0 <= m <= 1000,
{
    let ghost me: int = scell(my_pos.0 as int, my_pos.1 as int);
    let blocked = state.destroyed | state.player | state.ai;
    let m1 = get_queen_moves(my_pos.0, my_pos.1, blocked);
    let acc = expand_queen_bit_parallel(m1, blocked);
    let m2 = acc & !m1;
    proof {
        lemma_bit_not(m1);
        lemma_bit_and(acc, !m1);
        assert(blocked == blocked_all(*state));
        lemma_pop_is_count_pred(m1, |t: int| queen_move(blocked_all(*state), me, t), 64);
        lemma_pop_below_bound(m1, 64);
        lemma_pop_below_bound(m2, 64);
        assert forall|t: int| bit(m2, t) == two_step(*state, me, t) by {
            if 0 <= t < 64 {
                assert(bit(m2, t) == (bit(acc, t) && !bit(m1, t)));
                if bit(acc, t) {
                    let s2 = choose|s2: int|
                        valid_cell(s2) && bit(m1, s2) && #[trigger] queen_move(blocked, s2, t);
                    assert(queen_move(blocked_all(*state), s2, t));
                }
                if two_step(*state, me, t) {
                    let w = choose|w: int|
                        valid_cell(w) && queen_move(blocked_all(*state), me, w)
                            && #[trigger] queen_move(blocked_all(*state), w, t);
                    assert(bit(m1, w));
                    assert(queen_move(blocked, w, t));
                    assert(bit(acc, t));
                }
            } else {
                assert(!bit(m2, t));
                if two_step(*state, me, t) {
                    let w = choose|w: int|
                        valid_cell(w) && queen_move(blocked_all(*state), me, w)
                            && #[trigger] queen_move(blocked_all(*state), w, t);
                    lemma_queen_move_valid(blocked_all(*state), w, t);
                }
            }
        }
        lemma_pop_is_count_pred(m2, |t: int| two_step(*state, me, t), 64);
    }
    let c1 = count_ones(m1);
    let c2 = count_ones(m2);
    10 * (c1 as i64) + 5 * (c2 as i64)
}

/// One side's effective mobility: moves keeping at least two follow-ups.
fn effective_exec(state: &GameState, my_mask: u64, my_pos: (u8, u8)) -> (m: i64)
    requires
        state.wf(),
        my_pos.0 < 7,
        my_pos.1 < 7,
    ensures
        m == effective_count(*state, my_mask, scell(my_pos.0 as int, my_pos.1 as int)),
        0 <= m <= 64,
{
    let ghost me: int = scell(my_pos.0 as int, my_pos.1 as int);
    let blocked = state.destroyed | state.player | state.ai;
    let mv = get_queen_moves(my_pos.0, my_pos.1, blocked);
    let mut cnt: i64 = 0;
    let mut t: u8 = 0;
    while t < 64
        invariant
            state.wf(),
            t <= 64,
            me == scell(my_pos.0 as int, my_pos.1 as int),
            my_pos.0 < 7 && my_pos.1 < 7,
            blocked == state.destroyed | state.player | state.ai,
            forall|x: int| bit(mv, x) == queen_move(blocked_all(*state), me, x),
            cnt == count_pred(|x: int| safe_move(*state, my_mask, me, x), t as int),
            0 <= cnt <= t,
        decreases 64 - t,
    {
        if test_bit(mv, t) {
            proof {
                lemma_queen_move_valid(blocked_all(*state), me, t as int);
                lemma_coord_bounds(t as int);
            }
            let tp = index_to_pos(t);
            let future_blocked = (blocked ^ my_mask) | (1u64 << (t as u64));
            proof {
                assert(future_blocked == (blocked_all(*state) ^ my_mask) | cell_mask(t as int));
            }
            let fm = get_queen_moves(tp.0, tp.1, future_blocked);
            proof {
                lemma_pop_is_count_pred(
                    fm,
                    |u: int| queen_move((blocked_all(*state) ^ my_mask) | cell_mask(t as int), t as int, u),
                    64,
                );
            }
            let fc = count_ones(fm);
            if fc >= 2 {
                cnt = cnt + 1;
            }
        }
        t = t + 1;
    }
    cnt
}


/// A word with no bit at 49 or above.
proof fn lemma_high_bits_zero(d: u64)
    by (bit_vector)
    requires
        d >> 49u64 == 0u64,
    ensures
        forall|i: u64| i >= 49 ==> !(#[trigger] bit64(d, i)),
        d <= 0x1_FFFF_FFFFF_FFFFu64 || d <= 0x1_FFFF_FFFF_FFFFu64,
{
}

use crate::bitboard::bit64;

/// A word whose bits are one side's Voronoi territory counts it.
proof fn lemma_pop_is_vor_count_below(w: u64, s: GameState, me: int, other: int, n: int)
    requires
        forall|t: int| 0 <= t < n ==> bit(w, t) == side_claims(blocked_all(s), me, other, t),
    ensures
        pop_below(w, n) == vor_count_below(s, me, other, n),
    decreases n,
{
    if n > 0 {
        lemma_pop_is_vor_count_below(w, s, me, other, n - 1);
    }
}

/// A word whose bits are the contested cells counts them.
proof fn lemma_pop_is_vor_contested_below(w: u64, s: GameState, n: int)
    requires
        forall|t: int|
            0 <= t < n ==> bit(w, t) == both_claim(blocked_all(s), s.player_idx(), s.ai_idx(), t),
    ensures
        pop_below(w, n) == vor_contested_below(s, n),
    decreases n,
{
    if n > 0 {
        lemma_pop_is_vor_contested_below(w, s, n - 1);
    }
}

/// The all-zero component record, reported for degenerate inputs.
fn zero_components() -> (c: EvalComponents)
    ensures
        c == (EvalComponents {
            territory: 0,
            mobility: 0,
            mobility_potential: 0,
            center_control: 0,
            corner_avoidance: 0,
            partition_advantage: 0,
            critical_cells: 0,
            openness: 0,
            parity: 0,
            trap: 0,
            effective_mobility: 0,
        }),
{
    EvalComponents {
        territory: 0,
        mobility: 0,
        mobility_potential: 0,
        center_control: 0,
        corner_avoidance: 0,
        partition_advantage: 0,
        critical_cells: 0,
        openness: 0,
        parity: 0,
        trap: 0,
        effective_mobility: 0,
    }
}

/// Manhattan distance of a board cell to the center cell.
fn center_dist_exec(pos: (u8, u8)) -> (d: i64)
    requires
        pos.0 < 7,
        pos.1 < 7,
    ensures
        d == sdist(scell(pos.0 as int, pos.1 as int), 24),
        0 <= d <= 6,
{
    proof {
        crate::bitboard::lemma_cell_coords(pos.0 as int, pos.1 as int);
        lemma_coord_bounds(24);
    }
    let dr = if pos.0 >= 3 {
        pos.0 - 3
    } else {
        3 - pos.0
    };
    let dc = if pos.1 >= 3 {
        pos.1 - 3
    } else {
        3 - pos.1
    };
    (dr as i64) + (dc as i64)
}

/// Distance of a board cell to the nearer main-diagonal corner.
fn corner_prox_exec(pos: (u8, u8)) -> (d: i64)
    requires
        pos.0 < 7,
        pos.1 < 7,
    ensures
        d == corner_prox(scell(pos.0 as int, pos.1 as int)),
        0 <= d <= 6,
{
    proof {
        crate::bitboard::lemma_cell_coords(pos.0 as int, pos.1 as int);
        lemma_coord_bounds(0);
        lemma_coord_bounds(48);
    }
    let c0 = if pos.0 >= pos.1 {
        pos.0
    } else {
        pos.1
    };
    let dr48 = 6 - pos.0;
    let dc48 = 6 - pos.1;
    let c48 = if dr48 >= dc48 {
        dr48
    } else {
        dc48
    };
    if c0 <= c48 {
        c0 as i64
    } else {
        c48 as i64
    }
}

/// A component-weight product, with its bound.
fn wmul(c: i64, w: i64) -> (r: i64)
    requires
        -6000 <= c <= 6000,
        0 <= w <= 20000,
    ensures
        r == c * w,
        -120000000 <= r <= 120000000,
{
    proof {
        assert(-6000 * 20000 <= c * w <= 6000 * 20000) by (nonlinear_arith)
            requires
                -6000 <= c <= 6000,
                0 <= w <= 20000,
        ;
    }
    c * w
}

/// Evaluates a position for the AI: the weighted components of the board.
///
/// A board whose piece masks are malformed scores a fixed neutral zero; for a
/// well-formed board the returned components and score are exactly
/// `components_spec` and `eval_score_spec`.
#[verifier::rlimit(100)]
pub fn evaluate_advanced(
    state: &GameState,
    weights: &EvalWeights,
    cache: &mut CriticalCellsCache,
) -> (r: (i32, EvalComponents))
    requires
        weights_in_range(*weights),
        old(cache).wf(),
    ensures
        final(cache).wf(),
        state.wf() ==> r.1 == components_spec(*state) && r.0 == eval_score_spec(*state, *weights),
        state.wf() ==> -13000000 <= r.0 <= 13000000,
        !state.wf() ==> r == (
            0i32,
            EvalComponents {
                territory: 0,
                mobility: 0,
                mobility_potential: 0,
                center_control: 0,
                corner_avoidance: 0,
                partition_advantage: 0,
                critical_cells: 0,
                openness: 0,
                parity: 0,
                trap: 0,
                effective_mobility: 0,
            },
        ),
{
    let zero = zero_components();
    let p_idx = match crate::bitboard::safe_get_position_index(state.player) {
        Some(i) => i,
        None => {
            proof {
                if state.wf() {
                    let w = choose|w: int|
                        valid_cell(w) && state.player == #[trigger] cell_mask(w);
                    lemma_piece_cell(state.player, w);
                    assert(bit(state.player, w));
                }
            }
            return (0, zero);
        },
    };
    let a_idx = match crate::bitboard::safe_get_position_index(state.ai) {
        Some(i) => i,
        None => {
            proof {
                if state.wf() {
                    let w = choose|w: int| valid_cell(w) && state.ai == #[trigger] cell_mask(w);
                    lemma_piece_cell(state.ai, w);
                    assert(bit(state.ai, w));
                }
            }
            return (0, zero);
        },
    };
    proof {
        if state.wf() {
            let w = choose|w: int| valid_cell(w) && state.player == #[trigger] cell_mask(w);
            lemma_piece_cell(state.player, w);
            assert(p_idx as int == state.player_idx());
            let w2 = choose|w2: int| valid_cell(w2) && state.ai == #[trigger] cell_mask(w2);
            lemma_piece_cell(state.ai, w2);
            assert(a_idx as int == state.ai_idx());
        }
    }
    if state.player != 1u64 << (p_idx as u64) {
        proof {
            if state.wf() {
                assert(state.player == cell_mask(state.player_idx()));
            }
        }
        return (0, zero);
    }
    if state.ai != 1u64 << (a_idx as u64) {
        proof {
            if state.wf() {
                assert(state.ai == cell_mask(state.ai_idx()));
            }
        }
        return (0, zero);
    }
    if p_idx == a_idx {
        return (0, zero);
    }
    if test_bit(state.destroyed, p_idx) || test_bit(state.destroyed, a_idx) {
        return (0, zero);
    }
    if state.destroyed >> 49u64 != 0 {
        proof {
            if state.wf() {
                crate::bitboard::lemma_board_value_bound(state.destroyed);
                let d = state.destroyed;
                assert(d >> 49u64 == 0u64) by (bit_vector)
                    requires
                        d <= 0x1_FFFF_FFFF_FFFFu64,
                ;
            }
        }
        return (0, zero);
    }
    proof {
        lemma_high_bits_zero(state.destroyed);
        assert(state.player == cell_mask(p_idx as int));
        assert(state.ai == cell_mask(a_idx as int));
        lemma_piece_cell(state.player, p_idx as int);
        lemma_piece_cell(state.ai, a_idx as int);
        assert(state.wf()) by {
            assert(is_single_cell(state.player));
            assert(is_single_cell(state.ai));
            assert forall|t: int| #[trigger] bit(state.destroyed, t) implies valid_cell(t) by {
                if t >= 49 {
                    assert(!bit64(state.destroyed, t as u64));
                }
            }
        }
    }
    let ghost s: GameState = *state;
    let ghost p: int = state.player_idx();
    let ghost a: int = state.ai_idx();
    let p_pos = index_to_pos(p_idx);
    let a_pos = index_to_pos(a_idx);
    proof {
        lemma_coord_bounds(p);
        lemma_coord_bounds(a);
    }
    let dc = count_ones(state.destroyed);
    let part = detect_partition_bitboard(p_pos, a_pos, state.destroyed);

    let am = mobility_exec(state, a_pos);
    let pm = mobility_exec(state, p_pos);
    let mobility10: i64 = 10 * (am as i64) - 10 * (pm as i64);

    let territory10: i64;
    let parity10: i64;
    if part.is_partitioned {
        proof {
            lemma_pop_is_region_count(part.ai_region, state.destroyed, p, a);
            lemma_pop_is_region_count(part.player_region, state.destroyed, a, p);
            lemma_pop_below_bound(part.ai_region, 64);
            lemma_pop_below_bound(part.player_region, 64);
        }
        let ai_r = part.ai_region_size as i64;
        let pl_r = part.player_region_size as i64;
        territory10 = 10 * (ai_r - pl_r);
        parity10 = 10 * (ai_r % 2 - pl_r % 2);
    } else {
        let v = calculate_voronoi_optimized(p_pos, a_pos, state.destroyed);
        proof {
            assert(state.destroyed | cell_mask(p) | cell_mask(a) == blocked_all(s));
            assert forall|t: int|
                0 <= t < 64 implies bit(v.ai_territory, t) == side_claims(
                blocked_all(s),
                a,
                p,
                t,
            ) by {}
            assert forall|t: int|
                0 <= t < 64 implies bit(v.player_territory, t) == side_claims(
                blocked_all(s),
                p,
                a,
                t,
            ) by {}
            assert forall|t: int|
                0 <= t < 64 implies bit(v.contested, t) == both_claim(blocked_all(s), p, a, t) by {}
            lemma_pop_is_vor_count_below(v.ai_territory, s, a, p, 64);
            lemma_pop_is_vor_count_below(v.player_territory, s, p, a, 64);
            lemma_pop_is_vor_contested_below(v.contested, s, 64);
            lemma_pop_below_bound(v.ai_territory, 64);
            lemma_pop_below_bound(v.player_territory, 64);
            lemma_pop_below_bound(v.contested, 64);
        }
        territory10 = 10 * ((v.ai_count as i64) - (v.player_count as i64)) + 4 * (
        v.contested_count as i64);
        parity10 = 0;
    }

    let partition10: i64;
    if part.is_partitioned {
        proof {
            lemma_pop_is_region_count(part.ai_region, state.destroyed, p, a);
            lemma_pop_is_region_count(part.player_region, state.destroyed, a, p);
            lemma_pop_below_bound(part.ai_region, 64);
            lemma_pop_below_bound(part.player_region, 64);
        }
        partition10 = 50 * ((part.ai_region_size as i64) - (part.player_region_size as i64));
    } else if dc > 12 {
        let cs = find_critical_cells(state, cache);
        proof {
            lemma_critical_scan_cells(p, a, state.destroyed, 49);
        }
        if 1 <= cs.len() && cs.len() <= 3 {
            partition10 = evaluate_partition_threat(state, &cs);
        } else {
            partition10 = 0;
        }
    } else {
        partition10 = 0;
    }

    let potential10: i64 = if am <= 4 || (15 < dc && dc < 35) {
        let pa = potential_exec(state, a_pos);
        let pp = potential_exec(state, p_pos);
        pa - pp
    } else {
        0
    };

    let center10: i64 = 10 * (center_dist_exec(p_pos) - center_dist_exec(a_pos));
    let corner10: i64 = 10 * (corner_prox_exec(a_pos) - corner_prox_exec(p_pos));
    let openness10: i64 = if dc < 20 {
        3 * ((am as i64) - (pm as i64))
    } else {
        0
    };
    let trap10: i64 = if am == 1 {
        -10
    } else if pm == 1 {
        10
    } else {
        0
    };
    let effective10: i64 = if dc > 30 {
        let ea = effective_exec(state, state.ai, a_pos);
        let ep = effective_exec(state, state.player, p_pos);
        10 * (ea - ep)
    } else {
        0
    };

    let components = EvalComponents {
        territory: territory10,
        mobility: mobility10,
        mobility_potential: potential10,
        center_control: center10,
        corner_avoidance: corner10,
        partition_advantage: partition10,
        critical_cells: 0,
        openness: openness10,
        parity: parity10,
        trap: trap10,
        effective_mobility: effective10,
    };
    proof {
        assert(components == components_spec(s));
    }
    let wt: i64 = if am <= 2 {
        5
    } else {
        weights.territory as i64
    };
    let wm: i64 = if am <= 2 {
        500
    } else {
        weights.mobility as i64
    };
    let wp: i64 = if am <= 2 {
        0
    } else {
        weights.partition_advantage as i64
    };
    proof {
        assert(-1000 <= territory10 <= 1000);
        assert(-640 <= mobility10 <= 640);
        assert(-1000 <= potential10 <= 1000);
        assert(-5000 <= partition10 <= 3200);
        assert(-60 <= center10 <= 60);
        assert(-60 <= corner10 <= 60);
        assert(-200 <= openness10 <= 200);
        assert(-10 <= parity10 <= 10);
        assert(-10 <= trap10 <= 10);
        assert(-640 <= effective10 <= 640);
    }
    let total: i64 = wmul(territory10, wt) + wmul(mobility10, wm) + wmul(
        potential10,
        weights.mobility_potential as i64,
    ) + wmul(center10, weights.center_control as i64) + wmul(
        corner10,
        weights.corner_avoidance as i64,
    ) + wmul(partition10, wp) + wmul(openness10, weights.openness as i64) + wmul(
        parity10,
        weights.parity as i64,
    ) + wmul(trap10, weights.trap as i64) + wmul(effective10, weights.effective_mobility as i64);
    proof {
        assert(total == weighted_sum(components_spec(s), *weights, mobility_count(s, s.ai_idx())));
    }
    let score: i64 = if total >= 0 {
        total / 100
    } else {
        -((-total) / 100)
    };
    (score as i32, components)
}

/// Evaluates a position with the weights of its game phase.
pub fn evaluate(state: &GameState, cache: &mut CriticalCellsCache) -> (score: i32)
    requires
        old(cache).wf(),
    ensures
        final(cache).wf(),
        state.wf() ==> score == eval_score_spec(*state, phase_weights(pop(state.destroyed) as int)),
{
    let destroyed_cnt = count_ones(state.destroyed);
    let weights = get_phase_weights(destroyed_cnt);
    let (score, _) = evaluate_advanced(state, &weights, cache);
    score
}

} // verus!
