//! Voronoi territory analysis for the 7 x 7 queen-move game.
//!
//! Two frontiers expand simultaneously, one queen-move round at a time, from
//! the two pieces.  A cell belongs to the side whose frontier arrives strictly
//! first, and is contested when both arrive in the same round.  The contracts
//! state this in terms of `reach_n`: reachability within a given number of
//! moves.

use vstd::prelude::*;
use crate::bitboard::{
    bit, scell, valid_cell, queen_move, reach_n, reaches, pop, pop_below, pos_to_index,
    expand_queen_bit_parallel, count_ones, lemma_bit_single, lemma_bit_not, lemma_bit_and,
    lemma_bit_or, lemma_bit_zero, lemma_pop_below_zero, lemma_pop_below_bound,
    lemma_pop_below_or_disjoint, lemma_pop_nonzero, lemma_reach_mono, lemma_reach_fixpoint,
    lemma_reach_valid,
};
use crate::partition::cell_mask;

verus! {

/// `t` is an ordinary cell that side `s` reaches strictly before side `o`:
/// within some number of moves that does not suffice for `o`.
pub open spec fn side_claims(blocked: u64, s: int, o: int, t: int) -> bool {
    t != s && t != o && exists|n: nat| #[trigger] reach_n(blocked, s, t, n) && !reach_n(blocked, o, t, n)
}

/// `t` is an ordinary cell that both sides reach in exactly the same number
/// of moves.
pub open spec fn both_claim(blocked: u64, s: int, o: int, t: int) -> bool {
    t != s && t != o && reaches(blocked, s, t) && reaches(blocked, o, t) && forall|n: nat|
        #[trigger] reach_n(blocked, s, t, n) == reach_n(blocked, o, t, n)
}

#[derive(Clone, Copy, Debug)]
pub struct VoronoiResult {
    pub player_territory: u64,
    pub ai_territory: u64,
    pub contested: u64,
    pub player_count: i32,
    pub ai_count: i32,
    pub contested_count: i32,
}

/// Expands a frontier one queen-move round, keeping only unvisited cells.
pub fn expand_frontier_optimized(frontier: u64, blocked: u64, visited: u64) -> (r: u64)
    ensures
        forall|t: int|
            bit(r, t) == (!bit(visited, t) && exists|s2: int|
                valid_cell(s2) && bit(frontier, s2) && #[trigger] queen_move(blocked, s2, t)),
{
    let acc = expand_queen_bit_parallel(frontier, blocked);
    let r = acc & !visited;
    proof {
        lemma_bit_not(visited);
        lemma_bit_and(acc, !visited);
        assert forall|t: int|
            bit(r, t) == (!bit(visited, t) && exists|s2: int|
                valid_cell(s2) && bit(frontier, s2) && #[trigger] queen_move(blocked, s2, t)) by {
            if 0 <= t < 64 {
                assert(bit(r, t) == (bit(acc, t) && !bit(visited, t)));
            }
            if !(0 <= t < 64) {
                assert(!bit(r, t));
                if exists|s2: int|
                    valid_cell(s2) && bit(frontier, s2) && #[trigger] queen_move(blocked, s2, t) {
                    let s2 = choose|s2: int|
                        valid_cell(s2) && bit(frontier, s2) && #[trigger] queen_move(
                            blocked,
                            s2,
                            t,
                        );
                    crate::bitboard::lemma_queen_move_valid(blocked, s2, t);
                }
            }
        }
    }
    r
}

/// Computes the two territories and the contested cells.
///
/// Both pieces and the destroyed cells block movement.  A cell is in a side's
/// territory exactly when that side reaches it strictly first, and contested
/// exactly when both sides reach it in the same (finite) number of rounds;
/// the counts count the cells of each set.
pub fn calculate_voronoi_optimized(player_pos: (u8, u8), ai_pos: (u8, u8), destroyed: u64) -> (res:
    VoronoiResult)
    requires
        player_pos.0 < 7,
        player_pos.1 < 7,
        ai_pos.0 < 7,
        ai_pos.1 < 7,
        scell(player_pos.0 as int, player_pos.1 as int) != scell(ai_pos.0 as int, ai_pos.1 as int),
    ensures
        ({
            let p = scell(player_pos.0 as int, player_pos.1 as int);
            let a = scell(ai_pos.0 as int, ai_pos.1 as int);
            let bl = destroyed | cell_mask(p) | cell_mask(a);
            &&& forall|t: int| bit(res.player_territory, t) == side_claims(bl, p, a, t)
            &&& forall|t: int| bit(res.ai_territory, t) == side_claims(bl, a, p, t)
            &&& forall|t: int| bit(res.contested, t) == both_claim(bl, p, a, t)
            &&& res.player_count == pop(res.player_territory)
            &&& res.ai_count == pop(res.ai_territory)
            &&& res.contested_count == pop(res.contested)
        }),
{
    let ghost p: int = scell(player_pos.0 as int, player_pos.1 as int);
    let ghost a: int = scell(ai_pos.0 as int, ai_pos.1 as int);
    let player_idx = pos_to_index(player_pos.0, player_pos.1);
    let ai_idx = pos_to_index(ai_pos.0, ai_pos.1);
    let player_mask = 1u64 << (player_idx as u64);
    let ai_mask = 1u64 << (ai_idx as u64);
    let blocked = destroyed | player_mask | ai_mask;

    let mut player_frontier = player_mask;
    let mut ai_frontier = ai_mask;
    let mut player_visited = player_mask;
    let mut ai_visited = ai_mask;
    let mut player_territory: u64 = 0;
    let mut ai_territory: u64 = 0;
    let mut contested: u64 = 0;
    let ghost mut n: nat = 0;

    proof {
        lemma_bit_single(player_idx as u64);
        lemma_bit_single(ai_idx as u64);
        lemma_bit_zero();
        lemma_pop_below_bound(player_visited, 64);
        lemma_pop_below_bound(ai_visited, 64);
        assert(blocked == destroyed | cell_mask(p) | cell_mask(a));
        assert(player_frontier != 0) by {
            if player_frontier == 0 {
                assert(!bit(player_frontier, p));
            }
        }
        assert forall|t: int| bit(player_visited, t) == reach_n(blocked, p, t, 0) by {}
        assert forall|t: int| bit(ai_visited, t) == reach_n(blocked, a, t, 0) by {}
    }
    while player_frontier != 0 || ai_frontier != 0
        invariant
            valid_cell(p),
            valid_cell(a),
            p != a,
            n == 0 ==> player_frontier != 0,
            pop(player_visited) <= 64,
            pop(ai_visited) <= 64,
            forall|t: int| bit(player_visited, t) == reach_n(blocked, p, t, n),
            forall|t: int| bit(ai_visited, t) == reach_n(blocked, a, t, n),
            forall|t: int|
                bit(player_frontier, t) == (reach_n(blocked, p, t, n) && (n == 0 || !reach_n(
                    blocked,
                    p,
                    t,
                    (n - 1) as nat,
                ))),
            forall|t: int|
                bit(ai_frontier, t) == (reach_n(blocked, a, t, n) && (n == 0 || !reach_n(
                    blocked,
                    a,
                    t,
                    (n - 1) as nat,
                ))),
            forall|t: int|
                bit(player_territory, t) == (side_claims(blocked, p, a, t) && reach_n(blocked, p, t, n)),
            forall|t: int|
                bit(ai_territory, t) == (side_claims(blocked, a, p, t) && reach_n(blocked, a, t, n)),
            forall|t: int| bit(contested, t) == (both_claim(blocked, p, a, t) && reach_n(blocked, p, t, n)),
        decreases
                2 * (64 - pop(player_visited)) + 2 * (64 - pop(ai_visited)) + (if player_frontier
                != 0 {
                1int
            } else {
                0int
            }) + (if ai_frontier != 0 {
                1int
            } else {
                0int
            }),
    {
        let new_player_frontier = if player_frontier != 0 {
            expand_frontier_optimized(player_frontier, blocked, player_visited)
        } else {
            0
        };
        let new_ai_frontier = if ai_frontier != 0 {
            expand_frontier_optimized(ai_frontier, blocked, ai_visited)
        } else {
            0
        };
        proof {
            lemma_bit_zero();
            lemma_new_frontier(blocked, p, new_player_frontier, player_frontier, player_visited, n);
            lemma_new_frontier(blocked, a, new_ai_frontier, ai_frontier, ai_visited, n);
        }
        let player_only = new_player_frontier & !ai_visited & !new_ai_frontier;
        let ai_only = new_ai_frontier & !player_visited & !new_player_frontier;
        let contested_new = new_player_frontier & new_ai_frontier;

        let ghost pt_old = player_territory;
        let ghost at_old = ai_territory;
        let ghost ct_old = contested;
        let ghost pv_old = player_visited;
        let ghost av_old = ai_visited;

        proof {
            lemma_bit_not(ai_visited);
            lemma_bit_not(player_visited);
            lemma_bit_not(new_ai_frontier);
            lemma_bit_not(new_player_frontier);
            lemma_bit_and(new_player_frontier, !ai_visited);
            lemma_bit_and(new_player_frontier & !ai_visited, !new_ai_frontier);
            lemma_bit_and(new_ai_frontier, !player_visited);
            lemma_bit_and(new_ai_frontier & !player_visited, !new_player_frontier);
            lemma_bit_and(new_player_frontier, new_ai_frontier);
            lemma_bit_or(player_territory, player_only);
            lemma_bit_or(ai_territory, ai_only);
            lemma_bit_or(contested, contested_new);
            lemma_bit_or(player_visited, new_player_frontier);
            lemma_bit_or(ai_visited, new_ai_frontier);
            lemma_voronoi_progress(player_visited, player_frontier, new_player_frontier);
            lemma_voronoi_progress(ai_visited, ai_frontier, new_ai_frontier);
        }
        player_territory = player_territory | player_only;
        ai_territory = ai_territory | ai_only;
        contested = contested | contested_new;
        player_visited = player_visited | new_player_frontier;
        ai_visited = ai_visited | new_ai_frontier;
        player_frontier = new_player_frontier;
        ai_frontier = new_ai_frontier;
        proof {
            let n1 = n + 1;
            assert forall|t: int|
                bit(player_territory, t) == (side_claims(blocked, p, a, t) && reach_n(blocked, p, t, n1)) by {
                assert(bit(player_only, t) == (bit(new_player_frontier, t) && !bit(av_old, t) && !bit(
                    new_ai_frontier,
                    t,
                )));
                lemma_claim_update(
                    blocked,
                    p,
                    a,
                    t,
                    n,
                    pt_old,
                    player_only,
                    new_player_frontier,
                    new_ai_frontier,
                    av_old,
                );
            }
            assert forall|t: int|
                bit(ai_territory, t) == (side_claims(blocked, a, p, t) && reach_n(blocked, a, t, n1)) by {
                assert(bit(ai_only, t) == (bit(new_ai_frontier, t) && !bit(pv_old, t) && !bit(
                    new_player_frontier,
                    t,
                )));
                lemma_claim_update(
                    blocked,
                    a,
                    p,
                    t,
                    n,
                    at_old,
                    ai_only,
                    new_ai_frontier,
                    new_player_frontier,
                    pv_old,
                );
            }
            assert forall|t: int|
                bit(contested, t) == (both_claim(blocked, p, a, t) && reach_n(blocked, p, t, n1)) by {
                assert(bit(contested_new, t) == (bit(new_player_frontier, t) && bit(new_ai_frontier, t)));
                lemma_contested_update(
                    blocked,
                    p,
                    a,
                    t,
                    n,
                    ct_old,
                    contested_new,
                    new_player_frontier,
                    new_ai_frontier,
                );
            }
            assert forall|t: int| bit(player_visited, t) == reach_n(blocked, p, t, n1) by {
                if bit(pv_old, t) {
                    lemma_reach_mono(blocked, p, t, n, n1);
                }
                if reach_n(blocked, p, t, n1) && !bit(pv_old, t) {
                    assert(bit(new_player_frontier, t));
                }
            }
            assert forall|t: int| bit(ai_visited, t) == reach_n(blocked, a, t, n1) by {
                if bit(av_old, t) {
                    lemma_reach_mono(blocked, a, t, n, n1);
                }
                if reach_n(blocked, a, t, n1) && !bit(av_old, t) {
                    assert(bit(new_ai_frontier, t));
                }
            }
            n = n + 1;
        }
    }
    proof {
        lemma_bit_zero();
        assert(n >= 1);
        assert forall|t: int| #[trigger] reach_n(blocked, p, t, n) implies reach_n(
            blocked,
            p,
            t,
            (n - 1) as nat,
        ) by {
            assert(!bit(player_frontier, t));
        }
        assert forall|t: int| #[trigger] reach_n(blocked, a, t, n) implies reach_n(
            blocked,
            a,
            t,
            (n - 1) as nat,
        ) by {
            assert(!bit(ai_frontier, t));
        }
        assert forall|t: int| bit(player_territory, t) == side_claims(blocked, p, a, t) by {
            if side_claims(blocked, p, a, t) {
                let m = choose|m: nat| #[trigger] reach_n(blocked, p, t, m) && !reach_n(blocked, a, t, m);
                lemma_reach_fixpoint(blocked, p, n, m);
                lemma_reach_mono(blocked, p, t, (n - 1) as nat, n);
            }
        }
        assert forall|t: int| bit(ai_territory, t) == side_claims(blocked, a, p, t) by {
            if side_claims(blocked, a, p, t) {
                let m = choose|m: nat| #[trigger] reach_n(blocked, a, t, m) && !reach_n(blocked, p, t, m);
                lemma_reach_fixpoint(blocked, a, n, m);
                lemma_reach_mono(blocked, a, t, (n - 1) as nat, n);
            }
        }
        assert forall|t: int| bit(contested, t) == both_claim(blocked, p, a, t) by {
            if both_claim(blocked, p, a, t) {
                let m = choose|m: nat| #[trigger] reach_n(blocked, p, t, m);
                lemma_reach_fixpoint(blocked, p, n, m);
                lemma_reach_mono(blocked, p, t, (n - 1) as nat, n);
            }
        }
        lemma_pop_below_bound(player_territory, 64);
        lemma_pop_below_bound(ai_territory, 64);
        lemma_pop_below_bound(contested, 64);
    }
    let player_count = count_ones(player_territory) as i32;
    let ai_count = count_ones(ai_territory) as i32;
    let contested_count = count_ones(contested) as i32;
    VoronoiResult {
        player_territory,
        ai_territory,
        contested,
        player_count,
        ai_count,
        contested_count,
    }
}

/// Characterizes one expanded frontier: the cells first reached in round
/// `n + 1`.
proof fn lemma_new_frontier(bl: u64, s: int, nf: u64, frontier: u64, visited: u64, n: nat)
    requires
        valid_cell(s),
        forall|t: int| bit(visited, t) == reach_n(bl, s, t, n),
        forall|t: int|
            bit(frontier, t) == (reach_n(bl, s, t, n) && (n == 0 || !reach_n(
                bl,
                s,
                t,
                (n - 1) as nat,
            ))),
        (frontier != 0 && forall|t: int|
            bit(nf, t) == (!bit(visited, t) && exists|s2: int|
                valid_cell(s2) && bit(frontier, s2) && #[trigger] queen_move(bl, s2, t))) || (
        frontier == 0 && nf == 0),
    ensures
        forall|t: int| bit(nf, t) == (reach_n(bl, s, t, n + 1) && !reach_n(bl, s, t, n)),
{
    if frontier == 0 {
        crate::bitboard::lemma_bit_zero();
        assert forall|t: int|
            bit(nf, t) == (reach_n(bl, s, t, n + 1) && !reach_n(bl, s, t, n)) by {
            assert(!bit(nf, t));
            if reach_n(bl, s, t, n + 1) && !reach_n(bl, s, t, n) {
                let x = choose|x: int|
                    reach_n(bl, s, x, n) && #[trigger] queen_move(bl, x, t);
                if n == 0 {
                    assert(bit(frontier, x));
                } else {
                    if reach_n(bl, s, x, (n - 1) as nat) {
                        assert(reach_n(bl, s, t, n));
                    }
                    assert(bit(frontier, x));
                }
            }
        }
    } else {
        assert forall|t: int|
            bit(nf, t) == (reach_n(bl, s, t, n + 1) && !reach_n(bl, s, t, n)) by {
            if bit(nf, t) {
                let s2 = choose|s2: int|
                    valid_cell(s2) && bit(frontier, s2) && #[trigger] queen_move(bl, s2, t);
                assert(reach_n(bl, s, s2, n));
                assert(reach_n(bl, s, t, n + 1));
            }
            if reach_n(bl, s, t, n + 1) && !reach_n(bl, s, t, n) {
                let x = choose|x: int|
                    reach_n(bl, s, x, n) && #[trigger] queen_move(bl, x, t);
                if n != 0 && reach_n(bl, s, x, (n - 1) as nat) {
                    assert(reach_n(bl, s, t, n));
                }
                assert(bit(frontier, x));
                lemma_reach_valid(bl, s, x, n);
                assert(bit(nf, t));
            }
        }
    }
}

/// One side's territory update keeps its characterization.
proof fn lemma_claim_update(
    bl: u64,
    s: int,
    o: int,
    t: int,
    n: nat,
    old_t: u64,
    only: u64,
    nf_s: u64,
    nf_o: u64,
    v_o: u64,
)
    requires
        valid_cell(s),
        valid_cell(o),
        forall|x: int| bit(nf_s, x) == (reach_n(bl, s, x, n + 1) && !reach_n(bl, s, x, n)),
        forall|x: int| bit(nf_o, x) == (reach_n(bl, o, x, n + 1) && !reach_n(bl, o, x, n)),
        forall|x: int| bit(v_o, x) == reach_n(bl, o, x, n),
        bit(only, t) == (bit(nf_s, t) && !bit(v_o, t) && !bit(nf_o, t)),
        bit(old_t, t) == (side_claims(bl, s, o, t) && reach_n(bl, s, t, n)),
        bit(old_t | only, t) == (bit(old_t, t) || bit(only, t)),
    ensures
        bit(old_t | only, t) == (side_claims(bl, s, o, t) && reach_n(bl, s, t, n + 1)),
{
    if bit(old_t, t) {
        lemma_reach_mono(bl, s, t, n, n + 1);
    }
    if bit(only, t) {
        assert(reach_n(bl, s, t, n + 1) && !reach_n(bl, s, t, n));
        assert(!reach_n(bl, o, t, n) && !(reach_n(bl, o, t, n + 1) && !reach_n(bl, o, t, n)));
        assert(reach_n(bl, s, s, 0));
        lemma_reach_mono(bl, s, s, 0, n);
        assert(t != s);
        assert(reach_n(bl, o, o, 0));
        lemma_reach_mono(bl, o, o, 0, n + 1);
        assert(t != o);
        assert(reach_n(bl, s, t, n + 1) && !reach_n(bl, o, t, n + 1));
        assert(side_claims(bl, s, o, t));
    }
    if side_claims(bl, s, o, t) && reach_n(bl, s, t, n + 1) && !bit(old_t, t) {
        if !(0 <= t < 64) {
            let m0 = choose|m0: nat| #[trigger] reach_n(bl, s, t, m0);
            lemma_reach_valid(bl, s, t, n + 1);
            assert(false);
        }
        assert(!reach_n(bl, s, t, n));
        let m = choose|m: nat| #[trigger] reach_n(bl, s, t, m) && !reach_n(bl, o, t, m);
        if m <= n {
            lemma_reach_mono(bl, s, t, m, n);
            assert(false);
        }
        if reach_n(bl, o, t, n + 1) {
            lemma_reach_mono(bl, o, t, n + 1, m);
            assert(false);
        }
        if reach_n(bl, o, t, n) {
            lemma_reach_mono(bl, o, t, n, n + 1);
        }
        assert(bit(nf_s, t) && !bit(v_o, t) && !bit(nf_o, t));
        assert(bit(only, t));
    }
}

/// The contested-set update keeps its characterization.
proof fn lemma_contested_update(
    bl: u64,
    p: int,
    a: int,
    t: int,
    n: nat,
    old_c: u64,
    cnew: u64,
    nf_p: u64,
    nf_a: u64,
)
    requires
        valid_cell(p),
        valid_cell(a),
        forall|x: int| bit(nf_p, x) == (reach_n(bl, p, x, n + 1) && !reach_n(bl, p, x, n)),
        forall|x: int| bit(nf_a, x) == (reach_n(bl, a, x, n + 1) && !reach_n(bl, a, x, n)),
        bit(cnew, t) == (bit(nf_p, t) && bit(nf_a, t)),
        bit(old_c, t) == (both_claim(bl, p, a, t) && reach_n(bl, p, t, n)),
        bit(old_c | cnew, t) == (bit(old_c, t) || bit(cnew, t)),
    ensures
        bit(old_c | cnew, t) == (both_claim(bl, p, a, t) && reach_n(bl, p, t, n + 1)),
{
    if bit(old_c, t) {
        lemma_reach_mono(bl, p, t, n, n + 1);
    }
    if bit(cnew, t) {
        assert(reach_n(bl, p, p, 0));
        lemma_reach_mono(bl, p, p, 0, n);
        assert(t != p);
        assert(reach_n(bl, a, a, 0));
        lemma_reach_mono(bl, a, a, 0, n);
        assert(t != a);
        assert(reaches(bl, p, t));
        assert(reaches(bl, a, t));
        assert forall|m: nat| #[trigger] reach_n(bl, p, t, m) == reach_n(bl, a, t, m) by {
            if m <= n {
                if reach_n(bl, p, t, m) {
                    lemma_reach_mono(bl, p, t, m, n);
                }
                if reach_n(bl, a, t, m) {
                    lemma_reach_mono(bl, a, t, m, n);
                }
            } else {
                if reach_n(bl, p, t, m) || reach_n(bl, a, t, m) {
                }
                lemma_reach_mono(bl, p, t, n + 1, m);
                lemma_reach_mono(bl, a, t, n + 1, m);
            }
        }
        assert(both_claim(bl, p, a, t));
    }
    if both_claim(bl, p, a, t) && reach_n(bl, p, t, n + 1) && !bit(old_c, t) {
        if !(0 <= t < 64) {
            lemma_reach_valid(bl, p, t, n + 1);
            assert(false);
        }
        assert(!reach_n(bl, p, t, n));
        assert(reach_n(bl, a, t, n + 1) == reach_n(bl, p, t, n + 1));
        assert(reach_n(bl, a, t, n) == reach_n(bl, p, t, n));
        assert(bit(nf_p, t) && bit(nf_a, t));
        assert(bit(cnew, t));
    }
}

/// Progress facts for the dual expansion.
proof fn lemma_voronoi_progress(visited: u64, frontier: u64, nf: u64)
    requires
        forall|t: int| bit(nf, t) ==> !bit(visited, t),
    ensures
        pop(visited | nf) == pop(visited) + pop(nf),
        pop(visited | nf) <= 64,
        frontier != 0 ==> pop(frontier) >= 1,
        nf != 0 ==> pop(nf) >= 1,
        nf == 0 ==> pop(nf) == 0 && (visited | nf) == visited,
{
    assert(visited & nf == 0) by {
        lemma_bit_and(visited, nf);
        if visited & nf != 0 {
            lemma_pop_nonzero(visited & nf);
            lemma_pop_positive_has_bit(visited & nf, 64);
            let i = choose|i: int| 0 <= i < 64 && #[trigger] bit(visited & nf, i);
            assert(bit(nf, i) && bit(visited, i));
        }
    }
    lemma_pop_below_or_disjoint(visited, nf, 64);
    lemma_pop_below_bound(visited | nf, 64);
    if frontier != 0 {
        lemma_pop_nonzero(frontier);
    }
    if nf != 0 {
        lemma_pop_nonzero(nf);
    } else {
        lemma_pop_below_zero(64);
        assert((visited | 0u64) == visited) by (bit_vector);
    }
}

/// A positive count yields a set bit.
proof fn lemma_pop_positive_has_bit(bb: u64, n: int)
    requires
        pop_below(bb, n) >= 1,
    ensures
        exists|i: int| 0 <= i < n && #[trigger] bit(bb, i),
    decreases n,
{
    if n > 0 {
        if bit(bb, n - 1) {
        } else {
            lemma_pop_positive_has_bit(bb, n - 1);
        }
    }
}

} // verus!
