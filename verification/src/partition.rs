//! Partition detection for the 7 x 7 queen-move game.
//!
//! The board is partitioned when the two pieces can no longer reach each
//! other by queen moves over non-destroyed cells.  When it is, each side owns
//! the set of empty cells its piece can still reach, and the game reduces to
//! two independent longest-path problems.

use vstd::prelude::*;
use crate::bitboard::{
    bit, scell, srow, scol, valid_cell, is_dir, ray_cell, ray_on_board, ray_clear, dir_move,
    queen_move, reach_n, reaches, pop, pop_below, pos_to_index, index_to_pos, test_bit, count_ones,
    flood_fill, lemma_bit_single, lemma_bit_not, lemma_bit_and, lemma_bit_zero,
    lemma_pop_below_zero, lemma_pop_below_bound, lemma_cell_coords, lemma_reach_valid,
    lemma_coord_bounds,
};

verus! {

/// The single-cell mask of cell `i`.
pub open spec fn cell_mask(i: int) -> u64 {
    1u64 << (i as u64)
}

/// The two pieces can reach each other: the opponent's cell is the end of
/// some chain of queen moves over cells not destroyed.
pub open spec fn pieces_connected(destroyed: u64, p: int, a: int) -> bool {
    reaches(destroyed, p, a)
}

#[derive(Clone, Copy, Debug)]
pub struct PartitionResult {
    pub is_partitioned: bool,
    pub player_region_size: i32,
    pub ai_region_size: i32,
    pub player_region: u64,
    pub ai_region: u64,
}

/// All cells reachable by queen moves from `start_pos`, the start included.
pub fn queen_flood_fill(start_pos: (u8, u8), blocked: u64) -> (r: u64)
    requires
        start_pos.0 < 7,
        start_pos.1 < 7,
    ensures
        forall|t: int|
            bit(r, t) == reaches(blocked, scell(start_pos.0 as int, start_pos.1 as int), t),
{
    let ghost s: int = scell(start_pos.0 as int, start_pos.1 as int);
    let idx = pos_to_index(start_pos.0, start_pos.1);
    let start_mask = 1u64 << (idx as u64);
    proof {
        lemma_bit_single(idx as u64);
    }
    let r = flood_fill(start_mask, blocked);
    proof {
        assert forall|t: int| bit(r, t) == reaches(blocked, s, t) by {
            if bit(r, t) {
                if bit(start_mask, t) {
                    assert(reach_n(blocked, s, t, 0));
                    assert(reaches(blocked, s, t));
                } else {
                    let s2 = choose|s2: int|
                        valid_cell(s2) && bit(start_mask, s2) && #[trigger] reaches(
                            blocked,
                            s2,
                            t,
                        );
                    assert(s2 == s);
                }
            }
            if reaches(blocked, s, t) {
                assert(valid_cell(s) && bit(start_mask, s));
                assert(bit(r, t));
            }
        }
    }
    r
}

/// Detects whether the board is partitioned, and if so the two regions.
///
/// The result is partitioned exactly when the player cannot reach the AI cell
/// by queen moves over non-destroyed cells.  In a partitioned board each
/// side's region holds the cells its piece can reach with the opposing piece
/// treated as blocked, the piece's own cell not counted, and the region sizes
/// count those cells.
pub fn detect_partition_bitboard(player_pos: (u8, u8), ai_pos: (u8, u8), destroyed: u64) -> (res:
    PartitionResult)
    requires
        player_pos.0 < 7,
        player_pos.1 < 7,
        ai_pos.0 < 7,
        ai_pos.1 < 7,
    ensures
        ({
            let p = scell(player_pos.0 as int, player_pos.1 as int);
            let a = scell(ai_pos.0 as int, ai_pos.1 as int);
            &&& res.is_partitioned == !pieces_connected(destroyed, p, a)
            &&& !res.is_partitioned ==> res.player_region_size == 0 && res.ai_region_size == 0
                && res.player_region == 0 && res.ai_region == 0
            &&& res.is_partitioned ==> forall|t: int|
                bit(res.player_region, t) == (reaches(destroyed | cell_mask(a), p, t) && t != p)
            &&& res.is_partitioned ==> forall|t: int|
                bit(res.ai_region, t) == (reaches(destroyed | cell_mask(p), a, t) && t != a)
            &&& res.player_region_size == pop(res.player_region)
            &&& res.ai_region_size == pop(res.ai_region)
        }),
{
    let player_idx = pos_to_index(player_pos.0, player_pos.1);
    let ai_idx = pos_to_index(ai_pos.0, ai_pos.1);
    let player_mask = 1u64 << (player_idx as u64);
    let ai_mask = 1u64 << (ai_idx as u64);

    let player_can_reach = queen_flood_fill(player_pos, destroyed);
    let is_partitioned = !test_bit(player_can_reach, ai_idx);

    if !is_partitioned {
        proof {
            lemma_pop_below_zero(64);
        }
        return PartitionResult {
            is_partitioned: false,
            player_region_size: 0,
            ai_region_size: 0,
            player_region: 0,
            ai_region: 0,
        };
    }
    let player_fill = queen_flood_fill(player_pos, destroyed | ai_mask);
    let ai_fill = queen_flood_fill(ai_pos, destroyed | player_mask);
    let player_region = player_fill & !player_mask;
    let ai_region = ai_fill & !ai_mask;
    proof {
        let p = scell(player_pos.0 as int, player_pos.1 as int);
        let a = scell(ai_pos.0 as int, ai_pos.1 as int);
        lemma_bit_single(player_idx as u64);
        lemma_bit_single(ai_idx as u64);
        lemma_bit_not(player_mask);
        lemma_bit_not(ai_mask);
        lemma_bit_and(player_fill, !player_mask);
        lemma_bit_and(ai_fill, !ai_mask);
        lemma_pop_below_bound(player_region, 64);
        lemma_pop_below_bound(ai_region, 64);
        assert(cell_mask(a) == ai_mask);
        assert(cell_mask(p) == player_mask);
        assert forall|t: int|
            bit(player_region, t) == (reaches(destroyed | ai_mask, p, t) && t != p) by {
            if 0 <= t < 64 {
                assert(bit(player_region, t) == (bit(player_fill, t) && t != p));
            } else {
                assert(!bit(player_region, t));
                if reaches(destroyed | ai_mask, p, t) {
                    let n = choose|n: nat| #[trigger] reach_n(destroyed | ai_mask, p, t, n);
                    lemma_reach_valid(destroyed | ai_mask, p, t, n);
                }
            }
        }
        assert forall|t: int|
            bit(ai_region, t) == (reaches(destroyed | player_mask, a, t) && t != a) by {
            if 0 <= t < 64 {
                assert(bit(ai_region, t) == (bit(ai_fill, t) && t != a));
            } else {
                assert(!bit(ai_region, t));
                if reaches(destroyed | player_mask, a, t) {
                    let n = choose|n: nat| #[trigger] reach_n(destroyed | player_mask, a, t, n);
                    lemma_reach_valid(destroyed | player_mask, a, t, n);
                }
            }
        }
    }
    let player_region_size = count_ones(player_region) as i32;
    let ai_region_size = count_ones(ai_region) as i32;
    PartitionResult { is_partitioned: true, player_region_size, ai_region_size, player_region, ai_region }
}

/// Whether destroying one further cell would partition the board.
pub fn would_cause_partition(
    player_pos: (u8, u8),
    ai_pos: (u8, u8),
    destroyed: u64,
    destroy_pos: (u8, u8),
) -> (r: bool)
    requires
        player_pos.0 < 7,
        player_pos.1 < 7,
        ai_pos.0 < 7,
        ai_pos.1 < 7,
        destroy_pos.0 < 7,
        destroy_pos.1 < 7,
    ensures
        r == !pieces_connected(
            destroyed | cell_mask(scell(destroy_pos.0 as int, destroy_pos.1 as int)),
            scell(player_pos.0 as int, player_pos.1 as int),
            scell(ai_pos.0 as int, ai_pos.1 as int),
        ),
{
    let destroy_idx = pos_to_index(destroy_pos.0, destroy_pos.1);
    let destroy_mask = 1u64 << (destroy_idx as u64);
    let new_destroyed = destroyed | destroy_mask;
    let result = detect_partition_bitboard(player_pos, ai_pos, new_destroyed);
    result.is_partitioned
}

/// `t` is an empty cell whose destruction would disconnect the two pieces.
pub open spec fn cut_cell(p: int, a: int, destroyed: u64, t: int) -> bool {
    valid_cell(t) && t != p && t != a && !bit(destroyed, t) && !pieces_connected(
        destroyed | cell_mask(t),
        p,
        a,
    )
}

/// `t` is an empty cell: on the board, not destroyed, not under a piece.
pub open spec fn empty_cell(p: int, a: int, destroyed: u64, t: int) -> bool {
    valid_cell(t) && t != p && t != a && !bit(destroyed, t)
}

/// Number of cut cells among the cells below `n`.
pub open spec fn count_cut_cells(p: int, a: int, destroyed: u64, n: int) -> nat
    decreases n,
{
    if n <= 0 {
        0
    } else {
        count_cut_cells(p, a, destroyed, n - 1) + (if cut_cell(p, a, destroyed, n - 1) {
            1nat
        } else {
            0nat
        })
    }
}

/// Number of empty cells among the cells below `n`.
pub open spec fn count_empty_cells(p: int, a: int, destroyed: u64, n: int) -> nat
    decreases n,
{
    if n <= 0 {
        0
    } else {
        count_empty_cells(p, a, destroyed, n - 1) + (if empty_cell(p, a, destroyed, n - 1) {
            1nat
        } else {
            0nat
        })
    }
}

proof fn lemma_count_cells_bound(p: int, a: int, destroyed: u64, n: int)
    ensures
        count_cut_cells(p, a, destroyed, n) <= count_empty_cells(p, a, destroyed, n),
        count_empty_cells(p, a, destroyed, n) <= if n <= 0 {
            0int
        } else {
            n
        },
    decreases n,
{
    if n > 0 {
        lemma_count_cells_bound(p, a, destroyed, n - 1);
    }
}

/// How close the board is to being partitioned, in thousandths: the share of
/// empty cells whose destruction would split the board, or `1000` when no
/// empty cell is left.
pub fn evaluate_partition_potential(player_pos: (u8, u8), ai_pos: (u8, u8), destroyed: u64) -> (r:
    u32)
    requires
        player_pos.0 < 7,
        player_pos.1 < 7,
        ai_pos.0 < 7,
        ai_pos.1 < 7,
    ensures
        ({
            let p = scell(player_pos.0 as int, player_pos.1 as int);
            let a = scell(ai_pos.0 as int, ai_pos.1 as int);
            let cnt = count_cut_cells(p, a, destroyed, 49);
            let total = count_empty_cells(p, a, destroyed, 49);
            r == if total == 0 {
                1000int
            } else {
                1000 * (cnt as int) / (total as int)
            }
        }),
{
    let ghost p: int = scell(player_pos.0 as int, player_pos.1 as int);
    let ghost a: int = scell(ai_pos.0 as int, ai_pos.1 as int);
    let player_idx = pos_to_index(player_pos.0, player_pos.1);
    let ai_idx = pos_to_index(ai_pos.0, ai_pos.1);

    let mut cnt: u32 = 0;
    let mut total: u32 = 0;
    let mut i: u8 = 0;
    while i < 49
        invariant
            i <= 49,
            player_pos.0 < 7 && player_pos.1 < 7 && ai_pos.0 < 7 && ai_pos.1 < 7,
            p == scell(player_pos.0 as int, player_pos.1 as int),
            a == scell(ai_pos.0 as int, ai_pos.1 as int),
            player_idx as int == p,
            ai_idx as int == a,
            cnt == count_cut_cells(p, a, destroyed, i as int),
            total == count_empty_cells(p, a, destroyed, i as int),
            cnt <= total <= i,
        decreases 49 - i,
    {
        if i != player_idx && i != ai_idx && !test_bit(destroyed, i) {
            total = total + 1;
            let pos = index_to_pos(i);
            if would_cause_partition(player_pos, ai_pos, destroyed, pos) {
                cnt = cnt + 1;
            }
        }
        i = i + 1;
    }
    if total == 0 {
        return 1000;
    }
    (1000 * cnt) / total
}

/// On a board with no destroyed cell, any two distinct cells are joined by at
/// most two queen moves, so the partition detector never reports a split.
pub proof fn lemma_empty_board_connected(p: int, a: int)
    requires
        valid_cell(p),
        valid_cell(a),
        p != a,
    ensures
        pieces_connected(0u64, p, a),
{
    let rp = srow(p);
    let cp = scol(p);
    let ra = srow(a);
    let ca = scol(a);
    lemma_coord_bounds(p);
    lemma_coord_bounds(a);
    if rp == ra || cp == ca || rp - cp == ra - ca || rp + cp == ra + ca {
        lemma_queen_move_empty(p, a);
        assert(reach_n(0u64, p, p, 0));
        assert(reach_n(0u64, p, a, 1));
        assert(reaches(0u64, p, a));
    } else {
        let m = scell(rp, ca);
        lemma_cell_coords(rp, ca);
        lemma_queen_move_empty(p, m);
        lemma_queen_move_empty(m, a);
        assert(reach_n(0u64, p, p, 0));
        assert(reach_n(0u64, p, m, 1));
        assert(reach_n(0u64, p, a, 2));
        assert(reaches(0u64, p, a));
    }
}

/// On the empty board, aligned distinct cells are one queen move apart.
proof fn lemma_queen_move_empty(s: int, t: int)
    requires
        valid_cell(s),
        valid_cell(t),
        s != t,
        srow(s) == srow(t) || scol(s) == scol(t) || srow(s) - scol(s) == srow(t) - scol(t) || srow(
            s,
        ) + scol(s) == srow(t) + scol(t),
    ensures
        queen_move(0u64, s, t),
{
    lemma_coord_bounds(s);
    lemma_coord_bounds(t);
    let rs = srow(s);
    let cs = scol(s);
    let rt = srow(t);
    let ct = scol(t);
    let dr: int = if rt > rs {
        1
    } else if rt < rs {
        -1
    } else {
        0
    };
    let dc: int = if ct > cs {
        1
    } else if ct < cs {
        -1
    } else {
        0
    };
    let k: int = if rt != rs {
        if rt > rs {
            rt - rs
        } else {
            rs - rt
        }
    } else {
        if ct > cs {
            ct - cs
        } else {
            cs - ct
        }
    };
    assert(k >= 1);
    assert(is_dir(dr, dc));
    assert(rs + k * dr == rt && cs + k * dc == ct) by (nonlinear_arith)
        requires
            dr == (if rt > rs { 1int } else if rt < rs { -1int } else { 0int }),
            dc == (if ct > cs { 1int } else if ct < cs { -1int } else { 0int }),
            k == (if rt != rs { if rt > rs { rt - rs } else { rs - rt } } else { if ct > cs { ct - cs } else { cs - ct } }),
            rs == rt || cs == ct || rs - cs == rt - ct || rs + cs == rt + ct,
            !(rs == rt && cs == ct),
    ;
    assert(ray_cell(s, dr, dc, k) == t);
    lemma_ray_clear_empty(s, dr, dc, k);
    assert(dir_move(0u64, s, dr, dc, t));
}

/// On the empty board, a ray between two board points is clear.
proof fn lemma_ray_clear_empty(s: int, dr: int, dc: int, k: int)
    requires
        valid_cell(s),
        is_dir(dr, dc),
        1 <= k,
        ray_on_board(s, dr, dc, k),
    ensures
        ray_clear(0u64, s, dr, dc, k),
    decreases k,
{
    lemma_bit_zero();
    if k == 1 {
        assert(ray_clear(0u64, s, dr, dc, 0));
    }
    if k > 1 {
        lemma_unit_mul(k, dr);
        lemma_unit_mul(k, dc);
        lemma_unit_mul(k - 1, dr);
        lemma_unit_mul(k - 1, dc);
        lemma_coord_bounds(s);
        assert(ray_on_board(s, dr, dc, k - 1));
        lemma_ray_clear_empty(s, dr, dc, k - 1);
    }
}

/// Multiplication by a unit step, spelled out.
proof fn lemma_unit_mul(k: int, d: int)
    ensures
        d == 1 ==> k * d == k,
        d == -1 ==> k * d == -k,
        d == 0 ==> k * d == 0,
{
    assert((d == 1 ==> k * d == k) && (d == -1 ==> k * d == -k) && (d == 0 ==> k * d == 0))
        by (nonlinear_arith)
    ;
}

} // verus!
