//! Exact endgame solver for the 7 x 7 queen-move game.
//!
//! Once the board is partitioned, the mover only races against its own
//! region: the best play realizes the longest simple queen-move path through
//! the region.  `lp_scan` is the mathematical longest path; the solver
//! explores it by depth-first search under a wall-clock budget and reports
//! whether it finished exactly or was cut short.

use vstd::prelude::*;
use std::time::Instant;
use crate::bitboard::{
    bit, scell, srow, scol, valid_cell, queen_move, pop, pop_below, test_bit, get_queen_moves,
    index_to_pos, lemma_bit_or, lemma_bit_and, lemma_bit_not, lemma_bit_single, lemma_bit_zero,
    lemma_pop_below_bound, lemma_pop_below_remove, lemma_coord_bounds, lemma_ray_clear_at,
    ray_cell, ray_clear, is_dir, dir_move,
};
use crate::board::{GameState, Move, piece_cell, lemma_piece_cell};
use crate::partition::cell_mask;
use crate::clock::{now_instant, millis_since};

verus! {

/// Cells that block a path step: everything blocked, everything outside the
/// region, and everything already visited.
pub open spec fn ep_blocked(reachable: u64, blocked: u64, visited: u64) -> u64 {
    (blocked | !reachable) | visited
}

/// One legal path step from `s` to `t`.
pub open spec fn path_step(reachable: u64, blocked: u64, visited: u64, s: int, t: int) -> bool {
    queen_move(ep_blocked(reachable, blocked, visited), s, t) && bit(reachable, t)
}

/// Longest simple path from `s` through unvisited region cells, scanning
/// target cells below `t`: the number of further moves the mover can make.
pub open spec fn lp_scan(reachable: u64, blocked: u64, visited: u64, s: int, t: int) -> nat
    decreases pop(reachable & !visited), t, 0nat,
        via lp_scan_dec
{
    if t <= 0 {
        0
    } else {
        let rest = lp_scan(reachable, blocked, visited, s, t - 1);
        if path_step(reachable, blocked, visited, s, t - 1) && !bit(visited, t - 1) {
            let via_len = 1 + lp_scan(
                reachable,
                blocked,
                visited | cell_mask(t - 1),
                t - 1,
                49,
            );
            if via_len > rest {
                via_len
            } else {
                rest
            }
        } else {
            rest
        }
    }
}

/// Longest simple path from `s` onward.
pub open spec fn longest_path(reachable: u64, blocked: u64, visited: u64, s: int) -> nat {
    lp_scan(reachable, blocked, visited, s, 49)
}

/// A step lands on an unvisited region cell, and marking it shrinks the
/// unvisited region.
proof fn lemma_step_shrinks(reachable: u64, blocked: u64, visited: u64, s: int, j: int)
    requires
        path_step(reachable, blocked, visited, s, j),
        0 <= j < 64,
    ensures
        !bit(visited, j),
        bit(reachable & !visited, j),
        pop(reachable & !(visited | cell_mask(j))) + 1 == pop(reachable & !visited),
{
    let bl = ep_blocked(reachable, blocked, visited);
    let (dr, dc) = choose|dr: int, dc: int| #[trigger] is_dir(dr, dc) && dir_move(bl, s, dr, dc, j);
    let k = choose|k: int| 1 <= k && #[trigger] ray_cell(s, dr, dc, k) == j && ray_clear(bl, s, dr, dc, k);
    lemma_ray_clear_at(bl, s, dr, dc, k, k);
    lemma_bit_or(blocked | !reachable, visited);
    lemma_bit_or(blocked, !reachable);
    lemma_bit_not(reachable);
    lemma_bit_not(visited);
    lemma_bit_and(reachable, !visited);
    lemma_bit_single(j as u64);
    lemma_bit_or(visited, cell_mask(j));
    lemma_bit_not(visited | cell_mask(j));
    lemma_bit_and(reachable, !(visited | cell_mask(j)));
    lemma_pop_below_remove(reachable & !visited, reachable & !(visited | cell_mask(j)), j, 64);
}

#[via_fn]
proof fn lp_scan_dec(reachable: u64, blocked: u64, visited: u64, s: int, t: int) {
    if t > 0 {
        if path_step(reachable, blocked, visited, s, t - 1) && !bit(visited, t - 1) {
            lemma_step_shrinks(reachable, blocked, visited, s, t - 1);
        }
    }
}

/// The longest path never exceeds the number of unvisited region cells.
pub proof fn lemma_lp_bound(reachable: u64, blocked: u64, visited: u64, s: int, t: int)
    ensures
        lp_scan(reachable, blocked, visited, s, t) <= pop(reachable & !visited),
    decreases pop(reachable & !visited), t, 1nat,
{
    if t > 0 {
        lemma_lp_bound(reachable, blocked, visited, s, t - 1);
        if path_step(reachable, blocked, visited, s, t - 1) && !bit(visited, t - 1) {
            lemma_step_shrinks(reachable, blocked, visited, s, t - 1);
            lemma_lp_bound(reachable, blocked, visited | cell_mask(t - 1), t - 1, 49);
        }
    }
}

/// Scanning more target cells can only lengthen the path found.
proof fn lemma_lp_scan_mono(reachable: u64, blocked: u64, visited: u64, s: int, t1: int, t2: int)
    requires
        t1 <= t2,
    ensures
        lp_scan(reachable, blocked, visited, s, t1) <= lp_scan(reachable, blocked, visited, s, t2),
    decreases t2,
{
    if t1 < t2 && t2 > 0 {
        lemma_lp_scan_mono(reachable, blocked, visited, s, t1, t2 - 1);
    }
}

/// Result of one longest-path exploration.
pub struct PathResult {
    pub length: i32,
    pub timed_out: bool,
}

/// Depth-first search for the longest path, against a deadline.
fn lp_rec(
    reachable: u64,
    blocked: u64,
    visited: u64,
    pos: (u8, u8),
    start: &Instant,
    limit_ms: u64,
) -> (r: (i32, bool))
    requires
        pos.0 < 7,
        pos.1 < 7,
    ensures
        0 <= r.0 <= pop(reachable & !visited),
        r.0 <= longest_path(reachable, blocked, visited, scell(pos.0 as int, pos.1 as int)),
        !r.1 ==> r.0 == longest_path(reachable, blocked, visited, scell(pos.0 as int, pos.1 as int)),
    decreases pop(reachable & !visited),
{
    let ghost s: int = scell(pos.0 as int, pos.1 as int);
    let bl = (blocked | !reachable) | visited;
    let mv_mask = get_queen_moves(pos.0, pos.1, bl);
    let step_mask = mv_mask & reachable;
    proof {
        lemma_bit_and(mv_mask, reachable);
        lemma_pop_below_bound(reachable & !visited, 64);
        assert forall|x: int|
            bit(step_mask, x) == path_step(reachable, blocked, visited, s, x) by {
            if 0 <= x < 64 {
                assert(bit(step_mask, x) == (bit(mv_mask, x) && bit(reachable, x)));
            } else {
                assert(!bit(step_mask, x));
                assert(!bit(reachable, x));
            }
        }
    }
    let mut best: i32 = 0;
    let mut timed_out = false;
    let mut t: u8 = 0;
    loop
        invariant
            pos.0 < 7,
            pos.1 < 7,
            s == scell(pos.0 as int, pos.1 as int),
            t <= 49,
            bl == ep_blocked(reachable, blocked, visited),
            forall|x: int| bit(step_mask, x) == path_step(reachable, blocked, visited, s, x),
            0 <= best <= pop(reachable & !visited),
            pop(reachable & !visited) <= 64,
            best <= lp_scan(reachable, blocked, visited, s, t as int),
            !timed_out ==> best == lp_scan(reachable, blocked, visited, s, t as int),
        ensures
            0 <= best <= pop(reachable & !visited),
            best <= longest_path(reachable, blocked, visited, s),
            !timed_out ==> best == longest_path(reachable, blocked, visited, s),
        decreases 50 - t,
    {
        if !(t < 49) {
            proof {
                assert(t == 49);
            }
            break;
        }
        if test_bit(step_mask, t) {
            proof {
                lemma_step_shrinks(reachable, blocked, visited, s, t as int);
            }
            if millis_since(start) > limit_ms {
                timed_out = true;
                proof {
                    lemma_lp_scan_mono(reachable, blocked, visited, s, t as int, 49);
                }
                break;
            }
            let to = index_to_pos(t);
            let sub = lp_rec(
                reachable,
                blocked,
                visited | (1u64 << (t as u64)),
                to,
                start,
                limit_ms,
            );
            proof {
                assert(cell_mask(t as int) == 1u64 << (t as u64));
                lemma_coord_bounds(t as int);
                lemma_pop_below_bound(reachable & !(visited | (1u64 << (t as u64))), 64);
            }
            let cand = 1 + sub.0;
            if sub.1 {
                timed_out = true;
            }
            if cand > best {
                best = cand;
            }
        }
        t = t + 1;
    }
    (best, timed_out)
}

/// Longest simple path from `start_pos` through the region, against a
/// wall-clock budget.
///
/// The reported length never exceeds the true longest path, and equals it
/// whenever the search was not cut short by the deadline.
pub fn longest_path_from_position(
    start_pos: (u8, u8),
    reachable: u64,
    blocked: u64,
    initial_visited: u64,
    time_limit_ms: u32,
) -> (r: PathResult)
    requires
        start_pos.0 < 7,
        start_pos.1 < 7,
    ensures
        0 <= r.length <= 64,
        r.length <= longest_path(
            reachable,
            blocked,
            initial_visited,
            scell(start_pos.0 as int, start_pos.1 as int),
        ),
        !r.timed_out ==> r.length == longest_path(
            reachable,
            blocked,
            initial_visited,
            scell(start_pos.0 as int, start_pos.1 as int),
        ),
{
    let start = now_instant();
    proof {
        lemma_pop_below_bound(reachable & !initial_visited, 64);
    }
    let (length, timed_out) = lp_rec(
        reachable,
        blocked,
        initial_visited,
        start_pos,
        &start,
        time_limit_ms as u64,
    );
    PathResult { length, timed_out }
}

/// Confidence of an endgame answer.
#[derive(Debug, PartialEq, Eq, Structural)]
pub enum EndgameConfidence {
    Exact,
    Heuristic,
}

/// Result of solving one partitioned endgame.
pub struct EndgameResult {
    pub best_move: Option<Move>,
    pub longest_path: i32,
    pub solved: bool,
    pub confidence: EndgameConfidence,
}

/// A slide of the mover into the region: legal over the destroyed cells and
/// the opposing piece, landing on a region cell.
pub open spec fn eg_move_ok(state: GameState, region: u64, is_ai: bool, t: int) -> bool {
    queen_move(
        state.destroyed | (if is_ai {
            state.player
        } else {
            state.ai
        }),
        if is_ai {
            state.ai_idx()
        } else {
            state.player_idx()
        },
        t,
    ) && bit(region, t)
}

/// Best achievable path value over region moves below `t`: one for the move
/// itself plus the longest path onward, or `-1` when no region move exists.
pub open spec fn eg_scan(state: GameState, region: u64, is_ai: bool, t: int) -> int
    decreases t,
{
    if t <= 0 {
        -1
    } else {
        let rest = eg_scan(state, region, is_ai, t - 1);
        if eg_move_ok(state, region, is_ai, t - 1) {
            let mover = if is_ai {
                state.ai
            } else {
                state.player
            };
            let v: int = 1 + (lp_scan(
                region,
                state.destroyed,
                mover | cell_mask(t - 1),
                t - 1,
                49,
            ) as int);
            if v > rest {
                v
            } else {
                rest
            }
        } else {
            rest
        }
    }
}

/// Quick estimate of the longest path achievable in a region.
pub fn estimate_longest_path(cell_count: i32) -> (r: i32)
    requires
        0 <= cell_count <= 64,
    ensures
        r == cell_count * 3 / 4,
{
    cell_count * 3 / 4
}

/// Whether a region is small enough to solve exactly.
pub fn should_solve_exactly(cell_count: i32) -> (r: bool)
    ensures
        r == (cell_count <= 18),
{
    cell_count <= 18
}

/// Manhattan distance in the specification.
pub open spec fn sdist(a: int, b: int) -> int {
    (if srow(a) >= srow(b) {
        srow(a) - srow(b)
    } else {
        srow(b) - srow(a)
    }) + (if scol(a) >= scol(b) {
        scol(a) - scol(b)
    } else {
        scol(b) - scol(a)
    })
}

/// Worth of destroying cell `t` in a solved endgame: prefer cells outside the
/// mover's region, far from the mover's new cell, and close to the opponent.
pub open spec fn eg_destroy_score(region: u64, new_cell: int, other_cell: int, t: int) -> int {
    (if !bit(region, t) {
        200int
    } else {
        0int
    }) + sdist(t, new_cell) * 5 + (10 - sdist(t, other_cell)) * 3
}

/// `t` is destroyable after the mover lands on `new_cell`: a board cell that
/// is not destroyed, under neither piece, and not the landing cell.
pub open spec fn eg_destroyable(state: GameState, new_cell: int, t: int) -> bool {
    valid_cell(t) && !bit(state.destroyed, t) && t != state.player_idx() && t != state.ai_idx()
        && t != new_cell
}

/// Picks the destroy cell for an endgame move: the destroyable cell of
/// highest worth, lowest cell first on ties, or the board corner when no cell
/// is destroyable.
#[verifier::rlimit(100)]
pub fn find_best_endgame_destroy(
    state: &GameState,
    new_pos: (u8, u8),
    reachable_region: u64,
    is_ai: bool,
) -> (d: (u8, u8))
    requires
        state.wf(),
        new_pos.0 < 7,
        new_pos.1 < 7,
    ensures
        ({
            let nc = scell(new_pos.0 as int, new_pos.1 as int);
            let oc = if is_ai {
                state.player_idx()
            } else {
                state.ai_idx()
            };
            &&& (exists|t: int| #[trigger] eg_destroyable(*state, nc, t)) ==> {
                let dcell = scell(d.0 as int, d.1 as int);
                &&& d.0 < 7 && d.1 < 7
                &&& eg_destroyable(*state, nc, dcell)
                &&& forall|t: int|
                    #[trigger] eg_destroyable(*state, nc, t) ==> eg_destroy_score(
                        reachable_region,
                        nc,
                        oc,
                        t,
                    ) < eg_destroy_score(reachable_region, nc, oc, dcell) || (eg_destroy_score(
                        reachable_region,
                        nc,
                        oc,
                        t,
                    ) == eg_destroy_score(reachable_region, nc, oc, dcell) && dcell <= t)
            }
            &&& !(exists|t: int| #[trigger] eg_destroyable(*state, nc, t)) ==> d == (0u8, 0u8)
        }),
{
    let ghost nc: int = scell(new_pos.0 as int, new_pos.1 as int);
    let ghost oc: int = if is_ai {
        state.player_idx()
    } else {
        state.ai_idx()
    };
    let other_mask = if is_ai {
        state.player
    } else {
        state.ai
    };
    let other_idx = crate::board::piece_index(other_mask);
    proof {
        let w = choose|w: int| valid_cell(w) && other_mask == #[trigger] cell_mask(w);
        lemma_piece_cell(other_mask, w);
    }
    let other_pos = index_to_pos(other_idx);
    proof {
        lemma_coord_bounds(other_idx as int);
    }
    let player_idx = crate::board::piece_index(state.player);
    let ai_idx = crate::board::piece_index(state.ai);
    proof {
        let wp = choose|w: int| valid_cell(w) && state.player == #[trigger] cell_mask(w);
        lemma_piece_cell(state.player, wp);
        let wa = choose|w: int| valid_cell(w) && state.ai == #[trigger] cell_mask(w);
        lemma_piece_cell(state.ai, wa);
    }
    let new_idx = crate::bitboard::pos_to_index(new_pos.0, new_pos.1);

    let mut found = false;
    let mut best_idx: u8 = 0;
    let mut best_score: i32 = 0;
    let mut t: u8 = 0;
    while t < 49
        invariant
            state.wf(),
            t <= 49,
            nc == scell(new_pos.0 as int, new_pos.1 as int),
            oc == (if is_ai {
                state.player_idx()
            } else {
                state.ai_idx()
            }),
            other_idx as int == oc,
            player_idx as int == state.player_idx(),
            ai_idx as int == state.ai_idx(),
            new_idx as int == nc,
            new_pos.0 < 7 && new_pos.1 < 7,
            other_pos.0 < 7 && other_pos.1 < 7,
            scell(other_pos.0 as int, other_pos.1 as int) == oc,
            !found ==> forall|x: int| 0 <= x < t ==> !eg_destroyable(*state, nc, x),
            found ==> best_idx < t && best_idx < 49 && eg_destroyable(*state, nc, best_idx as int)
                && best_score == eg_destroy_score(reachable_region, nc, oc, best_idx as int),
            found ==> forall|x: int|
                0 <= x < t && #[trigger] eg_destroyable(*state, nc, x) ==> eg_destroy_score(
                    reachable_region,
                    nc,
                    oc,
                    x,
                ) < best_score || (eg_destroy_score(reachable_region, nc, oc, x) == best_score
                    && best_idx <= x),
        decreases 49 - t,
    {
        let destroyable = !test_bit(state.destroyed, t) && t != player_idx && t != ai_idx && t
            != new_idx;
        proof {
            assert(destroyable == eg_destroyable(*state, nc, t as int));
        }
        if destroyable {
            let tp = index_to_pos(t);
            proof {
                lemma_coord_bounds(t as int);
                assert(scell(tp.0 as int, tp.1 as int) == t as int);
            }
            let mut score: i32 = 0;
            if !test_bit(reachable_region, t) {
                score = 200;
            }
            let dist_new = manhattan_u8(tp, new_pos);
            let dist_opp = manhattan_u8(tp, other_pos);
            score = score + dist_new * 5 + (10 - dist_opp) * 3;
            proof {
                lemma_coord_bounds(oc);
                assert(score == eg_destroy_score(reachable_region, nc, oc, t as int));
            }
            if !found || score > best_score {
                found = true;
                best_idx = t;
                best_score = score;
            }
        }
        t = t + 1;
    }
    if found {
        proof {
            lemma_coord_bounds(best_idx as int);
        }
        index_to_pos(best_idx)
    } else {
        (0, 0)
    }
}

/// Manhattan distance between two board positions.
fn manhattan_u8(a: (u8, u8), b: (u8, u8)) -> (d: i32)
    requires
        a.0 < 7,
        a.1 < 7,
        b.0 < 7,
        b.1 < 7,
    ensures
        d == sdist(scell(a.0 as int, a.1 as int), scell(b.0 as int, b.1 as int)),
        0 <= d <= 12,
{
    proof {
        crate::bitboard::lemma_cell_coords(a.0 as int, a.1 as int);
        crate::bitboard::lemma_cell_coords(b.0 as int, b.1 as int);
    }
    let dr = if a.0 >= b.0 {
        a.0 - b.0
    } else {
        b.0 - a.0
    };
    let dc = if a.1 >= b.1 {
        a.1 - b.1
    } else {
        b.1 - a.1
    };
    dr as i32 + dc as i32
}

/// Solves a partitioned endgame: finds the slide into the region that
/// maximizes the number of further moves, with a destroy pick to match.
///
/// When the deadline never strikes, the result is exact: `longest_path` is
/// the true optimum over region moves (`-1` when no region move exists) and
/// the move realizes it.  A deadline can only lower the reported value, and
/// the confidence then says `Heuristic`.
#[verifier::rlimit(100)]
pub fn solve_endgame(
    state: &GameState,
    reachable_region: u64,
    is_ai: bool,
    time_limit_ms: u32,
) -> (res: EndgameResult)
    requires
        state.wf(),
    ensures
        res.longest_path <= eg_scan(*state, reachable_region, is_ai, 49),
        res.solved ==> res.longest_path == eg_scan(*state, reachable_region, is_ai, 49),
        (res.confidence == EndgameConfidence::Exact) == res.solved,
        res.best_move is Some ==> ({
            let mv = res.best_move->Some_0;
            &&& mv.to.0 < 7 && mv.to.1 < 7
            &&& eg_move_ok(*state, reachable_region, is_ai, scell(mv.to.0 as int, mv.to.1 as int))
            &&& mv.score == res.longest_path
        }),
        res.solved && eg_scan(*state, reachable_region, is_ai, 49) >= 0 ==> res.best_move is Some,
        res.best_move is None ==> res.longest_path == -1,
        res.solved && res.best_move is Some ==> ({
                let tc = scell(
                    res.best_move->Some_0.to.0 as int,
                    res.best_move->Some_0.to.1 as int,
                );
                res.longest_path == 1 + longest_path(
                    reachable_region,
                    state.destroyed,
                    (if is_ai {
                        state.ai
                    } else {
                        state.player
                    }) | cell_mask(tc),
                    tc,
                )
            }),
        res.best_move is Some ==> ({
            let mv = res.best_move->Some_0;
            let nc = scell(mv.to.0 as int, mv.to.1 as int);
            let oc = if is_ai {
                state.player_idx()
            } else {
                state.ai_idx()
            };
            &&& (exists|dt: int| #[trigger] eg_destroyable(*state, nc, dt)) ==> {
                let dcell = scell(mv.destroy.0 as int, mv.destroy.1 as int);
                &&& mv.destroy.0 < 7 && mv.destroy.1 < 7
                &&& eg_destroyable(*state, nc, dcell)
                &&& forall|dt: int|
                    #[trigger] eg_destroyable(*state, nc, dt) ==> eg_destroy_score(
                        reachable_region,
                        nc,
                        oc,
                        dt,
                    ) < eg_destroy_score(reachable_region, nc, oc, dcell) || (eg_destroy_score(
                        reachable_region,
                        nc,
                        oc,
                        dt,
                    ) == eg_destroy_score(reachable_region, nc, oc, dcell) && dcell <= dt)
            }
            &&& !(exists|dt: int| #[trigger] eg_destroyable(*state, nc, dt)) ==> mv.destroy == (
            0u8,
            0u8,
            )
        }),
{
    let start = now_instant();
    let time_limit: u64 = (time_limit_ms as u64) / 2 + (time_limit_ms as u64) / 4 + (time_limit_ms
        as u64) / 20;
    let mover_mask = if is_ai {
        state.ai
    } else {
        state.player
    };
    let opp_mask = if is_ai {
        state.player
    } else {
        state.ai
    };
    let mover_idx = crate::board::piece_index(mover_mask);
    proof {
        let w = choose|w: int| valid_cell(w) && mover_mask == #[trigger] cell_mask(w);
        lemma_piece_cell(mover_mask, w);
        lemma_coord_bounds(mover_idx as int);
    }
    let mover_pos = index_to_pos(mover_idx);
    let ghost me: int = mover_idx as int;

    let slide_mask = get_queen_moves(mover_pos.0, mover_pos.1, state.destroyed | opp_mask);
    let region_moves = slide_mask & reachable_region;
    proof {
        lemma_bit_and(slide_mask, reachable_region);
    }

    let mut best_path: i32 = -1;
    let mut best_to: u8 = 0;
    let mut solved = true;
    let mut t: u8 = 0;
    proof {
        assert forall|x: int|
            bit(region_moves, x) == eg_move_ok(*state, reachable_region, is_ai, x) by {
            if 0 <= x < 64 {
                assert(bit(region_moves, x) == (bit(slide_mask, x) && bit(reachable_region, x)));
            } else {
                assert(!bit(region_moves, x));
                assert(!bit(reachable_region, x));
            }
        }
    }
    loop
        invariant
            state.wf(),
            t <= 49,
            me == (if is_ai {
                state.ai_idx()
            } else {
                state.player_idx()
            }),
            mover_mask == (if is_ai {
                state.ai
            } else {
                state.player
            }),
            mover_pos.0 < 7 && mover_pos.1 < 7,
            forall|x: int| bit(region_moves, x) == eg_move_ok(*state, reachable_region, is_ai, x),
            -1 <= best_path <= 65,
            best_path <= eg_scan(*state, reachable_region, is_ai, t as int),
            solved ==> best_path == eg_scan(*state, reachable_region, is_ai, t as int),
            best_path >= 0 ==> best_to < 49 && eg_move_ok(
                *state,
                reachable_region,
                is_ai,
                best_to as int,
            ),
            solved && best_path >= 0 ==> best_path == 1 + lp_scan(
                reachable_region,
                state.destroyed,
                mover_mask | cell_mask(best_to as int),
                best_to as int,
                49,
            ),
        ensures
            -1 <= best_path <= 65,
            best_path <= eg_scan(*state, reachable_region, is_ai, 49),
            solved ==> best_path == eg_scan(*state, reachable_region, is_ai, 49),
            best_path >= 0 ==> best_to < 49 && eg_move_ok(
                *state,
                reachable_region,
                is_ai,
                best_to as int,
            ),
            solved && best_path >= 0 ==> best_path == 1 + lp_scan(
                reachable_region,
                state.destroyed,
                mover_mask | cell_mask(best_to as int),
                best_to as int,
                49,
            ),
        decreases 50 - t,
    {
        if !(t < 49) {
            proof {
                assert(t == 49);
            }
            break;
        }
        if test_bit(region_moves, t) {
            if millis_since(&start) > time_limit {
                solved = false;
                proof {
                    lemma_eg_scan_mono(*state, reachable_region, is_ai, t as int, 49);
                }
                break;
            }
            let to = index_to_pos(t);
            proof {
                lemma_coord_bounds(t as int);
            }
            let visited = mover_mask | (1u64 << (t as u64));
            proof {
                assert(mover_mask | cell_mask(t as int) == visited);
                lemma_pop_below_bound(reachable_region & !visited, 64);
            }
            let sub = lp_rec(reachable_region, state.destroyed, visited, to, &start, time_limit);
            if sub.1 {
                solved = false;
            }
            let cand = 1 + sub.0;
            if cand > best_path {
                best_path = cand;
                best_to = t;
            }
        }
        t = t + 1;
    }
    let best_move = if best_path >= 0 {
        proof {
            lemma_coord_bounds(best_to as int);
        }
        let to = index_to_pos(best_to);
        let destroy = find_best_endgame_destroy(state, to, reachable_region, is_ai);
        Some(Move { from: mover_pos, to, destroy, score: best_path })
    } else {
        None
    };
    EndgameResult {
        best_move,
        longest_path: best_path,
        solved,
        confidence: if solved {
            EndgameConfidence::Exact
        } else {
            EndgameConfidence::Heuristic
        },
    }
}

/// Scanning more target cells can only raise the endgame optimum.
proof fn lemma_eg_scan_mono(state: GameState, region: u64, is_ai: bool, t1: int, t2: int)
    requires
        t1 <= t2,
    ensures
        eg_scan(state, region, is_ai, t1) <= eg_scan(state, region, is_ai, t2),
    decreases t2,
{
    if t1 < t2 && t2 > 0 {
        lemma_eg_scan_mono(state, region, is_ai, t1, t2 - 1);
    }
}

} // verus!
