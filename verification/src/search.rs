//! Iterative-deepening alpha-beta search for the 7 x 7 queen-move game.
//!
//! A full move is a slide plus a destroyed cell.  The destroy half of the
//! move space is far too wide to search exhaustively, so candidate destroy
//! cells are scored by a cheap heuristic and only the best few are expanded.

use vstd::prelude::*;
use std::time::Instant;
use crate::bitboard::{
    bit, scell, srow, scol, valid_cell, queen_move, test_bit, get_queen_moves, count_ones,
    index_to_pos, pos_to_index, pos_to_mask, pop, pop_below, lemma_bit_or, lemma_bit_and, lemma_bit_not,
    lemma_bit_single, lemma_bit_zero, lemma_coord_bounds, lemma_cell_coords, lemma_queen_move_valid,
    queen_mask, lemma_queen_mask_is,
    lemma_ray_clear_at, ray_cell, ray_clear, ray_on_board, is_dir, dir_move,
};
use crate::board::{GameState, Move, piece_index, piece_cell, is_single_cell, lemma_piece_cell, slide_ok};
use crate::partition::cell_mask;
use crate::eval::{evaluate, CriticalCellsCache, blocked_all};
use crate::endgame::sdist;
use crate::clock::{now_instant, millis_since};

verus! {

/// Search limits for the basic engine.
pub struct SearchConfig {
    pub max_depth: u8,
    pub time_limit_ms: u32,
}

/// `d` may be destroyed after the mover lands on `to`: an empty board cell
/// under neither piece and not the landing cell.
pub open spec fn destroy_ok(s: GameState, to: int, d: int) -> bool {
    valid_cell(d) && !bit(s.destroyed, d) && d != s.player_idx() && d != s.ai_idx() && d != to
}

/// Some returned candidate names the cell `x`.
pub open spec fn cands_hold(cs: Seq<(u8, u8)>, x: int) -> bool {
    exists|j: int| 0 <= j < cs.len() && scell((#[trigger] cs[j]).0 as int, cs[j].1 as int) == x
}

/// Some legal destroy exists after a slide to `to`.
pub open spec fn has_destroy(s: GameState, to: int) -> bool {
    exists|d: int| #[trigger] destroy_ok(s, to, d)
}

/// A complete legal move for one side.
pub open spec fn full_move_ok(s: GameState, is_ai: bool, mv: Move) -> bool {
    &&& mv.to.0 < 7 && mv.to.1 < 7
    &&& mv.destroy.0 < 7 && mv.destroy.1 < 7
    &&& slide_ok(s, is_ai, scell(mv.to.0 as int, mv.to.1 as int))
    &&& destroy_ok(
        s,
        scell(mv.to.0 as int, mv.to.1 as int),
        scell(mv.destroy.0 as int, mv.destroy.1 as int),
    )
}

/// Manhattan distance between two board positions.
pub fn manhattan_distance(a: (u8, u8), b: (u8, u8)) -> (d: i32)
    requires
        a.0 < 7,
        a.1 < 7,
        b.0 < 7,
        b.1 < 7,
    ensures
        d == sdist(scell(a.0 as int, a.1 as int), scell(b.0 as int, b.1 as int)),
        0 <= d <= 12,
{
    proof {
        lemma_cell_coords(a.0 as int, a.1 as int);
        lemma_cell_coords(b.0 as int, b.1 as int);
    }
    let dr = if a.0 >= b.0 {
        a.0 - b.0
    } else {
        b.0 - a.0
    };
    let dc = if a.1 >= b.1 {
        a.1 - b.1
    } else {
        b.1 - a.1
    };
    (dr as i32) + (dc as i32)
}

/// A slide target is never a blocked cell, so never the opposing piece.
proof fn lemma_slide_target_free(s: GameState, is_ai: bool, t: int)
    requires
        s.wf(),
        slide_ok(s, is_ai, t),
    ensures
        valid_cell(t),
        !bit(s.destroyed, t),
        t != s.player_idx(),
        t != s.ai_idx(),
{
    let blocked = s.destroyed | (if is_ai {
        s.player
    } else {
        s.ai
    });
    let me = if is_ai {
        s.ai_idx()
    } else {
        s.player_idx()
    };
    lemma_queen_move_valid(blocked, me, t);
    let (dr, dc) = choose|dr: int, dc: int| #[trigger] is_dir(dr, dc) && dir_move(blocked, me, dr, dc, t);
    let k = choose|k: int|
        1 <= k && #[trigger] ray_cell(me, dr, dc, k) == t && ray_clear(blocked, me, dr, dc, k);
    lemma_ray_clear_at(blocked, me, dr, dc, k, k);
    lemma_bit_or(s.destroyed, if is_ai {
        s.player
    } else {
        s.ai
    });
    let wp = choose|w: int| valid_cell(w) && s.player == #[trigger] cell_mask(w);
    lemma_piece_cell(s.player, wp);
    let wa = choose|w: int| valid_cell(w) && s.ai == #[trigger] cell_mask(w);
    lemma_piece_cell(s.ai, wa);
    lemma_coord_bounds(me);
    if is_ai {
        assert(!bit(s.player, t));
        assert(t != s.player_idx());
        if t == s.ai_idx() {
            lemma_ray_self_step(me, dr, dc, k);
        }
    } else {
        assert(!bit(s.ai, t));
        assert(t != s.ai_idx());
        if t == s.player_idx() {
            lemma_ray_self_step(me, dr, dc, k);
        }
    }
}

/// The step offsets of a ray that returns to its source must vanish.
proof fn lemma_ray_self_step(me: int, dr: int, dc: int, k: int)
    requires
        valid_cell(me),
        k >= 1,
        ray_on_board(me, dr, dc, k),
        ray_cell(me, dr, dc, k) == me,
    ensures
        dr == 0 && dc == 0,
{
    lemma_coord_bounds(me);
    lemma_cell_coords(srow(me) + k * dr, scol(me) + k * dc);
    assert(srow(me) + k * dr == srow(me) && scol(me) + k * dc == scol(me));
    assert(dr == 0 && dc == 0) by (nonlinear_arith)
        requires
            k >= 1,
            k * dr == 0,
            k * dc == 0,
    ;
}

/// Applies a full move: the mover lands on `to` and `d` is destroyed.
pub fn apply_move(state: &GameState, to: (u8, u8), d: (u8, u8), is_ai: bool) -> (s2: GameState)
    requires
        state.wf(),
        to.0 < 7,
        to.1 < 7,
        d.0 < 7,
        d.1 < 7,
        slide_ok(*state, is_ai, scell(to.0 as int, to.1 as int)),
        destroy_ok(*state, scell(to.0 as int, to.1 as int), scell(d.0 as int, d.1 as int)),
    ensures
        s2.wf(),
        is_ai ==> s2.player == state.player && s2.ai == cell_mask(scell(to.0 as int, to.1 as int)),
        !is_ai ==> s2.ai == state.ai && s2.player == cell_mask(scell(to.0 as int, to.1 as int)),
        s2.destroyed == state.destroyed | cell_mask(scell(d.0 as int, d.1 as int)),
        pop(s2.destroyed) > pop(state.destroyed),
{
    let ghost tc: int = scell(to.0 as int, to.1 as int);
    let ghost dc_: int = scell(d.0 as int, d.1 as int);
    let to_mask = pos_to_mask(to.0, to.1);
    let d_mask = pos_to_mask(d.0, d.1);
    let new_destroyed = state.destroyed | d_mask;
    let s2 = if is_ai {
        GameState { player: state.player, ai: to_mask, destroyed: new_destroyed }
    } else {
        GameState { player: to_mask, ai: state.ai, destroyed: new_destroyed }
    };
    proof {
        lemma_slide_target_free(*state, is_ai, tc);
        lemma_bit_or(state.destroyed, d_mask);
        lemma_bit_single((dc_ as u64));
        assert(to_mask == cell_mask(tc));
        assert(d_mask == cell_mask(dc_));
        lemma_piece_cell(to_mask, tc);
        let wp = choose|w: int| valid_cell(w) && state.player == #[trigger] cell_mask(w);
        lemma_piece_cell(state.player, wp);
        let wa = choose|w: int| valid_cell(w) && state.ai == #[trigger] cell_mask(w);
        lemma_piece_cell(state.ai, wa);
        crate::bitboard::lemma_pop_below_insert(state.destroyed, dc_, 64);
        assert forall|t: int| #[trigger] bit(s2.destroyed, t) implies valid_cell(t) by {
            if t != dc_ {
                assert(bit(state.destroyed, t));
            }
        }
        assert(s2.wf());
    }
    s2
}

/// The heuristic worth of destroying `t` for the mover who just landed on
/// `new_cell`: huge when the opponent is already stuck, large when it removes
/// the opponent's last move, with pressure, self-preservation and center
/// terms.
pub open spec fn destroy_position_score(
    target_mobility: u64,
    t: int,
    new_cell: int,
    opp_cell: int,
) -> int {
    let base: int = if target_mobility == 0 {
        20000
    } else {
        0
    };
    let blockv: int = if bit(target_mobility, t) {
        if pop(target_mobility) == 1 {
            10000
        } else {
            50
        }
    } else {
        0
    };
    let d_opp = sdist(t, opp_cell);
    let press: int = if d_opp == 1 {
        30
    } else if d_opp == 2 {
        15
    } else {
        0
    };
    let d_self = sdist(t, new_cell);
    let own: int = if d_self == 1 {
        -50
    } else {
        0
    };
    let center: int = 2 * (6 - sdist(t, 24));
    base + blockv + press + own + center
}

/// Scores one destroy cell.
pub fn score_destroy_position(
    t: u8,
    target_mobility: u64,
    our_new_pos: (u8, u8),
    opponent_pos: (u8, u8),
) -> (score: i32)
    requires
        t < 49,
        our_new_pos.0 < 7,
        our_new_pos.1 < 7,
        opponent_pos.0 < 7,
        opponent_pos.1 < 7,
    ensures
        score == destroy_position_score(
            target_mobility,
            t as int,
            scell(our_new_pos.0 as int, our_new_pos.1 as int),
            scell(opponent_pos.0 as int, opponent_pos.1 as int),
        ),
{
    let mut score: i32 = 0;
    if target_mobility == 0 {
        score = 20000;
    }
    proof {
        lemma_coord_bounds(t as int);
        lemma_coord_bounds(24);
    }
    let tp = index_to_pos(t);
    if test_bit(target_mobility, t) {
        let cnt = count_ones(target_mobility);
        if cnt == 1 {
            score = score + 10000;
        } else {
            score = score + 50;
        }
    }
    let d_opp = manhattan_distance(tp, opponent_pos);
    if d_opp == 1 {
        score = score + 30;
    } else if d_opp == 2 {
        score = score + 15;
    }
    let d_self = manhattan_distance(tp, our_new_pos);
    if d_self == 1 {
        score = score - 50;
    }
    let center = manhattan_distance(tp, (3, 3));
    proof {
        assert(scell(3, 3) == 24);
    }
    score = score + 2 * (6 - center);
    score
}

/// The top destroy candidates for a slide to `mv.to`: every returned cell is
/// a legal destroy there, at most `candidate_count` of the highest heuristic
/// worth are returned, and one is returned whenever any legal destroy exists.
pub fn get_destroy_candidates_advanced_export(
    state: &GameState,
    mv: &Move,
    maximizing: bool,
    candidate_count: usize,
) -> (cands: Vec<(u8, u8)>)
    requires
        state.wf(),
        mv.to.0 < 7,
        mv.to.1 < 7,
        candidate_count >= 1,
    ensures
        cands@.len() <= candidate_count,
        forall|j: int|
            0 <= j < cands@.len() ==> (#[trigger] cands@[j]).0 < 7 && cands@[j].1 < 7 && destroy_ok(
                *state,
                scell(mv.to.0 as int, mv.to.1 as int),
                scell(cands@[j].0 as int, cands@[j].1 as int),
            ),
        has_destroy(*state, scell(mv.to.0 as int, mv.to.1 as int)) ==> cands@.len() >= 1,
        forall|j1: int, j2: int|
            0 <= j1 < j2 < cands@.len() ==> scell(
                (#[trigger] cands@[j1]).0 as int,
                cands@[j1].1 as int,
            ) != scell((#[trigger] cands@[j2]).0 as int, cands@[j2].1 as int),
        ({
            let tc = scell(mv.to.0 as int, mv.to.1 as int);
            let oc = if maximizing {
                state.player_idx()
            } else {
                state.ai_idx()
            };
            let tm = queen_mask(blocked_all(*state) | cell_mask(tc), oc);
            forall|j: int, x: int|
                #![trigger cands@[j], destroy_ok(*state, tc, x)]
                0 <= j < cands@.len() && destroy_ok(*state, tc, x) && !cands_hold(cands@, x)
                    ==> destroy_position_score(tm, x, tc, oc) <= destroy_position_score(
                    tm,
                    scell(cands@[j].0 as int, cands@[j].1 as int),
                    tc,
                    oc,
                )
        }),
{
    let ghost tc: int = scell(mv.to.0 as int, mv.to.1 as int);
    let p_idx = piece_index(state.player);
    let a_idx = piece_index(state.ai);
    let to_idx = pos_to_index(mv.to.0, mv.to.1);
    let opp_idx = if maximizing {
        p_idx
    } else {
        a_idx
    };
    proof {
        lemma_coord_bounds(opp_idx as int);
        lemma_coord_bounds(to_idx as int);
    }
    let opp_pos = index_to_pos(opp_idx);
    let to_mask = pos_to_mask(mv.to.0, mv.to.1);
    let occupied = state.destroyed | state.player | state.ai | to_mask;
    let target_mobility = get_queen_moves(opp_pos.0, opp_pos.1, occupied);
    let ghost oc: int = if maximizing {
        state.player_idx()
    } else {
        state.ai_idx()
    };
    proof {
        assert(scell(opp_pos.0 as int, opp_pos.1 as int) == oc);
        assert(to_mask == cell_mask(tc));
        assert(occupied == blocked_all(*state) | cell_mask(tc));
        assert forall|x: int| #[trigger] bit(target_mobility, x) == queen_move(occupied, oc, x) by {
            assert(bit(target_mobility, x) == queen_move(
                occupied,
                scell(opp_pos.0 as int, opp_pos.1 as int),
                x,
            ));
        }
        lemma_queen_mask_is(occupied, oc, target_mobility);
    }

    let mut scored: Vec<(u8, i32)> = Vec::new();
    let mut t: u8 = 0;
    while t < 49
        invariant
            state.wf(),
            t <= 49,
            tc == scell(mv.to.0 as int, mv.to.1 as int),
            mv.to.0 < 7 && mv.to.1 < 7,
            p_idx as int == state.player_idx(),
            a_idx as int == state.ai_idx(),
            to_idx as int == tc,
            opp_pos.0 < 7 && opp_pos.1 < 7,
            oc == (if maximizing {
                state.player_idx()
            } else {
                state.ai_idx()
            }),
            scell(opp_pos.0 as int, opp_pos.1 as int) == oc,
            forall|j: int|
                0 <= j < scored@.len() ==> (#[trigger] scored@[j]).0 < 49 && destroy_ok(
                    *state,
                    tc,
                    scored@[j].0 as int,
                ),
            forall|j: int| 0 <= j < scored@.len() ==> (#[trigger] scored@[j]).0 < t,
            forall|j1: int, j2: int|
                0 <= j1 < j2 < scored@.len() ==> (#[trigger] scored@[j1]).0 < (
                #[trigger] scored@[j2]).0,
            forall|j: int|
                0 <= j < scored@.len() ==> (#[trigger] scored@[j]).1 == destroy_position_score(
                    target_mobility,
                    scored@[j].0 as int,
                    tc,
                    oc,
                ),
            forall|x: int| 0 <= x < t && destroy_ok(*state, tc, x) ==> exists|j: int|
                0 <= j < scored@.len() && (#[trigger] scored@[j]).0 as int == x,
        decreases 49 - t,
    {
        let destroyable = !test_bit(state.destroyed, t) && t != p_idx && t != a_idx && t != to_idx;
        proof {
            assert(destroyable == destroy_ok(*state, tc, t as int));
        }
        if destroyable {
            let sc = score_destroy_position(t, target_mobility, mv.to, opp_pos);
            proof {
                assert(sc == destroy_position_score(target_mobility, t as int, tc, oc));
            }
            let ghost before = scored@;
            scored.push((t, sc));
            proof {
                assert forall|x: int|
                    0 <= x < t + 1 && destroy_ok(*state, tc, x) implies exists|j: int|
                        0 <= j < scored@.len() && (#[trigger] scored@[j]).0 as int == x by {
                    if x < t as int {
                        let j = choose|j: int|
                            0 <= j < before.len() && (#[trigger] before[j]).0 as int == x;
                        assert(scored@[j].0 as int == x);
                    } else {
                        assert(scored@[scored@.len() - 1].0 as int == x);
                    }
                }
            }
        }
        t = t + 1;
    }
    proof {
        if has_destroy(*state, tc) {
            let d = choose|d: int| #[trigger] destroy_ok(*state, tc, d);
            assert(exists|j: int|
                0 <= j < scored@.len() && (#[trigger] scored@[j]).0 as int == d);
        }
    }
    let ghost n0: int = scored@.len() as int;
    // Selection sort of the best `candidate_count` entries to the front.
    let limit: usize = if scored.len() < candidate_count {
        scored.len()
    } else {
        candidate_count
    };
    proof {
        assert forall|x: int| destroy_ok(*state, tc, x) implies exists|j: int|
            0 <= j < scored@.len() && (#[trigger] scored@[j]).0 as int == x by {
            assert(0 <= x < 49);
        }
    }
    let mut i: usize = 0;
    while i < limit
        invariant
            i <= limit,
            limit <= scored@.len(),
            limit <= candidate_count,
            scored@.len() == n0,
            oc == (if maximizing {
                state.player_idx()
            } else {
                state.ai_idx()
            }),
            forall|j: int|
                0 <= j < scored@.len() ==> (#[trigger] scored@[j]).0 < 49 && destroy_ok(
                    *state,
                    tc,
                    scored@[j].0 as int,
                ),
            forall|j: int|
                0 <= j < scored@.len() ==> (#[trigger] scored@[j]).1 == destroy_position_score(
                    target_mobility,
                    scored@[j].0 as int,
                    tc,
                    oc,
                ),
            forall|j1: int, j2: int|
                0 <= j1 < j2 < scored@.len() ==> (#[trigger] scored@[j1]).0 != (
                #[trigger] scored@[j2]).0,
            forall|x: int|
                destroy_ok(*state, tc, x) ==> exists|j: int|
                    0 <= j < scored@.len() && (#[trigger] scored@[j]).0 as int == x,
            forall|q1: int, q2: int|
                0 <= q1 < i && q1 < q2 < scored@.len() ==> (#[trigger] scored@[q2]).1 <= (
                #[trigger] scored@[q1]).1,
        decreases limit - i,
    {
        let mut best_j = i;
        let mut j = i + 1;
        while j < scored.len()
            invariant
                i <= best_j < scored@.len(),
                i < j,
                j <= scored@.len(),
                i < scored@.len(),
                forall|q: int|
                    0 <= q < scored@.len() ==> (#[trigger] scored@[q]).0 < 49 && destroy_ok(
                        *state,
                        tc,
                        scored@[q].0 as int,
                    ),
                forall|q: int| i <= q < j ==> (#[trigger] scored@[q]).1 <= scored@[best_j as int].1,
            decreases scored@.len() - j,
        {
            if scored[j].1 > scored[best_j].1 {
                best_j = j;
            }
            j = j + 1;
        }
        let ghost before = scored@;
        let a = scored[i];
        let b = scored[best_j];
        scored[i] = b;
        scored[best_j] = a;
        proof {
            assert(scored@ == before.update(i as int, b).update(best_j as int, a));
            assert forall|j1: int, j2: int|
                0 <= j1 < j2 < scored@.len() implies (#[trigger] scored@[j1]).0 != (
            #[trigger] scored@[j2]).0 by {
                let v1: int = if j1 == i {
                    best_j as int
                } else if j1 == best_j {
                    i as int
                } else {
                    j1
                };
                let v2: int = if j2 == i {
                    best_j as int
                } else if j2 == best_j {
                    i as int
                } else {
                    j2
                };
                assert(scored@[j1] == before[v1] && scored@[j2] == before[v2] && v1 != v2);
            }
            assert forall|x: int| destroy_ok(*state, tc, x) implies exists|j: int|
                0 <= j < scored@.len() && (#[trigger] scored@[j]).0 as int == x by {
                let q = choose|q: int|
                    0 <= q < before.len() && (#[trigger] before[q]).0 as int == x;
                let q2: int = if q == i {
                    best_j as int
                } else if q == best_j {
                    i as int
                } else {
                    q
                };
                assert(scored@[q2].0 as int == x);
            }
            assert forall|q1: int, q2: int|
                0 <= q1 < i + 1 && q1 < q2 < scored@.len() implies (#[trigger] scored@[q2]).1 <= (
            #[trigger] scored@[q1]).1 by {
                let w2: int = if q2 == i {
                    best_j as int
                } else if q2 == best_j {
                    i as int
                } else {
                    q2
                };
                assert(scored@[q2] == before[w2]);
                if q1 == i {
                    assert(scored@[q1] == before[best_j as int]);
                    assert(before[w2].1 <= before[best_j as int].1);
                } else {
                    assert(scored@[q1] == before[q1]);
                    assert(before[w2].1 <= before[q1].1);
                }
            }
        }
        i = i + 1;
    }
    let mut cands: Vec<(u8, u8)> = Vec::new();
    let mut k: usize = 0;
    while k < limit
        invariant
            k <= limit,
            limit <= scored@.len(),
            limit <= candidate_count,
            cands@.len() == k,
            forall|j: int|
                0 <= j < scored@.len() ==> (#[trigger] scored@[j]).0 < 49 && destroy_ok(
                    *state,
                    tc,
                    scored@[j].0 as int,
                ),
            forall|j: int|
                0 <= j < cands@.len() ==> (#[trigger] cands@[j]).0 < 7 && cands@[j].1 < 7
                    && destroy_ok(*state, tc, scell(cands@[j].0 as int, cands@[j].1 as int)),
            forall|j: int|
                0 <= j < cands@.len() ==> scell(
                    (#[trigger] cands@[j]).0 as int,
                    cands@[j].1 as int,
                ) == scored@[j].0 as int,
        decreases limit - k,
    {
        let cell = scored[k].0;
        proof {
            lemma_coord_bounds(cell as int);
        }
        let pos = index_to_pos(cell);
        cands.push(pos);
        k = k + 1;
    }
    proof {
        assert(scored@.len() == n0);
        assert(target_mobility == queen_mask(blocked_all(*state) | cell_mask(tc), oc));
        assert forall|j: int, x: int|
            #![trigger cands@[j], destroy_ok(*state, tc, x)]
            (0 <= j < cands@.len() && destroy_ok(*state, tc, x) && !cands_hold(cands@, x))
                implies destroy_position_score(target_mobility, x, tc, oc)
            <= destroy_position_score(
            target_mobility,
            scell(cands@[j].0 as int, cands@[j].1 as int),
            tc,
            oc,
        ) by {
            let q = choose|q: int|
                0 <= q < scored@.len() && (#[trigger] scored@[q]).0 as int == x;
            if q < limit {
                assert(scell((cands@[q]).0 as int, cands@[q].1 as int) == x);
                assert(cands_hold(cands@, x));
                assert(false);
            } else {
                assert(scored@[q].1 <= scored@[j].1);
                assert(scored@[q].1 == destroy_position_score(target_mobility, x, tc, oc));
                assert(scell(cands@[j].0 as int, cands@[j].1 as int) == scored@[j].0 as int);
            }
        }
    }
    cands
}

/// Destroy candidates scaled to the phase of the game: few in the opening,
/// more once the board fills and exact play matters.
pub fn get_destroy_candidates(state: &GameState, mv: &Move, maximizing: bool) -> (cands: Vec<(
    u8,
    u8,
)>)
    requires
        state.wf(),
        mv.to.0 < 7,
        mv.to.1 < 7,
    ensures
        cands@.len() <= (if pop(state.destroyed) < 10 {
            6int
        } else if pop(state.destroyed) < 30 {
            8int
        } else {
            12int
        }),
        forall|j: int|
            0 <= j < cands@.len() ==> (#[trigger] cands@[j]).0 < 7 && cands@[j].1 < 7 && destroy_ok(
                *state,
                scell(mv.to.0 as int, mv.to.1 as int),
                scell(cands@[j].0 as int, cands@[j].1 as int),
            ),
        has_destroy(*state, scell(mv.to.0 as int, mv.to.1 as int)) ==> cands@.len() >= 1,
{
    let destroyed_cnt = count_ones(state.destroyed);
    let count: usize = if destroyed_cnt < 10 {
        6
    } else if destroyed_cnt < 30 {
        8
    } else {
        12
    };
    get_destroy_candidates_advanced_export(state, mv, maximizing, count)
}

/// The iterative-deepening entry point: deepens until the depth cap or the
/// deadline, returning the best complete move found.
///
/// The first depth runs to completion, so a move is returned whenever any
/// complete legal move exists.
pub fn find_best_move(state: &GameState, config: SearchConfig, cache: &mut CriticalCellsCache) -> (r:
    Option<Move>)
    requires
        state.wf(),
        old(cache).wf(),
        config.max_depth >= 1,
    ensures
        final(cache).wf(),
        r is Some ==> full_move_ok(*state, true, r->0),
        (exists|mv: Move| #[trigger] full_move_ok(*state, true, mv)) ==> r is Some,
{
    let start = now_instant();
    let mut best: Option<Move> = alpha_beta(state, 1, -1000000, 1000000, true, &start,
        0xFFFF_FFFF_FFFF_FFFFu64, cache).0;
    let mut depth: u8 = 2;
    while depth <= config.max_depth
        invariant
            state.wf(),
            cache.wf(),
            best is Some ==> full_move_ok(*state, true, best->0),
            (exists|mv: Move| #[trigger] full_move_ok(*state, true, mv)) ==> best is Some,
        decreases config.max_depth as int + 1 - depth,
    {
        if millis_since(&start) > config.time_limit_ms as u64 {
            break;
        }
        let (m, _score) = alpha_beta(
            state,
            depth,
            -1000000,
            1000000,
            true,
            &start,
            config.time_limit_ms as u64,
            cache,
        );
        match m {
            Some(mv) => {
                best = Some(mv);
            },
            None => {},
        }
        if depth == 255 {
            break;
        }
        depth = depth + 1;
    }
    best
}

/// Negamax alpha-beta over full moves, expanding only the heuristically best
/// destroy candidates, against the deadline.
///
/// Any returned move is a complete legal move for the mover; with an
/// unreachable deadline one is returned whenever one exists.
pub fn alpha_beta(
    state: &GameState,
    depth: u8,
    alpha: i32,
    beta: i32,
    maximizing: bool,
    start: &Instant,
    limit_ms: u64,
    cache: &mut CriticalCellsCache,
) -> (r: (Option<Move>, i32))
    requires
        state.wf(),
        old(cache).wf(),
    ensures
        final(cache).wf(),
        r.0 is Some ==> full_move_ok(*state, maximizing, r.0->0),
        (depth >= 1 && limit_ms == 0xFFFF_FFFF_FFFF_FFFFu64 && alpha == -1000000 && beta
            == 1000000 && exists|mv: Move| #[trigger] full_move_ok(*state, maximizing, mv))
            ==> r.0 is Some,
    decreases depth,
{
    if millis_since(start) > limit_ms {
        return (None, if maximizing {
            -1000000
        } else {
            1000000
        });
    }
    if depth == 0 {
        let score = evaluate(state, cache);
        return (None, if maximizing {
            score
        } else {
            if score == i32::MIN {
                i32::MAX
            } else {
                -score
            }
        });
    }
    let moves = state.get_valid_moves(maximizing);
    if moves.len() == 0 {
        proof {
            if exists|mv: Move| #[trigger] full_move_ok(*state, maximizing, mv) {
                let mv = choose|mv: Move| #[trigger] full_move_ok(*state, maximizing, mv);
                assert(slide_ok(*state, maximizing, scell(mv.to.0 as int, mv.to.1 as int)));
                assert(false);
            }
        }
        return (None, -100000 + (20 - (if depth < 20 {
            depth
        } else {
            20
        }) as i32));
    }
    let mut best_move: Option<Move> = None;
    let mut max_score: i32 = -1000000;
    let mut alpha_mut = alpha;
    let mut i: usize = 0;
    while i < moves.len()
        invariant
            state.wf(),
            cache.wf(),
            depth >= 1,
            i <= moves@.len(),
            forall|j: int|
                0 <= j < moves@.len() ==> (#[trigger] moves@[j]).to.0 < 7 && moves@[j].to.1 < 7
                    && slide_ok(
                    *state,
                    maximizing,
                    scell(moves@[j].to.0 as int, moves@[j].to.1 as int),
                ),
            best_move is Some ==> full_move_ok(*state, maximizing, best_move->0),
            best_move is None ==> alpha_mut == alpha,
            limit_ms == 0xFFFF_FFFF_FFFF_FFFFu64 && best_move is None ==> forall|j: int|
                0 <= j < i ==> !(#[trigger] has_destroy(
                    *state,
                    scell(moves@[j].to.0 as int, moves@[j].to.1 as int),
                )),
        decreases moves@.len() - i,
    {
        let mv0 = moves[i];
        let destroys = get_destroy_candidates(state, &mv0, maximizing);
        let mut k: usize = 0;
        while k < destroys.len()
            invariant
                state.wf(),
                cache.wf(),
                depth >= 1,
                i < moves@.len(),
                k <= destroys@.len(),
                mv0 == moves@[i as int],
                mv0.to.0 < 7 && mv0.to.1 < 7,
                slide_ok(*state, maximizing, scell(mv0.to.0 as int, mv0.to.1 as int)),
                forall|j: int|
                    0 <= j < destroys@.len() ==> (#[trigger] destroys@[j]).0 < 7 && destroys@[j].1
                        < 7 && destroy_ok(
                        *state,
                        scell(mv0.to.0 as int, mv0.to.1 as int),
                        scell(destroys@[j].0 as int, destroys@[j].1 as int),
                    ),
                best_move is Some ==> full_move_ok(*state, maximizing, best_move->0),
                best_move is None ==> alpha_mut == alpha,
                limit_ms == 0xFFFF_FFFF_FFFF_FFFFu64 && k > 0 ==> best_move is Some,
                limit_ms == 0xFFFF_FFFF_FFFF_FFFFu64 && best_move is None ==> forall|j: int|
                    0 <= j < i ==> !(#[trigger] has_destroy(
                        *state,
                        scell(moves@[j].to.0 as int, moves@[j].to.1 as int),
                    )),
            decreases destroys@.len() - k,
        {
            if millis_since(start) > limit_ms {
                return (best_move, max_score);
            }
            let d = destroys[k];
            let new_state = apply_move(state, mv0.to, d, maximizing);
            let (_, val) = alpha_beta(
                &new_state,
                depth - 1,
                if beta == i32::MIN {
                    i32::MAX
                } else {
                    -beta
                },
                if alpha_mut == i32::MIN {
                    i32::MAX
                } else {
                    -alpha_mut
                },
                !maximizing,
                start,
                limit_ms,
                cache,
            );
            let score = if val == i32::MIN {
                i32::MAX
            } else {
                -val
            };
            let cand = Move { from: mv0.from, to: mv0.to, destroy: d, score };
            if score > max_score || best_move.is_none() {
                max_score = score;
                best_move = Some(cand);
            }
            if score > alpha_mut {
                alpha_mut = score;
            }
            k = k + 1;
            if alpha_mut >= beta {
                proof {
                    assert(limit_ms == 0xFFFF_FFFF_FFFF_FFFFu64 && k > 0 ==> best_move is Some);
                }
                return (best_move, max_score);
            }
        }
        proof {
            if limit_ms == 0xFFFF_FFFF_FFFF_FFFFu64 && best_move is None {
                assert(!has_destroy(
                    *state,
                    scell(moves@[i as int].to.0 as int, moves@[i as int].to.1 as int),
                )) by {
                    if has_destroy(
                        *state,
                        scell(moves@[i as int].to.0 as int, moves@[i as int].to.1 as int),
                    ) {
                        assert(destroys@.len() >= 1);
                    }
                }
                assert forall|j: int|
                    0 <= j < i + 1 implies !(#[trigger] has_destroy(
                    *state,
                    scell(moves@[j].to.0 as int, moves@[j].to.1 as int),
                )) by {}
            }
        }
        i = i + 1;
        if alpha_mut >= beta {
            return (best_move, max_score);
        }
    }
    proof {
        if limit_ms == 0xFFFF_FFFF_FFFF_FFFFu64 && best_move is None && exists|mv: Move|
            #[trigger] full_move_ok(*state, maximizing, mv) {
            let mv = choose|mv: Move| #[trigger] full_move_ok(*state, maximizing, mv);
            let tcw = scell(mv.to.0 as int, mv.to.1 as int);
            assert(slide_ok(*state, maximizing, tcw));
            let j = choose|j: int|
                0 <= j < moves@.len() && scell(
                    (#[trigger] moves@[j]).to.0 as int,
                    moves@[j].to.1 as int,
                ) == tcw;
            let dcw = scell(mv.destroy.0 as int, mv.destroy.1 as int);
            assert(destroy_ok(*state, scell(moves@[j].to.0 as int, moves@[j].to.1 as int), dcw));
            assert(has_destroy(*state, scell(moves@[j].to.0 as int, moves@[j].to.1 as int)));
            assert(false);
        }
    }
    (best_move, max_score)
}

} // verus!
