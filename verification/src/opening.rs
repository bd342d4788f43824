//! Opening play for the 7 x 7 queen-move game.
//!
//! For the first few plies the engine bypasses search: it scores each slide
//! by static principles — center control, corner and edge avoidance, mobility
//! after the move, strategic distance, diagonal preference — and pairs the
//! best slide with a destroy cell scored by its pressure on the opponent.

use vstd::prelude::*;
use crate::bitboard::{
    bit, scell, srow, scol, valid_cell, queen_move, count_pred, test_bit, get_queen_moves,
    count_ones, index_to_pos, pop_below, lemma_bit_or, lemma_bit_single, lemma_pop_below_bound,
    lemma_coord_bounds, lemma_cell_coords,
};
use crate::board::{GameState, Move, piece_index, lemma_piece_cell, is_single_cell, slide_ok};
use crate::partition::cell_mask;
use crate::endgame::sdist;
use crate::eval::blocked_all;

verus! {

/// Number of queen-move targets from `to` below `n`, with both old piece
/// cells still counted as blocked.
pub open spec fn opening_mobility_below(s: GameState, to: int, n: int) -> int
    decreases n,
{
    if n <= 0 {
        0
    } else {
        opening_mobility_below(s, to, n - 1) + (if queen_move(blocked_all(s), to, n - 1) {
            1int
        } else {
            0int
        })
    }
}

/// Number of queen moves from `to` after the AI lands there, with both old
/// piece cells still counted as blocked.
pub open spec fn opening_mobility(s: GameState, to: int) -> int {
    opening_mobility_below(s, to, 64)
}

/// A word whose bits are the queen moves from `to` counts them.
proof fn lemma_pop_is_opening_mobility(w: u64, s: GameState, to: int, n: int)
    requires
        forall|t: int| 0 <= t < n ==> bit(w, t) == queen_move(blocked_all(s), to, t),
    ensures
        pop_below(w, n) == opening_mobility_below(s, to, n),
    decreases n,
{
    if n > 0 {
        lemma_pop_is_opening_mobility(w, s, to, n - 1);
    }
}

/// The opening worth of sliding the AI to `mv.to` at `turn_count`.
pub open spec fn opening_move_score(s: GameState, mv: Move, turn_count: int) -> int {
    let to = scell(mv.to.0 as int, mv.to.1 as int);
    let from = scell(mv.from.0 as int, mv.from.1 as int);
    let center = -10 * sdist(to, 24);
    let center_bonus: int = if 2 <= srow(to) <= 4 && 2 <= scol(to) <= 4 {
        20
    } else {
        0
    };
    let corner: int = if (srow(to) == 0 || srow(to) == 6) && (scol(to) == 0 || scol(to) == 6) {
        -45
    } else {
        0
    };
    let edge: int = if corner == 0 && (srow(to) == 0 || srow(to) == 6 || scol(to) == 0 || scol(to)
        == 6) {
        -5
    } else {
        0
    };
    let mobility = 5 * opening_mobility(s, to);
    let dist_opp = sdist(to, s.player_idx());
    let distance: int = if turn_count <= 6 {
        if dist_opp < 2 {
            -10
        } else if 3 <= dist_opp <= 5 {
            5
        } else {
            0
        }
    } else {
        if dist_opp <= 4 {
            3
        } else {
            0
        }
    };
    let diagonal: int = if srow(from) != srow(to) && scol(from) != scol(to) {
        3
    } else {
        0
    };
    let lines: int = if srow(to) == scol(to) || srow(to) + scol(to) == 6 {
        5
    } else {
        0
    };
    center + center_bonus + corner + edge + mobility + distance + diagonal + lines
}

/// Scores one slide under the opening principles.
#[verifier::rlimit(100)]
#[verifier::spinoff_prover]
pub fn evaluate_opening_move(state: &GameState, mv: &Move, turn_count: u8) -> (score: i32)
    requires
        state.wf(),
        mv.to.0 < 7,
        mv.to.1 < 7,
        mv.from.0 < 7,
        mv.from.1 < 7,
    ensures
        score == opening_move_score(*state, *mv, turn_count as int),
        -200 <= score <= 400,
{
    let ghost s: GameState = *state;
    let ghost to_cell: int = scell(mv.to.0 as int, mv.to.1 as int);
    proof {
        lemma_cell_coords(mv.to.0 as int, mv.to.1 as int);
        lemma_cell_coords(mv.from.0 as int, mv.from.1 as int);
        lemma_coord_bounds(24);
        lemma_coord_bounds(s.player_idx());
    }
    let mut score: i32 = 0;
    let dr = if mv.to.0 >= 3 {
        mv.to.0 - 3
    } else {
        3 - mv.to.0
    };
    let dc = if mv.to.1 >= 3 {
        mv.to.1 - 3
    } else {
        3 - mv.to.1
    };
    score = score - 10 * ((dr + dc) as i32);
    let is_center = 2 <= mv.to.0 && mv.to.0 <= 4 && 2 <= mv.to.1 && mv.to.1 <= 4;
    if is_center {
        score = score + 20;
    }
    let is_corner = (mv.to.0 == 0 || mv.to.0 == 6) && (mv.to.1 == 0 || mv.to.1 == 6);
    if is_corner {
        score = score - 45;
    }
    let is_edge = mv.to.0 == 0 || mv.to.0 == 6 || mv.to.1 == 0 || mv.to.1 == 6;
    if is_edge && !is_corner {
        score = score - 5;
    }
    let blocked = state.destroyed | state.player | state.ai;
    let moves_from_new = get_queen_moves(mv.to.0, mv.to.1, blocked);
    proof {
        lemma_pop_is_opening_mobility(moves_from_new, s, to_cell, 64);
        lemma_pop_below_bound(moves_from_new, 64);
    }
    let mob = count_ones(moves_from_new);
    score = score + 5 * (mob as i32);
    let p_idx = piece_index(state.player);
    let p_pos = index_to_pos(p_idx);
    proof {
        lemma_coord_bounds(p_idx as int);
    }
    let ddr = if mv.to.0 >= p_pos.0 {
        mv.to.0 - p_pos.0
    } else {
        p_pos.0 - mv.to.0
    };
    let ddc = if mv.to.1 >= p_pos.1 {
        mv.to.1 - p_pos.1
    } else {
        p_pos.1 - mv.to.1
    };
    let dist_opp = (ddr + ddc) as i32;
    if turn_count <= 6 {
        if dist_opp < 2 {
            score = score - 10;
        } else if 3 <= dist_opp && dist_opp <= 5 {
            score = score + 5;
        }
    } else {
        if dist_opp <= 4 {
            score = score + 3;
        }
    }
    if mv.from.0 != mv.to.0 && mv.from.1 != mv.to.1 {
        score = score + 3;
    }
    if mv.to.0 == mv.to.1 || mv.to.0 + mv.to.1 == 6 {
        score = score + 5;
    }
    score
}

/// Whether the opening book still applies.
pub fn is_opening_phase(turn_count: u8, destroyed_count: u8) -> (r: bool)
    ensures
        r == (turn_count <= 12 && destroyed_count <= 8),
{
    turn_count <= 12 && destroyed_count <= 8
}

/// The opening worth of destroying `t` after the AI lands on `new_cell`:
/// pressure near the opponent, cutting it from the center, removing one of
/// its queen moves, sparing the AI's own queen moves and the center, and
/// preferring edges and corners.
pub open spec fn opening_destroy_score(s: GameState, new_cell: int, t: int) -> int {
    let p = s.player_idx();
    let occ = blocked_all(s) | cell_mask(new_cell);
    let d_player = sdist(t, p);
    let near: int = if d_player == 1 {
        50
    } else if d_player == 2 {
        25
    } else {
        0
    };
    let cut: int = if sdist(t, 24) < sdist(p, 24) && d_player <= 3 {
        30
    } else {
        0
    };
    let restrict: int = if queen_move(occ, p, t) {
        35
    } else {
        0
    };
    let own: int = if queen_move(occ, new_cell, t) {
        -20
    } else {
        0
    };
    let d_new = sdist(t, new_cell);
    let center_keep: int = if 2 <= srow(t) <= 4 && 2 <= scol(t) <= 4 && d_new <= 2 {
        -15
    } else {
        0
    };
    let corner: int = if (srow(t) == 0 || srow(t) == 6) && (scol(t) == 0 || scol(t) == 6) {
        5
    } else {
        0
    };
    let edge: int = if corner == 0 && (srow(t) == 0 || srow(t) == 6 || scol(t) == 0 || scol(t)
        == 6) {
        2
    } else {
        0
    };
    near + cut + restrict + own + center_keep + corner + edge
}

/// A cell the AI may destroy after landing on `new_cell`.
pub open spec fn opening_destroyable(s: GameState, new_cell: int, t: int) -> bool {
    valid_cell(t) && !bit(s.destroyed, t) && t != s.player_idx() && t != s.ai_idx() && t != new_cell
}

/// Picks the destroy cell for an opening move: the destroyable cell of
/// highest worth, lowest cell first on ties, or the corner when nothing is
/// destroyable.
#[verifier::rlimit(100)]
pub fn find_best_opening_destroy(state: &GameState, new_pos: (u8, u8), turn_count: u8) -> (d: (
    u8,
    u8,
))
    requires
        state.wf(),
        new_pos.0 < 7,
        new_pos.1 < 7,
    ensures
        ({
            let nc = scell(new_pos.0 as int, new_pos.1 as int);
            &&& (exists|t: int| #[trigger] opening_destroyable(*state, nc, t)) ==> {
                let dcell = scell(d.0 as int, d.1 as int);
                &&& d.0 < 7 && d.1 < 7
                &&& opening_destroyable(*state, nc, dcell)
                &&& forall|t: int|
                    #[trigger] opening_destroyable(*state, nc, t) ==> opening_destroy_score(
                        *state,
                        nc,
                        t,
                    ) < opening_destroy_score(*state, nc, dcell) || (opening_destroy_score(
                        *state,
                        nc,
                        t,
                    ) == opening_destroy_score(*state, nc, dcell) && dcell <= t)
            }
            &&& !(exists|t: int| #[trigger] opening_destroyable(*state, nc, t)) ==> d == (0u8, 0u8)
        }),
{
    let ghost nc: int = scell(new_pos.0 as int, new_pos.1 as int);
    let p_idx = piece_index(state.player);
    let a_idx = piece_index(state.ai);
    let p_pos = index_to_pos(p_idx);
    let new_idx = crate::bitboard::pos_to_index(new_pos.0, new_pos.1);
    proof {
        lemma_coord_bounds(p_idx as int);
        lemma_coord_bounds(24);
    }
    let new_mask = crate::bitboard::pos_to_mask(new_pos.0, new_pos.1);
    let occupied = state.destroyed | state.player | state.ai | new_mask;
    proof {
        assert(new_mask == cell_mask(nc));
        assert(occupied == blocked_all(*state) | cell_mask(nc));
    }
    let player_moves = get_queen_moves(p_pos.0, p_pos.1, occupied);
    let ai_moves = get_queen_moves(new_pos.0, new_pos.1, occupied);
    let mut found = false;
    let mut best_idx: u8 = 0;
    let mut best_score: i32 = 0;
    let mut t: u8 = 0;
    while t < 49
        invariant
            state.wf(),
            t <= 49,
            nc == scell(new_pos.0 as int, new_pos.1 as int),
            new_pos.0 < 7 && new_pos.1 < 7,
            p_idx as int == state.player_idx(),
            a_idx as int == state.ai_idx(),
            new_idx as int == nc,
            p_pos.0 < 7 && p_pos.1 < 7,
            scell(p_pos.0 as int, p_pos.1 as int) == state.player_idx(),
            occupied == blocked_all(*state) | cell_mask(nc),
            forall|x: int|
                bit(player_moves, x) == queen_move(
                    blocked_all(*state) | cell_mask(nc),
                    state.player_idx(),
                    x,
                ),
            forall|x: int|
                bit(ai_moves, x) == queen_move(blocked_all(*state) | cell_mask(nc), nc, x),
            !found ==> forall|x: int| 0 <= x < t ==> !opening_destroyable(*state, nc, x),
            found ==> best_idx < t && best_idx < 49 && opening_destroyable(
                *state,
                nc,
                best_idx as int,
            ) && best_score == opening_destroy_score(*state, nc, best_idx as int),
            found ==> forall|x: int|
                0 <= x < t && #[trigger] opening_destroyable(*state, nc, x)
                    ==> opening_destroy_score(*state, nc, x) < best_score || (opening_destroy_score(
                    *state,
                    nc,
                    x,
                ) == best_score && best_idx <= x),
        decreases 49 - t,
    {
        let destroyable = !test_bit(state.destroyed, t) && t != p_idx && t != a_idx && t != new_idx;
        proof {
            assert(destroyable == opening_destroyable(*state, nc, t as int));
        }
        if destroyable {
            let tp = index_to_pos(t);
            proof {
                lemma_coord_bounds(t as int);
            }
            let mut score: i32 = 0;
            let d_pl = dist_u8(tp, p_pos);
            if d_pl == 1 {
                score = score + 50;
            } else if d_pl == 2 {
                score = score + 25;
            }
            let t_center = dist_to_center(tp);
            let p_center = dist_to_center(p_pos);
            if t_center < p_center && d_pl <= 3 {
                score = score + 30;
            }
            if test_bit(player_moves, t) {
                score = score + 35;
            }
            if test_bit(ai_moves, t) {
                score = score - 20;
            }
            let d_new = dist_u8(tp, new_pos);
            let is_center = 2 <= tp.0 && tp.0 <= 4 && 2 <= tp.1 && tp.1 <= 4;
            if is_center && d_new <= 2 {
                score = score - 15;
            }
            let is_corner = (tp.0 == 0 || tp.0 == 6) && (tp.1 == 0 || tp.1 == 6);
            let is_edge = tp.0 == 0 || tp.0 == 6 || tp.1 == 0 || tp.1 == 6;
            if is_corner {
                score = score + 5;
            } else if is_edge {
                score = score + 2;
            }
            proof {
                assert(score == opening_destroy_score(*state, nc, t as int));
            }
            if !found || score > best_score {
                found = true;
                best_idx = t;
                best_score = score;
            }
        }
        t = t + 1;
    }
    if found {
        proof {
            lemma_coord_bounds(best_idx as int);
        }
        index_to_pos(best_idx)
    } else {
        (0, 0)
    }
}

/// Manhattan distance between two board positions.
fn dist_u8(a: (u8, u8), b: (u8, u8)) -> (d: i32)
    requires
        a.0 < 7,
        a.1 < 7,
        b.0 < 7,
        b.1 < 7,
    ensures
        d == sdist(scell(a.0 as int, a.1 as int), scell(b.0 as int, b.1 as int)),
        0 <= d <= 12,
{
    proof {
        lemma_cell_coords(a.0 as int, a.1 as int);
        lemma_cell_coords(b.0 as int, b.1 as int);
    }
    let dr = if a.0 >= b.0 {
        a.0 - b.0
    } else {
        b.0 - a.0
    };
    let dc = if a.1 >= b.1 {
        a.1 - b.1
    } else {
        b.1 - a.1
    };
    (dr as i32) + (dc as i32)
}

/// Manhattan distance of a position to the center cell.
fn dist_to_center(a: (u8, u8)) -> (d: i32)
    requires
        a.0 < 7,
        a.1 < 7,
    ensures
        d == sdist(scell(a.0 as int, a.1 as int), 24),
        0 <= d <= 6,
{
    proof {
        lemma_cell_coords(a.0 as int, a.1 as int);
        lemma_coord_bounds(24);
    }
    let dr = if a.0 >= 3 {
        a.0 - 3
    } else {
        3 - a.0
    };
    let dc = if a.1 >= 3 {
        a.1 - 3
    } else {
        3 - a.1
    };
    (dr as i32) + (dc as i32)
}

/// The opening worth of the AI sliding to cell `t`.
pub open spec fn opening_target_score(s: GameState, t: int, turn_count: int) -> int {
    opening_move_score(
        s,
        Move {
            from: (srow(s.ai_idx()) as u8, scol(s.ai_idx()) as u8),
            to: (srow(t) as u8, scol(t) as u8),
            destroy: (0u8, 0u8),
            score: 0i32,
        },
        turn_count,
    )
}

/// The opening move for the AI: the slide of highest opening worth — lowest
/// target cell on ties — paired with the best opening destroy, or nothing
/// past the book's reach or without a legal slide.
pub fn get_opening_move(state: &GameState, turn_count: u8) -> (r: Option<Move>)
    requires
        state.wf(),
    ensures
        r is Some ==> turn_count <= 16,
        r is Some ==> {
            let mv = r->0;
            &&& mv.to.0 < 7 && mv.to.1 < 7
            &&& slide_ok(*state, true, scell(mv.to.0 as int, mv.to.1 as int))
        },
        turn_count <= 16 && (exists|t: int| #[trigger] slide_ok(*state, true, t)) ==> r is Some,
        r is Some ==> ({
            let tc = scell(r->0.to.0 as int, r->0.to.1 as int);
            forall|t: int|
                #[trigger] slide_ok(*state, true, t) ==> opening_target_score(
                    *state,
                    t,
                    turn_count as int,
                ) < opening_target_score(*state, tc, turn_count as int) || (opening_target_score(
                    *state,
                    t,
                    turn_count as int,
                ) == opening_target_score(*state, tc, turn_count as int) && tc <= t)
        }),
        r is Some ==> ({
            let mv = r->0;
            let nc = scell(mv.to.0 as int, mv.to.1 as int);
            &&& (exists|dt: int| #[trigger] opening_destroyable(*state, nc, dt)) ==> {
                let dcell = scell(mv.destroy.0 as int, mv.destroy.1 as int);
                &&& mv.destroy.0 < 7 && mv.destroy.1 < 7
                &&& opening_destroyable(*state, nc, dcell)
                &&& forall|dt: int|
                    #[trigger] opening_destroyable(*state, nc, dt) ==> opening_destroy_score(
                        *state,
                        nc,
                        dt,
                    ) < opening_destroy_score(*state, nc, dcell) || (opening_destroy_score(
                        *state,
                        nc,
                        dt,
                    ) == opening_destroy_score(*state, nc, dcell) && dcell <= dt)
            }
            &&& !(exists|dt: int| #[trigger] opening_destroyable(*state, nc, dt)) ==> mv.destroy
                == (0u8, 0u8)
        }),
{
    if turn_count > 16 {
        return None;
    }
    let moves = state.get_valid_moves(true);
    if moves.len() == 0 {
        proof {
            if exists|t: int| #[trigger] slide_ok(*state, true, t) {
                let t = choose|t: int| #[trigger] slide_ok(*state, true, t);
                assert(false);
            }
        }
        return None;
    }
    let mut best_pos: usize = 0;
    let mut best_score = evaluate_opening_move(state, &moves[0], turn_count);
    let mut i: usize = 1;
    while i < moves.len()
        invariant
            state.wf(),
            moves.len() >= 1,
            i <= moves@.len(),
            best_pos < moves@.len(),
            forall|j: int|
                0 <= j < moves@.len() ==> (#[trigger] moves@[j]).to.0 < 7 && moves@[j].to.1 < 7
                    && moves@[j].from.0 < 7 && moves@[j].from.1 < 7 && slide_ok(
                    *state,
                    true,
                    scell(moves@[j].to.0 as int, moves@[j].to.1 as int),
                ),
            best_score == opening_move_score(*state, moves@[best_pos as int], turn_count as int),
            1 <= i,
            best_pos < i,
            forall|j: int|
                0 <= j < i ==> opening_move_score(*state, #[trigger] moves@[j], turn_count as int)
                    <= best_score,
            forall|j: int|
                0 <= j < best_pos ==> opening_move_score(
                    *state,
                    #[trigger] moves@[j],
                    turn_count as int,
                ) < best_score,
        decreases moves@.len() - i,
    {
        let sc = evaluate_opening_move(state, &moves[i], turn_count);
        if sc > best_score {
            best_score = sc;
            best_pos = i;
        }
        i = i + 1;
    }
    let chosen = moves[best_pos];
    proof {
        let tc = scell(chosen.to.0 as int, chosen.to.1 as int);
        lemma_cell_coords(chosen.to.0 as int, chosen.to.1 as int);
        lemma_coord_bounds(tc);
        assert(opening_target_score(*state, tc, turn_count as int) == best_score);
        assert forall|t: int| #[trigger] slide_ok(*state, true, t) implies opening_target_score(
            *state,
            t,
            turn_count as int,
        ) < best_score || (opening_target_score(*state, t, turn_count as int) == best_score && tc
            <= t) by {
            let j = choose|j: int|
                0 <= j < moves@.len() && scell(
                    (#[trigger] moves@[j]).to.0 as int,
                    moves@[j].to.1 as int,
                ) == t;
            lemma_coord_bounds(t);
            lemma_cell_coords(moves@[j].to.0 as int, moves@[j].to.1 as int);
            assert(opening_target_score(*state, t, turn_count as int) == opening_move_score(
                *state,
                moves@[j],
                turn_count as int,
            ));
            if opening_target_score(*state, t, turn_count as int) == best_score {
                if j < best_pos {
                    assert(false);
                } else if j > best_pos {
                    assert(tc < t);
                }
            }
        }
    }
    let destroy = find_best_opening_destroy(state, chosen.to, turn_count);
    Some(Move { from: chosen.from, to: chosen.to, destroy, score: best_score })
}

} // verus!
