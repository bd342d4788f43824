//! Game state for the 7 x 7 queen-move game.
//!
//! A state holds three bitboards: the player's piece, the AI's piece and the
//! destroyed cells.  A well-formed state has exactly one bit per piece, on the
//! board, pairwise disjoint from the destroyed set.

use vstd::prelude::*;
use crate::bitboard::{
    bit, scell, srow, scol, valid_cell, queen_move, pos_to_index, index_to_pos, pos_to_mask,
    test_bit, get_queen_moves, safe_get_position_index, lemma_bit_single, lemma_bit_or,
    lemma_bit_zero, lemma_coord_bounds, BOARD_SIZE,
};
use crate::partition::cell_mask;

verus! {

/// `m` holds exactly one piece, on some board cell.
pub open spec fn is_single_cell(m: u64) -> bool {
    exists|i: int| valid_cell(i) && m == #[trigger] cell_mask(i)
}

/// The cell of a single-piece mask.
pub open spec fn piece_cell(m: u64) -> int {
    choose|i: int| valid_cell(i) && m == #[trigger] cell_mask(i)
}

/// Equal single-cell masks hold the same cell.
pub proof fn lemma_cell_mask_injective(i: int, j: int)
    requires
        valid_cell(i),
        valid_cell(j),
        cell_mask(i) == cell_mask(j),
    ensures
        i == j,
{
    lemma_bit_single(i as u64);
    lemma_bit_single(j as u64);
    assert(bit(cell_mask(i), i));
    assert(bit(cell_mask(j), i));
}

/// The piece cell of a well-formed mask is its one cell.
pub proof fn lemma_piece_cell(m: u64, i: int)
    requires
        valid_cell(i),
        m == cell_mask(i),
    ensures
        piece_cell(m) == i,
        forall|t: int| bit(m, t) == (t == i),
{
    let j = choose|j: int| valid_cell(j) && m == #[trigger] cell_mask(j);
    lemma_cell_mask_injective(i, j);
    lemma_bit_single(i as u64);
}

#[derive(Clone, Copy, Debug)]
pub struct GameState {
    pub player: u64,
    pub ai: u64,
    pub destroyed: u64,
}

#[derive(Clone, Copy, Debug)]
pub struct Move {
    pub from: (u8, u8),
    pub to: (u8, u8),
    pub destroy: (u8, u8),
    pub score: i32,
}

/// `t` is a legal slide target for one side: a queen move over the destroyed
/// cells and the opposing piece.
pub open spec fn slide_ok(s: GameState, is_ai: bool, t: int) -> bool {
    queen_move(
        s.destroyed | (if is_ai {
            s.player
        } else {
            s.ai
        }),
        if is_ai {
            s.ai_idx()
        } else {
            s.player_idx()
        },
        t,
    )
}

impl GameState {
    /// The player piece's cell.
    pub open spec fn player_idx(self) -> int {
        piece_cell(self.player)
    }

    /// The AI piece's cell.
    pub open spec fn ai_idx(self) -> int {
        piece_cell(self.ai)
    }

    /// Well-formedness: one piece each on distinct board cells, the destroyed
    /// set on the board and apart from both pieces.
    pub open spec fn wf(self) -> bool {
        &&& is_single_cell(self.player)
        &&& is_single_cell(self.ai)
        &&& self.player_idx() != self.ai_idx()
        &&& !bit(self.destroyed, self.player_idx())
        &&& !bit(self.destroyed, self.ai_idx())
        &&& forall|t: int| #[trigger] bit(self.destroyed, t) ==> valid_cell(t)
    }

    /// The default starting position: player in one corner, AI in the other.
    pub fn new() -> (s: GameState)
        ensures
            s.player == 1u64 << 0u64,
            s.ai == 1u64 << 48u64,
            s.destroyed == 0,
            s.wf(),
            s.player_idx() == 0,
            s.ai_idx() == 48,
    {
        let s = GameState { player: 1u64 << 0u64, ai: 1u64 << 48u64, destroyed: 0 };
        proof {
            lemma_bit_zero();
            assert(s.player == cell_mask(0) && s.ai == cell_mask(48));
            lemma_piece_cell(s.player, 0);
            lemma_piece_cell(s.ai, 48);
        }
        s
    }

    /// Builds a state from raw coordinates and a flat destroyed list.
    ///
    /// Out-of-range piece coordinates are clamped to the board edge; a
    /// destroyed pair off the board is ignored; a destroyed cell under a
    /// piece is dropped; and an AI piece on the player's cell is moved to a
    /// default corner, so that the result is always well formed.
    pub fn from_raw(player_r: u8, player_c: u8, ai_r: u8, ai_c: u8, destroyed: &[u8]) -> (s:
        GameState)
        ensures
            s.wf(),
            s.player_idx() == scell(min_coord(player_r), min_coord(player_c)),
            scell(min_coord(ai_r), min_coord(ai_c)) != s.player_idx() ==> s.ai_idx() == scell(
                min_coord(ai_r),
                min_coord(ai_c),
            ),
            forall|t: int|
                #[trigger] bit(s.destroyed, t) == (raw_pair_cell(destroyed@, t) && t
                    != s.player_idx() && t != s.ai_idx()),
    {
        let pr = clamp_coord(player_r);
        let pc = clamp_coord(player_c);
        let ar = clamp_coord(ai_r);
        let ac = clamp_coord(ai_c);
        let player = pos_to_mask(pr, pc);
        let mut ai = pos_to_mask(ar, ac);
        let ghost p: int = scell(pr as int, pc as int);
        proof {
            assert(player == cell_mask(p));
            lemma_piece_cell(player, p);
        }
        if ai == player {
            proof {
                assert(ai == cell_mask(scell(ar as int, ac as int)));
                lemma_cell_mask_injective(scell(ar as int, ac as int), p);
            }
            if pr == 6 && pc == 6 {
                ai = 1u64 << 0u64;
                proof {
                    assert(ai == cell_mask(0));
                    lemma_piece_cell(ai, 0);
                }
            } else {
                ai = 1u64 << 48u64;
                proof {
                    assert(ai == cell_mask(48));
                    lemma_piece_cell(ai, 48);
                    if p == 48 {
                        lemma_coord_bounds(48);
                        crate::bitboard::lemma_cell_coords(pr as int, pc as int);
                        assert(false);
                    }
                }
            }
        } else {
            proof {
                lemma_piece_cell(ai, scell(ar as int, ac as int));
                if p == scell(ar as int, ac as int) {
                    assert(ai == player);
                }
            }
        }
        let ghost a: int = piece_cell(ai);
        proof {
            assert(valid_cell(a) && ai == cell_mask(a));
            assert(is_single_cell(ai));
        }

        let mut d_mask: u64 = 0;
        let mut k: usize = 0;
        proof {
            lemma_bit_zero();
        }
        while k + 1 < destroyed.len()
            invariant
                k % 2 == 0,
                k <= destroyed.len() + 1,
                forall|t: int|
                    #[trigger] bit(d_mask, t) == exists|j: int|
                        0 <= j && 2 * j + 1 < k && #[trigger] pair_cell_at(destroyed@, j, t),
            decreases destroyed.len() - k,
        {
            let r = destroyed[k];
            let c = destroyed[k + 1];
            let m = pos_to_mask(r, c);
            let ghost d_old = d_mask;
            proof {
                lemma_bit_zero();
                lemma_bit_or(d_mask, m);
            }
            d_mask = d_mask | m;
            proof {
                assert forall|t: int|
                    #[trigger] bit(d_mask, t) == exists|j: int|
                        0 <= j && 2 * j + 1 < k + 2 && #[trigger] pair_cell_at(
                            destroyed@,
                            j,
                            t,
                        ) by {
                    if bit(d_mask, t) {
                        if bit(d_old, t) {
                            let j = choose|j: int|
                                0 <= j && 2 * j + 1 < k && #[trigger] pair_cell_at(
                                    destroyed@,
                                    j,
                                    t,
                                );
                            assert(2 * j + 1 < k + 2 && pair_cell_at(destroyed@, j, t));
                        } else {
                            assert(bit(m, t));
                            if r >= 7 || c >= 7 {
                                assert(!bit(0u64, t));
                                assert(false);
                            }
                            assert(r < 7 && c < 7 && t == scell(r as int, c as int));
                            assert(pair_cell_at(destroyed@, k as int / 2, t));
                            assert(2 * (k as int / 2) + 1 < k + 2);
                        }
                    }
                    if exists|j: int|
                        0 <= j && 2 * j + 1 < k + 2 && #[trigger] pair_cell_at(destroyed@, j, t) {
                        let j = choose|j: int|
                            0 <= j && 2 * j + 1 < k + 2 && #[trigger] pair_cell_at(
                                destroyed@,
                                j,
                                t,
                            );
                        if 2 * j + 1 < k {
                            assert(bit(d_old, t));
                        } else {
                            assert(j == k as int / 2);
                            assert(bit(m, t));
                        }
                        assert(bit(d_mask, t));
                    }
                }
            }
            k = k + 2;
        }
        proof {
            lemma_bit_single((p as u64));
            lemma_bit_single((a as u64));
        }
        let not_pieces = !(player | ai);
        let d_final = d_mask & not_pieces;
        let s = GameState { player, ai, destroyed: d_final };
        proof {
            crate::bitboard::lemma_bit_not(player | ai);
            lemma_bit_or(player, ai);
            crate::bitboard::lemma_bit_and(d_mask, not_pieces);
            lemma_piece_cell(player, p);
            lemma_piece_cell(ai, a);
            assert forall|t: int|
                #[trigger] bit(s.destroyed, t) == (raw_pair_cell(destroyed@, t) && t != p && t
                    != a) by {
                if bit(s.destroyed, t) {
                    assert(bit(d_mask, t));
                }
                if raw_pair_cell(destroyed@, t) && t != p && t != a {
                    let j = choose|j: int| #[trigger] pair_cell_at(destroyed@, j, t);
                    assert(2 * j + 1 < destroyed@.len());
                    assert(2 * j + 1 <= k);
                    assert(2 * j + 1 != k);
                    assert(bit(d_mask, t));
                }
            }
            assert forall|t: int| #[trigger] bit(s.destroyed, t) implies valid_cell(t) by {
                let j = choose|j: int| #[trigger] pair_cell_at(destroyed@, j, t);
            }
        }
        s
    }

    /// All slide moves of one side: queen moves over cells blocked by the
    /// destroyed set and the opposing piece.  Each returned move carries the
    /// mover's position, a distinct target, a placeholder destroy cell and a
    /// zero score; every legal target appears exactly once, in cell order.
    pub fn get_valid_moves(&self, is_ai: bool) -> (moves: Vec<Move>)
        requires
            self.wf(),
        ensures
            ({
                let me = if is_ai {
                    self.ai_idx()
                } else {
                    self.player_idx()
                };
                &&& forall|j: int|
                    0 <= j < moves.len() ==> (#[trigger] moves[j]).from.0 == srow(me)
                        && moves[j].from.1 == scol(me) && moves[j].to.0 < 7 && moves[j].to.1 < 7
                        && slide_ok(*self, is_ai, scell(moves[j].to.0 as int, moves[j].to.1 as int))
                        && moves[j].destroy == (0u8, 0u8) && moves[j].score == 0
                &&& forall|t: int|
                    #[trigger] slide_ok(*self, is_ai, t) ==> exists|j: int|
                        0 <= j < moves.len() && scell(
                            (#[trigger] moves[j]).to.0 as int,
                            moves[j].to.1 as int,
                        ) == t
                &&& forall|j1: int, j2: int|
                    0 <= j1 < j2 < moves.len() ==> scell(
                        (#[trigger] moves[j1]).to.0 as int,
                        moves[j1].to.1 as int,
                    ) < scell((#[trigger] moves[j2]).to.0 as int, moves[j2].to.1 as int)
            }),
    {
        let (my_mask, opp_mask) = if is_ai {
            (self.ai, self.player)
        } else {
            (self.player, self.ai)
        };
        let ghost me: int = if is_ai {
            self.ai_idx()
        } else {
            self.player_idx()
        };
        let blocked = self.destroyed | opp_mask;
        proof {
            let i = choose|i: int| valid_cell(i) && my_mask == #[trigger] cell_mask(i);
            lemma_piece_cell(my_mask, i);
            lemma_coord_bounds(me);
        }
        let my_idx = match safe_get_position_index(my_mask) {
            Some(i) => i,
            None => {
                proof {
                    assert(bit(my_mask, me));
                    assert(false);
                }
                0
            },
        };
        proof {
            assert(my_idx as int == me);
        }
        let rc = index_to_pos(my_idx);
        let move_mask = get_queen_moves(rc.0, rc.1, blocked);
        let mut moves: Vec<Move> = Vec::new();
        let mut i: u8 = 0;
        while i < 49
            invariant
                i <= 49,
                valid_cell(me),
                rc.0 == srow(me) && rc.1 == scol(me),
                forall|t: int| bit(move_mask, t) == queen_move(blocked, me, t),
                forall|j: int|
                    0 <= j < moves.len() ==> (#[trigger] moves[j]).from.0 == srow(me)
                        && moves[j].from.1 == scol(me) && moves[j].to.0 < 7 && moves[j].to.1 < 7
                        && queen_move(blocked, me, scell(moves[j].to.0 as int, moves[j].to.1 as int))
                        && moves[j].destroy == (0u8, 0u8) && moves[j].score == 0 && scell(
                        moves[j].to.0 as int,
                        moves[j].to.1 as int,
                    ) < i,
                forall|t: int|
                    0 <= t < i && #[trigger] queen_move(blocked, me, t) ==> exists|j: int|
                        0 <= j < moves.len() && scell(
                            (#[trigger] moves[j]).to.0 as int,
                            moves[j].to.1 as int,
                        ) == t,
                forall|j1: int, j2: int|
                    0 <= j1 < j2 < moves.len() ==> scell(
                        (#[trigger] moves[j1]).to.0 as int,
                        moves[j1].to.1 as int,
                    ) < scell((#[trigger] moves[j2]).to.0 as int, moves[j2].to.1 as int),
            decreases 49 - i,
        {
            if test_bit(move_mask, i) {
                let to = index_to_pos(i);
                let mv = Move { from: (rc.0, rc.1), to, destroy: (0u8, 0u8), score: 0 };
                let ghost old_moves = moves@;
                moves.push(mv);
                proof {
                    assert(scell(to.0 as int, to.1 as int) == i as int);
                    assert forall|t: int|
                        0 <= t < i + 1 && #[trigger] queen_move(blocked, me, t) implies exists|
                        j: int,
                    |
                        0 <= j < moves.len() && scell(
                            (#[trigger] moves[j]).to.0 as int,
                            moves[j].to.1 as int,
                        ) == t by {
                        if t < i as int {
                            let j = choose|j: int|
                                0 <= j < old_moves.len() && scell(
                                    (#[trigger] old_moves[j]).to.0 as int,
                                    old_moves[j].to.1 as int,
                                ) == t;
                            assert(moves[j] == old_moves[j]);
                            assert(scell((moves[j]).to.0 as int, moves[j].to.1 as int) == t);
                        } else {
                            let j = moves.len() - 1;
                            assert(scell((moves[j as int]).to.0 as int, moves[j as int].to.1 as int)
                                == t);
                        }
                    }
                }
            }
            i = i + 1;
        }
        proof {
            assert forall|t: int| #[trigger] queen_move(blocked, me, t) implies exists|j: int|
                0 <= j < moves.len() && scell(
                    (#[trigger] moves[j]).to.0 as int,
                    moves[j].to.1 as int,
                ) == t by {
                crate::bitboard::lemma_queen_move_valid(blocked, me, t);
            }
        }
        moves
    }
}

/// The board cell of a well-formed piece mask.
pub fn piece_index(m: u64) -> (i: u8)
    requires
        is_single_cell(m),
    ensures
        i as int == piece_cell(m),
        i < 49,
{
    let ghost c: int = piece_cell(m);
    proof {
        let w = choose|w: int| valid_cell(w) && m == #[trigger] cell_mask(w);
        lemma_piece_cell(m, w);
    }
    match safe_get_position_index(m) {
        Some(i) => {
            proof {
                assert(bit(m, c));
                if (i as int) < c {
                    assert(!bit(m, i as int));
                    assert(false);
                }
            }
            i
        },
        None => {
            proof {
                assert(bit(m, c));
                assert(false);
            }
            0
        },
    }
}

/// A coordinate clamped to the board edge, as the specification sees it.
pub open spec fn min_coord(x: u8) -> int {
    if x < 7 {
        x as int
    } else {
        6
    }
}

/// Clamps a coordinate onto the board.
fn clamp_coord(x: u8) -> (r: u8)
    ensures
        r as int == min_coord(x),
        r < 7,
{
    if x >= BOARD_SIZE {
        BOARD_SIZE - 1
    } else {
        x
    }
}

/// Pair `j` of the flat destroyed list names board cell `t`.
pub open spec fn pair_cell_at(s: Seq<u8>, j: int, t: int) -> bool {
    0 <= j && 2 * j + 1 < s.len() && s[2 * j] < 7 && s[2 * j + 1] < 7 && t == scell(
        s[2 * j] as int,
        s[2 * j + 1] as int,
    )
}

/// Some pair of the flat destroyed list names board cell `t`.
pub open spec fn raw_pair_cell(s: Seq<u8>, t: int) -> bool {
    exists|j: int| #[trigger] pair_cell_at(s, j, t)
}

} // verus!
