//! Bitboard primitives for the 7 x 7 queen-move game.
//!
//! The board is stored in the low 49 bits of a `u64`: bit `r * 7 + c` is the
//! cell in row `r`, column `c`.  The specification layer describes a board as
//! the set of its one bits (`bit`), and queen moves as rays over row/column
//! coordinates (`queen_move`), so that every function here can state exactly
//! which cells it returns.

use vstd::prelude::*;

verus! {

pub const BOARD_SIZE: u8 = 7;
pub const CELL_COUNT: u8 = 49;

/// Mask of the 49 board cells.
pub const BOARD_MASK: u64 = 0x1_FFFF_FFFF_FFFF;

/// Bit `i` of `bb`, for a `u64` index.
pub open spec fn bit64(bb: u64, i: u64) -> bool {
    i < 64 && (bb >> i) & 1u64 == 1u64
}

/// Bit `i` of `bb`: the cell `i` is present in the board set `bb`.
pub open spec fn bit(bb: u64, i: int) -> bool {
    0 <= i < 64 && bit64(bb, i as u64)
}

pub open spec fn srow(i: int) -> int {
    i / 7
}

pub open spec fn scol(i: int) -> int {
    i % 7
}

pub open spec fn scell(r: int, c: int) -> int {
    r * 7 + c
}

pub open spec fn valid_cell(i: int) -> bool {
    0 <= i < 49
}

/// A queen direction: one of the eight unit steps.
pub open spec fn is_dir(dr: int, dc: int) -> bool {
    -1 <= dr <= 1 && -1 <= dc <= 1 && !(dr == 0 && dc == 0)
}

/// The cell reached from `s` after `k` steps in direction `(dr, dc)`.
pub open spec fn ray_cell(s: int, dr: int, dc: int, k: int) -> int {
    scell(srow(s) + k * dr, scol(s) + k * dc)
}

/// Whether the step `k` of the ray stays on the board.
pub open spec fn ray_on_board(s: int, dr: int, dc: int, k: int) -> bool {
    0 <= srow(s) + k * dr < 7 && 0 <= scol(s) + k * dc < 7
}

/// Steps `1..=k` of the ray from `s` are on the board and unblocked.
pub open spec fn ray_clear(blocked: u64, s: int, dr: int, dc: int, k: int) -> bool
    decreases k,
{
    k <= 0 || (ray_clear(blocked, s, dr, dc, k - 1) && ray_on_board(s, dr, dc, k) && !bit(
        blocked,
        ray_cell(s, dr, dc, k),
    ))
}

/// A clear ray stays clear over any shorter length.
pub proof fn lemma_ray_clear_prefix(blocked: u64, s: int, dr: int, dc: int, j: int, k: int)
    requires
        k <= j,
        ray_clear(blocked, s, dr, dc, j),
    ensures
        ray_clear(blocked, s, dr, dc, k),
    decreases j,
{
    if k < j && j > 0 {
        lemma_ray_clear_prefix(blocked, s, dr, dc, j - 1, k);
    }
}

/// Every step of a clear ray is on the board and unblocked.
pub proof fn lemma_ray_clear_at(blocked: u64, s: int, dr: int, dc: int, j: int, k: int)
    requires
        1 <= k <= j,
        ray_clear(blocked, s, dr, dc, j),
    ensures
        ray_on_board(s, dr, dc, k),
        !bit(blocked, ray_cell(s, dr, dc, k)),
{
    lemma_ray_clear_prefix(blocked, s, dr, dc, j, k);
}

/// `t` is reached from `s` by sliding `k >= 1` steps in direction `(dr, dc)`
/// without leaving the board or crossing a blocked cell.
pub open spec fn dir_move(blocked: u64, s: int, dr: int, dc: int, t: int) -> bool {
    exists|k: int| 1 <= k && #[trigger] ray_cell(s, dr, dc, k) == t && ray_clear(blocked, s, dr, dc, k)
}

/// `t` is one legal queen move away from `s`, given the blocked cells.
pub open spec fn queen_move(blocked: u64, s: int, t: int) -> bool {
    exists|dr: int, dc: int| #[trigger] is_dir(dr, dc) && dir_move(blocked, s, dr, dc, t)
}

/// `t` is reachable from `s` in at most `n` queen moves.
pub open spec fn reach_n(blocked: u64, s: int, t: int, n: nat) -> bool
    decreases n,
{
    if n == 0 {
        t == s
    } else {
        reach_n(blocked, s, t, (n - 1) as nat) || exists|m: int|
            reach_n(blocked, s, m, (n - 1) as nat) && #[trigger] queen_move(blocked, m, t)
    }
}

/// `t` is reachable from `s` by some sequence of queen moves.
pub open spec fn reaches(blocked: u64, s: int, t: int) -> bool {
    exists|n: nat| #[trigger] reach_n(blocked, s, t, n)
}

/// The word of all queen-move targets from `s`, assembled cell by cell
/// below `n`.
pub open spec fn queen_mask_below(blocked: u64, s: int, n: int) -> u64
    decreases n,
{
    if n <= 0 {
        0u64
    } else {
        queen_mask_below(blocked, s, n - 1) | (if queen_move(blocked, s, n - 1) {
            1u64 << ((n - 1) as u64)
        } else {
            0u64
        })
    }
}

/// The word of all queen-move targets from `s`.
pub open spec fn queen_mask(blocked: u64, s: int) -> u64 {
    queen_mask_below(blocked, s, 64)
}

/// The assembled word holds exactly the queen moves scanned so far.
pub proof fn lemma_queen_mask_below(blocked: u64, s: int, n: int, x: int)
    requires
        0 <= n <= 64,
    ensures
        bit(queen_mask_below(blocked, s, n), x) == (0 <= x < n && queen_move(blocked, s, x)),
    decreases n,
{
    if n > 0 {
        lemma_queen_mask_below(blocked, s, n - 1, x);
        let rest = queen_mask_below(blocked, s, n - 1);
        let one = if queen_move(blocked, s, n - 1) {
            1u64 << ((n - 1) as u64)
        } else {
            0u64
        };
        assert(queen_mask_below(blocked, s, n) == rest | one);
        lemma_bit_or(rest, one);
        lemma_bit_single((n - 1) as u64);
        lemma_bit_zero();
        if 0 <= x < 64 {
            assert(bit(rest | one, x) == (bit(rest, x) || bit(one, x)));
        }
    } else {
        assert(queen_mask_below(blocked, s, n) == 0u64);
        lemma_bit_zero();
    }
}

/// A word whose bits are exactly the queen moves from `s` is the queen mask.
pub proof fn lemma_queen_mask_is(blocked: u64, s: int, m: u64)
    requires
        forall|x: int| #[trigger] bit(m, x) == queen_move(blocked, s, x),
    ensures
        m == queen_mask(blocked, s),
{
    assert forall|i: u64| i < 64 implies #[trigger] bit64(m, i) == bit64(
        queen_mask(blocked, s),
        i,
    ) by {
        lemma_queen_mask_below(blocked, s, 64, i as int);
        assert(bit(m, i as int) == queen_move(blocked, s, i as int));
    }
    lemma_bit_ext(m, queen_mask(blocked, s));
}

/// Number of one bits among the low `n` bits of `bb`.
pub open spec fn pop_below(bb: u64, n: int) -> nat
    decreases n,
{
    if n <= 0 {
        0
    } else {
        pop_below(bb, n - 1) + (if bit(bb, n - 1) {
            1nat
        } else {
            0nat
        })
    }
}

/// Number of one bits of `bb`.
pub open spec fn pop(bb: u64) -> nat {
    pop_below(bb, 64)
}

pub proof fn lemma_bit_or(a: u64, b: u64)
    by (bit_vector)
    ensures
        forall|i: u64| #[trigger] bit64(a | b, i) == (bit64(a, i) || bit64(b, i)),
{
}

pub proof fn lemma_bit_and(a: u64, b: u64)
    by (bit_vector)
    ensures
        forall|i: u64| #[trigger] bit64(a & b, i) == (bit64(a, i) && bit64(b, i)),
{
}

pub proof fn lemma_bit_not(a: u64)
    by (bit_vector)
    ensures
        forall|i: u64| i < 64 ==> #[trigger] bit64(!a, i) == !bit64(a, i),
{
}

/// Bit `i` of `a` and of `b` agree, as one shift comparison.
pub open spec fn eq_at(a: u64, b: u64, i: u64) -> bool {
    ((a >> i) & 1u64) == ((b >> i) & 1u64)
}

/// Words that agree on every bit are equal.
pub proof fn lemma_bit_ext(a: u64, b: u64)
    requires
        forall|i: u64| i < 64 ==> #[trigger] bit64(a, i) == bit64(b, i),
    ensures
        a == b,
{
    assert forall|i: u64| i < 64 implies eq_at(a, b, i) by {
        assert((a >> i) & 1u64 == 0 || (a >> i) & 1u64 == 1) by (bit_vector);
        assert((b >> i) & 1u64 == 0 || (b >> i) & 1u64 == 1) by (bit_vector);
        assert(bit64(a, i) == bit64(b, i));
    }
    assert(eq_at(a, b, 0));
    assert(eq_at(a, b, 1));
    assert(eq_at(a, b, 2));
    assert(eq_at(a, b, 3));
    assert(eq_at(a, b, 4));
    assert(eq_at(a, b, 5));
    assert(eq_at(a, b, 6));
    assert(eq_at(a, b, 7));
    assert(eq_at(a, b, 8));
    assert(eq_at(a, b, 9));
    assert(eq_at(a, b, 10));
    assert(eq_at(a, b, 11));
    assert(eq_at(a, b, 12));
    assert(eq_at(a, b, 13));
    assert(eq_at(a, b, 14));
    assert(eq_at(a, b, 15));
    assert(eq_at(a, b, 16));
    assert(eq_at(a, b, 17));
    assert(eq_at(a, b, 18));
    assert(eq_at(a, b, 19));
    assert(eq_at(a, b, 20));
    assert(eq_at(a, b, 21));
    assert(eq_at(a, b, 22));
    assert(eq_at(a, b, 23));
    assert(eq_at(a, b, 24));
    assert(eq_at(a, b, 25));
    assert(eq_at(a, b, 26));
    assert(eq_at(a, b, 27));
    assert(eq_at(a, b, 28));
    assert(eq_at(a, b, 29));
    assert(eq_at(a, b, 30));
    assert(eq_at(a, b, 31));
    assert(eq_at(a, b, 32));
    assert(eq_at(a, b, 33));
    assert(eq_at(a, b, 34));
    assert(eq_at(a, b, 35));
    assert(eq_at(a, b, 36));
    assert(eq_at(a, b, 37));
    assert(eq_at(a, b, 38));
    assert(eq_at(a, b, 39));
    assert(eq_at(a, b, 40));
    assert(eq_at(a, b, 41));
    assert(eq_at(a, b, 42));
    assert(eq_at(a, b, 43));
    assert(eq_at(a, b, 44));
    assert(eq_at(a, b, 45));
    assert(eq_at(a, b, 46));
    assert(eq_at(a, b, 47));
    assert(eq_at(a, b, 48));
    assert(eq_at(a, b, 49));
    assert(eq_at(a, b, 50));
    assert(eq_at(a, b, 51));
    assert(eq_at(a, b, 52));
    assert(eq_at(a, b, 53));
    assert(eq_at(a, b, 54));
    assert(eq_at(a, b, 55));
    assert(eq_at(a, b, 56));
    assert(eq_at(a, b, 57));
    assert(eq_at(a, b, 58));
    assert(eq_at(a, b, 59));
    assert(eq_at(a, b, 60));
    assert(eq_at(a, b, 61));
    assert(eq_at(a, b, 62));
    assert(eq_at(a, b, 63));
    assert(a == b) by (bit_vector)
        requires
            eq_at(a, b, 0),
            eq_at(a, b, 1),
            eq_at(a, b, 2),
            eq_at(a, b, 3),
            eq_at(a, b, 4),
            eq_at(a, b, 5),
            eq_at(a, b, 6),
            eq_at(a, b, 7),
            eq_at(a, b, 8),
            eq_at(a, b, 9),
            eq_at(a, b, 10),
            eq_at(a, b, 11),
            eq_at(a, b, 12),
            eq_at(a, b, 13),
            eq_at(a, b, 14),
            eq_at(a, b, 15),
            eq_at(a, b, 16),
            eq_at(a, b, 17),
            eq_at(a, b, 18),
            eq_at(a, b, 19),
            eq_at(a, b, 20),
            eq_at(a, b, 21),
            eq_at(a, b, 22),
            eq_at(a, b, 23),
            eq_at(a, b, 24),
            eq_at(a, b, 25),
            eq_at(a, b, 26),
            eq_at(a, b, 27),
            eq_at(a, b, 28),
            eq_at(a, b, 29),
            eq_at(a, b, 30),
            eq_at(a, b, 31),
            eq_at(a, b, 32),
            eq_at(a, b, 33),
            eq_at(a, b, 34),
            eq_at(a, b, 35),
            eq_at(a, b, 36),
            eq_at(a, b, 37),
            eq_at(a, b, 38),
            eq_at(a, b, 39),
            eq_at(a, b, 40),
            eq_at(a, b, 41),
            eq_at(a, b, 42),
            eq_at(a, b, 43),
            eq_at(a, b, 44),
            eq_at(a, b, 45),
            eq_at(a, b, 46),
            eq_at(a, b, 47),
            eq_at(a, b, 48),
            eq_at(a, b, 49),
            eq_at(a, b, 50),
            eq_at(a, b, 51),
            eq_at(a, b, 52),
            eq_at(a, b, 53),
            eq_at(a, b, 54),
            eq_at(a, b, 55),
            eq_at(a, b, 56),
            eq_at(a, b, 57),
            eq_at(a, b, 58),
            eq_at(a, b, 59),
            eq_at(a, b, 60),
            eq_at(a, b, 61),
            eq_at(a, b, 62),
            eq_at(a, b, 63),
    ;
}

pub proof fn lemma_bit_single(j: u64)
    by (bit_vector)
    requires
        j < 64,
    ensures
        forall|i: u64| #[trigger] bit64(1u64 << j, i) == (i == j),
{
}

pub proof fn lemma_bit_zero()
    by (bit_vector)
    ensures
        forall|i: u64| !(#[trigger] bit64(0u64, i)),
{
}

pub proof fn lemma_board_mask_bits()
    by (bit_vector)
    ensures
        forall|i: u64| #[trigger] bit64(0x1_FFFF_FFFF_FFFFu64, i) == (i < 49),
{
}

pub proof fn lemma_pop_below_bound(bb: u64, n: int)
    ensures
        pop_below(bb, n) <= if n <= 0 {
            0int
        } else {
            n
        },
    decreases n,
{
    if n > 0 {
        lemma_pop_below_bound(bb, n - 1);
    }
}

/// Boards that agree on bits below `n` have the same count below `n`.
pub proof fn lemma_pop_below_congruence(a: u64, b: u64, n: int)
    requires
        forall|i: int| 0 <= i < n ==> bit(a, i) == bit(b, i),
    ensures
        pop_below(a, n) == pop_below(b, n),
    decreases n,
{
    if n > 0 {
        lemma_pop_below_congruence(a, b, n - 1);
    }
}

/// Adding a fresh bit raises the count below `n` by one.
pub proof fn lemma_pop_below_insert(a: u64, j: int, n: int)
    requires
        0 <= j < n,
        n <= 64,
        !bit(a, j),
    ensures
        pop_below(a | (1u64 << (j as u64)), n) == pop_below(a, n) + 1,
    decreases n,
{
    lemma_bit_or(a, 1u64 << (j as u64));
    lemma_bit_single(j as u64);
    if j == n - 1 {
        lemma_pop_below_congruence(a | (1u64 << (j as u64)), a, n - 1);
    } else {
        lemma_pop_below_insert(a, j, n - 1);
    }
}

/// Dropping one present bit lowers the count below `n` by one.
pub proof fn lemma_pop_below_remove(a: u64, b: u64, j: int, n: int)
    requires
        0 <= j < n <= 64,
        bit(a, j),
        forall|i: int| 0 <= i < n ==> bit(b, i) == (bit(a, i) && i != j),
    ensures
        pop_below(a, n) == pop_below(b, n) + 1,
    decreases n,
{
    if j == n - 1 {
        lemma_pop_below_congruence(a, b, n - 1);
    } else {
        lemma_pop_below_remove(a, b, j, n - 1);
    }
}

/// A nonzero board has a positive bit count.
pub proof fn lemma_pop_nonzero(bb: u64)
    requires
        bb != 0,
    ensures
        pop(bb) >= 1,
{
    vstd::std_specs::bits::axiom_u64_trailing_zeros(bb);
    let tz = vstd::std_specs::bits::u64_trailing_zeros(bb);
    lemma_pop_below_from_bit(bb, tz as int, 64);
}

/// A set bit below `n` forces a positive count below `n`.
pub proof fn lemma_pop_below_from_bit(bb: u64, j: int, n: int)
    requires
        0 <= j < n,
        bit(bb, j),
    ensures
        pop_below(bb, n) >= 1,
    decreases n,
{
    if j < n - 1 {
        lemma_pop_below_from_bit(bb, j, n - 1);
    }
}

/// A word whose bits all lie on the board is at most the board mask.
pub proof fn lemma_board_value_bound(d: u64)
    requires
        forall|t: int| #[trigger] bit(d, t) ==> valid_cell(t),
    ensures
        d <= 0x1_FFFF_FFFF_FFFF,
{
    if d > 0x1_FFFF_FFFF_FFFF {
        assert((d >> 49u64) & 1u64 == 1u64 || (d >> 50u64) & 1u64 == 1u64 || (d >> 51u64) & 1u64
            == 1u64 || (d >> 52u64) & 1u64 == 1u64 || (d >> 53u64) & 1u64 == 1u64 || (d >> 54u64)
            & 1u64 == 1u64 || (d >> 55u64) & 1u64 == 1u64 || (d >> 56u64) & 1u64 == 1u64 || (d
            >> 57u64) & 1u64 == 1u64 || (d >> 58u64) & 1u64 == 1u64 || (d >> 59u64) & 1u64 == 1u64
            || (d >> 60u64) & 1u64 == 1u64 || (d >> 61u64) & 1u64 == 1u64 || (d >> 62u64) & 1u64
            == 1u64 || (d >> 63u64) & 1u64 == 1u64) by (bit_vector)
            requires
                d > 0x1_FFFF_FFFF_FFFFu64,
        ;
        assert(bit(d, 49) || bit(d, 50) || bit(d, 51) || bit(d, 52) || bit(d, 53) || bit(d, 54)
            || bit(d, 55) || bit(d, 56) || bit(d, 57) || bit(d, 58) || bit(d, 59) || bit(d, 60)
            || bit(d, 61) || bit(d, 62) || bit(d, 63));
        assert(false);
    }
}

/// Number of indices below `n` satisfying a predicate.
pub open spec fn count_pred(p: spec_fn(int) -> bool, n: int) -> nat
    decreases n,
{
    if n <= 0 {
        0
    } else {
        count_pred(p, n - 1) + (if p(n - 1) {
            1nat
        } else {
            0nat
        })
    }
}

/// A board whose bits below `n` match a predicate has the predicate's count.
pub proof fn lemma_pop_is_count_pred(w: u64, p: spec_fn(int) -> bool, n: int)
    requires
        forall|t: int| 0 <= t < n ==> bit(w, t) == p(t),
    ensures
        pop_below(w, n) == count_pred(p, n),
    decreases n,
{
    if n > 0 {
        lemma_pop_is_count_pred(w, p, n - 1);
    }
}

/// A witness below `n` makes the count positive.
pub proof fn lemma_count_pred_positive(p: spec_fn(int) -> bool, n: int, t: int)
    requires
        0 <= t < n,
        p(t),
    ensures
        count_pred(p, n) >= 1,
    decreases n,
{
    if t < n - 1 {
        lemma_count_pred_positive(p, n - 1, t);
    }
}

/// Blocking the ray's own source changes no ray: a ray never revisits its
/// source cell.
pub proof fn lemma_queen_move_source_bit(blocked: u64, s: int, t: int)
    requires
        valid_cell(s),
    ensures
        queen_move(blocked | (1u64 << (s as u64)), s, t) == queen_move(blocked, s, t),
{
    let m = 1u64 << (s as u64);
    lemma_bit_or(blocked, m);
    lemma_bit_single(s as u64);
    if queen_move(blocked, s, t) {
        let (dr, dc) = choose|dr: int, dc: int|
            #[trigger] is_dir(dr, dc) && dir_move(blocked, s, dr, dc, t);
        let k = choose|k: int|
            1 <= k && #[trigger] ray_cell(s, dr, dc, k) == t && ray_clear(blocked, s, dr, dc, k);
        lemma_ray_clear_add_source(blocked, m, s, dr, dc, k);
        assert(dir_move(blocked | m, s, dr, dc, t));
    }
    if queen_move(blocked | m, s, t) {
        let (dr, dc) = choose|dr: int, dc: int|
            #[trigger] is_dir(dr, dc) && dir_move(blocked | m, s, dr, dc, t);
        let k = choose|k: int|
            1 <= k && #[trigger] ray_cell(s, dr, dc, k) == t && ray_clear(blocked | m, s, dr, dc, k);
        lemma_ray_clear_drop(blocked, m, s, dr, dc, k);
        assert(dir_move(blocked, s, dr, dc, t));
    }
}

/// A clear ray stays clear when only the source cell is added to the blocks.
proof fn lemma_ray_clear_add_source(blocked: u64, m: u64, s: int, dr: int, dc: int, k: int)
    requires
        valid_cell(s),
        is_dir(dr, dc),
        m == 1u64 << (s as u64),
        ray_clear(blocked, s, dr, dc, k),
    ensures
        ray_clear(blocked | m, s, dr, dc, k),
    decreases k,
{
    lemma_bit_or(blocked, m);
    lemma_bit_single(s as u64);
    if k > 0 {
        lemma_ray_clear_add_source(blocked, m, s, dr, dc, k - 1);
        lemma_step_arith_any(k, dr);
        lemma_step_arith_any(k, dc);
        assert(ray_cell(s, dr, dc, k) != s) by {
            if ray_cell(s, dr, dc, k) == s {
                lemma_cell_coords(srow(s) + k * dr, scol(s) + k * dc);
                assert(k * dr == 0 && k * dc == 0);
                assert(dr == 0 && dc == 0) by (nonlinear_arith)
                    requires
                        k >= 1,
                        k * dr == 0,
                        k * dc == 0,
                ;
            }
        }
    }
}

/// A clear ray over extra blocks is clear over fewer.
proof fn lemma_ray_clear_drop(blocked: u64, m: u64, s: int, dr: int, dc: int, k: int)
    requires
        ray_clear(blocked | m, s, dr, dc, k),
    ensures
        ray_clear(blocked, s, dr, dc, k),
    decreases k,
{
    lemma_bit_or(blocked, m);
    if k > 0 {
        lemma_ray_clear_drop(blocked, m, s, dr, dc, k - 1);
    }
}

/// Multiplication facts for one ray step, over any bounded step count.
proof fn lemma_step_arith_any(k: int, d: int)
    ensures
        -1 <= d <= 1 ==> (k * d == 0 <==> k == 0 || d == 0),
{
    assert(-1 <= d <= 1 ==> (k * d == 0 <==> k == 0 || d == 0)) by (nonlinear_arith);
}

/// Row and column of a board cell are board coordinates.
pub proof fn lemma_coord_bounds(i: int)
    requires
        valid_cell(i),
    ensures
        0 <= srow(i) < 7,
        0 <= scol(i) < 7,
        scell(srow(i), scol(i)) == i,
{
    assert(0 <= i / 7 < 7 && 0 <= i % 7 < 7 && (i / 7) * 7 + i % 7 == i) by (nonlinear_arith)
        requires
            0 <= i < 49,
    ;
}

/// Converts a row/column pair to a cell index.
pub fn pos_to_index(r: u8, c: u8) -> (idx: u8)
    requires
        r < 7,
        c < 7,
    ensures
        idx == scell(r as int, c as int),
        valid_cell(idx as int),
{
    r * BOARD_SIZE + c
}

/// Converts a cell index back to its row/column pair.
pub fn index_to_pos(idx: u8) -> (p: (u8, u8))
    ensures
        p.0 == srow(idx as int),
        p.1 == scol(idx as int),
        idx < 49 ==> p.0 < 7 && p.1 < 7 && scell(p.0 as int, p.1 as int) == idx as int,
{
    (idx / BOARD_SIZE, idx % BOARD_SIZE)
}

/// The single-bit mask of the cell `(r, c)`, or `0` when off the board.
pub fn pos_to_mask(r: u8, c: u8) -> (m: u64)
    ensures
        r < 7 && c < 7 ==> m == 1u64 << ((r * 7 + c) as u64),
        r < 7 && c < 7 ==> forall|t: int| bit(m, t) == (t == scell(r as int, c as int)),
        !(r < 7 && c < 7) ==> m == 0,
{
    if r >= BOARD_SIZE || c >= BOARD_SIZE {
        return 0;
    }
    let idx = r * BOARD_SIZE + c;
    proof {
        lemma_bit_single(idx as u64);
    }
    1u64 << (idx as u64)
}

/// Tests one bit of a board word.
pub fn test_bit(bb: u64, i: u8) -> (b: bool)
    requires
        i < 64,
    ensures
        b == bit(bb, i as int),
{
    (bb >> (i as u64)) & 1u64 == 1u64
}

/// Number of cells present in `bitboard`.
pub fn count_ones(bitboard: u64) -> (n: u32)
    ensures
        n == pop(bitboard),
        n <= 64,
{
    let mut n: u32 = 0;
    let mut i: u8 = 0;
    while i < 64
        invariant
            i <= 64,
            n == pop_below(bitboard, i as int),
            n <= i,
        decreases 64 - i,
    {
        if test_bit(bitboard, i) {
            n = n + 1;
        }
        i = i + 1;
    }
    proof {
        lemma_pop_below_bound(bitboard, 64);
    }
    n
}

/// Index of the lowest set cell of `bitboard`, when it lies on the board.
///
/// Returns `None` for an empty word and for a word whose lowest set bit is
/// outside the 49 board cells.
pub fn safe_get_position_index(bitboard: u64) -> (r: Option<u8>)
    ensures
        match r {
            Some(i) => i < 49 && bit(bitboard, i as int) && forall|j: int|
                0 <= j < i ==> !bit(bitboard, j),
            None => forall|j: int| 0 <= j < 49 ==> !bit(bitboard, j),
        },
{
    if bitboard == 0 {
        proof {
            lemma_bit_zero();
        }
        return None;
    }
    let mut i: u8 = 0;
    while i < 49
        invariant
            i <= 49,
            forall|j: int| 0 <= j < i ==> !bit(bitboard, j),
        decreases 49 - i,
    {
        if test_bit(bitboard, i) {
            return Some(i);
        }
        i = i + 1;
    }
    None
}

/// All cells reached by sliding from `(r, c)` in direction `(dr, dc)`.
fn ray_moves(r: u8, c: u8, dr: i8, dc: i8, blocked: u64) -> (m: u64)
    requires
        r < 7,
        c < 7,
        is_dir(dr as int, dc as int),
    ensures
        forall|t: int| bit(m, t) == dir_move(blocked, scell(r as int, c as int), dr as int, dc as int, t),
{
    let ghost s: int = scell(r as int, c as int);
    let mut m: u64 = 0;
    let mut rr: i8 = r as i8;
    let mut cc: i8 = c as i8;
    let mut k: u8 = 0;
    proof {
        lemma_bit_zero();
    }
    loop
        invariant
            r < 7,
            c < 7,
            is_dir(dr as int, dc as int),
            k <= 7,
            rr as int == r + k * (dr as int),
            cc as int == c + k * (dc as int),
            ray_clear(blocked, s, dr as int, dc as int, k as int),
            s == scell(r as int, c as int),
            srow(s) == r as int && scol(s) == c as int,
            forall|t: int|
                bit(m, t) == exists|j: int|
                    1 <= j <= k && #[trigger] ray_cell(s, dr as int, dc as int, j) == t,
        ensures
            forall|t: int| bit(m, t) == dir_move(blocked, s, dr as int, dc as int, t),
        decreases 7 - k,
    {
        proof {
            lemma_step_arith(k as int, dr as int);
            lemma_step_arith(k as int, dc as int);
        }
        let nr = rr + dr;
        let nc = cc + dc;
        if nr < 0 || nr >= 7 || nc < 0 || nc >= 7 {
            proof {
                assert(!ray_on_board(s, dr as int, dc as int, k as int + 1));
                lemma_ray_exit(blocked, s, dr as int, dc as int, k as int + 1);
                lemma_ray_done(blocked, s, dr as int, dc as int, k as int, m);
            }
            break;
        }
        let idx: u8 = (nr as u8) * 7 + (nc as u8);
        proof {
            assert(ray_cell(s, dr as int, dc as int, k as int + 1) == idx as int);
        }
        if test_bit(blocked, idx) {
            proof {
                lemma_ray_exit(blocked, s, dr as int, dc as int, k as int + 1);
                lemma_ray_done(blocked, s, dr as int, dc as int, k as int, m);
            }
            break;
        }
        proof {
            lemma_bit_or(m, 1u64 << (idx as u64));
            lemma_bit_single(idx as u64);
        }
        let ghost m_old = m;
        m = m | (1u64 << (idx as u64));
        rr = nr;
        cc = nc;
        k = k + 1;
        proof {
            assert forall|t: int|
                bit(m, t) == (exists|j: int|
                    1 <= j <= k && #[trigger] ray_cell(s, dr as int, dc as int, j) == t) by {
                if bit(m, t) {
                    if bit(m_old, t) {
                        let j = choose|j: int|
                            1 <= j <= k - 1 && #[trigger] ray_cell(s, dr as int, dc as int, j)
                                == t;
                        assert(1 <= j <= k && ray_cell(s, dr as int, dc as int, j) == t);
                    } else {
                        assert(t == idx as int);
                        assert(ray_cell(s, dr as int, dc as int, k as int) == t);
                    }
                }
                if exists|j: int|
                    1 <= j <= k && #[trigger] ray_cell(s, dr as int, dc as int, j) == t {
                    let j = choose|j: int|
                        1 <= j <= k && #[trigger] ray_cell(s, dr as int, dc as int, j) == t;
                    if j <= k - 1 {
                        assert(bit(m_old, t));
                        assert(bit64(m, t as u64));
                    } else {
                        assert(t == idx as int);
                        assert(bit64(1u64 << (idx as u64), idx as u64));
                        assert(bit64(m, idx as u64));
                    }
                    assert(bit(m, t));
                }
            }
        }
    }
    m
}

/// Unfolds one multiplication step of a ray offset.
pub proof fn lemma_step_arith(k: int, d: int)
    requires
        0 <= k <= 7,
        -1 <= d <= 1,
    ensures
        (k + 1) * d == k * d + d,
        -7 <= k * d <= 7,
        -8 <= (k + 1) * d <= 8,
{
    assert((k + 1) * d == k * d + d && -7 <= k * d <= 7 && -8 <= (k + 1) * d <= 8)
        by (nonlinear_arith)
        requires
            0 <= k <= 7,
            -1 <= d <= 1,
    ;
}

/// Row and column of a cell built from on-board coordinates.
pub proof fn lemma_cell_coords(r: int, c: int)
    requires
        0 <= r < 7,
        0 <= c < 7,
    ensures
        srow(scell(r, c)) == r,
        scol(scell(r, c)) == c,
        valid_cell(scell(r, c)),
{
    assert((r * 7 + c) / 7 == r && (r * 7 + c) % 7 == c) by (nonlinear_arith)
        requires
            0 <= r < 7,
            0 <= c < 7,
    ;
}

/// Once step `k` of a ray leaves the board or is blocked, no later step is a
/// move along that ray.
proof fn lemma_ray_exit(blocked: u64, s: int, dr: int, dc: int, k: int)
    requires
        1 <= k,
        !(ray_on_board(s, dr, dc, k) && !bit(blocked, ray_cell(s, dr, dc, k))),
    ensures
        forall|j: int| j >= k ==> !ray_clear(blocked, s, dr, dc, j),
{
    assert forall|j: int| j >= k implies !ray_clear(blocked, s, dr, dc, j) by {
        if ray_clear(blocked, s, dr, dc, j) {
            lemma_ray_clear_at(blocked, s, dr, dc, j, k);
        }
    }
}

/// When no step beyond `k` can extend the ray, the bits collected over the
/// first `k` steps are the whole set of moves in this direction.
proof fn lemma_ray_done(blocked: u64, s: int, dr: int, dc: int, k: int, m: u64)
    requires
        0 <= k,
        ray_clear(blocked, s, dr, dc, k),
        forall|j: int| j >= k + 1 ==> !ray_clear(blocked, s, dr, dc, j),
        forall|t: int|
            bit(m, t) == exists|j: int| 1 <= j <= k && #[trigger] ray_cell(s, dr, dc, j) == t,
    ensures
        forall|t: int| bit(m, t) == dir_move(blocked, s, dr, dc, t),
{
    assert forall|t: int| bit(m, t) == dir_move(blocked, s, dr, dc, t) by {
        if bit(m, t) {
            let j = choose|j: int| 1 <= j <= k && #[trigger] ray_cell(s, dr, dc, j) == t;
            lemma_ray_clear_prefix(blocked, s, dr, dc, k, j);
            assert(ray_cell(s, dr, dc, j) == t && ray_clear(blocked, s, dr, dc, j));
            assert(dir_move(blocked, s, dr, dc, t));
        }
        if dir_move(blocked, s, dr, dc, t) {
            let j = choose|j: int|
                1 <= j && #[trigger] ray_cell(s, dr, dc, j) == t && ray_clear(blocked, s, dr, dc, j);
            assert(j <= k);
            assert(bit(m, t));
        }
    }
}

/// All queen moves from `(r, c)`, as a board set.
///
/// A cell is in the result exactly when it is one legal queen move away.
pub fn get_queen_moves(r: u8, c: u8, blocked: u64) -> (m: u64)
    requires
        r < 7,
        c < 7,
    ensures
        forall|t: int| bit(m, t) == queen_move(blocked, scell(r as int, c as int), t),
{
    let ghost s: int = scell(r as int, c as int);
    let m1 = ray_moves(r, c, -1, -1, blocked);
    let m2 = ray_moves(r, c, -1, 0, blocked);
    let m3 = ray_moves(r, c, -1, 1, blocked);
    let m4 = ray_moves(r, c, 0, -1, blocked);
    let m5 = ray_moves(r, c, 0, 1, blocked);
    let m6 = ray_moves(r, c, 1, -1, blocked);
    let m7 = ray_moves(r, c, 1, 0, blocked);
    let m8 = ray_moves(r, c, 1, 1, blocked);
    let m12 = m1 | m2;
    let m34 = m3 | m4;
    let m56 = m5 | m6;
    let m78 = m7 | m8;
    let ma = m12 | m34;
    let mb = m56 | m78;
    let m = ma | mb;
    proof {
        lemma_bit_or(m1, m2);
        lemma_bit_or(m3, m4);
        lemma_bit_or(m5, m6);
        lemma_bit_or(m7, m8);
        lemma_bit_or(m12, m34);
        lemma_bit_or(m56, m78);
        lemma_bit_or(ma, mb);
        assert forall|t: int| bit(m, t) == queen_move(blocked, s, t) by {
            assert(bit(m, t) == (bit(ma, t) || bit(mb, t)));
            assert(bit(ma, t) == (bit(m12, t) || bit(m34, t)));
            assert(bit(mb, t) == (bit(m56, t) || bit(m78, t)));
            assert(bit(m12, t) == (bit(m1, t) || bit(m2, t)));
            assert(bit(m34, t) == (bit(m3, t) || bit(m4, t)));
            assert(bit(m56, t) == (bit(m5, t) || bit(m6, t)));
            assert(bit(m78, t) == (bit(m7, t) || bit(m8, t)));
            if bit(m, t) {
                if bit(m1, t) {
                    assert(is_dir(-1, -1) && dir_move(blocked, s, -1, -1, t));
                } else if bit(m2, t) {
                    assert(is_dir(-1, 0) && dir_move(blocked, s, -1, 0, t));
                } else if bit(m3, t) {
                    assert(is_dir(-1, 1) && dir_move(blocked, s, -1, 1, t));
                } else if bit(m4, t) {
                    assert(is_dir(0, -1) && dir_move(blocked, s, 0, -1, t));
                } else if bit(m5, t) {
                    assert(is_dir(0, 1) && dir_move(blocked, s, 0, 1, t));
                } else if bit(m6, t) {
                    assert(is_dir(1, -1) && dir_move(blocked, s, 1, -1, t));
                } else if bit(m7, t) {
                    assert(is_dir(1, 0) && dir_move(blocked, s, 1, 0, t));
                } else {
                    assert(is_dir(1, 1) && dir_move(blocked, s, 1, 1, t));
                }
                assert(queen_move(blocked, s, t));
            }
            if queen_move(blocked, s, t) {
                let (dr, dc) = choose|dr: int, dc: int|
                    #[trigger] is_dir(dr, dc) && dir_move(blocked, s, dr, dc, t);
                if dr == -1 && dc == -1 {
                    assert(bit(m1, t));
                } else if dr == -1 && dc == 0 {
                    assert(bit(m2, t));
                } else if dr == -1 && dc == 1 {
                    assert(bit(m3, t));
                } else if dr == 0 && dc == -1 {
                    assert(bit(m4, t));
                } else if dr == 0 && dc == 1 {
                    assert(bit(m5, t));
                } else if dr == 1 && dc == -1 {
                    assert(bit(m6, t));
                } else if dr == 1 && dc == 0 {
                    assert(bit(m7, t));
                } else {
                    assert(dr == 1 && dc == 1);
                    assert(bit(m8, t));
                }
                assert(bit(m, t));
            }
        }
    }
    m
}

/// A queen move always lands on a board cell.
pub proof fn lemma_queen_move_valid(blocked: u64, s: int, t: int)
    requires
        queen_move(blocked, s, t),
    ensures
        valid_cell(t),
{
    let (dr, dc) = choose|dr: int, dc: int| #[trigger] is_dir(dr, dc) && dir_move(blocked, s, dr, dc, t);
    let k = choose|k: int|
        1 <= k && #[trigger] ray_cell(s, dr, dc, k) == t && ray_clear(blocked, s, dr, dc, k);
    lemma_ray_clear_at(blocked, s, dr, dc, k, k);
    lemma_cell_coords(srow(s) + k * dr, scol(s) + k * dc);
}

/// Whatever is reachable from a board cell is itself on the board.
pub proof fn lemma_reach_valid(blocked: u64, s: int, t: int, n: nat)
    requires
        valid_cell(s),
        reach_n(blocked, s, t, n),
    ensures
        valid_cell(t),
    decreases n,
{
    if n > 0 {
        if reach_n(blocked, s, t, (n - 1) as nat) {
            lemma_reach_valid(blocked, s, t, (n - 1) as nat);
        } else {
            let m = choose|m: int|
                reach_n(blocked, s, m, (n - 1) as nat) && #[trigger] queen_move(blocked, m, t);
            lemma_queen_move_valid(blocked, m, t);
        }
    }
}

/// One more queen move keeps a cell reachable.
pub proof fn lemma_reach_step(blocked: u64, s: int, m: int, t: int)
    requires
        reaches(blocked, s, m),
        queen_move(blocked, m, t),
    ensures
        reaches(blocked, s, t),
{
    let n = choose|n: nat| #[trigger] reach_n(blocked, s, m, n);
    assert(reach_n(blocked, s, t, n + 1));
}

/// Reachability within `n1` moves implies reachability within more moves.
pub proof fn lemma_reach_mono(blocked: u64, s: int, t: int, n1: nat, n2: nat)
    requires
        n1 <= n2,
        reach_n(blocked, s, t, n1),
    ensures
        reach_n(blocked, s, t, n2),
    decreases n2,
{
    if n1 < n2 {
        lemma_reach_mono(blocked, s, t, n1, (n2 - 1) as nat);
    }
}

/// Once a round adds no cell, reachability has saturated: anything reachable
/// at all is reachable within `n - 1` moves.
pub proof fn lemma_reach_fixpoint(blocked: u64, s: int, n: nat, m: nat)
    requires
        n >= 1,
        forall|t: int| #[trigger] reach_n(blocked, s, t, n) ==> reach_n(blocked, s, t, (n - 1) as nat),
    ensures
        forall|t: int| #[trigger] reach_n(blocked, s, t, m) ==> reach_n(blocked, s, t, (n - 1) as nat),
    decreases m,
{
    if m <= n - 1 {
        assert forall|t: int| #[trigger] reach_n(blocked, s, t, m) implies reach_n(
            blocked,
            s,
            t,
            (n - 1) as nat,
        ) by {
            lemma_reach_mono(blocked, s, t, m, (n - 1) as nat);
        }
    } else {
        lemma_reach_fixpoint(blocked, s, n, (m - 1) as nat);
        assert forall|t: int| #[trigger] reach_n(blocked, s, t, m) implies reach_n(
            blocked,
            s,
            t,
            (n - 1) as nat,
        ) by {
            if !reach_n(blocked, s, t, (m - 1) as nat) {
                let x = choose|x: int|
                    reach_n(blocked, s, x, (m - 1) as nat) && #[trigger] queen_move(blocked, x, t);
                assert(reach_n(blocked, s, x, (n - 1) as nat));
                assert(reach_n(blocked, s, t, n));
            }
        }
    }
}

/// In a set closed under queen moves, everything reachable from a member is a
/// member.
pub proof fn lemma_reach_in_closed(blocked: u64, bb: u64, s: int, t: int, n: nat)
    requires
        forall|x: int, u: int|
            bit(bb, x) && valid_cell(x) && #[trigger] queen_move(blocked, x, u) ==> bit(bb, u),
        bit(bb, s),
        valid_cell(s),
        reach_n(blocked, s, t, n),
    ensures
        bit(bb, t),
    decreases n,
{
    if n > 0 {
        if reach_n(blocked, s, t, (n - 1) as nat) {
            lemma_reach_in_closed(blocked, bb, s, t, (n - 1) as nat);
        } else {
            let m = choose|m: int|
                reach_n(blocked, s, m, (n - 1) as nat) && #[trigger] queen_move(blocked, m, t);
            lemma_reach_in_closed(blocked, bb, s, m, (n - 1) as nat);
            lemma_reach_valid(blocked, s, m, (n - 1) as nat);
        }
    }
}

/// Disjoint boards have additive counts.
pub proof fn lemma_pop_below_or_disjoint(a: u64, b: u64, n: int)
    requires
        a & b == 0,
        n <= 64,
    ensures
        pop_below(a | b, n) == pop_below(a, n) + pop_below(b, n),
    decreases n,
{
    lemma_bit_or(a, b);
    lemma_bit_and(a, b);
    lemma_bit_zero();
    if n > 0 {
        lemma_pop_below_or_disjoint(a, b, n - 1);
        assert(!(bit(a, n - 1) && bit(b, n - 1))) by {
            if bit(a, n - 1) && bit(b, n - 1) {
                assert(bit64(a & b, (n - 1) as u64));
            }
        }
    }
}

/// One-step queen expansion of a set of cells.
///
/// A cell is in the result exactly when it is one queen move away from some
/// board cell of `source`.
pub fn expand_queen_bit_parallel(source: u64, blocked: u64) -> (r: u64)
    ensures
        forall|t: int|
            bit(r, t) == exists|s2: int|
                valid_cell(s2) && bit(source, s2) && #[trigger] queen_move(blocked, s2, t),
{
    let mut r: u64 = 0;
    let mut i: u8 = 0;
    proof {
        lemma_bit_zero();
    }
    while i < 49
        invariant
            i <= 49,
            forall|t: int|
                bit(r, t) == exists|s2: int|
                    0 <= s2 < i && bit(source, s2) && #[trigger] queen_move(blocked, s2, t),
        decreases 49 - i,
    {
        if test_bit(source, i) {
            let p = index_to_pos(i);
            let mv = get_queen_moves(p.0, p.1, blocked);
            let ghost r_old = r;
            proof {
                lemma_bit_or(r, mv);
                lemma_cell_coords(i as int / 7, i as int % 7);
            }
            r = r | mv;
            proof {
                assert forall|t: int|
                    bit(r, t) == exists|s2: int|
                        0 <= s2 < i + 1 && bit(source, s2) && #[trigger] queen_move(
                            blocked,
                            s2,
                            t,
                        ) by {
                    if bit(r, t) {
                        if bit(r_old, t) {
                        } else {
                            assert(bit(mv, t));
                            assert(queen_move(blocked, i as int, t));
                        }
                    }
                    if exists|s2: int|
                        0 <= s2 < i + 1 && bit(source, s2) && #[trigger] queen_move(
                            blocked,
                            s2,
                            t,
                        ) {
                        let s2 = choose|s2: int|
                            0 <= s2 < i + 1 && bit(source, s2) && #[trigger] queen_move(
                                blocked,
                                s2,
                                t,
                            );
                        if s2 < i {
                            assert(bit(r_old, t));
                        } else {
                            assert(bit(mv, t));
                        }
                        assert(bit(r, t));
                    }
                }
            }
        }
        i = i + 1;
    }
    r
}

/// All cells reachable by queen moves from the board cells of `start`.
///
/// Every bit of `start` is kept in the result, and a further cell is present
/// exactly when some board cell of `start` reaches it.
pub fn flood_fill(start: u64, blocked: u64) -> (r: u64)
    ensures
        forall|t: int|
            bit(r, t) == (bit(start, t) || exists|s2: int|
                valid_cell(s2) && bit(start, s2) && #[trigger] reaches(blocked, s2, t)),
{
    let mut reach: u64 = start;
    let mut frontier: u64 = start & BOARD_MASK;
    proof {
        lemma_bit_and(start, BOARD_MASK);
        lemma_board_mask_bits();
        assert forall|s2: int| valid_cell(s2) && bit(start, s2) implies #[trigger] reaches(
            blocked,
            s2,
            s2,
        ) by {
            assert(reach_n(blocked, s2, s2, 0));
        }
    }
    proof {
        lemma_pop_below_bound(reach, 64);
    }
    while frontier != 0
        invariant
            pop(reach) <= 64,
            forall|t: int| bit(start, t) ==> bit(reach, t),
            forall|t: int| #[trigger] bit(frontier, t) ==> bit(reach, t) && valid_cell(t),
            forall|t: int|
                bit(reach, t) ==> bit(start, t) || exists|s2: int|
                    valid_cell(s2) && bit(start, s2) && #[trigger] reaches(blocked, s2, t),
            forall|x: int, u: int|
                bit(reach, x) && valid_cell(x) && !bit(frontier, x) && #[trigger] queen_move(
                    blocked,
                    x,
                    u,
                ) ==> bit(reach, u),
        decreases 64 - pop(reach), pop(frontier),
    {
        let acc = expand_queen_bit_parallel(frontier, blocked);
        let new_frontier = acc & !reach;
        let ghost reach_old = reach;
        let ghost frontier_old = frontier;
        proof {
            lemma_bit_and(acc, !reach);
            lemma_bit_not(reach);
            lemma_bit_or(reach, new_frontier);
            assert((acc & !reach) & reach == 0) by (bit_vector);
            lemma_pop_or_progress(reach, frontier, new_frontier);
        }
        reach = reach | new_frontier;
        frontier = new_frontier;
        proof {
            assert forall|t: int| #[trigger] bit(frontier, t) implies bit(reach, t)
                && valid_cell(t) by {
                assert(bit(acc, t));
                let s2 = choose|s2: int|
                    valid_cell(s2) && bit(frontier_old, s2) && #[trigger] queen_move(
                        blocked,
                        s2,
                        t,
                    );
                lemma_queen_move_valid(blocked, s2, t);
            }
            assert forall|t: int|
                bit(reach, t) implies bit(start, t) || exists|s2: int|
                    valid_cell(s2) && bit(start, s2) && #[trigger] reaches(blocked, s2, t) by {
                if !bit(reach_old, t) && !bit(start, t) {
                    assert(bit(new_frontier, t));
                    assert(bit(acc, t));
                    let x = choose|x: int|
                        valid_cell(x) && bit(frontier_old, x) && #[trigger] queen_move(
                            blocked,
                            x,
                            t,
                        );
                    if bit(start, x) {
                        assert(reach_n(blocked, x, x, 0));
                        assert(reaches(blocked, x, x));
                        lemma_reach_step(blocked, x, x, t);
                    } else {
                        let s2 = choose|s2: int|
                            valid_cell(s2) && bit(start, s2) && #[trigger] reaches(
                                blocked,
                                s2,
                                x,
                            );
                        lemma_reach_step(blocked, s2, x, t);
                    }
                }
            }
            assert forall|x: int, u: int|
                bit(reach, x) && valid_cell(x) && !bit(frontier, x) && #[trigger] queen_move(
                    blocked,
                    x,
                    u,
                ) implies bit(reach, u) by {
                if bit(frontier_old, x) {
                    assert(bit(acc, u));
                    if !bit(reach_old, u) {
                        assert(bit(new_frontier, u));
                    }
                }
            }
        }
    }
    proof {
        lemma_bit_zero();
        assert forall|t: int|
            bit(reach, t) == (bit(start, t) || exists|s2: int|
                valid_cell(s2) && bit(start, s2) && #[trigger] reaches(blocked, s2, t)) by {
            if !bit(reach, t) {
                if exists|s2: int|
                    valid_cell(s2) && bit(start, s2) && #[trigger] reaches(blocked, s2, t) {
                    let s2 = choose|s2: int|
                        valid_cell(s2) && bit(start, s2) && #[trigger] reaches(blocked, s2, t);
                    let n = choose|n: nat| #[trigger] reach_n(blocked, s2, t, n);
                    lemma_reach_in_closed(blocked, reach, s2, t, n);
                }
            }
        }
    }
    reach
}

/// Progress facts for the flood fill: each round either discovers new cells
/// or empties the frontier.
proof fn lemma_pop_or_progress(reach: u64, frontier: u64, new_frontier: u64)
    requires
        new_frontier & reach == 0,
        frontier != 0,
    ensures
        pop(reach | new_frontier) == pop(reach) + pop(new_frontier),
        pop(reach | new_frontier) <= 64,
        pop(frontier) >= 1,
        new_frontier != 0 ==> pop(new_frontier) >= 1,
        new_frontier == 0 ==> pop(new_frontier) == 0,
{
    assert(reach & new_frontier == 0) by (bit_vector)
        requires
            new_frontier & reach == 0,
    ;
    lemma_pop_below_or_disjoint(reach, new_frontier, 64);
    lemma_pop_nonzero(frontier);
    lemma_pop_below_bound(reach | new_frontier, 64);
    if new_frontier != 0 {
        lemma_pop_nonzero(new_frontier);
    } else {
        lemma_pop_below_zero(64);
    }
}

/// The empty board has count zero.
pub proof fn lemma_pop_below_zero(n: int)
    ensures
        pop_below(0u64, n) == 0,
    decreases n,
{
    lemma_bit_zero();
    if n > 0 {
        lemma_pop_below_zero(n - 1);
    }
}

} // verus!
