//! Game state for the 11 x 11 hexagonal connection game.
//!
//! Cells hold `Nobody`, `Human` or `AI`.  One side wins by joining the left
//! and right board edges, the other by joining top and bottom; both are
//! tracked by a union-find with two virtual terminal nodes.  The empty-cell
//! list carries an inverse index map, and the standing invariant is that the
//! map inverts the list under every mutation.

use vstd::prelude::*;
use smallvec::SmallVec;
use crate::unionfind::{UnionFind, linked};

verus! {

pub const BOARD_ROWS: usize = 11;
pub const BOARD_COLS: usize = 11;
pub const NUM_CELLS: usize = 121;

/// Virtual union-find node for the left edge (human) or top edge (AI).
pub const VIRTUAL_A: usize = 121;

/// Virtual union-find node for the right edge (human) or bottom edge (AI).
pub const VIRTUAL_B: usize = 122;

#[derive(Clone, Copy, PartialEq, Eq, Hash, Debug, Structural)]
pub enum Player {
    Nobody,
    Human,
    AI,
}

impl Player {
    /// The opposing side.
    pub fn opponent(&self) -> (r: Player)
        ensures
            r == (match *self {
                Player::Human => Player::AI,
                Player::AI => Player::Human,
                Player::Nobody => Player::Nobody,
            }),
    {
        match self {
            Player::Human => Player::AI,
            Player::AI => Player::Human,
            Player::Nobody => Player::Nobody,
        }
    }
}

/// A neighbor list: a small inline vector of cell indices.  The vector type
/// itself is opaque to the verifier; its contents are named by `nb_elems` and
/// reached through the trusted wrappers below.
#[verifier::external_body]
pub struct NeighborList {
    buf: SmallVec<[usize; 6]>,
}

/// The elements a neighbor list holds, in order.
pub uninterp spec fn nb_elems(v: NeighborList) -> Seq<usize>;

/// Relies on `smallvec::SmallVec::new`: the fresh vector is empty.
#[verifier::external_body]
fn nb_new() -> (v: NeighborList)
    ensures
        nb_elems(v) == Seq::<usize>::empty(),
{
    NeighborList { buf: SmallVec::new() }
}

/// Relies on `smallvec::SmallVec::push`: appends the element at the end.
#[verifier::external_body]
fn nb_push(v: &mut NeighborList, x: usize)
    ensures
        nb_elems(*final(v)) == nb_elems(*old(v)).push(x),
{
    v.buf.push(x)
}

/// Relies on `smallvec::SmallVec::len`: the number of elements.
#[verifier::external_body]
pub fn nb_len(v: &NeighborList) -> (n: usize)
    ensures
        n == nb_elems(*v).len(),
{
    v.buf.len()
}

/// Relies on `smallvec::SmallVec`'s `Index`: the element at `i`.
#[verifier::external_body]
pub fn nb_get(v: &NeighborList, i: usize) -> (x: usize)
    requires
        i < nb_elems(*v).len(),
    ensures
        x == nb_elems(*v)[i as int],
{
    v.buf[i]
}

/// Hex adjacency on the offset grid: six neighbors, whose column offsets
/// depend on the row's parity.
pub open spec fn hex_adjacent(a: int, b: int) -> bool {
    let ra = a / 11;
    let ca = a % 11;
    let rb = b / 11;
    let cb = b % 11;
    &&& 0 <= a < 121
    &&& 0 <= b < 121
    &&& if ra % 2 == 0 {
        ||| (rb == ra - 1 && cb == ca - 1)
        ||| (rb == ra - 1 && cb == ca)
        ||| (rb == ra && cb == ca - 1)
        ||| (rb == ra && cb == ca + 1)
        ||| (rb == ra + 1 && cb == ca - 1)
        ||| (rb == ra + 1 && cb == ca)
    } else {
        ||| (rb == ra - 1 && cb == ca)
        ||| (rb == ra - 1 && cb == ca + 1)
        ||| (rb == ra && cb == ca - 1)
        ||| (rb == ra && cb == ca + 1)
        ||| (rb == ra + 1 && cb == ca)
        ||| (rb == ra + 1 && cb == ca + 1)
    }
}

/// Row and column of a hex cell.
pub proof fn lemma_hex_coords(i: int)
    requires
        0 <= i < 121,
    ensures
        0 <= i / 11 < 11,
        0 <= i % 11 < 11,
        (i / 11) * 11 + i % 11 == i,
{
    assert(0 <= i / 11 < 11 && 0 <= i % 11 < 11 && (i / 11) * 11 + i % 11 == i)
        by (nonlinear_arith)
        requires
            0 <= i < 121,
    ;
}

/// A hex cell from on-board coordinates.
proof fn lemma_hex_cell(r: int, c: int)
    requires
        0 <= r < 11,
        0 <= c < 11,
    ensures
        (r * 11 + c) / 11 == r,
        (r * 11 + c) % 11 == c,
        0 <= r * 11 + c < 121,
{
    assert((r * 11 + c) / 11 == r && (r * 11 + c) % 11 == c && 0 <= r * 11 + c < 121)
        by (nonlinear_arith)
        requires
            0 <= r < 11,
            0 <= c < 11,
    ;
}

/// Appending keeps every element present, and adds the new one.
proof fn lemma_push_contains(s: Seq<usize>, x: usize, y: usize)
    requires
        s.contains(y) || x == y,
    ensures
        s.push(x).contains(y),
{
    if s.contains(y) {
        let i = choose|i: int| 0 <= i < s.len() && s[i] == y;
        assert(s.push(x)[i] == y);
    } else {
        assert(s.push(x)[s.len() as int] == y);
    }
}

/// The neighbor list of a cell: exactly the cells hex-adjacent to `idx`,
/// each once.
pub fn get_neighbors(idx: usize) -> (v: NeighborList)
    requires
        idx < 121,
    ensures
        forall|p: int|
            0 <= p < nb_elems(v).len() ==> #[trigger] hex_adjacent(idx as int, nb_elems(v)[p] as int),
        forall|p: int, q: int|
            0 <= p < q < nb_elems(v).len() ==> nb_elems(v)[p] != nb_elems(v)[q],
        forall|n: int| #[trigger] hex_adjacent(idx as int, n) ==> nb_elems(v).contains(n as usize),
{
    let r = idx / BOARD_COLS;
    let c = idx % BOARD_COLS;
    proof {
        lemma_hex_coords(idx as int);
    }
    let mut v = nb_new();
    if r % 2 == 0 {
        if r >= 1 && c >= 1 {
            push_neighbor(&mut v, idx, r - 1, c - 1);
        }
        if r >= 1 {
            push_neighbor(&mut v, idx, r - 1, c);
        }
        if c >= 1 {
            push_neighbor(&mut v, idx, r, c - 1);
        }
        if c + 1 < 11 {
            push_neighbor(&mut v, idx, r, c + 1);
        }
        if r + 1 < 11 && c >= 1 {
            push_neighbor(&mut v, idx, r + 1, c - 1);
        }
        if r + 1 < 11 {
            push_neighbor(&mut v, idx, r + 1, c);
        }
    } else {
        if r >= 1 {
            push_neighbor(&mut v, idx, r - 1, c);
        }
        if r >= 1 && c + 1 < 11 {
            push_neighbor(&mut v, idx, r - 1, c + 1);
        }
        if c >= 1 {
            push_neighbor(&mut v, idx, r, c - 1);
        }
        if c + 1 < 11 {
            push_neighbor(&mut v, idx, r, c + 1);
        }
        if r + 1 < 11 {
            push_neighbor(&mut v, idx, r + 1, c);
        }
        if r + 1 < 11 && c + 1 < 11 {
            push_neighbor(&mut v, idx, r + 1, c + 1);
        }
    }
    proof {
        assert forall|n: int| #[trigger] hex_adjacent(idx as int, n) implies nb_elems(v).contains(
            n as usize,
        ) by {
            lemma_hex_coords(n);
        }
    }
    v
}

/// Appends one adjacent cell, keeping the list's contract.
fn push_neighbor(v: &mut NeighborList, idx: usize, nr: usize, nc: usize)
    requires
        idx < 121,
        nr < 11,
        nc < 11,
        hex_adjacent(idx as int, (nr * 11 + nc) as int),
        forall|p: int|
            0 <= p < nb_elems(*old(v)).len() ==> #[trigger] hex_adjacent(
                idx as int,
                nb_elems(*old(v))[p] as int,
            ),
        forall|p: int|
            0 <= p < nb_elems(*old(v)).len() ==> nb_elems(*old(v))[p] != (nr * 11 + nc) as usize,
        forall|p: int, q: int|
            0 <= p < q < nb_elems(*old(v)).len() ==> nb_elems(*old(v))[p] != nb_elems(*old(v))[q],
    ensures
        nb_elems(*final(v)) == nb_elems(*old(v)).push((nr * 11 + nc) as usize),
        forall|p: int|
            0 <= p < nb_elems(*final(v)).len() ==> #[trigger] hex_adjacent(
                idx as int,
                nb_elems(*final(v))[p] as int,
            ),
        forall|p: int, q: int|
            0 <= p < q < nb_elems(*final(v)).len() ==> nb_elems(*final(v))[p] != nb_elems(
                *final(v),
            )[q],
        nb_elems(*final(v)).contains((nr * 11 + nc) as usize),
        forall|y: usize|
            nb_elems(*old(v)).contains(y) ==> #[trigger] nb_elems(*final(v)).contains(y),
{
    let n = nr * 11 + nc;
    let ghost before = nb_elems(*v);
    nb_push(v, n);
    proof {
        lemma_push_contains(before, n, n);
        assert forall|y: usize|
            before.contains(y) implies #[trigger] nb_elems(*v).contains(y) by {
            lemma_push_contains(before, n, y);
        }
    }
}

/// How many cells below `n` are adjacent to `idx` and held by `who`.
pub open spec fn adj_count(board: Seq<Player>, idx: int, who: Player, n: int) -> nat
    decreases n,
{
    if n <= 0 {
        0
    } else {
        adj_count(board, idx, who, n - 1) + (if hex_adjacent(idx, n - 1) && board[n - 1] == who {
            1nat
        } else {
            0nat
        })
    }
}

pub struct HexState {
    pub board: Vec<Player>,
    pub empty_cells: Vec<usize>,
    pub empty_cells_map: Vec<usize>,
    pub uf_human: UnionFind,
    pub uf_ai: UnionFind,
    pub last_move: Option<usize>,
    pub turn_count: usize,
}

impl HexState {
    /// Well-formedness: sized boards, the empty list and its inverse map in
    /// agreement with the board, and two sound union-finds over the cells
    /// plus the two virtual edge nodes.
    pub open spec fn wf(self) -> bool {
        &&& self.board@.len() == 121
        &&& self.empty_cells_map@.len() == 121
        &&& self.empty_cells@.len() <= 121
        &&& forall|p: int|
            0 <= p < self.empty_cells@.len() ==> (#[trigger] self.empty_cells@[p]) < 121
                && self.board@[self.empty_cells@[p] as int] == Player::Nobody
                && self.empty_cells_map@[self.empty_cells@[p] as int] == p
        &&& forall|i: int|
            0 <= i < 121 && #[trigger] self.board@[i] == Player::Nobody ==> (
            self.empty_cells_map@[i] as int) < self.empty_cells@.len()
                && self.empty_cells@[self.empty_cells_map@[i] as int] == i
        &&& self.uf_human.wf()
        &&& self.uf_human.n() == 123
        &&& self.uf_ai.wf()
        &&& self.uf_ai.n() == 123
        &&& self.turn_count == 121 - self.empty_cells@.len()
        &&& self.last_move is Some ==> self.last_move->0 < 121
    }

    /// A fresh, empty board, with the edge cells pre-joined to their virtual
    /// nodes.
    pub fn new() -> (s: HexState)
        ensures
            s.wf(),
            forall|i: int| 0 <= i < 121 ==> #[trigger] s.board@[i] == Player::Nobody,
            s.empty_cells@.len() == 121,
            s.turn_count == 0,
            s.last_move is None,
    {
        let mut board: Vec<Player> = Vec::new();
        let mut empty_cells: Vec<usize> = Vec::new();
        let mut empty_cells_map: Vec<usize> = Vec::new();
        let mut i: usize = 0;
        while i < 121
            invariant
                i <= 121,
                board@.len() == i,
                empty_cells@.len() == i,
                empty_cells_map@.len() == i,
                forall|j: int| 0 <= j < i ==> #[trigger] board@[j] == Player::Nobody,
                forall|j: int| 0 <= j < i ==> #[trigger] empty_cells@[j] == j,
                forall|j: int| 0 <= j < i ==> #[trigger] empty_cells_map@[j] == j,
            decreases 121 - i,
        {
            board.push(Player::Nobody);
            empty_cells.push(i);
            empty_cells_map.push(i);
            i = i + 1;
        }
        let mut s = HexState {
            board,
            empty_cells,
            empty_cells_map,
            uf_human: UnionFind::new(123),
            uf_ai: UnionFind::new(123),
            last_move: None,
            turn_count: 0,
        };
        let mut r: usize = 0;
        while r < 11
            invariant
                r <= 11,
                s.wf(),
                s.board@.len() == 121,
                forall|i2: int| 0 <= i2 < 121 ==> #[trigger] s.board@[i2] == Player::Nobody,
                s.empty_cells@.len() == 121,
                s.turn_count == 0,
                s.last_move is None,
            decreases 11 - r,
        {
            let mut c: usize = 0;
            while c < 11
                invariant
                    r < 11,
                    c <= 11,
                    s.wf(),
                    s.board@.len() == 121,
                    forall|i2: int| 0 <= i2 < 121 ==> #[trigger] s.board@[i2] == Player::Nobody,
                    s.empty_cells@.len() == 121,
                    s.turn_count == 0,
                    s.last_move is None,
                decreases 11 - c,
            {
                let idx = r * BOARD_COLS + c;
                proof {
                    lemma_hex_cell(r as int, c as int);
                }
                if c == 0 {
                    s.uf_human.union(idx, VIRTUAL_A);
                }
                if c == BOARD_COLS - 1 {
                    s.uf_human.union(idx, VIRTUAL_B);
                }
                if r == 0 {
                    s.uf_ai.union(idx, VIRTUAL_A);
                }
                if r == BOARD_ROWS - 1 {
                    s.uf_ai.union(idx, VIRTUAL_B);
                }
                c = c + 1;
            }
            r = r + 1;
        }
        s
    }

    /// Places a stone for `player`, keeps the empty list and its inverse in
    /// step by a swap-removal, and joins the stone to its same-colored
    /// neighbors in that side's union-find.
    ///
    /// A move onto a non-empty cell is refused and changes nothing.
    pub fn make_move(&mut self, idx: usize, player: Player)
        requires
            old(self).wf(),
            idx < 121,
            player != Player::Nobody,
        ensures
            final(self).wf(),
            old(self).board@[idx as int] != Player::Nobody ==> *final(self) == *old(self),
            old(self).board@[idx as int] == Player::Nobody ==> {
                &&& final(self).board@ == old(self).board@.update(idx as int, player)
                &&& final(self).empty_cells@.len() == old(self).empty_cells@.len() - 1
                &&& final(self).last_move == Some(idx)
                &&& final(self).turn_count == old(self).turn_count + 1
                &&& (player == Player::Human ==> final(self).uf_ai == old(self).uf_ai)
                &&& (player == Player::AI ==> final(self).uf_human == old(self).uf_human)
                &&& uf_extended_by_neighbors(
                    if player == Player::Human {
                        old(self).uf_human
                    } else {
                        old(self).uf_ai
                    },
                    if player == Player::Human {
                        final(self).uf_human
                    } else {
                        final(self).uf_ai
                    },
                    old(self).board@,
                    idx as int,
                    player,
                )
                &&& player == Player::Human ==> forall|n: int|
                    #[trigger] hex_adjacent(idx as int, n) && old(self).board@[n] == player
                        ==> linked(final(self).uf_human.hist@, idx as int, n)
                &&& player == Player::AI ==> forall|n: int|
                    #[trigger] hex_adjacent(idx as int, n) && old(self).board@[n] == player
                        ==> linked(final(self).uf_ai.hist@, idx as int, n)
            },
    {
        if !matches!(self.board[idx], Player::Nobody) {
            return;
        }
        let ghost before = *self;
        self.board[idx] = player;
        self.last_move = Some(idx);

        let vec_idx = self.empty_cells_map[idx];
        let last_elem_idx = self.empty_cells.len() - 1;
        let last_elem = self.empty_cells[last_elem_idx];
        let moved = self.empty_cells[vec_idx];
        proof {
            assert(moved == idx);
        }
        let _ = self.empty_cells.swap_remove(vec_idx);
        if vec_idx != last_elem_idx {
            self.empty_cells_map[last_elem] = vec_idx;
        }
        proof {
            assert forall|p: int|
                0 <= p < self.empty_cells@.len() implies (#[trigger] self.empty_cells@[p]) < 121
                && self.board@[self.empty_cells@[p] as int] == Player::Nobody
                && self.empty_cells_map@[self.empty_cells@[p] as int] == p by {
                if p == vec_idx as int {
                    assert(self.empty_cells@[p] == last_elem);
                } else {
                    assert(self.empty_cells@[p] == before.empty_cells@[p]);
                    assert(before.empty_cells@[p] != idx);
                    assert(before.empty_cells@[p] != last_elem || p == last_elem_idx as int);
                }
            }
            assert forall|i: int|
                0 <= i < 121 && #[trigger] self.board@[i] == Player::Nobody implies (
            self.empty_cells_map@[i] as int) < self.empty_cells@.len()
                && self.empty_cells@[self.empty_cells_map@[i] as int] == i by {
                assert(before.board@[i] == Player::Nobody && i != idx);
                let p = before.empty_cells_map@[i] as int;
                assert(before.empty_cells@[p] == i);
                if i == last_elem as int && vec_idx != last_elem_idx {
                    assert(self.empty_cells_map@[i] == vec_idx);
                    assert(self.empty_cells@[vec_idx as int] == last_elem);
                } else {
                    assert(p != last_elem_idx as int || i == last_elem as int);
                    assert(self.empty_cells_map@[i] as int == p);
                    assert(p < self.empty_cells@.len());
                    assert(self.empty_cells@[p] == i);
                }
            }
        }
        let neighbors = get_neighbors(idx);
        let count = nb_len(&neighbors);
        let mut k: usize = 0;
        let ghost base_h = self.uf_human;
        let ghost base_a = self.uf_ai;
        let ghost mid = *self;
        proof {
            assert(self.uf_human.hist@.subrange(0, base_h.hist@.len() as int) =~= base_h.hist@);
            assert(self.uf_ai.hist@.subrange(0, base_a.hist@.len() as int) =~= base_a.hist@);
        }
        while k < count
            invariant
                k <= count,
                count == nb_elems(neighbors).len(),
                idx < 121,
                player != Player::Nobody,
                before == *old(self),
                before.wf(),
                before.board@[idx as int] == Player::Nobody,
                self.board == mid.board,
                self.empty_cells == mid.empty_cells,
                self.empty_cells_map == mid.empty_cells_map,
                self.last_move == mid.last_move,
                self.turn_count == mid.turn_count,
                self.board@.len() == 121,
                forall|p: int|
                    0 <= p < nb_elems(neighbors).len() ==> #[trigger] hex_adjacent(
                        idx as int,
                        nb_elems(neighbors)[p] as int,
                    ),
                player == Player::Human ==> forall|p: int|
                    0 <= p < k && before.board@[(#[trigger] nb_elems(neighbors)[p]) as int]
                        == player ==> linked(
                        self.uf_human.hist@,
                        idx as int,
                        nb_elems(neighbors)[p] as int,
                    ),
                player == Player::AI ==> forall|p: int|
                    0 <= p < k && before.board@[(#[trigger] nb_elems(neighbors)[p]) as int]
                        == player ==> linked(
                        self.uf_ai.hist@,
                        idx as int,
                        nb_elems(neighbors)[p] as int,
                    ),
                self.uf_human.wf() && self.uf_human.n() == 123,
                self.uf_ai.wf() && self.uf_ai.n() == 123,
                player == Player::Human ==> self.uf_ai == base_a,
                player == Player::AI ==> self.uf_human == base_h,
                self.board@ == before.board@.update(idx as int, player),
                uf_extended_by_neighbors(
                    if player == Player::Human {
                        base_h
                    } else {
                        base_a
                    },
                    if player == Player::Human {
                        self.uf_human
                    } else {
                        self.uf_ai
                    },
                    before.board@,
                    idx as int,
                    player,
                ),
            decreases count - k,
        {
            let n = nb_get(&neighbors, k);
            proof {
                assert(hex_adjacent(idx as int, n as int));
                assert(n != idx) by {
                    lemma_hex_coords(idx as int);
                }
            }
            if matches!(player, Player::Human) {
                if matches!(self.board[n], Player::Human) && n != idx {
                    proof {
                        assert(n < 121);
                        assert(self.board@[n as int] == Player::Human);
                        assert(before.board@[n as int] == Player::Human);
                    }
                    let ghost h_old = self.uf_human.hist@;
                    self.uf_human.union(idx, n);
                    proof {
                        let h_new = self.uf_human.hist@;
                        assert(h_new == h_old.push((idx as int, n as int)));
                        assert(self.uf_human.same(idx as int, n as int));
                        assert(linked(h_new, idx as int, n as int));
                        assert forall|p: int|
                            0 <= p < k && before.board@[(#[trigger] nb_elems(neighbors)[p]) as int]
                                == player implies linked(
                            h_new,
                            idx as int,
                            nb_elems(neighbors)[p] as int,
                        ) by {
                            crate::unionfind::lemma_linked_extend(
                                h_old,
                                (idx as int, n as int),
                                idx as int,
                                nb_elems(neighbors)[p] as int,
                            );
                        }
                        assert(h_new.subrange(0, base_h.hist@.len() as int) =~= base_h.hist@);
                        assert forall|k2: int|
                            base_h.hist@.len() <= k2 < h_new.len() implies (#[trigger] h_new[k2]).0
                            == idx as int && hex_adjacent(idx as int, h_new[k2].1)
                            && before.board@[h_new[k2].1] == player by {
                            if k2 < h_old.len() {
                                assert(h_new[k2] == h_old[k2]);
                            } else {
                                assert(h_new[k2] == (idx as int, n as int));
                                assert(before.board@[n as int] == player);
                            }
                        }
                    }
                }
            } else {
                if matches!(self.board[n], Player::AI) && n != idx {
                    proof {
                        assert(n < 121);
                        assert(self.board@[n as int] == Player::AI);
                        assert(before.board@[n as int] == Player::AI);
                        assert(player == Player::AI);
                    }
                    let ghost h_old = self.uf_ai.hist@;
                    self.uf_ai.union(idx, n);
                    proof {
                        let h_new = self.uf_ai.hist@;
                        assert(h_new == h_old.push((idx as int, n as int)));
                        assert(self.uf_ai.same(idx as int, n as int));
                        assert(linked(h_new, idx as int, n as int));
                        assert forall|p: int|
                            0 <= p < k && before.board@[(#[trigger] nb_elems(neighbors)[p]) as int]
                                == player implies linked(
                            h_new,
                            idx as int,
                            nb_elems(neighbors)[p] as int,
                        ) by {
                            crate::unionfind::lemma_linked_extend(
                                h_old,
                                (idx as int, n as int),
                                idx as int,
                                nb_elems(neighbors)[p] as int,
                            );
                        }
                        assert(h_new.subrange(0, base_a.hist@.len() as int) =~= base_a.hist@);
                        assert forall|k2: int|
                            base_a.hist@.len() <= k2 < h_new.len() implies (#[trigger] h_new[k2]).0
                            == idx as int && hex_adjacent(idx as int, h_new[k2].1)
                            && before.board@[h_new[k2].1] == player by {
                            if k2 < h_old.len() {
                                assert(h_new[k2] == h_old[k2]);
                            } else {
                                assert(h_new[k2] == (idx as int, n as int));
                                assert(before.board@[n as int] == player);
                            }
                        }
                    }
                }
            }
            k = k + 1;
        }
        proof {
            assert((before.empty_cells_map@[idx as int] as int) < before.empty_cells@.len());
            assert(before.empty_cells@.len() >= 1);
            assert(before.turn_count < 121);
            if player == Player::Human {
                assert forall|n2: int|
                    #[trigger] hex_adjacent(idx as int, n2) && before.board@[n2] == player
                        implies linked(self.uf_human.hist@, idx as int, n2) by {
                    assert(nb_elems(neighbors).contains(n2 as usize));
                    let p = choose|p: int|
                        0 <= p < nb_elems(neighbors).len() && nb_elems(neighbors)[p] == n2 as usize;
                    assert(before.board@[nb_elems(neighbors)[p] as int] == player);
                }
            } else {
                assert forall|n2: int|
                    #[trigger] hex_adjacent(idx as int, n2) && before.board@[n2] == player
                        implies linked(self.uf_ai.hist@, idx as int, n2) by {
                    assert(nb_elems(neighbors).contains(n2 as usize));
                    let p = choose|p: int|
                        0 <= p < nb_elems(neighbors).len() && nb_elems(neighbors)[p] == n2 as usize;
                    assert(before.board@[nb_elems(neighbors)[p] as int] == player);
                }
            }
        }
        self.turn_count = self.turn_count + 1;
    }

    /// A value-equal copy, branched off for one search line.
    pub fn duplicate(&self) -> (r: HexState)
        ensures
            r.board@ == self.board@,
            r.empty_cells@ == self.empty_cells@,
            r.empty_cells_map@ == self.empty_cells_map@,
            r.uf_human.hist@ == self.uf_human.hist@,
            r.uf_ai.hist@ == self.uf_ai.hist@,
            r.last_move == self.last_move,
            r.turn_count == self.turn_count,
            self.wf() ==> r.wf(),
    {
        let mut board: Vec<Player> = Vec::new();
        let mut i: usize = 0;
        while i < self.board.len()
            invariant
                i <= self.board@.len(),
                board@ =~= self.board@.subrange(0, i as int),
            decreases self.board@.len() - i,
        {
            board.push(self.board[i]);
            proof {
                assert(board@ =~= self.board@.subrange(0, i + 1 as int));
            }
            i = i + 1;
        }
        proof {
            assert(board@ =~= self.board@);
        }
        let r = HexState {
            board,
            empty_cells: crate::mcts::clone_usize_vec(&self.empty_cells),
            empty_cells_map: crate::mcts::clone_usize_vec(&self.empty_cells_map),
            uf_human: self.uf_human.duplicate(),
            uf_ai: self.uf_ai.duplicate(),
            last_move: self.last_move,
            turn_count: self.turn_count,
        };
        r
    }

    /// The side, if any, whose two edges are joined.
    pub fn check_winner(&mut self) -> (w: Player)
        requires
            old(self).wf(),
        ensures
            final(self).wf(),
            final(self).board == old(self).board,
            final(self).empty_cells == old(self).empty_cells,
            final(self).empty_cells_map == old(self).empty_cells_map,
            final(self).last_move == old(self).last_move,
            final(self).turn_count == old(self).turn_count,
            final(self).uf_human.hist@ == old(self).uf_human.hist@,
            final(self).uf_ai.hist@ == old(self).uf_ai.hist@,
            w == (if linked(old(self).uf_human.hist@, VIRTUAL_A as int, VIRTUAL_B as int) {
                Player::Human
            } else if linked(old(self).uf_ai.hist@, VIRTUAL_A as int, VIRTUAL_B as int) {
                Player::AI
            } else {
                Player::Nobody
            }),
    {
        if self.uf_human.connected(VIRTUAL_A, VIRTUAL_B) {
            return Player::Human;
        }
        if self.uf_ai.connected(VIRTUAL_A, VIRTUAL_B) {
            return Player::AI;
        }
        Player::Nobody
    }

    /// Worth of a cell for `player` under the bridge heuristic: a bonus for
    /// joining two own stones, a larger one for splitting two opposing
    /// stones.
    pub fn evaluate_bridge_potential(&self, idx: usize, player: Player) -> (score: i32)
        requires
            self.wf(),
            idx < 121,
            player != Player::Nobody,
        ensures
            ({
                let opp = if player == Player::Human {
                    Player::AI
                } else {
                    Player::Human
                };
                score == (if adj_count(self.board@, idx as int, player, 121) >= 2 {
                    40int
                } else {
                    0int
                }) + (if adj_count(self.board@, idx as int, opp, 121) >= 2 {
                    60int
                } else {
                    0int
                })
            }),
    {
        let opp = player.opponent();
        let mut my_neighbors: u32 = 0;
        let mut opp_neighbors: u32 = 0;
        let mut b: usize = 0;
        while b < 121
            invariant
                self.wf(),
                idx < 121,
                b <= 121,
                player != Player::Nobody,
                opp == (if player == Player::Human {
                    Player::AI
                } else {
                    Player::Human
                }),
                my_neighbors == adj_count(self.board@, idx as int, player, b as int),
                opp_neighbors == adj_count(self.board@, idx as int, opp, b as int),
                my_neighbors <= b,
                opp_neighbors <= b,
            decreases 121 - b,
        {
            if is_hex_adjacent(idx, b) {
                let cell = self.board[b];
                if cell == player {
                    my_neighbors = my_neighbors + 1;
                } else if cell == opp {
                    opp_neighbors = opp_neighbors + 1;
                }
            } else {
                proof {
                    assert(!hex_adjacent(idx as int, b as int));
                }
            }
            b = b + 1;
        }
        let mut score: i32 = 0;
        if my_neighbors >= 2 {
            score = score + 40;
        }
        if opp_neighbors >= 2 {
            score = score + 60;
        }
        score
    }
}

/// The extended union-find keeps its size, and its history grows only by
/// unions of `idx` with cells adjacent to it that `board` shows for `player`.
pub open spec fn uf_extended_by_neighbors(
    base: UnionFind,
    ext: UnionFind,
    board: Seq<Player>,
    idx: int,
    player: Player,
) -> bool {
    &&& ext.n() == base.n()
    &&& ext.hist@.len() >= base.hist@.len()
    &&& ext.hist@.subrange(0, base.hist@.len() as int) == base.hist@
    &&& forall|k: int|
        base.hist@.len() <= k < ext.hist@.len() ==> (#[trigger] ext.hist@[k]).0 == idx
            && hex_adjacent(idx, ext.hist@[k].1) && board[ext.hist@[k].1] == player
}

/// Decides hex adjacency of two cells.
pub fn is_hex_adjacent(a: usize, b: usize) -> (r: bool)
    requires
        a < 121,
        b < 121,
    ensures
        r == hex_adjacent(a as int, b as int),
{
    proof {
        lemma_hex_coords(a as int);
        lemma_hex_coords(b as int);
    }
    let ra = a / 11;
    let ca = a % 11;
    let rb = b / 11;
    let cb = b % 11;
    if ra % 2 == 0 {
        (rb + 1 == ra && cb + 1 == ca) || (rb + 1 == ra && cb == ca) || (rb == ra && cb + 1 == ca)
            || (rb == ra && cb == ca + 1) || (rb == ra + 1 && cb + 1 == ca) || (rb == ra + 1 && cb
            == ca)
    } else {
        (rb + 1 == ra && cb == ca) || (rb + 1 == ra && cb == ca + 1) || (rb == ra && cb + 1 == ca)
            || (rb == ra && cb == ca + 1) || (rb == ra + 1 && cb == ca) || (rb == ra + 1 && cb == ca
            + 1)
    }
}

} // verus!
