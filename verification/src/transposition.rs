//! Transposition table with Zobrist hashing for the 7 x 7 queen-move game.
//!
//! Positions are hashed by XOR-ing one fixed pseudo-random word per piece
//! placement, per destroyed cell, and one for the side to move.  The words
//! come from a fixed linear congruential stream, so the same position always
//! hashes to the same value.  The table maps hashes to scored entries with a
//! depth-preferred replacement policy and whole-table eviction at the cap.

use vstd::prelude::*;
use std::collections::HashMap;
use crate::bitboard::{bit, valid_cell, test_bit, lemma_coord_bounds};
use crate::board::{GameState, Move, piece_cell, lemma_piece_cell};
use crate::partition::cell_mask;

verus! {

broadcast use vstd::std_specs::hash::group_hash_axioms;

/// Kind of score bound stored in a table entry.
#[derive(Clone, Copy, Debug, PartialEq, Eq, Structural)]
pub enum Bound {
    Exact,
    Lower,
    Upper,
}

/// One stored search result.
#[derive(Clone, Copy, Debug)]
pub struct TTEntry {
    pub hash: u64,
    pub depth: u8,
    pub score: i32,
    pub bound: Bound,
    pub best_move: Option<Move>,
    pub generation: u8,
}

/// One step of the fixed linear congruential generator.
#[verifier::opaque]
pub open spec fn lcg_next(s: u64) -> u64 {
    vstd::wrapping::u64_specs::wrapping_add(
        vstd::wrapping::u64_specs::wrapping_mul(s, 6364136223846793005u64),
        1442695040888963407u64,
    )
}

/// The generator's value after `n` steps from the fixed seed.
pub open spec fn lcg_iter(n: nat) -> u64
    decreases n,
{
    if n == 0 {
        0x123456789ABCDEFu64
    } else {
        lcg_next(lcg_iter((n - 1) as nat))
    }
}

/// XOR of `tbl[i]` over the cells `i < n` present in `bb`.
pub open spec fn xor_fold(tbl: Seq<u64>, bb: u64, n: int) -> u64
    decreases n,
{
    if n <= 0 {
        0
    } else {
        xor_fold(tbl, bb, n - 1) ^ (if bit(bb, n - 1) {
            tbl[n - 1]
        } else {
            0
        })
    }
}

/// Saturating increment, used for the hit/miss counters.
pub open spec fn sat_inc(x: u64) -> u64 {
    if x == 0xFFFF_FFFF_FFFF_FFFFu64 {
        x
    } else {
        (x + 1) as u64
    }
}

/// The probe policy over the table model: an entry is returned when its hash
/// matches and either its depth suffices for a usable score, or it carries a
/// move worth trying first.
pub open spec fn probe_spec(
    m: Map<u64, TTEntry>,
    hash: u64,
    depth: u8,
    alpha: i32,
    beta: i32,
) -> Option<TTEntry> {
    if m.contains_key(hash) {
        let e = m[hash];
        if e.hash != hash {
            None
        } else if e.depth >= depth && (e.bound == Bound::Exact || (e.bound == Bound::Lower
            && e.score >= beta) || (e.bound == Bound::Upper && e.score <= alpha)) {
            Some(e)
        } else if e.best_move is Some {
            Some(e)
        } else {
            None
        }
    } else {
        None
    }
}

/// Whether a probe with these arguments counts as a hit.
pub open spec fn probe_is_hit(m: Map<u64, TTEntry>, hash: u64, depth: u8, alpha: i32, beta: i32) -> bool {
    m.contains_key(hash) && m[hash].hash == hash && m[hash].depth >= depth && (m[hash].bound
        == Bound::Exact || (m[hash].bound == Bound::Lower && m[hash].score >= beta) || (
    m[hash].bound == Bound::Upper && m[hash].score <= alpha))
}

/// The replacement policy: store over an existing entry only when the new
/// search is deeper, equally deep but exact, or the old entry is stale.
pub open spec fn should_replace(m: Map<u64, TTEntry>, hash: u64, depth: u8, bound: Bound, gen: u8) -> bool {
    if m.contains_key(hash) {
        let e = m[hash];
        ||| depth > e.depth
        ||| (depth == e.depth && bound == Bound::Exact)
        ||| e.generation < (if gen >= 2 {
            (gen - 2) as u8
        } else {
            0
        })
    } else {
        true
    }
}

/// The table model after a store.
pub open spec fn store_spec(
    m: Map<u64, TTEntry>,
    hash: u64,
    depth: u8,
    score: i32,
    bound: Bound,
    best_move: Option<Move>,
    gen: u8,
) -> Map<u64, TTEntry> {
    if should_replace(m, hash, depth, bound, gen) {
        m.insert(hash, TTEntry { hash, depth, score, bound, best_move, generation: gen })
    } else {
        m
    }
}

/// Storing an `Exact` entry under a fresh hash and probing the same hash at
/// any depth not exceeding the stored one returns exactly the stored score
/// and move, whatever the probe window.
pub proof fn lemma_tt_round_trip(
    m: Map<u64, TTEntry>,
    hash: u64,
    depth: u8,
    score: i32,
    best_move: Option<Move>,
    gen: u8,
    probe_depth: u8,
    alpha: i32,
    beta: i32,
)
    requires
        !m.contains_key(hash),
        probe_depth <= depth,
    ensures
        probe_spec(
            store_spec(m, hash, depth, score, Bound::Exact, best_move, gen),
            hash,
            probe_depth,
            alpha,
            beta,
        ) == Some(TTEntry { hash, depth, score, bound: Bound::Exact, best_move, generation: gen }),
{
}

/// Advances the fixed linear congruential generator.
fn lcg_step(s: u64) -> (r: u64)
    ensures
        r == lcg_next(s),
{
    proof {
        reveal(lcg_next);
    }
    s.wrapping_mul(6364136223846793005u64).wrapping_add(1442695040888963407u64)
}

pub struct TranspositionTable {
    pub table: HashMap<u64, TTEntry>,
    pub zobrist_player: Vec<u64>,
    pub zobrist_ai: Vec<u64>,
    pub zobrist_destroyed: Vec<u64>,
    pub zobrist_turn: u64,
    pub hits: u64,
    pub misses: u64,
    pub current_generation: u8,
    pub max_entries: usize,
}

impl TranspositionTable {
    /// The Zobrist words are the fixed generator stream, interleaved three per
    /// cell, the turn word last.
    pub open spec fn wf(self) -> bool {
        &&& self.zobrist_player@.len() == 49
        &&& self.zobrist_ai@.len() == 49
        &&& self.zobrist_destroyed@.len() == 49
        &&& forall|i: int|
            0 <= i < 49 ==> #[trigger] self.zobrist_player@[i] == lcg_iter((3 * i + 1) as nat)
        &&& forall|i: int|
            0 <= i < 49 ==> #[trigger] self.zobrist_ai@[i] == lcg_iter((3 * i + 2) as nat)
        &&& forall|i: int|
            0 <= i < 49 ==> #[trigger] self.zobrist_destroyed@[i] == lcg_iter((3 * i + 3) as nat)
        &&& self.zobrist_turn == lcg_iter(148)
    }

    /// The current generation stamp.
    pub open spec fn generation(self) -> u8 {
        self.current_generation
    }

    /// The entry cap.
    pub open spec fn cap(self) -> int {
        self.max_entries as int
    }

    /// The stored entries, as a map from hash to entry.
    pub open spec fn entries(self) -> Map<u64, TTEntry> {
        self.table@
    }

    /// The hash of a position: one word per piece placement, one per
    /// destroyed cell, one for the side to move.
    pub open spec fn hash_spec(self, state: GameState, is_ai_turn: bool) -> u64 {
        self.zobrist_player@[state.player_idx()] ^ self.zobrist_ai@[state.ai_idx()] ^ xor_fold(
            self.zobrist_destroyed@,
            state.destroyed,
            49,
        ) ^ (if is_ai_turn {
            self.zobrist_turn
        } else {
            0
        })
    }

    /// Creates a table with the fixed Zobrist words and an empty entry map.
    ///
    /// Because the words are a fixed stream, two tables always agree: hashing
    /// is deterministic across table instances.
    #[verifier::rlimit(60)]
    pub fn new() -> (tt: TranspositionTable)
        ensures
            tt.wf(),
            tt.entries() == Map::<u64, TTEntry>::empty(),
            tt.hits == 0,
            tt.misses == 0,
            tt.generation() == 0,
            tt.cap() == 500000,
    {
        let mut seed: u64 = 0x123456789ABCDEFu64;
        let ghost mut steps: nat = 0;
        let mut zobrist_player: Vec<u64> = Vec::new();
        let mut zobrist_ai: Vec<u64> = Vec::new();
        let mut zobrist_destroyed: Vec<u64> = Vec::new();
        let mut i: usize = 0;
        while i < 49
            invariant
                i <= 49,
                steps == 3 * i,
                seed == lcg_iter(steps),
                zobrist_player@.len() == i,
                zobrist_ai@.len() == i,
                zobrist_destroyed@.len() == i,
                forall|j: int|
                    0 <= j < i ==> #[trigger] zobrist_player@[j] == lcg_iter((3 * j + 1) as nat),
                forall|j: int|
                    0 <= j < i ==> #[trigger] zobrist_ai@[j] == lcg_iter((3 * j + 2) as nat),
                forall|j: int|
                    0 <= j < i ==> #[trigger] zobrist_destroyed@[j] == lcg_iter((3 * j + 3) as nat),
            decreases 49 - i,
        {
            seed = lcg_step(seed);
            proof {
                steps = steps + 1;
                assert(seed == lcg_iter(steps));
            }
            zobrist_player.push(seed);
            seed = lcg_step(seed);
            proof {
                steps = steps + 1;
                assert(seed == lcg_iter(steps));
            }
            zobrist_ai.push(seed);
            seed = lcg_step(seed);
            proof {
                steps = steps + 1;
                assert(seed == lcg_iter(steps));
            }
            zobrist_destroyed.push(seed);
            i = i + 1;
        }
        let zobrist_turn = lcg_step(seed);
        proof {
            assert(zobrist_turn == lcg_iter(148));
        }
        TranspositionTable {
            table: HashMap::new(),
            zobrist_player,
            zobrist_ai,
            zobrist_destroyed,
            zobrist_turn,
            hits: 0,
            misses: 0,
            current_generation: 0,
            max_entries: 500000,
        }
    }

    /// Hashes a game state and side to move.
    ///
    /// The result depends only on the position and turn, so hashing the same
    /// state twice always yields the same hash.
    pub fn compute_hash(&self, state: &GameState, is_ai_turn: bool) -> (h: u64)
        requires
            self.wf(),
            state.wf(),
        ensures
            h == self.hash_spec(*state, is_ai_turn),
    {
        let player_idx = crate::board::piece_index(state.player);
        let ai_idx = crate::board::piece_index(state.ai);
        let mut hash = self.zobrist_player[player_idx as usize] ^ self.zobrist_ai[ai_idx as usize];
        let ghost base: u64 = hash;
        proof {
            lemma_xor_zero(base);
        }
        let mut i: u8 = 0;
        while i < 49
            invariant
                self.wf(),
                i <= 49,
                hash == base ^ xor_fold(self.zobrist_destroyed@, state.destroyed, i as int),
            decreases 49 - i,
        {
            if test_bit(state.destroyed, i) {
                proof {
                    lemma_xor_assoc(base, xor_fold(self.zobrist_destroyed@, state.destroyed, i as int), self.zobrist_destroyed@[i as int]);
                }
                hash = hash ^ self.zobrist_destroyed[i as usize];
            } else {
                proof {
                    lemma_xor_zero(xor_fold(self.zobrist_destroyed@, state.destroyed, i as int));
                }
            }
            i = i + 1;
        }
        if is_ai_turn {
            hash = hash ^ self.zobrist_turn;
        } else {
            proof {
                lemma_xor_zero(hash);
            }
        }
        hash
    }

    /// Hashing is deterministic across table instances: any two tables with
    /// the fixed Zobrist stream give every position and turn the same hash.
    pub proof fn lemma_hash_deterministic(
        t1: TranspositionTable,
        t2: TranspositionTable,
        state: GameState,
        is_ai_turn: bool,
    )
        requires
            t1.wf(),
            t2.wf(),
            state.wf(),
        ensures
            t1.hash_spec(state, is_ai_turn) == t2.hash_spec(state, is_ai_turn),
    {
        lemma_xor_fold_congruent(t1.zobrist_destroyed@, t2.zobrist_destroyed@, state.destroyed, 49);
        lemma_coord_bounds(state.player_idx());
        lemma_coord_bounds(state.ai_idx());
    }

    /// Looks up a hash, counting a hit when the stored entry's depth and
    /// bound make its score usable at this depth and window.
    pub fn probe(&mut self, hash: u64, depth: u8, alpha: i32, beta: i32) -> (r: Option<TTEntry>)
        ensures
            r == probe_spec(old(self).entries(), hash, depth, alpha, beta),
            final(self).entries() == old(self).entries(),
            probe_is_hit(old(self).entries(), hash, depth, alpha, beta) ==> final(self).hits == sat_inc(
                old(self).hits,
            ) && final(self).misses == old(self).misses,
            !probe_is_hit(old(self).entries(), hash, depth, alpha, beta) ==> final(self).misses
                == sat_inc(old(self).misses) && final(self).hits == old(self).hits,
            final(self).wf() == old(self).wf(),
            final(self).generation() == old(self).generation(),
            final(self).cap() == old(self).cap(),
    {
        let entry = self.table.get(&hash);
        match entry {
            Some(e) => {
                if e.hash != hash {
                    let r: Option<TTEntry> = None;
                    self.misses = sat_inc_exec(self.misses);
                    return r;
                }
                if e.depth >= depth {
                    let usable = match e.bound {
                        Bound::Exact => true,
                        Bound::Lower => e.score >= beta,
                        Bound::Upper => e.score <= alpha,
                    };
                    if usable {
                        let r = Some(*e);
                        self.hits = sat_inc_exec(self.hits);
                        return r;
                    }
                }
                if e.best_move.is_some() {
                    let r = Some(*e);
                    self.misses = sat_inc_exec(self.misses);
                    return r;
                }
                self.misses = sat_inc_exec(self.misses);
                None
            },
            None => {
                self.misses = sat_inc_exec(self.misses);
                None
            },
        }
    }

    /// Stores an entry under the replacement policy, clearing the whole table
    /// first when it has reached its cap.
    pub fn store(&mut self, hash: u64, depth: u8, score: i32, bound: Bound, best_move: Option<Move>)
        ensures
            ({
                let base = if old(self).entries().len() >= old(self).cap() {
                    Map::<u64, TTEntry>::empty()
                } else {
                    old(self).entries()
                };
                final(self).entries() == store_spec(
                    base,
                    hash,
                    depth,
                    score,
                    bound,
                    best_move,
                    old(self).generation(),
                )
            }),
            final(self).hits == old(self).hits,
            final(self).misses == old(self).misses,
            final(self).wf() == old(self).wf(),
            final(self).generation() == old(self).generation(),
            final(self).cap() == old(self).cap(),
    {
        if self.table.len() >= self.max_entries {
            self.table.clear();
        }
        let replace = match self.table.get(&hash) {
            Some(existing) => {
                let stale_bar = if self.current_generation >= 2 {
                    self.current_generation - 2
                } else {
                    0
                };
                depth > existing.depth || (depth == existing.depth && bound == Bound::Exact)
                    || existing.generation < stale_bar
            },
            None => true,
        };
        if replace {
            let entry = TTEntry {
                hash,
                depth,
                score,
                bound,
                best_move,
                generation: self.current_generation,
            };
            self.table.insert(hash, entry);
        }
    }

    /// Empties the table and resets the counters and generation.
    pub fn clear(&mut self)
        ensures
            final(self).entries() == Map::<u64, TTEntry>::empty(),
            final(self).hits == 0,
            final(self).misses == 0,
            final(self).generation() == 0,
            final(self).wf() == old(self).wf(),
            final(self).cap() == old(self).cap(),
    {
        self.table.clear();
        self.hits = 0;
        self.misses = 0;
        self.current_generation = 0;
    }

    /// Starts a new top-level search: bumps the generation and resets the
    /// counters, keeping the stored entries.
    pub fn new_search(&mut self)
        ensures
            final(self).generation() == (if old(self).generation() == 255 {
                0u8
            } else {
                (old(self).generation() + 1) as u8
            }),
            final(self).hits == 0,
            final(self).misses == 0,
            final(self).entries() == old(self).entries(),
            final(self).wf() == old(self).wf(),
            final(self).cap() == old(self).cap(),
    {
        self.current_generation = self.current_generation.wrapping_add(1);
        self.hits = 0;
        self.misses = 0;
    }

    /// Number of stored entries.
    pub fn size(&self) -> (n: usize)
        ensures
            n == self.entries().len(),
    {
        self.table.len()
    }

    /// Sets the entry cap.
    pub fn set_max_entries(&mut self, max_entries: usize)
        ensures
            final(self).cap() == max_entries as int,
            final(self).entries() == old(self).entries(),
            final(self).wf() == old(self).wf(),
            final(self).hits == old(self).hits,
            final(self).misses == old(self).misses,
            final(self).generation() == old(self).generation(),
    {
        self.max_entries = max_entries;
    }

    /// The entry cap.
    pub fn max_entries(&self) -> (n: usize)
        ensures
            n == self.cap(),
    {
        self.max_entries
    }
}

/// Saturating increment for the statistics counters.
fn sat_inc_exec(x: u64) -> (r: u64)
    ensures
        r == sat_inc(x),
{
    if x == 0xFFFF_FFFF_FFFF_FFFFu64 {
        x
    } else {
        x + 1
    }
}

proof fn lemma_xor_assoc(a: u64, b: u64, c: u64)
    by (bit_vector)
    ensures
        (a ^ b) ^ c == a ^ (b ^ c),
{
}

proof fn lemma_xor_zero(a: u64)
    by (bit_vector)
    ensures
        a ^ 0u64 == a,
        0u64 ^ a == a,
{
}

/// Incremental hash update after a move.
///
/// XOR-ing out the old piece placements, in the new ones, in the newly
/// destroyed cells and toggling the turn word turns the old position's hash
/// into exactly the new position's hash.
pub fn update_hash_after_move(
    tt: &TranspositionTable,
    old_hash: u64,
    old_state: &GameState,
    new_state: &GameState,
    old_turn: bool,
    new_turn: bool,
) -> (h: u64)
    requires
        tt.wf(),
        old_state.wf(),
        new_state.wf(),
        old_hash == tt.hash_spec(*old_state, old_turn),
        forall|t: int| bit(old_state.destroyed, t) ==> #[trigger] bit(new_state.destroyed, t),
    ensures
        h == tt.hash_spec(*new_state, new_turn),
{
    let old_player_idx = crate::board::piece_index(old_state.player);
    let new_player_idx = crate::board::piece_index(new_state.player);
    let old_ai_idx = crate::board::piece_index(old_state.ai);
    let new_ai_idx = crate::board::piece_index(new_state.ai);

    let mut hash = old_hash;
    hash = hash ^ tt.zobrist_player[old_player_idx as usize];
    hash = hash ^ tt.zobrist_player[new_player_idx as usize];
    hash = hash ^ tt.zobrist_ai[old_ai_idx as usize];
    hash = hash ^ tt.zobrist_ai[new_ai_idx as usize];

    let diff = new_state.destroyed & !old_state.destroyed;
    proof {
        crate::bitboard::lemma_bit_not(old_state.destroyed);
        crate::bitboard::lemma_bit_and(new_state.destroyed, !old_state.destroyed);
    }
    let ghost base: u64 = hash;
    proof {
        lemma_xor_zero(base);
    }
    let mut i: u8 = 0;
    while i < 49
        invariant
            tt.wf(),
            i <= 49,
            hash == base ^ xor_fold(tt.zobrist_destroyed@, diff, i as int),
        decreases 49 - i,
    {
        if test_bit(diff, i) {
            proof {
                lemma_xor_assoc(base, xor_fold(tt.zobrist_destroyed@, diff, i as int), tt.zobrist_destroyed@[i as int]);
            }
            hash = hash ^ tt.zobrist_destroyed[i as usize];
        } else {
            proof {
                lemma_xor_zero(xor_fold(tt.zobrist_destroyed@, diff, i as int));
            }
        }
        i = i + 1;
    }
    let turn_word = if old_turn != new_turn {
        tt.zobrist_turn
    } else {
        0
    };
    let h = hash ^ turn_word;
    proof {
        lemma_xor_fold_split(tt.zobrist_destroyed@, new_state.destroyed, old_state.destroyed, diff, 49);
        let po = tt.zobrist_player@[old_state.player_idx()];
        let pn = tt.zobrist_player@[new_state.player_idx()];
        let ao = tt.zobrist_ai@[old_state.ai_idx()];
        let an = tt.zobrist_ai@[new_state.ai_idx()];
        let fo = xor_fold(tt.zobrist_destroyed@, old_state.destroyed, 49);
        let fn_ = xor_fold(tt.zobrist_destroyed@, new_state.destroyed, 49);
        let fd = xor_fold(tt.zobrist_destroyed@, diff, 49);
        let to = if old_turn {
            tt.zobrist_turn
        } else {
            0u64
        };
        let tn = if new_turn {
            tt.zobrist_turn
        } else {
            0u64
        };
        assert(turn_word == to ^ tn) by {
            lemma_xor_zero(tt.zobrist_turn);
            lemma_xor_self(tt.zobrist_turn);
            lemma_xor_self(0u64);
        }
        assert(h == pn ^ an ^ fn_ ^ tn) by (bit_vector)
            requires
                old_hash == po ^ ao ^ fo ^ to,
                fn_ == fo ^ fd,
                h == ((((((old_hash ^ po) ^ pn) ^ ao) ^ an) ^ fd) ^ (to ^ tn)),
        ;
    }
    h
}

proof fn lemma_xor_self(a: u64)
    by (bit_vector)
    ensures
        a ^ a == 0u64,
{
}

/// Folds over tables that agree below `n` coincide.
proof fn lemma_xor_fold_congruent(t1: Seq<u64>, t2: Seq<u64>, bb: u64, n: int)
    requires
        forall|i: int| 0 <= i < n ==> t1[i] == t2[i],
    ensures
        xor_fold(t1, bb, n) == xor_fold(t2, bb, n),
    decreases n,
{
    if n > 0 {
        lemma_xor_fold_congruent(t1, t2, bb, n - 1);
    }
}

/// Splits the destroyed-cell fold over a superset into the old fold and the
/// fold of the fresh cells.
proof fn lemma_xor_fold_split(tbl: Seq<u64>, dnew: u64, dold: u64, diff: u64, n: int)
    requires
        forall|t: int| bit(dold, t) ==> #[trigger] bit(dnew, t),
        forall|t: int| #[trigger] bit(diff, t) == (bit(dnew, t) && !bit(dold, t)),
    ensures
        xor_fold(tbl, dnew, n) == xor_fold(tbl, dold, n) ^ xor_fold(tbl, diff, n),
    decreases n,
{
    if n <= 0 {
        lemma_xor_zero(0u64);
    } else {
        lemma_xor_fold_split(tbl, dnew, dold, diff, n - 1);
        let b = xor_fold(tbl, dold, n - 1);
        let c = xor_fold(tbl, diff, n - 1);
        let yn = if bit(dold, n - 1) {
            tbl[n - 1]
        } else {
            0u64
        };
        let zn = if bit(diff, n - 1) {
            tbl[n - 1]
        } else {
            0u64
        };
        let xn = if bit(dnew, n - 1) {
            tbl[n - 1]
        } else {
            0u64
        };
        assert(xn == yn ^ zn) by {
            lemma_xor_zero(tbl[n - 1]);
            lemma_xor_zero(0u64);
        }
        assert((b ^ c) ^ (yn ^ zn) == (b ^ yn) ^ (c ^ zn)) by (bit_vector);
    }
}


impl TranspositionTable {
    /// Hashes a state when the Zobrist tables are in their standard shape,
    /// and answers zero otherwise.
    pub fn compute_hash_checked(&self, state: &GameState, is_ai_turn: bool) -> (h: u64)
        requires
            state.wf(),
        ensures
            self.wf() ==> h == self.hash_spec(*state, is_ai_turn),
    {
        if self.zobrist_player.len() == 49 && self.zobrist_ai.len() == 49
            && self.zobrist_destroyed.len() == 49 {
            self.compute_hash_lengths(state, is_ai_turn)
        } else {
            0
        }
    }

    /// Hashes a state given sized Zobrist tables.
    fn compute_hash_lengths(&self, state: &GameState, is_ai_turn: bool) -> (h: u64)
        requires
            state.wf(),
            self.zobrist_player@.len() == 49,
            self.zobrist_ai@.len() == 49,
            self.zobrist_destroyed@.len() == 49,
        ensures
            h == self.hash_spec(*state, is_ai_turn),
    {
        let player_idx = crate::board::piece_index(state.player);
        let ai_idx = crate::board::piece_index(state.ai);
        let mut hash = self.zobrist_player[player_idx as usize] ^ self.zobrist_ai[ai_idx as usize];
        let ghost base: u64 = hash;
        proof {
            lemma_xor_zero(base);
        }
        let mut i: u8 = 0;
        while i < 49
            invariant
                self.zobrist_destroyed@.len() == 49,
                i <= 49,
                hash == base ^ xor_fold(self.zobrist_destroyed@, state.destroyed, i as int),
            decreases 49 - i,
        {
            if test_bit(state.destroyed, i) {
                proof {
                    lemma_xor_assoc(
                        base,
                        xor_fold(self.zobrist_destroyed@, state.destroyed, i as int),
                        self.zobrist_destroyed@[i as int],
                    );
                }
                hash = hash ^ self.zobrist_destroyed[i as usize];
            } else {
                proof {
                    lemma_xor_zero(xor_fold(self.zobrist_destroyed@, state.destroyed, i as int));
                }
            }
            i = i + 1;
        }
        if is_ai_turn {
            hash = hash ^ self.zobrist_turn;
        } else {
            proof {
                lemma_xor_zero(hash);
            }
        }
        hash
    }
}

/// Any two well-formed tables hash a position alike: their Zobrist words are
/// the same fixed stream.
pub proof fn lemma_hash_agree(
    t1: TranspositionTable,
    t2: TranspositionTable,
    s: GameState,
    turn: bool,
)
    requires
        t1.wf(),
        t2.wf(),
    ensures
        t1.hash_spec(s, turn) == t2.hash_spec(s, turn),
{
    assert(t1.zobrist_player@ =~= t2.zobrist_player@);
    assert(t1.zobrist_ai@ =~= t2.zobrist_ai@);
    assert(t1.zobrist_destroyed@ =~= t2.zobrist_destroyed@);
    assert(t1.zobrist_turn == t2.zobrist_turn);
}

} // verus!
