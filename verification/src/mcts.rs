//! Monte-Carlo tree search with RAVE for the hexagonal connection game.
//!
//! Nodes live in a flat arena and refer to parents and children by index;
//! parents always precede children, so every walk terminates.  One iteration
//! selects a leaf by the blended UCT/RAVE score, expands one child, plays a
//! random (optionally heuristic-biased) game to the end and walks the result
//! back up: `backpropagate` raises the visit count of exactly the ancestors
//! of the new node, each by one.

use vstd::prelude::*;
use std::time::Instant;
use crate::hexstate::{HexState, Player, NUM_CELLS, BOARD_COLS, VIRTUAL_A, VIRTUAL_B};
use crate::unionfind::{UnionFind, linked};
use crate::rng::{rand_below, rand_below_u64, rand_ratio};
use crate::clock::{now_instant, millis_since};

verus! {

/// Search budget and playout policy for one difficulty preset.
pub struct EngineConfig {
    pub max_simulations: u32,
    pub playout_heuristic_chance_percent: u32,
    pub selection_temperature_tenths: u32,
}

impl EngineConfig {
    /// Whether the preset's fields are usable.
    pub open spec fn wf(self) -> bool {
        self.playout_heuristic_chance_percent <= 100
    }

    /// The preset for a numeric difficulty level.
    pub fn for_difficulty(level: u32) -> (c: EngineConfig)
        ensures
            c.wf(),
            level == 3 ==> c.max_simulations == 30000 && c.playout_heuristic_chance_percent == 5
                && c.selection_temperature_tenths == 5,
            level == 5 ==> c.max_simulations == 80000 && c.playout_heuristic_chance_percent == 15
                && c.selection_temperature_tenths == 1,
            level != 3 && level != 5 ==> c.max_simulations == 1000000
                && c.playout_heuristic_chance_percent == 30 && c.selection_temperature_tenths == 0,
    {
        if level == 3 {
            EngineConfig {
                max_simulations: 30000,
                playout_heuristic_chance_percent: 5,
                selection_temperature_tenths: 5,
            }
        } else if level == 5 {
            EngineConfig {
                max_simulations: 80000,
                playout_heuristic_chance_percent: 15,
                selection_temperature_tenths: 1,
            }
        } else {
            EngineConfig {
                max_simulations: 1000000,
                playout_heuristic_chance_percent: 30,
                selection_temperature_tenths: 0,
            }
        }
    }
}

/// One reported candidate move.
pub struct MoveInfo {
    pub r: usize,
    pub c: usize,
    pub visits: u32,
    pub wins: u32,
    pub win_rate_permille: u32,
}

/// The outcome of one search call.
pub struct AnalysisResult {
    pub best_move: Option<MoveInfo>,
    pub alternatives: Vec<MoveInfo>,
    pub total_simulations: u32,
    pub elapsed_ms: u64,
    pub nps: u64,
}

/// One arena node.
pub struct MCTSNode {
    pub move_idx: Option<usize>,
    pub parent: Option<usize>,
    pub children: Vec<usize>,
    pub wins: u64,
    pub visits: u64,
    pub rave_wins: u64,
    pub rave_visits: u64,
    pub untried_moves: Vec<usize>,
    pub player: Player,
}

/// The arena invariant: one root, parents before children, children and
/// moves in range.
pub open spec fn arena_wf(nodes: Seq<MCTSNode>) -> bool {
    &&& nodes.len() >= 1
    &&& nodes[0].parent is None
    &&& forall|k: int|
        1 <= k < nodes.len() ==> (#[trigger] nodes[k].parent) is Some && nodes[k].parent->0 < k
    &&& forall|k: int, j: int|
        0 <= k < nodes.len() && 0 <= j < nodes[k].children.len() ==> k < (
        #[trigger] nodes[k].children[j]) < nodes.len()
    &&& forall|k: int, j: int|
        0 <= k < nodes.len() && 0 <= j < nodes[k].untried_moves.len() ==> (
        #[trigger] nodes[k].untried_moves[j]) < 121
    &&& forall|k: int|
        0 <= k < nodes.len() && (#[trigger] nodes[k].move_idx) is Some ==> nodes[k].move_idx->0
            < 121
    &&& forall|k: int| 0 <= k < nodes.len() ==> (#[trigger] nodes[k]).player != Player::Nobody
    &&& forall|k: int| 1 <= k < nodes.len() ==> (#[trigger] nodes[k].move_idx) is Some
}

/// `v` is one of the root's children.
pub open spec fn is_root_child(nodes: Seq<MCTSNode>, v: usize) -> bool {
    exists|ci: int|
        0 <= ci < nodes[0].children@.len() && (#[trigger] nodes[0].children@[ci]) == v
}

/// The visit count of a node named by index.
pub open spec fn node_visits(nodes: Seq<MCTSNode>, w: usize) -> u64 {
    nodes[w as int].visits
}

/// `k` lies on the parent chain from `leaf` up to the root.
pub open spec fn on_path(nodes: Seq<MCTSNode>, leaf: int, k: int) -> bool
    decreases leaf,
        when arena_wf(nodes) && 0 <= leaf < nodes.len()
{
    leaf == k || (nodes[leaf].parent is Some && on_path(nodes, nodes[leaf].parent->0 as int, k))
}

/// The chain stays within `[0, leaf]`.
pub proof fn lemma_on_path_range(nodes: Seq<MCTSNode>, leaf: int, k: int)
    requires
        arena_wf(nodes),
        0 <= leaf < nodes.len(),
        on_path(nodes, leaf, k),
    ensures
        0 <= k <= leaf,
    decreases leaf,
{
    if leaf != k {
        lemma_on_path_range(nodes, nodes[leaf].parent->0 as int, k);
    }
}

/// The root is an ancestor of every node.
pub proof fn lemma_root_on_path(nodes: Seq<MCTSNode>, leaf: int)
    requires
        arena_wf(nodes),
        0 <= leaf < nodes.len(),
    ensures
        on_path(nodes, leaf, 0),
    decreases leaf,
{
    if leaf != 0 {
        lemma_root_on_path(nodes, nodes[leaf].parent->0 as int);
    }
}

/// Stepping from a node to its parent shortens the chain by that node.
proof fn lemma_on_path_unfold(nodes: Seq<MCTSNode>, leaf: int, c: int, k: int)
    requires
        arena_wf(nodes),
        0 <= leaf < nodes.len(),
        on_path(nodes, leaf, c),
        0 <= c < nodes.len(),
        nodes[c].parent is Some,
    ensures
        on_path(nodes, leaf, nodes[c].parent->0 as int),
    decreases leaf,
{
    if leaf != c {
        lemma_on_path_unfold(nodes, nodes[leaf].parent->0 as int, c, k);
    } else {
        let p = nodes[c].parent->0 as int;
        assert(on_path(nodes, p, p));
    }
}

pub struct MCTSEngine {
    pub nodes: Vec<MCTSNode>,
    pub root_state: HexState,
    pub config: EngineConfig,
    pub rng: rand::rngs::StdRng,
    pub playouts: Ghost<nat>,
}

impl MCTSEngine {
    /// Engine well-formedness: a sound arena over a well-formed root state,
    /// with all counters bounded by the number of playouts so far.
    pub open spec fn wf(self) -> bool {
        &&& arena_wf(self.nodes@)
        &&& self.root_state.wf()
        &&& self.config.wf()
        &&& forall|k: int|
            0 <= k < self.nodes@.len() ==> (#[trigger] self.nodes@[k]).visits <= self.playouts@
                && self.nodes@[k].wins <= self.nodes@[k].visits && self.nodes@[k].rave_visits
                <= self.playouts@ && self.nodes@[k].rave_wins <= self.nodes@[k].rave_visits
    }

    /// A fresh engine rooted at `state`, whose untried moves are the empty
    /// cells, to be explored on behalf of `player`.
    pub fn new(state: HexState, player: Player, config: EngineConfig, rng: rand::rngs::StdRng) -> (e:
        MCTSEngine)
        requires
            state.wf(),
            config.wf(),
            player != Player::Nobody,
        ensures
            e.wf(),
            e.playouts@ == 0,
            e.config == config,
            e.nodes@.len() == 1,
            e.root_state == state,
    {
        let untried = clone_usize_vec(&state.empty_cells);
        let root = MCTSNode {
            move_idx: None,
            parent: None,
            children: Vec::new(),
            wins: 0,
            visits: 0,
            rave_wins: 0,
            rave_visits: 0,
            untried_moves: untried,
            player: player.opponent(),
        };
        let mut nodes: Vec<MCTSNode> = Vec::new();
        nodes.push(root);
        MCTSEngine { nodes, root_state: state, config, rng, playouts: Ghost(0nat) }
    }

    /// Walks the result of one playout back to the root: every ancestor of
    /// `node_idx` (itself included) gains one visit, a win where its mover
    /// won, and RAVE credit where its move occurs among the winner's moves.
    /// No other node and nothing else changes.
    pub fn backpropagate(&mut self, node_idx: usize, winner: Player, winner_moves: &Vec<usize>)
        requires
            old(self).wf(),
            node_idx < old(self).nodes@.len(),
            old(self).playouts@ < 0xFFFF_FFFFu64,
        ensures
            final(self).wf(),
            final(self).playouts@ == old(self).playouts@ + 1,
            final(self).nodes@.len() == old(self).nodes@.len(),
            final(self).root_state == old(self).root_state,
            final(self).config == old(self).config,
            forall|k: int|
                0 <= k < old(self).nodes@.len() ==> {
                    let o = old(self).nodes@[k];
                    let f = #[trigger] final(self).nodes@[k];
                    &&& f.move_idx == o.move_idx
                    &&& f.parent == o.parent
                    &&& f.children == o.children
                    &&& f.untried_moves == o.untried_moves
                    &&& f.player == o.player
                    &&& f.visits == o.visits + (if on_path(old(self).nodes@, node_idx as int, k) {
                        1int
                    } else {
                        0int
                    })
                    &&& f.wins == o.wins + (if on_path(old(self).nodes@, node_idx as int, k)
                        && o.player == winner {
                        1int
                    } else {
                        0int
                    })
                    &&& f.rave_visits == o.rave_visits + (if on_path(
                        old(self).nodes@,
                        node_idx as int,
                        k,
                    ) && o.move_idx is Some && winner_moves@.contains(o.move_idx->0) {
                        1int
                    } else {
                        0int
                    })
                    &&& f.rave_wins == o.rave_wins + (if on_path(
                        old(self).nodes@,
                        node_idx as int,
                        k,
                    ) && o.move_idx is Some && winner_moves@.contains(o.move_idx->0) && o.player
                        == winner {
                        1int
                    } else {
                        0int
                    })
                },
    {
        let ghost orig = self.nodes@;
        let mut curr: usize = node_idx;
        proof {
            self.playouts = Ghost(self.playouts@ + 1);
        }
        loop
            invariant_except_break
                forall|k: int|
                    0 <= k < orig.len() ==> {
                        let o = orig[k];
                        let f = #[trigger] self.nodes@[k];
                        let done = on_path(orig, node_idx as int, k) && !on_path(
                            orig,
                            curr as int,
                            k,
                        );
                        &&& f.move_idx == o.move_idx
                        &&& f.parent == o.parent
                        &&& f.children == o.children
                        &&& f.untried_moves == o.untried_moves
                        &&& f.player == o.player
                        &&& f.visits == o.visits + (if done {
                            1int
                        } else {
                            0int
                        })
                        &&& f.wins == o.wins + (if done && o.player == winner {
                            1int
                        } else {
                            0int
                        })
                        &&& f.rave_visits == o.rave_visits + (if done && o.move_idx is Some
                            && winner_moves@.contains(o.move_idx->0) {
                            1int
                        } else {
                            0int
                        })
                        &&& f.rave_wins == o.rave_wins + (if done && o.move_idx is Some
                            && winner_moves@.contains(o.move_idx->0) && o.player == winner {
                            1int
                        } else {
                            0int
                        })
                    },
            invariant
                arena_wf(orig),
                arena_wf(self.nodes@),
                self.nodes@.len() == orig.len(),
                curr < orig.len(),
                node_idx < orig.len(),
                on_path(orig, node_idx as int, curr as int),
                old(self).nodes@ == orig,
                old(self).playouts@ < 0xFFFF_FFFFu64,
                self.playouts@ == old(self).playouts@ + 1,
                self.root_state == old(self).root_state,
                self.config == old(self).config,
                old(self).wf(),
            ensures
                forall|k: int|
                    0 <= k < orig.len() ==> {
                        let o = orig[k];
                        let f = #[trigger] self.nodes@[k];
                        let done = on_path(orig, node_idx as int, k);
                        &&& f.move_idx == o.move_idx
                        &&& f.parent == o.parent
                        &&& f.children == o.children
                        &&& f.untried_moves == o.untried_moves
                        &&& f.player == o.player
                        &&& f.visits == o.visits + (if done {
                            1int
                        } else {
                            0int
                        })
                        &&& f.wins == o.wins + (if done && o.player == winner {
                            1int
                        } else {
                            0int
                        })
                        &&& f.rave_visits == o.rave_visits + (if done && o.move_idx is Some
                            && winner_moves@.contains(o.move_idx->0) {
                            1int
                        } else {
                            0int
                        })
                        &&& f.rave_wins == o.rave_wins + (if done && o.move_idx is Some
                            && winner_moves@.contains(o.move_idx->0) && o.player == winner {
                            1int
                        } else {
                            0int
                        })
                    },
                arena_wf(self.nodes@),
                self.nodes@.len() == orig.len(),
                self.playouts@ == old(self).playouts@ + 1,
                self.root_state == old(self).root_state,
                self.config == old(self).config,
            decreases curr,
        {
            proof {
                assert(!on_path(orig, curr as int, curr as int) == false);
            }
            let has_move = self.nodes[curr].move_idx.is_some();
            let in_winner_moves = if has_move {
                let m = match self.nodes[curr].move_idx {
                    Some(m) => m,
                    None => 0,
                };
                contains_usize(winner_moves, m)
            } else {
                false
            };
            let node_player = self.nodes[curr].player;
            proof {
                assert(self.nodes@[curr as int].visits == orig[curr as int].visits);
                assert(orig[curr as int].visits <= old(self).playouts@);
            }
            let v = self.nodes[curr].visits;
            self.nodes[curr].visits = v + 1;
            if node_player == winner {
                let w = self.nodes[curr].wins;
                proof {
                    assert(orig[curr as int].wins <= orig[curr as int].visits);
                }
                self.nodes[curr].wins = w + 1;
            }
            if in_winner_moves {
                let rv = self.nodes[curr].rave_visits;
                proof {
                    assert(orig[curr as int].rave_visits <= old(self).playouts@);
                }
                self.nodes[curr].rave_visits = rv + 1;
                if node_player == winner {
                    let rw = self.nodes[curr].rave_wins;
                    self.nodes[curr].rave_wins = rw + 1;
                }
            }
            let parent = self.nodes[curr].parent;
            proof {
                assert forall|k: int|
                    0 <= k < orig.len() && on_path(orig, curr as int, k) && k != curr as int
                    implies (orig[curr as int].parent is Some && on_path(
                    orig,
                    orig[curr as int].parent->0 as int,
                    k,
                )) by {}
            }
            match parent {
                Some(p) => {
                    proof {
                        lemma_on_path_unfold(orig, node_idx as int, curr as int, p as int);
                        assert forall|k: int|
                            0 <= k < orig.len() implies ((on_path(orig, node_idx as int, k)
                            && !on_path(orig, p as int, k)) == ((on_path(orig, node_idx as int, k)
                            && !on_path(orig, curr as int, k)) || k == curr as int)) by {
                            if on_path(orig, p as int, k) {
                                lemma_on_path_range(orig, p as int, k);
                            }
                            if k == curr as int {
                                assert(on_path(orig, node_idx as int, k));
                                if on_path(orig, p as int, k) {
                                    lemma_on_path_range(orig, p as int, k);
                                }
                            }
                        }
                    }
                    curr = p;
                },
                None => {
                    proof {
                        assert(curr == 0);
                        assert forall|k: int|
                            0 <= k < orig.len() implies (on_path(orig, node_idx as int, k) == ((
                        on_path(orig, node_idx as int, k) && !on_path(orig, curr as int, k)) || k
                            == curr as int)) by {
                            if on_path(orig, curr as int, k) {
                                assert(k == 0);
                            }
                            if k == curr as int {
                                lemma_root_on_path(orig, node_idx as int);
                            }
                        }
                    }
                    break;
                },
            }
        }
    }
}

/// Whether a vector holds a value.
pub fn contains_usize(v: &Vec<usize>, x: usize) -> (r: bool)
    ensures
        r == v@.contains(x),
{
    let mut i: usize = 0;
    while i < v.len()
        invariant
            i <= v@.len(),
            forall|j: int| 0 <= j < i ==> v@[j] != x,
        decreases v@.len() - i,
    {
        if v[i] == x {
            proof {
                assert(v@[i as int] == x);
            }
            return true;
        }
        i = i + 1;
    }
    proof {
        if v@.contains(x) {
            let j = choose|j: int| 0 <= j < v@.len() && v@[j] == x;
            assert(false);
        }
    }
    false
}

/// Copies a vector of cell indices.
pub fn clone_usize_vec(v: &Vec<usize>) -> (r: Vec<usize>)
    ensures
        r@ == v@,
{
    let mut r: Vec<usize> = Vec::new();
    let mut i: usize = 0;
    while i < v.len()
        invariant
            i <= v@.len(),
            r@ == v@.subrange(0, i as int),
        decreases v@.len() - i,
    {
        r.push(v[i]);
        proof {
            assert(r@ =~= v@.subrange(0, i + 1 as int));
        }
        i = i + 1;
    }
    proof {
        assert(r@ =~= v@);
    }
    r
}


/// Floor of the square root.
fn isqrt64(x: u64) -> (r: u64)
    ensures
        r * r <= x,
        x < (r + 1) * (r + 1),
        r <= 0xFFFF_FFFFu64,
{
    if x == 0 {
        return 0;
    }
    let mut lo: u64 = 0;
    let mut hi: u64 = 0x1_0000_0000u64;
    while lo + 1 < hi
        invariant
            lo < hi <= 0x1_0000_0000u64,
            lo * lo <= x,
            x < hi * hi,
        decreases hi - lo,
    {
        let mid = lo + (hi - lo) / 2;
        proof {
            assert(mid < hi);
            assert((mid as int) * (mid as int) < 0x1_0000_0000_0000_0000)
                by (nonlinear_arith)
                requires
                    mid < 0x1_0000_0000u64,
            ;
        }
        if mid * mid <= x {
            lo = mid;
        } else {
            hi = mid;
        }
    }
    lo
}

/// Floor of the base-two logarithm; zero for zero.
fn log2_floor(x: u64) -> (r: u32)
    ensures
        r < 64,
{
    let mut r: u32 = 0;
    let mut v: u64 = x;
    proof {
        assert(0xFFFF_FFFF_FFFF_FFFFu64 >> 0u32 == 0xFFFF_FFFF_FFFF_FFFFu64) by (bit_vector);
    }
    while v >= 2
        invariant
            r < 64,
            v <= 0xFFFF_FFFF_FFFF_FFFFu64 >> r,
        decreases v,
    {
        proof {
            assert(r < 63) by {
                if r >= 63 {
                    assert(r < 64 ==> r == 63 || r > 63);
                    assert(0xFFFF_FFFF_FFFF_FFFFu64 >> 63u32 == 1u64) by (bit_vector);
                    assert(v <= 1);
                }
            }
            assert((0xFFFF_FFFF_FFFF_FFFFu64 >> r) / 2 == 0xFFFF_FFFF_FFFF_FFFFu64 >> ((r
                + 1) as u32)) by (bit_vector)
                requires
                    r < 63u32,
            ;
        }
        v = v / 2;
        r = r + 1;
    }
    r
}

/// Saturating power, for the softmax weights of the final move selection.
fn pow_sat(base: u64, exp: u32) -> (r: u64)
    ensures
        r >= 1 || base == 0,
{
    if base == 0 {
        return if exp == 0 {
            1
        } else {
            0
        };
    }
    let mut r: u64 = 1;
    let mut k: u32 = 0;
    while k < exp
        invariant
            r >= 1,
            base >= 1,
        decreases exp - k,
    {
        if r > 0xFFFF_FFFF_FFFF_FFFFu64 / base {
            r = 0xFFFF_FFFF_FFFF_FFFFu64;
        } else {
            proof {
                assert(r <= 0xFFFF_FFFF_FFFF_FFFFu64 / base ==> r * base
                    <= 0xFFFF_FFFF_FFFF_FFFFu64) by (nonlinear_arith)
                    requires
                        base >= 1,
                ;
            }
            r = r * base;
            if r == 0 {
                r = 1;
            }
        }
        k = k + 1;
    }
    r
}

impl MCTSEngine {
    /// The blended selection score of a child, in ten-thousandths: the
    /// UCT exploitation term and the RAVE term, mixed by the RAVE weight,
    /// plus the exploration bonus.
    fn child_score(&self, parent_visits: u64, child: usize) -> (score: u64)
        requires
            self.wf(),
            child < self.nodes@.len(),
            self.playouts@ <= 0xFFFF_FFFFu64,
            parent_visits <= 0xFFFF_FFFFu64,
    {
        let node = &self.nodes[child];
        let visits = node.visits;
        let rave_visits = node.rave_visits;
        if visits == 0 {
            // Unvisited children start at even odds with the full bonus.
            return 5000 + 10000;
        }
        proof {
            assert(node.visits <= 0xFFFF_FFFFu64);
            assert(node.wins <= node.visits);
            assert(node.rave_visits <= 0xFFFF_FFFFu64);
            assert(node.rave_wins <= node.rave_visits);
            assert(node.wins * 10000 <= 0xFFFF_FFFFu64 * 10000) by (nonlinear_arith)
                requires
                    node.wins <= 0xFFFF_FFFFu64,
            ;
        }
        let exploit = node.wins * 10000 / visits;
        let rave_exploit = if rave_visits > 0 {
            proof {
                assert(node.rave_wins * 10000 <= 0xFFFF_FFFFu64 * 10000) by (nonlinear_arith)
                    requires
                        node.rave_wins <= 0xFFFF_FFFFu64,
                ;
            }
            node.rave_wins * 10000 / rave_visits
        } else {
            5000
        };
        // The RAVE weight: 300 / (300 + visits + rave_visits / 10), in
        // ten-thousandths.
        let beta = if rave_visits > 0 {
            30000000u64 / (3000 + 10 * visits + rave_visits)
        } else {
            0
        };
        proof {
            assert((node.wins as int) * 10000 / (node.visits as int) <= 10000)
                by (nonlinear_arith)
                requires
                    node.wins <= node.visits,
                    node.visits >= 1,
            ;
            assert(node.rave_visits > 0 ==> (node.rave_wins as int) * 10000 / (
            node.rave_visits as int) <= 10000) by (nonlinear_arith)
                requires
                    node.rave_wins <= node.rave_visits,
            ;
            assert(node.rave_visits > 0 ==> 30000000int / (3000 + 10 * (node.visits as int)
                + (node.rave_visits as int)) <= 10000) by (nonlinear_arith)
                requires
                    node.visits >= 1,
            ;
        }
        let beta_c = if beta > 10000 {
            10000
        } else {
            beta
        };
        proof {
            assert(exploit <= 10000);
            assert(rave_exploit <= 10000);
            assert(beta_c <= 10000);
            assert((10000 - beta_c) * exploit <= 10000 * 10000) by (nonlinear_arith)
                requires
                    beta_c <= 10000,
                    exploit <= 10000,
            ;
            assert(beta_c * rave_exploit <= 10000 * 10000) by (nonlinear_arith)
                requires
                    beta_c <= 10000,
                    rave_exploit <= 10000,
            ;
        }
        let mixed = ((10000 - beta_c) * exploit + beta_c * rave_exploit) / 10000;
        // Exploration: sqrt(ln(parent) / visits), scaled by ten thousand.
        let ln_milli = 693 * (log2_floor(parent_visits) as u64);
        let explore = isqrt64(ln_milli * 100000 / visits);
        mixed + explore
    }

    /// Takes one untried move of `node_idx` — the best of a small random
    /// sample under the bridge/centrality/locality heuristic — plays it on
    /// `state` and appends the child node.  Returns the node unchanged when
    /// nothing is untried.
    pub fn expand(&mut self, node_idx: usize, state: &mut HexState) -> (new_idx: usize)
        requires
            old(self).wf(),
            old(state).wf(),
            node_idx < old(self).nodes@.len(),
        ensures
            final(self).wf(),
            final(state).wf(),
            final(self).playouts == old(self).playouts,
            final(self).config == old(self).config,
            final(self).root_state == old(self).root_state,
            final(self).nodes@.len() >= old(self).nodes@.len(),
            new_idx < final(self).nodes@.len(),
            old(self).nodes@[node_idx as int].untried_moves@.len() == 0 ==> new_idx == node_idx
                && *final(self) == *old(self) && *final(state) == *old(state),
            old(self).nodes@[node_idx as int].untried_moves@.len() > 0 ==> {
                &&& final(self).nodes@.len() == old(self).nodes@.len() + 1
                &&& new_idx == old(self).nodes@.len()
                &&& final(self).nodes@[new_idx as int].parent == Some(node_idx)
                &&& final(self).nodes@[new_idx as int].move_idx is Some
                &&& final(self).nodes@[new_idx as int].visits == 0
            },
    {
        let untried_len = self.nodes[node_idx].untried_moves.len();
        if untried_len == 0 {
            return node_idx;
        }
        let current_player = self.nodes[node_idx].player.opponent();
        let sample_count: usize = if untried_len < 15 {
            untried_len
        } else {
            15
        };
        let mut best_pos: usize = 0;
        let mut best_score: i32 = -2147483647;
        let mut s: usize = 0;
        while s < sample_count
            invariant
                self.wf(),
                self.nodes == old(self).nodes,
                self.playouts == old(self).playouts,
                self.config == old(self).config,
                self.root_state == old(self).root_state,
                state == old(state),
                old(state).wf(),
                node_idx < self.nodes@.len(),
                untried_len == self.nodes@[node_idx as int].untried_moves@.len(),
                untried_len > 0,
                best_pos < untried_len,
                current_player != Player::Nobody,
            decreases sample_count - s,
        {
            let pos = rand_below(&mut self.rng, untried_len);
            let m = self.nodes[node_idx].untried_moves[pos];
            proof {
                assert(m < 121);
            }
            let mut score: i32 = 0;
            let r = m / BOARD_COLS;
            let c = m % BOARD_COLS;
            let dr = if r >= 5 {
                r - 5
            } else {
                5 - r
            };
            let dc = if c >= 5 {
                c - 5
            } else {
                5 - c
            };
            score = score - 2 * ((dr + dc) as i32);
            score = score + state.evaluate_bridge_potential(m, current_player);
            match state.last_move {
                Some(last) => {
                    let lr = last / BOARD_COLS;
                    let lc = last % BOARD_COLS;
                    let ddr = if r >= lr {
                        r - lr
                    } else {
                        lr - r
                    };
                    let ddc = if c >= lc {
                        c - lc
                    } else {
                        lc - c
                    };
                    if ddr + ddc <= 3 {
                        score = score + 20;
                    }
                },
                None => {},
            }
            if score > best_score {
                best_score = score;
                best_pos = pos;
            }
            s = s + 1;
        }
        let ghost untried_old = self.nodes@[node_idx as int].untried_moves@;
        let move_idx = self.nodes[node_idx].untried_moves.swap_remove(best_pos);
        proof {
            assert(move_idx < 121);
            assert forall|j: int|
                0 <= j < self.nodes@[node_idx as int].untried_moves@.len() implies (
            #[trigger] self.nodes@[node_idx as int].untried_moves@[j]) < 121 by {
                let u = self.nodes@[node_idx as int].untried_moves@;
                assert(u[j] == untried_old[j] || u[j] == untried_old[untried_old.len() - 1]);
            }
            assert(arena_wf(self.nodes@));
        }
        state.make_move(move_idx, current_player);
        let untried = clone_usize_vec(&state.empty_cells);
        let new_node = MCTSNode {
            move_idx: Some(move_idx),
            parent: Some(node_idx),
            children: Vec::new(),
            wins: 0,
            visits: 0,
            rave_wins: 0,
            rave_visits: 0,
            untried_moves: untried,
            player: current_player,
        };
        let new_node_idx = self.nodes.len();
        self.nodes.push(new_node);
        self.nodes[node_idx].children.push(new_node_idx);
        proof {
            assert(arena_wf(self.nodes@));
        }
        new_node_idx
    }

    /// Plays a game out to its end with uniformly random moves, each one
    /// optionally replaced by the best of a small heuristic sample.  Returns
    /// the winner — `Nobody` when the board fills without one — and the
    /// cells the winner played.
    pub fn simulate(&mut self, state: &mut HexState) -> (r: (Player, Vec<usize>))
        requires
            old(self).wf(),
            old(state).wf(),
        ensures
            final(self).wf(),
            final(state).wf(),
            final(self).nodes == old(self).nodes,
            final(self).playouts == old(self).playouts,
            final(self).config == old(self).config,
            final(self).root_state == old(self).root_state,
            r.0 == (if linked(final(state).uf_human.hist@, VIRTUAL_A as int, VIRTUAL_B as int) {
                Player::Human
            } else if linked(final(state).uf_ai.hist@, VIRTUAL_A as int, VIRTUAL_B as int) {
                Player::AI
            } else {
                Player::Nobody
            }),
            r.0 == Player::Nobody ==> final(state).empty_cells@.len() == 0,
            forall|j: int|
                0 <= j < r.1@.len() ==> (#[trigger] r.1@[j]) < 121 && final(state).board@[r.1@[j] as int]
                    == r.0,
    {
        let n = self.nodes.len();
        let mut current_player = self.nodes[n - 1].player.opponent();
        let mut moves_made: Vec<(usize, Player)> = Vec::new();
        loop
            invariant
                self.wf(),
                state.wf(),
                self.nodes == old(self).nodes,
                self.playouts == old(self).playouts,
                self.config == old(self).config,
                self.root_state == old(self).root_state,
                current_player != Player::Nobody,
                forall|j: int|
                    0 <= j < moves_made@.len() ==> (#[trigger] moves_made@[j]).0 < 121
                        && state.board@[moves_made@[j].0 as int] == moves_made@[j].1
                        && moves_made@[j].1 != Player::Nobody,
            decreases state.empty_cells@.len() + 1,
        {
            let winner = state.check_winner();
            if !matches!(winner, Player::Nobody) {
                let winner_moves = filter_winner_moves(&moves_made, winner, Ghost(state.board@));
                return (winner, winner_moves);
            }
            if state.empty_cells.len() == 0 {
                return (Player::Nobody, Vec::new());
            }
            let use_heuristic = rand_ratio(
                &mut self.rng,
                self.config.playout_heuristic_chance_percent,
                100,
            );
            let len = state.empty_cells.len();
            let move_idx: usize;
            if use_heuristic && len < 80 {
                let mut best_m = state.empty_cells[0];
                proof {
                    assert(state.board@[best_m as int] == Player::Nobody);
                }
                let mut best_s: i32 = -2147483647;
                let check_count: usize = if len < 5 {
                    len
                } else {
                    5
                };
                let mut t: usize = 0;
                while t < check_count
                    invariant
                        state.wf(),
                        self.wf(),
                        self.nodes == old(self).nodes,
                        self.playouts == old(self).playouts,
                        self.config == old(self).config,
                        self.root_state == old(self).root_state,
                        len == state.empty_cells@.len(),
                        len > 0,
                        best_m < 121,
                        state.board@[best_m as int] == Player::Nobody,
                        current_player != Player::Nobody,
                    decreases check_count - t,
                {
                    let pos = rand_below(&mut self.rng, len);
                    let m = state.empty_cells[pos];
                    let sc = state.evaluate_bridge_potential(m, current_player);
                    if sc > best_s {
                        best_s = sc;
                        best_m = m;
                    }
                    t = t + 1;
                }
                move_idx = best_m;
            } else {
                let pos = rand_below(&mut self.rng, len);
                move_idx = state.empty_cells[pos];
            }
            proof {
                assert(state.board@[move_idx as int] == Player::Nobody);
            }
            let ghost empties_before = state.empty_cells@.len();
            let ghost board_before = state.board@;
            state.make_move(move_idx, current_player);
            proof {
                assert(state.empty_cells@.len() < empties_before);
                assert(state.board@ == board_before.update(move_idx as int, current_player));
                assert forall|j: int|
                    0 <= j < moves_made@.len() implies (#[trigger] moves_made@[j]).0 < 121
                        && state.board@[moves_made@[j].0 as int] == moves_made@[j].1 by {
                    assert(moves_made@[j].1 != Player::Nobody);
                    assert(board_before[moves_made@[j].0 as int] == moves_made@[j].1);
                    assert(moves_made@[j].0 as int != move_idx as int);
                }
            }
            moves_made.push((move_idx, current_player));
            current_player = current_player.opponent();
        }
    }
}

/// The cells the winner played during one playout: each is a board cell the
/// winner holds on the final board.
fn filter_winner_moves(
    moves_made: &Vec<(usize, Player)>,
    winner: Player,
    Ghost(board): Ghost<Seq<Player>>,
) -> (r: Vec<usize>)
    requires
        forall|j: int|
            0 <= j < moves_made@.len() ==> (#[trigger] moves_made@[j]).0 < 121 && board[
                moves_made@[j].0 as int] == moves_made@[j].1,
    ensures
        forall|j: int|
            0 <= j < r@.len() ==> (#[trigger] r@[j]) < 121 && board[r@[j] as int] == winner,
{
    let mut winner_moves: Vec<usize> = Vec::new();
    let mut q: usize = 0;
    while q < moves_made.len()
        invariant
            q <= moves_made@.len(),
            forall|j: int|
                0 <= j < moves_made@.len() ==> (#[trigger] moves_made@[j]).0 < 121 && board[
                    moves_made@[j].0 as int] == moves_made@[j].1,
            forall|j: int|
                0 <= j < winner_moves@.len() ==> (#[trigger] winner_moves@[j]) < 121 && board[
                    winner_moves@[j] as int] == winner,
        decreases moves_made@.len() - q,
    {
        let (m, p) = moves_made[q];
        if p == winner {
            winner_moves.push(m);
        }
        q = q + 1;
    }
    winner_moves
}




impl MCTSEngine {
    /// Runs select-expand-simulate-backpropagate cycles until the simulation
    /// budget or the wall-clock deadline runs out, then reports the most
    /// visited root move — or, above temperature zero, a sample among the top
    /// five weighted by their visit counts.
    ///
    /// The reported move, when there is one, is the move of one of the root's
    /// children; there is none only when the root never got a child.
    #[verifier::rlimit(100)]
    pub fn search(&mut self, time_limit_ms: u32) -> (res: AnalysisResult)
        requires
            old(self).wf(),
            old(self).playouts@ == 0,
        ensures
            final(self).wf(),
            res.total_simulations <= old(self).config.max_simulations,
            res.best_move is Some ==> {
                let mi = res.best_move->0;
                &&& mi.r < 11 && mi.c < 11
                &&& exists|ch: usize|
                    #[trigger] is_root_child(final(self).nodes@, ch) && ch < final(self).nodes@.len() && final(self).nodes@[ch as int].move_idx == Some((mi.r * 11 + mi.c) as usize) && mi.visits as u64 == final(self).nodes@[ch as int].visits && mi.wins as u64 == final(self).nodes@[ch as int].wins && (final(self).nodes@[ch as int].visits > 0 ==> mi.win_rate_permille as int == (final(self).nodes@[ch as int].wins as int) * 1000 / (final(self).nodes@[ch as int].visits as int)) && (old(self).config.selection_temperature_tenths == 0 ==> forall|ci: int|
                        0 <= ci < final(self).nodes@[0].children@.len()
                            ==> node_visits(final(self).nodes@, #[trigger] final(self).nodes@[0].children@[ci]) <= node_visits(final(self).nodes@, ch))
            },
            res.best_move is None ==> final(self).nodes@[0].children@.len() == 0,
            res.alternatives@.len() <= 5,
            forall|a: int, b: int|
                0 <= a < b < res.alternatives@.len() ==> (#[trigger] res.alternatives@[a]).visits
                    >= (#[trigger] res.alternatives@[b]).visits,
    {
        let start = now_instant();
        let mut iterations: u32 = 0;
        while iterations < self.config.max_simulations
            invariant
                self.wf(),
                self.playouts@ == iterations,
                self.config == old(self).config,
                iterations <= self.config.max_simulations,
            decreases self.config.max_simulations - iterations,
        {
            if millis_since(&start) >= time_limit_ms as u64 {
                break;
            }
            let mut state = self.root_state.duplicate();
            let mut curr: usize = 0;
            loop
                invariant
                    self.wf(),
                    state.wf(),
                    curr < self.nodes@.len(),
                    self.playouts@ == iterations,
                    iterations < self.config.max_simulations,
                decreases self.nodes@.len() - curr,
            {
                let untried_n = self.nodes[curr].untried_moves.len();
                let children_n = self.nodes[curr].children.len();
                if untried_n != 0 || children_n == 0 {
                    break;
                }
                let parent_visits = self.nodes[curr].visits;
                proof {
                    assert(self.nodes@[curr as int].visits <= self.playouts@);
                }
                let mut best_child = self.nodes[curr].children[0];
                let mut best_score = self.child_score(parent_visits, best_child);
                let mut ci: usize = 1;
                while ci < children_n
                    invariant
                        self.wf(),
                        curr < self.nodes@.len(),
                        children_n == self.nodes@[curr as int].children@.len(),
                        ci <= children_n,
                        (curr as int) < best_child < self.nodes@.len(),
                        self.playouts@ == iterations,
                        iterations < self.config.max_simulations,
                        parent_visits <= self.playouts@,
                    decreases children_n - ci,
                {
                    let cand = self.nodes[curr].children[ci];
                    let sc = self.child_score(parent_visits, cand);
                    if sc > best_score {
                        best_score = sc;
                        best_child = cand;
                    }
                    ci = ci + 1;
                }
                let child_move = self.nodes[best_child].move_idx;
                let child_player = self.nodes[best_child].player;
                match child_move {
                    Some(m) => {
                        proof {
                            assert(m < 121);
                        }
                        state.make_move(m, child_player);
                    },
                    None => {},
                }
                curr = best_child;
            }
            let new_idx = self.expand(curr, &mut state);
            let (winner, winner_moves) = self.simulate(&mut state);
            self.backpropagate(new_idx, winner, &winner_moves);
            iterations = iterations + 1;
        }
        let elapsed = millis_since(&start);

        let children_n = self.nodes[0].children.len();
        if children_n == 0 {
            return AnalysisResult {
                best_move: None,
                alternatives: Vec::new(),
                total_simulations: iterations,
                elapsed_ms: elapsed,
                nps: rate_per_second(iterations, elapsed),
            };
        }
        let mut work = clone_usize_vec(&self.nodes[0].children);
        proof {
            assert forall|q: int|
                0 <= q < work@.len() implies #[trigger] is_root_child(self.nodes@, work@[q]) by {
                assert(self.nodes@[0].children@[q] == work@[q]);
            }
            assert forall|ci: int|
                0 <= ci < self.nodes@[0].children@.len() implies work@.contains(
                #[trigger] self.nodes@[0].children@[ci],
            ) by {
                assert(work@[ci] == self.nodes@[0].children@[ci]);
            }
        }
        let limit: usize = if children_n < 5 {
            children_n
        } else {
            5
        };
        let mut i: usize = 0;
        while i < limit
            invariant
                self.wf(),
                self.playouts@ <= 0xFFFF_FFFFu64,
                work@.len() == self.nodes@[0].children@.len(),
                children_n == self.nodes@[0].children@.len(),
                limit <= children_n,
                i <= limit,
                forall|q: int|
                    0 <= q < work@.len() ==> #[trigger] is_root_child(self.nodes@, work@[q]),
                forall|ci: int|
                    0 <= ci < self.nodes@[0].children@.len() ==> work@.contains(
                        #[trigger] self.nodes@[0].children@[ci],
                    ),
                forall|a: int, b: int|
                    0 <= a < b < i ==> #[trigger] node_visits(self.nodes@, work@[a])
                        >= #[trigger] node_visits(self.nodes@, work@[b]),
                forall|a: int, b: int|
                    0 <= a < i && i <= b < work@.len() ==> #[trigger] node_visits(
                        self.nodes@,
                        work@[a],
                    ) >= #[trigger] node_visits(self.nodes@, work@[b]),
            decreases limit - i,
        {
            let mut best_j = i;
            let mut j = i + 1;
            proof {
                lemma_child_in_range(self.nodes@, work@, best_j as int);
            }
            let mut best_v = self.nodes[work[best_j]].visits;
            while j < work.len()
                invariant
                    self.wf(),
                    work@.len() == self.nodes@[0].children@.len(),
                    i <= best_j < work@.len(),
                    i < j,
                    j <= work@.len(),
                    i < work@.len(),
                    forall|q: int|
                    0 <= q < work@.len() ==> #[trigger] is_root_child(self.nodes@, work@[q]),
                    best_v == self.nodes@[work@[best_j as int] as int].visits,
                    forall|q: int|
                        i <= q < j ==> #[trigger] node_visits(self.nodes@, work@[q]) <= best_v,
                decreases work@.len() - j,
            {
                proof {
                    lemma_child_in_range(self.nodes@, work@, j as int);
                }
                let v = self.nodes[work[j]].visits;
                if v > best_v {
                    best_v = v;
                    best_j = j;
                }
                j = j + 1;
            }
            let wi = work[i];
            let wb = work[best_j];
            let ghost work_before = work@;
            work[i] = wb;
            work[best_j] = wi;
            proof {
                assert forall|q: int|
                    0 <= q < work@.len() implies #[trigger] is_root_child(self.nodes@, work@[q]) by {
                    if q == best_j as int {
                        assert(work@[q] == work_before[i as int]);
                        assert(is_root_child(self.nodes@, work_before[i as int]));
                    } else if q == i as int {
                        assert(work@[q] == work_before[best_j as int]);
                        assert(is_root_child(self.nodes@, work_before[best_j as int]));
                    } else {
                        assert(work@[q] == work_before[q]);
                        assert(is_root_child(self.nodes@, work_before[q]));
                    }
                }
                assert forall|ci: int|
                    0 <= ci < self.nodes@[0].children@.len() implies work@.contains(
                    #[trigger] self.nodes@[0].children@[ci],
                ) by {
                    let q0 = choose|q0: int|
                        0 <= q0 < work_before.len() && work_before[q0]
                            == self.nodes@[0].children@[ci];
                    if q0 == i as int {
                        assert(work@[best_j as int] == work_before[i as int]);
                    } else if q0 == best_j as int {
                        assert(work@[i as int] == work_before[best_j as int]);
                    } else {
                        assert(work@[q0] == work_before[q0]);
                    }
                }
                // The selected maximum moves to position `i`; order facts
                // carry over the swap.
                assert(node_visits(self.nodes@, work@[i as int]) == best_v);
                assert forall|q: int|
                    i as int <= q < work@.len() implies #[trigger] node_visits(
                    self.nodes@,
                    work@[q],
                ) <= best_v by {
                    if q == i as int {
                    } else if q == best_j as int {
                        assert(work@[q] == work_before[i as int]);
                        assert(node_visits(self.nodes@, work_before[i as int]) <= best_v);
                    } else {
                        assert(work@[q] == work_before[q]);
                        assert(node_visits(self.nodes@, work_before[q]) <= best_v);
                    }
                }
                assert forall|a: int, b: int|
                    0 <= a < b < i + 1 implies #[trigger] node_visits(self.nodes@, work@[a])
                        >= #[trigger] node_visits(self.nodes@, work@[b]) by {
                    assert(work@[a] == work_before[a]);
                    if b < i as int {
                        assert(work@[b] == work_before[b]);
                    } else {
                        assert(b == i as int);
                        assert(node_visits(self.nodes@, work_before[a]) >= node_visits(
                            self.nodes@,
                            work_before[best_j as int],
                        ));
                    }
                }
                assert forall|a: int, b: int|
                    0 <= a < i + 1 && i + 1 <= b < work@.len() implies #[trigger] node_visits(
                    self.nodes@,
                    work@[a],
                ) >= #[trigger] node_visits(self.nodes@, work@[b]) by {
                    assert(node_visits(self.nodes@, work@[b]) <= best_v);
                    if a == i as int {
                        assert(node_visits(self.nodes@, work@[a]) == best_v);
                    } else {
                        assert(work@[a] == work_before[a]);
                        if b == best_j as int {
                            assert(work@[b] == work_before[i as int]);
                            assert(node_visits(self.nodes@, work_before[a]) >= node_visits(
                                self.nodes@,
                                work_before[i as int],
                            ));
                        } else {
                            assert(work@[b] == work_before[b]);
                        }
                    }
                }
            }
            i = i + 1;
        }
        proof {
            assert forall|q: int|
                0 <= q < work@.len() implies node_visits(self.nodes@, work@[0])
                    >= #[trigger] node_visits(self.nodes@, work@[q]) by {
                if 0 < q < limit as int {
                    assert(node_visits(self.nodes@, work@[0]) >= node_visits(
                        self.nodes@,
                        work@[q],
                    ));
                }
            }
            assert forall|ci: int|
                0 <= ci < self.nodes@[0].children@.len() implies node_visits(
                self.nodes@,
                #[trigger] self.nodes@[0].children@[ci],
            ) <= node_visits(self.nodes@, work@[0]) by {
                assert(work@.contains(self.nodes@[0].children@[ci]));
                let q = choose|q: int|
                    0 <= q < work@.len() && work@[q] == self.nodes@[0].children@[ci];
                assert(node_visits(self.nodes@, work@[q]) <= node_visits(self.nodes@, work@[0]));
            }
        }
        let best_node: usize;
        if self.config.selection_temperature_tenths == 0 {
            best_node = work[0];
            proof {
                assert(is_root_child(self.nodes@, work@[0]));
            }
        } else {
            let e: u32 = 10 / self.config.selection_temperature_tenths;
            let mut sum: u64 = 0;
            let mut weights: Vec<u64> = Vec::new();
            let mut t: usize = 0;
            while t < limit
                invariant
                    self.wf(),
                    limit <= work@.len(),
                    work@.len() == self.nodes@[0].children@.len(),
                    t <= limit,
                    weights@.len() == t,
                    forall|q: int|
                    0 <= q < work@.len() ==> #[trigger] is_root_child(self.nodes@, work@[q]),
                decreases limit - t,
            {
                proof {
                    lemma_child_in_range(self.nodes@, work@, t as int);
                }
                let v = self.nodes[work[t]].visits;
                let w = pow_sat(v, e);
                let new_sum = if sum > 0xFFFF_FFFF_FFFF_FFFFu64 - w {
                    0xFFFF_FFFF_FFFF_FFFFu64
                } else {
                    sum + w
                };
                sum = new_sum;
                weights.push(w);
                t = t + 1;
            }
            if sum == 0 {
                best_node = work[0];
                proof {
                    assert(is_root_child(self.nodes@, work@[0]));
                }
            } else {
                let mut draw = rand_below_u64(&mut self.rng, sum);
                let mut chosen = work[0];
                let mut z: usize = 0;
                let mut decided = false;
                while z < limit
                    invariant
                        limit <= work@.len(),
                        work@.len() == self.nodes@[0].children@.len(),
                        weights@.len() >= limit,
                        z <= limit,
                        limit >= 1,
                        is_root_child(self.nodes@, chosen),
                        forall|q: int|
                    0 <= q < work@.len() ==> #[trigger] is_root_child(self.nodes@, work@[q]),
                    decreases limit - z,
                {
                    let w = weights[z];
                    if !decided && draw < w {
                        chosen = work[z];
                        decided = true;
                    } else if !decided {
                        draw = draw - w;
                    }
                    z = z + 1;
                }
                best_node = chosen;
            }
        }
        proof {
            assert(is_root_child(self.nodes@, best_node));
            lemma_child_node_valid(self.nodes@, best_node);
        }
        let best_move = self.move_info_of(best_node);
        proof {
            assert(best_move.r < 11 && best_move.c < 11);
            assert(self.nodes@[best_node as int].move_idx == Some(
                (best_move.r * 11 + best_move.c) as usize,
            ));
            if self.config.selection_temperature_tenths == 0 {
                assert(best_node == work@[0]);
                assert forall|ci: int|
                    0 <= ci < self.nodes@[0].children@.len() implies node_visits(
                    self.nodes@,
                    #[trigger] self.nodes@[0].children@[ci],
                ) <= node_visits(self.nodes@, best_node) by {}
            }
            assert(exists|ch: usize|
                #[trigger] is_root_child(self.nodes@, ch) && ch < self.nodes@.len()
                    && self.nodes@[ch as int].move_idx == Some(
                    (best_move.r * 11 + best_move.c) as usize,
                ) && best_move.visits as u64 == self.nodes@[ch as int].visits
                && best_move.wins as u64 == self.nodes@[ch as int].wins && (self.nodes@[ch as int].visits
                > 0 ==> best_move.win_rate_permille as int == (self.nodes@[ch as int].wins as int)
                * 1000 / (self.nodes@[ch as int].visits as int)) && (
            self.config.selection_temperature_tenths == 0 ==> forall|ci: int|
                0 <= ci < self.nodes@[0].children@.len() ==> node_visits(
                    self.nodes@,
                    #[trigger] self.nodes@[0].children@[ci],
                ) <= node_visits(self.nodes@, ch)));
        }
        let mut alternatives: Vec<MoveInfo> = Vec::new();
        let mut a: usize = 0;
        while a < limit
            invariant
                self.wf(),
                self.playouts@ <= 0xFFFF_FFFFu64,
                limit <= work@.len(),
                limit <= 5,
                work@.len() == self.nodes@[0].children@.len(),
                a <= limit,
                alternatives@.len() == a,
                forall|q: int|
                    0 <= q < work@.len() ==> #[trigger] is_root_child(self.nodes@, work@[q]),
                forall|q: int|
                    0 <= q < a ==> ((#[trigger] alternatives@[q]).visits as u64) == node_visits(
                        self.nodes@,
                        work@[q],
                    ),
                forall|q1: int, q2: int|
                    0 <= q1 < q2 < limit ==> #[trigger] node_visits(self.nodes@, work@[q1])
                        >= #[trigger] node_visits(self.nodes@, work@[q2]),
            decreases limit - a,
        {
            proof {
                lemma_child_in_range(self.nodes@, work@, a as int);
                lemma_child_node_valid(self.nodes@, work@[a as int]);
            }
            let wa = work[a];
            let info = self.move_info_of(wa);
            alternatives.push(info);
            a = a + 1;
        }
        proof {
            assert forall|a2: int, b2: int|
                0 <= a2 < b2 < alternatives@.len() implies (
            #[trigger] alternatives@[a2]).visits >= (#[trigger] alternatives@[b2]).visits by {
                assert((alternatives@[a2].visits as u64) == node_visits(self.nodes@, work@[a2]));
                assert((alternatives@[b2].visits as u64) == node_visits(self.nodes@, work@[b2]));
            }
        }
        AnalysisResult {
            best_move: Some(best_move),
            alternatives,
            total_simulations: iterations,
            elapsed_ms: elapsed,
            nps: rate_per_second(iterations, elapsed),
        }
    }

    /// The report line for one root child.
    fn move_info_of(&self, node: usize) -> (mi: MoveInfo)
        requires
            self.wf(),
            self.playouts@ <= 0xFFFF_FFFFu64,
            1 <= node < self.nodes@.len(),
        ensures
            mi.r < 11,
            mi.c < 11,
            self.nodes@[node as int].move_idx == Some((mi.r * 11 + mi.c) as usize),
            mi.visits as u64 == self.nodes@[node as int].visits,
            mi.wins as u64 == self.nodes@[node as int].wins,
            self.nodes@[node as int].visits > 0 ==> mi.win_rate_permille as int == (
            self.nodes@[node as int].wins as int) * 1000 / (self.nodes@[node as int].visits as int),
            self.nodes@[node as int].visits == 0 ==> mi.win_rate_permille == 0,
    {
        let m = match self.nodes[node].move_idx {
            Some(m) => m,
            None => {
                proof {
                    assert(false);
                }
                0
            },
        };
        proof {
            assert(m < 121);
            crate::hexstate::lemma_hex_coords(m as int);
        }
        let r = m / 11;
        let c = m % 11;
        let visits = self.nodes[node].visits;
        let wins = self.nodes[node].wins;
        proof {
            assert(visits <= 0xFFFF_FFFFu64);
            assert(wins <= visits);
            assert(visits > 0 ==> (wins as int) * 1000 / (visits as int) <= 1000)
                by (nonlinear_arith)
                requires
                    wins <= visits,
            ;
            assert((wins as int) * 1000 <= 0xFFFF_FFFFu64 * 1000) by (nonlinear_arith)
                requires
                    wins <= 0xFFFF_FFFFu64,
            ;
        }
        let rate: u64 = if visits > 0 {
            wins * 1000 / visits
        } else {
            0
        };
        MoveInfo {
            r,
            c,
            visits: visits as u32,
            wins: wins as u32,
            win_rate_permille: rate as u32,
        }
    }
}

/// Work-list entries name root children, which are in range.
proof fn lemma_child_in_range(nodes: Seq<MCTSNode>, work: Seq<usize>, q: int)
    requires
        arena_wf(nodes),
        0 <= q < work.len(),
        forall|q2: int| 0 <= q2 < work.len() ==> #[trigger] is_root_child(nodes, work[q2]),
    ensures
        0 < work[q] < nodes.len(),
        is_root_child(nodes, work[q]),
{
    assert(is_root_child(nodes, work[q]));
    let ci = choose|ci: int|
        0 <= ci < nodes[0].children@.len() && (#[trigger] nodes[0].children@[ci]) == work[q];
}

/// A root child is a non-root node with a move.
proof fn lemma_child_node_valid(nodes: Seq<MCTSNode>, node: usize)
    requires
        arena_wf(nodes),
        is_root_child(nodes, node),
    ensures
        0 < node < nodes.len(),
        nodes[node as int].move_idx is Some,
{
    let ci = choose|ci: int|
        0 <= ci < nodes[0].children@.len() && (#[trigger] nodes[0].children@[ci]) == node;
}

/// Simulations per second, for the report.
fn rate_per_second(iterations: u32, elapsed_ms: u64) -> (r: u64)
{
    if elapsed_ms == 0 {
        0
    } else {
        (iterations as u64) * 1000 / elapsed_ms
    }
}

} // verus!
