//! Engine entry point for the hexagonal connection game.
//!
//! The caller hands a flat board array; a wrong length is refused with an
//! error, anything else is replayed into a fresh state and searched under the
//! wall-clock budget and difficulty preset.

use vstd::prelude::*;
use crate::hexstate::{HexState, Player, NUM_CELLS};
use crate::mcts::{MCTSEngine, EngineConfig, AnalysisResult};
use crate::rng::seed_rng;

verus! {

/// Why a request was refused.
#[derive(Clone, Copy, Debug, PartialEq, Eq, Structural)]
pub enum EngineError {
    InvalidBoardSize,
}

impl EngineError {
    /// A human-readable description.
    pub fn message(&self) -> (s: String)
        ensures
            s@ == "Invalid board size"@,
    {
        "Invalid board size".to_owned()
    }
}

/// Computes the engine's move for a raw board.
///
/// The board array must hold one value per cell — anything else is refused —
/// with `1` for a human stone and `2` for an AI stone.  The search runs at
/// the preset of `difficulty_level` within `time_limit_ms`, drawing its
/// randomness from `seed`.
pub fn get_best_move(
    board_array: &[u8],
    is_ai_turn: bool,
    time_limit_ms: u32,
    difficulty_level: u32,
    seed: u64,
) -> (r: Result<AnalysisResult, EngineError>)
    ensures
        r is Err <==> board_array@.len() != 121,
        r is Err ==> r->Err_0 == EngineError::InvalidBoardSize,
        r is Ok ==> {
            let a = r->Ok_0;
            &&& (a.best_move is Some ==> a.best_move->0.r < 11 && a.best_move->0.c < 11)
            &&& a.total_simulations <= (if difficulty_level == 3 {
                30000u32
            } else if difficulty_level == 5 {
                80000u32
            } else {
                1000000u32
            })
            &&& a.alternatives@.len() <= 5
        },
{
    if board_array.len() != NUM_CELLS {
        return Err(EngineError::InvalidBoardSize);
    }
    let mut state = HexState::new();
    let mut i: usize = 0;
    while i < NUM_CELLS
        invariant
            state.wf(),
            i <= 121,
            board_array@.len() == 121,
        decreases 121 - i,
    {
        let v = board_array[i];
        if v == 1 {
            state.make_move(i, Player::Human);
        } else if v == 2 {
            state.make_move(i, Player::AI);
        }
        i = i + 1;
    }
    let player = if is_ai_turn {
        Player::AI
    } else {
        Player::Human
    };
    let config = EngineConfig::for_difficulty(difficulty_level);
    let rng = seed_rng(seed);
    let mut engine = MCTSEngine::new(state, player, config, rng);
    let result = engine.search(time_limit_ms);
    Ok(result)
}

} // verus!
