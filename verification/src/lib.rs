//! Search engines for two small-board, perfect-information games.
//!
//! Game A is a hexagonal connection game on an 11 x 11 grid, served by a
//! Monte-Carlo tree search with RAVE statistics (`hexstate`, `unionfind`,
//! `mcts`, `entropy`).  Game B is a pursuit game on a 7 x 7 grid whose pieces
//! slide like chess queens and destroy a cell each turn, served by an
//! iterative-deepening alpha-beta search with a transposition table, move
//! ordering heuristics and an exact endgame solver (`bitboard`, `board`,
//! `partition`, `voronoi`, `eval`, `opening`, `search`, `search_advanced`,
//! `transposition`, `endgame`).
//!
//! Wall-clock time and random numbers enter only through the small trusted
//! wrappers in `clock` and `rng`; everything that decides on their results is
//! verified.

pub mod bitboard;
pub mod clock;
pub mod endgame;
pub mod eval;
pub mod entropy;
pub mod hexstate;
pub mod mcts;
pub mod opening;
pub mod search;
pub mod search_advanced;
pub mod board;
pub mod partition;
pub mod rng;
pub mod transposition;
pub mod unionfind;
pub mod voronoi;
