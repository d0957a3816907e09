//! An expression compiler and evaluator for single-variable formulas, with a
//! sample cache that follows a moving viewport.
//!
//! Text becomes tokens ([`scanner`]), tokens a syntax tree ([`parser`]), the
//! tree postfix code for a stack machine ([`calculator`]). A [`cache::SampleCache`]
//! keeps the samples of one formula on a grid of fixed step, and an
//! [`AppState`] holds the formulas of one session with their caches ([`session`]).
//!
//! Numbers are bit patterns of doubles ([`binary64`]). What rounds is done
//! by the arithmetic unit that the caller passes in; what is decided on
//! numbers is decided here.
pub mod binary64;
pub mod cache;
pub mod calculator;
pub mod parser;
pub mod scanner;
pub mod session;

pub use crate::session::{
    compile_expression, expand_cache, graph_each_function, initialize, reset, run, set_delta,
    toggle_mode, AppState, COARSE_STEP, EXPANSION, FINE_STEP, MAX_CACHE_SIZE,
};
