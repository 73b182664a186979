//! Client runtime core for heads-up no-limit hold'em: cards, betting state,
//! hand evaluation and the engine's line protocol.
pub mod cards;
pub mod actions;
pub mod states;
pub mod showdown;
pub mod potential;
pub mod protocol;
pub mod session;
pub mod thread_pool;
pub mod text;
