//! A variable-order Markov chain that learns sequences of symbols and
//! generates new ones that resemble them.

pub mod chain;
pub mod context;
pub mod distribution;
pub mod laws;
pub mod random;
pub mod symbol;
pub mod table;
pub mod training;
pub mod walk;

pub use chain::{ChainError, MarkovChain};
pub use distribution::Distribution;
pub use rand::Rng;
pub use random::weighted_choice;
