//! Exact expected outcomes of dice-driven attacks.
//!
//! An attack rolls a pool of differently weighted dice. Every combination of
//! faces is scored against the attacker's characteristics, an ordered chain
//! of effects may branch each scored roll into weighted alternatives, and all
//! of it is folded into one outcome whose scores are exact fractions.

pub mod common;
pub mod slots;
pub mod dice;
pub mod cartesian_fold;
pub mod attack;
pub mod effects;
pub mod disposition;

