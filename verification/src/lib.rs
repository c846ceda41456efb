//! A verified engine for the card game War.
//!
//! Two players each own a deck of ranked cards.  Every round both flip their
//! top card; the higher rank wins all cards on the table, and equal ranks
//! start a "war" in which each side antes face-down cards before the next
//! comparison.  The engine proves that cards are conserved throughout a
//! game, that a war always resolves, and that the ante never empties a
//! player's hand on its own.
//!
//! Randomness (shuffling a discard pile back into play) comes from an
//! opaque `fastrand::Rng` carried through the `rng` module; everything the
//! engine claims holds for every permutation a shuffle could produce.

pub mod rng;
pub mod sim;
