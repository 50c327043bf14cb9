//! The rules engine of a territory-conquest word game. Players grow
//! territory by placing letters next to their own tiles on a shared grid;
//! a new letter completes words that battle the enemy words they touch,
//! and dictionary validity plus word length decide who survives. After
//! every removal, truncation clears whatever lost its connection to its
//! owner's root, so the grid invariant - every tile reaches its owner's
//! root through same-owner neighbours - holds after every move.

pub mod battle;
pub mod board;
pub mod discover;
pub mod error;
pub mod hand;
pub mod judge;
pub mod moves;
pub mod text;
pub mod truncation;
