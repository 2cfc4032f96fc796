//! A Klondike solitaire engine and solver over a compact bitboard state,
//! with machine-checked contracts.

pub mod analysis;
pub mod bits;
pub mod card;
pub mod convert;
pub mod dealing;
pub mod deck;
pub mod engine;
pub mod graph;
pub mod hidden;
pub mod layout;
pub mod mixer;
pub mod movegen;
pub mod moves;
pub mod partial;
pub mod pruning;
pub mod random;
pub mod solver;
pub mod standard;
pub mod table;
pub mod tableau;
pub mod text;
pub mod tracking;
pub mod traverse;
