//! A two-player capture game on a hexagonal board in double-width offset
//! coordinates: the board's geometry, its cells, and the move engine that
//! places a piece and flips the opposing pieces next to it.
pub mod board;
pub mod geometry;
pub mod layout;
pub mod lemmas;
pub mod piece;
