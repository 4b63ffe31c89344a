//! Core of a falling-block puzzle: tetromino shapes, a playfield that moves,
//! rotates and settles them under collision checks, completed-row detection
//! and clearing, and the gravity timer that paces descent.

pub mod piece;
pub mod catalog;
pub mod grid;
pub mod gravity;
pub mod laws;
