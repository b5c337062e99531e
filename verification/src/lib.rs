//! A rules engine for the board game Reversi (Othello).
//!
//! The engine tracks board occupancy, validates and enumerates legal moves,
//! executes the capture rule on placement, alternates turns, and reports
//! scores. Rendering and input handling are left to the caller.

pub mod reversi;
