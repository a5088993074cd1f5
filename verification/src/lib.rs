//! Autopilot logic for a terminal-rendered side-scrolling arcade game.
//!
//! The game draws itself with ANSI control sequences. This crate scans the
//! raw byte stream the game writes, reconstructs the few control sequences
//! the autopilot cares about (two colour markers and cursor positioning),
//! tracks the player's rendered position per frame, and decides when a jump
//! keystroke or a quit keystroke must be sent back to the game.

pub mod laws;
pub mod pilot;
pub mod state;
