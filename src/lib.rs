//! Terminal UI testing toolkit: a terminal grid model driven by VT events,
//! OSC 133 semantic zones, fixed UI regions, palettes, and the seqlock
//! discipline used to read a daemon's shared-memory snapshot.

pub mod decimal;
pub mod grid;
pub mod zones;
pub mod regions;
pub mod seqlock;
pub mod theme;
pub mod harness;
pub mod scarab;
