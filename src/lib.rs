//! An interpreter for a tiny tape language of eight symbols: a loader that
//! turns program text into checked instructions, a circular tape of signed
//! cells, and an engine whose every step is specified by a small-step
//! machine.
pub mod error;
pub mod sim;
pub mod storage;
