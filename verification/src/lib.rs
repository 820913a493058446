//! Execution core of a software CPU emulator with a trace cache.
//!
//! The emulator interprets a small RISC-style instruction set held in a flat
//! byte-addressed memory. The trace cache decodes each basic block once and
//! replays the decoded instructions on later visits to the same address,
//! while remaining observably identical to an interpreter that decodes fresh
//! on every step -- including under self-modifying code. The central theorem,
//! stated on [`trace::TraceMachine::run`], is that a cached run reaches
//! exactly the machine state and outcome of some number of uncached
//! fetch-decode-execute steps.

pub mod decoder;
pub mod instruction;
pub mod machine;
pub mod trace;
