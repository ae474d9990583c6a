//! Interaction with a REPL that runs inside a terminal pane.
//!
//! From the captured text of a pane, the library says whether the REPL waits
//! for input, which command ran last and what it printed, and when a command
//! that was sent has finished. It reads and sends nothing itself.
pub mod text;
pub mod pattern;
pub mod kinds;
pub mod prompts;
pub mod extract;
pub mod validate;
pub mod wait;
pub mod outcome;
pub mod yaml;
pub mod readback;
pub mod report;
