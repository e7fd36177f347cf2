//! portkill: find and kill whatever is squatting on a port.
//!
//! The library holds everything that decides: fuzzy ranking, socket
//! filtering, the browse-mode state machine, the guardrails around signal
//! delivery, and the text that the program shows.

pub mod cli;
pub mod fuzzy;
pub mod kill;
pub mod ports;
pub mod process;
pub mod text;
pub mod tui;
