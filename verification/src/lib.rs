//! A serial terminal for embedded work: the parts that decide. Device output is cut
//! into lines and stamped, keys are decoded, lines are kept, searched and filtered,
//! ports are told apart, and a session turns events into actions. Opening ports and
//! drawing on a terminal is left to the program around this library.
pub mod ansi;
pub mod cli;
pub mod clock;
pub mod guarantees;
pub mod input;
pub mod logfile;
pub mod logo;
pub mod ports;
pub mod scrollback;
pub mod serial;
pub mod session;
pub mod term;
pub mod text;
pub mod timestamps;
pub mod tui;
