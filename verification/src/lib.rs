//! Verified core of a small collection of systems programs: a ptrace
//! debugger (breakpoint bookkeeping, address parsing, stepping decisions),
//! a hangman game, a word counter and an index-preserving parallel map.

pub mod address;
pub mod breakpoints;
pub mod command;
pub mod hangman;
pub mod session;
pub mod text;
pub mod word;
pub mod wc;
pub mod parallel;
