//! The decision core of a Virus bot: the search tree's bookkeeping, the policy
//! net's artifact checks and encodings, the turn clock, and the protocol state
//! machine that decides what is sent, searched, cancelled and dropped.
//!
//! Everything here works on plain values. What needs a socket, a thread, a
//! clock or floating point lives in the program around this library, which
//! performs the effects these functions ask for and hands the results back.

pub mod game;
pub mod mcts;
pub mod proto;
pub mod score;
pub mod text;
pub mod time;
