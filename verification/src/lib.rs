//! A small collection of verified command-line toys. The centerpiece is the
//! knight's tour solver in `knights`: a board of visitation marks and a
//! deterministic Warnsdorff-heuristic solver whose result is pinned, square
//! by square, to a specification-level model of the heuristic. Around it
//! stand a maze carver, a word-bigram chain, a password generator, a port
//! scanning schedule, and the counting game, each with contracts over the
//! same kind of mathematical models.

pub mod digits;
pub mod fizz;
pub mod knights;
pub mod markov;
pub mod maze;
pub mod passwords;
pub mod ports;
mod rng;
