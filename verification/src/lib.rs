//! Voting methods of social choice theory, verified with Verus.
//!
//! An election is a list of candidate names and a list of ballots; each ballot ranks
//! some of the candidates, best first. Each voting method turns an election into a
//! full ranking of the candidates, winner first.
pub mod types;
pub mod order;
pub mod tally;
pub mod vote;
pub mod parser;
