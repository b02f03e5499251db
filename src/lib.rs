//! Rotating pairings: a store of how often each pair of participants has
//! already met, a roster with odd-count handling, and the scoring and
//! decoding of candidate matchings.

pub mod error;
pub mod history;
pub mod pairing;
pub mod person;
pub mod roster;

pub use error::BuddyError;
pub use history::merge;
pub use history::History;
pub use history::HistoryStats;
pub use history::PairKey;
pub use pairing::pair_fitness;
pub use pairing::Pairs;
pub use person::Person;
pub use roster::People;
pub use roster::EVENIZER_ID;
