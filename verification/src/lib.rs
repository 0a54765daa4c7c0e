//! An index over a list of fixed-length lowercase words, and a query session
//! that narrows the list by letter-presence and letter-position constraints.
//!
//! Every word is known by its id, its place in the list. The index holds a
//! presence bitmask per word, a presence index (letter to ids) and a position
//! index (slot and letter to ids). A session keeps the ids that no constraint
//! has ruled out yet, in ascending order.

pub mod alphabet;
pub mod cache;
pub mod guesser;
pub mod laws;
pub mod mode;
pub mod model;
pub mod query;
pub mod word_data;

pub use alphabet::IndexError;
pub use cache::CachedWordData;
pub use guesser::Guesser;
pub use mode::Mode;
pub use word_data::WordData;
