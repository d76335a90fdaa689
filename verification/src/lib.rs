//! An order-2 Markov chain over words: feed it text, then ask it for a passage
//! that statistically resembles what it was fed.
//!
//! ```
//! use markov::{MarkovGenerator, TransitionTable};
//!
//! let mut markov = MarkovGenerator::new(TransitionTable::new());
//! markov.feed_from_words(&["Hello", "world", "my", "name", "is", "KokaKiwi"]);
//! let text = markov.generate_text(15);
//! ```
//!
//! A model keeps every word it was fed and, in a [`Cache`], for each pair of
//! neighbouring words the words seen to follow the pair. A passage is a walk:
//! it starts at a pair of the history and moves on, one word at a time, to a
//! successor of the pair it stands on, until it is long enough or stands on a
//! pair that nothing followed.

pub mod cache;
pub mod generator;
pub mod laws;
pub mod random;
pub mod table;
pub mod text;
pub mod triples;

pub use cache::Cache;
pub use generator::{GenerateError, MarkovGenerator};
pub use random::{RandomSource, ThreadRandom};
pub use table::TransitionTable;
pub use triples::Triples;
