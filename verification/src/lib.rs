//! Zero-copy, lazy, restartable splitting of string slices.
//!
//! Two iterator engines share one slicing discipline: [`SubstrIterator`]
//! splits a borrowed string at occurrences of a literal needle, and
//! `FuncIterator` splits it into maximal runs of characters for which a
//! separator predicate is false. A word iterator specialises the latter to
//! alphanumeric runs. Every emitted item is a sub-slice of the original
//! buffer, and every pull is specified exactly against a mathematical model
//! over sequences of characters.

pub mod model;
pub mod runs;
pub mod substr;
pub mod word;

pub use runs::Func;
pub use runs::FuncIterator;
pub use substr::Substr;
pub use substr::SubstrIterator;
pub use word::word_iter;
pub use word::Word;
pub use word::WordIterator;
