//! Words over an alphabet, enumerated in odometer order.
//!
//! An [`Alphabet`] is made from the distinct characters of a text, in the
//! order in which they first occur. A [`WordsIterator`] hands out its words
//! one by one: first the words of one symbol, then those of two, and so on,
//! each length in the order of the alphabet with the leftmost symbol changing
//! slowest. A cursor may have a bound on the length of its words, and may
//! start at any word.
//!
//! - [`symbols`]: the distinct symbols of a text.
//! - [`alphabet`]: the alphabet and how it is made.
//! - [`odometer`]: the word that follows a word.
//! - [`rank`]: the number of a word in the enumeration, and the order it shows.
//! - [`words`]: the cursor.
//! - [`text`]: characters, code points and strings.

pub mod alphabet;
pub mod odometer;
pub mod rank;
pub mod symbols;
pub mod text;
pub mod words;

pub use alphabet::Alphabet;
pub use words::WordsIterator;
