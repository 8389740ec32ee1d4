//! Factor graphs as text.

use vstd::prelude::*;

pub mod g2o;
pub mod model;
pub mod round_trip;

verus! {

/// How numbers are spelled. A number is a double-precision number held as its bit
/// pattern.
///
/// The parsers take whatever comes back: what they state of their own results, they
/// state of what the spelling answered.
pub trait NumberText {
    /// The number that a word spells, if it spells one.
    fn parse(&self, word: &str) -> (number: Option<u64>);

    /// The word that spells a number.
    fn format(&self, number: u64) -> (word: String);
}

} // verus!
