//! Lexical confusability metrics over phonetic transcriptions.
//!
//! For every language of a word list, the crate works out how easily each two
//! of its words are taken for one another, from the edit distance between
//! their transcriptions.
//!
//! * [`levenshtein`]: the edit distance between two character sequences.
//! * [`scripts`]: edit scripts, and that the distance is the length of the
//!   shortest.
//! * [`normalized`]: that distance scaled by the two lengths, as an exact
//!   fraction.
//! * [`triangular`]: the packed layout that holds one value for each
//!   unordered pair of words.
//! * [`pairwise`]: the normalised distances between all the words of a group.
//! * [`metrics`]: similarities, normalisation totals and the confusion table,
//!   over a number type and an arithmetic that the caller brings.
//! * [`decay`]: what the similarities have from the decay that the caller
//!   brings.
//! * [`exact`]: what the normalisation totals add up to where the
//!   arithmetic is exact.
//! * [`records`]: the lines of the word list, read into groups.
//! * [`report`]: the lines of the report.

pub mod decay;
pub mod exact;
pub mod levenshtein;
pub mod metrics;
pub mod normalized;
pub mod pairwise;
pub mod records;
pub mod report;
pub mod scripts;
pub mod triangular;
