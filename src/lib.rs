//! A generalized suffix array over a batch of strings, answering approximate
//! substring-overlap queries.
pub mod array;
pub mod encoding;
pub mod index;
pub mod lcp;
pub mod query;

pub use array::{min_chars_for_pct, GeneralizedSuffixArray, SuffixArrayError};
pub use index::{BaseGeneralizedSuffixArray, Suffix};
pub use query::{Fraction, MatchDetails};
