//! Streaming search and same-length replacement of byte patterns with
//! wildcard positions.
//!
//! A [`Pattern`] is a non-empty sequence of [`Symbol`]s: fixed bytes and
//! wildcards. Scanning a stream of bytes against it gives a tagged sequence
//! of [`MatchResult`]s: the matches, found greedily from the left and never
//! overlapping, and every other byte as a literal. An ordinal window of
//! `skip` and `take` says which of the matches stay matches; the others
//! become literals again. A replacement pattern of the same length is
//! written over the matches that stay, and its wildcards keep the matched
//! byte.
//!
//! The modules, from the leaves up:
//!
//! - [`pattern`]: symbols, patterns, and what matching and overwriting mean;
//! - [`syntax`]: the textual form of a pattern and its parser;
//! - [`tagged`]: the tagged sequence and its model;
//! - [`scan`]: which windows of an input are matches, as a function of the
//!   input, and how much of that a prefix of the input settles;
//! - [`matcher`]: the scan as a machine that takes one byte at a time and
//!   holds back fewer bytes than the pattern is long;
//! - [`ordinal`]: the filter by ordinal window;
//! - [`replace`]: the replacer;
//! - [`stream`]: matcher and filter as one machine that is pulled for items
//!   and asks for input, for a source that may end or fail;
//! - [`patch`]: all of it over an input held in memory;
//! - [`laws`]: what holds of every run.
//!
//! The library reads and writes nothing. A source of bytes is driven from
//! outside: see [`Pipeline`].
pub mod laws;
pub mod matcher;
pub mod ordinal;
pub mod patch;
pub mod pattern;
pub mod replace;
pub mod scan;
pub mod stream;
pub mod syntax;
pub mod tagged;

pub use matcher::{search, Matcher};
pub use ordinal::{filter_matches, OrdinalFilter};
pub use patch::{find, patch};
pub use pattern::{Pattern, PatternError, Symbol};
pub use replace::Replacer;
pub use stream::{Input, Phase, Pipeline, Step};
pub use syntax::Radix;
pub use tagged::{MatchResult, Tagged};
