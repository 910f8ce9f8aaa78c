//! Exact substring search over UTF-8 text.
//!
//! Two matchers report every offset, counted in bytes, at which a pattern
//! occurs in a text, overlapping occurrences included: a brute-force scanner
//! (`naive`) and a linear-time scanner built on the Z-array (`z`). Both are
//! proved to return exactly `offsets::match_offsets` of the text's and the
//! pattern's bytes.
pub mod naive;
pub mod offsets;
pub mod z;
