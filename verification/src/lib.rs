//! Verified core of a SubRip (.srt) subtitle normalizer.
//!
//! The library strips a fixed set of noise markup tags from subtitle text,
//! parses the text into structured entries, merges consecutive entries whose
//! display windows overlap, and serializes the result back to SubRip text.
//! File discovery and file I/O are left to the surrounding application.

pub mod subtitle;
pub mod text;
pub mod time;
