//! Anagram grouping over a vocabulary of byte-string words.
//!
//! A word is fingerprinted by its length, its byte-sum checksum and a
//! 256-slot byte histogram; two words are anagrams exactly when their
//! histograms agree.  The vocabulary is sorted by (length, checksum) so
//! that every anagram-candidate class is contiguous, and a single
//! consumption pass then extracts the groups of mutual anagrams.

pub mod word;
pub mod vocab;
pub mod groups;
