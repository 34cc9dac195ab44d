//! Checks the passwords of a credential tree against a corpus of breached
//! password digests.
//!
//! A text corpus of `digest:count` lines is converted once into a store of
//! fixed-width records, in the order of its lines ([`convert`], with the
//! account of its progress in [`progress`]). A store sorted by digest answers
//! point queries by binary search ([`pwn_db`]), and a walk over a tree of
//! groups and entries asks the store once for each entry that holds a
//! password ([`keepass_finder`]). What holds of these together is stated in
//! [`laws`].

pub mod convert;
pub mod corpus;
pub mod error;
pub mod hash;
pub mod hexdigest;
pub mod keepass_finder;
pub mod laws;
pub mod progress;
pub mod pwn_db;
pub mod record;
