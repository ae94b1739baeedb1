//! Verified core of a retrieval experiment that compares grammar-based
//! (SP multiple alignment) retrieval of training sentences with
//! attention-style retrieval.
//!
//! The library holds the integer and symbolic logic: the deterministic
//! generator, the synthetic corpus, interning of words, subsequence matching
//! of grammar patterns, the coverage of training sentences by matched
//! patterns, the overlap (Jaccard) of two retrieved sets, and the small
//! collection utilities the experiment is built from.
pub mod corpus;
pub mod costs;
pub mod coverage;
pub mod grammar;
pub mod interning;
pub mod lcg;
pub mod overlap;
pub mod selection;
pub mod small_grammar;
pub mod subsequence;
