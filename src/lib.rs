//! Automaton-driven term matching for one field of an index segment.
//!
//! An [`AutomatonWeight`] binds a field to an acceptor over term bytes. For
//! each segment it walks the field's sorted term dictionary, prunes every
//! subtree the acceptor can no longer match, and gathers the postings of the
//! accepted terms into one presence set, scored with a constant score.
pub mod acceptor;
pub mod bitset;
pub mod docset;
pub mod index;
pub mod regex;
pub mod weight;

pub use acceptor::Acceptor;
pub use bitset::BitSet;
pub use docset::{BitSetDocSet, SkipResult};
pub use index::{Field, InvertedIndex, QueryError, SegmentReader};
pub use regex::RegexAcceptor;
pub use weight::{AutomatonWeight, ConstScorer, Explanation};
