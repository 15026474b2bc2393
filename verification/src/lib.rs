//! Analysis core of a context-free-grammar toolkit.
//!
//! The crate models an augmented grammar (symbols, rules, reserved markers)
//! and computes derived grammar properties needed by parser-generation
//! algorithms, starting with nullable-symbol detection.  Its foundation is a
//! packed bit-vector over a dense index range, generic over its backing
//! storage, together with a compressed-sparse-row rule table.

pub mod bits;
pub mod flat_table;
pub mod formal_language;
pub mod grammar;
pub mod bitset;
pub mod table1d;
