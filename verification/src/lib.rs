//! Binary hash tries for sets and finite maps, built for the archivist role of
//! an incremental computation: every branch and every cached cell carries a
//! stable name, derived from the caller's name by forking.
//!
//! `trie` holds the tries themselves: lookup, construction from a bucket,
//! the join of two tries and the check of well-formedness. `model` says what
//! a trie is and what these operations compute, and `laws` proves what holds
//! of them. `level_tree` holds the balanced sequences that are folded from
//! the leaves up, and `adapter` the fold that builds a set from one. `bits`,
//! `key`, `names` and `art` hold what the tries are made of: bit prefixes,
//! keys and their hashes, names, and published values. `test_seq` describes
//! an edit-and-measure run over such data.

pub mod adapter;
pub mod art;
pub mod bits;
pub mod key;
pub mod laws;
pub mod level_tree;
pub mod model;
pub mod names;
pub mod test_seq;
pub mod trie;
