//! A versioned, content-addressed record store.
//!
//! Every mutation is committed through a two-phase, detached-signing
//! protocol: a caller stages an operation, receives unsigned commit bytes,
//! obtains a signature from a key the store never holds, and finalizes the
//! commit only after that signature verifies against the identity that owns
//! the store. The structural index is a deterministic, ordered tree keyed by
//! byte-string paths, so its root content identifier is a single verifiable
//! fingerprint of the entire dataset.
//!
//! The layers, leaf-first: [`order`] gives the lexicographic path order;
//! [`digest`] names the hash and derives each path's rank; [`cid`] models
//! content identifiers and the fixed-width byte codecs; [`store`] is the
//! in-memory block store; [`keys`] holds the sorted path-to-identifier
//! entries in canonical form; [`tree`] encodes them as the deterministic,
//! rank-pivoted node blocks and writes them out; [`load`] reads such trees
//! back and proves a root identifier names at most one tree; [`commit`]
//! encodes and decodes the signed commit blocks; [`identity`] parses
//! self-certifying key identifiers and verifies detached signatures;
//! [`repo`] ties all of it into the repository and its staged-commit
//! builder; [`laws`] states the properties that hold across operations;
//! [`backend`] carries handles for block stores living behind a host
//! boundary.

pub mod errors;
pub mod order;
pub mod digest;
pub mod cid;
pub mod store;
pub mod keys;
pub mod tree;
pub mod load;
pub mod commit;
pub mod identity;
pub mod repo;
pub mod backend;
pub mod laws;
