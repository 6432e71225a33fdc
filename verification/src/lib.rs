//! In-memory model of a partially fetched hierarchical key-value store.
//!
//! The crate keeps three cooperating pieces of state for a debugging
//! session against a remote nested-tree database:
//!
//! * [`path_ctx`] — an interning arena that gives every subtree address
//!   (a sequence of byte-string segments) one canonical handle with
//!   structural sharing, so handles compare in O(1);
//! * [`model`] — per-address subtrees of fetched nodes together with the
//!   cluster-root and waitlist bookkeeping that keeps the picture
//!   consistent while node updates arrive in arbitrary order;
//! * [`proof_tree`] — a stack machine that rebuilds binary Merkle proof
//!   trees from a linear operation log and cross-references them with
//!   fetched node data.
//!
//! [`bytes_utils`] and [`display`] render raw byte strings for humans and
//! [`proto_conversion`] resolves the reference schemes of incoming node
//! updates into canonical addresses.

pub mod bytes_utils;
pub mod display;
pub mod model;
pub mod path_ctx;
pub mod proof_tree;
pub mod proto_conversion;
pub mod protocol;
