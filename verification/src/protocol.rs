//! The normalized records the fetch layer hands to the core.
//!
//! The core has no wire format of its own: the transport turns whatever
//! arrives from the store into these plain records, and everything the
//! core does is stated in terms of them. A [`NodeUpdate`] describes one
//! fetched node; a [`Proof`] is a nested structure of per-subtree
//! operation logs that [`crate::proof_tree`] replays.

use vstd::prelude::*;

use crate::model::Key;
use crate::model::TreeFeatureType;

verus! {

/// A reference element's address-rewriting scheme, as received.
#[derive(Debug, Clone)]
pub enum Reference {
    /// The target address is spelled out in full; its last segment is
    /// the target key.
    AbsolutePathReference { path: Vec<Vec<u8>>, element_flags: Option<Vec<u8>> },
    /// Keep the first `n_keep` segments of the current address, then
    /// append.
    UpstreamRootHeightReference {
        n_keep: u32,
        path_append: Vec<Vec<u8>>,
        element_flags: Option<Vec<u8>>,
    },
    /// Like [`Reference::UpstreamRootHeightReference`], but the current
    /// address's last segment is carried over and appended at the end.
    UpstreamRootHeightWithParentPathAdditionReference {
        n_keep: u32,
        path_append: Vec<Vec<u8>>,
        element_flags: Option<Vec<u8>>,
    },
    /// Drop the last `n_remove + 1` segments of the current address,
    /// then append.
    UpstreamFromElementHeightReference {
        n_remove: u32,
        path_append: Vec<Vec<u8>>,
        element_flags: Option<Vec<u8>>,
    },
    /// Same address except for the last segment, same key.
    CousinReference { swap_parent: Key, element_flags: Option<Vec<u8>> },
    /// The last segment is replaced by a whole segment sequence.
    RemovedCousinReference { swap_parent: Vec<Vec<u8>>, element_flags: Option<Vec<u8>> },
    /// Another key in the very same subtree.
    SiblingReference { sibling_key: Key, element_flags: Option<Vec<u8>> },
}

/// A node's element as received from the store.
#[derive(Debug, Clone)]
pub enum Element {
    Subtree { root_key: Option<Key>, element_flags: Option<Vec<u8>> },
    Sumtree { root_key: Option<Key>, sum: i64, element_flags: Option<Vec<u8>> },
    Item { value: Vec<u8>, element_flags: Option<Vec<u8>> },
    SumItem { value: i64, element_flags: Option<Vec<u8>> },
    Reference(Reference),
}

/// One fetched node, as received: its address, key, element, claimed
/// children and digests.
#[derive(Debug, Clone)]
pub struct NodeUpdate {
    pub path: Vec<Vec<u8>>,
    pub key: Key,
    pub element: Element,
    pub left_child: Option<Key>,
    pub right_child: Option<Key>,
    pub feature_type: TreeFeatureType,
    pub value_hash: Vec<u8>,
    pub kv_digest_hash: Vec<u8>,
}

/// The payload a proof op pushes: one node of the Merk proof, in one of
/// the disclosure shapes the store produces.
#[derive(Debug)]
pub enum MerkProofNode {
    /// Only the node hash.
    Hash(Vec<u8>),
    /// Only the key-value hash.
    KVHash(Vec<u8>),
    /// Key and key-value hash.
    KVDigest(Key, Vec<u8>),
    /// Key and element.
    KV(Key, Element),
    /// Key, element and value hash.
    KVValueHash(Key, Element, Vec<u8>),
    /// Key, element, value hash and feature type.
    KVValueHashFeatureType(Key, Element, Vec<u8>, TreeFeatureType),
    /// Key, referenced element and value hash.
    KVRefValueHash(Key, Element, Vec<u8>),
}

/// One instruction of the linear proof log.
#[derive(Debug)]
pub enum MerkProofOp {
    /// Allocate a fresh childless node and push it.
    Push(MerkProofNode),
    /// Same as [`MerkProofOp::Push`]; the distinction matters only to
    /// the prover that emitted the log.
    PushInverted(MerkProofNode),
    /// Pop parent, pop child, attach child on the left, push parent.
    Parent,
    /// Pop child, pop parent, attach child on the right, push parent.
    Child,
    /// Pop parent, pop child, attach child on the right, push parent.
    ParentInverted,
    /// Pop child, pop parent, attach child on the left, push parent.
    ChildInverted,
}

/// One subtree's slice of a proof: its operation log and the proofs of
/// the subtrees below it, keyed by the linking node's key.
#[derive(Debug)]
pub struct ProofLayer {
    pub merk_proof: Vec<MerkProofOp>,
    pub lower_layers: Vec<(Key, ProofLayer)>,
}

/// A whole proof response: the root subtree's layer, with lower layers
/// nested inside it.
#[derive(Debug)]
pub struct Proof {
    pub root_layer: ProofLayer,
}

} // verus!
