//! The proof stack machine and the cross-referencing of proof trees
//! with real node data.

use grovedbg::model::TreeFeatureType;
use grovedbg::proof_tree::ProofError;
use grovedbg::proof_tree::ProofSubtree;
use grovedbg::proof_tree::ProofTree;
use grovedbg::proof_tree::ReconcileError;
use grovedbg::protocol::Element;
use grovedbg::protocol::MerkProofNode;
use grovedbg::protocol::MerkProofOp;
use grovedbg::protocol::NodeUpdate;
use grovedbg::protocol::Proof;
use grovedbg::protocol::ProofLayer;

fn update(key: &[u8], left: Option<&[u8]>, right: Option<&[u8]>) -> NodeUpdate {
    NodeUpdate {
        path: vec![],
        key: key.to_vec(),
        element: Element::Item {
            value: b"v".to_vec(),
            element_flags: None,
        },
        left_child: left.map(|k| k.to_vec()),
        right_child: right.map(|k| k.to_vec()),
        feature_type: TreeFeatureType::BasicMerkNode,
        value_hash: vec![0; 32],
        kv_digest_hash: vec![0; 32],
    }
}

#[test]
fn two_pushes_leave_two_roots() {
    let ops = vec![
        MerkProofOp::Push(MerkProofNode::Hash(vec![1; 32])),
        MerkProofOp::Push(MerkProofNode::Hash(vec![2; 32])),
    ];
    assert_eq!(
        ProofSubtree::from_ops(ops).unwrap_err(),
        ProofError::StackNotSingleRoot
    );
}

#[test]
fn pop_on_empty_stack_is_rejected() {
    assert_eq!(
        ProofSubtree::from_ops(vec![MerkProofOp::Parent]).unwrap_err(),
        ProofError::StackUnderflow
    );
    let ops = vec![
        MerkProofOp::Push(MerkProofNode::Hash(vec![1; 32])),
        MerkProofOp::Child,
    ];
    assert_eq!(
        ProofSubtree::from_ops(ops).unwrap_err(),
        ProofError::StackUnderflow
    );
}

#[test]
fn parent_op_attaches_left_child() {
    let ops = vec![
        MerkProofOp::Push(MerkProofNode::Hash(vec![1; 32])),
        MerkProofOp::Push(MerkProofNode::Hash(vec![2; 32])),
        MerkProofOp::Parent,
    ];
    let sub = ProofSubtree::from_ops(ops).unwrap();
    // The op pops the later push as the parent and attaches the earlier
    // one as its left child.
    assert_eq!(sub.root, 1);
    assert_eq!(sub.tree.len(), 2);
    assert_eq!(sub.tree[1].left, Some(0));
    assert_eq!(sub.tree[1].right, None);
    assert_eq!(sub.tree[0].left, None);
    assert!(matches!(&sub.tree[1].proof_value, MerkProofNode::Hash(h) if h == &vec![2u8; 32]));
}

#[test]
fn child_op_attaches_right_child() {
    let ops = vec![
        MerkProofOp::Push(MerkProofNode::Hash(vec![1; 32])),
        MerkProofOp::Push(MerkProofNode::Hash(vec![2; 32])),
        MerkProofOp::Child,
    ];
    let sub = ProofSubtree::from_ops(ops).unwrap();
    // The op pops the later push as the child and attaches it on the
    // right of the earlier one.
    assert_eq!(sub.root, 0);
    assert_eq!(sub.tree[0].right, Some(1));
    assert_eq!(sub.tree[0].left, None);
}

#[test]
fn inverted_ops_mirror_their_counterparts() {
    let ops = vec![
        MerkProofOp::PushInverted(MerkProofNode::KVHash(vec![1; 32])),
        MerkProofOp::PushInverted(MerkProofNode::KVHash(vec![2; 32])),
        MerkProofOp::ParentInverted,
    ];
    let sub = ProofSubtree::from_ops(ops).unwrap();
    assert_eq!(sub.root, 1);
    assert_eq!(sub.tree[1].right, Some(0));

    let ops = vec![
        MerkProofOp::PushInverted(MerkProofNode::KVHash(vec![1; 32])),
        MerkProofOp::PushInverted(MerkProofNode::KVHash(vec![2; 32])),
        MerkProofOp::ChildInverted,
    ];
    let sub = ProofSubtree::from_ops(ops).unwrap();
    assert_eq!(sub.root, 0);
    assert_eq!(sub.tree[0].left, Some(1));
}

#[test]
fn layers_build_at_their_addresses() {
    let proof = Proof {
        root_layer: ProofLayer {
            merk_proof: vec![MerkProofOp::Push(MerkProofNode::Hash(vec![1; 32]))],
            lower_layers: vec![(
                b"docs".to_vec(),
                ProofLayer {
                    merk_proof: vec![MerkProofOp::Push(MerkProofNode::Hash(vec![2; 32]))],
                    lower_layers: vec![],
                },
            )],
        },
    };
    let tree = ProofTree::build(proof).unwrap();
    assert_eq!(tree.tree.len(), 2);
    assert_eq!(tree.tree[0].0, Vec::<Vec<u8>>::new());
    assert_eq!(tree.tree[1].0, vec![b"docs".to_vec()]);
    assert_eq!(tree.tree[1].1.tree.len(), 1);
}

#[test]
fn malformed_lower_layer_rejects_the_proof() {
    let proof = Proof {
        root_layer: ProofLayer {
            merk_proof: vec![MerkProofOp::Push(MerkProofNode::Hash(vec![1; 32]))],
            lower_layers: vec![(
                b"docs".to_vec(),
                ProofLayer {
                    merk_proof: vec![MerkProofOp::Parent],
                    lower_layers: vec![],
                },
            )],
        },
    };
    assert_eq!(
        ProofTree::build(proof).unwrap_err(),
        ProofError::StackUnderflow
    );
}

#[test]
fn fetch_plan_follows_matching_shapes() {
    let ops = vec![
        MerkProofOp::Push(MerkProofNode::Hash(vec![1; 32])),
        MerkProofOp::Push(MerkProofNode::Hash(vec![2; 32])),
        MerkProofOp::Parent,
    ];
    let mut sub = ProofSubtree::from_ops(ops).unwrap();

    // No real node attached yet: the walk cannot continue.
    assert_eq!(
        sub.child_fetch_plan(1).unwrap_err(),
        ReconcileError::MissingNodeData
    );

    // A real node claiming a left child matches the proof's shape.
    sub.attach_node_update(1, update(b"root", Some(b"l"), None));
    let plan = sub.child_fetch_plan(1).unwrap();
    let (idx, key) = plan.left.unwrap();
    assert_eq!(idx, 0);
    assert_eq!(key, b"l".to_vec());
    assert!(plan.right.is_none());
}

#[test]
fn shape_mismatch_is_reported() {
    let ops = vec![
        MerkProofOp::Push(MerkProofNode::Hash(vec![1; 32])),
        MerkProofOp::Push(MerkProofNode::Hash(vec![2; 32])),
        MerkProofOp::Parent,
    ];
    let mut sub = ProofSubtree::from_ops(ops).unwrap();

    // The proof has a left child but the real node claims none.
    sub.attach_node_update(1, update(b"root", None, None));
    assert_eq!(
        sub.child_fetch_plan(1).unwrap_err(),
        ReconcileError::ShapeMismatch
    );

    // The real node claims a right child the proof lacks.
    sub.attach_node_update(1, update(b"root", Some(b"l"), Some(b"r")));
    assert_eq!(
        sub.child_fetch_plan(1).unwrap_err(),
        ReconcileError::ShapeMismatch
    );
}

#[test]
fn link_root_requests_follow_subtree_elements() {
    let mut u = update(b"docs", None, None);
    u.element = Element::Subtree {
        root_key: Some(b"inner_root".to_vec()),
        element_flags: None,
    };
    let (key, root) = grovedbg::proof_tree::link_root_request(&u).unwrap();
    assert_eq!(key, b"docs".to_vec());
    assert_eq!(root, b"inner_root".to_vec());

    u.element = Element::Subtree {
        root_key: None,
        element_flags: None,
    };
    assert!(grovedbg::proof_tree::link_root_request(&u).is_none());

    u.element = Element::Item {
        value: b"v".to_vec(),
        element_flags: None,
    };
    assert!(grovedbg::proof_tree::link_root_request(&u).is_none());
}

#[test]
fn proof_tree_data_lists_matched_nodes() {
    let ops = vec![
        MerkProofOp::Push(MerkProofNode::Hash(vec![1; 32])),
        MerkProofOp::Push(MerkProofNode::Hash(vec![2; 32])),
        MerkProofOp::Parent,
    ];
    let mut sub = ProofSubtree::from_ops(ops).unwrap();
    sub.attach_node_update(1, update(b"root", Some(b"l"), None));

    let data = sub.to_proof_tree_data();
    assert_eq!(data.len(), 1);
    assert_eq!(data[0].0, b"root".to_vec());
    assert!(matches!(&data[0].1, MerkProofNode::Hash(h) if h == &vec![2u8; 32]));
}
