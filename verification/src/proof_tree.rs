//! Rebuilding binary Merk proof trees from linear operation logs.
//!
//! A proof arrives as, per subtree, a list of [`MerkProofOp`]s. Replaying
//! the list on a stack either reconstructs one binary tree — the log is
//! well formed exactly when no pop hits an empty stack and exactly one
//! index is left at the end — or the proof is rejected as malformed.
//! [`spec_run_ops`] is the mathematical replay that
//! [`ProofSubtree::from_ops`] is proved against.
//!
//! Once rebuilt, the proof nodes are cross-referenced with the real
//! fetched nodes: [`ProofSubtree::child_fetch_plan`] says which real
//! child nodes must be fetched next for a proof node, or reports that
//! the proof's shape and the fetched data disagree.

use vstd::prelude::*;

use crate::bytes_utils::clone_bytes;
use crate::bytes_utils::clone_path;
use crate::model::Key;
use crate::protocol::Element;
use crate::protocol::MerkProofNode;
use crate::protocol::MerkProofOp;
use crate::protocol::NodeUpdate;
use crate::protocol::Proof;
use crate::protocol::ProofLayer;

verus! {

broadcast use vstd::std_specs::vec::axiom_vec_decreases_to_view;

/// Why a proof was rejected.
#[derive(Debug, Clone, Copy, PartialEq, Eq, Structural)]
pub enum ProofError {
    /// An op needed more items than the stack held.
    StackUnderflow,
    /// After the whole log, the stack did not hold exactly one root.
    StackNotSingleRoot,
}

/// Why cross-referencing a proof node with real data stopped.
#[derive(Debug, Clone, Copy, PartialEq, Eq, Structural)]
pub enum ReconcileError {
    /// The proof node has no fetched node attached yet.
    MissingNodeData,
    /// The proof claims a child where the real node has none, or the
    /// real node claims one the proof lacks.
    ShapeMismatch,
}

/// One node of a rebuilt proof tree: children as indices into the flat
/// vector, the disclosed proof payload, and the matching real node once
/// cross-referenced.
#[derive(Debug)]
pub struct ProofNode {
    pub left: Option<usize>,
    pub right: Option<usize>,
    pub proof_value: MerkProofNode,
    pub node_update: Option<NodeUpdate>,
}

/// The childless, unmatched node a push op allocates.
pub open spec fn fresh_proof_node(v: MerkProofNode) -> ProofNode {
    ProofNode { left: None, right: None, proof_value: v, node_update: None }
}

/// Every child link points into the vector.
pub open spec fn links_ok(tree: Seq<ProofNode>) -> bool {
    forall|i: int|
        0 <= i < tree.len() ==> (match (#[trigger] tree[i]).left {
            Some(c) => (c as int) < tree.len(),
            None => true,
        } && match tree[i].right {
            Some(c) => (c as int) < tree.len(),
            None => true,
        })
}

/// One step of the proof stack machine.
pub open spec fn spec_apply_op(
    tree: Seq<ProofNode>,
    stack: Seq<usize>,
    op: MerkProofOp,
) -> Option<(Seq<ProofNode>, Seq<usize>)> {
    match op {
        MerkProofOp::Push(v) => Some(
            (tree.push(fresh_proof_node(v)), stack.push(tree.len() as usize)),
        ),
        MerkProofOp::PushInverted(v) => Some(
            (tree.push(fresh_proof_node(v)), stack.push(tree.len() as usize)),
        ),
        MerkProofOp::Parent => if stack.len() < 2 {
            None
        } else {
            let parent = stack.last();
            let child = stack[stack.len() - 2];
            Some(
                (
                    tree.update(
                        parent as int,
                        (ProofNode { left: Some(child), ..tree[parent as int] }),
                    ),
                    stack.drop_last().drop_last().push(parent),
                ),
            )
        },
        MerkProofOp::Child => if stack.len() < 2 {
            None
        } else {
            let child = stack.last();
            let parent = stack[stack.len() - 2];
            Some(
                (
                    tree.update(
                        parent as int,
                        (ProofNode { right: Some(child), ..tree[parent as int] }),
                    ),
                    stack.drop_last().drop_last().push(parent),
                ),
            )
        },
        MerkProofOp::ParentInverted => if stack.len() < 2 {
            None
        } else {
            let parent = stack.last();
            let child = stack[stack.len() - 2];
            Some(
                (
                    tree.update(
                        parent as int,
                        (ProofNode { right: Some(child), ..tree[parent as int] }),
                    ),
                    stack.drop_last().drop_last().push(parent),
                ),
            )
        },
        MerkProofOp::ChildInverted => if stack.len() < 2 {
            None
        } else {
            let child = stack.last();
            let parent = stack[stack.len() - 2];
            Some(
                (
                    tree.update(
                        parent as int,
                        (ProofNode { left: Some(child), ..tree[parent as int] }),
                    ),
                    stack.drop_last().drop_last().push(parent),
                ),
            )
        },
    }
}

/// Replays a whole log on an empty stack: `None` exactly when some pop
/// hit an empty stack along the way.
pub open spec fn spec_run_ops(ops: Seq<MerkProofOp>) -> Option<(Seq<ProofNode>, Seq<usize>)>
    decreases ops.len(),
{
    if ops.len() == 0 {
        Some((Seq::empty(), Seq::empty()))
    } else {
        match spec_run_ops(ops.drop_last()) {
            None => None,
            Some((tree, stack)) => spec_apply_op(tree, stack, ops.last()),
        }
    }
}

/// A log whose replay fails on a prefix fails as a whole.
proof fn lemma_run_ops_none_prefix(ops: Seq<MerkProofOp>, k: int)
    requires
        0 <= k <= ops.len(),
        spec_run_ops(ops.take(k)) is None,
    ensures
        spec_run_ops(ops) is None,
    decreases ops.len() - k,
{
    if k < ops.len() {
        assert(ops.take(k + 1).drop_last() =~= ops.take(k));
        assert(spec_run_ops(ops.take(k + 1)) is None);
        lemma_run_ops_none_prefix(ops, k + 1);
    } else {
        assert(ops.take(k) =~= ops);
    }
}

/// One subtree's rebuilt proof tree: a flat node vector and the index
/// of its root.
#[derive(Debug)]
pub struct ProofSubtree {
    pub tree: Vec<ProofNode>,
    pub root: usize,
}

/// Which real child nodes must be fetched to continue cross-referencing
/// one proof node: the proof-side index to attach to, and the key.
#[derive(Debug)]
pub struct FetchPlan {
    pub left: Option<(usize, Key)>,
    pub right: Option<(usize, Key)>,
}

impl ProofSubtree {
    /// Rebuilds a binary proof tree from the linear log.
    ///
    /// Succeeds exactly when the replay never pops an empty stack and
    /// ends with exactly one index — the subtree's proof root — on it.
    #[verifier::loop_isolation(false)]
    pub fn from_ops(ops: Vec<MerkProofOp>) -> (r: Result<ProofSubtree, ProofError>)
        ensures
            match r {
                Ok(s) => {
                    &&& spec_run_ops(ops@) matches Some(ts) && s.tree@ == ts.0 && ts.1 == seq![
                        s.root,
                    ]
                    &&& (s.root as int) < s.tree@.len()
                    &&& links_ok(s.tree@)
                },
                Err(ProofError::StackUnderflow) => spec_run_ops(ops@) is None,
                Err(ProofError::StackNotSingleRoot) => spec_run_ops(ops@) matches Some(ts)
                    && ts.1.len() != 1,
            },
    {
        let ghost all = ops@;
        let mut ops = ops;
        let mut tree: Vec<ProofNode> = Vec::new();
        let mut stack: Vec<usize> = Vec::new();
        let ghost mut k: int = 0;
        proof {
            assert(all.take(0) =~= Seq::<MerkProofOp>::empty());
        }
        while ops.len() > 0
            invariant
                0 <= k <= all.len(),
                ops@ == all.skip(k),
                spec_run_ops(all.take(k)) == Some((tree@, stack@)),
                forall|j: int| 0 <= j < stack@.len() ==> (#[trigger] stack@[j] as int)
                    < tree@.len(),
                links_ok(tree@),
            decreases ops@.len(),
        {
            let op = ops.remove(0);
            proof {
                assert(op == all[k]);
                assert(ops@ =~= all.skip(k + 1));
                assert(all.take(k + 1).drop_last() =~= all.take(k));
                assert(all.take(k + 1).last() == all[k]);
            }
            let ghost tree0 = tree@;
            let ghost stack0 = stack@;
            match op {
                MerkProofOp::Push(v) => {
                    let idx = tree.len();
                    tree.push(
                        ProofNode { left: None, right: None, proof_value: v, node_update: None },
                    );
                    stack.push(idx);
                },
                MerkProofOp::PushInverted(v) => {
                    let idx = tree.len();
                    tree.push(
                        ProofNode { left: None, right: None, proof_value: v, node_update: None },
                    );
                    stack.push(idx);
                },
                MerkProofOp::Parent => {
                    let parent = match stack.pop() {
                        Some(p) => p,
                        None => {
                            proof {
                                assert(spec_apply_op(tree0, stack0, all[k]) is None);
                                assert(spec_run_ops(all.take(k + 1)) is None);
                                lemma_run_ops_none_prefix(all, k + 1);
                            }
                            return Err(ProofError::StackUnderflow);
                        },
                    };
                    let child = match stack.pop() {
                        Some(c) => c,
                        None => {
                            proof {
                                assert(spec_apply_op(tree0, stack0, all[k]) is None);
                                assert(spec_run_ops(all.take(k + 1)) is None);
                                lemma_run_ops_none_prefix(all, k + 1);
                            }
                            return Err(ProofError::StackUnderflow);
                        },
                    };
                    tree[parent].left = Some(child);
                    stack.push(parent);
                },
                MerkProofOp::Child => {
                    let child = match stack.pop() {
                        Some(c) => c,
                        None => {
                            proof {
                                assert(spec_apply_op(tree0, stack0, all[k]) is None);
                                assert(spec_run_ops(all.take(k + 1)) is None);
                                lemma_run_ops_none_prefix(all, k + 1);
                            }
                            return Err(ProofError::StackUnderflow);
                        },
                    };
                    let parent = match stack.pop() {
                        Some(p) => p,
                        None => {
                            proof {
                                assert(spec_apply_op(tree0, stack0, all[k]) is None);
                                assert(spec_run_ops(all.take(k + 1)) is None);
                                lemma_run_ops_none_prefix(all, k + 1);
                            }
                            return Err(ProofError::StackUnderflow);
                        },
                    };
                    tree[parent].right = Some(child);
                    stack.push(parent);
                },
                MerkProofOp::ParentInverted => {
                    let parent = match stack.pop() {
                        Some(p) => p,
                        None => {
                            proof {
                                assert(spec_apply_op(tree0, stack0, all[k]) is None);
                                assert(spec_run_ops(all.take(k + 1)) is None);
                                lemma_run_ops_none_prefix(all, k + 1);
                            }
                            return Err(ProofError::StackUnderflow);
                        },
                    };
                    let child = match stack.pop() {
                        Some(c) => c,
                        None => {
                            proof {
                                assert(spec_apply_op(tree0, stack0, all[k]) is None);
                                assert(spec_run_ops(all.take(k + 1)) is None);
                                lemma_run_ops_none_prefix(all, k + 1);
                            }
                            return Err(ProofError::StackUnderflow);
                        },
                    };
                    tree[parent].right = Some(child);
                    stack.push(parent);
                },
                MerkProofOp::ChildInverted => {
                    let child = match stack.pop() {
                        Some(c) => c,
                        None => {
                            proof {
                                assert(spec_apply_op(tree0, stack0, all[k]) is None);
                                assert(spec_run_ops(all.take(k + 1)) is None);
                                lemma_run_ops_none_prefix(all, k + 1);
                            }
                            return Err(ProofError::StackUnderflow);
                        },
                    };
                    let parent = match stack.pop() {
                        Some(p) => p,
                        None => {
                            proof {
                                assert(spec_apply_op(tree0, stack0, all[k]) is None);
                                assert(spec_run_ops(all.take(k + 1)) is None);
                                lemma_run_ops_none_prefix(all, k + 1);
                            }
                            return Err(ProofError::StackUnderflow);
                        },
                    };
                    tree[parent].left = Some(child);
                    stack.push(parent);
                },
            }
            proof {
                assert(spec_run_ops(all.take(k + 1)) == Some((tree@, stack@))) by {
                    assert(spec_apply_op(tree0, stack0, all[k]) == Some((tree@, stack@)));
                }
                k = k + 1;
            }
        }
        proof {
            assert(all.take(k) =~= all);
        }
        if stack.len() == 1 {
            let root = stack[0];
            proof {
                assert(stack@ =~= seq![root]);
            }
            Ok(ProofSubtree { tree, root })
        } else {
            Err(ProofError::StackNotSingleRoot)
        }
    }

    /// Attaches the fetched real node for the proof node at `idx`.
    pub fn attach_node_update(&mut self, idx: usize, update: NodeUpdate)
        requires
            idx < old(self).tree@.len(),
        ensures
            final(self).tree@ == old(self).tree@.update(
                idx as int,
                (ProofNode { node_update: Some(update), ..old(self).tree@[idx as int] }),
            ),
            final(self).root == old(self).root,
    {
        self.tree[idx].node_update = Some(update);
    }

    /// Which real child nodes must be fetched for the proof node at
    /// `idx`, or why the walk of this branch stops: the real node has
    /// not been attached yet, or the proof's shape and the real node's
    /// children disagree.
    pub fn child_fetch_plan(&self, idx: usize) -> (r: Result<FetchPlan, ReconcileError>)
        requires
            idx < self.tree@.len(),
        ensures
            match r {
                Ok(plan) => {
                    &&& self.tree@[idx as int].node_update matches Some(u)
                    &&& match (self.tree@[idx as int].left, u.left_child) {
                        (Some(l), Some(k)) => plan.left matches Some(p) && p.0 == l && p.1@ == k@,
                        (None, None) => plan.left is None,
                        _ => false,
                    }
                    &&& match (self.tree@[idx as int].right, u.right_child) {
                        (Some(l), Some(k)) => plan.right matches Some(p) && p.0 == l && p.1@ == k@,
                        (None, None) => plan.right is None,
                        _ => false,
                    }
                },
                Err(ReconcileError::MissingNodeData) => self.tree@[idx as int].node_update is None,
                Err(ReconcileError::ShapeMismatch) => {
                    &&& self.tree@[idx as int].node_update matches Some(u)
                    &&& ((self.tree@[idx as int].left is Some) != (u.left_child is Some) || (
                    self.tree@[idx as int].right is Some) != (u.right_child is Some))
                },
            },
    {
        let node = &self.tree[idx];
        let update = match &node.node_update {
            Some(u) => u,
            None => {
                return Err(ReconcileError::MissingNodeData);
            },
        };
        let left = match (node.left, &update.left_child) {
            (Some(l), Some(k)) => Some((l, clone_bytes(k))),
            (None, None) => None,
            _ => {
                return Err(ReconcileError::ShapeMismatch);
            },
        };
        let right = match (node.right, &update.right_child) {
            (Some(l), Some(k)) => Some((l, clone_bytes(k))),
            (None, None) => None,
            _ => {
                return Err(ReconcileError::ShapeMismatch);
            },
        };
        Ok(FetchPlan { left, right })
    }

    /// The per-key proof payloads of every cross-referenced node, for
    /// display next to the real tree.
    pub fn to_proof_tree_data(self) -> (r: Vec<(Key, MerkProofNode)>)
        ensures
            r@ == spec_proof_tree_data(self.tree@),
    {
        let mut tree = self.tree;
        let ghost all = tree@;
        let mut r: Vec<(Key, MerkProofNode)> = Vec::new();
        let ghost mut k: int = 0;
        proof {
            assert(all.take(0) =~= Seq::<ProofNode>::empty());
            assert(r@ =~= spec_proof_tree_data(all.take(0)));
        }
        while tree.len() > 0
            invariant
                0 <= k <= all.len(),
                tree@ == all.skip(k),
                r@ == spec_proof_tree_data(all.take(k)),
            decreases tree@.len(),
        {
            let node = tree.remove(0);
            proof {
                assert(node == all[k]);
                assert(tree@ =~= all.skip(k + 1));
                assert(all.take(k + 1).drop_last() =~= all.take(k));
                assert(all.take(k + 1).last() == all[k]);
            }
            match node.node_update {
                Some(u) => {
                    r.push((u.key, node.proof_value));
                },
                None => {},
            }
            proof {
                k = k + 1;
            }
        }
        proof {
            assert(all.take(k) =~= all);
        }
        r
    }
}

/// The lower-subtree fetch a real node calls for: when a fetched node
/// links to a nested subtree whose root key is known, that subtree's
/// root node must be fetched at the address extended by the node's key.
/// Returns the linking key and the root key to ask for.
pub fn link_root_request(update: &NodeUpdate) -> (r: Option<(Key, Key)>)
    ensures
        match r {
            Some(p) => {
                &&& p.0@ == update.key@
                &&& match update.element {
                    Element::Subtree { root_key, .. } => root_key matches Some(rk) && p.1@ == rk@,
                    Element::Sumtree { root_key, .. } => root_key matches Some(rk) && p.1@ == rk@,
                    _ => false,
                }
            },
            None => match update.element {
                Element::Subtree { root_key, .. } => root_key is None,
                Element::Sumtree { root_key, .. } => root_key is None,
                _ => true,
            },
        },
{
    match &update.element {
        Element::Subtree { root_key: Some(rk), .. } => Some(
            (clone_bytes(&update.key), clone_bytes(rk)),
        ),
        Element::Sumtree { root_key: Some(rk), .. } => Some(
            (clone_bytes(&update.key), clone_bytes(rk)),
        ),
        _ => None,
    }
}

/// The key-payload pairs of the nodes whose real data arrived.
pub open spec fn spec_proof_tree_data(tree: Seq<ProofNode>) -> Seq<(Key, MerkProofNode)>
    decreases tree.len(),
{
    if tree.len() == 0 {
        Seq::empty()
    } else {
        let rest = spec_proof_tree_data(tree.drop_last());
        match tree.last().node_update {
            Some(u) => rest.push((u.key, tree.last().proof_value)),
            None => rest,
        }
    }
}

/// What one rebuilt subtree looks like mathematically: its address, its
/// node vector, and its root index.
pub open spec fn entry_matches(
    e: (Vec<Vec<u8>>, ProofSubtree),
    v: (Seq<Seq<u8>>, Seq<ProofNode>, usize),
) -> bool {
    &&& e.0.deep_view() == v.0
    &&& e.1.tree@ == v.1
    &&& e.1.root == v.2
}

/// Rebuilding all layers of a proof, depth first: each layer's log must
/// replay to a single root, and lower layers live at the parent's
/// address extended by their linking key. `None` when any layer's log
/// is malformed.
pub open spec fn spec_build_layers(path: Seq<Seq<u8>>, layer: ProofLayer) -> Option<
    Seq<(Seq<Seq<u8>>, Seq<ProofNode>, usize)>,
>
    decreases layer,
{
    match spec_run_ops(layer.merk_proof@) {
        None => None,
        Some(ts) => {
            if ts.1.len() != 1 {
                None
            } else {
                match spec_build_lower(path, layer.lower_layers@) {
                    None => None,
                    Some(rest) => Some(seq![(path, ts.0, ts.1[0])] + rest),
                }
            }
        },
    }
}

/// Rebuilding a run of lower layers, in order.
pub open spec fn spec_build_lower(
    path: Seq<Seq<u8>>,
    children: Seq<(Key, ProofLayer)>,
) -> Option<Seq<(Seq<Seq<u8>>, Seq<ProofNode>, usize)>>
    decreases children,
{
    if children.len() == 0 {
        Some(Seq::empty())
    } else {
        match spec_build_layers(path.push(children[0].0@), children[0].1) {
            None => None,
            Some(head) => match spec_build_lower(path, children.drop_first()) {
                None => None,
                Some(rest) => Some(head + rest),
            },
        }
    }
}

/// Rebuilds the proof subtree of one layer and, below it, of every
/// lower layer, each at its full address.
#[verifier::loop_isolation(false)]
fn build_layers(path: Vec<Vec<u8>>, layer: ProofLayer) -> (r: Result<
    Vec<(Vec<Vec<u8>>, ProofSubtree)>,
    ProofError,
>)
    ensures
        match r {
            Ok(v) => spec_build_layers(path.deep_view(), layer) matches Some(entries)
                && v@.len() == entries.len() && forall|j: int|
                0 <= j < entries.len() ==> entry_matches(#[trigger] v@[j], entries[j]),
            Err(_) => spec_build_layers(path.deep_view(), layer) is None,
        },
    decreases layer,
{
    let ghost layer0 = layer;
    let ghost pd = path.deep_view();
    let ProofLayer { merk_proof, lower_layers } = layer;
    let mut lower_layers = lower_layers;
    let sub = match ProofSubtree::from_ops(merk_proof) {
        Ok(s) => s,
        Err(e) => {
            return Err(e);
        },
    };
    let mut out: Vec<(Vec<Vec<u8>>, ProofSubtree)> = Vec::new();
    let cloned = clone_path(&path);
    out.push((cloned, sub));
    let ghost children0 = layer0.lower_layers@;
    let ghost mut i: int = 0;
    let ghost mut done: Seq<(Seq<Seq<u8>>, Seq<ProofNode>, usize)> = Seq::empty();
    proof {
        assert(children0.skip(0) =~= children0);
    }
    while lower_layers.len() > 0
        invariant
            0 <= i <= children0.len(),
            lower_layers@ == children0.skip(i),
            match spec_build_lower(pd, children0.skip(i)) {
                None => spec_build_lower(pd, children0) is None,
                Some(rest) => spec_build_lower(pd, children0) == Some(done + rest),
            },
            out@.len() == 1 + done.len(),
            out@[0].0.deep_view() == pd,
            spec_run_ops(layer0.merk_proof@) matches Some(ts) && out@[0].1.tree@ == ts.0 && ts.1
                == seq![out@[0].1.root],
            forall|j: int| 0 <= j < done.len() ==> entry_matches(#[trigger] out@[1 + j], done[j]),
        decreases lower_layers@.len(),
    {
        let kl = lower_layers.remove(0);
        proof {
            assert(kl == children0[i]);
            assert(lower_layers@ =~= children0.skip(i + 1));
        }
        let k = kl.0;
        let l = kl.1;
        let mut child_path = clone_path(&path);
        child_path.push(k);
        proof {
            assert(child_path.deep_view() =~~= pd.push(children0[i].0@));
            assert(decreases_to!(layer0 => layer0.lower_layers));
            assert(decreases_to!(layer0.lower_layers => layer0.lower_layers@));
            assert(decreases_to!(layer0.lower_layers@ => layer0.lower_layers@[i]));
            assert(decreases_to!(layer0.lower_layers@[i] => layer0.lower_layers@[i].1));
        }
        let mut child_out = match build_layers(child_path, l) {
            Ok(v) => v,
            Err(e) => {
                proof {
                    assert(spec_build_lower(pd, children0.skip(i)) is None) by {
                        assert(children0.skip(i)[0] == children0[i]);
                    }
                }
                return Err(e);
            },
        };
        let ghost entries_c = spec_build_layers(pd.push(children0[i].0@), children0[i].1).unwrap();
        let ghost out_pre = out@;
        let ghost child_vec = child_out@;
        let ghost done_pre = done;
        out.append(&mut child_out);
        proof {
            assert(children0.skip(i)[0] == children0[i]);
            assert(children0.skip(i).drop_first() =~= children0.skip(i + 1));
            assert(spec_build_lower(pd, children0.skip(i)) == match spec_build_lower(
                pd,
                children0.skip(i + 1),
            ) {
                None => None::<Seq<(Seq<Seq<u8>>, Seq<ProofNode>, usize)>>,
                Some(rest) => Some(entries_c + rest),
            });
            done = done + entries_c;
            i = i + 1;
            assert forall|j: int| 0 <= j < done.len() implies entry_matches(
                #[trigger] out@[1 + j],
                done[j],
            ) by {
                if j < done_pre.len() {
                    assert(out@[1 + j] == out_pre[1 + j]);
                    assert(done[j] == done_pre[j]);
                } else {
                    assert(out@[1 + j] == child_vec[j - done_pre.len()]);
                    assert(done[j] == entries_c[j - done_pre.len()]);
                }
            }
        }
    }
    proof {
        assert(children0.skip(i) =~= Seq::<(Key, ProofLayer)>::empty());
        assert(spec_build_lower(pd, children0) == Some(done));
        let ts = spec_run_ops(layer0.merk_proof@).unwrap();
        let entries = seq![(pd, ts.0, ts.1[0])] + done;
        assert(spec_build_layers(pd, layer0) == Some(entries));
        assert(entry_matches(out@[0], entries[0]));
        assert forall|j: int| 0 <= j < entries.len() implies entry_matches(
            #[trigger] out@[j],
            entries[j],
        ) by {
            if j > 0 {
                assert(out@[j] == out@[1 + (j - 1)]);
                assert(entries[j] == done[j - 1]);
            }
        }
    }
    Ok(out)
}

/// All rebuilt proof subtrees of one proof response, keyed by their
/// full byte-sequence address; the root subtree's entry comes first.
#[derive(Debug)]
pub struct ProofTree {
    pub tree: Vec<(Vec<Vec<u8>>, ProofSubtree)>,
}

impl ProofTree {
    /// Rebuilds every layer of a proof response, or rejects the whole
    /// response when any layer's log is malformed: a proof that does
    /// not reduce to a single root per subtree cannot be trusted.
    pub fn build(proof: Proof) -> (r: Result<ProofTree, ProofError>)
        ensures
            match r {
                Ok(t) => spec_build_layers(Seq::empty(), proof.root_layer) matches Some(entries)
                    && t.tree@.len() == entries.len() && forall|j: int|
                    0 <= j < entries.len() ==> entry_matches(#[trigger] t.tree@[j], entries[j]),
                Err(_) => spec_build_layers(Seq::empty(), proof.root_layer) is None,
            },
    {
        let root_path: Vec<Vec<u8>> = Vec::new();
        proof {
            assert(root_path.deep_view() =~~= Seq::<Seq<u8>>::empty());
        }
        match build_layers(root_path, proof.root_layer) {
            Ok(v) => Ok(ProofTree { tree: v }),
            Err(e) => Err(e),
        }
    }
}

} // verus!
