//! The incremental tree model: subtrees of fetched nodes, reconciled
//! under out-of-order arrival.
//!
//! Node updates can reach the session in any order: a child before its
//! parent, a parent long after its children, the same key many times.
//! Each [`Subtree`] therefore keeps, next to its `nodes`, two bookkeeping
//! sets: `cluster_roots`, the keys of nodes that are known but not yet
//! connected upward, and `waitlist`, the keys claimed as children by
//! known nodes but not yet fetched. [`Subtree::insert`] and
//! [`Subtree::remove`] restore the bookkeeping after every mutation, and
//! the proof functions at the end of this module show that the two sets
//! stay disjoint, that the waitlist never holds fetched keys, that
//! inserting is idempotent, and that remove-then-reinsert round-trips.

use vstd::prelude::*;

use crate::bytes_utils::bytes_eq;
use crate::bytes_utils::clone_bytes;
use crate::path_ctx::Path;
use crate::path_ctx::PathCtx;

verus! {

/// A node key inside one subtree: raw bytes.
pub type Key = Vec<u8>;

/// How a node participates in its Merk tree: plain, or carrying a sum.
#[derive(Debug, Clone, Copy, PartialEq, Eq, Structural)]
pub enum TreeFeatureType {
    BasicMerkNode,
    SummedMerkNode(i64),
}

/// The value a subtree node holds.
#[derive(Debug, Clone)]
pub enum Element {
    /// Scalar value, arbitrary bytes.
    Item { value: Vec<u8>, element_flags: Option<Vec<u8>> },
    /// Scalar that is summed by an enclosing sum tree.
    SumItem { value: i64, element_flags: Option<Vec<u8>> },
    /// Reference to a node of another (or the same) subtree.
    Reference { path: Path, key: Key, element_flags: Option<Vec<u8>> },
    /// Link to a deeper subtree that accumulates a sum; `None` root key
    /// means the subtree is empty.
    Sumtree { root_key: Option<Key>, sum: i64, element_flags: Option<Vec<u8>> },
    /// Link to a deeper subtree; `None` root key means it is empty.
    Subtree { root_key: Option<Key>, element_flags: Option<Vec<u8>> },
    /// A stub recorded when an address mentions a subtree whose own node
    /// has not been fetched yet.
    SubtreePlaceholder,
}

/// Mathematical shape of an [`Element`], with byte strings as sequences.
pub enum ElementView {
    Item { value: Seq<u8>, element_flags: Option<Seq<u8>> },
    SumItem { value: int, element_flags: Option<Seq<u8>> },
    Reference { path: Path, key: Seq<u8>, element_flags: Option<Seq<u8>> },
    Sumtree { root_key: Option<Seq<u8>>, sum: int, element_flags: Option<Seq<u8>> },
    Subtree { root_key: Option<Seq<u8>>, element_flags: Option<Seq<u8>> },
    SubtreePlaceholder,
}

/// View of an optional byte string.
pub open spec fn opt_bytes_view(b: Option<Vec<u8>>) -> Option<Seq<u8>> {
    match b {
        Some(v) => Some(v@),
        None => None,
    }
}

impl View for Element {
    type V = ElementView;

    open spec fn view(&self) -> ElementView {
        match self {
            Element::Item { value, element_flags } => ElementView::Item {
                value: value@,
                element_flags: opt_bytes_view(*element_flags),
            },
            Element::SumItem { value, element_flags } => ElementView::SumItem {
                value: *value as int,
                element_flags: opt_bytes_view(*element_flags),
            },
            Element::Reference { path, key, element_flags } => ElementView::Reference {
                path: *path,
                key: key@,
                element_flags: opt_bytes_view(*element_flags),
            },
            Element::Sumtree { root_key, sum, element_flags } => ElementView::Sumtree {
                root_key: opt_bytes_view(*root_key),
                sum: *sum as int,
                element_flags: opt_bytes_view(*element_flags),
            },
            Element::Subtree { root_key, element_flags } => ElementView::Subtree {
                root_key: opt_bytes_view(*root_key),
                element_flags: opt_bytes_view(*element_flags),
            },
            Element::SubtreePlaceholder => ElementView::SubtreePlaceholder,
        }
    }
}

impl Element {
    /// Whether this element links to (or stands for) a nested subtree.
    pub open spec fn spec_is_subtree_kind(&self) -> bool {
        self@ matches ElementView::Sumtree { .. } || self@ matches ElementView::Subtree { .. }
            || self@ matches ElementView::SubtreePlaceholder
    }

    /// Whether this element links to (or stands for) a nested subtree.
    pub fn is_subtree_kind(&self) -> (r: bool)
        ensures
            r == self.spec_is_subtree_kind(),
    {
        match self {
            Element::Sumtree { .. } | Element::Subtree { .. } | Element::SubtreePlaceholder => true,
            _ => false,
        }
    }
}

/// One fetched entry of a subtree: its element, the keys it claims as
/// children, and its digests as they came over the wire.
#[derive(Debug, Clone)]
pub struct Node {
    pub element: Element,
    pub left_child: Option<Key>,
    pub right_child: Option<Key>,
    pub feature_type: Option<TreeFeatureType>,
    pub value_hash: Option<Vec<u8>>,
    pub kv_digest_hash: Option<Vec<u8>>,
}

/// Mathematical shape of a [`Node`].
pub struct NodeView {
    pub element: ElementView,
    pub left_child: Option<Seq<u8>>,
    pub right_child: Option<Seq<u8>>,
    pub feature_type: Option<TreeFeatureType>,
    pub value_hash: Option<Seq<u8>>,
    pub kv_digest_hash: Option<Seq<u8>>,
}

impl View for Node {
    type V = NodeView;

    open spec fn view(&self) -> NodeView {
        NodeView {
            element: self.element@,
            left_child: opt_bytes_view(self.left_child),
            right_child: opt_bytes_view(self.right_child),
            feature_type: self.feature_type,
            value_hash: opt_bytes_view(self.value_hash),
            kv_digest_hash: opt_bytes_view(self.kv_digest_hash),
        }
    }
}

impl Node {
    /// A node with no children and no hashes around the given element.
    pub fn new(element: Element) -> (r: Node)
        ensures
            r@.element == element@,
            r@.left_child is None,
            r@.right_child is None,
            r@.feature_type is None,
            r@.value_hash is None,
            r@.kv_digest_hash is None,
    {
        Node {
            element,
            left_child: None,
            right_child: None,
            feature_type: None,
            value_hash: None,
            kv_digest_hash: None,
        }
    }

    /// A plain item node holding `value`.
    pub fn new_item(value: Vec<u8>) -> (r: Node)
        ensures
            r@ == (NodeView {
                element: ElementView::Item { value: value@, element_flags: None },
                left_child: None,
                right_child: None,
                feature_type: None,
                value_hash: None,
                kv_digest_hash: None,
            }),
    {
        Node::new(Element::Item { value, element_flags: None })
    }

    /// A sum-tree link node.
    pub fn new_sumtree(root_key: Option<Key>, sum: i64) -> (r: Node)
        ensures
            r@.element == (ElementView::Sumtree {
                root_key: opt_bytes_view(root_key),
                sum: sum as int,
                element_flags: None,
            }),
            r@.left_child is None && r@.right_child is None,
    {
        Node::new(Element::Sumtree { root_key, sum, element_flags: None })
    }

    /// A subtree link node.
    pub fn new_subtree(root_key: Option<Key>) -> (r: Node)
        ensures
            r@.element == (ElementView::Subtree {
                root_key: opt_bytes_view(root_key),
                element_flags: None,
            }),
            r@.left_child is None && r@.right_child is None,
    {
        Node::new(Element::Subtree { root_key, element_flags: None })
    }

    /// The stub recorded for a subtree that is known only by address.
    pub fn new_subtree_placeholder() -> (r: Node)
        ensures
            r@ == placeholder_node_view(),
    {
        Node::new(Element::SubtreePlaceholder)
    }

    /// The same node claiming `key` as its left child.
    pub fn with_left_child(self, key: Key) -> (r: Node)
        ensures
            r@ == (NodeView { left_child: Some(key@), ..self@ }),
    {
        Node { left_child: Some(key), ..self }
    }

    /// The same node claiming `key` as its right child.
    pub fn with_right_child(self, key: Key) -> (r: Node)
        ensures
            r@ == (NodeView { right_child: Some(key@), ..self@ }),
    {
        Node { right_child: Some(key), ..self }
    }
}

/// The view of the placeholder stub node.
pub open spec fn placeholder_node_view() -> NodeView {
    NodeView {
        element: ElementView::SubtreePlaceholder,
        left_child: None,
        right_child: None,
        feature_type: None,
        value_hash: None,
        kv_digest_hash: None,
    }
}

/// The set of byte strings a vector of keys stands for.
pub open spec fn key_set(s: Seq<Vec<u8>>) -> Set<Seq<u8>> {
    Set::new(|k: Seq<u8>| exists|i: int| 0 <= i < s.len() && s[i]@ == k)
}

/// No two entries hold the same byte string.
pub open spec fn keys_unique(s: Seq<Vec<u8>>) -> bool {
    forall|i: int, j: int| 0 <= i < j < s.len() ==> s[i]@ != s[j]@
}

/// A duplicate-free key vector has exactly as many distinct byte
/// strings as entries.
proof fn lemma_key_set_len(s: Seq<Vec<u8>>)
    requires
        keys_unique(s),
    ensures
        key_set(s).finite(),
        key_set(s).len() == s.len(),
    decreases s.len(),
{
    if s.len() == 0 {
        assert(key_set(s) =~= Set::<Seq<u8>>::empty());
    } else {
        let prefix = s.drop_last();
        lemma_key_set_len(prefix);
        assert(key_set(s) =~= key_set(prefix).insert(s.last()@)) by {
            assert forall|k: Seq<u8>| #[trigger]
                key_set(s).contains(k) implies key_set(prefix).insert(s.last()@).contains(k) by {
                let i = choose|i: int| 0 <= i < s.len() && s[i]@ == k;
                if i < prefix.len() {
                    assert(prefix[i]@ == k);
                }
            }
            assert forall|k: Seq<u8>| #[trigger]
                key_set(prefix).insert(s.last()@).contains(k) implies key_set(s).contains(k) by {
                if k == s.last()@ {
                    assert(s[s.len() - 1]@ == k);
                } else {
                    let i = choose|i: int| 0 <= i < prefix.len() && prefix[i]@ == k;
                    assert(s[i]@ == k);
                }
            }
        }
        assert(!key_set(prefix).contains(s.last()@)) by {
            if key_set(prefix).contains(s.last()@) {
                let i = choose|i: int| 0 <= i < prefix.len() && prefix[i]@ == s.last()@;
                assert(s[i]@ == s[s.len() - 1]@);
            }
        }
    }
}

/// The key-to-node map a vector of entries stands for.
pub open spec fn nodes_map(s: Seq<(Key, Node)>) -> Map<Seq<u8>, NodeView> {
    Map::new(
        |k: Seq<u8>| exists|i: int| 0 <= i < s.len() && s[i].0@ == k,
        |k: Seq<u8>|
            {
                let i = choose|i: int| 0 <= i < s.len() && s[i].0@ == k;
                s[i].1@
            },
    )
}

/// No two entries hold the same key.
pub open spec fn entry_keys_unique(s: Seq<(Key, Node)>) -> bool {
    forall|i: int, j: int| 0 <= i < j < s.len() ==> s[i].0@ != s[j].0@
}

/// A duplicate-free entry vector has exactly as many keys as entries.
proof fn lemma_nodes_map_len(s: Seq<(Key, Node)>)
    requires
        entry_keys_unique(s),
    ensures
        nodes_map(s).dom().finite(),
        nodes_map(s).dom().len() == s.len(),
    decreases s.len(),
{
    if s.len() == 0 {
        assert(nodes_map(s).dom() =~= Set::<Seq<u8>>::empty());
    } else {
        let prefix = s.drop_last();
        lemma_nodes_map_len(prefix);
        assert(nodes_map(s).dom() =~= nodes_map(prefix).dom().insert(s.last().0@)) by {
            assert forall|k: Seq<u8>| #[trigger]
                nodes_map(s).dom().contains(k) implies nodes_map(prefix).dom().insert(
                s.last().0@,
            ).contains(k) by {
                let i = choose|i: int| 0 <= i < s.len() && s[i].0@ == k;
                if i < prefix.len() {
                    assert(prefix[i].0@ == k);
                }
            }
            assert forall|k: Seq<u8>| #[trigger]
                nodes_map(prefix).dom().insert(s.last().0@).contains(k) implies nodes_map(
                s,
            ).dom().contains(k) by {
                if k == s.last().0@ {
                    assert(s[s.len() - 1].0@ == k);
                } else {
                    let i = choose|i: int| 0 <= i < prefix.len() && prefix[i].0@ == k;
                    assert(s[i].0@ == k);
                }
            }
        }
        assert(!nodes_map(prefix).dom().contains(s.last().0@)) by {
            if nodes_map(prefix).dom().contains(s.last().0@) {
                let i = choose|i: int| 0 <= i < prefix.len() && prefix[i].0@ == s.last().0@;
                assert(s[i].0@ == s[s.len() - 1].0@);
            }
        }
    }
}

/// Byte-string equality between a slice and an owned key, elementwise.
pub fn slice_key_eq(a: &[u8], b: &Vec<u8>) -> (r: bool)
    ensures
        r == (a@ == b@),
{
    if a.len() != b.len() {
        proof {
            assert(a@ != b@);
        }
        return false;
    }
    let n = a.len();
    let mut i: usize = 0;
    while i < n
        invariant
            n == a@.len(),
            n == b@.len(),
            i <= n,
            forall|j: int| 0 <= j < i ==> a@[j] == b@[j],
        decreases n - i,
    {
        if a[i] != b[i] {
            proof {
                assert(a@[i as int] != b@[i as int]);
            }
            return false;
        }
        i += 1;
    }
    proof {
        assert(a@ =~= b@);
    }
    true
}

/// Index of the entry holding `key`, if one does.
fn find_key_idx(s: &Vec<Vec<u8>>, key: &[u8]) -> (r: Option<usize>)
    ensures
        match r {
            Some(i) => i < s@.len() && s@[i as int]@ == key@,
            None => !key_set(s@).contains(key@),
        },
{
    let n = s.len();
    let mut i: usize = 0;
    while i < n
        invariant
            n == s@.len(),
            i <= n,
            forall|j: int| 0 <= j < i ==> s@[j]@ != key@,
        decreases n - i,
    {
        if slice_key_eq(key, &s[i]) {
            return Some(i);
        }
        i += 1;
    }
    proof {
        assert(forall|j: int| 0 <= j < s@.len() ==> s@[j]@ != key@);
    }
    None
}

/// Whether the vector-as-set holds `key`.
fn key_vec_contains(s: &Vec<Vec<u8>>, key: &[u8]) -> (r: bool)
    ensures
        r == key_set(s@).contains(key@),
{
    match find_key_idx(s, key) {
        Some(i) => {
            proof {
                assert(key_set(s@).contains(key@)) by {
                    assert(s@[i as int]@ == key@);
                }
            }
            true
        },
        None => false,
    }
}

/// Adds `key` to the vector-as-set.
fn key_vec_insert(s: &mut Vec<Vec<u8>>, key: Vec<u8>)
    requires
        keys_unique(old(s)@),
    ensures
        keys_unique(final(s)@),
        key_set(final(s)@) == key_set(old(s)@).insert(key@),
{
    let ghost pre = s@;
    if !key_vec_contains(s, key.as_slice()) {
        s.push(key);
        proof {
            assert(key_set(s@) =~= key_set(pre).insert(key@)) by {
                assert forall|k: Seq<u8>| #[trigger]
                    key_set(s@).contains(k) implies key_set(pre).insert(key@).contains(k) by {
                    let i = choose|i: int| 0 <= i < s@.len() && s@[i]@ == k;
                    if i < pre.len() {
                        assert(pre[i]@ == k);
                    }
                }
                assert forall|k: Seq<u8>| #[trigger]
                    key_set(pre).insert(key@).contains(k) implies key_set(s@).contains(k) by {
                    if k == key@ {
                        assert(s@[s@.len() - 1]@ == k);
                    } else {
                        let i = choose|i: int| 0 <= i < pre.len() && pre[i]@ == k;
                        assert(s@[i]@ == k);
                    }
                }
            }
        }
    } else {
        proof {
            assert(key_set(s@) =~= key_set(pre).insert(key@));
        }
    }
}

/// Drops `key` from the vector-as-set; reports whether it was there.
fn key_vec_remove(s: &mut Vec<Vec<u8>>, key: &[u8]) -> (r: bool)
    requires
        keys_unique(old(s)@),
    ensures
        keys_unique(final(s)@),
        r == key_set(old(s)@).contains(key@),
        key_set(final(s)@) == key_set(old(s)@).remove(key@),
{
    let ghost pre = s@;
    match find_key_idx(s, key) {
        None => {
            proof {
                assert(key_set(s@) =~= key_set(pre).remove(key@));
            }
            false
        },
        Some(i) => {
            s.remove(i);
            proof {
                assert(pre[i as int]@ == key@);
                assert(key_set(pre).contains(key@));
                assert(keys_unique(s@)) by {
                    assert forall|a: int, b: int| 0 <= a < b < s@.len() implies s@[a]@ != s@[b]@ by {
                        let a0 = if a < i { a } else { a + 1 };
                        let b0 = if b < i { b } else { b + 1 };
                        assert(s@[a] == pre[a0]);
                        assert(s@[b] == pre[b0]);
                    }
                }
                assert(key_set(s@) =~= key_set(pre).remove(key@)) by {
                    assert forall|k: Seq<u8>| #[trigger]
                        key_set(s@).contains(k) implies key_set(pre).remove(key@).contains(k) by {
                        let j = choose|j: int| 0 <= j < s@.len() && s@[j]@ == k;
                        let j0 = if j < i { j } else { j + 1 };
                        assert(s@[j] == pre[j0]);
                        assert(pre[j0]@ == k);
                        assert(j0 != i);
                        assert(k != key@);
                    }
                    assert forall|k: Seq<u8>| #[trigger]
                        key_set(pre).remove(key@).contains(k) implies key_set(s@).contains(k) by {
                        let j0 = choose|j0: int| 0 <= j0 < pre.len() && pre[j0]@ == k;
                        assert(j0 != i);
                        let j = if j0 < i { j0 } else { j0 - 1 };
                        assert(s@[j] == pre[j0]);
                    }
                }
            }
            true
        },
    }
}

/// Any entry index is a faithful witness for the map the vector stands
/// for, as long as keys are unique.
proof fn lemma_nodes_map_at(s: Seq<(Key, Node)>, i: int)
    requires
        entry_keys_unique(s),
        0 <= i < s.len(),
    ensures
        nodes_map(s).dom().contains(s[i].0@),
        nodes_map(s)[s[i].0@] == s[i].1@,
{
    let k = s[i].0@;
    assert(exists|j: int| 0 <= j < s.len() && s[j].0@ == k) by {
        assert(s[i].0@ == k);
    }
    let j = choose|j: int| 0 <= j < s.len() && s[j].0@ == k;
    assert(j == i);
}

/// Index of the entry holding `key` in a node vector, if one does.
fn find_node_idx(s: &Vec<(Key, Node)>, key: &[u8]) -> (r: Option<usize>)
    ensures
        match r {
            Some(i) => i < s@.len() && s@[i as int].0@ == key@,
            None => !nodes_map(s@).dom().contains(key@),
        },
{
    let n = s.len();
    let mut i: usize = 0;
    while i < n
        invariant
            n == s@.len(),
            i <= n,
            forall|j: int| 0 <= j < i ==> s@[j].0@ != key@,
        decreases n - i,
    {
        if slice_key_eq(key, &s[i].0) {
            return Some(i);
        }
        i += 1;
    }
    proof {
        assert(forall|j: int| 0 <= j < s@.len() ==> s@[j].0@ != key@);
    }
    None
}

/// Removing the entry at `i` removes exactly its key from the map.
proof fn lemma_nodes_map_remove(pre: Seq<(Key, Node)>, i: int)
    requires
        entry_keys_unique(pre),
        0 <= i < pre.len(),
    ensures
        entry_keys_unique(pre.remove(i)),
        nodes_map(pre.remove(i)) == nodes_map(pre).remove(pre[i].0@),
{
    let post = pre.remove(i);
    let key = pre[i].0@;
    assert(entry_keys_unique(post)) by {
        assert forall|a: int, b: int| 0 <= a < b < post.len() implies post[a].0@ != post[b].0@ by {
            let a0 = if a < i {
                a
            } else {
                a + 1
            };
            let b0 = if b < i {
                b
            } else {
                b + 1
            };
            assert(post[a] == pre[a0]);
            assert(post[b] == pre[b0]);
        }
    }
    assert(nodes_map(post) =~= nodes_map(pre).remove(key)) by {
        assert forall|k: Seq<u8>| #[trigger]
            nodes_map(post).dom().contains(k) implies nodes_map(pre).remove(key).dom().contains(k)
            && nodes_map(pre).remove(key)[k] == nodes_map(post)[k] by {
            let j = choose|j: int| 0 <= j < post.len() && post[j].0@ == k;
            let j0 = if j < i {
                j
            } else {
                j + 1
            };
            assert(post[j] == pre[j0]);
            assert(j0 != i);
            assert(k != key);
            lemma_nodes_map_at(pre, j0);
            lemma_nodes_map_at(post, j);
        }
        assert forall|k: Seq<u8>| #[trigger]
            nodes_map(pre).remove(key).dom().contains(k) implies nodes_map(post).dom().contains(
            k,
        ) by {
            let j0 = choose|j0: int| 0 <= j0 < pre.len() && pre[j0].0@ == k;
            assert(j0 != i);
            let j = if j0 < i {
                j0
            } else {
                j0 - 1
            };
            assert(post[j] == pre[j0]);
        }
    }
}

/// Appending an entry with an absent key inserts exactly it.
proof fn lemma_nodes_map_push(pre: Seq<(Key, Node)>, entry: (Key, Node))
    requires
        entry_keys_unique(pre),
        !nodes_map(pre).dom().contains(entry.0@),
    ensures
        entry_keys_unique(pre.push(entry)),
        nodes_map(pre.push(entry)) == nodes_map(pre).insert(entry.0@, entry.1@),
{
    let post = pre.push(entry);
    let key = entry.0@;
    assert(forall|j: int| 0 <= j < pre.len() ==> pre[j].0@ != key);
    assert(entry_keys_unique(post)) by {
        assert forall|a: int, b: int| 0 <= a < b < post.len() implies post[a].0@ != post[b].0@ by {
            if b < pre.len() {
                assert(post[a] == pre[a] && post[b] == pre[b]);
            } else {
                assert(post[a] == pre[a] && post[b] == entry);
            }
        }
    }
    assert(nodes_map(post) =~= nodes_map(pre).insert(key, entry.1@)) by {
        assert forall|k: Seq<u8>| #[trigger]
            nodes_map(post).dom().contains(k) implies nodes_map(pre).insert(
            key,
            entry.1@,
        ).dom().contains(k) && nodes_map(pre).insert(key, entry.1@)[k] == nodes_map(post)[k] by {
            let j = choose|j: int| 0 <= j < post.len() && post[j].0@ == k;
            lemma_nodes_map_at(post, j);
            if j < pre.len() {
                assert(post[j] == pre[j]);
                lemma_nodes_map_at(pre, j);
            } else {
                assert(post[j] == entry);
            }
        }
        assert forall|k: Seq<u8>| #[trigger]
            nodes_map(pre).insert(key, entry.1@).dom().contains(k) implies nodes_map(
            post,
        ).dom().contains(k) by {
            if k == key {
                assert(post[post.len() - 1].0@ == k);
            } else {
                let j = choose|j: int| 0 <= j < pre.len() && pre[j].0@ == k;
                assert(post[j].0@ == k);
            }
        }
    }
}

/// The set of fetched nodes at one address, with the bookkeeping that
/// keeps partial knowledge coherent.
#[derive(Debug)]
pub struct Subtree {
    root_node: Option<Key>,
    cluster_roots: Vec<Key>,
    nodes: Vec<(Key, Node)>,
    waitlist: Vec<Key>,
    visible: bool,
}

/// Mathematical shape of a [`Subtree`].
#[verifier::ext_equal]
pub struct SubtreeView {
    pub root_node: Option<Seq<u8>>,
    pub cluster_roots: Set<Seq<u8>>,
    pub nodes: Map<Seq<u8>, NodeView>,
    pub waitlist: Set<Seq<u8>>,
}

impl View for Subtree {
    type V = SubtreeView;

    closed spec fn view(&self) -> SubtreeView {
        SubtreeView {
            root_node: opt_bytes_view(self.root_node),
            cluster_roots: key_set(self.cluster_roots@),
            nodes: nodes_map(self.nodes@),
            waitlist: key_set(self.waitlist@),
        }
    }
}

/// Whether an element view links to (or stands for) a nested subtree.
pub open spec fn view_is_subtree_kind(e: ElementView) -> bool {
    e matches ElementView::Sumtree { .. } || e matches ElementView::Subtree { .. }
        || e matches ElementView::SubtreePlaceholder
}

/// The state of a subtree nobody has fetched anything for.
pub open spec fn empty_subtree_view() -> SubtreeView {
    SubtreeView {
        root_node: None,
        cluster_roots: Set::empty(),
        nodes: Map::empty(),
        waitlist: Set::empty(),
    }
}

/// Adds an optional claimed child to the cluster roots when its node is
/// already fetched.
pub open spec fn cluster_adopt_present(
    c: Set<Seq<u8>>,
    child: Option<Seq<u8>>,
    nodes: Map<Seq<u8>, NodeView>,
) -> Set<Seq<u8>> {
    match child {
        Some(k) => if nodes.dom().contains(k) {
            c.insert(k)
        } else {
            c
        },
        None => c,
    }
}

/// Drops an optional key from a set.
pub open spec fn set_remove_opt(s: Set<Seq<u8>>, k: Option<Seq<u8>>) -> Set<Seq<u8>> {
    match k {
        Some(k) => s.remove(k),
        None => s,
    }
}

/// Puts an optional claimed child on the waitlist when its node has not
/// been fetched.
pub open spec fn wait_for_missing(
    w: Set<Seq<u8>>,
    child: Option<Seq<u8>>,
    nodes: Map<Seq<u8>, NodeView>,
) -> Set<Seq<u8>> {
    match child {
        Some(k) => if !nodes.dom().contains(k) {
            w.insert(k)
        } else {
            w
        },
        None => w,
    }
}

/// What removing `key` does to a subtree: the node leaves the map, its
/// children stop waiting, children that are already fetched become
/// cluster roots of their own, and the removed key itself goes on the
/// waitlist unless it is the root or a cluster root.
pub open spec fn spec_subtree_remove(s: SubtreeView, key: Seq<u8>) -> SubtreeView {
    if !s.nodes.dom().contains(key) {
        s
    } else {
        let node = s.nodes[key];
        let nodes1 = s.nodes.remove(key);
        let w1 = set_remove_opt(set_remove_opt(s.waitlist, node.left_child), node.right_child);
        let c1 = cluster_adopt_present(
            cluster_adopt_present(s.cluster_roots, node.left_child, nodes1),
            node.right_child,
            nodes1,
        );
        let back_to_waitlist = s.root_node != Some(key) && !c1.contains(key);
        SubtreeView {
            root_node: s.root_node,
            cluster_roots: c1,
            nodes: nodes1,
            waitlist: if back_to_waitlist {
                w1.insert(key)
            } else {
                w1
            },
        }
    }
}

/// What inserting `(key, node)` does to a subtree: any previous node at
/// `key` is removed first, the key stops waiting or becomes a cluster
/// root, and each claimed child stops being a cluster root and goes on
/// the waitlist unless already fetched.
pub open spec fn spec_subtree_insert(s: SubtreeView, key: Seq<u8>, node: NodeView) -> SubtreeView {
    let s1 = spec_subtree_remove(s, key);
    let in_wait = s1.waitlist.contains(key);
    let w2 = if in_wait {
        s1.waitlist.remove(key)
    } else {
        s1.waitlist
    };
    let c2 = if !in_wait && s1.root_node != Some(key) {
        s1.cluster_roots.insert(key)
    } else {
        s1.cluster_roots
    };
    let w3 = wait_for_missing(w2, node.left_child, s1.nodes);
    let c3 = set_remove_opt(c2, node.left_child);
    let w4 = wait_for_missing(w3, node.right_child, s1.nodes);
    let c4 = set_remove_opt(c3, node.right_child);
    SubtreeView {
        root_node: s1.root_node,
        cluster_roots: c4,
        nodes: s1.nodes.insert(key, node),
        waitlist: w4,
    }
}

/// What recording the subtree's logical root does.
pub open spec fn spec_subtree_set_root(s: SubtreeView, root: Seq<u8>) -> SubtreeView {
    SubtreeView {
        root_node: Some(root),
        cluster_roots: s.cluster_roots.remove(root),
        ..s
    }
}

impl Subtree {
    /// The internal vectors behave as sets and maps: no duplicate keys.
    pub closed spec fn wf(&self) -> bool {
        &&& entry_keys_unique(self.nodes@)
        &&& keys_unique(self.cluster_roots@)
        &&& keys_unique(self.waitlist@)
    }

    /// Whether this subtree is currently drawn.
    pub closed spec fn spec_visible(&self) -> bool {
        self.visible
    }

    /// A subtree with nothing fetched yet.
    pub fn new() -> (r: Subtree)
        ensures
            r.wf(),
            r@ == empty_subtree_view(),
            !r.spec_visible(),
    {
        let r = Subtree {
            root_node: None,
            cluster_roots: Vec::new(),
            nodes: Vec::new(),
            waitlist: Vec::new(),
            visible: false,
        };
        proof {
            assert(r@.cluster_roots =~= Set::<Seq<u8>>::empty());
            assert(r@.waitlist =~= Set::<Seq<u8>>::empty());
            assert(r@.nodes =~= Map::<Seq<u8>, NodeView>::empty());
            assert(r@ =~= empty_subtree_view());
        }
        r
    }

    /// An empty subtree that already knows its logical root key.
    pub fn new_root(root_node: Key) -> (r: Subtree)
        ensures
            r.wf(),
            r@ == spec_subtree_set_root(empty_subtree_view(), root_node@),
            !r.spec_visible(),
    {
        let mut r = Subtree::new();
        r.set_root(root_node);
        r
    }

    /// Records the subtree's logical root: the root is connected by
    /// definition, so it leaves the cluster roots.
    pub fn set_root(&mut self, root_node: Key)
        requires
            old(self).wf(),
        ensures
            final(self).wf(),
            final(self)@ == spec_subtree_set_root(old(self)@, root_node@),
            final(self).spec_visible() == old(self).spec_visible(),
    {
        key_vec_remove(&mut self.cluster_roots, root_node.as_slice());
        self.root_node = Some(root_node);
        proof {
            assert(self@ =~= spec_subtree_set_root(old(self)@, root_node@));
        }
    }

    /// The root key recorded for this subtree, if any.
    pub fn root_key(&self) -> (r: Option<&Vec<u8>>)
        ensures
            match r {
                Some(k) => self@.root_node == Some(k@),
                None => self@.root_node is None,
            },
    {
        self.root_node.as_ref()
    }

    /// The node the recorded root key points at, if it arrived already.
    pub fn root_node(&self) -> (r: Option<&Node>)
        requires
            self.wf(),
        ensures
            match r {
                Some(n) => self@.root_node matches Some(k) && self@.nodes.dom().contains(k)
                    && n@ == self@.nodes[k],
                None => match self@.root_node {
                    Some(k) => !self@.nodes.dom().contains(k),
                    None => true,
                },
            },
    {
        match &self.root_node {
            None => None,
            Some(k) => self.get_node(k.as_slice()),
        }
    }

    /// The fetched node at `key`, if any.
    pub fn get_node(&self, key: &[u8]) -> (r: Option<&Node>)
        requires
            self.wf(),
        ensures
            match r {
                Some(n) => self@.nodes.dom().contains(key@) && n@ == self@.nodes[key@],
                None => !self@.nodes.dom().contains(key@),
            },
    {
        match find_node_idx(&self.nodes, key) {
            Some(i) => {
                proof {
                    lemma_nodes_map_at(self.nodes@, i as int);
                }
                Some(&self.nodes[i].1)
            },
            None => None,
        }
    }

    /// True when nothing is fetched here.
    pub fn is_empty(&self) -> (r: bool)
        ensures
            r == (self@.nodes =~= Map::<Seq<u8>, NodeView>::empty()),
    {
        let r = self.nodes.is_empty();
        proof {
            if self.nodes@.len() == 0 {
                assert(self@.nodes =~= Map::<Seq<u8>, NodeView>::empty());
            } else {
                assert(self@.nodes.dom().contains(self.nodes@[0].0@));
            }
        }
        r
    }

    /// How many nodes are fetched here.
    pub fn n_nodes(&self) -> (r: usize)
        requires
            self.wf(),
        ensures
            self@.nodes.dom().finite(),
            r == self@.nodes.dom().len(),
    {
        proof {
            lemma_nodes_map_len(self.nodes@);
        }
        self.nodes.len()
    }

    /// Whether this subtree is currently drawn.
    pub fn visible(&self) -> (r: bool)
        ensures
            r == self.spec_visible(),
    {
        self.visible
    }

    /// Shows or hides this subtree.
    pub fn set_visible(&mut self, visible: bool)
        ensures
            final(self).wf() == old(self).wf(),
            final(self)@ == old(self)@,
            final(self).spec_visible() == visible,
    {
        self.visible = visible;
    }

    /// Removes the node at `key` and repairs the bookkeeping: its
    /// children stop waiting, fetched children become cluster roots, and
    /// the key itself starts waiting unless it is the root or a cluster
    /// root. Any key can be removed; a possibly split tree is taken care
    /// of.
    pub fn remove(&mut self, key: &[u8])
        requires
            old(self).wf(),
        ensures
            final(self).wf(),
            final(self)@ == spec_subtree_remove(old(self)@, key@),
            final(self).spec_visible() == old(self).spec_visible(),
    {
        let ghost s0 = self@;
        match find_node_idx(&self.nodes, key) {
            None => {
                proof {
                    assert(self@ =~= spec_subtree_remove(s0, key@));
                }
            },
            Some(i) => {
                proof {
                    lemma_nodes_map_at(self.nodes@, i as int);
                    lemma_nodes_map_remove(self.nodes@, i as int);
                }
                let entry = self.nodes.remove(i);
                let node = entry.1;
                let ghost node_v = node@;
                let ghost nodes1 = s0.nodes.remove(key@);
                proof {
                    assert(self@.nodes == nodes1);
                }
                // The removed node's children stop waiting for it.
                if let Some(c) = &node.left_child {
                    key_vec_remove(&mut self.waitlist, c.as_slice());
                }
                if let Some(c) = &node.right_child {
                    key_vec_remove(&mut self.waitlist, c.as_slice());
                }
                proof {
                    assert(self@.waitlist =~= set_remove_opt(
                        set_remove_opt(s0.waitlist, node_v.left_child),
                        node_v.right_child,
                    ));
                }
                // Children that are already fetched lost their parent and
                // become cluster roots of their own.
                if let Some(c) = &node.left_child {
                    if self.get_node(c.as_slice()).is_some() {
                        key_vec_insert(&mut self.cluster_roots, clone_bytes(c));
                    }
                }
                proof {
                    assert(self@.cluster_roots =~= cluster_adopt_present(
                        s0.cluster_roots,
                        node_v.left_child,
                        nodes1,
                    ));
                }
                if let Some(c) = &node.right_child {
                    if self.get_node(c.as_slice()).is_some() {
                        key_vec_insert(&mut self.cluster_roots, clone_bytes(c));
                    }
                }
                let ghost c1 = cluster_adopt_present(
                    cluster_adopt_present(s0.cluster_roots, node_v.left_child, nodes1),
                    node_v.right_child,
                    nodes1,
                );
                proof {
                    assert(self@.cluster_roots =~= c1);
                }
                // Unless the removed node was the root or a local root,
                // someone may still reference it: expect a re-fetch.
                let not_root = match &self.root_node {
                    None => true,
                    Some(r) => !slice_key_eq(key, r),
                };
                if not_root && !key_vec_contains(&self.cluster_roots, key) {
                    key_vec_insert(&mut self.waitlist, vstd::slice::slice_to_vec(key));
                }
                proof {
                    assert(self@ =~= spec_subtree_remove(s0, key@));
                }
            },
        }
    }

    /// Stores `node` under `key`, undoing any previous node's edges
    /// first, and repairs the bookkeeping: the key stops waiting or
    /// becomes a cluster root, and each claimed child goes on the
    /// waitlist unless already fetched and stops being a cluster root.
    /// The node need not connect to anything fetched so far.
    pub fn insert(&mut self, key: Key, node: Node)
        requires
            old(self).wf(),
        ensures
            final(self).wf(),
            final(self)@ == spec_subtree_insert(old(self)@, key@, node@),
            final(self).spec_visible() == old(self).spec_visible(),
    {
        // Re-insert semantics: undo the previous node's contribution.
        self.remove(key.as_slice());
        let ghost s1 = self@;
        // The key either was awaited (someone claims it as a child) or
        // becomes a provisional cluster root of its own.
        let in_wait = key_vec_remove(&mut self.waitlist, key.as_slice());
        proof {
            assert(self@.waitlist =~= if s1.waitlist.contains(key@) {
                s1.waitlist.remove(key@)
            } else {
                s1.waitlist
            });
        }
        if !in_wait {
            let not_root = match &self.root_node {
                None => true,
                Some(r) => !slice_key_eq(key.as_slice(), r),
            };
            if not_root {
                key_vec_insert(&mut self.cluster_roots, clone_bytes(&key));
            }
        }
        let ghost in_wait_s = s1.waitlist.contains(key@);
        let ghost c2 = if !in_wait_s && s1.root_node != Some(key@) {
            s1.cluster_roots.insert(key@)
        } else {
            s1.cluster_roots
        };
        proof {
            assert(self@.cluster_roots =~= c2);
        }
        // Each claimed child is awaited if missing and is no cluster
        // root any more.
        if let Some(c) = &node.left_child {
            if self.get_node(c.as_slice()).is_none() {
                key_vec_insert(&mut self.waitlist, clone_bytes(c));
            }
            key_vec_remove(&mut self.cluster_roots, c.as_slice());
        }
        proof {
            assert(self@.waitlist =~= wait_for_missing(
                if in_wait_s {
                    s1.waitlist.remove(key@)
                } else {
                    s1.waitlist
                },
                node@.left_child,
                s1.nodes,
            ));
            assert(self@.cluster_roots =~= set_remove_opt(c2, node@.left_child));
        }
        if let Some(c) = &node.right_child {
            if self.get_node(c.as_slice()).is_none() {
                key_vec_insert(&mut self.waitlist, clone_bytes(c));
            }
            key_vec_remove(&mut self.cluster_roots, c.as_slice());
        }
        // Finally store the node.
        proof {
            lemma_nodes_map_push(self.nodes@, (key, node));
        }
        self.nodes.push((key, node));
        proof {
            assert(self@ =~= spec_subtree_insert(old(self)@, key@, node@));
        }
    }

    /// Stores `node` under `key` only when nothing is there yet.
    pub fn insert_not_exists(&mut self, key: Key, node: Node)
        requires
            old(self).wf(),
        ensures
            final(self).wf(),
            final(self)@ == if old(self)@.nodes.dom().contains(key@) {
                old(self)@
            } else {
                spec_subtree_insert(old(self)@, key@, node@)
            },
            final(self).spec_visible() == old(self).spec_visible(),
    {
        if self.get_node(key.as_slice()).is_none() {
            self.insert(key, node);
        }
    }

    /// The keys of all fetched nodes that link to nested subtrees.
    pub fn subtree_keys(&self) -> (r: Vec<Key>)
        requires
            self.wf(),
        ensures
            forall|k: Seq<u8>| #[trigger]
                key_set(r@).contains(k) <==> self@.nodes.dom().contains(k) && view_is_subtree_kind(
                    self@.nodes[k].element,
                ),
    {
        let mut r: Vec<Key> = Vec::new();
        let n = self.nodes.len();
        let mut i: usize = 0;
        while i < n
            invariant
                self.wf(),
                n == self.nodes@.len(),
                i <= n,
                forall|k: Seq<u8>| #[trigger]
                    key_set(r@).contains(k) <==> exists|j: int|
                        0 <= j < i && self.nodes@[j].0@ == k && view_is_subtree_kind(
                            self.nodes@[j].1@.element,
                        ),
            decreases n - i,
        {
            let ghost r_pre = r@;
            if self.nodes[i].1.element.is_subtree_kind() {
                r.push(clone_bytes(&self.nodes[i].0));
                proof {
                    assert forall|k: Seq<u8>| #[trigger] key_set(r@).contains(k) implies exists|
                        j: int,
                    |
                        0 <= j < i + 1 && self.nodes@[j].0@ == k && view_is_subtree_kind(
                            self.nodes@[j].1@.element,
                        ) by {
                        let a = choose|a: int| 0 <= a < r@.len() && r@[a]@ == k;
                        if a < r_pre.len() {
                            assert(r_pre[a]@ == k);
                            assert(key_set(r_pre).contains(k));
                            let j = choose|j: int|
                                0 <= j < i && self.nodes@[j].0@ == k && view_is_subtree_kind(
                                    self.nodes@[j].1@.element,
                                );
                            assert(0 <= j < i + 1 && self.nodes@[j].0@ == k
                                && view_is_subtree_kind(self.nodes@[j].1@.element));
                        } else {
                            assert(self.nodes@[i as int].0@ == k && view_is_subtree_kind(
                                self.nodes@[i as int].1@.element,
                            ));
                        }
                    }
                    assert forall|k: Seq<u8>|
                        (exists|j: int|
                            0 <= j < i + 1 && self.nodes@[j].0@ == k && view_is_subtree_kind(
                                self.nodes@[j].1@.element,
                            )) implies #[trigger] key_set(r@).contains(k) by {
                        let j = choose|j: int|
                            0 <= j < i + 1 && self.nodes@[j].0@ == k && view_is_subtree_kind(
                                self.nodes@[j].1@.element,
                            );
                        if j < i {
                            assert(key_set(r_pre).contains(k));
                            let a = choose|a: int| 0 <= a < r_pre.len() && r_pre[a]@ == k;
                            assert(r@[a]@ == k);
                        } else {
                            assert(r@[r@.len() - 1]@ == k);
                        }
                    }
                }
            } else {
                proof {
                    assert forall|k: Seq<u8>| #[trigger] key_set(r@).contains(k) implies exists|
                        j: int,
                    |
                        0 <= j < i + 1 && self.nodes@[j].0@ == k && view_is_subtree_kind(
                            self.nodes@[j].1@.element,
                        ) by {
                        let j = choose|j: int|
                            0 <= j < i && self.nodes@[j].0@ == k && view_is_subtree_kind(
                                self.nodes@[j].1@.element,
                            );
                        assert(0 <= j < i + 1 && self.nodes@[j].0@ == k && view_is_subtree_kind(
                            self.nodes@[j].1@.element,
                        ));
                    }
                    assert forall|k: Seq<u8>|
                        (exists|j: int|
                            0 <= j < i + 1 && self.nodes@[j].0@ == k && view_is_subtree_kind(
                                self.nodes@[j].1@.element,
                            )) implies #[trigger] key_set(r@).contains(k) by {
                        let j = choose|j: int|
                            0 <= j < i + 1 && self.nodes@[j].0@ == k && view_is_subtree_kind(
                                self.nodes@[j].1@.element,
                            );
                        assert(j < i);
                    }
                }
            }
            i += 1;
        }
        proof {
            assert forall|k: Seq<u8>| #[trigger]
                key_set(r@).contains(k) <==> self@.nodes.dom().contains(k) && view_is_subtree_kind(
                self@.nodes[k].element,
            ) by {
                if key_set(r@).contains(k) {
                    let j = choose|j: int|
                        0 <= j < n && self.nodes@[j].0@ == k && view_is_subtree_kind(
                            self.nodes@[j].1@.element,
                        );
                    lemma_nodes_map_at(self.nodes@, j);
                }
                if self@.nodes.dom().contains(k) && view_is_subtree_kind(self@.nodes[k].element) {
                    let j = choose|j: int| 0 <= j < self.nodes@.len() && self.nodes@[j].0@ == k;
                    lemma_nodes_map_at(self.nodes@, j);
                    assert(0 <= j < n && self.nodes@[j].0@ == k && view_is_subtree_kind(
                        self.nodes@[j].1@.element,
                    ));
                }
            }
        }
        r
    }

    /// Drops every node, leaving root key and bookkeeping as they are:
    /// the deliberate coarse "unload everything here" action.
    pub fn clear_nodes(&mut self)
        requires
            old(self).wf(),
        ensures
            final(self).wf(),
            final(self)@ == (SubtreeView { nodes: Map::empty(), ..old(self)@ }),
            final(self).spec_visible() == old(self).spec_visible(),
    {
        self.nodes.clear();
        proof {
            assert(self@.nodes =~= Map::<Seq<u8>, NodeView>::empty());
            assert(self@ =~= (SubtreeView { nodes: Map::empty(), ..old(self)@ }));
        }
    }

    /// Whether `key` is waiting to be fetched.
    pub fn waitlist_contains(&self, key: &[u8]) -> (r: bool)
        ensures
            r == self@.waitlist.contains(key@),
    {
        key_vec_contains(&self.waitlist, key)
    }

    /// How many keys are waiting to be fetched.
    pub fn waitlist_len(&self) -> (r: usize)
        requires
            self.wf(),
        ensures
            self@.waitlist.finite(),
            r == self@.waitlist.len(),
    {
        let r = self.waitlist.len();
        proof {
            lemma_key_set_len(self.waitlist@);
        }
        r
    }

    /// The keys of the disconnected local roots, each exactly once.
    pub fn cluster_root_keys(&self) -> (r: Vec<Key>)
        requires
            self.wf(),
        ensures
            forall|k: Seq<u8>| #[trigger]
                key_set(r@).contains(k) <==> self@.cluster_roots.contains(k),
    {
        let n = self.cluster_roots.len();
        let mut r: Vec<Key> = Vec::new();
        let mut i: usize = 0;
        while i < n
            invariant
                n == self.cluster_roots@.len(),
                i <= n,
                r@.len() == i,
                forall|j: int| 0 <= j < i ==> (#[trigger] r@[j])@ == self.cluster_roots@[j]@,
            decreases n - i,
        {
            r.push(clone_bytes(&self.cluster_roots[i]));
            i += 1;
        }
        proof {
            assert forall|k: Seq<u8>| #[trigger]
                key_set(r@).contains(k) <==> self@.cluster_roots.contains(k) by {
                if key_set(r@).contains(k) {
                    let j = choose|j: int| 0 <= j < r@.len() && r@[j]@ == k;
                    assert(self.cluster_roots@[j]@ == k);
                }
                if self@.cluster_roots.contains(k) {
                    let j = choose|j: int|
                        0 <= j < self.cluster_roots@.len() && self.cluster_roots@[j]@ == k;
                    assert(r@[j]@ == k);
                }
            }
        }
        r
    }

    /// Whether `key` is a disconnected local root.
    pub fn cluster_roots_contains(&self, key: &[u8]) -> (r: bool)
        ensures
            r == self@.cluster_roots.contains(key@),
    {
        key_vec_contains(&self.cluster_roots, key)
    }

    /// How many disconnected local roots there are.
    pub fn cluster_roots_len(&self) -> (r: usize)
        requires
            self.wf(),
        ensures
            self@.cluster_roots.finite(),
            r == self@.cluster_roots.len(),
    {
        let r = self.cluster_roots.len();
        proof {
            lemma_key_set_len(self.cluster_roots@);
        }
        r
    }
}

/// The address-to-subtree map a vector of entries stands for.
pub open spec fn subtree_map(s: Seq<(Path, Subtree)>) -> Map<Path, SubtreeView> {
    Map::new(
        |p: Path| exists|i: int| 0 <= i < s.len() && s[i].0 == p,
        |p: Path|
            {
                let i = choose|i: int| 0 <= i < s.len() && s[i].0 == p;
                s[i].1@
            },
    )
}

/// No two entries hold the same address.
pub open spec fn subtree_keys_unique(s: Seq<(Path, Subtree)>) -> bool {
    forall|i: int, j: int| 0 <= i < j < s.len() ==> s[i].0 != s[j].0
}

/// Any entry index is a faithful witness for the subtree map.
proof fn lemma_subtree_map_at(s: Seq<(Path, Subtree)>, i: int)
    requires
        subtree_keys_unique(s),
        0 <= i < s.len(),
    ensures
        subtree_map(s).dom().contains(s[i].0),
        subtree_map(s)[s[i].0] == s[i].1@,
{
    let p = s[i].0;
    assert(exists|j: int| 0 <= j < s.len() && s[j].0 == p) by {
        assert(s[i].0 == p);
    }
    let j = choose|j: int| 0 <= j < s.len() && s[j].0 == p;
    assert(j == i);
}

/// Replacing the subtree of the entry at `i` updates exactly its key.
proof fn lemma_subtree_map_update(pre: Seq<(Path, Subtree)>, post: Seq<(Path, Subtree)>, i: int)
    requires
        subtree_keys_unique(pre),
        0 <= i < pre.len(),
        post.len() == pre.len(),
        post[i].0 == pre[i].0,
        forall|j: int| 0 <= j < pre.len() && j != i ==> post[j] == pre[j],
    ensures
        subtree_keys_unique(post),
        subtree_map(post) == subtree_map(pre).insert(pre[i].0, post[i].1@),
{
    assert(subtree_keys_unique(post)) by {
        assert forall|a: int, b: int| 0 <= a < b < post.len() implies post[a].0 != post[b].0 by {
            assert(post[a].0 == pre[a].0 && post[b].0 == pre[b].0);
        }
    }
    assert(subtree_map(post) =~= subtree_map(pre).insert(pre[i].0, post[i].1@)) by {
        assert forall|p: Path| #[trigger] subtree_map(post).dom().contains(p) implies subtree_map(
            pre,
        ).insert(pre[i].0, post[i].1@).dom().contains(p) && subtree_map(pre).insert(
            pre[i].0,
            post[i].1@,
        )[p] == subtree_map(post)[p] by {
            let j = choose|j: int| 0 <= j < post.len() && post[j].0 == p;
            lemma_subtree_map_at(post, j);
            assert(pre[j].0 == p);
            lemma_subtree_map_at(pre, j);
        }
        assert forall|p: Path| #[trigger]
            subtree_map(pre).insert(pre[i].0, post[i].1@).dom().contains(p) implies subtree_map(
            post,
        ).dom().contains(p) by {
            if p == pre[i].0 {
                assert(post[i].0 == p);
            } else {
                let j = choose|j: int| 0 <= j < pre.len() && pre[j].0 == p;
                assert(post[j].0 == p);
            }
        }
    }
}

/// Appending an entry with an absent address inserts exactly it.
proof fn lemma_subtree_map_push(pre: Seq<(Path, Subtree)>, entry: (Path, Subtree))
    requires
        subtree_keys_unique(pre),
        !subtree_map(pre).dom().contains(entry.0),
    ensures
        subtree_keys_unique(pre.push(entry)),
        subtree_map(pre.push(entry)) == subtree_map(pre).insert(entry.0, entry.1@),
{
    let post = pre.push(entry);
    assert(forall|j: int| 0 <= j < pre.len() ==> pre[j].0 != entry.0);
    assert(subtree_keys_unique(post)) by {
        assert forall|a: int, b: int| 0 <= a < b < post.len() implies post[a].0 != post[b].0 by {
            if b < pre.len() {
                assert(post[a] == pre[a] && post[b] == pre[b]);
            } else {
                assert(post[a] == pre[a] && post[b] == entry);
            }
        }
    }
    assert(subtree_map(post) =~= subtree_map(pre).insert(entry.0, entry.1@)) by {
        assert forall|p: Path| #[trigger] subtree_map(post).dom().contains(p) implies subtree_map(
            pre,
        ).insert(entry.0, entry.1@).dom().contains(p) && subtree_map(pre).insert(
            entry.0,
            entry.1@,
        )[p] == subtree_map(post)[p] by {
            let j = choose|j: int| 0 <= j < post.len() && post[j].0 == p;
            lemma_subtree_map_at(post, j);
            if j < pre.len() {
                assert(post[j] == pre[j]);
                lemma_subtree_map_at(pre, j);
            } else {
                assert(post[j] == entry);
            }
        }
        assert forall|p: Path| #[trigger]
            subtree_map(pre).insert(entry.0, entry.1@).dom().contains(p) implies subtree_map(
            post,
        ).dom().contains(p) by {
            if p == entry.0 {
                assert(post[post.len() - 1].0 == p);
            } else {
                let j = choose|j: int| 0 <= j < pre.len() && pre[j].0 == p;
                assert(post[j].0 == p);
            }
        }
    }
}

/// What ensuring the whole chain of ancestor subtrees does: every
/// subtree from the root down to the target exists afterwards, and each
/// ancestor holds at least a placeholder node for the next segment on
/// the way — but the target itself gets no placeholder.
pub open spec fn spec_populate(m: Map<Path, SubtreeView>, ctx: PathCtx, path: Path) -> Map<
    Path,
    SubtreeView,
>
    decreases ctx.path_measure(path),
    when ctx.wf() && ctx.path_ok(path)
    via spec_populate_decreases
{
    let m1 = if m.dom().contains(path) {
        m
    } else {
        m.insert(path, empty_subtree_view())
    };
    match ctx.spec_parent(path) {
        None => m1,
        Some(par) => {
            let k = ctx.spec_last_key(path);
            let sub = if m1.dom().contains(par) {
                m1[par]
            } else {
                empty_subtree_view()
            };
            let sub1 = if sub.nodes.dom().contains(k) {
                sub
            } else {
                spec_subtree_insert(sub, k, placeholder_node_view())
            };
            spec_populate(m1.insert(par, sub1), ctx, par)
        },
    }
}

#[via_fn]
proof fn spec_populate_decreases(m: Map<Path, SubtreeView>, ctx: PathCtx, path: Path) {
    if ctx.wf() && ctx.path_ok(path) && ctx.spec_parent(path) is Some {
        crate::path_ctx::lemma_parent_measure(ctx, path);
    }
}

/// The state the subtree at `p` had before a chain population: what
/// the map holds, or nothing at all.
pub open spec fn spec_subtree_before(m: Map<Path, SubtreeView>, p: Path) -> SubtreeView {
    if m.dom().contains(p) {
        m[p]
    } else {
        empty_subtree_view()
    }
}

/// Populating the chain toward `path` creates every subtree from the
/// root down to the target; every ancestor on the way holds a node for
/// the next segment's key — a placeholder inserted exactly when that
/// key was absent, existing nodes kept — while the target's own
/// subtree and everything off the chain stay exactly as they were. In
/// particular the target itself never receives a placeholder.
pub proof fn lemma_populate_creates_chain(m: Map<Path, SubtreeView>, ctx: PathCtx, path: Path)
    requires
        ctx.wf(),
        ctx.path_ok(path),
    ensures
        spec_populate(m, ctx, path).dom().contains(path),
        forall|a: Path|
            ctx.path_ok(a) && #[trigger] path.spec_is_strict_descendant_of(ctx, a)
                ==> spec_populate(m, ctx, path).dom().contains(a),
        forall|p2: Path|
            (p2 == path || #[trigger] path.spec_is_strict_descendant_of(ctx, p2))
                && !p2.spec_is_root() ==> (ctx.spec_parent(p2) matches Some(par) && spec_populate(
                m,
                ctx,
                path,
            ).dom().contains(par) && spec_populate(m, ctx, path)[par].nodes == (if spec_subtree_before(
                m,
                par,
            ).nodes.dom().contains(ctx.spec_last_key(p2)) {
                spec_subtree_before(m, par).nodes
            } else {
                spec_subtree_before(m, par).nodes.insert(
                    ctx.spec_last_key(p2),
                    placeholder_node_view(),
                )
            })),
        spec_populate(m, ctx, path)[path] == spec_subtree_before(m, path),
        forall|q: Path|
            !(q == path) && !(#[trigger] path.spec_is_strict_descendant_of(ctx, q)) ==> (
            spec_populate(m, ctx, path).dom().contains(q) == m.dom().contains(q) && (
            m.dom().contains(q) ==> spec_populate(m, ctx, path)[q] == m[q])),
    decreases ctx.path_measure(path),
{
    let m1 = spec_populate(m, ctx, path);
    let mm = if m.dom().contains(path) {
        m
    } else {
        m.insert(path, empty_subtree_view())
    };
    match ctx.spec_parent(path) {
        None => {
            crate::path_ctx::lemma_parent_none_iff_root(ctx, path);
            assert(m1 == mm);
            // The root has nothing strictly above it: the chain is
            // just the target, and the target itself is left alone.
            assert forall|p2: Path| #[trigger] path.spec_is_strict_descendant_of(
                ctx,
                p2,
            ) implies false by {
                crate::path_ctx::lemma_descendant_step(ctx, path, p2);
            }
        },
        Some(par) => {
            crate::path_ctx::lemma_parent_measure(ctx, path);
            let k = ctx.spec_last_key(path);
            let sub = if mm.dom().contains(par) {
                mm[par]
            } else {
                empty_subtree_view()
            };
            let sub1 = if sub.nodes.dom().contains(k) {
                sub
            } else {
                spec_subtree_insert(sub, k, placeholder_node_view())
            };
            let m_next = mm.insert(par, sub1);
            assert(m1 == spec_populate(m_next, ctx, par));
            lemma_populate_creates_chain(m_next, ctx, par);
            // The target is not on its parent's chain: everything on
            // that chain sits at a strictly smaller measure.
            assert(!(path == par));
            if par.spec_is_strict_descendant_of(ctx, path) {
                crate::path_ctx::lemma_strict_descendant_measure(ctx, par, path);
            }
            assert(m1.dom().contains(path) && m1[path] == m_next[path]);
            assert(mm[path] == spec_subtree_before(m, path));
            // The parent is not on its own chain either, so its final
            // state is exactly the one this step produced.
            assert(m1[par] == spec_subtree_before(m_next, par));
            assert(spec_subtree_before(m_next, par) == sub1);
            assert(sub == spec_subtree_before(m, par));
            // The chain step only inserts the one key into the parent's
            // node map.
            if !sub.nodes.dom().contains(k) {
                assert(sub1.nodes =~= spec_subtree_before(m, par).nodes.insert(
                    k,
                    placeholder_node_view(),
                ));
            }
            // The whole chain above the target exists afterwards.
            assert forall|a: Path|
                ctx.path_ok(a) && #[trigger] path.spec_is_strict_descendant_of(
                    ctx,
                    a,
                ) implies m1.dom().contains(a) by {
                crate::path_ctx::lemma_descendant_step(ctx, path, a);
            }
            // Each chain member is the target itself, the parent, or a
            // chain member of the parent; the induction hypothesis
            // covers the latter two, over a map that agrees with the
            // original everywhere strictly above the parent.
            assert forall|p2: Path|
                (p2 == path || #[trigger] path.spec_is_strict_descendant_of(ctx, p2))
                    && !p2.spec_is_root() implies (ctx.spec_parent(p2) matches Some(par2)
                && m1.dom().contains(par2) && m1[par2].nodes == (if spec_subtree_before(
                m,
                par2,
            ).nodes.dom().contains(ctx.spec_last_key(p2)) {
                spec_subtree_before(m, par2).nodes
            } else {
                spec_subtree_before(m, par2).nodes.insert(
                    ctx.spec_last_key(p2),
                    placeholder_node_view(),
                )
            })) by {
                crate::path_ctx::lemma_descendant_step(ctx, path, p2);
                if p2 == path {
                    assert(m1[par].nodes == sub1.nodes);
                } else {
                    assert(p2 == par || par.spec_is_strict_descendant_of(ctx, p2));
                    // Mention the induction hypothesis' trigger term for
                    // the parent itself.
                    let _par_selfstep = par.spec_is_strict_descendant_of(ctx, par);
                    if !(p2 == par) {
                        crate::path_ctx::lemma_strict_descendant_measure(ctx, par, p2);
                    }
                    crate::path_ctx::lemma_parent_none_iff_root(ctx, p2);
                    crate::path_ctx::lemma_parent_measure(ctx, p2);
                    let par2 = ctx.spec_parent(p2).unwrap();
                    assert(ctx.path_measure(par2) < ctx.path_measure(par));
                    assert(par2 != par && par2 != path);
                    assert(spec_subtree_before(m_next, par2) == spec_subtree_before(m, par2));
                }
            }
            // Everything off the chain keeps its entry: it is off the
            // parent's chain too and differs from both touched keys.
            assert forall|q: Path|
                !(q == path) && !(#[trigger] path.spec_is_strict_descendant_of(
                    ctx,
                    q,
                )) implies (m1.dom().contains(q) == m.dom().contains(q) && (m.dom().contains(q)
                ==> m1[q] == m[q])) by {
                crate::path_ctx::lemma_descendant_step(ctx, path, q);
                assert(!(q == par) && !par.spec_is_strict_descendant_of(ctx, q));
            }
        },
    }
}

/// Whether an element is a link to a nested subtree with its own root.
pub open spec fn view_is_link_kind(e: ElementView) -> bool {
    e matches ElementView::Sumtree { .. } || e matches ElementView::Subtree { .. }
}

/// The linked subtree's root key of a link element.
pub open spec fn view_link_root_key(e: ElementView) -> Option<Seq<u8>> {
    match e {
        ElementView::Sumtree { root_key, .. } => root_key,
        ElementView::Subtree { root_key, .. } => root_key,
        _ => None,
    }
}

/// What the steps of [`Tree::insert`] after the chain population do:
/// for a link element the linked child subtree exists afterwards and
/// learns its root key, and the node itself is inserted at its address.
pub open spec fn spec_tree_insert_finish(
    m1: Map<Path, SubtreeView>,
    path: Path,
    key: Seq<u8>,
    node: NodeView,
    child: Option<Path>,
) -> Map<Path, SubtreeView> {
    let m2 = match child {
        Some(cp) => {
            let base = if m1.dom().contains(cp) {
                m1
            } else {
                m1.insert(cp, empty_subtree_view())
            };
            match view_link_root_key(node.element) {
                Some(rk) => base.insert(cp, spec_subtree_set_root(base[cp], rk)),
                None => base,
            }
        },
        None => m1,
    };
    m2.insert(path, spec_subtree_insert(m2[path], key, node))
}

/// The full effect of [`Tree::insert`]: ancestors are populated, a link
/// element's child subtree is interned and told its root, and the node
/// is stored. `cp` is pinned down as the interned child address by
/// [`crate::path_ctx::child_step`].
pub open spec fn spec_tree_insert_rel(
    pre: Map<Path, SubtreeView>,
    post: Map<Path, SubtreeView>,
    ctx_pre: PathCtx,
    ctx_post: PathCtx,
    path: Path,
    key: Seq<u8>,
    node: NodeView,
) -> bool {
    let m1 = spec_populate(pre, ctx_pre, path);
    if view_is_link_kind(node.element) {
        exists|cp: Path|
            crate::path_ctx::child_step(ctx_pre, ctx_post, path, key, cp) && post
                == spec_tree_insert_finish(m1, path, key, node, Some(cp))
    } else {
        ctx_post == ctx_pre && post == spec_tree_insert_finish(m1, path, key, node, None)
    }
}

/// The currently known state of the whole store: one subtree per
/// fetched address.
pub struct Tree {
    subtrees: Vec<(Path, Subtree)>,
}

impl View for Tree {
    type V = Map<Path, SubtreeView>;

    closed spec fn view(&self) -> Map<Path, SubtreeView> {
        subtree_map(self.subtrees@)
    }
}

impl Tree {
    /// Unique addresses, and every stored subtree internally sound.
    pub closed spec fn wf(&self) -> bool {
        &&& subtree_keys_unique(self.subtrees@)
        &&& forall|i: int| 0 <= i < self.subtrees@.len() ==> (#[trigger] self.subtrees@[i]).1.wf()
    }

    /// A session that has fetched nothing yet.
    pub fn new() -> (r: Tree)
        ensures
            r.wf(),
            r@ == Map::<Path, SubtreeView>::empty(),
    {
        let r = Tree { subtrees: Vec::new() };
        proof {
            assert(r@ =~= Map::<Path, SubtreeView>::empty());
        }
        r
    }

    /// Index of the entry for `path`, if one exists.
    fn find_idx(&self, path: &Path) -> (r: Option<usize>)
        ensures
            match r {
                Some(i) => i < self.subtrees@.len() && self.subtrees@[i as int].0 == *path,
                None => !self@.dom().contains(*path),
            },
    {
        let n = self.subtrees.len();
        let mut i: usize = 0;
        while i < n
            invariant
                n == self.subtrees@.len(),
                i <= n,
                forall|j: int| 0 <= j < i ==> self.subtrees@[j].0 != *path,
            decreases n - i,
        {
            if self.subtrees[i].0 == *path {
                return Some(i);
            }
            i += 1;
        }
        None
    }

    /// Index of the entry for `path`, creating an empty one if needed.
    fn ensure_subtree(&mut self, path: Path) -> (i: usize)
        requires
            old(self).wf(),
        ensures
            final(self).wf(),
            i < final(self).subtrees@.len(),
            final(self).subtrees@[i as int].0 == path,
            final(self)@ == if old(self)@.dom().contains(path) {
                old(self)@
            } else {
                old(self)@.insert(path, empty_subtree_view())
            },
            final(self)@.dom().contains(path),
            final(self).subtrees@.len() == old(self).subtrees@.len() || final(self).subtrees@.len()
                == old(self).subtrees@.len() + 1,
            forall|j: int|
                0 <= j < old(self).subtrees@.len() ==> #[trigger] final(self).subtrees@[j]
                    == old(self).subtrees@[j],
            final(self).subtrees@.len() == old(self).subtrees@.len() + 1 ==> (final(
                self).subtrees@.last().0 == path && !final(self).subtrees@.last().1.spec_visible()),
    {
        match self.find_idx(&path) {
            Some(i) => {
                proof {
                    lemma_subtree_map_at(self.subtrees@, i as int);
                    assert(self@ =~= if old(self)@.dom().contains(path) {
                        old(self)@
                    } else {
                        old(self)@.insert(path, empty_subtree_view())
                    });
                }
                i
            },
            None => {
                let i = self.subtrees.len();
                let fresh = Subtree::new();
                proof {
                    lemma_subtree_map_push(self.subtrees@, (path, fresh));
                }
                self.subtrees.push((path, fresh));
                proof {
                    lemma_subtree_map_at(self.subtrees@, i as int);
                }
                i
            },
        }
    }

    /// The subtree at `path`, if any node or chain step created it.
    pub fn get_subtree(&self, path: &Path) -> (r: Option<&Subtree>)
        requires
            self.wf(),
        ensures
            match r {
                Some(s) => self@.dom().contains(*path) && s@ == self@[*path] && s.wf(),
                None => !self@.dom().contains(*path),
            },
    {
        match self.find_idx(path) {
            Some(i) => {
                proof {
                    lemma_subtree_map_at(self.subtrees@, i as int);
                }
                Some(&self.subtrees[i].1)
            },
            None => None,
        }
    }

    /// The node at `(path, key)`, if fetched.
    pub fn get_node(&self, path: &Path, key: &[u8]) -> (r: Option<&Node>)
        requires
            self.wf(),
        ensures
            match r {
                Some(n) => self@.dom().contains(*path) && self@[*path].nodes.dom().contains(key@)
                    && n@ == self@[*path].nodes[key@],
                None => !self@.dom().contains(*path) || !self@[*path].nodes.dom().contains(key@),
            },
    {
        match self.get_subtree(path) {
            Some(s) => s.get_node(key),
            None => None,
        }
    }

    /// Every address that currently has a subtree, in insertion order.
    pub fn subtree_paths(&self) -> (r: Vec<Path>)
        requires
            self.wf(),
        ensures
            forall|j: int| 0 <= j < r@.len() ==> self@.dom().contains(#[trigger] r@[j]),
            forall|p: Path| #[trigger] self@.dom().contains(p) ==> r@.contains(p),
    {
        let n = self.subtrees.len();
        let mut r: Vec<Path> = Vec::new();
        let mut i: usize = 0;
        while i < n
            invariant
                self.wf(),
                n == self.subtrees@.len(),
                i <= n,
                r@.len() == i,
                forall|j: int| 0 <= j < i ==> r@[j] == self.subtrees@[j].0,
            decreases n - i,
        {
            r.push(self.subtrees[i].0);
            i += 1;
        }
        proof {
            assert forall|j: int| 0 <= j < r@.len() implies self@.dom().contains(
                #[trigger] r@[j],
            ) by {
                lemma_subtree_map_at(self.subtrees@, j);
            }
            assert forall|p: Path| #[trigger] self@.dom().contains(p) implies r@.contains(p) by {
                let j = choose|j: int| 0 <= j < self.subtrees@.len() && self.subtrees@[j].0 == p;
                assert(r@[j] == p);
            }
        }
        r
    }

    /// Records the root key of the store's root subtree and marks that
    /// subtree — and no other — visible.
    pub fn set_root(&mut self, ctx: &crate::path_ctx::PathCtx, root_key: Key)
        requires
            old(self).wf(),
            ctx.wf(),
        ensures
            final(self).wf(),
            final(self)@ == ({
                let rp = Path::spec_root();
                let base = if old(self)@.dom().contains(rp) {
                    old(self)@
                } else {
                    old(self)@.insert(rp, empty_subtree_view())
                };
                base.insert(rp, spec_subtree_set_root(base[rp], root_key@))
            }),
            final(self).spec_visible_of(Path::spec_root()),
            forall|q: Path|
                !(q == Path::spec_root()) ==> #[trigger] final(self).spec_visible_of(q) == old(
                    self,
                ).spec_visible_of(q),
    {
        let ghost entries0 = self.subtrees@;
        let rp = ctx.get_root();
        let i = self.ensure_subtree(rp);
        let ghost mid = self.subtrees@;
        self.subtrees[i].1.set_root(root_key);
        self.subtrees[i].1.set_visible(true);
        proof {
            lemma_subtree_map_at(mid, i as int);
            lemma_subtree_map_update(mid, self.subtrees@, i as int);
            let fin = *self;
            fin.lemma_visible_of_at(i as int);
            assert(fin.spec_visible_of(Path::spec_root()));
            assert forall|q: Path|
                !(q == Path::spec_root()) implies #[trigger] fin.spec_visible_of(q) == old(
                self,
            ).spec_visible_of(q) by {
                if exists|j: int|
                    0 <= j < fin.subtrees@.len() && (#[trigger] fin.subtrees@[j]).0 == q {
                    let j = choose|j: int|
                        0 <= j < fin.subtrees@.len() && (#[trigger] fin.subtrees@[j]).0 == q;
                    assert(j != i);
                    fin.lemma_visible_of_at(j);
                    assert(fin.subtrees@[j] == mid[j]);
                    assert(j < entries0.len()) by {
                        if j >= entries0.len() {
                            assert(mid[j].0 == Path::spec_root());
                        }
                    }
                    assert(mid[j] == entries0[j]);
                    old(self).lemma_visible_of_at(j);
                } else {
                    if exists|j: int|
                        0 <= j < entries0.len() && (#[trigger] entries0[j]).0 == q {
                        let j = choose|j: int|
                            0 <= j < entries0.len() && (#[trigger] entries0[j]).0 == q;
                        assert(fin.subtrees@[j].0 == q);
                    }
                    assert(!fin.spec_visible_of(q));
                    assert(!old(self).spec_visible_of(q));
                }
            }
        }
    }

    /// Ensures every subtree from the root down to (but not including)
    /// `path` exists, each holding at least a placeholder node for the
    /// next segment on the way. Must run before a deep insert.
    pub fn populate_subtrees_chain(&mut self, ctx: &crate::path_ctx::PathCtx, path: Path)
        requires
            old(self).wf(),
            ctx.wf(),
            ctx.path_ok(path),
        ensures
            final(self).wf(),
            final(self)@ == spec_populate(old(self)@, *ctx, path),
            final(self)@.dom().contains(path),
    {
        self.ensure_subtree(path);
        let mut cur = path;
        let ghost target = spec_populate(old(self)@, *ctx, path);
        proof {
            assert(spec_populate(self@, *ctx, cur) == target);
        }
        loop
            invariant
                self.wf(),
                ctx.wf(),
                ctx.path_ok(cur),
                self@.dom().contains(cur),
                self@.dom().contains(path),
                spec_populate(self@, *ctx, cur) == target,
            ensures
                self.wf(),
                self@ == target,
                self@.dom().contains(path),
            decreases ctx.path_measure(cur),
        {
            match cur.parent_with_key(ctx) {
                None => {
                    proof {
                        assert(spec_populate(self@, *ctx, cur) == self@);
                    }
                    break ;
                },
                Some((parent, parent_key)) => {
                    proof {
                        crate::path_ctx::lemma_parent_measure(*ctx, cur);
                    }
                    let ghost m_now = self@;
                    let i = self.ensure_subtree(parent);
                    let ghost mid = self.subtrees@;
                    let ghost sub = self@[parent];
                    self.subtrees[i].1.insert_not_exists(
                        parent_key,
                        Node::new_subtree_placeholder(),
                    );
                    proof {
                        lemma_subtree_map_at(mid, i as int);
                        lemma_subtree_map_update(mid, self.subtrees@, i as int);
                        let k = ctx.spec_last_key(cur);
                        let m1 = m_now;
                        let base = if m1.dom().contains(parent) {
                            m1[parent]
                        } else {
                            empty_subtree_view()
                        };
                        assert(sub == base);
                        let sub1 = if base.nodes.dom().contains(k) {
                            base
                        } else {
                            spec_subtree_insert(base, k, placeholder_node_view())
                        };
                        assert(self@ =~= m1.insert(parent, sub1));
                        assert(spec_populate(m_now, *ctx, cur) == spec_populate(
                            self@,
                            *ctx,
                            parent,
                        ));
                        assert(self@.dom().contains(path)) by {
                            assert(m_now.dom().contains(path));
                        }
                    }
                    cur = parent;
                },
            }
        }
    }

    /// Applies one node update: makes sure the chain of subtrees exists,
    /// interns and initialises the linked child subtree for a link
    /// element, and stores the node at its address.
    pub fn insert(
        &mut self,
        ctx: &mut crate::path_ctx::PathCtx,
        path: Path,
        key: Key,
        node: Node,
    )
        requires
            old(self).wf(),
            old(ctx).wf(),
            old(ctx).path_ok(path),
        ensures
            final(self).wf(),
            final(ctx).wf(),
            crate::path_ctx::ctx_extends(*final(ctx), *old(ctx)),
            spec_tree_insert_rel(
                old(self)@,
                final(self)@,
                *old(ctx),
                *final(ctx),
                path,
                key@,
                node@,
            ),
    {
        self.populate_subtrees_chain(ctx, path);
        let ghost m1 = self@;
        let ghost mut cp_ghost = Path::spec_root();
        let is_link = match &node.element {
            Element::Sumtree { .. } | Element::Subtree { .. } => true,
            _ => false,
        };
        if is_link {
            let root_key: Option<Key> = match &node.element {
                Element::Sumtree { root_key: Some(rk), .. } => Some(clone_bytes(rk)),
                Element::Subtree { root_key: Some(rk), .. } => Some(clone_bytes(rk)),
                _ => None,
            };
            let child_path = path.child(ctx, clone_bytes(&key));
            proof {
                cp_ghost = child_path;
            }
            let ci = self.ensure_subtree(child_path);
            let ghost base = self@;
            if let Some(rk) = root_key {
                let ghost mid = self.subtrees@;
                self.subtrees[ci].1.set_root(rk);
                proof {
                    lemma_subtree_map_at(mid, ci as int);
                    lemma_subtree_map_update(mid, self.subtrees@, ci as int);
                }
            }
            proof {
                assert(self@ == spec_tree_insert_finish_mid(m1, node@, child_path)) by {
                    if view_link_root_key(node@.element) is None {
                        assert(self@ == base);
                    }
                }
            }
        }
        let ghost m2 = self@;
        let i = self.ensure_subtree(path);
        let ghost mid = self.subtrees@;
        proof {
            assert(m2.dom().contains(path)) by {
                assert(m1.dom().contains(path));
            }
            assert(self@ == m2);
        }
        let ghost key_v = key@;
        let ghost node_v = node@;
        self.subtrees[i].1.insert(key, node);
        proof {
            lemma_subtree_map_at(mid, i as int);
            lemma_subtree_map_update(mid, self.subtrees@, i as int);
            assert(self@ == m2.insert(path, spec_subtree_insert(m2[path], key_v, node_v)));
            if view_is_link_kind(node_v.element) {
                assert(crate::path_ctx::child_step(*old(ctx), *ctx, path, key_v, cp_ghost));
                assert(self@ == spec_tree_insert_finish(m1, path, key_v, node_v, Some(cp_ghost)));
            } else {
                assert(*ctx == *old(ctx));
                assert(self@ == spec_tree_insert_finish(m1, path, key_v, node_v, None));
            }
        }
    }

    /// Whether the subtree at `p` is currently shown; an address with
    /// no subtree is never shown.
    pub closed spec fn spec_visible_of(&self, p: Path) -> bool {
        let s = self.subtrees@;
        if exists|i: int| 0 <= i < s.len() && (#[trigger] s[i]).0 == p {
            let i = choose|i: int| 0 <= i < s.len() && (#[trigger] s[i]).0 == p;
            s[i].1.spec_visible()
        } else {
            false
        }
    }

    /// The entry holding an address is the witness for its visibility.
    proof fn lemma_visible_of_at(&self, i: int)
        requires
            subtree_keys_unique(self.subtrees@),
            0 <= i < self.subtrees@.len(),
        ensures
            self.spec_visible_of(self.subtrees@[i].0) == self.subtrees@[i].1.spec_visible(),
    {
        let s = self.subtrees@;
        let p = s[i].0;
        assert(exists|j: int| 0 <= j < s.len() && (#[trigger] s[j]).0 == p) by {
            assert(s[i].0 == p);
        }
        let j = choose|j: int| 0 <= j < s.len() && (#[trigger] s[j]).0 == p;
        assert(j == i);
    }

    /// After one entry's subtree changed only its visibility flag, the
    /// tree is as well formed and denotes the same state.
    proof fn lemma_visibility_only_update(&self, pre: Seq<(Path, Subtree)>, i: int)
        requires
            subtree_keys_unique(pre),
            forall|j: int| 0 <= j < pre.len() ==> (#[trigger] pre[j]).1.wf(),
            0 <= i < pre.len(),
            self.subtrees@.len() == pre.len(),
            self.subtrees@[i].0 == pre[i].0,
            self.subtrees@[i].1.wf(),
            self.subtrees@[i].1@ == pre[i].1@,
            forall|j: int| 0 <= j < pre.len() && j != i ==> self.subtrees@[j] == pre[j],
        ensures
            self.wf(),
            self@ == subtree_map(pre),
    {
        lemma_subtree_map_update(pre, self.subtrees@, i);
        lemma_subtree_map_at(pre, i);
        assert(self@ =~= subtree_map(pre));
        assert forall|j: int|
            0 <= j < self.subtrees@.len() implies (#[trigger] self.subtrees@[j]).1.wf() by {
            if j != i {
                assert(self.subtrees@[j] == pre[j]);
            }
        }
    }

    /// Shows or hides the subtree at `path`. Hiding cascades: every
    /// subtree strictly below the address is hidden with it, so a
    /// collapsed branch never leaves stale visible descendants. Showing
    /// touches only the one subtree. The model state itself is
    /// untouched.
    #[verifier::loop_isolation(false)]
    pub fn set_subtree_visible(
        &mut self,
        ctx: &crate::path_ctx::PathCtx,
        path: Path,
        visible: bool,
    )
        requires
            old(self).wf(),
            ctx.wf(),
        ensures
            final(self).wf(),
            final(self)@ == old(self)@,
            old(self)@.dom().contains(path) ==> final(self).spec_visible_of(path) == visible,
            !visible ==> forall|q: Path|
                ctx.path_ok(q) && #[trigger] q.spec_is_strict_descendant_of(*ctx, path)
                    ==> !final(self).spec_visible_of(q),
            forall|q: Path|
                !(q == path) && !(ctx.path_ok(q) && q.spec_is_strict_descendant_of(*ctx, path))
                    ==> #[trigger] final(self).spec_visible_of(q) == old(self).spec_visible_of(q),
    {
        let ghost old_entries = self.subtrees@;
        match self.find_idx(&path) {
            Some(i) => {
                self.subtrees[i].1.set_visible(visible);
                proof {
                    self.lemma_visibility_only_update(old_entries, i as int);
                }
            },
            None => {},
        }
        let ghost mid = *self;
        proof {
            assert(forall|j: int|
                0 <= j < old_entries.len() ==> (#[trigger] mid.subtrees@[j]).0
                    == old_entries[j].0);
            assert(forall|j: int|
                0 <= j < old_entries.len() && old_entries[j].0 != path
                    ==> #[trigger] mid.subtrees@[j] == old_entries[j]);
            assert(forall|j: int|
                0 <= j < old_entries.len() && old_entries[j].0 == path
                    ==> (#[trigger] mid.subtrees@[j]).1.spec_visible() == visible);
        }
        if !visible {
            let n = self.subtrees.len();
            let mut k: usize = 0;
            while k < n
                invariant
                    self.wf(),
                    n == self.subtrees@.len(),
                    k <= n,
                    self@ == mid@,
                    forall|j: int| 0 <= j < n ==> (#[trigger] self.subtrees@[j]).0
                        == mid.subtrees@[j].0,
                    forall|j: int| 0 <= j < n ==> (#[trigger] self.subtrees@[j]).1@
                        == mid.subtrees@[j].1@,
                    forall|j: int|
                        0 <= j < k && ctx.path_ok((#[trigger] self.subtrees@[j]).0)
                            && self.subtrees@[j].0.spec_is_strict_descendant_of(*ctx, path)
                            ==> !self.subtrees@[j].1.spec_visible(),
                    forall|j: int|
                        0 <= j < n && (j >= k || !(ctx.path_ok(self.subtrees@[j].0)
                            && self.subtrees@[j].0.spec_is_strict_descendant_of(*ctx, path)))
                            ==> (#[trigger] self.subtrees@[j]).1.spec_visible()
                            == mid.subtrees@[j].1.spec_visible(),
                decreases n - k,
            {
                let ghost step_pre = self.subtrees@;
                let q = self.subtrees[k].0;
                if ctx.check_path_ok(&q) && q.is_strict_descendant_of(ctx, path) {
                    self.subtrees[k].1.set_visible(false);
                    proof {
                        self.lemma_visibility_only_update(step_pre, k as int);
                    }
                }
                k += 1;
            }
        }
        proof {
            let fin = *self;
            // The target subtree, if present, shows the requested flag:
            // hiding never re-raises it and the address is not its own
            // strict descendant.
            if old(self)@.dom().contains(path) {
                let i = choose|i: int|
                    0 <= i < old_entries.len() && (#[trigger] old_entries[i]).0 == path;
                assert(mid.subtrees@[i].1.spec_visible() == visible);
                if !visible {
                    assert(fin.subtrees@[i].1.spec_visible() == false);
                } else {
                    assert(fin.subtrees@[i].1.spec_visible() == visible);
                }
                fin.lemma_visible_of_at(i);
            }
            // Hidden branches: any entry at a strict descendant was
            // visited by the cascade.
            if !visible {
                assert forall|q: Path|
                    ctx.path_ok(q) && #[trigger] q.spec_is_strict_descendant_of(
                        *ctx,
                        path,
                    ) implies !fin.spec_visible_of(q) by {
                    if exists|j: int|
                        0 <= j < fin.subtrees@.len() && (#[trigger] fin.subtrees@[j]).0 == q {
                        let j = choose|j: int|
                            0 <= j < fin.subtrees@.len() && (#[trigger] fin.subtrees@[j]).0 == q;
                        fin.lemma_visible_of_at(j);
                    }
                }
            }
            // Everything else keeps its old visibility.
            assert forall|q: Path|
                !(q == path) && !(ctx.path_ok(q) && q.spec_is_strict_descendant_of(
                    *ctx,
                    path,
                )) implies #[trigger] fin.spec_visible_of(q) == old(self).spec_visible_of(q) by {
                if exists|j: int|
                    0 <= j < fin.subtrees@.len() && (#[trigger] fin.subtrees@[j]).0 == q {
                    let j = choose|j: int|
                        0 <= j < fin.subtrees@.len() && (#[trigger] fin.subtrees@[j]).0 == q;
                    fin.lemma_visible_of_at(j);
                    old(self).lemma_visible_of_at(j);
                    assert(old_entries[j].0 == q);
                    assert(old_entries[j].0 != path);
                    assert(mid.subtrees@[j] == old_entries[j]);
                    assert(fin.subtrees@[j].1.spec_visible() == mid.subtrees@[j].1.spec_visible());
                } else {
                    if exists|j: int|
                        0 <= j < old_entries.len() && (#[trigger] old_entries[j]).0 == q {
                        let j = choose|j: int|
                            0 <= j < old_entries.len() && (#[trigger] old_entries[j]).0 == q;
                        assert(fin.subtrees@[j].0 == q);
                    }
                    assert(!fin.spec_visible_of(q));
                    assert(!old(self).spec_visible_of(q));
                }
            }
        }
    }

    /// Removes the node at `(path, key)`, repairing the subtree's
    /// bookkeeping; a no-op when the subtree does not exist.
    pub fn remove(&mut self, path: &Path, key: &[u8])
        requires
            old(self).wf(),
        ensures
            final(self).wf(),
            final(self)@ == if old(self)@.dom().contains(*path) {
                old(self)@.insert(*path, spec_subtree_remove(old(self)@[*path], key@))
            } else {
                old(self)@
            },
    {
        match self.find_idx(path) {
            Some(i) => {
                let ghost mid = self.subtrees@;
                proof {
                    lemma_subtree_map_at(mid, i as int);
                }
                self.subtrees[i].1.remove(key);
                proof {
                    lemma_subtree_map_update(mid, self.subtrees@, i as int);
                }
            },
            None => {},
        }
    }

    /// Drops every node of the subtree at `path`, leaving its root key
    /// and bookkeeping as they were: the deliberate coarse "unload
    /// everything here" action. No other subtree is touched.
    pub fn clear_subtree(&mut self, path: &Path)
        requires
            old(self).wf(),
        ensures
            final(self).wf(),
            final(self)@ == if old(self)@.dom().contains(*path) {
                old(self)@.insert(
                    *path,
                    (SubtreeView { nodes: Map::empty(), ..old(self)@[*path] }),
                )
            } else {
                old(self)@
            },
    {
        match self.find_idx(path) {
            Some(i) => {
                let ghost mid = self.subtrees@;
                proof {
                    lemma_subtree_map_at(mid, i as int);
                }
                self.subtrees[i].1.clear_nodes();
                proof {
                    lemma_subtree_map_update(mid, self.subtrees@, i as int);
                }
            },
            None => {},
        }
    }
}

/// The state between interning the child subtree and storing the node,
/// for a link element: the child subtree exists and knows its root.
pub open spec fn spec_tree_insert_finish_mid(
    m1: Map<Path, SubtreeView>,
    node: NodeView,
    cp: Path,
) -> Map<Path, SubtreeView> {
    let base = if m1.dom().contains(cp) {
        m1
    } else {
        m1.insert(cp, empty_subtree_view())
    };
    match view_link_root_key(node.element) {
        Some(rk) => base.insert(cp, spec_subtree_set_root(base[cp], rk)),
        None => base,
    }
}

/// Equality of optional byte strings, stated over the views.
pub fn opt_bytes_eq(a: &Option<Vec<u8>>, b: &Option<Vec<u8>>) -> (r: bool)
    ensures
        r == (opt_bytes_view(*a) == opt_bytes_view(*b)),
{
    match (a, b) {
        (None, None) => true,
        (Some(x), Some(y)) => bytes_eq(x, y),
        _ => false,
    }
}

/// Equality of elements, stated over the views.
pub fn element_eq(a: &Element, b: &Element) -> (r: bool)
    ensures
        r == (a@ == b@),
{
    match (a, b) {
        (
            Element::Item { value: v1, element_flags: f1 },
            Element::Item { value: v2, element_flags: f2 },
        ) => bytes_eq(v1, v2) && opt_bytes_eq(f1, f2),
        (
            Element::SumItem { value: v1, element_flags: f1 },
            Element::SumItem { value: v2, element_flags: f2 },
        ) => *v1 == *v2 && opt_bytes_eq(f1, f2),
        (
            Element::Reference { path: p1, key: k1, element_flags: f1 },
            Element::Reference { path: p2, key: k2, element_flags: f2 },
        ) => *p1 == *p2 && bytes_eq(k1, k2) && opt_bytes_eq(f1, f2),
        (
            Element::Sumtree { root_key: r1, sum: s1, element_flags: f1 },
            Element::Sumtree { root_key: r2, sum: s2, element_flags: f2 },
        ) => opt_bytes_eq(r1, r2) && *s1 == *s2 && opt_bytes_eq(f1, f2),
        (
            Element::Subtree { root_key: r1, element_flags: f1 },
            Element::Subtree { root_key: r2, element_flags: f2 },
        ) => opt_bytes_eq(r1, r2) && opt_bytes_eq(f1, f2),
        (Element::SubtreePlaceholder, Element::SubtreePlaceholder) => true,
        _ => false,
    }
}

/// Equality of nodes, stated over the views.
pub fn node_eq(a: &Node, b: &Node) -> (r: bool)
    ensures
        r == (a@ == b@),
{
    let feature_eq = match (a.feature_type, b.feature_type) {
        (None, None) => true,
        (Some(x), Some(y)) => x == y,
        _ => false,
    };
    element_eq(&a.element, &b.element) && opt_bytes_eq(&a.left_child, &b.left_child) && opt_bytes_eq(
        &a.right_child,
        &b.right_child,
    ) && feature_eq && opt_bytes_eq(&a.value_hash, &b.value_hash) && opt_bytes_eq(
        &a.kv_digest_hash,
        &b.kv_digest_hash,
    )
}

/// Every entry of `a` appears in `other` with an equal node.
fn nodes_submap(a: &Vec<(Key, Node)>, other: &Subtree) -> (r: bool)
    requires
        entry_keys_unique(a@),
        other.wf(),
    ensures
        r == forall|k: Seq<u8>| #[trigger]
            nodes_map(a@).dom().contains(k) ==> other@.nodes.dom().contains(k) && nodes_map(a@)[k]
                == other@.nodes[k],
{
    let n = a.len();
    let mut i: usize = 0;
    while i < n
        invariant
            entry_keys_unique(a@),
            other.wf(),
            n == a@.len(),
            i <= n,
            forall|j: int|
                0 <= j < i ==> other@.nodes.dom().contains(#[trigger] a@[j].0@) && other@.nodes[a@[j].0@]
                    == a@[j].1@,
        decreases n - i,
    {
        proof {
            lemma_nodes_map_at(a@, i as int);
        }
        match other.get_node(a[i].0.as_slice()) {
            Some(node) => {
                if !node_eq(&a[i].1, node) {
                    proof {
                        assert(nodes_map(a@).dom().contains(a@[i as int].0@));
                    }
                    return false;
                }
            },
            None => {
                proof {
                    assert(nodes_map(a@).dom().contains(a@[i as int].0@));
                }
                return false;
            },
        }
        i += 1;
    }
    proof {
        assert forall|k: Seq<u8>| #[trigger]
            nodes_map(a@).dom().contains(k) implies other@.nodes.dom().contains(k) && nodes_map(
            a@,
        )[k] == other@.nodes[k] by {
            let j = choose|j: int| 0 <= j < a@.len() && a@[j].0@ == k;
            lemma_nodes_map_at(a@, j);
        }
    }
    true
}

/// Every key of `a` is in the set `b` stands for.
fn keys_subset(a: &Vec<Key>, b: &Vec<Key>) -> (r: bool)
    ensures
        r == key_set(a@).subset_of(key_set(b@)),
{
    let n = a.len();
    let mut i: usize = 0;
    while i < n
        invariant
            n == a@.len(),
            i <= n,
            forall|j: int| 0 <= j < i ==> key_set(b@).contains(#[trigger] a@[j]@),
        decreases n - i,
    {
        if !key_vec_contains(b, a[i].as_slice()) {
            proof {
                assert(key_set(a@).contains(a@[i as int]@));
            }
            return false;
        }
        i += 1;
    }
    proof {
        assert forall|k: Seq<u8>| #[trigger] key_set(a@).contains(k) implies key_set(b@).contains(
            k,
        ) by {
            let j = choose|j: int| 0 <= j < a@.len() && a@[j]@ == k;
        }
    }
    true
}

impl Subtree {
    /// Whether two subtrees hold the very same state: root, nodes and
    /// bookkeeping alike.
    pub fn state_eq(&self, other: &Subtree) -> (r: bool)
        requires
            self.wf(),
            other.wf(),
        ensures
            r == (self@ == other@),
    {
        let root_eq = match (&self.root_node, &other.root_node) {
            (None, None) => true,
            (Some(x), Some(y)) => bytes_eq(x, y),
            _ => false,
        };
        let r = root_eq && nodes_submap(&self.nodes, other) && nodes_submap(&other.nodes, self)
            && keys_subset(&self.cluster_roots, &other.cluster_roots) && keys_subset(
            &other.cluster_roots,
            &self.cluster_roots,
        ) && keys_subset(&self.waitlist, &other.waitlist) && keys_subset(
            &other.waitlist,
            &self.waitlist,
        );
        proof {
            if r {
                assert(self@.nodes =~= other@.nodes) by {
                    assert forall|k: Seq<u8>| #[trigger]
                        other@.nodes.dom().contains(k) implies self@.nodes.dom().contains(k)
                        && self@.nodes[k] == other@.nodes[k] by {
                        assert(nodes_map(other.nodes@).dom().contains(k));
                    }
                }
                assert(self@.cluster_roots =~= other@.cluster_roots);
                assert(self@.waitlist =~= other@.waitlist);
                assert(self@ =~= other@);
            } else {
                if self@ == other@ {
                    assert(root_eq);
                    assert(forall|k: Seq<u8>| #[trigger]
                        nodes_map(self.nodes@).dom().contains(k)
                            ==> other@.nodes.dom().contains(k) && nodes_map(self.nodes@)[k]
                            == other@.nodes[k]);
                    assert(forall|k: Seq<u8>| #[trigger]
                        nodes_map(other.nodes@).dom().contains(k) ==> self@.nodes.dom().contains(k)
                            && nodes_map(other.nodes@)[k] == self@.nodes[k]);
                    assert(false);
                }
            }
        }
        r
    }
}

/// The bookkeeping invariant: no key is both a cluster root and
/// awaited, and no awaited key is already fetched.
pub open spec fn spec_bookkeeping_ok(s: SubtreeView) -> bool {
    &&& forall|k: Seq<u8>| #[trigger] s.cluster_roots.contains(k) ==> !s.waitlist.contains(k)
    &&& forall|k: Seq<u8>| #[trigger] s.waitlist.contains(k) ==> !s.nodes.dom().contains(k)
}

/// A subtree that has seen nothing yet keeps the bookkeeping invariant.
pub proof fn lemma_empty_bookkeeping_ok()
    ensures
        spec_bookkeeping_ok(empty_subtree_view()),
{
}

/// Recording the root keeps the bookkeeping invariant.
pub proof fn lemma_set_root_preserves_bookkeeping(s: SubtreeView, root: Seq<u8>)
    requires
        spec_bookkeeping_ok(s),
    ensures
        spec_bookkeeping_ok(spec_subtree_set_root(s, root)),
{
}

/// Dropping all nodes keeps the bookkeeping invariant: nothing fetched
/// can clash with the waitlist any more.
pub proof fn lemma_clear_preserves_bookkeeping(s: SubtreeView)
    requires
        spec_bookkeeping_ok(s),
    ensures
        spec_bookkeeping_ok((SubtreeView { nodes: Map::empty(), ..s })),
{
}

/// Removing any key keeps the bookkeeping invariant.
pub proof fn lemma_remove_preserves_bookkeeping(s: SubtreeView, key: Seq<u8>)
    requires
        spec_bookkeeping_ok(s),
    ensures
        spec_bookkeeping_ok(spec_subtree_remove(s, key)),
{
    if s.nodes.dom().contains(key) {
        let post = spec_subtree_remove(s, key);
        let node = s.nodes[key];
        let nodes1 = s.nodes.remove(key);
        assert forall|k: Seq<u8>| #[trigger] post.cluster_roots.contains(k) implies
            !post.waitlist.contains(k) by {
            if s.cluster_roots.contains(k) {
                assert(!s.waitlist.contains(k));
            } else {
                // k is a freshly adopted child: it is fetched, so it was
                // never awaited, and it is not the removed key.
                assert(nodes1.dom().contains(k));
                assert(!s.waitlist.contains(k));
                assert(k != key);
            }
        }
        assert forall|k: Seq<u8>| #[trigger] post.waitlist.contains(k) implies
            !post.nodes.dom().contains(k) by {
            if k == key {
                assert(!nodes1.dom().contains(k));
            } else {
                assert(s.waitlist.contains(k));
            }
        }
    }
}

/// Inserting a node that does not claim itself as its own child keeps
/// the bookkeeping invariant.
pub proof fn lemma_insert_preserves_bookkeeping(s: SubtreeView, key: Seq<u8>, node: NodeView)
    requires
        spec_bookkeeping_ok(s),
        node.left_child != Some(key),
        node.right_child != Some(key),
    ensures
        spec_bookkeeping_ok(spec_subtree_insert(s, key, node)),
{
    lemma_remove_preserves_bookkeeping(s, key);
    let s1 = spec_subtree_remove(s, key);
    let post = spec_subtree_insert(s, key, node);
    let in_wait = s1.waitlist.contains(key);
    let w2 = if in_wait {
        s1.waitlist.remove(key)
    } else {
        s1.waitlist
    };
    let c2 = if !in_wait && s1.root_node != Some(key) {
        s1.cluster_roots.insert(key)
    } else {
        s1.cluster_roots
    };
    assert forall|k: Seq<u8>| #[trigger] post.cluster_roots.contains(k) implies
        !post.waitlist.contains(k) by {
        assert(c2.contains(k));
        if k == key {
            assert(!w2.contains(key));
        } else {
            assert(s1.cluster_roots.contains(k) || k == key);
            assert(!s1.waitlist.contains(k));
        }
    }
    assert forall|k: Seq<u8>| #[trigger] post.waitlist.contains(k) implies
        !post.nodes.dom().contains(k) by {
        if w2.contains(k) {
            assert(s1.waitlist.contains(k));
            assert(!s1.nodes.dom().contains(k));
            assert(k != key);
        } else {
            // k is a missing claimed child; it is not the inserted key.
            assert(!s1.nodes.dom().contains(k));
            assert(k != key);
        }
    }
}

/// Removing a fetched node and reinserting the very same node restores
/// the whole subtree state, bookkeeping included, provided the node does
/// not claim itself, each claimed child is fetched or awaited, and no
/// claimed child is a cluster root — all of which hold of a node that
/// was inserted by [`Subtree::insert`] and not disturbed since.
pub proof fn lemma_remove_reinsert_round_trip(s: SubtreeView, key: Seq<u8>, node: NodeView)
    requires
        spec_bookkeeping_ok(s),
        s.nodes.dom().contains(key),
        s.nodes[key] == node,
        node.left_child != Some(key),
        node.right_child != Some(key),
        match node.left_child {
            Some(c) => (s.nodes.dom().contains(c) || s.waitlist.contains(c))
                && !s.cluster_roots.contains(c),
            None => true,
        },
        match node.right_child {
            Some(c) => (s.nodes.dom().contains(c) || s.waitlist.contains(c))
                && !s.cluster_roots.contains(c),
            None => true,
        },
    ensures
        spec_subtree_insert(spec_subtree_remove(s, key), key, node) == s,
{
    let s1 = spec_subtree_remove(s, key);
    let post = spec_subtree_insert(s1, key, node);
    let nodes1 = s.nodes.remove(key);
    // The key itself was never awaited, being fetched.
    assert(!s.waitlist.contains(key));
    let w1 = set_remove_opt(set_remove_opt(s.waitlist, node.left_child), node.right_child);
    let c1 = cluster_adopt_present(
        cluster_adopt_present(s.cluster_roots, node.left_child, nodes1),
        node.right_child,
        nodes1,
    );
    assert(spec_subtree_remove(s1, key) == s1);
    assert(post.root_node == s.root_node);
    assert(post.nodes =~= s.nodes);
    // Cluster roots: the children adopted by the removal are un-adopted
    // by the reinsertion, and the key's own status is re-derived the
    // same way it was.
    assert(post.cluster_roots =~= s.cluster_roots) by {
        assert forall|k: Seq<u8>| #[trigger] post.cluster_roots.contains(k) implies
            s.cluster_roots.contains(k) by {
            assert(node.left_child != Some(k) && node.right_child != Some(k));
            if k == key {
                assert(s1.waitlist.contains(key) || s.cluster_roots.contains(key));
            } else {
                assert(c1.contains(k));
            }
        }
        assert forall|k: Seq<u8>| #[trigger] s.cluster_roots.contains(k) implies
            post.cluster_roots.contains(k) by {
            assert(node.left_child != Some(k) && node.right_child != Some(k));
            assert(c1.contains(k));
            if k == key {
                assert(!s1.waitlist.contains(key));
            }
        }
    }
    // Waitlist: children taken off the waitlist by the removal go back
    // on it, and the key's own waitlist entry is taken back off.
    assert(post.waitlist =~= s.waitlist) by {
        assert forall|k: Seq<u8>| #[trigger] post.waitlist.contains(k) implies s.waitlist.contains(
            k,
        ) by {
            if node.left_child == Some(k) || node.right_child == Some(k) {
                if !s1.nodes.dom().contains(k) {
                    assert(s.nodes.dom().contains(k) || s.waitlist.contains(k));
                    assert(k != key);
                    assert(!nodes1.dom().contains(k));
                }
            } else {
                assert(w1.contains(k) || k == key);
                assert(k != key);
            }
        }
        assert forall|k: Seq<u8>| #[trigger] s.waitlist.contains(k) implies post.waitlist.contains(
            k,
        ) by {
            assert(k != key);
            assert(!s.nodes.dom().contains(k));
            if node.left_child == Some(k) || node.right_child == Some(k) {
                assert(!nodes1.dom().contains(k));
                assert(!s1.nodes.dom().contains(k));
            } else {
                assert(w1.contains(k));
                assert(s1.waitlist.contains(k));
                assert(!(s1.waitlist.contains(key) && k == key));
            }
        }
    }
    assert(post =~= s);
}

/// Inserting the same key and node twice leaves exactly the state one
/// insertion leaves: nodes, cluster roots and waitlist alike. This
/// holds for every node, a node claiming its own key included.
pub proof fn lemma_insert_idempotent(s: SubtreeView, key: Seq<u8>, node: NodeView)
    requires
        spec_bookkeeping_ok(s),
    ensures
        spec_subtree_insert(spec_subtree_insert(s, key, node), key, node) == spec_subtree_insert(
            s,
            key,
            node,
        ),
{
    lemma_remove_preserves_bookkeeping(s, key);
    let srem0 = spec_subtree_remove(s, key);
    let n1 = srem0.nodes;
    assert(!n1.dom().contains(key));
    let s1 = spec_subtree_insert(s, key, node);
    assert(s1.nodes.dom().contains(key) && s1.nodes[key] == node);
    let s1r = spec_subtree_remove(s1, key);
    let n2 = s1.nodes.remove(key);
    assert(n2 == n1) by {
        assert(n2 =~= n1);
    }
    let s2 = spec_subtree_insert(s1, key, node);
    assert(s2.nodes == s1.nodes) by {
        assert(s2.nodes =~= s1.nodes);
    }
    assert(s2.root_node == s1.root_node);
    // The second removal's intermediate states, named for the case
    // analysis below.
    let w1p = set_remove_opt(set_remove_opt(s1.waitlist, node.left_child), node.right_child);
    let c1p = cluster_adopt_present(
        cluster_adopt_present(s1.cluster_roots, node.left_child, n2),
        node.right_child,
        n2,
    );
    let self_claim = node.left_child == Some(key) || node.right_child == Some(key);
    // The first insertion never leaves the key a cluster root when the
    // node claims itself, and never leaves it awaited otherwise.
    if self_claim {
        assert(!s1.cluster_roots.contains(key));
        assert(s1.waitlist.contains(key));
    } else {
        assert(!s1.waitlist.contains(key));
    }
    assert(s2.waitlist == s1.waitlist) by {
        assert forall|k2: Seq<u8>| #[trigger] s2.waitlist.contains(k2) == s1.waitlist.contains(
            k2,
        ) by {
            if k2 == key {
                assert(!c1p.contains(key) == !s1.cluster_roots.contains(key));
            } else if node.left_child == Some(k2) || node.right_child == Some(k2) {
                if n1.dom().contains(k2) {
                    assert(!srem0.waitlist.contains(k2));
                }
            }
        }
        assert(s2.waitlist =~= s1.waitlist);
    }
    assert(s2.cluster_roots == s1.cluster_roots) by {
        assert forall|k2: Seq<u8>| #[trigger] s2.cluster_roots.contains(k2)
            == s1.cluster_roots.contains(k2) by {
            if k2 == key {
                assert(!c1p.contains(key) ==> !s1.cluster_roots.contains(key));
            }
        }
        assert(s2.cluster_roots =~= s1.cluster_roots);
    }
    assert(s2 =~= s1);
}

} // verus!
