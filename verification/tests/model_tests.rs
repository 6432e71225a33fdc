//! The subtree and tree reconciliation model under out-of-order
//! insertion, removal and chain population.

use grovedbg::model::Element;
use grovedbg::model::Node;
use grovedbg::model::Subtree;
use grovedbg::model::Tree;
use grovedbg::path_ctx::PathCtx;

fn sample_tree() -> Subtree {
    // root
    // ├── right1
    // │   ├── right2
    // │   └── left2
    // │       ├── right4
    // │       └── left4
    // └── left1
    //     └── right3

    let mut subtree = Subtree::new_root(b"root".to_vec());

    subtree.insert(
        b"root".to_vec(),
        Node::new_item(b"root_value".to_vec())
            .with_left_child(b"left1".to_vec())
            .with_right_child(b"right1".to_vec()),
    );
    subtree.insert(
        b"right1".to_vec(),
        Node::new_item(b"right1_value".to_vec())
            .with_left_child(b"left2".to_vec())
            .with_right_child(b"right2".to_vec()),
    );
    subtree.insert(
        b"left1".to_vec(),
        Node::new_item(b"left1_value".to_vec()).with_right_child(b"right3".to_vec()),
    );
    subtree.insert(b"right2".to_vec(), Node::new_item(b"right2_value".to_vec()));
    subtree.insert(
        b"left2".to_vec(),
        Node::new_item(b"left2_value".to_vec())
            .with_left_child(b"left4".to_vec())
            .with_right_child(b"right4".to_vec()),
    );
    subtree.insert(b"right3".to_vec(), Node::new_item(b"right3_value".to_vec()));
    subtree.insert(b"right4".to_vec(), Node::new_item(b"right4_value".to_vec()));
    subtree.insert(b"left4".to_vec(), Node::new_item(b"right4_value".to_vec()));

    subtree
}

#[test]
fn simple_sequential_insertion_subtree() {
    let subtree = sample_tree();

    assert!(subtree.waitlist_len() == 0);
    assert!(subtree.cluster_roots_len() == 0);
}

#[test]
fn subtree_node_leaf_removal() {
    let mut subtree = sample_tree();

    // "Unloading" a node from a subtree, meaning it will be missed.
    subtree.remove(b"left4");

    assert!(subtree.get_node(b"left4").is_none());
    assert_eq!(subtree.waitlist_len(), 1);
    assert!(subtree.waitlist_contains(b"left4"));
    assert!(subtree.cluster_roots_len() == 0);
}

#[test]
fn subtree_node_leaf_complete_removal() {
    let mut subtree = sample_tree();

    subtree.remove(b"left4");
    let mut old_parent = subtree.get_node(b"left2").unwrap().clone();
    old_parent.left_child = None;
    subtree.insert(b"left2".to_vec(), old_parent);

    assert!(subtree.get_node(b"left4").is_none());
    assert!(subtree.waitlist_len() == 0);
    assert!(subtree.cluster_roots_len() == 0);
}

#[test]
fn subtree_mid_node_delete_creates_clusters() {
    let mut subtree = sample_tree();

    // Deleting a node in the middle of a subtree shall create clusters.
    subtree.remove(b"right1");

    assert!(subtree.get_node(b"right1").is_none());
    assert_eq!(subtree.waitlist_len(), 1);
    assert!(subtree.waitlist_contains(b"right1"));
    assert_eq!(subtree.cluster_roots_len(), 2);
    assert!(subtree.cluster_roots_contains(b"right2"));
    assert!(subtree.cluster_roots_contains(b"left2"));

    // Adding (fetching) it back shall return the subtree to its
    // original state.
    subtree.insert(
        b"right1".to_vec(),
        Node::new_item(b"right1_value".to_vec())
            .with_left_child(b"left2".to_vec())
            .with_right_child(b"right2".to_vec()),
    );

    assert!(subtree.state_eq(&sample_tree()));
}

#[test]
fn model_populate_subtrees_chain() {
    let mut path_ctx = PathCtx::new();
    let mut model = Tree::new();
    assert!(model.get_subtree(&path_ctx.get_root()).is_none());

    let deep = path_ctx.add_iter(&[b"1".to_vec(), b"2".to_vec(), b"3".to_vec(), b"4".to_vec()]);
    model.populate_subtrees_chain(&path_ctx, deep);

    let root_subtree = model.get_subtree(&path_ctx.get_root()).unwrap();
    assert_eq!(root_subtree.n_nodes(), 1);
    assert!(matches!(
        root_subtree.get_node(b"1").unwrap().element,
        Element::SubtreePlaceholder
    ));

    let one = path_ctx.add_iter(&[b"1".to_vec()]);
    let one_subtree = model.get_subtree(&one).unwrap();
    assert_eq!(one_subtree.n_nodes(), 1);
    assert!(matches!(
        one_subtree.get_node(b"2").unwrap().element,
        Element::SubtreePlaceholder
    ));

    let deep_again =
        path_ctx.add_iter(&[b"1".to_vec(), b"2".to_vec(), b"3".to_vec(), b"4".to_vec()]);
    assert!(model.get_subtree(&deep_again).unwrap().is_empty());
}

#[test]
fn model_insert_nested_sumtree_node_at_empty() {
    // Simulating the case when the first update is actually not the
    // store's root.
    let mut path_ctx = PathCtx::new();
    let mut model = Tree::new();

    // Insert two deeply nested nodes that share no path segment except
    // the root...
    let hello_world = path_ctx.add_iter(&[b"hello".to_vec(), b"world".to_vec()]);
    model.insert(
        &mut path_ctx,
        hello_world,
        b"sumtree".to_vec(),
        Node::new_sumtree(Some(b"yeet".to_vec()), 0),
    );

    let top_kek = path_ctx.add_iter(&[b"top".to_vec(), b"kek".to_vec()]);
    model.insert(
        &mut path_ctx,
        top_kek,
        b"subtree".to_vec(),
        Node::new_subtree(Some(b"swag".to_vec())),
    );

    // ...which means the root subtree has two subtree placeholder
    // nodes, both cluster roots because no connections are known yet.
    assert_eq!(
        model
            .get_subtree(&path_ctx.get_root())
            .unwrap()
            .cluster_roots_len(),
        2
    );

    // Adding a node for the root subtree that has the aforementioned
    // placeholder nodes as its left and right children...
    let root = path_ctx.get_root();
    model.insert(
        &mut path_ctx,
        root,
        b"very_root".to_vec(),
        Node::new_item(b"very_root_value".to_vec())
            .with_left_child(b"hello".to_vec())
            .with_right_child(b"top".to_vec()),
    );

    // ...and setting it as the root, so it is no longer a cluster but a
    // proper tree root.
    model.set_root(&path_ctx, b"very_root".to_vec());

    assert_eq!(
        model
            .get_subtree(&path_ctx.get_root())
            .unwrap()
            .cluster_roots_len(),
        0
    );
}

#[test]
fn out_of_order_arrival_fills_waitlist() {
    let mut subtree = Subtree::new_root(b"root".to_vec());

    subtree.insert(
        b"root".to_vec(),
        Node::new_item(b"root_value".to_vec())
            .with_left_child(b"L".to_vec())
            .with_right_child(b"R".to_vec()),
    );
    assert_eq!(subtree.waitlist_len(), 2);
    assert!(subtree.waitlist_contains(b"L"));
    assert!(subtree.waitlist_contains(b"R"));

    subtree.insert(b"L".to_vec(), Node::new_item(b"l_value".to_vec()));
    assert_eq!(subtree.waitlist_len(), 1);
    assert!(subtree.waitlist_contains(b"R"));
    assert!(subtree.get_node(b"L").is_some());

    subtree.insert(b"R".to_vec(), Node::new_item(b"r_value".to_vec()));
    assert!(subtree.waitlist_len() == 0);
}

#[test]
fn insert_twice_is_idempotent() {
    let mut once = Subtree::new_root(b"root".to_vec());
    once.insert(
        b"root".to_vec(),
        Node::new_item(b"v".to_vec()).with_left_child(b"a".to_vec()),
    );
    once.insert(b"a".to_vec(), Node::new_item(b"w".to_vec()));

    let mut twice = Subtree::new_root(b"root".to_vec());
    twice.insert(
        b"root".to_vec(),
        Node::new_item(b"v".to_vec()).with_left_child(b"a".to_vec()),
    );
    twice.insert(b"a".to_vec(), Node::new_item(b"w".to_vec()));
    twice.insert(b"a".to_vec(), Node::new_item(b"w".to_vec()));

    assert!(twice.state_eq(&once));
}

#[test]
fn bookkeeping_stays_disjoint() {
    let mut subtree = sample_tree();
    subtree.remove(b"right1");
    subtree.remove(b"left2");
    subtree.insert(
        b"extra".to_vec(),
        Node::new_item(b"x".to_vec()).with_left_child(b"missing".to_vec()),
    );

    for key in [
        b"root".as_slice(),
        b"left1".as_slice(),
        b"left2".as_slice(),
        b"right1".as_slice(),
        b"right2".as_slice(),
        b"left4".as_slice(),
        b"right4".as_slice(),
        b"extra".as_slice(),
        b"missing".as_slice(),
    ] {
        assert!(!(subtree.cluster_roots_contains(key) && subtree.waitlist_contains(key)));
        assert!(!(subtree.waitlist_contains(key) && subtree.get_node(key).is_some()));
    }

    for key in subtree.cluster_root_keys() {
        assert!(subtree.cluster_roots_contains(&key));
        assert!(!subtree.waitlist_contains(&key));
    }
}

#[test]
fn subtree_link_sets_child_root() {
    let mut path_ctx = PathCtx::new();
    let mut model = Tree::new();

    let root = path_ctx.get_root();
    model.insert(
        &mut path_ctx,
        root,
        b"docs".to_vec(),
        Node::new_subtree(Some(b"docs_root".to_vec())),
    );

    let docs = path_ctx.add_iter(&[b"docs".to_vec()]);
    let docs_subtree = model.get_subtree(&docs).unwrap();
    assert_eq!(docs_subtree.root_key().unwrap().as_slice(), b"docs_root");
}

#[test]
fn clear_subtree_only_drops_nodes() {
    let mut path_ctx = PathCtx::new();
    let mut model = Tree::new();

    let root = path_ctx.get_root();
    model.insert(
        &mut path_ctx,
        root,
        b"a".to_vec(),
        Node::new_item(b"va".to_vec()),
    );
    model.set_root(&path_ctx, b"a".to_vec());

    let root = path_ctx.get_root();
    model.clear_subtree(&root);

    let subtree = model.get_subtree(&root).unwrap();
    assert!(subtree.is_empty());
    assert_eq!(subtree.root_key().unwrap().as_slice(), b"a");
    // Recording the root marked its subtree visible, and clearing the
    // nodes left that alone.
    assert!(subtree.visible());
}

#[test]
fn hiding_a_branch_hides_descendants() {
    let mut path_ctx = PathCtx::new();
    let mut model = Tree::new();

    let a_b = path_ctx.add_iter(&[b"a".to_vec(), b"b".to_vec()]);
    model.populate_subtrees_chain(&path_ctx, a_b);
    let c = path_ctx.add_iter(&[b"c".to_vec()]);
    model.populate_subtrees_chain(&path_ctx, c);

    let a = path_ctx.add_iter(&[b"a".to_vec()]);
    for path in [a, a_b, c] {
        model.set_subtree_visible(&path_ctx, path, true);
        assert!(model.get_subtree(&path).unwrap().visible());
    }

    model.set_subtree_visible(&path_ctx, a, false);
    assert!(!model.get_subtree(&a).unwrap().visible());
    assert!(!model.get_subtree(&a_b).unwrap().visible());
    assert!(model.get_subtree(&c).unwrap().visible());
}
