//! Resolution of wire elements, reference rewriting schemes included.

use grovedbg::model::TreeFeatureType;
use grovedbg::path_ctx::PathCtx;
use grovedbg::proto_conversion::from_update;
use grovedbg::proto_conversion::resolve_element;
use grovedbg::protocol::Element;
use grovedbg::protocol::NodeUpdate;
use grovedbg::protocol::Reference;

fn segs(parts: &[&[u8]]) -> Vec<Vec<u8>> {
    parts.iter().map(|p| p.to_vec()).collect()
}

fn resolved_target(
    ctx: &PathCtx,
    element: &grovedbg::model::Element,
) -> (Vec<Vec<u8>>, Vec<u8>) {
    match element {
        grovedbg::model::Element::Reference { path, key, .. } => (path.to_vec(ctx), key.clone()),
        other => panic!("expected a reference, got {:?}", other),
    }
}

#[test]
fn absolute_path_reference_splits_key() {
    let mut ctx = PathCtx::new();
    let element = Element::Reference(Reference::AbsolutePathReference {
        path: segs(&[b"a", b"b", b"k"]),
        element_flags: None,
    });
    let resolved = resolve_element(&mut ctx, element, &segs(&[b"cur"]), b"key").unwrap();
    let (path, key) = resolved_target(&ctx, &resolved);
    assert_eq!(path, segs(&[b"a", b"b"]));
    assert_eq!(key, b"k".to_vec());
}

#[test]
fn absolute_path_reference_needs_a_key() {
    let mut ctx = PathCtx::new();
    let element = Element::Reference(Reference::AbsolutePathReference {
        path: vec![],
        element_flags: None,
    });
    assert!(resolve_element(&mut ctx, element, &segs(&[b"cur"]), b"key").is_err());
}

#[test]
fn upstream_root_height_keeps_a_prefix() {
    let mut ctx = PathCtx::new();
    let element = Element::Reference(Reference::UpstreamRootHeightReference {
        n_keep: 1,
        path_append: segs(&[b"x", b"k"]),
        element_flags: None,
    });
    let resolved =
        resolve_element(&mut ctx, element, &segs(&[b"a", b"b", b"c"]), b"key").unwrap();
    let (path, key) = resolved_target(&ctx, &resolved);
    assert_eq!(path, segs(&[b"a", b"x"]));
    assert_eq!(key, b"k".to_vec());
}

#[test]
fn upstream_root_height_with_parent_carries_the_last_segment() {
    let mut ctx = PathCtx::new();
    let element = Element::Reference(Reference::UpstreamRootHeightWithParentPathAdditionReference {
        n_keep: 1,
        path_append: segs(&[b"x"]),
        element_flags: None,
    });
    let resolved =
        resolve_element(&mut ctx, element, &segs(&[b"a", b"b", b"c"]), b"key").unwrap();
    let (path, key) = resolved_target(&ctx, &resolved);
    // Keep [a], append [x], then the current last segment c becomes the key.
    assert_eq!(path, segs(&[b"a", b"x"]));
    assert_eq!(key, b"c".to_vec());
}

#[test]
fn upstream_element_height_drops_a_suffix() {
    let mut ctx = PathCtx::new();
    let element = Element::Reference(Reference::UpstreamFromElementHeightReference {
        n_remove: 1,
        path_append: segs(&[b"x", b"k"]),
        element_flags: None,
    });
    let resolved =
        resolve_element(&mut ctx, element, &segs(&[b"a", b"b", b"c"]), b"key").unwrap();
    let (path, key) = resolved_target(&ctx, &resolved);
    // Drop the last two segments of [a, b, c], then append [x, k].
    assert_eq!(path, segs(&[b"a", b"x"]));
    assert_eq!(key, b"k".to_vec());
}

#[test]
fn cousin_reference_swaps_the_parent() {
    let mut ctx = PathCtx::new();
    let element = Element::Reference(Reference::CousinReference {
        swap_parent: b"other".to_vec(),
        element_flags: None,
    });
    let resolved = resolve_element(&mut ctx, element, &segs(&[b"a", b"b"]), b"key").unwrap();
    let (path, key) = resolved_target(&ctx, &resolved);
    assert_eq!(path, segs(&[b"a", b"other"]));
    assert_eq!(key, b"key".to_vec());
}

#[test]
fn removed_cousin_reference_replaces_the_parent_path() {
    let mut ctx = PathCtx::new();
    let element = Element::Reference(Reference::RemovedCousinReference {
        swap_parent: segs(&[b"p", b"q"]),
        element_flags: None,
    });
    let resolved = resolve_element(&mut ctx, element, &segs(&[b"a", b"b"]), b"key").unwrap();
    let (path, key) = resolved_target(&ctx, &resolved);
    assert_eq!(path, segs(&[b"a", b"p", b"q"]));
    assert_eq!(key, b"key".to_vec());
}

#[test]
fn sibling_reference_stays_in_place() {
    let mut ctx = PathCtx::new();
    let element = Element::Reference(Reference::SiblingReference {
        sibling_key: b"sis".to_vec(),
        element_flags: None,
    });
    let resolved = resolve_element(&mut ctx, element, &segs(&[b"a", b"b"]), b"key").unwrap();
    let (path, key) = resolved_target(&ctx, &resolved);
    assert_eq!(path, segs(&[b"a", b"b"]));
    assert_eq!(key, b"sis".to_vec());
}

#[test]
fn plain_elements_convert_field_by_field() {
    let mut ctx = PathCtx::new();
    let resolved = resolve_element(
        &mut ctx,
        Element::Item {
            value: b"v".to_vec(),
            element_flags: Some(b"f".to_vec()),
        },
        &segs(&[]),
        b"key",
    )
    .unwrap();
    assert!(matches!(
        resolved,
        grovedbg::model::Element::Item { ref value, ref element_flags }
            if value == &b"v".to_vec() && element_flags == &Some(b"f".to_vec())
    ));
}

#[test]
fn from_update_fills_a_node() {
    let mut ctx = PathCtx::new();
    let node = from_update(
        &mut ctx,
        NodeUpdate {
            path: segs(&[b"a"]),
            key: b"k".to_vec(),
            element: Element::SumItem {
                value: 5,
                element_flags: None,
            },
            left_child: Some(b"l".to_vec()),
            right_child: None,
            feature_type: TreeFeatureType::SummedMerkNode(5),
            value_hash: vec![7; 32],
            kv_digest_hash: vec![8; 32],
        },
    )
    .unwrap();
    assert!(matches!(node.element, grovedbg::model::Element::SumItem { value: 5, .. }));
    assert_eq!(node.left_child, Some(b"l".to_vec()));
    assert_eq!(node.right_child, None);
    assert_eq!(node.feature_type, Some(TreeFeatureType::SummedMerkNode(5)));
    assert_eq!(node.value_hash, Some(vec![7; 32]));
    assert_eq!(node.kv_digest_hash, Some(vec![8; 32]));
}

#[test]
fn from_update_reports_empty_references() {
    let mut ctx = PathCtx::new();
    let result = from_update(
        &mut ctx,
        NodeUpdate {
            path: vec![],
            key: b"k".to_vec(),
            element: Element::Reference(Reference::CousinReference {
                swap_parent: b"p".to_vec(),
                element_flags: None,
            }),
            left_child: None,
            right_child: None,
            feature_type: TreeFeatureType::BasicMerkNode,
            value_hash: vec![0; 32],
            kv_digest_hash: vec![0; 32],
        },
    );
    assert!(result.is_err());
}
