//! Structural sharing and navigation of interned addresses.

use grovedbg::path_ctx::PathCtx;

#[test]
fn path_display_segment_reuse() {
    let mut ctx = PathCtx::new();
    let root = ctx.get_root();
    let sub_1 = root.child(&mut ctx, b"key1".to_vec());
    let sub_2 = sub_1.child(&mut ctx, b"key2".to_vec());
    let sub_2_again = sub_1.child(&mut ctx, b"key2".to_vec());
    assert_eq!(sub_2, sub_2_again);
}

#[test]
fn path_ctx_segment_reuse() {
    let mut ctx = PathCtx::new();
    let root = ctx.get_root();
    let sub_1 = root.child(&mut ctx, b"key1".to_vec());
    let sub_2 = sub_1.child(&mut ctx, b"key2".to_vec());
    let sub_2_again = sub_1.child(&mut ctx, b"key2".to_vec());
    assert_eq!(sub_2, sub_2_again);
}

#[test]
fn children_ids() {
    let mut ctx = PathCtx::new();
    let root = ctx.get_root();
    let sub_1 = root.child(&mut ctx, b"key1".to_vec());
    sub_1.child(&mut ctx, b"key2".to_vec());
    sub_1.child(&mut ctx, b"key3".to_vec());
    let mut children: Vec<Vec<u8>> = Vec::new();
    for child in sub_1.children(&ctx) {
        children.push(child.last_segment(&ctx).unwrap().bytes().to_vec());
    }
    assert_eq!(children, vec![b"key2".to_vec(), b"key3".to_vec()]);
}

#[test]
fn path_display_collect_path() {
    let mut ctx = PathCtx::new();
    let root = ctx.get_root();
    let path = root
        .child(&mut ctx, b"key1".to_vec())
        .child(&mut ctx, b"key2".to_vec())
        .child(&mut ctx, b"key3".to_vec())
        .child(&mut ctx, b"key4".to_vec());
    let path_vec = path.to_vec(&ctx);
    assert_eq!(
        path_vec,
        vec![
            b"key1".to_vec(),
            b"key2".to_vec(),
            b"key3".to_vec(),
            b"key4".to_vec()
        ]
    );
    assert_eq!(path.level(&ctx), 4);
}

#[test]
fn path_ctx_collect_path() {
    let mut ctx = PathCtx::new();
    let root = ctx.get_root();
    let path = root
        .child(&mut ctx, b"key1".to_vec())
        .child(&mut ctx, b"key2".to_vec())
        .child(&mut ctx, b"key3".to_vec())
        .child(&mut ctx, b"key4".to_vec());
    let path_vec = path.to_vec(&ctx);
    assert_eq!(
        path_vec,
        vec![
            b"key1".to_vec(),
            b"key2".to_vec(),
            b"key3".to_vec(),
            b"key4".to_vec()
        ]
    );
    assert_eq!(path.level(&ctx), 4);
}

#[test]
fn path_display_collect_for_root() {
    let ctx = PathCtx::new();
    let path = ctx.get_root();
    let path_vec = path.to_vec(&ctx);
    assert_eq!(path_vec, Vec::<Vec<u8>>::new());
    assert_eq!(path.level(&ctx), 0);
}

#[test]
fn path_ctx_collect_for_root() {
    let ctx = PathCtx::new();
    let path = ctx.get_root();
    let path_vec = path.to_vec(&ctx);
    assert_eq!(path_vec, Vec::<Vec<u8>>::new());
    assert_eq!(path.level(&ctx), 0);
}

#[test]
fn distinct_keys_distinct_handles() {
    let mut ctx = PathCtx::new();
    let root = ctx.get_root();
    let a = root.child(&mut ctx, b"a".to_vec());
    let b = root.child(&mut ctx, b"b".to_vec());
    assert_ne!(a, b);

    let ab = a.child(&mut ctx, b"b".to_vec());
    let ab_again = a.child(&mut ctx, b"b".to_vec());
    assert_eq!(ab, ab_again);
    assert_ne!(ab, b);
}

#[test]
fn add_path_is_canonical() {
    let mut ctx = PathCtx::new();
    let by_children = ctx
        .get_root()
        .child(&mut ctx, b"x".to_vec())
        .child(&mut ctx, b"y".to_vec());
    let by_add_path = ctx.add_path(vec![b"x".to_vec(), b"y".to_vec()]);
    assert_eq!(by_children, by_add_path);
}

#[test]
fn parent_and_key_round_trip() {
    let mut ctx = PathCtx::new();
    let path = ctx.add_path(vec![b"x".to_vec(), b"y".to_vec()]);
    let (parent, key) = path.parent_with_key(&ctx).unwrap();
    assert_eq!(key, b"y".to_vec());
    assert_eq!(parent.to_vec(&ctx), vec![b"x".to_vec()]);
    assert!(ctx.get_root().parent_with_key(&ctx).is_none());
}

#[test]
fn descendants_cover_the_branch() {
    let mut ctx = PathCtx::new();
    let a = ctx.add_path(vec![b"a".to_vec()]);
    let ab = ctx.add_path(vec![b"a".to_vec(), b"b".to_vec()]);
    let abc = ctx.add_path(vec![b"a".to_vec(), b"b".to_vec(), b"c".to_vec()]);
    let d = ctx.add_path(vec![b"d".to_vec()]);

    let descendants = a.descendants(&ctx);
    // Exactly the strict descendants, each once, breadth first.
    assert_eq!(descendants, vec![ab, abc]);
    assert!(!descendants.contains(&d));
    assert!(!descendants.contains(&a));

    // Interning order and level order differ here: `d` was interned
    // last but sits on the first level.
    let everything = ctx.get_root().descendants(&ctx);
    assert_eq!(everything, vec![a, d, ab, abc]);
}

#[test]
fn aliases_and_visibility_stick_to_segments() {
    let mut ctx = PathCtx::new();
    let path = ctx.add_profiles_alias(vec![b"docs".to_vec()], String::from("Documents"));
    assert_eq!(path.get_profiles_alias(&ctx).unwrap(), "Documents");

    path.clear_profile_alias(&mut ctx);
    assert!(path.get_profiles_alias(&ctx).is_none());

    assert!(!path.visible(&ctx));
    path.set_visible(&mut ctx, true);
    assert!(path.visible(&ctx));

    path.select_for_query(&mut ctx);
    assert_eq!(ctx.get_selected_for_query().unwrap(), path);
}
