//! Resolving incoming records into model values.
//!
//! A [`crate::protocol::NodeUpdate`] carries its element in wire form;
//! reference elements in particular name their target through one of
//! several address-rewriting schemes. Each scheme is a pure function
//! over the node's current address and the reference payload, and each
//! must fail with a distinct "reference had no key" condition when the
//! rewritten address comes out empty. The resolved target address is
//! interned through the [`crate::path_ctx::PathCtx`] so the model's
//! reference elements carry canonical handles.

use vstd::prelude::*;

use crate::bytes_utils::clone_bytes;
use crate::model::opt_bytes_view;
use crate::model::ElementView;
use crate::model::Node;
use crate::path_ctx::ctx_extends;
use crate::path_ctx::PathCtx;

verus! {

/// A reference's rewritten address came out empty: it names no key.
#[derive(Debug, Clone, Copy, PartialEq, Eq, Structural)]
pub struct ReferenceWithoutKey;

/// Why an incoming element could not be turned into a model element.
#[derive(Debug, Clone, Copy, PartialEq, Eq, Structural)]
pub enum BadProtoElement {
    /// A reference element resolved to an empty address.
    EmptyPathReference(ReferenceWithoutKey),
}

/// The first `n` segments of an address; the whole address when it is
/// shorter, nothing when `n` is not positive.
pub open spec fn spec_take_n(s: Seq<Seq<u8>>, n: int) -> Seq<Seq<u8>> {
    if n <= 0 {
        Seq::empty()
    } else if n >= s.len() {
        s
    } else {
        s.take(n)
    }
}

/// Address an upstream-root-height reference rewrites to: keep the
/// first `n_keep` segments, then append.
pub open spec fn spec_upstream_root_addr(
    cur: Seq<Seq<u8>>,
    n_keep: int,
    append: Seq<Seq<u8>>,
) -> Seq<Seq<u8>> {
    spec_take_n(cur, n_keep) + append
}

/// Address of the parent-path-addition flavour: the current address's
/// last segment is carried over to the very end.
pub open spec fn spec_upstream_parent_addr(
    cur: Seq<Seq<u8>>,
    n_keep: int,
    append: Seq<Seq<u8>>,
) -> Seq<Seq<u8>>
    recommends
        cur.len() > 0,
{
    spec_take_n(cur.drop_last(), n_keep) + append + seq![cur.last()]
}

/// Address of an upstream-element-height reference: drop the last
/// `n_remove + 1` segments, then append.
pub open spec fn spec_upstream_element_addr(
    cur: Seq<Seq<u8>>,
    n_remove: int,
    append: Seq<Seq<u8>>,
) -> Seq<Seq<u8>> {
    spec_take_n(cur, cur.len() - 1 - n_remove) + append
}

/// The resolved element is a reference with exactly this target.
pub open spec fn spec_ref_target_ok(
    ctx: PathCtx,
    ev: ElementView,
    tgt_path: Seq<Seq<u8>>,
    tgt_key: Seq<u8>,
    flags: Option<Seq<u8>>,
) -> bool {
    &&& ev matches ElementView::Reference { path: p, key: k, element_flags: f }
    &&& ctx.path_ok(p)
    &&& ctx.path_to_seq(p) == tgt_path
    &&& k == tgt_key
    &&& f == flags
}

/// The resolved element is the reference an address splits into:
/// everything but the last segment is the target path, the last
/// segment is the target key.
pub open spec fn spec_ref_ok(
    ctx: PathCtx,
    ev: ElementView,
    addr: Seq<Seq<u8>>,
    flags: Option<Seq<u8>>,
) -> bool {
    &&& addr.len() > 0
    &&& spec_ref_target_ok(ctx, ev, addr.drop_last(), addr.last(), flags)
}

/// What a successful resolution of a wire element at `(cur_path,
/// cur_key)` returns, per element kind.
pub open spec fn spec_resolve_ok(
    post: PathCtx,
    element: crate::protocol::Element,
    cur_path: Seq<Seq<u8>>,
    cur_key: Seq<u8>,
    ev: ElementView,
) -> bool {
    match element {
        crate::protocol::Element::Subtree { root_key, element_flags } => ev
            == (ElementView::Subtree {
            root_key: opt_bytes_view(root_key),
            element_flags: opt_bytes_view(element_flags),
        }),
        crate::protocol::Element::Sumtree { root_key, sum, element_flags } => ev
            == (ElementView::Sumtree {
            root_key: opt_bytes_view(root_key),
            sum: sum as int,
            element_flags: opt_bytes_view(element_flags),
        }),
        crate::protocol::Element::Item { value, element_flags } => ev == (ElementView::Item {
            value: value@,
            element_flags: opt_bytes_view(element_flags),
        }),
        crate::protocol::Element::SumItem { value, element_flags } => ev == (ElementView::SumItem {
            value: value as int,
            element_flags: opt_bytes_view(element_flags),
        }),
        crate::protocol::Element::Reference(rf) => match rf {
            crate::protocol::Reference::AbsolutePathReference { path, element_flags } =>
                spec_ref_ok(post, ev, path.deep_view(), opt_bytes_view(element_flags)),
            crate::protocol::Reference::UpstreamRootHeightReference {
                n_keep,
                path_append,
                element_flags,
            } => spec_ref_ok(
                post,
                ev,
                spec_upstream_root_addr(cur_path, n_keep as int, path_append.deep_view()),
                opt_bytes_view(element_flags),
            ),
            crate::protocol::Reference::UpstreamRootHeightWithParentPathAdditionReference {
                n_keep,
                path_append,
                element_flags,
            } => cur_path.len() > 0 && spec_ref_ok(
                post,
                ev,
                spec_upstream_parent_addr(cur_path, n_keep as int, path_append.deep_view()),
                opt_bytes_view(element_flags),
            ),
            crate::protocol::Reference::UpstreamFromElementHeightReference {
                n_remove,
                path_append,
                element_flags,
            } => spec_ref_ok(
                post,
                ev,
                spec_upstream_element_addr(cur_path, n_remove as int, path_append.deep_view()),
                opt_bytes_view(element_flags),
            ),
            crate::protocol::Reference::CousinReference { swap_parent, element_flags } =>
                cur_path.len() > 0 && spec_ref_target_ok(
                post,
                ev,
                cur_path.drop_last().push(swap_parent@),
                cur_key,
                opt_bytes_view(element_flags),
            ),
            crate::protocol::Reference::RemovedCousinReference { swap_parent, element_flags } =>
                cur_path.len() > 0 && spec_ref_target_ok(
                post,
                ev,
                cur_path.drop_last() + swap_parent.deep_view(),
                cur_key,
                opt_bytes_view(element_flags),
            ),
            crate::protocol::Reference::SiblingReference { sibling_key, element_flags } =>
                spec_ref_target_ok(post, ev, cur_path, sibling_key@, opt_bytes_view(element_flags)),
        },
    }
}

/// When resolution fails: exactly when a reference's rewritten address
/// comes out empty.
pub open spec fn spec_resolve_err(
    element: crate::protocol::Element,
    cur_path: Seq<Seq<u8>>,
) -> bool {
    match element {
        crate::protocol::Element::Reference(rf) => match rf {
            crate::protocol::Reference::AbsolutePathReference { path, .. } => path@.len() == 0,
            crate::protocol::Reference::UpstreamRootHeightReference {
                n_keep,
                path_append,
                ..
            } => spec_upstream_root_addr(cur_path, n_keep as int, path_append.deep_view()).len()
                == 0,
            crate::protocol::Reference::UpstreamRootHeightWithParentPathAdditionReference {
                ..
            } => cur_path.len() == 0,
            crate::protocol::Reference::UpstreamFromElementHeightReference {
                n_remove,
                path_append,
                ..
            } => spec_upstream_element_addr(
                cur_path,
                n_remove as int,
                path_append.deep_view(),
            ).len() == 0,
            crate::protocol::Reference::CousinReference { .. } => cur_path.len() == 0,
            crate::protocol::Reference::RemovedCousinReference { .. } => cur_path.len() == 0,
            crate::protocol::Reference::SiblingReference { .. } => false,
        },
        _ => false,
    }
}

/// A copy of the first `min(n, len)` segments of an address.
fn path_prefix(p: &[Vec<u8>], n: usize) -> (r: Vec<Vec<u8>>)
    ensures
        r.deep_view() == spec_take_n(p.deep_view(), n as int),
{
    let limit = if n < p.len() {
        n
    } else {
        p.len()
    };
    let mut r: Vec<Vec<u8>> = Vec::new();
    let mut i: usize = 0;
    while i < limit
        invariant
            limit <= p@.len(),
            i <= limit,
            r@.len() == i,
            forall|j: int| 0 <= j < i ==> (#[trigger] r@[j])@ == p@[j]@,
        decreases limit - i,
    {
        r.push(clone_bytes(&p[i]));
        i += 1;
    }
    proof {
        assert(r.deep_view() =~~= spec_take_n(p.deep_view(), n as int));
    }
    r
}

/// Splits a rewritten address into target path and key, interning the
/// path; the empty address has no key and is rejected.
fn resolve_address(
    ctx: &mut PathCtx,
    addr: Vec<Vec<u8>>,
    element_flags: Option<Vec<u8>>,
) -> (r: Result<crate::model::Element, ReferenceWithoutKey>)
    requires
        old(ctx).wf(),
    ensures
        final(ctx).wf(),
        ctx_extends(*final(ctx), *old(ctx)),
        match r {
            Ok(e) => spec_ref_ok(*final(ctx), e@, addr.deep_view(), opt_bytes_view(element_flags)),
            Err(_) => addr.deep_view().len() == 0 && *final(ctx) == *old(ctx),
        },
{
    let mut addr = addr;
    let ghost addr0 = addr.deep_view();
    match addr.pop() {
        None => Err(ReferenceWithoutKey),
        Some(key) => {
            proof {
                assert(addr.deep_view() =~~= addr0.drop_last());
                assert(key@ == addr0.last());
            }
            let path = ctx.add_path(addr);
            Ok(crate::model::Element::Reference { path, key, element_flags })
        },
    }
}

/// Resolves one wire element at its node's address into a model
/// element, interning reference targets. Only a reference whose
/// rewritten address is empty is rejected.
pub fn resolve_element(
    ctx: &mut PathCtx,
    element: crate::protocol::Element,
    path: &[Vec<u8>],
    key: &[u8],
) -> (r: Result<crate::model::Element, ReferenceWithoutKey>)
    requires
        old(ctx).wf(),
    ensures
        final(ctx).wf(),
        ctx_extends(*final(ctx), *old(ctx)),
        match r {
            Ok(e) => spec_resolve_ok(*final(ctx), element, path.deep_view(), key@, e@),
            Err(_) => spec_resolve_err(element, path.deep_view()) && *final(ctx) == *old(ctx),
        },
{
    let ghost pd = path.deep_view();
    match element {
        crate::protocol::Element::Subtree { root_key, element_flags } => Ok(
            crate::model::Element::Subtree { root_key, element_flags },
        ),
        crate::protocol::Element::Sumtree { root_key, sum, element_flags } => Ok(
            crate::model::Element::Sumtree { root_key, sum, element_flags },
        ),
        crate::protocol::Element::Item { value, element_flags } => Ok(
            crate::model::Element::Item { value, element_flags },
        ),
        crate::protocol::Element::SumItem { value, element_flags } => Ok(
            crate::model::Element::SumItem { value, element_flags },
        ),
        crate::protocol::Element::Reference(rf) => match rf {
            crate::protocol::Reference::AbsolutePathReference { path: tgt, element_flags } => {
                resolve_address(ctx, tgt, element_flags)
            },
            crate::protocol::Reference::UpstreamRootHeightReference {
                n_keep,
                path_append,
                element_flags,
            } => {
                let mut addr = path_prefix(path, n_keep as usize);
                let mut path_append = path_append;
                let ghost append0 = path_append.deep_view();
                addr.append(&mut path_append);
                proof {
                    assert(addr.deep_view() =~~= spec_upstream_root_addr(
                        pd,
                        n_keep as int,
                        append0,
                    ));
                }
                resolve_address(ctx, addr, element_flags)
            },
            crate::protocol::Reference::UpstreamRootHeightWithParentPathAdditionReference {
                n_keep,
                path_append,
                element_flags,
            } => {
                if path.len() == 0 {
                    return Err(ReferenceWithoutKey);
                }
                let parent = clone_bytes(&path[path.len() - 1]);
                let mut addr = path_prefix_of_front(path, n_keep);
                let mut path_append = path_append;
                let ghost append0 = path_append.deep_view();
                addr.append(&mut path_append);
                addr.push(parent);
                proof {
                    assert(addr.deep_view() =~~= spec_upstream_parent_addr(
                        pd,
                        n_keep as int,
                        append0,
                    ));
                }
                resolve_address(ctx, addr, element_flags)
            },
            crate::protocol::Reference::UpstreamFromElementHeightReference {
                n_remove,
                path_append,
                element_flags,
            } => {
                let keep: usize = if (n_remove as usize) < path.len() {
                    path.len() - 1 - (n_remove as usize)
                } else {
                    0
                };
                let mut addr = path_prefix(path, keep);
                let mut path_append = path_append;
                let ghost append0 = path_append.deep_view();
                addr.append(&mut path_append);
                proof {
                    assert(spec_take_n(pd, keep as int) == spec_take_n(
                        pd,
                        pd.len() - 1 - n_remove,
                    ));
                    assert(addr.deep_view() =~~= spec_upstream_element_addr(
                        pd,
                        n_remove as int,
                        append0,
                    ));
                }
                resolve_address(ctx, addr, element_flags)
            },
            crate::protocol::Reference::CousinReference { swap_parent, element_flags } => {
                if path.len() == 0 {
                    return Err(ReferenceWithoutKey);
                }
                let mut tgt = path_prefix(path, path.len() - 1);
                proof {
                    assert(spec_take_n(pd, pd.len() - 1) =~= pd.drop_last());
                }
                let ghost swap0 = swap_parent@;
                tgt.push(swap_parent);
                proof {
                    assert(tgt.deep_view() =~~= pd.drop_last().push(swap0));
                }
                let p = ctx.add_path(tgt);
                let own_key = vstd::slice::slice_to_vec(key);
                Ok(crate::model::Element::Reference { path: p, key: own_key, element_flags })
            },
            crate::protocol::Reference::RemovedCousinReference { swap_parent, element_flags } => {
                if path.len() == 0 {
                    return Err(ReferenceWithoutKey);
                }
                let mut tgt = path_prefix(path, path.len() - 1);
                let mut swap_parent = swap_parent;
                let ghost swap0 = swap_parent.deep_view();
                tgt.append(&mut swap_parent);
                proof {
                    assert(spec_take_n(pd, pd.len() - 1) =~= pd.drop_last());
                    assert(tgt.deep_view() =~~= pd.drop_last() + swap0);
                }
                let p = ctx.add_path(tgt);
                let own_key = vstd::slice::slice_to_vec(key);
                Ok(crate::model::Element::Reference { path: p, key: own_key, element_flags })
            },
            crate::protocol::Reference::SiblingReference { sibling_key, element_flags } => {
                let tgt = path_prefix(path, path.len());
                proof {
                    assert(tgt.deep_view() =~~= pd);
                }
                let p = ctx.add_path(tgt);
                Ok(crate::model::Element::Reference { path: p, key: sibling_key, element_flags })
            },
        },
    }
}

/// A copy of the first `min(n_keep, len - 1)` segments: the prefix the
/// parent-path-addition scheme keeps, the last segment excluded.
fn path_prefix_of_front(p: &[Vec<u8>], n_keep: u32) -> (r: Vec<Vec<u8>>)
    requires
        p@.len() > 0,
    ensures
        r.deep_view() == spec_take_n(p.deep_view().drop_last(), n_keep as int),
{
    let limit: usize = if (n_keep as usize) < p.len() - 1 {
        n_keep as usize
    } else {
        p.len() - 1
    };
    let r = path_prefix(p, limit);
    proof {
        assert(spec_take_n(p.deep_view(), limit as int) =~= spec_take_n(
            p.deep_view().drop_last(),
            n_keep as int,
        ));
    }
    r
}

/// Turns one received node update into a model node, resolving its
/// element. A reference that rewrites to an empty address is reported;
/// the update is otherwise taken as is, overwriting semantics included.
pub fn from_update(ctx: &mut PathCtx, value: crate::protocol::NodeUpdate) -> (r: Result<
    Node,
    BadProtoElement,
>)
    requires
        old(ctx).wf(),
    ensures
        final(ctx).wf(),
        ctx_extends(*final(ctx), *old(ctx)),
        match r {
            Ok(n) => {
                &&& spec_resolve_ok(
                    *final(ctx),
                    value.element,
                    value.path.deep_view(),
                    value.key@,
                    n@.element,
                )
                &&& n@.left_child == opt_bytes_view(value.left_child)
                &&& n@.right_child == opt_bytes_view(value.right_child)
                &&& n@.feature_type == Some(value.feature_type)
                &&& n@.value_hash == Some(value.value_hash@)
                &&& n@.kv_digest_hash == Some(value.kv_digest_hash@)
            },
            Err(_) => spec_resolve_err(value.element, value.path.deep_view()) && *final(ctx)
                == *old(ctx),
        },
{
    let crate::protocol::NodeUpdate {
        path,
        key,
        element,
        left_child,
        right_child,
        feature_type,
        value_hash,
        kv_digest_hash,
    } = value;
    match resolve_element(ctx, element, path.as_slice(), key.as_slice()) {
        Ok(e) => Ok(
            Node {
                element: e,
                left_child,
                right_child,
                feature_type: Some(feature_type),
                value_hash: Some(value_hash),
                kv_digest_hash: Some(kv_digest_hash),
            },
        ),
        Err(e) => Err(BadProtoElement::EmptyPathReference(e)),
    }
}

} // verus!
