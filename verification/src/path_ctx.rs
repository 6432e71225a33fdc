//! Canonical, structurally shared subtree addresses.
//!
//! Every address in the store is a sequence of byte-string segments. The
//! [`PathCtx`] arena interns each distinct address once: asking for the
//! same child segment of the same parent twice always yields the same
//! [`Path`] handle, so handles can be compared and used as keys without
//! ever re-walking the byte sequences.
//!
//! A [`Path`] is either the root (no segment) or the index of a
//! [`PathSegment`] in the arena. Segments only ever point from a child to
//! a strictly earlier arena slot, so the structure is a forest by
//! construction and walks toward the root terminate.

use vstd::prelude::*;

use crate::bytes_utils::spec_guess_variant;
use crate::bytes_utils::BytesDisplayVariant;

verus! {

/// One interned edge label of the address forest.
pub struct PathSegment {
    bytes: Vec<u8>,
    parent: Option<usize>,
    children: Vec<usize>,
    level: usize,
    display: BytesDisplayVariant,
    profiles_alias: Option<String>,
    visible: bool,
}

impl PathSegment {
    /// The raw bytes of this edge label.
    pub fn bytes(&self) -> (r: &[u8])
        ensures
            r@ == self.spec_bytes(),
    {
        self.bytes.as_slice()
    }

    /// The rendering currently chosen for this segment.
    pub fn display(&self) -> (r: BytesDisplayVariant)
        ensures
            r == self.spec_display(),
    {
        self.display
    }

    /// The segment after its visibility flag is raised, all else equal.
    pub closed spec fn spec_with_visible(self) -> PathSegment {
        PathSegment { visible: true, ..self }
    }

    /// Marks the subtree at this segment as shown: the flag is raised
    /// whatever it was, and every other field keeps its value.
    pub fn set_visible(&mut self)
        ensures
            *final(self) == old(self).spec_with_visible(),
            final(self).spec_visible(),
            final(self).spec_bytes() == old(self).spec_bytes(),
            final(self).spec_display() == old(self).spec_display(),
            final(self).spec_alias() == old(self).spec_alias(),
    {
        self.visible = true;
    }

    /// Raising the flag twice is raising it once.
    pub proof fn lemma_with_visible_idempotent(s: PathSegment)
        ensures
            s.spec_with_visible().spec_with_visible() == s.spec_with_visible(),
    {
    }

    /// Renders this segment's bytes under its chosen rendering.
    pub fn view_by_display(&self) -> (r: String)
        ensures
            r@ == crate::bytes_utils::spec_bytes_by_display_variant(
                self.spec_bytes(),
                self.spec_display(),
            ),
    {
        crate::bytes_utils::bytes_by_display_variant(self.bytes.as_slice(), &self.display)
    }

    /// Spec projection of the fields a segment is identified by.
    pub closed spec fn spec_bytes(&self) -> Seq<u8> {
        self.bytes@
    }

    /// Spec projection of the chosen rendering.
    pub closed spec fn spec_display(&self) -> BytesDisplayVariant {
        self.display
    }

    /// Spec projection of the visibility flag.
    pub closed spec fn spec_visible(&self) -> bool {
        self.visible
    }

    /// Spec projection of the profile alias.
    pub closed spec fn spec_alias(&self) -> Option<String> {
        self.profiles_alias
    }
}

/// A canonical handle for one address: root, or one interned segment.
///
/// Handles are meaningful only together with the [`PathCtx`] that
/// produced them; two handles from the same context are equal exactly
/// when they denote the same address.
#[derive(Debug, Clone, Copy)]
pub struct Path {
    seg: Option<usize>,
}

impl PartialEq for Path {
    fn eq(&self, other: &Path) -> (r: bool) {
        match (self.seg, other.seg) {
            (None, None) => true,
            (Some(a), Some(b)) => a == b,
            _ => false,
        }
    }
}

impl Eq for Path {

}

impl vstd::std_specs::cmp::PartialEqSpecImpl for Path {
    open spec fn obeys_eq_spec() -> bool {
        true
    }

    open spec fn eq_spec(&self, other: &Path) -> bool {
        *self == *other
    }
}

/// The interning arena that owns every [`PathSegment`].
pub struct PathCtx {
    arena: Vec<PathSegment>,
    root_children: Vec<usize>,
    selected_for_query: Option<Path>,
}

impl PathCtx {
    /// Conditions segment `i` must satisfy: its parent sits strictly
    /// earlier in the arena, levels count edges from the root, parent and
    /// child index each other, and siblings carry pairwise distinct
    /// bytes.
    spec fn seg_ok(&self, i: int) -> bool {
        let s = self.arena@[i];
        &&& match s.parent {
            Some(p) => {
                &&& (p as int) < i
                &&& self.arena@[p as int].level + 1 == s.level
                &&& self.arena@[p as int].children@.contains(i as usize)
            },
            None => {
                &&& s.level == 1
                &&& self.root_children@.contains(i as usize)
            },
        }
        &&& s.level <= i + 1
        &&& forall|j: int|
            0 <= j < s.children@.len() ==> (#[trigger] s.children@[j] as int) < self.arena@.len()
                && self.arena@[s.children@[j] as int].parent == Some(i as usize)
        &&& forall|j: int, k: int|
            0 <= j < k < s.children@.len() ==> self.arena@[#[trigger] s.children@[j] as int].bytes@
                != self.arena@[#[trigger] s.children@[k] as int].bytes@
    }

    /// The arena is a well-formed forest.
    pub closed spec fn wf(&self) -> bool {
        &&& forall|i: int| 0 <= i < self.arena@.len() ==> self.seg_ok(i)
        &&& forall|j: int|
            0 <= j < self.root_children@.len() ==> (#[trigger] self.root_children@[j] as int)
                < self.arena@.len() && self.arena@[self.root_children@[j] as int].parent is None
        &&& forall|j: int, k: int|
            0 <= j < k < self.root_children@.len() ==> self.arena@[#[trigger] self.root_children@[j] as int].bytes@
                != self.arena@[#[trigger] self.root_children@[k] as int].bytes@
        &&& match self.selected_for_query {
            Some(p) => self.path_ok(p),
            None => true,
        }
    }

    /// True when the handle points into this arena.
    pub closed spec fn path_ok(&self, p: Path) -> bool {
        match p.seg {
            None => true,
            Some(i) => (i as int) < self.arena@.len(),
        }
    }

    /// Number of segments between the root and this address.
    pub closed spec fn path_level(&self, p: Path) -> int {
        match p.seg {
            None => 0,
            Some(i) => self.arena@[i as int].level as int,
        }
    }

    /// Spec termination measure for walks toward the root.
    pub closed spec fn path_measure(&self, p: Path) -> int {
        match p.seg {
            None => 0,
            Some(i) => i as int + 1,
        }
    }

    /// The full byte-sequence address a handle denotes, root first.
    pub closed spec fn path_to_seq(&self, p: Path) -> Seq<Seq<u8>>
        decreases self.path_measure(p),
        when self.wf() && self.path_ok(p)
        via Self::path_to_seq_decreases
    {
        match p.seg {
            None => Seq::empty(),
            Some(i) => self.path_to_seq(Path { seg: self.arena@[i as int].parent }).push(
                self.arena@[i as int].bytes@,
            ),
        }
    }

    #[via_fn]
    proof fn path_to_seq_decreases(&self, p: Path) {
        if let Some(i) = p.seg {
            assert(self.seg_ok(i as int));
        }
    }

    /// The parent handle, `None` exactly for the root.
    pub closed spec fn spec_parent(&self, p: Path) -> Option<Path> {
        match p.seg {
            None => None,
            Some(i) => Some(Path { seg: self.arena@[i as int].parent }),
        }
    }

    /// The last segment's bytes of a non-root path.
    pub closed spec fn spec_last_key(&self, p: Path) -> Seq<u8>
        recommends
            !p.spec_is_root(),
    {
        match p.seg {
            None => Seq::empty(),
            Some(i) => self.arena@[i as int].bytes@,
        }
    }

    /// The arena slots holding children of this address.
    spec fn children_of(&self, p: Path) -> Seq<usize> {
        match p.seg {
            None => self.root_children@,
            Some(i) => self.arena@[i as int].children@,
        }
    }

    /// Scans a child list for an edge label, front to back.
    spec fn find_child_in(&self, ids: Seq<usize>, key: Seq<u8>) -> Option<usize>
        decreases ids.len(),
    {
        if ids.len() == 0 {
            None
        } else if self.arena@[ids[0] as int].bytes@ == key {
            Some(ids[0])
        } else {
            self.find_child_in(ids.drop_first(), key)
        }
    }

    /// The already interned child of `p` labelled `key`, if any.
    pub closed spec fn find_child(&self, p: Path, key: Seq<u8>) -> Option<usize> {
        self.find_child_in(self.children_of(p), key)
    }

    /// Number of interned segments.
    pub closed spec fn arena_len(&self) -> int {
        self.arena@.len() as int
    }

    /// A fresh arena: no segments, no children anywhere, nothing
    /// selected.
    pub fn new() -> (r: Self)
        ensures
            r.wf(),
            r.arena_len() == 0,
            r.spec_selected_for_query() is None,
            forall|p: Path, k: Seq<u8>| r.path_ok(p) ==> #[trigger] r.find_child(p, k) is None,
            forall|p: Path|
                r.path_ok(p) ==> #[trigger] r.spec_children_paths(p) == Seq::<Path>::empty(),
    {
        let r = PathCtx { arena: Vec::new(), root_children: Vec::new(), selected_for_query: None };
        proof {
            assert forall|p: Path|
                r.path_ok(p) implies #[trigger] r.spec_children_paths(p) == Seq::<
                Path,
            >::empty() by {
                assert(r.children_of(p) =~= Seq::<usize>::empty());
                assert(r.spec_children_paths(p) =~= Seq::<Path>::empty());
            }
            assert forall|p: Path, k: Seq<u8>| r.path_ok(p) implies #[trigger] r.find_child(
                p,
                k,
            ) is None by {
                assert(r.children_of(p) =~= Seq::<usize>::empty());
            }
        }
        r
    }

    /// The canonical root handle: it denotes the empty address at
    /// level zero and has no parent. Never allocates.
    pub fn get_root(&self) -> (r: Path)
        ensures
            r == Path::spec_root(),
            r.spec_is_root(),
            self.path_ok(r),
            self.path_level(r) == 0,
            self.spec_parent(r) is None,
            self.wf() ==> self.path_to_seq(r) == Seq::<Seq<u8>>::empty(),
    {
        Path { seg: None }
    }

    /// Whether a handle points into this arena.
    pub fn check_path_ok(&self, p: &Path) -> (r: bool)
        ensures
            r == self.path_ok(*p),
    {
        match p.seg {
            None => true,
            Some(i) => i < self.arena.len(),
        }
    }

    /// The address marked for query building, if any.
    pub closed spec fn spec_selected_for_query(&self) -> Option<Path> {
        self.selected_for_query
    }

    /// Returns the address marked for query building, if any.
    pub fn get_selected_for_query(&self) -> (r: Option<Path>)
        ensures
            r == self.spec_selected_for_query(),
    {
        self.selected_for_query
    }
}

/// Everything already addressable stays addressable — with the same
/// byte sequence, depth, last key and parent — when the arena only
/// grows.
pub open spec fn ctx_extends(post: PathCtx, pre: PathCtx) -> bool {
    forall|p: Path| #[trigger]
        pre.path_ok(p) ==> post.path_ok(p) && post.path_to_seq(p) == pre.path_to_seq(p)
            && post.path_level(p) == pre.path_level(p) && post.spec_last_key(p)
            == pre.spec_last_key(p) && post.spec_parent(p) == pre.spec_parent(p)
}

/// Growing an arena twice still only grows it.
pub proof fn lemma_extends_trans(c0: PathCtx, c1: PathCtx, c2: PathCtx)
    requires
        ctx_extends(c1, c0),
        ctx_extends(c2, c1),
    ensures
        ctx_extends(c2, c0),
{
    assert forall|p: Path| #[trigger] c0.path_ok(p) implies c2.path_ok(p) && c2.path_to_seq(p)
        == c0.path_to_seq(p) && c2.path_level(p) == c0.path_level(p) && c2.spec_last_key(p)
        == c0.spec_last_key(p) && c2.spec_parent(p) == c0.spec_parent(p) by {
        assert(c1.path_ok(p));
    }
}

/// What one [`Path::child`] call does: the result denotes the parent's
/// address extended by `key`, it is the interned child for `key` both
/// before and after, and the arena either is untouched (the child
/// already existed) or grows by exactly the one new segment.
pub open spec fn child_step(pre: PathCtx, post: PathCtx, p: Path, key: Seq<u8>, r: Path) -> bool {
    &&& pre.path_ok(p)
    &&& ctx_extends(post, pre)
    &&& post.path_ok(r)
    &&& !r.spec_is_root()
    &&& post.spec_parent(r) == Some(p)
    &&& post.spec_last_key(r) == key
    &&& post.path_to_seq(r) == pre.path_to_seq(p).push(key)
    &&& post.path_level(r) == pre.path_level(p) + 1
    &&& post.find_child(p, key) == r.spec_seg()
    &&& post.spec_children_paths(p).contains(r)
    &&& match pre.find_child(p, key) {
        Some(c) => post == pre && r.spec_seg() == Some(c),
        None => post.arena_len() == pre.arena_len() + 1 && post.spec_display_of(r)
            == spec_guess_variant(key.len()) && post.spec_children_paths(p)
            == pre.spec_children_paths(p).push(r) && post.spec_children_paths(r) == Seq::<
            Path,
        >::empty() && (forall|k2: Seq<u8>| #[trigger] post.find_child(r, k2) is None),
    }
}

/// Structural sharing: asking twice for the same child of the same
/// parent returns the very same handle and leaves the arena untouched
/// the second time.
pub proof fn lemma_child_structural_sharing(
    pre: PathCtx,
    mid: PathCtx,
    post: PathCtx,
    p: Path,
    key: Seq<u8>,
    r1: Path,
    r2: Path,
)
    requires
        child_step(pre, mid, p, key, r1),
        child_step(mid, post, p, key, r2),
    ensures
        post == mid,
        r2 == r1,
{
    assert(mid.find_child(p, key) == r1.spec_seg());
    assert(r1.spec_seg() is Some);
}

/// Different edge labels under the same parent give different handles.
pub proof fn lemma_child_distinct_keys(
    pre: PathCtx,
    mid: PathCtx,
    post: PathCtx,
    p: Path,
    key_a: Seq<u8>,
    key_b: Seq<u8>,
    r_a: Path,
    r_b: Path,
)
    requires
        child_step(pre, mid, p, key_a, r_a),
        child_step(mid, post, p, key_b, r_b),
        key_a != key_b,
    ensures
        r_a != r_b,
{
    if r_a == r_b {
        assert(mid.path_ok(r_a));
        assert(post.path_to_seq(r_a) == mid.path_to_seq(r_a));
        assert(mid.path_to_seq(p) == pre.path_to_seq(p));
        let sa = pre.path_to_seq(p).push(key_a);
        let sb = mid.path_to_seq(p).push(key_b);
        assert(sa == sb);
        assert(sa.last() == key_a);
        assert(sb.last() == key_b);
    }
}

impl PathCtx {
    /// Front-to-back scanning finds the match at `j` when everything
    /// before differs.
    proof fn lemma_find_child_at(&self, ids: Seq<usize>, key: Seq<u8>, j: int)
        requires
            0 <= j < ids.len(),
            forall|j2: int| 0 <= j2 < j ==> self.arena@[#[trigger] ids[j2] as int].bytes@ != key,
            self.arena@[ids[j] as int].bytes@ == key,
        ensures
            self.find_child_in(ids, key) == Some(ids[j]),
        decreases j,
    {
        if j > 0 {
            self.lemma_find_child_at(ids.drop_first(), key, j - 1);
        }
    }

    /// The scan finds a child exactly when one of the listed slots
    /// carries the key's bytes.
    proof fn lemma_find_child_in_characterized(&self, ids: Seq<usize>, k: Seq<u8>)
        ensures
            match self.find_child_in(ids, k) {
                Some(c) => exists|j: int|
                    0 <= j < ids.len() && ids[j] == c && self.arena@[
                        #[trigger] ids[j] as int
                    ].bytes@ == k,
                None => forall|j: int|
                    0 <= j < ids.len() ==> self.arena@[#[trigger] ids[j] as int].bytes@ != k,
            },
        decreases ids.len(),
    {
        if ids.len() > 0 {
            if self.arena@[ids[0] as int].bytes@ == k {
                assert(exists|j: int|
                    0 <= j < ids.len() && ids[j] == ids[0] && self.arena@[
                        #[trigger] ids[j] as int
                    ].bytes@ == k) by {
                    assert(ids[0] == ids[0] && self.arena@[ids[0] as int].bytes@ == k);
                }
            } else {
                let rest = ids.drop_first();
                self.lemma_find_child_in_characterized(rest, k);
                match self.find_child_in(ids, k) {
                    Some(c) => {
                        let j = choose|j: int|
                            0 <= j < rest.len() && rest[j] == c && self.arena@[
                                #[trigger] rest[j] as int
                            ].bytes@ == k;
                        assert(ids[j + 1] == c && self.arena@[ids[j + 1] as int].bytes@ == k);
                    },
                    None => {
                        assert forall|j: int|
                            0 <= j < ids.len() implies self.arena@[
                            #[trigger] ids[j] as int
                        ].bytes@ != k by {
                            if j > 0 {
                                assert(rest[j - 1] == ids[j]);
                            }
                        }
                    },
                }
            }
        }
    }

    /// Scanning finds nothing when every entry differs.
    proof fn lemma_find_child_none(&self, ids: Seq<usize>, key: Seq<u8>)
        requires
            forall|j2: int| 0 <= j2 < ids.len() ==> self.arena@[#[trigger] ids[j2] as int].bytes@
                != key,
        ensures
            self.find_child_in(ids, key) is None,
        decreases ids.len(),
    {
        if ids.len() > 0 {
            self.lemma_find_child_none(ids.drop_first(), key);
        }
    }
}

/// A grown arena that keeps every old slot's bytes, parent and level
/// intact denotes the same address for every old handle.
proof fn lemma_to_seq_frame(pre: &PathCtx, post: &PathCtx, q: Path)
    requires
        pre.wf(),
        post.wf(),
        pre.path_ok(q),
        pre.arena@.len() <= post.arena@.len(),
        forall|i: int|
            0 <= i < pre.arena@.len() ==> (#[trigger] post.arena@[i]).bytes@ == pre.arena@[i].bytes@
                && post.arena@[i].parent == pre.arena@[i].parent && post.arena@[i].level
                == pre.arena@[i].level,
    ensures
        post.path_to_seq(q) == pre.path_to_seq(q),
        post.path_level(q) == pre.path_level(q),
    decreases pre.path_measure(q),
{
    match q.seg {
        None => {},
        Some(i) => {
            assert(pre.seg_ok(i as int));
            lemma_to_seq_frame(pre, post, Path { seg: pre.arena@[i as int].parent });
        },
    }
}

/// The root handle is valid in every arena: it denotes the empty
/// address, sits at level zero and has no parent.
pub proof fn lemma_root_properties(ctx: PathCtx)
    ensures
        ctx.path_ok(Path::spec_root()),
        Path::spec_root().spec_is_root(),
        ctx.path_level(Path::spec_root()) == 0,
        ctx.spec_parent(Path::spec_root()) is None,
        ctx.wf() ==> ctx.path_to_seq(Path::spec_root()) == Seq::<Seq<u8>>::empty(),
{
}

/// Walking to the parent strictly shrinks the termination measure and
/// drops the level by one.
pub proof fn lemma_parent_measure(ctx: PathCtx, p: Path)
    requires
        ctx.wf(),
        ctx.path_ok(p),
        ctx.spec_parent(p) is Some,
    ensures
        match ctx.spec_parent(p) {
            Some(q) => ctx.path_ok(q) && 0 <= ctx.path_measure(q) < ctx.path_measure(p)
                && ctx.path_level(q) == ctx.path_level(p) - 1,
            None => false,
        },
{
    if let Some(i) = p.seg {
        assert(ctx.seg_ok(i as int));
    }
}

/// A handle has no parent exactly when it is the root.
pub proof fn lemma_parent_none_iff_root(ctx: PathCtx, p: Path)
    ensures
        (ctx.spec_parent(p) is None) == p.spec_is_root(),
{
}

/// One step of the strict-descendant relation: an address strictly
/// below `a` is one whose parent is `a` or lies strictly below `a`.
pub proof fn lemma_descendant_step(ctx: PathCtx, p: Path, a: Path)
    requires
        ctx.wf(),
        ctx.path_ok(p),
    ensures
        p.spec_is_strict_descendant_of(ctx, a) == (match ctx.spec_parent(p) {
            Some(q) => q == a || q.spec_is_strict_descendant_of(ctx, a),
            None => false,
        }),
{
    if let Some(i) = p.seg {
        assert(ctx.seg_ok(i as int));
    }
}

/// What the interned-child lookup means over the child list: a child
/// is found exactly when one of the children carries the key's bytes.
pub proof fn lemma_find_child_characterized(ctx: PathCtx, p: Path, k: Seq<u8>)
    requires
        ctx.wf(),
        ctx.path_ok(p),
    ensures
        match ctx.find_child(p, k) {
            Some(c) => exists|j: int|
                #![auto]
                0 <= j < ctx.spec_children_paths(p).len() && ctx.spec_children_paths(p)[j].spec_seg()
                    == Some(c) && ctx.spec_last_key(ctx.spec_children_paths(p)[j]) == k,
            None => forall|j: int|
                0 <= j < ctx.spec_children_paths(p).len() ==> ctx.spec_last_key(
                    #[trigger] ctx.spec_children_paths(p)[j],
                ) != k,
        },
{
    let ids = ctx.children_of(p);
    assert(forall|j: int| 0 <= j < ids.len() ==> (#[trigger] ids[j] as int) < ctx.arena@.len())
        by {
        if let Some(i) = p.seg {
            assert(ctx.seg_ok(i as int));
        }
    }
    ctx.lemma_find_child_in_characterized(ids, k);
    match ctx.find_child(p, k) {
        Some(c) => {
            let j = choose|j: int|
                0 <= j < ids.len() && ids[j] == c && ctx.arena@[#[trigger] ids[j] as int].bytes@
                    == k;
            assert(ctx.spec_children_paths(p)[j].spec_seg() == Some(c));
        },
        None => {},
    }
}

/// A strict descendant lies strictly deeper in the arena, so no
/// address is its own strict descendant.
pub proof fn lemma_strict_descendant_measure(ctx: PathCtx, q: Path, p: Path)
    requires
        ctx.wf(),
        ctx.path_ok(q),
        q.spec_is_strict_descendant_of(ctx, p),
    ensures
        ctx.path_ok(p),
        ctx.path_measure(p) < ctx.path_measure(q),
    decreases ctx.path_measure(q),
{
    if let Some(i) = q.seg {
        assert(ctx.seg_ok(i as int));
        let par = Path { seg: ctx.arena@[i as int].parent };
        lemma_parent_measure(ctx, q);
        if par == p {
        } else {
            lemma_strict_descendant_measure(ctx, par, p);
        }
    }
}

/// In one well-formed arena, equal addresses mean equal handles: the
/// byte sequence of a path determines it.
pub proof fn lemma_path_identity(ctx: &PathCtx, p: Path, q: Path)
    requires
        ctx.wf(),
        ctx.path_ok(p),
        ctx.path_ok(q),
        ctx.path_to_seq(p) == ctx.path_to_seq(q),
    ensures
        p == q,
    decreases ctx.path_measure(p),
{
    match (p.seg, q.seg) {
        (None, None) => {},
        (None, Some(j)) => {
            assert(ctx.path_to_seq(q).len() > 0);
        },
        (Some(i), None) => {
            assert(ctx.path_to_seq(p).len() > 0);
        },
        (Some(i), Some(j)) => {
            if i != j {
                assert(ctx.seg_ok(i as int));
                assert(ctx.seg_ok(j as int));
                let pp = Path { seg: ctx.arena@[i as int].parent };
                let qp = Path { seg: ctx.arena@[j as int].parent };
                let sp = ctx.path_to_seq(pp);
                let sq = ctx.path_to_seq(qp);
                assert(ctx.path_to_seq(p) == sp.push(ctx.arena@[i as int].bytes@));
                assert(ctx.path_to_seq(q) == sq.push(ctx.arena@[j as int].bytes@));
                assert(sp.push(ctx.arena@[i as int].bytes@).last() == ctx.arena@[i as int].bytes@);
                assert(sq.push(ctx.arena@[j as int].bytes@).last() == ctx.arena@[j as int].bytes@);
                assert(ctx.arena@[i as int].bytes@ == ctx.arena@[j as int].bytes@);
                let bi = ctx.arena@[i as int].bytes@;
                let bj = ctx.arena@[j as int].bytes@;
                assert(sp =~= sq) by {
                    assert(sp.len() == sq.len());
                    assert forall|k: int| 0 <= k < sp.len() implies sp[k] == sq[k] by {
                        assert(sp.push(bi)[k] == sp[k]);
                        assert(sq.push(bj)[k] == sq[k]);
                        assert(sp.push(bi) == sq.push(bj));
                    }
                }
                lemma_path_identity(ctx, pp, qp);
                // Both segments are children of the same parent with the
                // same bytes; siblings carry pairwise distinct bytes.
                if let Some(pi) = pp.seg {
                    assert(ctx.seg_ok(pi as int));
                }
                let kids = ctx.children_of(pp);
                assert(kids.contains(i as usize));
                assert(kids.contains(j as usize));
                let k1 = choose|k: int| 0 <= k < kids.len() && kids[k] == i as usize;
                let k2 = choose|k: int| 0 <= k < kids.len() && kids[k] == j as usize;
                assert(kids[k1] == i as usize);
                assert(kids[k2] == j as usize);
                assert(k1 != k2);
                if k1 < k2 {
                    assert(ctx.arena@[kids[k1] as int].bytes@ != ctx.arena@[kids[k2] as int].bytes@);
                } else {
                    assert(ctx.arena@[kids[k2] as int].bytes@ != ctx.arena@[kids[k1] as int].bytes@);
                }
                assert(false);
            }
        },
    }
}

impl Path {
    /// The arena slot this handle denotes, `None` for the root.
    pub closed spec fn spec_seg(&self) -> Option<usize> {
        self.seg
    }

    /// The root handle as a spec value.
    pub closed spec fn spec_root() -> Path {
        Path { seg: None }
    }

    /// True exactly for the root handle.
    pub closed spec fn spec_is_root(&self) -> bool {
        self.seg is None
    }

    /// True exactly for the root handle.
    pub fn is_root(&self) -> (r: bool)
        ensures
            r == self.spec_is_root(),
    {
        self.seg.is_none()
    }

    /// The root handle of the forest this handle belongs to.
    pub fn get_root(&self) -> (r: Path)
        ensures
            r == Path::spec_root(),
            r.spec_is_root(),
    {
        Path { seg: None }
    }

    /// Depth of this address: the root has level 0, each segment adds 1.
    pub fn level(&self, ctx: &PathCtx) -> (r: usize)
        requires
            ctx.wf(),
            ctx.path_ok(*self),
        ensures
            r as int == ctx.path_level(*self),
    {
        match self.seg {
            None => 0,
            Some(i) => ctx.arena[i].level,
        }
    }

    /// The interned child of this address labelled `key`.
    ///
    /// Returns the existing child when one already carries these bytes —
    /// that is the structural-sharing guarantee — and otherwise appends
    /// one fresh segment to the arena.
    pub fn child(&self, ctx: &mut PathCtx, key: Vec<u8>) -> (r: Path)
        requires
            old(ctx).wf(),
            old(ctx).path_ok(*self),
        ensures
            final(ctx).wf(),
            child_step(*old(ctx), *final(ctx), *self, key@, r),
    {
        let ghost ids = ctx.children_of(*self);
        let n = match self.seg {
            None => ctx.root_children.len(),
            Some(i) => ctx.arena[i].children.len(),
        };
        proof {
            if let Some(i) = self.seg {
                assert(ctx.seg_ok(i as int));
            }
        }
        let mut j: usize = 0;
        while j < n
            invariant
                *ctx == *old(ctx),
                ctx.wf(),
                ctx.path_ok(*self),
                ids == ctx.children_of(*self),
                n == ids.len(),
                j <= n,
                forall|j2: int| 0 <= j2 < j ==> ctx.arena@[#[trigger] ids[j2] as int].bytes@
                    != key@,
            decreases n - j,
        {
            proof {
                if let Some(i) = self.seg {
                    assert(ctx.seg_ok(i as int));
                }
            }
            let cid = match self.seg {
                None => ctx.root_children[j],
                Some(i) => ctx.arena[i].children[j],
            };
            if crate::bytes_utils::bytes_eq(&ctx.arena[cid].bytes, &key) {
                let r = Path { seg: Some(cid) };
                proof {
                    ctx.lemma_find_child_at(ids, key@, j as int);
                    assert(ctx.seg_ok(cid as int));
                    assert(ctx.spec_parent(r) == Some(*self));
                    assert(ctx.path_to_seq(r) == ctx.path_to_seq(*self).push(key@));
                    assert(ctx.spec_children_paths(*self).contains(r)) by {
                        assert(ctx.spec_children_paths(*self)[j as int] == r);
                    }
                }
                return r;
            }
            j += 1;
        }
        proof {
            ctx.lemma_find_child_none(ids, key@);
        }
        let ghost pre = *ctx;
        let idx = ctx.arena.len();
        let parent_level = match self.seg {
            None => 0,
            Some(i) => ctx.arena[i].level,
        };
        let display = crate::bytes_utils::BytesDisplayVariant::guess(key.as_slice());
        ctx.arena.push(
            PathSegment {
                bytes: key,
                parent: self.seg,
                children: Vec::new(),
                level: 0,
                display,
                profiles_alias: None,
                visible: false,
            },
        );
        let new_len = ctx.arena.len();
        proof {
            // The arena length fits in usize, so the new level does too.
            assert(ctx.arena@.len() == idx + 1);
            assert(new_len == idx + 1);
            assert(idx < usize::MAX);
            if let Some(i) = self.seg {
                assert(pre.seg_ok(i as int));
                assert(parent_level <= idx);
            }
        }
        ctx.arena[idx].level = parent_level + 1;
        match self.seg {
            None => ctx.root_children.push(idx),
            Some(i) => ctx.arena[i].children.push(idx),
        }
        let r = Path { seg: Some(idx) };
        proof {
            let post = *ctx;
            assert(post.arena@.len() == pre.arena@.len() + 1);
            assert(post.arena@[idx as int].bytes@ == key@);
            assert(post.arena@[idx as int].parent == self.seg);
            assert(post.arena@[idx as int].level == parent_level + 1);
            assert(post.arena@[idx as int].children@ =~= Seq::<usize>::empty());
            // Old slots keep their identifying fields; only the parent's
            // child list grows.
            assert(forall|i2: int|
                0 <= i2 < pre.arena@.len() ==> (#[trigger] post.arena@[i2]).bytes@
                    == pre.arena@[i2].bytes@ && post.arena@[i2].parent == pre.arena@[i2].parent
                    && post.arena@[i2].level == pre.arena@[i2].level);
            assert(post.children_of(*self) =~= pre.children_of(*self).push(idx));
            assert(forall|q: Path|
                !(q == *self) && pre.path_ok(q) ==> #[trigger] post.children_of(q)
                    == pre.children_of(q));
            // Well-formedness of every slot in the grown arena.
            assert forall|i2: int| 0 <= i2 < post.arena@.len() implies post.seg_ok(i2) by {
                let kids = post.arena@[i2].children@;
                if i2 == idx as int {
                    if let Some(i) = self.seg {
                        assert(pre.seg_ok(i as int));
                        assert(post.arena@[i as int].children@.last() == idx);
                    } else {
                        assert(post.root_children@.last() == idx);
                    }
                } else {
                    assert(pre.seg_ok(i2));
                    let pre_kids = pre.arena@[i2].children@;
                    assert(forall|k: int|
                        0 <= k < pre_kids.len() ==> pre_kids[k] == #[trigger] kids[k]);
                    if self.seg == Some(i2 as usize) {
                        assert(kids =~= pre_kids.push(idx));
                        assert(forall|j2: int|
                            0 <= j2 < pre_kids.len() ==> post.arena@[#[trigger] pre_kids[j2] as int].bytes@
                                != key@);
                    } else {
                        assert(kids == pre_kids);
                    }
                    match post.arena@[i2].parent {
                        Some(p2) => {
                            assert(pre.arena@[p2 as int].children@.contains(i2 as usize));
                            let k0 = choose|k: int|
                                0 <= k < pre.arena@[p2 as int].children@.len()
                                    && pre.arena@[p2 as int].children@[k] == i2 as usize;
                            assert(post.arena@[p2 as int].children@[k0] == i2 as usize);
                        },
                        None => {
                            assert(pre.root_children@.contains(i2 as usize));
                            let k0 = choose|k: int|
                                0 <= k < pre.root_children@.len() && pre.root_children@[k]
                                    == i2 as usize;
                            assert(post.root_children@[k0] == i2 as usize);
                        },
                    }
                }
            }
            assert(post.wf());
            // Old paths keep their addresses.
            assert forall|q: Path| #[trigger] pre.path_ok(q) implies post.path_ok(q)
                && post.path_to_seq(q) == pre.path_to_seq(q) && post.path_level(q)
                == pre.path_level(q) && post.spec_last_key(q) == pre.spec_last_key(q)
                && post.spec_parent(q) == pre.spec_parent(q) by {
                lemma_to_seq_frame(&pre, &post, q);
            }
            // The new segment is the interned child for `key` now.
            post.lemma_find_child_at(post.children_of(*self), key@, pre.children_of(*self).len() as int);
            assert(post.find_child(*self, key@) == Some(idx));
            assert(post.spec_parent(r) == Some(*self));
            assert(post.path_to_seq(r) == post.path_to_seq(*self).push(key@));
            assert(post.spec_children_paths(*self) =~= pre.spec_children_paths(*self).push(r));
            assert(post.spec_children_paths(*self).contains(r)) by {
                assert(post.spec_children_paths(*self)[post.spec_children_paths(*self).len() - 1]
                    == r);
            }
            assert(post.children_of(r) =~= Seq::<usize>::empty());
            assert(post.spec_children_paths(r) =~= Seq::<Path>::empty());
            assert forall|k2: Seq<u8>| #[trigger] post.find_child(r, k2) is None by {
                post.lemma_find_child_none(post.children_of(r), k2);
            }
            assert(child_step(pre, post, *self, key@, r));
        }
        r
    }

    /// The parent address together with the last edge label; `None`
    /// only for the root.
    pub fn parent_with_key(&self, ctx: &PathCtx) -> (r: Option<(Path, Vec<u8>)>)
        requires
            ctx.wf(),
            ctx.path_ok(*self),
        ensures
            match r {
                Some(qk) => {
                    &&& !self.spec_is_root()
                    &&& Some(qk.0) == ctx.spec_parent(*self)
                    &&& qk.1@ == ctx.spec_last_key(*self)
                    &&& ctx.path_ok(qk.0)
                    &&& ctx.path_level(qk.0) == ctx.path_level(*self) - 1
                    &&& ctx.path_to_seq(*self) == ctx.path_to_seq(qk.0).push(qk.1@)
                },
                None => self.spec_is_root() && ctx.spec_parent(*self) is None,
            },
    {
        match self.seg {
            None => None,
            Some(i) => {
                proof {
                    assert(ctx.seg_ok(i as int));
                }
                let q = Path { seg: ctx.arena[i].parent };
                let k = crate::bytes_utils::clone_bytes(&ctx.arena[i].bytes);
                Some((q, k))
            },
        }
    }

    /// The full byte-sequence address, root first. Walks parent links
    /// and so costs one step per level.
    pub fn to_vec(&self, ctx: &PathCtx) -> (r: Vec<Vec<u8>>)
        requires
            ctx.wf(),
            ctx.path_ok(*self),
        ensures
            r.deep_view() == ctx.path_to_seq(*self),
        decreases ctx.path_measure(*self),
    {
        match self.seg {
            None => Vec::new(),
            Some(i) => {
                proof {
                    assert(ctx.seg_ok(i as int));
                }
                let par = Path { seg: ctx.arena[i].parent };
                let mut v = par.to_vec(ctx);
                v.push(crate::bytes_utils::clone_bytes(&ctx.arena[i].bytes));
                proof {
                    assert(v.deep_view() =~~= ctx.path_to_seq(*self));
                }
                v
            },
        }
    }

    /// A borrow of the interned segment this address ends in; `None`
    /// only for the root.
    pub fn last_segment<'a>(&self, ctx: &'a PathCtx) -> (r: Option<&'a PathSegment>)
        requires
            ctx.wf(),
            ctx.path_ok(*self),
        ensures
            match r {
                Some(s) => !self.spec_is_root() && s.spec_bytes() == ctx.spec_last_key(*self)
                    && s.spec_display() == ctx.spec_display_of(*self) && s.spec_alias()
                    == ctx.spec_alias_of(*self) && s.spec_visible() == ctx.spec_visible_of(*self),
                None => self.spec_is_root(),
            },
    {
        match self.seg {
            None => None,
            Some(i) => Some(&ctx.arena[i]),
        }
    }

    /// The profile alias attached to the last segment, if any.
    pub fn get_profiles_alias(&self, ctx: &PathCtx) -> (r: Option<String>)
        requires
            ctx.wf(),
            ctx.path_ok(*self),
        ensures
            match r {
                Some(a) => ctx.spec_alias_of(*self) matches Some(b) && a@ == b@,
                None => ctx.spec_alias_of(*self) is None,
            },
    {
        match self.seg {
            None => None,
            Some(i) => match &ctx.arena[i].profiles_alias {
                Some(a) => Some(a.clone()),
                None => None,
            },
        }
    }

    /// Removes the profile alias of the last segment. No-op on the root.
    pub fn clear_profile_alias(&self, ctx: &mut PathCtx)
        requires
            old(ctx).wf(),
            old(ctx).path_ok(*self),
        ensures
            final(ctx).wf(),
            ctx_extends(*final(ctx), *old(ctx)),
            final(ctx).arena_len() == old(ctx).arena_len(),
            final(ctx).spec_alias_of(*self) is None,
            forall|q: Path|
                old(ctx).path_ok(q) && !(q == *self) ==> #[trigger] final(ctx).spec_alias_of(q)
                    == old(ctx).spec_alias_of(q),
    {
        if let Some(i) = self.seg {
            ctx.arena[i].profiles_alias = None;
            proof {
                lemma_nonstructural_update(*old(ctx), *ctx);
            }
        }
    }

    /// The rendering chosen for the last segment; `None` for the root.
    pub fn get_display_variant(&self, ctx: &PathCtx) -> (r: Option<BytesDisplayVariant>)
        requires
            ctx.wf(),
            ctx.path_ok(*self),
        ensures
            match r {
                Some(d) => !self.spec_is_root() && d == ctx.spec_display_of(*self),
                None => self.spec_is_root(),
            },
    {
        match self.seg {
            None => None,
            Some(i) => Some(ctx.arena[i].display),
        }
    }

    /// Chooses the rendering of the last segment. No-op on the root.
    pub fn update_display_variant(&self, ctx: &mut PathCtx, display: BytesDisplayVariant)
        requires
            old(ctx).wf(),
            old(ctx).path_ok(*self),
        ensures
            final(ctx).wf(),
            ctx_extends(*final(ctx), *old(ctx)),
            final(ctx).arena_len() == old(ctx).arena_len(),
            !self.spec_is_root() ==> final(ctx).spec_display_of(*self) == display,
            forall|q: Path|
                old(ctx).path_ok(q) && !(q == *self) ==> #[trigger] final(ctx).spec_display_of(q)
                    == old(ctx).spec_display_of(q),
    {
        if let Some(i) = self.seg {
            ctx.arena[i].display = display;
            proof {
                lemma_nonstructural_update(*old(ctx), *ctx);
            }
        }
    }

    /// Whether the subtree at this address is currently shown; the root
    /// is never marked.
    pub fn visible(&self, ctx: &PathCtx) -> (r: bool)
        requires
            ctx.wf(),
            ctx.path_ok(*self),
        ensures
            r == ctx.spec_visible_of(*self),
    {
        match self.seg {
            None => false,
            Some(i) => ctx.arena[i].visible,
        }
    }

    /// Shows or hides the subtree at this address. No-op on the root.
    pub fn set_visible(&self, ctx: &mut PathCtx, visible: bool)
        requires
            old(ctx).wf(),
            old(ctx).path_ok(*self),
        ensures
            final(ctx).wf(),
            ctx_extends(*final(ctx), *old(ctx)),
            final(ctx).arena_len() == old(ctx).arena_len(),
            !self.spec_is_root() ==> final(ctx).spec_visible_of(*self) == visible,
            forall|q: Path|
                old(ctx).path_ok(q) && !(q == *self) ==> #[trigger] final(ctx).spec_visible_of(q)
                    == old(ctx).spec_visible_of(q),
    {
        if let Some(i) = self.seg {
            ctx.arena[i].visible = visible;
            proof {
                lemma_nonstructural_update(*old(ctx), *ctx);
            }
        }
    }

    /// Marks this address as the target for query building.
    pub fn select_for_query(&self, ctx: &mut PathCtx)
        requires
            old(ctx).wf(),
            old(ctx).path_ok(*self),
        ensures
            final(ctx).wf(),
            ctx_extends(*final(ctx), *old(ctx)),
            final(ctx).arena_len() == old(ctx).arena_len(),
            final(ctx).spec_selected_for_query() == Some(*self),
    {
        ctx.selected_for_query = Some(*self);
        proof {
            lemma_nonstructural_update(*old(ctx), *ctx);
        }
    }

    /// The parent address; `None` only for the root.
    pub fn parent(&self, ctx: &PathCtx) -> (r: Option<Path>)
        requires
            ctx.wf(),
            ctx.path_ok(*self),
        ensures
            r == ctx.spec_parent(*self),
            match r {
                Some(q) => ctx.path_ok(q) && ctx.path_to_seq(q) == ctx.path_to_seq(
                    *self,
                ).drop_last() && ctx.path_level(q) == ctx.path_level(*self) - 1,
                None => self.spec_is_root(),
            },
    {
        match self.seg {
            None => None,
            Some(i) => {
                let q = Path { seg: ctx.arena[i].parent };
                proof {
                    assert(ctx.seg_ok(i as int));
                    assert(ctx.path_to_seq(*self) == ctx.path_to_seq(q).push(
                        ctx.arena@[i as int].bytes@,
                    ));
                    assert(ctx.path_to_seq(*self).drop_last() =~= ctx.path_to_seq(q));
                }
                Some(q)
            },
        }
    }
}

/// Changing only renderings, aliases or visibility flags disturbs
/// neither well-formedness nor any address.
proof fn lemma_nonstructural_update(pre: PathCtx, post: PathCtx)
    requires
        pre.wf(),
        post.arena@.len() == pre.arena@.len(),
        forall|i: int|
            0 <= i < pre.arena@.len() ==> (#[trigger] post.arena@[i]).bytes@ == pre.arena@[i].bytes@
                && post.arena@[i].parent == pre.arena@[i].parent && post.arena@[i].level
                == pre.arena@[i].level && post.arena@[i].children@ == pre.arena@[i].children@,
        post.root_children@ == pre.root_children@,
        match post.selected_for_query {
            Some(p) => pre.path_ok(p),
            None => true,
        },
    ensures
        post.wf(),
        ctx_extends(post, pre),
        post.arena_len() == pre.arena_len(),
{
    assert forall|i: int| 0 <= i < post.arena@.len() implies post.seg_ok(i) by {
        assert(pre.seg_ok(i));
    }
    assert(post.wf());
    assert forall|q: Path| #[trigger] pre.path_ok(q) implies post.path_ok(q) && post.path_to_seq(q)
        == pre.path_to_seq(q) && post.path_level(q) == pre.path_level(q) && post.spec_last_key(q)
        == pre.spec_last_key(q) && post.spec_parent(q) == pre.spec_parent(q) by {
        lemma_to_seq_frame(&pre, &post, q);
    }
}

impl PathCtx {
    /// The rendering chosen for the last segment of an address.
    pub closed spec fn spec_display_of(&self, p: Path) -> BytesDisplayVariant {
        match p.seg {
            None => BytesDisplayVariant::U8,
            Some(i) => self.arena@[i as int].display,
        }
    }

    /// The profile alias of the last segment of an address.
    pub closed spec fn spec_alias_of(&self, p: Path) -> Option<String> {
        match p.seg {
            None => None,
            Some(i) => self.arena@[i as int].profiles_alias,
        }
    }

    /// Whether the last segment of an address is marked visible.
    pub closed spec fn spec_visible_of(&self, p: Path) -> bool {
        match p.seg {
            None => false,
            Some(i) => self.arena@[i as int].visible,
        }
    }

    /// The child handles of an address, in interning order.
    pub closed spec fn spec_children_paths(&self, p: Path) -> Seq<Path> {
        self.children_of(p).map_values(|id: usize| Path { seg: Some(id) })
    }

    /// Interns a whole byte-sequence address, reusing every segment that
    /// already exists, and returns the canonical handle for it.
    pub fn add_path(&mut self, path: Vec<Vec<u8>>) -> (r: Path)
        requires
            old(self).wf(),
        ensures
            final(self).wf(),
            ctx_extends(*final(self), *old(self)),
            final(self).path_ok(r),
            final(self).path_to_seq(r) == path.deep_view(),
            final(self).path_level(r) == path@.len(),
    {
        self.add_iter(path.as_slice())
    }

    /// Interns a whole address given as borrowed segments.
    pub fn add_iter(&mut self, segments: &[Vec<u8>]) -> (r: Path)
        requires
            old(self).wf(),
        ensures
            final(self).wf(),
            ctx_extends(*final(self), *old(self)),
            final(self).path_ok(r),
            final(self).path_to_seq(r) == segments.deep_view(),
            final(self).path_level(r) == segments@.len(),
    {
        let mut cur = Path { seg: None };
        let mut k: usize = 0;
        let n = segments.len();
        while k < n
            invariant
                self.wf(),
                ctx_extends(*self, *old(self)),
                self.path_ok(cur),
                k <= n,
                n == segments@.len(),
                self.path_to_seq(cur) == segments.deep_view().take(k as int),
                self.path_level(cur) == k as int,
            decreases n - k,
        {
            let key = crate::bytes_utils::clone_bytes(&segments[k]);
            let ghost mid = *self;
            let next = cur.child(self, key);
            proof {
                lemma_extends_trans(*old(self), mid, *self);
                assert(self.path_to_seq(next) =~= segments.deep_view().take(k as int + 1)) by {
                    assert(self.path_to_seq(next) == mid.path_to_seq(cur).push(key@));
                    assert(segments.deep_view()[k as int] == segments@[k as int]@);
                }
            }
            cur = next;
            k += 1;
        }
        proof {
            assert(segments.deep_view().take(n as int) =~= segments.deep_view());
        }
        cur
    }

    /// Interns an address and attaches a profile alias to its last
    /// segment. An empty address gets no alias: the root has no segment.
    pub fn add_profiles_alias(&mut self, path: Vec<Vec<u8>>, profiles_alias: String) -> (r: Path)
        requires
            old(self).wf(),
        ensures
            final(self).wf(),
            ctx_extends(*final(self), *old(self)),
            final(self).path_ok(r),
            final(self).path_to_seq(r) == path.deep_view(),
            !r.spec_is_root() ==> (final(self).spec_alias_of(r) matches Some(a) && a@
                == profiles_alias@),
    {
        let r = self.add_path(path);
        if let Some(i) = r.seg {
            let ghost mid = *self;
            self.arena[i].profiles_alias = Some(profiles_alias);
            proof {
                lemma_nonstructural_update(mid, *self);
                lemma_extends_trans(*old(self), mid, *self);
            }
        }
        r
    }
}

impl Path {
    /// True when `p` lies strictly above this address, that is, this
    /// address extends `p` by at least one segment.
    pub closed spec fn spec_is_strict_descendant_of(&self, ctx: PathCtx, p: Path) -> bool
        decreases ctx.path_measure(*self),
        when ctx.wf() && ctx.path_ok(*self)
        via Self::spec_is_strict_descendant_of_decreases
    {
        match self.seg {
            None => false,
            Some(i) => {
                let par = Path { seg: ctx.arena@[i as int].parent };
                par == p || par.spec_is_strict_descendant_of(ctx, p)
            },
        }
    }

    #[via_fn]
    proof fn spec_is_strict_descendant_of_decreases(&self, ctx: PathCtx, p: Path) {
        if let Some(i) = self.seg {
            assert(ctx.seg_ok(i as int));
        }
    }

    /// Whether `p` is a strict ancestor of this address.
    pub fn is_strict_descendant_of(&self, ctx: &PathCtx, p: Path) -> (r: bool)
        requires
            ctx.wf(),
            ctx.path_ok(*self),
        ensures
            r == self.spec_is_strict_descendant_of(*ctx, p),
        decreases ctx.path_measure(*self),
    {
        match self.seg {
            None => false,
            Some(i) => {
                proof {
                    assert(ctx.seg_ok(i as int));
                }
                let par = Path { seg: ctx.arena[i].parent };
                if par == p {
                    true
                } else {
                    par.is_strict_descendant_of(ctx, p)
                }
            },
        }
    }

    /// The handles of this address's children, in interning order.
    pub fn children(&self, ctx: &PathCtx) -> (r: Vec<Path>)
        requires
            ctx.wf(),
            ctx.path_ok(*self),
        ensures
            r@ == ctx.spec_children_paths(*self),
            forall|k: int|
                0 <= k < r@.len() ==> ctx.path_ok(#[trigger] r@[k]) && ctx.spec_parent(r@[k])
                    == Some(*self) && !r@[k].spec_is_root(),
    {
        let ghost ids = ctx.children_of(*self);
        let n = match self.seg {
            None => ctx.root_children.len(),
            Some(i) => ctx.arena[i].children.len(),
        };
        proof {
            if let Some(i) = self.seg {
                assert(ctx.seg_ok(i as int));
            }
        }
        let mut r: Vec<Path> = Vec::new();
        let mut j: usize = 0;
        while j < n
            invariant
                ctx.wf(),
                ctx.path_ok(*self),
                ids == ctx.children_of(*self),
                n == ids.len(),
                j <= n,
                r@.len() == j,
                forall|k: int| 0 <= k < j ==> #[trigger] r@[k] == ctx.spec_children_paths(*self)[k],
            decreases n - j,
        {
            proof {
                if let Some(i) = self.seg {
                    assert(ctx.seg_ok(i as int));
                }
            }
            let cid = match self.seg {
                None => ctx.root_children[j],
                Some(i) => ctx.arena[i].children[j],
            };
            r.push(Path { seg: Some(cid) });
            j += 1;
        }
        proof {
            assert(r@ =~= ctx.spec_children_paths(*self));
            assert forall|k: int| 0 <= k < r@.len() implies ctx.path_ok(#[trigger] r@[k])
                && ctx.spec_parent(r@[k]) == Some(*self) && !r@[k].spec_is_root() by {
                if let Some(i) = self.seg {
                    assert(ctx.seg_ok(i as int));
                } else {
                    assert(ctx.root_children@.contains(ids[k])) by {
                        assert(ctx.root_children@[k] == ids[k]);
                    }
                }
            }
        }
        r
    }

    /// Every address strictly below this one, each exactly once, in
    /// breadth-first order: a descendant's level never decreases along
    /// the result. Used for cascading operations such as hiding a
    /// whole branch.
    pub fn descendants(&self, ctx: &PathCtx) -> (r: Vec<Path>)
        requires
            ctx.wf(),
            ctx.path_ok(*self),
        ensures
            forall|q: Path| #[trigger]
                r@.contains(q) ==> ctx.path_ok(q) && q.spec_is_strict_descendant_of(*ctx, *self),
            forall|q: Path|
                ctx.path_ok(q) && #[trigger] q.spec_is_strict_descendant_of(*ctx, *self)
                    ==> r@.contains(q),
            forall|a: int, b: int| 0 <= a < b < r@.len() ==> r@[a] != r@[b],
            forall|a: int, b: int|
                0 <= a < b < r@.len() ==> ctx.path_level(#[trigger] r@[a]) <= ctx.path_level(
                    #[trigger] r@[b],
                ),
    {
        let mut r: Vec<Path> = Vec::new();
        let n = ctx.arena.len();
        let mut lvl_idx: usize = 0;
        proof {
            assert(r@ =~= Seq::<Path>::empty());
            // No strict descendant sits at level zero: descendants are
            // segments, and every segment's level is at least one.
            assert forall|q: Path|
                ctx.path_ok(q) && #[trigger] q.spec_is_strict_descendant_of(*ctx, *self)
                    && ctx.path_level(q) <= 0 implies r@.contains(q) by {
                match q.spec_seg() {
                    None => {
                        assert(q == (Path { seg: None }));
                        assert((Path { seg: None }).spec_is_strict_descendant_of(*ctx, *self)
                            == false);
                    },
                    Some(i2) => {
                        assert(ctx.seg_ok(i2 as int));
                    },
                }
            }
        }
        while lvl_idx < n
            invariant
                ctx.wf(),
                ctx.path_ok(*self),
                n == ctx.arena@.len(),
                lvl_idx <= n,
                forall|q: Path| #[trigger]
                    r@.contains(q) ==> ctx.path_ok(q) && q.spec_is_strict_descendant_of(
                        *ctx,
                        *self,
                    ) && ctx.path_level(q) <= lvl_idx,
                forall|q: Path|
                    ctx.path_ok(q) && #[trigger] q.spec_is_strict_descendant_of(*ctx, *self)
                        && ctx.path_level(q) <= lvl_idx ==> r@.contains(q),
                forall|a: int, b: int| 0 <= a < b < r@.len() ==> r@[a] != r@[b],
                forall|a: int, b: int|
                    0 <= a < b < r@.len() ==> ctx.path_level(#[trigger] r@[a]) <= ctx.path_level(
                        #[trigger] r@[b],
                    ),
            decreases n - lvl_idx,
        {
            // Collect the next level in arena order: one pass per level
            // makes the walk breadth first.
            let lvl = lvl_idx + 1;
            let mut i: usize = 0;
            proof {
                assert forall|q: Path|
                    ctx.path_ok(q) && #[trigger] q.spec_is_strict_descendant_of(*ctx, *self)
                        && (ctx.path_level(q) <= lvl_idx || (ctx.path_level(q) == lvl
                        && (match q.spec_seg() {
                        Some(s) => (s as int) < 0,
                        None => false,
                    }))) implies r@.contains(q) by {
                    assert(ctx.path_level(q) <= lvl_idx);
                }
                assert forall|a: int| 0 <= a < r@.len() implies ctx.path_level(
                    #[trigger] r@[a],
                ) <= lvl by {
                    assert(r@.contains(r@[a]));
                }
            }
            while i < n
                invariant
                    ctx.wf(),
                    ctx.path_ok(*self),
                    n == ctx.arena@.len(),
                    lvl == lvl_idx + 1,
                    lvl_idx < n,
                    i <= n,
                    forall|q: Path| #[trigger]
                        r@.contains(q) ==> ctx.path_ok(q) && q.spec_is_strict_descendant_of(
                            *ctx,
                            *self,
                        ) && ctx.path_level(q) <= lvl,
                    forall|q: Path| #[trigger]
                        r@.contains(q) ==> (ctx.path_level(q) <= lvl_idx || (match q.spec_seg() {
                            Some(s) => (s as int) < i,
                            None => false,
                        })),
                    forall|q: Path|
                        ctx.path_ok(q) && #[trigger] q.spec_is_strict_descendant_of(*ctx, *self)
                            && (ctx.path_level(q) <= lvl_idx || (ctx.path_level(q) == lvl
                            && (match q.spec_seg() {
                            Some(s) => (s as int) < i,
                            None => false,
                        }))) ==> r@.contains(q),
                    forall|a: int, b: int| 0 <= a < b < r@.len() ==> r@[a] != r@[b],
                    forall|a: int, b: int|
                        0 <= a < b < r@.len() ==> ctx.path_level(#[trigger] r@[a])
                            <= ctx.path_level(#[trigger] r@[b]),
                    forall|a: int| 0 <= a < r@.len() ==> ctx.path_level(#[trigger] r@[a]) <= lvl,
                decreases n - i,
            {
                let q = Path { seg: Some(i) };
                if ctx.arena[i].level == lvl && q.is_strict_descendant_of(ctx, *self) {
                    let ghost r_old = r@;
                    r.push(q);
                    proof {
                        assert(ctx.path_level(q) == lvl);
                        assert(!r_old.contains(q));
                        assert forall|q2: Path| r_old.contains(q2) implies r@.contains(q2) by {
                            let k = choose|k: int| 0 <= k < r_old.len() && r_old[k] == q2;
                            assert(r@[k] == q2);
                        }
                        assert(r@.contains(q)) by {
                            assert(r@[r@.len() - 1] == q);
                        }
                        assert forall|q2: Path| #[trigger] r@.contains(q2) implies r_old.contains(
                            q2,
                        ) || q2 == q by {
                            let k = choose|k: int| 0 <= k < r@.len() && r@[k] == q2;
                            if k < r_old.len() {
                                assert(r_old[k] == q2);
                            }
                        }
                    }
                }
                i += 1;
            }
            proof {
                assert forall|q: Path|
                    ctx.path_ok(q) && #[trigger] q.spec_is_strict_descendant_of(*ctx, *self)
                        && ctx.path_level(q) <= lvl implies r@.contains(q) by {
                    match q.spec_seg() {
                        None => {
                            assert(q == (Path { seg: None }));
                            assert((Path { seg: None }).spec_is_strict_descendant_of(*ctx, *self)
                                == false);
                        },
                        Some(i2) => {
                            assert((i2 as int) < n);
                        },
                    }
                }
            }
            lvl_idx = lvl;
        }
        proof {
            // Every strict descendant's level fits in the arena length,
            // so the last pass saw it.
            assert forall|q: Path|
                ctx.path_ok(q) && #[trigger] q.spec_is_strict_descendant_of(
                    *ctx,
                    *self,
                ) implies r@.contains(q) by {
                match q.spec_seg() {
                    None => {
                        assert(q == (Path { seg: None }));
                        assert((Path { seg: None }).spec_is_strict_descendant_of(*ctx, *self)
                            == false);
                    },
                    Some(i2) => {
                        assert(ctx.seg_ok(i2 as int));
                        assert(ctx.path_level(q) <= n);
                    },
                }
            }
        }
        r
    }
}

/// The `", "`-joined concatenation of already rendered segments.
pub open spec fn spec_join_segments(segs: Seq<Seq<char>>) -> Seq<char>
    decreases segs.len(),
{
    if segs.len() == 0 {
        Seq::empty()
    } else if segs.len() == 1 {
        segs[0]
    } else {
        spec_join_segments(segs.drop_last()) + ", "@ + segs.last()
    }
}

/// What the full-address label shows: the bracketed segment list, or a
/// name for the root.
pub open spec fn spec_full_path_display(segs: Seq<Seq<char>>) -> Seq<char> {
    if segs.len() == 0 {
        "Root tree"@
    } else {
        "["@ + spec_join_segments(segs) + "]"@
    }
}

/// Renders a whole address from its already rendered segments.
pub fn full_path_display(segments: &Vec<String>) -> (r: String)
    ensures
        r@ == spec_full_path_display(segments.deep_view()),
{
    let n = segments.len();
    if n == 0 {
        proof {
            reveal_strlit("Root tree");
        }
        return String::from_str("Root tree");
    }
    proof {
        reveal_strlit("[");
        reveal_strlit("]");
        reveal_strlit(", ");
    }
    let mut buf = String::from_str("[");
    let ghost opened = buf@;
    let mut i: usize = 0;
    proof {
        assert(segments.deep_view().take(0) =~= Seq::<Seq<char>>::empty());
    }
    while i < n
        invariant
            n == segments@.len(),
            n > 0,
            i <= n,
            opened == "["@,
            buf@ == opened + spec_join_segments(segments.deep_view().take(i as int)),
        decreases n - i,
    {
        if i > 0 {
            buf.append(", ");
        }
        buf.append(segments[i].as_str());
        proof {
            reveal_strlit(", ");
            assert(segments.deep_view().take(i + 1).drop_last() =~= segments.deep_view().take(
                i as int,
            ));
            assert(segments.deep_view().take(i + 1).last() == segments@[i as int]@);
            assert(buf@ =~= opened + spec_join_segments(segments.deep_view().take(i + 1)));
        }
        i += 1;
    }
    buf.append("]");
    proof {
        assert(segments.deep_view().take(n as int) =~= segments.deep_view());
        assert(buf@ =~= spec_full_path_display(segments.deep_view()));
    }
    buf
}

} // verus!
