//! Bounding-volume hierarchy over triangles, built by recursive median
//! splits along the longest axis into a flat, parent-before-children node
//! array.
use vstd::prelude::*;
use crate::geometry::{Vec3, Triangle, min_int, max_int, in_coord_range};

verus! {

/// Number of triangle slots in a node; subsets this small become leaves.
pub const TRIANGLES_PER_LEAF: usize = 7;

/// A box extent below this many fixed-point steps counts as degenerate.
pub const DEGENERATE_EXTENT: i32 = 1;

/// How far a degenerate box is widened on each side of the thin axis.
pub const DEGENERATE_PAD: i32 = 100;

/// One node of the flat hierarchy.
///
/// `triangle_count == 0` marks an internal node whose children are
/// `child1` and `child2`; otherwise the node is a leaf holding the first
/// `triangle_count` entries of `triangle_ids`.
#[derive(Clone, Copy, Debug, PartialEq, Eq)]
pub struct BVHNode {
    pub bbox_min: Vec3,
    pub child1: u32,
    pub bbox_max: Vec3,
    pub child2: u32,
    pub triangle_count: u32,
    pub triangle_ids: [u32; TRIANGLES_PER_LEAF],
}

/// Mathematical content of a node.
pub ghost struct NodeModel {
    pub bbox_min: Vec3,
    pub bbox_max: Vec3,
    pub child1: u32,
    pub child2: u32,
    pub triangle_count: u32,
    pub triangle_ids: Seq<u32>,
}

impl View for BVHNode {
    type V = NodeModel;

    open spec fn view(&self) -> NodeModel {
        NodeModel {
            bbox_min: self.bbox_min,
            bbox_max: self.bbox_max,
            child1: self.child1,
            child2: self.child2,
            triangle_count: self.triangle_count,
            triangle_ids: self.triangle_ids@,
        }
    }
}

pub open spec fn node_views(nodes: Seq<BVHNode>) -> Seq<NodeModel> {
    nodes.map_values(|n: BVHNode| n@)
}

/// The indices can be built over: at least one, each naming a triangle,
/// and every triangle within the coordinate limit.
pub open spec fn buildable(tris: Seq<Triangle>, idx: Seq<usize>) -> bool {
    &&& idx.len() > 0
    &&& forall|k: int| 0 <= k < idx.len() ==> (#[trigger] idx[k] as int) < tris.len()
    &&& forall|t: int| 0 <= t < tris.len() ==> (#[trigger] tris[t]).wf()
}

/// Smallest coordinate along `axis` over the triangles named by `idx`.
pub open spec fn raw_lo(tris: Seq<Triangle>, idx: Seq<usize>, axis: int) -> int
    decreases idx.len(),
{
    if idx.len() <= 1 {
        tris[idx[0] as int].lo(axis)
    } else {
        min_int(raw_lo(tris, idx.drop_last(), axis), tris[idx.last() as int].lo(axis))
    }
}

/// Largest coordinate along `axis` over the triangles named by `idx`.
pub open spec fn raw_hi(tris: Seq<Triangle>, idx: Seq<usize>, axis: int) -> int
    decreases idx.len(),
{
    if idx.len() <= 1 {
        tris[idx[0] as int].hi(axis)
    } else {
        max_int(raw_hi(tris, idx.drop_last(), axis), tris[idx.last() as int].hi(axis))
    }
}

pub open spec fn degenerate(tris: Seq<Triangle>, idx: Seq<usize>, axis: int) -> bool {
    raw_hi(tris, idx, axis) - raw_lo(tris, idx, axis) < DEGENERATE_EXTENT
}

/// Lower bound of a node's box along `axis`, widened where the box is thin.
pub open spec fn box_lo(tris: Seq<Triangle>, idx: Seq<usize>, axis: int) -> int {
    if degenerate(tris, idx, axis) {
        raw_lo(tris, idx, axis) - DEGENERATE_PAD
    } else {
        raw_lo(tris, idx, axis)
    }
}

/// Upper bound of a node's box along `axis`, widened where the box is thin.
pub open spec fn box_hi(tris: Seq<Triangle>, idx: Seq<usize>, axis: int) -> int {
    if degenerate(tris, idx, axis) {
        raw_hi(tris, idx, axis) + DEGENERATE_PAD
    } else {
        raw_hi(tris, idx, axis)
    }
}

pub open spec fn box_min(tris: Seq<Triangle>, idx: Seq<usize>) -> Vec3 {
    Vec3 {
        x: box_lo(tris, idx, 0) as i32,
        y: box_lo(tris, idx, 1) as i32,
        z: box_lo(tris, idx, 2) as i32,
    }
}

pub open spec fn box_max(tris: Seq<Triangle>, idx: Seq<usize>) -> Vec3 {
    Vec3 {
        x: box_hi(tris, idx, 0) as i32,
        y: box_hi(tris, idx, 1) as i32,
        z: box_hi(tris, idx, 2) as i32,
    }
}

pub open spec fn extent(tris: Seq<Triangle>, idx: Seq<usize>, axis: int) -> int {
    box_hi(tris, idx, axis) - box_lo(tris, idx, axis)
}

/// Axis of greatest box extent; ties go to x, then y.
pub open spec fn split_axis(tris: Seq<Triangle>, idx: Seq<usize>) -> int {
    let d0 = extent(tris, idx, 0);
    let d1 = extent(tris, idx, 1);
    let d2 = extent(tris, idx, 2);
    if d0 >= d1 && d0 >= d2 {
        0
    } else if d1 >= d2 {
        1
    } else {
        2
    }
}

/// Sort key of triangle `i` along `axis`.
pub open spec fn key(tris: Seq<Triangle>, axis: int, i: usize) -> int {
    tris[i as int].centroid_sum(axis)
}

/// Inserts `x` into `s` after every entry whose key does not exceed its own.
pub open spec fn insert_by_key(tris: Seq<Triangle>, axis: int, s: Seq<usize>, x: usize) -> Seq<usize>
    decreases s.len(),
{
    if s.len() == 0 {
        seq![x]
    } else if key(tris, axis, s.last()) <= key(tris, axis, x) {
        s.push(x)
    } else {
        insert_by_key(tris, axis, s.drop_last(), x).push(s.last())
    }
}

/// `s` sorted by centroid along `axis`, equal keys kept in their order.
pub open spec fn sort_by_key(tris: Seq<Triangle>, axis: int, s: Seq<usize>) -> Seq<usize>
    decreases s.len(),
{
    if s.len() == 0 {
        s
    } else {
        insert_by_key(tris, axis, sort_by_key(tris, axis, s.drop_last()), s.last())
    }
}

/// The subset of a node, sorted along its split axis.
pub open spec fn sorted_subset(tris: Seq<Triangle>, idx: Seq<usize>) -> Seq<usize> {
    sort_by_key(tris, split_axis(tris, idx), idx)
}

pub open spec fn left_half(tris: Seq<Triangle>, idx: Seq<usize>) -> Seq<usize> {
    let s = sorted_subset(tris, idx);
    Seq::new((idx.len() / 2) as nat, |k: int| s[k])
}

pub open spec fn right_half(tris: Seq<Triangle>, idx: Seq<usize>) -> Seq<usize> {
    let s = sorted_subset(tris, idx);
    let mid = idx.len() / 2;
    Seq::new((idx.len() - mid) as nat, |k: int| s[mid + k])
}

pub open spec fn is_leaf_subset(idx: Seq<usize>) -> bool {
    idx.len() <= TRIANGLES_PER_LEAF
}

pub open spec fn leaf_ids(idx: Seq<usize>) -> Seq<u32> {
    Seq::new(TRIANGLES_PER_LEAF as nat, |k: int| if k < idx.len() { idx[k] as u32 } else { 0u32 })
}

pub open spec fn leaf_model(tris: Seq<Triangle>, idx: Seq<usize>) -> NodeModel {
    NodeModel {
        bbox_min: box_min(tris, idx),
        bbox_max: box_max(tris, idx),
        child1: 0,
        child2: 0,
        triangle_count: idx.len() as u32,
        triangle_ids: leaf_ids(idx),
    }
}

pub open spec fn internal_model(tris: Seq<Triangle>, idx: Seq<usize>, c1: int, c2: int) -> NodeModel {
    NodeModel {
        bbox_min: box_min(tris, idx),
        bbox_max: box_max(tris, idx),
        child1: c1 as u32,
        child2: c2 as u32,
        triangle_count: 0,
        triangle_ids: Seq::new(TRIANGLES_PER_LEAF as nat, |k: int| 0u32),
    }
}

/// The nodes built over `idx` when the subtree's root lands at position
/// `base` of the output: root first, then the left subtree, then the right.
pub open spec fn build_nodes(tris: Seq<Triangle>, idx: Seq<usize>, base: int) -> Seq<NodeModel>
    decreases idx.len(),
{
    if is_leaf_subset(idx) {
        seq![leaf_model(tris, idx)]
    } else {
        let left = build_nodes(tris, left_half(tris, idx), base + 1);
        let right = build_nodes(tris, right_half(tris, idx), base + 1 + left.len());
        seq![internal_model(tris, idx, base + 1, base + 1 + left.len())] + left + right
    }
}

/// The order in which the build leaves the index array.
pub open spec fn arranged(tris: Seq<Triangle>, idx: Seq<usize>) -> Seq<usize>
    decreases idx.len(),
{
    if is_leaf_subset(idx) {
        idx
    } else {
        arranged(tris, left_half(tris, idx)) + arranged(tris, right_half(tris, idx))
    }
}


pub(crate) proof fn lemma_raw_range(tris: Seq<Triangle>, idx: Seq<usize>, axis: int)
    requires
        buildable(tris, idx),
        0 <= axis < 3,
    ensures
        in_coord_range(raw_lo(tris, idx, axis)),
        in_coord_range(raw_hi(tris, idx, axis)),
        raw_lo(tris, idx, axis) <= raw_hi(tris, idx, axis),
    decreases idx.len(),
{
    let t = tris[idx[0] as int];
    assert(t.wf());
    if idx.len() > 1 {
        let d = idx.drop_last();
        assert(buildable(tris, d)) by {
            assert forall|k: int| 0 <= k < d.len() implies (#[trigger] d[k] as int) < tris.len() by {
                assert(d[k] == idx[k]);
            }
        }
        lemma_raw_range(tris, d, axis);
        assert(tris[idx.last() as int].wf());
    }
}

/// Inserting keeps every element: the multiset of images under `f` gains `f(x)`.
proof fn lemma_insert_multiset<A>(tris: Seq<Triangle>, axis: int, s: Seq<usize>, x: usize, f: spec_fn(usize) -> A)
    ensures
        insert_by_key(tris, axis, s, x).len() == s.len() + 1,
        insert_by_key(tris, axis, s, x).map_values(f).to_multiset() == s.map_values(f).to_multiset().insert(f(x)),
    decreases s.len(),
{
    broadcast use vstd::seq_lib::group_to_multiset_ensures;
    let r = insert_by_key(tris, axis, s, x);
    if s.len() == 0 {
        assert(r.map_values(f) =~= seq![f(x)]);
        assert(s.map_values(f) =~= Seq::<A>::empty());
        assert(seq![f(x)] =~= Seq::<A>::empty().push(f(x)));
    } else if key(tris, axis, s.last()) <= key(tris, axis, x) {
        assert(r.map_values(f) =~= s.map_values(f).push(f(x)));
    } else {
        let d = s.drop_last();
        lemma_insert_multiset(tris, axis, d, x, f);
        let rd = insert_by_key(tris, axis, d, x);
        assert(r.map_values(f) =~= rd.map_values(f).push(f(s.last())));
        assert(s.map_values(f) =~= d.map_values(f).push(f(s.last())));
        assert(r.map_values(f).to_multiset() =~= s.map_values(f).to_multiset().insert(f(x)));
    }
}

/// Sorting only reorders: lengths and multisets of images agree.
pub(crate) proof fn lemma_sort_multiset<A>(tris: Seq<Triangle>, axis: int, s: Seq<usize>, f: spec_fn(usize) -> A)
    ensures
        sort_by_key(tris, axis, s).len() == s.len(),
        sort_by_key(tris, axis, s).map_values(f).to_multiset() == s.map_values(f).to_multiset(),
    decreases s.len(),
{
    broadcast use vstd::seq_lib::group_to_multiset_ensures;
    if s.len() > 0 {
        let d = s.drop_last();
        lemma_sort_multiset(tris, axis, d, f);
        lemma_insert_multiset(tris, axis, sort_by_key(tris, axis, d), s.last(), f);
        assert(s.map_values(f) =~= d.map_values(f).push(f(s.last())));
    }
}

/// Sorting keeps the same entries: each side contains the other's.
pub(crate) proof fn lemma_sort_members(tris: Seq<Triangle>, axis: int, s: Seq<usize>)
    ensures
        sort_by_key(tris, axis, s).len() == s.len(),
        forall|k: int| 0 <= k < s.len() ==> s.contains(#[trigger] sort_by_key(tris, axis, s)[k]),
        forall|k: int| 0 <= k < s.len() ==> sort_by_key(tris, axis, s).contains(#[trigger] s[k]),
{
    broadcast use vstd::seq_lib::group_to_multiset_ensures;
    let id = |i: usize| i;
    lemma_sort_multiset(tris, axis, s, id);
    let r = sort_by_key(tris, axis, s);
    assert(r.map_values(id) =~= r);
    assert(s.map_values(id) =~= s);
    assert forall|k: int| 0 <= k < s.len() implies s.contains(#[trigger] r[k]) by {
        assert(r.to_multiset().count(r[k]) > 0);
    }
    assert forall|k: int| 0 <= k < s.len() implies r.contains(#[trigger] s[k]) by {
        assert(s.to_multiset().count(s[k]) > 0);
    }
}

pub(crate) proof fn lemma_halves(tris: Seq<Triangle>, idx: Seq<usize>)
    requires
        buildable(tris, idx),
        !is_leaf_subset(idx),
    ensures
        buildable(tris, left_half(tris, idx)),
        buildable(tris, right_half(tris, idx)),
        left_half(tris, idx) + right_half(tris, idx) == sorted_subset(tris, idx),
        sorted_subset(tris, idx).len() == idx.len(),
{
    let s = sorted_subset(tris, idx);
    lemma_sort_members(tris, split_axis(tris, idx), idx);
    assert forall|k: int| 0 <= k < s.len() implies (#[trigger] s[k] as int) < tris.len() by {
        assert(idx.contains(s[k]));
    }
    let l = left_half(tris, idx);
    let r = right_half(tris, idx);
    assert forall|k: int| 0 <= k < l.len() implies (#[trigger] l[k] as int) < tris.len() by {
        assert(l[k] == s[k]);
    }
    assert forall|k: int| 0 <= k < r.len() implies (#[trigger] r[k] as int) < tris.len() by {
        assert(r[k] == s[idx.len() / 2 + k]);
    }
    assert(l + r =~= s);
}

/// A subtree over `n` indices has between 1 and `2n - 1` nodes, and the
/// build keeps the number of indices.
pub(crate) proof fn lemma_node_count(tris: Seq<Triangle>, idx: Seq<usize>, base: int)
    requires
        buildable(tris, idx),
    ensures
        1 <= build_nodes(tris, idx, base).len() <= 2 * idx.len() - 1,
        arranged(tris, idx).len() == idx.len(),
    decreases idx.len(),
{
    if !is_leaf_subset(idx) {
        lemma_halves(tris, idx);
        let l = left_half(tris, idx);
        let r = right_half(tris, idx);
        lemma_node_count(tris, l, base + 1);
        lemma_node_count(tris, r, base + 1 + build_nodes(tris, l, base + 1).len());
    }
}

/// Where the backward scan of an insertion stops, `insert_by_key` puts `x`.
proof fn lemma_insert_at(tris: Seq<Triangle>, axis: int, p: Seq<usize>, x: usize, j: int)
    requires
        0 <= j <= p.len(),
        forall|m: int| j <= m < p.len() ==> key(tris, axis, #[trigger] p[m]) > key(tris, axis, x),
        j == 0 || key(tris, axis, p[j - 1]) <= key(tris, axis, x),
    ensures
        insert_by_key(tris, axis, p, x) == p.subrange(0, j).push(x) + p.subrange(j, p.len() as int),
    decreases p.len(),
{
    if p.len() == j {
        if j == 0 {
            assert(p.subrange(0, j).push(x) + p.subrange(j, p.len() as int) =~= seq![x]);
        } else {
            assert(p.subrange(0, j).push(x) + p.subrange(j, p.len() as int) =~= p.push(x));
        }
    } else {
        let d = p.drop_last();
        assert(key(tris, axis, p[p.len() - 1]) > key(tris, axis, x));
        lemma_insert_at(tris, axis, d, x, j);
        assert((d.subrange(0, j).push(x) + d.subrange(j, d.len() as int)).push(p.last())
            =~= p.subrange(0, j).push(x) + p.subrange(j, p.len() as int));
    }
}

/// Three times the centroid of `t` along `axis`.
fn centroid_key(t: &Triangle, axis: usize) -> (r: i64)
    requires
        axis < 3,
    ensures
        r as int == t.centroid_sum(axis as int),
{
    t.vertex_0.get(axis) as i64 + t.vertex_1.get(axis) as i64 + t.vertex_2.get(axis) as i64
}

/// Insertion sort of `idx` by centroid along `axis`; equal keys keep
/// their order.
fn sort_by_centroid(tris: &[Triangle], idx: &mut [usize], axis: usize)
    requires
        axis < 3,
        forall|k: int| 0 <= k < old(idx)@.len() ==> (#[trigger] old(idx)@[k] as int) < tris@.len(),
    ensures
        final(idx)@ == sort_by_key(tris@, axis as int, old(idx)@),
{
    let ghost orig = idx@;
    let ghost ax = axis as int;
    let n = idx.len();
    let mut i: usize = 0;
    while i < n
        invariant
            idx@.len() == n,
            orig.len() == n,
            i <= n,
            axis < 3,
            ax == axis as int,
            idx@.subrange(0, i as int) == sort_by_key(tris@, ax, orig.subrange(0, i as int)),
            forall|m: int| i <= m < n ==> #[trigger] idx@[m] == orig[m],
            forall|k: int| 0 <= k < n ==> (#[trigger] idx@[k] as int) < tris@.len(),
        decreases n - i,
    {
        let ghost p = idx@.subrange(0, i as int);
        proof {
            lemma_sort_multiset(tris@, ax, orig.subrange(0, i as int), |v: usize| v);
        }
        let x = idx[i];
        let kx = centroid_key(&tris[x], axis);
        let mut j: usize = i;
        while j > 0 && centroid_key(&tris[idx[j - 1]], axis) > kx
            invariant
                idx@.len() == n,
                i < n,
                j <= i,
                axis < 3,
                ax == axis as int,
                p.len() == i,
                x == orig[i as int],
                kx as int == key(tris@, ax, x),
                forall|m: int| 0 <= m < j ==> #[trigger] idx@[m] == p[m],
                forall|m: int| j < m <= i ==> #[trigger] idx@[m] == p[m - 1],
                forall|m: int| j <= m < i ==> key(tris@, ax, #[trigger] p[m]) > key(tris@, ax, x),
                forall|m: int| i < m < n ==> #[trigger] idx@[m] == orig[m],
                forall|k: int| 0 <= k < n ==> (#[trigger] idx@[k] as int) < tris@.len(),
            decreases j,
        {
            let v = idx[j - 1];
            idx[j] = v;
            j -= 1;
        }
        idx[j] = x;
        proof {
            let pre = orig.subrange(0, i as int + 1);
            assert(pre.drop_last() =~= orig.subrange(0, i as int));
            lemma_insert_at(tris@, ax, p, x, j as int);
            assert(idx@.subrange(0, i as int + 1) =~= p.subrange(0, j as int).push(x) + p.subrange(j as int, i as int));
        }
        i += 1;
    }
    assert(orig.subrange(0, n as int) =~= orig);
    assert(idx@.subrange(0, n as int) =~= idx@);
}

/// Unwidened bounds of the triangles named by `idx`, as `(min, max)`.
fn subset_bounds(tris: &[Triangle], idx: &[usize]) -> (r: (Vec3, Vec3))
    requires
        buildable(tris@, idx@),
    ensures
        forall|a: int| 0 <= a < 3 ==> #[trigger] r.0.coord(a) == raw_lo(tris@, idx@, a),
        forall|a: int| 0 <= a < 3 ==> #[trigger] r.1.coord(a) == raw_hi(tris@, idx@, a),
{
    let (mut bbox_min, mut bbox_max) = tris[idx[0]].bounding_box();
    let n = idx.len();
    let mut i: usize = 1;
    while i < n
        invariant
            1 <= i <= n,
            n == idx@.len(),
            buildable(tris@, idx@),
            forall|a: int| 0 <= a < 3 ==> #[trigger] bbox_min.coord(a) == raw_lo(tris@, idx@.subrange(0, i as int), a),
            forall|a: int| 0 <= a < 3 ==> #[trigger] bbox_max.coord(a) == raw_hi(tris@, idx@.subrange(0, i as int), a),
        decreases n - i,
    {
        let (tmin, tmax) = tris[idx[i]].bounding_box();
        proof {
            assert(idx@.subrange(0, i as int + 1).drop_last() =~= idx@.subrange(0, i as int));
        }
        bbox_min = bbox_min.min(&tmin);
        bbox_max = bbox_max.max(&tmax);
        i += 1;
    }
    assert(idx@.subrange(0, n as int) =~= idx@);
    (bbox_min, bbox_max)
}

/// Widens a thin interval by `DEGENERATE_PAD` on each side.
fn widen(lo: i32, hi: i32) -> (r: (i32, i32))
    requires
        in_coord_range(lo as int),
        in_coord_range(hi as int),
    ensures
        hi - lo < DEGENERATE_EXTENT ==> r.0 == lo - DEGENERATE_PAD && r.1 == hi + DEGENERATE_PAD,
        hi - lo >= DEGENERATE_EXTENT ==> r.0 == lo && r.1 == hi,
{
    if (hi as i64) - (lo as i64) < DEGENERATE_EXTENT as i64 {
        (lo - DEGENERATE_PAD, hi + DEGENERATE_PAD)
    } else {
        (lo, hi)
    }
}

impl BVHNode {
    /// A zeroed node.
    pub fn default() -> (r: BVHNode)
        ensures
            r@ == (NodeModel {
                bbox_min: Vec3 { x: 0, y: 0, z: 0 },
                bbox_max: Vec3 { x: 0, y: 0, z: 0 },
                child1: 0,
                child2: 0,
                triangle_count: 0,
                triangle_ids: Seq::new(TRIANGLES_PER_LEAF as nat, |k: int| 0u32),
            }),
    {
        let r = BVHNode {
            bbox_min: Vec3::zero(),
            child1: 0,
            bbox_max: Vec3::zero(),
            child2: 0,
            triangle_count: 0,
            triangle_ids: [0u32; TRIANGLES_PER_LEAF],
        };
        assert(r.triangle_ids@ =~= Seq::new(TRIANGLES_PER_LEAF as nat, |k: int| 0u32));
        r
    }

    /// Builds the hierarchy over the triangles that `tri_indices` names and
    /// appends its nodes to `tree`, root first; returns the root's position.
    ///
    /// Subsets of at most `TRIANGLES_PER_LEAF` indices become leaves; larger
    /// ones are sorted by centroid along their longest axis and split at
    /// the middle. `tri_indices` is left in the order the leaves hold it.
    /// Leaf size is fixed by the node layout, so `max_triangles_per_leaf`
    /// does not change the result.
    pub fn bvh_build(
        tris: &mut [Triangle],
        tri_indices: &mut [usize],
        tree: &mut Vec<BVHNode>,
        max_triangles_per_leaf: usize,
    ) -> (r: u32)
        requires
            buildable(old(tris)@, old(tri_indices)@),
            old(tris)@.len() <= u32::MAX,
            old(tree)@.len() + 2 * old(tri_indices)@.len() <= u32::MAX,
        ensures
            final(tris)@ == old(tris)@,
            r as int == old(tree)@.len(),
            node_views(final(tree)@) == node_views(old(tree)@) + build_nodes(
                old(tris)@,
                old(tri_indices)@,
                old(tree)@.len() as int,
            ),
            final(tri_indices)@ == arranged(old(tris)@, old(tri_indices)@),
        decreases old(tri_indices)@.len(),
    {
        let ghost t = tris@;
        let ghost idx = tri_indices@;
        let ghost before = node_views(tree@);
        let node_index = tree.len() as u32;

        let (raw_min, raw_max) = subset_bounds(tris, tri_indices);
        proof {
            lemma_raw_range(t, idx, 0);
            lemma_raw_range(t, idx, 1);
            lemma_raw_range(t, idx, 2);
            assert(raw_min.coord(0) == raw_lo(t, idx, 0));
            assert(raw_min.coord(1) == raw_lo(t, idx, 1));
            assert(raw_min.coord(2) == raw_lo(t, idx, 2));
            assert(raw_max.coord(0) == raw_hi(t, idx, 0));
            assert(raw_max.coord(1) == raw_hi(t, idx, 1));
            assert(raw_max.coord(2) == raw_hi(t, idx, 2));
        }
        let (x0, x1) = widen(raw_min.x, raw_max.x);
        let (y0, y1) = widen(raw_min.y, raw_max.y);
        let (z0, z1) = widen(raw_min.z, raw_max.z);
        let bbox_min = Vec3 { x: x0, y: y0, z: z0 };
        let bbox_max = Vec3 { x: x1, y: y1, z: z1 };
        assert(bbox_min == box_min(t, idx));
        assert(bbox_max == box_max(t, idx));

        let len = tri_indices.len();
        if len <= TRIANGLES_PER_LEAF {
            let mut ids = [0u32; TRIANGLES_PER_LEAF];
            let mut i: usize = 0;
            while i < len
                invariant
                    i <= len,
                    len == idx.len(),
                    len <= TRIANGLES_PER_LEAF,
                    idx == tri_indices@,
                    t == tris@,
                    buildable(t, idx),
                    t.len() <= u32::MAX,
                    ids@ == Seq::new(
                        TRIANGLES_PER_LEAF as nat,
                        |k: int| if k < i { idx[k] as u32 } else { 0u32 },
                    ),
                decreases len - i,
            {
                assert((idx[i as int] as int) < t.len());
                ids[i] = tri_indices[i] as u32;
                i += 1;
                assert(ids@ =~= Seq::new(
                    TRIANGLES_PER_LEAF as nat,
                    |k: int| if k < i { idx[k] as u32 } else { 0u32 },
                ));
            }
            let node = BVHNode {
                bbox_min,
                child1: 0,
                bbox_max,
                child2: 0,
                triangle_count: len as u32,
                triangle_ids: ids,
            };
            tree.push(node);
            assert(ids@ =~= leaf_ids(idx));
            assert(node@ == leaf_model(t, idx));
            assert(node_views(tree@) =~= before + build_nodes(t, idx, node_index as int));
            return node_index;
        }
        let dx = x1 as i64 - x0 as i64;
        let dy = y1 as i64 - y0 as i64;
        let dz = z1 as i64 - z0 as i64;
        let axis: usize = if dx >= dy && dx >= dz {
            0
        } else if dy >= dz {
            1
        } else {
            2
        };
        assert(axis as int == split_axis(t, idx));
        sort_by_centroid(tris, tri_indices, axis);
        proof {
            lemma_halves(t, idx);
            lemma_node_count(t, left_half(t, idx), node_index + 1);
        }
        tree.push(BVHNode::default());
        let ghost pushed = node_views(tree@);
        assert(pushed =~= before.push(tree@[node_index as int]@));

        let mid = len / 2;
        let (left, right) = tri_indices.split_at_mut(mid);
        assert(left@ =~= left_half(t, idx));
        assert(right@ =~= right_half(t, idx));
        let child1 = BVHNode::bvh_build(tris, left, tree, max_triangles_per_leaf);
        let ghost lnodes = build_nodes(t, left_half(t, idx), node_index + 1);
        assert(tree@.len() == node_views(tree@).len());
        assert(tree@.len() == node_index + 1 + lnodes.len());
        let child2 = BVHNode::bvh_build(tris, right, tree, max_triangles_per_leaf);
        let ghost rnodes = build_nodes(t, right_half(t, idx), node_index + 1 + lnodes.len());

        let ghost grown = node_views(tree@);
        assert(tree@.len() == grown.len());
        let node = BVHNode {
            bbox_min,
            child1,
            bbox_max,
            child2,
            triangle_count: 0,
            triangle_ids: [0u32; TRIANGLES_PER_LEAF],
        };
        assert(node.triangle_ids@ =~= Seq::new(TRIANGLES_PER_LEAF as nat, |k: int| 0u32));
        assert(node@ == internal_model(t, idx, node_index + 1, node_index + 1 + lnodes.len()));
        tree[node_index as usize] = node;
        assert(node_views(tree@) =~= grown.update(node_index as int, node@));
        assert(node_views(tree@) =~= before + build_nodes(t, idx, node_index as int));
        node_index
    }
}

} // verus!
