//! Properties of every hierarchy the builder produces.
use vstd::prelude::*;
use crate::geometry::{Triangle, min_int, max_int};
use crate::bvh::{
    BVHNode, NodeModel, TRIANGLES_PER_LEAF, DEGENERATE_PAD, buildable, raw_lo, raw_hi, box_lo,
    box_hi, left_half, right_half, sorted_subset, split_axis, is_leaf_subset, build_nodes,
    arranged, node_views, lemma_raw_range, lemma_sort_members, lemma_sort_multiset,
    lemma_halves, lemma_node_count,
};

verus! {

/// The box of `parent` is the union of the boxes of `a` and `b`, up to the
/// widening of thin axes: on every axis each bound differs from the union's
/// by at most `DEGENERATE_PAD`, and only outward for the children.
pub open spec fn boxes_nest(parent: NodeModel, a: NodeModel, b: NodeModel) -> bool {
    forall|axis: int| 0 <= axis < 3 ==> {
        let lo = #[trigger] parent.bbox_min.coord(axis);
        let hi = parent.bbox_max.coord(axis);
        let ulo = min_int(a.bbox_min.coord(axis), b.bbox_min.coord(axis));
        let uhi = max_int(a.bbox_max.coord(axis), b.bbox_max.coord(axis));
        &&& lo - DEGENERATE_PAD <= ulo <= lo
        &&& hi <= uhi <= hi + DEGENERATE_PAD
    }
}

/// Node `k` of `nodes`, whose first node sits at position `base` of the
/// whole array, is a leaf of at most `TRIANGLES_PER_LEAF` triangles, or an
/// internal node whose two children come after it in `nodes` and whose box
/// nests theirs.
pub open spec fn node_sound(nodes: Seq<NodeModel>, base: int, k: int) -> bool {
    let n = nodes[k];
    if n.triangle_count > 0 {
        n.triangle_count <= TRIANGLES_PER_LEAF
    } else {
        let c1 = n.child1 - base;
        let c2 = n.child2 - base;
        &&& k < c1 < nodes.len()
        &&& k < c2 < nodes.len()
        &&& boxes_nest(n, nodes[c1], nodes[c2])
    }
}

/// Triangle indices a node holds: none for an internal node.
pub open spec fn held(n: NodeModel) -> Seq<u32> {
    n.triangle_ids.take(n.triangle_count as int)
}

/// Triangle indices of all leaves, in node order.
pub open spec fn leaf_entries(nodes: Seq<NodeModel>) -> Seq<u32>
    decreases nodes.len(),
{
    if nodes.len() == 0 {
        Seq::empty()
    } else {
        held(nodes[0]) + leaf_entries(nodes.drop_first())
    }
}

pub open spec fn as_ids(idx: Seq<usize>) -> Seq<u32> {
    idx.map_values(|i: usize| i as u32)
}

/// `raw_lo` and `raw_hi` are the least and greatest bound over the subset.
proof fn lemma_raw_extremes(tris: Seq<Triangle>, idx: Seq<usize>, axis: int)
    requires
        buildable(tris, idx),
    ensures
        forall|k: int| 0 <= k < idx.len() ==> raw_lo(tris, idx, axis) <= #[trigger] tris[idx[k] as int].lo(axis),
        forall|k: int| 0 <= k < idx.len() ==> raw_hi(tris, idx, axis) >= #[trigger] tris[idx[k] as int].hi(axis),
        exists|k: int| 0 <= k < idx.len() && raw_lo(tris, idx, axis) == #[trigger] tris[idx[k] as int].lo(axis),
        exists|k: int| 0 <= k < idx.len() && raw_hi(tris, idx, axis) == #[trigger] tris[idx[k] as int].hi(axis),
    decreases idx.len(),
{
    if idx.len() > 1 {
        let d = idx.drop_last();
        assert(buildable(tris, d)) by {
            assert forall|k: int| 0 <= k < d.len() implies (#[trigger] d[k] as int) < tris.len() by {
                assert(d[k] == idx[k]);
            }
        }
        lemma_raw_extremes(tris, d, axis);
        assert forall|k: int| 0 <= k < idx.len() implies raw_lo(tris, idx, axis) <= #[trigger] tris[idx[k] as int].lo(axis) by {
            if k < d.len() {
                assert(d[k] == idx[k]);
            }
        }
        assert forall|k: int| 0 <= k < idx.len() implies raw_hi(tris, idx, axis) >= #[trigger] tris[idx[k] as int].hi(axis) by {
            if k < d.len() {
                assert(d[k] == idx[k]);
            }
        }
        let kl = choose|k: int| 0 <= k < d.len() && raw_lo(tris, d, axis) == #[trigger] tris[d[k] as int].lo(axis);
        let kh = choose|k: int| 0 <= k < d.len() && raw_hi(tris, d, axis) == #[trigger] tris[d[k] as int].hi(axis);
        assert(d[kl] == idx[kl]);
        assert(d[kh] == idx[kh]);
        if raw_lo(tris, idx, axis) != raw_lo(tris, d, axis) {
            assert(raw_lo(tris, idx, axis) == tris[idx[idx.len() - 1] as int].lo(axis));
        }
        if raw_hi(tris, idx, axis) != raw_hi(tris, d, axis) {
            assert(raw_hi(tris, idx, axis) == tris[idx[idx.len() - 1] as int].hi(axis));
        }
    } else {
        assert(raw_lo(tris, idx, axis) == tris[idx[0] as int].lo(axis));
        assert(raw_hi(tris, idx, axis) == tris[idx[0] as int].hi(axis));
    }
}

/// A split node's unwidened bounds are the union of its halves' bounds.
proof fn lemma_raw_split(tris: Seq<Triangle>, idx: Seq<usize>, axis: int)
    requires
        buildable(tris, idx),
        !is_leaf_subset(idx),
    ensures
        raw_lo(tris, idx, axis) == min_int(
            raw_lo(tris, left_half(tris, idx), axis),
            raw_lo(tris, right_half(tris, idx), axis),
        ),
        raw_hi(tris, idx, axis) == max_int(
            raw_hi(tris, left_half(tris, idx), axis),
            raw_hi(tris, right_half(tris, idx), axis),
        ),
{
    let l = left_half(tris, idx);
    let r = right_half(tris, idx);
    let s = sorted_subset(tris, idx);
    lemma_halves(tris, idx);
    lemma_sort_members(tris, split_axis(tris, idx), idx);
    lemma_raw_extremes(tris, idx, axis);
    lemma_raw_extremes(tris, l, axis);
    lemma_raw_extremes(tris, r, axis);
    let mid = l.len();
    assert forall|k: int| 0 <= k < l.len() implies idx.contains(#[trigger] l[k]) by {
        assert(l[k] == s[k]);
    }
    assert forall|k: int| 0 <= k < r.len() implies idx.contains(#[trigger] r[k]) by {
        assert(r[k] == s[mid + k]);
    }
    // The subset's extremes are attained by some index, which lies in one half.
    let kl = choose|k: int| 0 <= k < idx.len() && raw_lo(tris, idx, axis) == #[trigger] tris[idx[k] as int].lo(axis);
    let kh = choose|k: int| 0 <= k < idx.len() && raw_hi(tris, idx, axis) == #[trigger] tris[idx[k] as int].hi(axis);
    assert(s.contains(idx[kl]));
    assert(s.contains(idx[kh]));
    let jl = choose|j: int| 0 <= j < s.len() && s[j] == idx[kl];
    let jh = choose|j: int| 0 <= j < s.len() && s[j] == idx[kh];
    if jl < mid {
        assert(l[jl] == s[jl]);
    } else {
        assert(r[jl - mid] == s[jl]);
    }
    if jh < mid {
        assert(l[jh] == s[jh]);
    } else {
        assert(r[jh - mid] == s[jh]);
    }
    // Each half's extremes are attained by an index of the subset.
    let al = choose|k: int| 0 <= k < l.len() && raw_lo(tris, l, axis) == #[trigger] tris[l[k] as int].lo(axis);
    let bl = choose|k: int| 0 <= k < r.len() && raw_lo(tris, r, axis) == #[trigger] tris[r[k] as int].lo(axis);
    let ah = choose|k: int| 0 <= k < l.len() && raw_hi(tris, l, axis) == #[trigger] tris[l[k] as int].hi(axis);
    let bh = choose|k: int| 0 <= k < r.len() && raw_hi(tris, r, axis) == #[trigger] tris[r[k] as int].hi(axis);
    assert(idx.contains(l[al]));
    assert(idx.contains(r[bl]));
    assert(idx.contains(l[ah]));
    assert(idx.contains(r[bh]));
}

/// The root of a split subtree nests the boxes of its two children.
proof fn lemma_root_nests(tris: Seq<Triangle>, idx: Seq<usize>)
    requires
        buildable(tris, idx),
        !is_leaf_subset(idx),
    ensures
        forall|axis: int| 0 <= axis < 3 ==> {
            let lo = #[trigger] box_lo(tris, idx, axis);
            let hi = box_hi(tris, idx, axis);
            let ulo = min_int(box_lo(tris, left_half(tris, idx), axis), box_lo(tris, right_half(tris, idx), axis));
            let uhi = max_int(box_hi(tris, left_half(tris, idx), axis), box_hi(tris, right_half(tris, idx), axis));
            &&& lo - DEGENERATE_PAD <= ulo <= lo
            &&& hi <= uhi <= hi + DEGENERATE_PAD
        },
{
    lemma_halves(tris, idx);
    assert forall|axis: int| 0 <= axis < 3 implies {
        let lo = #[trigger] box_lo(tris, idx, axis);
        let hi = box_hi(tris, idx, axis);
        let ulo = min_int(box_lo(tris, left_half(tris, idx), axis), box_lo(tris, right_half(tris, idx), axis));
        let uhi = max_int(box_hi(tris, left_half(tris, idx), axis), box_hi(tris, right_half(tris, idx), axis));
        &&& lo - DEGENERATE_PAD <= ulo <= lo
        &&& hi <= uhi <= hi + DEGENERATE_PAD
    } by {
        lemma_raw_split(tris, idx, axis);
        lemma_raw_range(tris, idx, axis);
        lemma_raw_range(tris, left_half(tris, idx), axis);
        lemma_raw_range(tris, right_half(tris, idx), axis);
    }
}

/// Every node the builder produces over a buildable subset is sound: each
/// leaf holds at most `TRIANGLES_PER_LEAF` triangles, and each internal
/// node's children follow it and have boxes whose union is the node's box,
/// up to the `DEGENERATE_PAD` widening of thin axes.
pub proof fn lemma_bvh_sound(tris: Seq<Triangle>, idx: Seq<usize>, base: int)
    requires
        buildable(tris, idx),
        0 <= base,
        base + 2 * idx.len() <= u32::MAX,
    ensures
        forall|k: int| 0 <= k < build_nodes(tris, idx, base).len() ==>
            node_sound(build_nodes(tris, idx, base), base, k),
    decreases idx.len(),
{
    let nodes = build_nodes(tris, idx, base);
    if is_leaf_subset(idx) {
        assert(nodes.len() == 1);
    } else {
        let l = left_half(tris, idx);
        let r = right_half(tris, idx);
        lemma_halves(tris, idx);
        let lb = base + 1;
        let ln = build_nodes(tris, l, lb);
        lemma_node_count(tris, l, lb);
        let rb = lb + ln.len();
        let rn = build_nodes(tris, r, rb);
        lemma_node_count(tris, r, rb);
        lemma_bvh_sound(tris, l, lb);
        lemma_bvh_sound(tris, r, rb);
        lemma_root_nests(tris, idx);
        assert forall|axis: int| 0 <= axis < 3 implies {
            &&& (#[trigger] box_lo(tris, idx, axis)) as i32 as int == box_lo(tris, idx, axis)
            &&& box_hi(tris, idx, axis) as i32 as int == box_hi(tris, idx, axis)
            &&& box_lo(tris, l, axis) as i32 as int == box_lo(tris, l, axis)
            &&& box_hi(tris, l, axis) as i32 as int == box_hi(tris, l, axis)
            &&& box_lo(tris, r, axis) as i32 as int == box_lo(tris, r, axis)
            &&& box_hi(tris, r, axis) as i32 as int == box_hi(tris, r, axis)
        } by {
            lemma_raw_range(tris, idx, axis);
            lemma_raw_range(tris, l, axis);
            lemma_raw_range(tris, r, axis);
        }
        assert(nodes == seq![nodes[0]] + ln + rn);
        assert forall|k: int| 0 <= k < nodes.len() implies node_sound(nodes, base, k) by {
            if k == 0 {
                assert(nodes[1] == ln[0]);
                assert(nodes[rb - base] == rn[0]);
                let n = nodes[0];
                assert(boxes_nest(n, nodes[1], nodes[rb - base])) by {
                    assert forall|axis: int| 0 <= axis < 3 implies {
                        let lo = #[trigger] n.bbox_min.coord(axis);
                        let hi = n.bbox_max.coord(axis);
                        let ulo = min_int(nodes[1].bbox_min.coord(axis), nodes[rb - base].bbox_min.coord(axis));
                        let uhi = max_int(nodes[1].bbox_max.coord(axis), nodes[rb - base].bbox_max.coord(axis));
                        &&& lo - DEGENERATE_PAD <= ulo <= lo
                        &&& hi <= uhi <= hi + DEGENERATE_PAD
                    } by {
                        assert(box_lo(tris, idx, axis) as i32 as int == box_lo(tris, idx, axis));
                    }
                }
            } else if k < 1 + ln.len() {
                let n = ln[k - 1];
                assert(nodes[k] == n);
                assert(node_sound(ln, lb, k - 1));
                if n.triangle_count == 0 {
                    assert(nodes[n.child1 - base] == ln[n.child1 - lb]);
                    assert(nodes[n.child2 - base] == ln[n.child2 - lb]);
                }
            } else {
                let n = rn[k - 1 - ln.len()];
                assert(nodes[k] == n);
                assert(node_sound(rn, rb, k - 1 - ln.len()));
                if n.triangle_count == 0 {
                    assert(nodes[n.child1 - base] == rn[n.child1 - rb]);
                    assert(nodes[n.child2 - base] == rn[n.child2 - rb]);
                }
            }
        }
    }
}

proof fn lemma_leaf_entries_concat(a: Seq<NodeModel>, b: Seq<NodeModel>)
    ensures
        leaf_entries(a + b) == leaf_entries(a) + leaf_entries(b),
    decreases a.len(),
{
    if a.len() == 0 {
        assert(a + b =~= b);
        assert(leaf_entries(a) + leaf_entries(b) =~= leaf_entries(b));
    } else {
        lemma_leaf_entries_concat(a.drop_first(), b);
        assert((a + b).drop_first() =~= a.drop_first() + b);
        assert(held(a[0]) + (leaf_entries(a.drop_first()) + leaf_entries(b))
            =~= (held(a[0]) + leaf_entries(a.drop_first())) + leaf_entries(b));
    }
}

/// The leaves list the indices in the order the build arranges them.
proof fn lemma_leaf_entries_build(tris: Seq<Triangle>, idx: Seq<usize>, base: int)
    requires
        buildable(tris, idx),
    ensures
        leaf_entries(build_nodes(tris, idx, base)) == as_ids(arranged(tris, idx)),
    decreases idx.len(),
{
    let nodes = build_nodes(tris, idx, base);
    if is_leaf_subset(idx) {
        assert(nodes.drop_first() =~= Seq::<NodeModel>::empty());
        assert(held(nodes[0]) =~= as_ids(idx));
        assert(leaf_entries(nodes.drop_first()) =~= Seq::<u32>::empty());
        assert(leaf_entries(nodes) =~= held(nodes[0]) + Seq::<u32>::empty());
    } else {
        let l = left_half(tris, idx);
        let r = right_half(tris, idx);
        lemma_halves(tris, idx);
        let ln = build_nodes(tris, l, base + 1);
        let rn = build_nodes(tris, r, base + 1 + ln.len());
        lemma_leaf_entries_build(tris, l, base + 1);
        lemma_leaf_entries_build(tris, r, base + 1 + ln.len());
        let root = seq![nodes[0]];
        assert(nodes == root + ln + rn);
        lemma_leaf_entries_concat(root + ln, rn);
        lemma_leaf_entries_concat(root, ln);
        assert(root.drop_first() =~= Seq::<NodeModel>::empty());
        assert(held(nodes[0]) =~= Seq::<u32>::empty());
        assert(leaf_entries(root.drop_first()) =~= Seq::<u32>::empty());
        assert(leaf_entries(root) =~= held(nodes[0]) + Seq::<u32>::empty());
        assert(as_ids(arranged(tris, l) + arranged(tris, r)) =~= as_ids(arranged(tris, l)) + as_ids(arranged(tris, r)));
        assert(leaf_entries(nodes) =~= as_ids(arranged(tris, l)) + as_ids(arranged(tris, r)));
    }
}

/// The build only reorders the indices.
proof fn lemma_arranged_multiset(tris: Seq<Triangle>, idx: Seq<usize>)
    requires
        buildable(tris, idx),
    ensures
        as_ids(arranged(tris, idx)).to_multiset() == as_ids(idx).to_multiset(),
    decreases idx.len(),
{
    broadcast use vstd::seq_lib::lemma_multiset_commutative;
    if !is_leaf_subset(idx) {
        let l = left_half(tris, idx);
        let r = right_half(tris, idx);
        lemma_halves(tris, idx);
        lemma_arranged_multiset(tris, l);
        lemma_arranged_multiset(tris, r);
        lemma_sort_multiset(tris, split_axis(tris, idx), idx, |i: usize| i as u32);
        assert(as_ids(arranged(tris, l) + arranged(tris, r)) =~= as_ids(arranged(tris, l)) + as_ids(arranged(tris, r)));
        assert(as_ids(l + r) =~= as_ids(l) + as_ids(r));
    }
}

/// Every index of the subset lands in the leaves exactly as often as it
/// occurs in the subset: no index is duplicated and none is lost.
pub proof fn lemma_bvh_partition(tris: Seq<Triangle>, idx: Seq<usize>, base: int)
    requires
        buildable(tris, idx),
    ensures
        leaf_entries(build_nodes(tris, idx, base)).to_multiset() == as_ids(idx).to_multiset(),
{
    lemma_leaf_entries_build(tris, idx, base);
    lemma_arranged_multiset(tris, idx);
}

/// Two node arrays that `BVHNode::bvh_build` can leave from the same
/// triangles, index order and starting array are identical.
pub proof fn lemma_build_deterministic(
    tris: Seq<Triangle>,
    idx: Seq<usize>,
    before: Seq<BVHNode>,
    after1: Seq<BVHNode>,
    after2: Seq<BVHNode>,
)
    requires
        node_views(after1) == node_views(before) + build_nodes(tris, idx, before.len() as int),
        node_views(after2) == node_views(before) + build_nodes(tris, idx, before.len() as int),
    ensures
        after1 == after2,
{
    broadcast use vstd::array::axiom_array_ext_equal;
    assert(after1.len() == node_views(after1).len());
    assert(after2.len() == node_views(after2).len());
    assert forall|k: int| 0 <= k < after1.len() implies after1[k] == after2[k] by {
        assert(node_views(after1)[k] == after1[k]@);
        assert(node_views(after2)[k] == after2[k]@);
        let a1 = after1[k].triangle_ids;
        let a2 = after2[k].triangle_ids;
        assert(a1@ == a2@);
        assert forall|i: int| 0 <= i < TRIANGLES_PER_LEAF implies a1[i] == a2[i] by {
            assert(a1@[i] == a2@[i]);
        }
        assert(a1 =~= a2);
    }
    assert(after1 =~= after2);
}

} // verus!
