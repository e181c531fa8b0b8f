use shrimpy::bvh::{BVHNode, DEGENERATE_PAD, TRIANGLES_PER_LEAF};
use shrimpy::geometry::{Triangle, Vec3, UNITS_PER_LENGTH};

const U: i32 = UNITS_PER_LENGTH;

fn tri(a: (i32, i32, i32), b: (i32, i32, i32), c: (i32, i32, i32)) -> Triangle {
    Triangle::new(
        [Vec3::new(a.0, a.1, a.2), Vec3::new(b.0, b.1, b.2), Vec3::new(c.0, c.1, c.2)],
        0,
    )
}

/// A small triangle whose lower corner sits at `(x, y, z)`.
fn tri_at(x: i32, y: i32, z: i32) -> Triangle {
    tri((x, y, z), (x + U / 2, y, z), (x, y + U / 2, z + U / 4))
}

fn build(tris: &mut Vec<Triangle>) -> (u32, Vec<BVHNode>, Vec<usize>) {
    let mut idx: Vec<usize> = (0..tris.len()).collect();
    let mut tree = Vec::new();
    let root = BVHNode::bvh_build(tris, &mut idx, &mut tree, TRIANGLES_PER_LEAF);
    (root, tree, idx)
}

fn scattered(n: usize) -> Vec<Triangle> {
    (0..n)
        .map(|i| {
            let i = i as i32;
            tri_at((i * 7919) % 23 * U, (i * 104729) % 17 * U / 3, (i * 31) % 11 * U / 2)
        })
        .collect()
}

#[test]
fn single_triangle_is_one_leaf() {
    let mut tris = vec![tri((0, 0, 0), (U, 0, 0), (0, U, 0))];
    let (root, tree, _) = build(&mut tris);
    assert_eq!(root, 0);
    assert_eq!(tree.len(), 1);
    let leaf = tree[0];
    assert_eq!(leaf.bbox_min, Vec3::new(0, 0, -DEGENERATE_PAD));
    assert_eq!(leaf.bbox_max, Vec3::new(U, U, DEGENERATE_PAD));
    assert_eq!(DEGENERATE_PAD * 100, U);
    assert_eq!(leaf.triangle_count, 1);
    assert_eq!(leaf.triangle_ids, [0, 0, 0, 0, 0, 0, 0]);
    assert_eq!(leaf.child1, 0);
    assert_eq!(leaf.child2, 0);
}

#[test]
fn ten_triangles_split_into_two_leaves() {
    let mut tris: Vec<Triangle> = (0..10).map(|i| tri_at(i * U, 0, 0)).collect();
    let (root, tree, _) = build(&mut tris);
    assert_eq!(root, 0);
    assert_eq!(tree.len(), 3);
    assert_eq!(tree[0].triangle_count, 0);
    assert_eq!(tree[0].child1, 1);
    assert_eq!(tree[0].child2, 2);
    assert_eq!(tree[1].triangle_count + tree[2].triangle_count, 10);
    assert_eq!(tree[1].triangle_count, 5);
    assert_eq!(&tree[1].triangle_ids[..5], &[0, 1, 2, 3, 4]);
    assert_eq!(&tree[2].triangle_ids[..5], &[5, 6, 7, 8, 9]);
}

#[test]
fn split_sorts_along_longest_axis() {
    // Spread along y, listed in reverse: the split sorts them by y.
    let mut tris: Vec<Triangle> = (0..8).map(|i| tri_at(0, (7 - i) * U, 0)).collect();
    let (_, tree, idx) = build(&mut tris);
    assert_eq!(idx, vec![7, 6, 5, 4, 3, 2, 1, 0]);
    assert_eq!(&tree[1].triangle_ids[..4], &[7, 6, 5, 4]);
    assert_eq!(&tree[2].triangle_ids[..4], &[3, 2, 1, 0]);
}

#[test]
fn equal_extents_prefer_x() {
    // A square spread in x and y: x is split first.
    let mut tris = Vec::new();
    for i in 0..4 {
        tris.push(tri_at(i * 2 * U, 0, 0));
        tris.push(tri_at(0, i * 2 * U, 0));
    }
    let (_, tree, _) = build(&mut tris);
    let root = tree[0];
    assert_eq!(root.bbox_max.x - root.bbox_min.x, root.bbox_max.y - root.bbox_min.y);
    let left = tree[root.child1 as usize];
    // The left half holds the four triangles with the smallest x.
    assert!(left.bbox_max.x <= U / 2);
}

#[test]
fn every_leaf_is_small_and_boxes_nest() {
    let mut tris = scattered(60);
    let (_, tree, _) = build(&mut tris);
    for node in &tree {
        if node.triangle_count > 0 {
            assert!(node.triangle_count as usize <= TRIANGLES_PER_LEAF);
        } else {
            let a = tree[node.child1 as usize];
            let b = tree[node.child2 as usize];
            for (lo, hi, alo, ahi, blo, bhi) in [
                (node.bbox_min.x, node.bbox_max.x, a.bbox_min.x, a.bbox_max.x, b.bbox_min.x, b.bbox_max.x),
                (node.bbox_min.y, node.bbox_max.y, a.bbox_min.y, a.bbox_max.y, b.bbox_min.y, b.bbox_max.y),
                (node.bbox_min.z, node.bbox_max.z, a.bbox_min.z, a.bbox_max.z, b.bbox_min.z, b.bbox_max.z),
            ] {
                let ulo = alo.min(blo);
                let uhi = ahi.max(bhi);
                assert!(lo - DEGENERATE_PAD <= ulo && ulo <= lo);
                assert!(hi <= uhi && uhi <= hi + DEGENERATE_PAD);
            }
        }
    }
}

#[test]
fn every_index_lands_in_exactly_one_leaf() {
    let mut tris = scattered(45);
    let (_, tree, idx) = build(&mut tris);
    let mut seen = vec![0; 45];
    let mut listed = Vec::new();
    for node in &tree {
        for k in 0..node.triangle_count as usize {
            seen[node.triangle_ids[k] as usize] += 1;
            listed.push(node.triangle_ids[k] as usize);
        }
    }
    assert!(seen.iter().all(|&c| c == 1));
    assert_eq!(listed, idx);
}

#[test]
fn repeated_builds_agree() {
    let mut a = scattered(50);
    let mut b = a.clone();
    let first = build(&mut a);
    let second = build(&mut b);
    assert_eq!(first, second);
    assert_eq!(a, b);
}

#[test]
fn build_appends_after_existing_nodes() {
    let mut tris = scattered(9);
    let mut idx: Vec<usize> = (0..9).collect();
    let mut tree = vec![BVHNode::default(), BVHNode::default()];
    let root = BVHNode::bvh_build(&mut tris, &mut idx, &mut tree, TRIANGLES_PER_LEAF);
    assert_eq!(root, 2);
    assert_eq!(tree.len(), 5);
    assert_eq!(tree[2].child1, 3);
    assert_eq!(tree[2].child2, 4);
}

#[test]
fn default_node_is_zeroed() {
    let n = BVHNode::default();
    assert_eq!(n.bbox_min, Vec3::zero());
    assert_eq!(n.bbox_max, Vec3::zero());
    assert_eq!(n.triangle_count, 0);
    assert_eq!(n.triangle_ids, [0; 7]);
}
