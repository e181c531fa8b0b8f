use shrimpy::bvh::DEGENERATE_PAD;
use shrimpy::geometry::{Triangle, Vec3, UNITS_PER_LENGTH};
use shrimpy::scene::{
    Material, Scene, SceneError, Sphere, MAX_BVH_NODES, MAX_MATERIALS, MAX_SPHERES, MAX_TRIANGLES,
};

const U: i32 = UNITS_PER_LENGTH;

fn tri_at(x: i32, y: i32, z: i32) -> Triangle {
    Triangle::new([Vec3::new(x, y, z), Vec3::new(x + U, y, z), Vec3::new(x, y + U, z)], 0)
}

#[test]
fn new_scene_is_empty() {
    let s = Scene::new();
    assert_eq!(s.material_count(), 0);
    assert_eq!(s.sphere_count(), 0);
    assert_eq!(s.triangle_count(), 0);
    assert!(s.bvh().is_empty());
}

#[test]
fn materials_get_consecutive_ids() {
    let mut s = Scene::new();
    assert_eq!(s.add_material(Material::default()), Ok(0));
    let glass = Material::new(Vec3::all(U), -17_700, 0, U);
    assert_eq!(s.add_material(glass), Ok(1));
    assert_eq!(s.material_count(), 2);
    assert_eq!(s.materials()[1], glass);
}

#[test]
fn material_capacity_is_enforced() {
    let mut s = Scene::new();
    for i in 0..MAX_MATERIALS {
        assert_eq!(s.add_material(Material::default()), Ok(i as u32));
    }
    assert_eq!(s.add_material(Material::default()), Err(SceneError::MaterialsFull));
    assert_eq!(s.material_count() as usize, MAX_MATERIALS);
}

#[test]
fn sphere_capacity_is_enforced() {
    let mut s = Scene::new();
    for _ in 0..MAX_SPHERES {
        assert_eq!(s.add_sphere(Sphere::default()), Ok(()));
    }
    assert_eq!(s.add_sphere(Sphere::new(Vec3::zero(), U, 1)), Err(SceneError::SpheresFull));
    assert_eq!(s.sphere_count() as usize, MAX_SPHERES);
    assert_eq!(s.spheres()[0], Sphere::default());
}

#[test]
fn triangles_are_added_all_or_nothing() {
    let mut s = Scene::new();
    let first: Vec<Triangle> = (0..200).map(|i| tri_at(i * U, 0, 0)).collect();
    assert_eq!(s.add_triangles(&first), Ok(()));
    let more: Vec<Triangle> = (0..57).map(|i| tri_at(0, i * U, 0)).collect();
    assert_eq!(s.add_triangles(&more), Err(SceneError::TrianglesFull));
    assert_eq!(s.triangle_count(), 200);
    assert_eq!(s.add_triangles(&more[..56]), Ok(()));
    assert_eq!(s.triangle_count() as usize, MAX_TRIANGLES);
    assert_eq!(s.triangles()[200], more[0]);
}

#[test]
fn single_triangle_scene_builds_one_leaf() {
    let mut s = Scene::new();
    let t = Triangle::new([Vec3::new(0, 0, 0), Vec3::new(U, 0, 0), Vec3::new(0, U, 0)], 0);
    assert_eq!(s.add_triangles(&[t]), Ok(()));
    assert_eq!(s.build(), Ok(()));
    let bvh = s.bvh();
    assert_eq!(bvh.len(), 1);
    assert_eq!(bvh[0].bbox_min, Vec3::new(0, 0, -DEGENERATE_PAD));
    assert_eq!(bvh[0].bbox_max, Vec3::new(U, U, DEGENERATE_PAD));
    assert_eq!(bvh[0].triangle_count, 1);
    assert_eq!(bvh[0].triangle_ids[0], 0);
}

#[test]
fn ten_triangle_scene_builds_root_and_two_leaves() {
    let mut s = Scene::new();
    let tris: Vec<Triangle> = (0..10).map(|i| tri_at(0, 0, i * U)).collect();
    assert_eq!(s.add_triangles(&tris), Ok(()));
    assert_eq!(s.build(), Ok(()));
    let bvh = s.bvh();
    assert_eq!(bvh.len(), 3);
    assert_eq!(bvh[0].triangle_count, 0);
    assert_eq!(bvh[1].triangle_count + bvh[2].triangle_count, 10);
}

#[test]
fn empty_scene_builds_no_nodes() {
    let mut s = Scene::new();
    assert_eq!(s.build(), Ok(()));
    assert!(s.bvh().is_empty());
}

#[test]
fn rebuild_replaces_the_hierarchy() {
    let mut s = Scene::new();
    let tris: Vec<Triangle> = (0..10).map(|i| tri_at(i * U, 0, 0)).collect();
    assert_eq!(s.add_triangles(&tris), Ok(()));
    assert_eq!(s.build(), Ok(()));
    let before = s.bvh().clone();
    assert_eq!(s.build(), Ok(()));
    assert_eq!(s.bvh(), &before);
    assert_eq!(s.add_triangles(&[tri_at(50 * U, 0, 0)]), Ok(()));
    assert_eq!(s.build(), Ok(()));
    assert_eq!(s.bvh().len(), 3);
    assert_eq!(s.bvh()[2].triangle_count, 6);
}

#[test]
fn oversized_hierarchy_is_refused() {
    let mut s = Scene::new();
    let tris: Vec<Triangle> = (0..MAX_TRIANGLES as i32).map(|i| tri_at(i * U, 0, 0)).collect();
    assert_eq!(s.add_triangles(&tris), Ok(()));
    assert_eq!(s.build(), Err(SceneError::BvhFull));
    assert!(s.bvh().is_empty());
    let mut small = Scene::new();
    assert_eq!(small.add_triangles(&tris[..96]), Ok(()));
    assert_eq!(small.build(), Ok(()));
    assert!(small.bvh().len() <= MAX_BVH_NODES);
}
