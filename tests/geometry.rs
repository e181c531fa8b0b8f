use shrimpy::geometry::{Triangle, Vec3, UNITS_PER_LENGTH};

const U: i32 = UNITS_PER_LENGTH;

#[test]
fn bounding_box_is_tight() {
    let t = Triangle::new([Vec3::new(3, -4, 9), Vec3::new(-2, 8, 1), Vec3::new(5, 0, -7)], 2);
    let (lo, hi) = t.bounding_box();
    assert_eq!(lo, Vec3::new(-2, -4, -7));
    assert_eq!(hi, Vec3::new(5, 8, 9));
}

#[test]
fn center_is_the_mean() {
    let t = Triangle::new([Vec3::new(0, 0, 0), Vec3::new(3 * U, 0, 0), Vec3::new(0, 6 * U, 3)], 0);
    assert_eq!(t.center(), Vec3::new(U, 2 * U, 1));
}

#[test]
fn center_rounds_down() {
    let t = Triangle::new([Vec3::new(0, 0, -1), Vec3::new(U, 1, 0), Vec3::new(0, 0, 0)], 0);
    assert_eq!(t.center(), Vec3::new(3333, 0, -1));
}

#[test]
fn center_of_large_coordinates() {
    let big = 1_000_000_000;
    let t = Triangle::new([Vec3::all(big), Vec3::all(big), Vec3::all(big - 3)], 0);
    assert_eq!(t.center(), Vec3::all(big - 1));
}

#[test]
fn new_and_default_triangle() {
    let t = Triangle::new([Vec3::new(1, 2, 3), Vec3::new(4, 5, 6), Vec3::new(7, 8, 9)], 4);
    assert_eq!(t.vertex_0, Vec3::new(1, 2, 3));
    assert_eq!(t.vertex_1, Vec3::new(4, 5, 6));
    assert_eq!(t.vertex_2, Vec3::new(7, 8, 9));
    assert_eq!(t.material_id, 4);
    let d = Triangle::default();
    assert_eq!(d.vertex_0, Vec3::zero());
    assert_eq!(d.material_id, 0);
}

#[test]
fn vector_min_max_get() {
    let a = Vec3::new(1, -5, 3);
    let b = Vec3::new(-2, 7, 3);
    assert_eq!(a.min(&b), Vec3::new(-2, -5, 3));
    assert_eq!(a.max(&b), Vec3::new(1, 7, 3));
    assert_eq!(a.get(0), 1);
    assert_eq!(a.get(1), -5);
    assert_eq!(a.get(2), 3);
}
