use shrimpy::geometry::{Triangle, Vec3, UNITS_PER_LENGTH};
use shrimpy::layout::{
    Word, BVH_AT, COUNTS_AT, MATERIALS_AT, MATERIAL_WORDS, NODE_WORDS, SCENE_WORDS, SPHERES_AT,
    SPHERE_WORDS, TRIANGLES_AT, TRIANGLE_WORDS,
};
use shrimpy::scene::{Material, Scene, Sphere};

const U: i32 = UNITS_PER_LENGTH;

fn fixed(w: Word) -> i32 {
    match w {
        Word::Fixed(v) => v,
        Word::Bits(_) => panic!("expected a fixed-point word"),
    }
}

fn bits(w: Word) -> u32 {
    match w {
        Word::Bits(b) => b,
        Word::Fixed(_) => panic!("expected a bits word"),
    }
}

#[test]
fn empty_scene_fills_slots_with_defaults() {
    let words = Scene::new().serialize();
    assert_eq!(words.len(), SCENE_WORDS);
    assert_eq!(
        &words[MATERIALS_AT..MATERIALS_AT + MATERIAL_WORDS],
        &[
            Word::Fixed(U),
            Word::Fixed(U),
            Word::Fixed(U),
            Word::Fixed(U),
            Word::Fixed(0),
            Word::Fixed(U),
            Word::Bits(0),
            Word::Bits(0)
        ]
    );
    assert_eq!(words[SPHERES_AT + 3], Word::Fixed(U));
    assert_eq!(words[COUNTS_AT], Word::Bits(0));
    assert_eq!(words[COUNTS_AT + 1], Word::Bits(0));
    assert!(words[BVH_AT..].iter().all(|w| *w == Word::Bits(0) || *w == Word::Fixed(0)));
}

#[test]
fn fields_read_back_from_their_offsets() {
    let mut s = Scene::new();
    let glass = Material::new(Vec3::new(1, 2, 3), -17_700, 4, 5);
    s.add_material(Material::default()).unwrap();
    s.add_material(glass).unwrap();
    let ball = Sphere::new(Vec3::new(-7, 8, 9), 6_000, 1);
    s.add_sphere(ball).unwrap();
    let tris: Vec<Triangle> = (0..9)
        .map(|i| Triangle::new([Vec3::new(i * U, 0, 0), Vec3::new(i * U + 1, 2, 3), Vec3::new(4, 5, -6)], i as u32))
        .collect();
    s.add_triangles(&tris).unwrap();
    s.build().unwrap();
    let words = s.serialize();

    let m = MATERIALS_AT + MATERIAL_WORDS;
    assert_eq!(
        Material::new(
            Vec3::new(fixed(words[m]), fixed(words[m + 1]), fixed(words[m + 2])),
            fixed(words[m + 3]),
            fixed(words[m + 4]),
            fixed(words[m + 5])
        ),
        glass
    );

    let p = SPHERES_AT;
    assert_eq!(
        Sphere::new(Vec3::new(fixed(words[p]), fixed(words[p + 1]), fixed(words[p + 2])), fixed(words[p + 3]), bits(words[p + 4])),
        ball
    );
    assert_eq!(words[SPHERES_AT + SPHERE_WORDS + 3], Word::Fixed(U));

    for (i, t) in tris.iter().enumerate() {
        let b = TRIANGLES_AT + TRIANGLE_WORDS * i;
        let v = |k: usize| Vec3::new(fixed(words[b + k]), fixed(words[b + k + 1]), fixed(words[b + k + 2]));
        assert_eq!(Triangle::new([v(0), v(4), v(8)], bits(words[b + 12])), *t);
        assert_eq!(words[b + 3], Word::Bits(0));
    }

    assert_eq!(bits(words[COUNTS_AT]), 1);
    assert_eq!(bits(words[COUNTS_AT + 1]), 9);

    for (i, node) in s.bvh().iter().enumerate() {
        let b = BVH_AT + NODE_WORDS * i;
        assert_eq!(fixed(words[b]), node.bbox_min.x);
        assert_eq!(fixed(words[b + 2]), node.bbox_min.z);
        assert_eq!(bits(words[b + 3]), node.child1);
        assert_eq!(fixed(words[b + 4]), node.bbox_max.x);
        assert_eq!(bits(words[b + 7]), node.child2);
        assert_eq!(bits(words[b + 8]), node.triangle_count);
        for k in 0..7 {
            assert_eq!(bits(words[b + 9 + k]), node.triangle_ids[k]);
        }
    }
    assert_eq!(s.bvh().len(), 3);
    assert_eq!(bits(words[BVH_AT + 3]), 1);
    assert_eq!(bits(words[BVH_AT + 7]), 2);
}
