//! Word layout of the scene buffer that the shading kernel reads.
//!
//! The buffer is a fixed sequence of 32-bit words: every material, sphere,
//! triangle and hierarchy slot at its declared offset (unused slots hold
//! the defaults), then the live counts, with explicit zero padding. A word
//! is either raw bits (indices, counts, padding) or a fixed-point value
//! that the kernel reads as a float.
use vstd::prelude::*;
use crate::geometry::{Vec3, Triangle, UNITS_PER_LENGTH};
use crate::bvh::{BVHNode, NodeModel, TRIANGLES_PER_LEAF, node_views};
use crate::scene::{
    Material, Sphere, Scene, SceneView, MAX_MATERIALS, MAX_SPHERES, MAX_TRIANGLES, MAX_BVH_NODES,
};

verus! {

/// One word of the scene buffer.
#[derive(Clone, Copy, Debug, PartialEq, Eq, Structural)]
pub enum Word {
    /// Stored as these bits.
    Bits(u32),
    /// A fixed-point quantity, stored as the float it stands for.
    Fixed(i32),
}

pub const MATERIAL_WORDS: usize = 8;
pub const SPHERE_WORDS: usize = 8;
pub const TRIANGLE_WORDS: usize = 16;
pub const NODE_WORDS: usize = 16;
pub const COUNT_WORDS: usize = 4;

pub const MATERIALS_AT: usize = 0;
pub const SPHERES_AT: usize = MATERIALS_AT + MAX_MATERIALS * MATERIAL_WORDS;
pub const TRIANGLES_AT: usize = SPHERES_AT + MAX_SPHERES * SPHERE_WORDS;
pub const COUNTS_AT: usize = TRIANGLES_AT + MAX_TRIANGLES * TRIANGLE_WORDS;
pub const BVH_AT: usize = COUNTS_AT + COUNT_WORDS;
pub const SCENE_WORDS: usize = BVH_AT + MAX_BVH_NODES * NODE_WORDS;

pub open spec fn zero_word() -> Word {
    Word::Bits(0)
}

pub open spec fn material_words(m: Material) -> Seq<Word> {
    seq![
        Word::Fixed(m.color.x), Word::Fixed(m.color.y), Word::Fixed(m.color.z),
        Word::Fixed(m.roughness_or_ior), Word::Fixed(m.emission_strength), Word::Fixed(m.volume_density),
        zero_word(), zero_word(),
    ]
}

pub open spec fn sphere_words(s: Sphere) -> Seq<Word> {
    seq![
        Word::Fixed(s.center.x), Word::Fixed(s.center.y), Word::Fixed(s.center.z), Word::Fixed(s.radius),
        Word::Bits(s.material_id), zero_word(), zero_word(), zero_word(),
    ]
}

pub open spec fn triangle_words(t: Triangle) -> Seq<Word> {
    seq![
        Word::Fixed(t.vertex_0.x), Word::Fixed(t.vertex_0.y), Word::Fixed(t.vertex_0.z), zero_word(),
        Word::Fixed(t.vertex_1.x), Word::Fixed(t.vertex_1.y), Word::Fixed(t.vertex_1.z), zero_word(),
        Word::Fixed(t.vertex_2.x), Word::Fixed(t.vertex_2.y), Word::Fixed(t.vertex_2.z), zero_word(),
        Word::Bits(t.material_id), zero_word(), zero_word(), zero_word(),
    ]
}

pub open spec fn node_words(n: NodeModel) -> Seq<Word> {
    seq![
        Word::Fixed(n.bbox_min.x), Word::Fixed(n.bbox_min.y), Word::Fixed(n.bbox_min.z), Word::Bits(n.child1),
        Word::Fixed(n.bbox_max.x), Word::Fixed(n.bbox_max.y), Word::Fixed(n.bbox_max.z), Word::Bits(n.child2),
        Word::Bits(n.triangle_count),
        Word::Bits(n.triangle_ids[0]), Word::Bits(n.triangle_ids[1]), Word::Bits(n.triangle_ids[2]),
        Word::Bits(n.triangle_ids[3]), Word::Bits(n.triangle_ids[4]), Word::Bits(n.triangle_ids[5]),
        Word::Bits(n.triangle_ids[6]),
    ]
}

pub open spec fn default_material() -> Material {
    Material {
        color: Vec3 { x: UNITS_PER_LENGTH, y: UNITS_PER_LENGTH, z: UNITS_PER_LENGTH },
        roughness_or_ior: UNITS_PER_LENGTH,
        emission_strength: 0,
        volume_density: UNITS_PER_LENGTH,
    }
}

pub open spec fn default_sphere() -> Sphere {
    Sphere { center: Vec3 { x: 0, y: 0, z: 0 }, radius: UNITS_PER_LENGTH, material_id: 0 }
}

pub open spec fn default_triangle() -> Triangle {
    Triangle {
        vertex_0: Vec3 { x: 0, y: 0, z: 0 },
        vertex_1: Vec3 { x: 0, y: 0, z: 0 },
        vertex_2: Vec3 { x: 0, y: 0, z: 0 },
        material_id: 0,
    }
}

pub open spec fn default_node() -> NodeModel {
    NodeModel {
        bbox_min: Vec3 { x: 0, y: 0, z: 0 },
        bbox_max: Vec3 { x: 0, y: 0, z: 0 },
        child1: 0,
        child2: 0,
        triangle_count: 0,
        triangle_ids: Seq::new(TRIANGLES_PER_LEAF as nat, |k: int| 0u32),
    }
}

pub open spec fn material_slot(v: SceneView, i: int) -> Material {
    if i < v.materials.len() { v.materials[i] } else { default_material() }
}

pub open spec fn sphere_slot(v: SceneView, i: int) -> Sphere {
    if i < v.spheres.len() { v.spheres[i] } else { default_sphere() }
}

pub open spec fn triangle_slot(v: SceneView, i: int) -> Triangle {
    if i < v.triangles.len() { v.triangles[i] } else { default_triangle() }
}

pub open spec fn node_slot(v: SceneView, i: int) -> NodeModel {
    if i < v.bvh.len() { v.bvh[i] } else { default_node() }
}

pub open spec fn count_words(v: SceneView) -> Seq<Word> {
    seq![Word::Bits(v.spheres.len() as u32), Word::Bits(v.triangles.len() as u32), zero_word(), zero_word()]
}

/// Word `w` of the buffer that holds the scene `v`.
pub open spec fn scene_word(v: SceneView, w: int) -> Word {
    if w < SPHERES_AT {
        material_words(material_slot(v, (w - MATERIALS_AT) / 8))[(w - MATERIALS_AT) % 8]
    } else if w < TRIANGLES_AT {
        sphere_words(sphere_slot(v, (w - SPHERES_AT) / 8))[(w - SPHERES_AT) % 8]
    } else if w < COUNTS_AT {
        triangle_words(triangle_slot(v, (w - TRIANGLES_AT) / 16))[(w - TRIANGLES_AT) % 16]
    } else if w < BVH_AT {
        count_words(v)[w - COUNTS_AT]
    } else {
        node_words(node_slot(v, (w - BVH_AT) / 16))[(w - BVH_AT) % 16]
    }
}

/// The whole buffer for the scene `v`.
pub open spec fn scene_words(v: SceneView) -> Seq<Word> {
    Seq::new(SCENE_WORDS as nat, |w: int| scene_word(v, w))
}

proof fn lemma_record_index(base: int, size: int, i: int, j: int)
    requires
        0 < size,
        0 <= i,
        0 <= j < size,
    ensures
        (base + size * i + j - base) / size == i,
        (base + size * i + j - base) % size == j,
{
    assert((size * i + j) / size == i && (size * i + j) % size == j) by (nonlinear_arith)
        requires 0 < size, 0 <= i, 0 <= j < size;
    assert(base + size * i + j - base == size * i + j);
}

fn push_material(out: &mut Vec<Word>, m: &Material)
    ensures
        final(out)@ == old(out)@ + material_words(*m),
{
    out.push(Word::Fixed(m.color.x));
    out.push(Word::Fixed(m.color.y));
    out.push(Word::Fixed(m.color.z));
    out.push(Word::Fixed(m.roughness_or_ior));
    out.push(Word::Fixed(m.emission_strength));
    out.push(Word::Fixed(m.volume_density));
    out.push(Word::Bits(0));
    out.push(Word::Bits(0));
    assert(out@ =~= old(out)@ + material_words(*m));
}

fn push_sphere(out: &mut Vec<Word>, s: &Sphere)
    ensures
        final(out)@ == old(out)@ + sphere_words(*s),
{
    out.push(Word::Fixed(s.center.x));
    out.push(Word::Fixed(s.center.y));
    out.push(Word::Fixed(s.center.z));
    out.push(Word::Fixed(s.radius));
    out.push(Word::Bits(s.material_id));
    out.push(Word::Bits(0));
    out.push(Word::Bits(0));
    out.push(Word::Bits(0));
    assert(out@ =~= old(out)@ + sphere_words(*s));
}

fn push_vertex(out: &mut Vec<Word>, v: &Vec3)
    ensures
        final(out)@ == old(out)@ + seq![Word::Fixed(v.x), Word::Fixed(v.y), Word::Fixed(v.z), zero_word()],
{
    out.push(Word::Fixed(v.x));
    out.push(Word::Fixed(v.y));
    out.push(Word::Fixed(v.z));
    out.push(Word::Bits(0));
    assert(out@ =~= old(out)@ + seq![Word::Fixed(v.x), Word::Fixed(v.y), Word::Fixed(v.z), zero_word()]);
}

fn push_triangle(out: &mut Vec<Word>, t: &Triangle)
    ensures
        final(out)@ == old(out)@ + triangle_words(*t),
{
    push_vertex(out, &t.vertex_0);
    push_vertex(out, &t.vertex_1);
    push_vertex(out, &t.vertex_2);
    out.push(Word::Bits(t.material_id));
    out.push(Word::Bits(0));
    out.push(Word::Bits(0));
    out.push(Word::Bits(0));
    assert(out@ =~= old(out)@ + triangle_words(*t));
}

fn push_node(out: &mut Vec<Word>, n: &BVHNode)
    ensures
        final(out)@ == old(out)@ + node_words(n@),
{
    out.push(Word::Fixed(n.bbox_min.x));
    out.push(Word::Fixed(n.bbox_min.y));
    out.push(Word::Fixed(n.bbox_min.z));
    out.push(Word::Bits(n.child1));
    out.push(Word::Fixed(n.bbox_max.x));
    out.push(Word::Fixed(n.bbox_max.y));
    out.push(Word::Fixed(n.bbox_max.z));
    out.push(Word::Bits(n.child2));
    out.push(Word::Bits(n.triangle_count));
    let mut k: usize = 0;
    while k < TRIANGLES_PER_LEAF
        invariant
            k <= TRIANGLES_PER_LEAF,
            out@ == old(out)@ + node_words(n@).take(9 + k),
        decreases TRIANGLES_PER_LEAF - k,
    {
        out.push(Word::Bits(n.triangle_ids[k]));
        k += 1;
        assert(out@ =~= old(out)@ + node_words(n@).take(9 + k));
    }
    assert(node_words(n@).take(16) =~= node_words(n@));
}

impl Scene {
    /// The scene buffer: every slot at its declared offset, unused slots
    /// holding the defaults, then the live counts.
    pub fn serialize(&self) -> (r: Vec<Word>)
        requires
            self.wf(),
        ensures
            r@ == scene_words(self@),
    {
        let ghost v = self@;
        let mut out: Vec<Word> = Vec::new();

        let mats = self.materials();
        let mut i: usize = 0;
        while i < MAX_MATERIALS
            invariant
                i <= MAX_MATERIALS,
                mats@ == v.materials,
                out@.len() == MATERIALS_AT + 8 * i,
                forall|w: int| 0 <= w < out@.len() ==> #[trigger] out@[w] == scene_word(v, w),
            decreases MAX_MATERIALS - i,
        {
            let m = if i < mats.len() { mats[i] } else { Material::default() };
            let ghost before = out@;
            push_material(&mut out, &m);
            assert forall|w: int| 0 <= w < out@.len() implies #[trigger] out@[w] == scene_word(v, w) by {
                if w >= before.len() {
                    lemma_record_index(MATERIALS_AT as int, 8, i as int, w - before.len());
                }
            }
            i += 1;
        }

        let sphs = self.spheres();
        let mut i: usize = 0;
        while i < MAX_SPHERES
            invariant
                i <= MAX_SPHERES,
                sphs@ == v.spheres,
                out@.len() == SPHERES_AT + 8 * i,
                forall|w: int| 0 <= w < out@.len() ==> #[trigger] out@[w] == scene_word(v, w),
            decreases MAX_SPHERES - i,
        {
            let sp = if i < sphs.len() { sphs[i] } else { Sphere::default() };
            let ghost before = out@;
            push_sphere(&mut out, &sp);
            assert forall|w: int| 0 <= w < out@.len() implies #[trigger] out@[w] == scene_word(v, w) by {
                if w >= before.len() {
                    lemma_record_index(SPHERES_AT as int, 8, i as int, w - before.len());
                }
            }
            i += 1;
        }

        let tris = self.triangles();
        let mut i: usize = 0;
        while i < MAX_TRIANGLES
            invariant
                i <= MAX_TRIANGLES,
                tris@ == v.triangles,
                out@.len() == TRIANGLES_AT + 16 * i,
                forall|w: int| 0 <= w < out@.len() ==> #[trigger] out@[w] == scene_word(v, w),
            decreases MAX_TRIANGLES - i,
        {
            let t = if i < tris.len() { tris[i] } else { Triangle::default() };
            let ghost before = out@;
            push_triangle(&mut out, &t);
            assert forall|w: int| 0 <= w < out@.len() implies #[trigger] out@[w] == scene_word(v, w) by {
                if w >= before.len() {
                    lemma_record_index(TRIANGLES_AT as int, 16, i as int, w - before.len());
                }
            }
            i += 1;
        }

        let ghost before = out@;
        out.push(Word::Bits(self.sphere_count()));
        out.push(Word::Bits(self.triangle_count()));
        out.push(Word::Bits(0));
        out.push(Word::Bits(0));
        assert forall|w: int| 0 <= w < out@.len() implies #[trigger] out@[w] == scene_word(v, w) by {
            if w >= before.len() {
                assert(out@[w] == count_words(v)[w - COUNTS_AT]);
            }
        }

        let nodes = self.bvh();
        let mut i: usize = 0;
        while i < MAX_BVH_NODES
            invariant
                i <= MAX_BVH_NODES,
                node_views(nodes@) == v.bvh,
                out@.len() == BVH_AT + 16 * i,
                forall|w: int| 0 <= w < out@.len() ==> #[trigger] out@[w] == scene_word(v, w),
            decreases MAX_BVH_NODES - i,
        {
            let n = if i < nodes.len() { nodes[i] } else { BVHNode::default() };
            assert(n@ == node_slot(v, i as int)) by {
                if i < nodes.len() {
                    assert(node_views(nodes@)[i as int] == nodes@[i as int]@);
                }
            }
            let ghost before = out@;
            push_node(&mut out, &n);
            assert forall|w: int| 0 <= w < out@.len() implies #[trigger] out@[w] == scene_word(v, w) by {
                if w >= before.len() {
                    lemma_record_index(BVH_AT as int, 16, i as int, w - before.len());
                }
            }
            i += 1;
        }
        assert(out@ =~= scene_words(v));
        out
    }
}

/// The fixed-point value of word `k`; zero for raw bits.
pub open spec fn fixed_at(ws: Seq<Word>, k: int) -> i32 {
    match ws[k] {
        Word::Fixed(x) => x,
        Word::Bits(_) => 0,
    }
}

/// The raw bits of word `k`; zero for a fixed-point value.
pub open spec fn bits_at(ws: Seq<Word>, k: int) -> u32 {
    match ws[k] {
        Word::Bits(b) => b,
        Word::Fixed(_) => 0,
    }
}

pub open spec fn vec_at(ws: Seq<Word>, k: int) -> Vec3 {
    Vec3 { x: fixed_at(ws, k), y: fixed_at(ws, k + 1), z: fixed_at(ws, k + 2) }
}

/// Material slot `i`, read back from its declared offsets.
pub open spec fn read_material(ws: Seq<Word>, i: int) -> Material {
    let b = MATERIALS_AT + MATERIAL_WORDS * i;
    Material {
        color: vec_at(ws, b),
        roughness_or_ior: fixed_at(ws, b + 3),
        emission_strength: fixed_at(ws, b + 4),
        volume_density: fixed_at(ws, b + 5),
    }
}

/// Sphere slot `i`, read back from its declared offsets.
pub open spec fn read_sphere(ws: Seq<Word>, i: int) -> Sphere {
    let b = SPHERES_AT + SPHERE_WORDS * i;
    Sphere { center: vec_at(ws, b), radius: fixed_at(ws, b + 3), material_id: bits_at(ws, b + 4) }
}

/// Triangle slot `i`, read back from its declared offsets.
pub open spec fn read_triangle(ws: Seq<Word>, i: int) -> Triangle {
    let b = TRIANGLES_AT + TRIANGLE_WORDS * i;
    Triangle {
        vertex_0: vec_at(ws, b),
        vertex_1: vec_at(ws, b + 4),
        vertex_2: vec_at(ws, b + 8),
        material_id: bits_at(ws, b + 12),
    }
}

/// Hierarchy slot `i`, read back from its declared offsets.
pub open spec fn read_node(ws: Seq<Word>, i: int) -> NodeModel {
    let b = BVH_AT + NODE_WORDS * i;
    NodeModel {
        bbox_min: vec_at(ws, b),
        child1: bits_at(ws, b + 3),
        bbox_max: vec_at(ws, b + 4),
        child2: bits_at(ws, b + 7),
        triangle_count: bits_at(ws, b + 8),
        triangle_ids: Seq::new(TRIANGLES_PER_LEAF as nat, |k: int| bits_at(ws, b + 9 + k)),
    }
}

/// Reading the buffer of a scene at the declared offsets gives back every
/// material, sphere, triangle and hierarchy node it holds, and its sphere
/// and triangle counts.
pub proof fn lemma_layout_round_trip(v: SceneView)
    requires
        v.materials.len() <= MAX_MATERIALS,
        v.spheres.len() <= MAX_SPHERES,
        v.triangles.len() <= MAX_TRIANGLES,
        v.bvh.len() <= MAX_BVH_NODES,
        forall|k: int| 0 <= k < v.bvh.len() ==> (#[trigger] v.bvh[k]).triangle_ids.len() == TRIANGLES_PER_LEAF,
    ensures
        forall|i: int| 0 <= i < v.materials.len() ==> #[trigger] read_material(scene_words(v), i) == v.materials[i],
        forall|i: int| 0 <= i < v.spheres.len() ==> #[trigger] read_sphere(scene_words(v), i) == v.spheres[i],
        forall|i: int| 0 <= i < v.triangles.len() ==> #[trigger] read_triangle(scene_words(v), i) == v.triangles[i],
        forall|i: int| 0 <= i < v.bvh.len() ==> #[trigger] read_node(scene_words(v), i) == v.bvh[i],
        bits_at(scene_words(v), COUNTS_AT as int) as int == v.spheres.len(),
        bits_at(scene_words(v), COUNTS_AT + 1) as int == v.triangles.len(),
{
    let ws = scene_words(v);
    assert forall|i: int| 0 <= i < v.materials.len() implies #[trigger] read_material(ws, i) == v.materials[i] by {
        assert forall|j: int| 0 <= j < 8 implies ws[MATERIALS_AT + 8 * i + j] == material_words(v.materials[i])[j] by {
            lemma_record_index(MATERIALS_AT as int, 8, i, j);
        }
    }
    assert forall|i: int| 0 <= i < v.spheres.len() implies #[trigger] read_sphere(ws, i) == v.spheres[i] by {
        assert forall|j: int| 0 <= j < 8 implies ws[SPHERES_AT + 8 * i + j] == sphere_words(v.spheres[i])[j] by {
            lemma_record_index(SPHERES_AT as int, 8, i, j);
        }
    }
    assert forall|i: int| 0 <= i < v.triangles.len() implies #[trigger] read_triangle(ws, i) == v.triangles[i] by {
        assert forall|j: int| 0 <= j < 16 implies ws[TRIANGLES_AT + 16 * i + j] == triangle_words(v.triangles[i])[j] by {
            lemma_record_index(TRIANGLES_AT as int, 16, i, j);
        }
    }
    assert forall|i: int| 0 <= i < v.bvh.len() implies #[trigger] read_node(ws, i) == v.bvh[i] by {
        assert forall|j: int| 0 <= j < 16 implies ws[BVH_AT + 16 * i + j] == node_words(v.bvh[i])[j] by {
            lemma_record_index(BVH_AT as int, 16, i, j);
        }
        assert(read_node(ws, i).triangle_ids =~= v.bvh[i].triangle_ids) by {
            assert forall|k: int| 0 <= k < 7 implies read_node(ws, i).triangle_ids[k] == v.bvh[i].triangle_ids[k] by {
                assert(ws[BVH_AT + 16 * i + (9 + k)] == node_words(v.bvh[i])[9 + k]);
            }
        }
    }
}

} // verus!
