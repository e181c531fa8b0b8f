//! Fixed-capacity scene: materials, spheres and triangles appended in
//! order, and the hierarchy rebuilt over the triangles on request.
use vstd::prelude::*;
use crate::geometry::{Vec3, Triangle, UNITS_PER_LENGTH};
use crate::bvh::{BVHNode, NodeModel, TRIANGLES_PER_LEAF, build_nodes, buildable, node_views};
use crate::bvh_laws::{leaf_entries, as_ids, lemma_bvh_partition};

verus! {

pub const MAX_MATERIALS: usize = 64;

pub const MAX_SPHERES: usize = 64;

pub const MAX_TRIANGLES: usize = 256;

pub const MAX_BVH_NODES: usize = 96;

/// Surface description, in fixed point. A non-negative
/// `roughness_or_ior` is a diffuse roughness; a negative one marks a
/// dielectric whose index of refraction is its magnitude.
#[derive(Clone, Copy, Debug, PartialEq, Eq, Structural)]
pub struct Material {
    pub color: Vec3,
    pub roughness_or_ior: i32,
    pub emission_strength: i32,
    pub volume_density: i32,
}

impl Material {
    pub fn new(color: Vec3, roughness_or_ior: i32, emission_strength: i32, volume_density: i32) -> (r: Material)
        ensures
            r == (Material { color, roughness_or_ior, emission_strength, volume_density }),
    {
        Material { color, roughness_or_ior, emission_strength, volume_density }
    }

    /// White, fully rough, not emissive, unit density.
    pub fn default() -> (r: Material)
        ensures
            r == (Material {
                color: Vec3 { x: UNITS_PER_LENGTH, y: UNITS_PER_LENGTH, z: UNITS_PER_LENGTH },
                roughness_or_ior: UNITS_PER_LENGTH,
                emission_strength: 0,
                volume_density: UNITS_PER_LENGTH,
            }),
    {
        Material {
            color: Vec3::all(UNITS_PER_LENGTH),
            roughness_or_ior: UNITS_PER_LENGTH,
            emission_strength: 0,
            volume_density: UNITS_PER_LENGTH,
        }
    }
}

/// A sphere, in fixed point, with the index of its material.
#[derive(Clone, Copy, Debug, PartialEq, Eq, Structural)]
pub struct Sphere {
    pub center: Vec3,
    pub radius: i32,
    pub material_id: u32,
}

impl Sphere {
    pub fn new(center: Vec3, radius: i32, material_id: u32) -> (r: Sphere)
        ensures
            r == (Sphere { center, radius, material_id }),
    {
        Sphere { center, radius, material_id }
    }

    /// Unit sphere at the origin with material 0.
    pub fn default() -> (r: Sphere)
        ensures
            r == (Sphere { center: Vec3 { x: 0, y: 0, z: 0 }, radius: UNITS_PER_LENGTH, material_id: 0 }),
    {
        Sphere { center: Vec3::zero(), radius: UNITS_PER_LENGTH, material_id: 0 }
    }
}

/// Why an operation on a scene was refused; the scene is then unchanged.
#[derive(Clone, Copy, Debug, PartialEq, Eq, Structural)]
pub enum SceneError {
    MaterialsFull,
    SpheresFull,
    TrianglesFull,
    BvhFull,
}

/// What a scene holds.
pub ghost struct SceneView {
    pub materials: Seq<Material>,
    pub spheres: Seq<Sphere>,
    pub triangles: Seq<Triangle>,
    pub bvh: Seq<NodeModel>,
}

/// Indices `0..n`.
pub open spec fn index_range(n: nat) -> Seq<usize> {
    Seq::new(n, |i: int| i as usize)
}

/// The hierarchy a build produces over `tris`: none for no triangles.
pub open spec fn scene_bvh(tris: Seq<Triangle>) -> Seq<NodeModel> {
    if tris.len() == 0 {
        Seq::empty()
    } else {
        build_nodes(tris, index_range(tris.len()), 0)
    }
}

/// Materials, spheres, triangles and hierarchy nodes, each within its
/// fixed capacity.
pub struct Scene {
    materials: Vec<Material>,
    spheres: Vec<Sphere>,
    triangles: Vec<Triangle>,
    bvh: Vec<BVHNode>,
}

impl View for Scene {
    type V = SceneView;

    closed spec fn view(&self) -> SceneView {
        SceneView {
            materials: self.materials@,
            spheres: self.spheres@,
            triangles: self.triangles@,
            bvh: node_views(self.bvh@),
        }
    }
}

impl Scene {
    /// Every collection within its capacity and every triangle within the
    /// coordinate limit.
    pub open spec fn wf(&self) -> bool {
        &&& self@.materials.len() <= MAX_MATERIALS
        &&& self@.spheres.len() <= MAX_SPHERES
        &&& self@.triangles.len() <= MAX_TRIANGLES
        &&& self@.bvh.len() <= MAX_BVH_NODES
        &&& forall|t: int| 0 <= t < self@.triangles.len() ==> (#[trigger] self@.triangles[t]).wf()
    }

    /// An empty scene.
    pub fn new() -> (r: Scene)
        ensures
            r.wf(),
            r@.materials.len() == 0,
            r@.spheres.len() == 0,
            r@.triangles.len() == 0,
            r@.bvh.len() == 0,
    {
        Scene { materials: Vec::new(), spheres: Vec::new(), triangles: Vec::new(), bvh: Vec::new() }
    }

    /// Appends a material and returns its index, or refuses when
    /// `MAX_MATERIALS` are already held.
    pub fn add_material(&mut self, material: Material) -> (r: Result<u32, SceneError>)
        requires
            old(self).wf(),
        ensures
            final(self).wf(),
            old(self)@.materials.len() < MAX_MATERIALS ==> r == Ok::<u32, SceneError>(old(self)@.materials.len() as u32)
                && final(self)@ == (SceneView { materials: old(self)@.materials.push(material), ..old(self)@ }),
            old(self)@.materials.len() >= MAX_MATERIALS ==> r == Err::<u32, SceneError>(SceneError::MaterialsFull)
                && final(self)@ == old(self)@,
    {
        if self.materials.len() >= MAX_MATERIALS {
            return Err(SceneError::MaterialsFull);
        }
        let id = self.materials.len() as u32;
        self.materials.push(material);
        Ok(id)
    }

    /// Appends a sphere, or refuses when `MAX_SPHERES` are already held.
    pub fn add_sphere(&mut self, sphere: Sphere) -> (r: Result<(), SceneError>)
        requires
            old(self).wf(),
        ensures
            final(self).wf(),
            old(self)@.spheres.len() < MAX_SPHERES ==> r == Ok::<(), SceneError>(())
                && final(self)@ == (SceneView { spheres: old(self)@.spheres.push(sphere), ..old(self)@ }),
            old(self)@.spheres.len() >= MAX_SPHERES ==> r == Err::<(), SceneError>(SceneError::SpheresFull)
                && final(self)@ == old(self)@,
    {
        if self.spheres.len() >= MAX_SPHERES {
            return Err(SceneError::SpheresFull);
        }
        self.spheres.push(sphere);
        Ok(())
    }

    /// Appends all of `triangles`, or none of them when they would not fit
    /// within `MAX_TRIANGLES`.
    pub fn add_triangles(&mut self, triangles: &[Triangle]) -> (r: Result<(), SceneError>)
        requires
            old(self).wf(),
            forall|t: int| 0 <= t < triangles@.len() ==> (#[trigger] triangles@[t]).wf(),
        ensures
            final(self).wf(),
            old(self)@.triangles.len() + triangles@.len() <= MAX_TRIANGLES ==> r == Ok::<(), SceneError>(())
                && final(self)@ == (SceneView { triangles: old(self)@.triangles + triangles@, ..old(self)@ }),
            old(self)@.triangles.len() + triangles@.len() > MAX_TRIANGLES ==> r == Err::<(), SceneError>(SceneError::TrianglesFull)
                && final(self)@ == old(self)@,
    {
        if triangles.len() > MAX_TRIANGLES - self.triangles.len() {
            return Err(SceneError::TrianglesFull);
        }
        let ghost start = self.triangles@;
        let mut i: usize = 0;
        while i < triangles.len()
            invariant
                i <= triangles@.len(),
                start.len() + triangles@.len() <= MAX_TRIANGLES,
                self.triangles@ == start + triangles@.subrange(0, i as int),
                self.materials@ == old(self).materials@,
                self.spheres@ == old(self).spheres@,
                self.bvh@ == old(self).bvh@,
                start == old(self).triangles@,
                forall|t: int| 0 <= t < start.len() ==> (#[trigger] start[t]).wf(),
                forall|t: int| 0 <= t < triangles@.len() ==> (#[trigger] triangles@[t]).wf(),
            decreases triangles@.len() - i,
        {
            self.triangles.push(triangles[i]);
            i += 1;
            assert(self.triangles@ =~= start + triangles@.subrange(0, i as int));
        }
        assert(triangles@.subrange(0, i as int) =~= triangles@);
        assert forall|t: int| 0 <= t < self.triangles@.len() implies (#[trigger] self.triangles@[t]).wf() by {
            if t >= start.len() {
                assert(self.triangles@[t] == triangles@[t - start.len()]);
            }
        }
        Ok(())
    }

    /// Rebuilds the hierarchy over all triangles, discarding the previous
    /// one; refuses, keeping the previous one, when the new hierarchy
    /// would have more than `MAX_BVH_NODES` nodes.
    pub fn build(&mut self) -> (r: Result<(), SceneError>)
        requires
            old(self).wf(),
        ensures
            final(self).wf(),
            scene_bvh(old(self)@.triangles).len() <= MAX_BVH_NODES ==> r == Ok::<(), SceneError>(())
                && final(self)@ == (SceneView { bvh: scene_bvh(old(self)@.triangles), ..old(self)@ }),
            scene_bvh(old(self)@.triangles).len() > MAX_BVH_NODES ==> r == Err::<(), SceneError>(SceneError::BvhFull)
                && final(self)@ == old(self)@,
    {
        let n = self.triangles.len();
        if n == 0 {
            self.bvh = Vec::new();
            assert(node_views(self.bvh@) =~= Seq::<NodeModel>::empty());
            return Ok(());
        }
        let mut indices: Vec<usize> = Vec::new();
        let mut i: usize = 0;
        while i < n
            invariant
                i <= n,
                indices@ == index_range(i as nat),
            decreases n - i,
        {
            indices.push(i);
            i += 1;
            assert(indices@ =~= index_range(i as nat));
        }
        let ghost tris = self.triangles@;
        let mut nodes: Vec<BVHNode> = Vec::new();
        assert(node_views(nodes@) =~= Seq::<NodeModel>::empty());
        assert(buildable(tris, indices@));
        BVHNode::bvh_build(self.triangles.as_mut_slice(), indices.as_mut_slice(), &mut nodes, TRIANGLES_PER_LEAF);
        assert(node_views(nodes@) =~= scene_bvh(tris));
        if nodes.len() > MAX_BVH_NODES {
            return Err(SceneError::BvhFull);
        }
        self.bvh = nodes;
        Ok(())
    }

    pub fn materials(&self) -> (r: &Vec<Material>)
        ensures
            r@ == self@.materials,
    {
        &self.materials
    }

    pub fn spheres(&self) -> (r: &Vec<Sphere>)
        ensures
            r@ == self@.spheres,
    {
        &self.spheres
    }

    pub fn triangles(&self) -> (r: &Vec<Triangle>)
        ensures
            r@ == self@.triangles,
    {
        &self.triangles
    }

    /// The hierarchy of the last successful build, root first.
    pub fn bvh(&self) -> (r: &Vec<BVHNode>)
        ensures
            node_views(r@) == self@.bvh,
    {
        &self.bvh
    }

    pub fn material_count(&self) -> (r: u32)
        requires
            self.wf(),
        ensures
            r as int == self@.materials.len(),
    {
        self.materials.len() as u32
    }

    pub fn sphere_count(&self) -> (r: u32)
        requires
            self.wf(),
        ensures
            r as int == self@.spheres.len(),
    {
        self.spheres.len() as u32
    }

    pub fn triangle_count(&self) -> (r: u32)
        requires
            self.wf(),
        ensures
            r as int == self@.triangles.len(),
    {
        self.triangles.len() as u32
    }
}

proof fn lemma_range_counts(n: nat)
    requires
        n <= MAX_TRIANGLES,
    ensures
        forall|x: u32| #[trigger] as_ids(index_range(n)).to_multiset().count(x) == if (x as int) < n { 1nat } else { 0nat },
    decreases n,
{
    broadcast use vstd::seq_lib::group_to_multiset_ensures;
    if n == 0 {
        assert(as_ids(index_range(0)) =~= Seq::<u32>::empty());
    } else {
        lemma_range_counts((n - 1) as nat);
        assert(as_ids(index_range(n)) =~= as_ids(index_range((n - 1) as nat)).push((n - 1) as u32));
    }
}

/// After a build, every triangle of the scene is held by exactly one leaf,
/// once, and the leaves hold nothing else.
pub proof fn lemma_scene_partition(tris: Seq<Triangle>)
    requires
        0 < tris.len() <= MAX_TRIANGLES,
        forall|t: int| 0 <= t < tris.len() ==> (#[trigger] tris[t]).wf(),
    ensures
        forall|x: u32| #[trigger] leaf_entries(scene_bvh(tris)).to_multiset().count(x) == if (x as int) < tris.len() { 1nat } else { 0nat },
{
    let idx = index_range(tris.len());
    assert(buildable(tris, idx));
    lemma_bvh_partition(tris, idx, 0);
    lemma_range_counts(tris.len());
}

} // verus!
