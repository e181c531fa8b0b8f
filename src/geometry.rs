//! Fixed-point vectors and triangles.
//!
//! Coordinates are integers counting steps of `1 / UNITS_PER_LENGTH` of a
//! scene unit, so that bounding boxes, extents and centroid orderings are
//! computed exactly.
use vstd::prelude::*;

verus! {

/// Number of fixed-point steps in one scene unit.
pub const UNITS_PER_LENGTH: i32 = 10_000;

/// Largest magnitude a coordinate of well-formed geometry may have: the
/// fixed-point counterpart of requiring finite coordinates.
pub const COORD_LIMIT: i32 = 1_000_000_000;

/// A three-component fixed-point vector.
#[derive(Clone, Copy, Debug, PartialEq, Eq, Structural)]
pub struct Vec3 {
    pub x: i32,
    pub y: i32,
    pub z: i32,
}

pub open spec fn min_int(a: int, b: int) -> int {
    if a <= b { a } else { b }
}

pub open spec fn max_int(a: int, b: int) -> int {
    if a >= b { a } else { b }
}

/// A coordinate of well-formed geometry.
pub open spec fn in_coord_range(c: int) -> bool {
    -COORD_LIMIT <= c <= COORD_LIMIT
}

impl Vec3 {
    /// The component along `axis` (0 is x, 1 is y, 2 is z).
    pub open spec fn coord(self, axis: int) -> int {
        if axis == 0 { self.x as int } else if axis == 1 { self.y as int } else { self.z as int }
    }

    pub open spec fn in_range(self) -> bool {
        in_coord_range(self.x as int) && in_coord_range(self.y as int) && in_coord_range(self.z as int)
    }

    pub fn new(x: i32, y: i32, z: i32) -> (r: Vec3)
        ensures
            r == (Vec3 { x, y, z }),
    {
        Vec3 { x, y, z }
    }

    pub fn zero() -> (r: Vec3)
        ensures
            r == (Vec3 { x: 0, y: 0, z: 0 }),
    {
        Vec3 { x: 0, y: 0, z: 0 }
    }

    pub fn all(v: i32) -> (r: Vec3)
        ensures
            r == (Vec3 { x: v, y: v, z: v }),
    {
        Vec3 { x: v, y: v, z: v }
    }

    /// The component along `axis`.
    pub fn get(&self, axis: usize) -> (r: i32)
        requires
            axis < 3,
        ensures
            r as int == self.coord(axis as int),
    {
        if axis == 0 {
            self.x
        } else if axis == 1 {
            self.y
        } else {
            self.z
        }
    }

    /// Componentwise minimum.
    pub fn min(&self, o: &Vec3) -> (r: Vec3)
        ensures
            forall|a: int| 0 <= a < 3 ==> #[trigger] r.coord(a) == min_int(self.coord(a), o.coord(a)),
    {
        Vec3 {
            x: if self.x <= o.x { self.x } else { o.x },
            y: if self.y <= o.y { self.y } else { o.y },
            z: if self.z <= o.z { self.z } else { o.z },
        }
    }

    /// Componentwise maximum.
    pub fn max(&self, o: &Vec3) -> (r: Vec3)
        ensures
            forall|a: int| 0 <= a < 3 ==> #[trigger] r.coord(a) == max_int(self.coord(a), o.coord(a)),
    {
        Vec3 {
            x: if self.x >= o.x { self.x } else { o.x },
            y: if self.y >= o.y { self.y } else { o.y },
            z: if self.z >= o.z { self.z } else { o.z },
        }
    }
}

/// A triangle with three vertices and the index of its material.
#[derive(Clone, Copy, Debug, PartialEq, Eq, Structural)]
pub struct Triangle {
    pub vertex_0: Vec3,
    pub vertex_1: Vec3,
    pub vertex_2: Vec3,
    pub material_id: u32,
}

/// Floor of a third (rounds toward negative infinity).
pub open spec fn third(s: int) -> int {
    s / 3
}

impl Triangle {
    /// Every vertex coordinate lies within `COORD_LIMIT`.
    pub open spec fn wf(self) -> bool {
        self.vertex_0.in_range() && self.vertex_1.in_range() && self.vertex_2.in_range()
    }

    /// Smallest coordinate of the three vertices along `axis`.
    pub open spec fn lo(self, axis: int) -> int {
        min_int(min_int(self.vertex_0.coord(axis), self.vertex_1.coord(axis)), self.vertex_2.coord(axis))
    }

    /// Largest coordinate of the three vertices along `axis`.
    pub open spec fn hi(self, axis: int) -> int {
        max_int(max_int(self.vertex_0.coord(axis), self.vertex_1.coord(axis)), self.vertex_2.coord(axis))
    }

    /// Sum of the three vertices' coordinates along `axis`: three times the
    /// centroid, which orders triangles exactly as the centroid does.
    pub open spec fn centroid_sum(self, axis: int) -> int {
        self.vertex_0.coord(axis) + self.vertex_1.coord(axis) + self.vertex_2.coord(axis)
    }

    pub fn new(vertices: [Vec3; 3], material_id: u32) -> (r: Triangle)
        ensures
            r == (Triangle {
                vertex_0: vertices@[0],
                vertex_1: vertices@[1],
                vertex_2: vertices@[2],
                material_id,
            }),
    {
        Triangle { vertex_0: vertices[0], vertex_1: vertices[1], vertex_2: vertices[2], material_id }
    }

    pub fn default() -> (r: Triangle)
        ensures
            r == (Triangle {
                vertex_0: Vec3 { x: 0, y: 0, z: 0 },
                vertex_1: Vec3 { x: 0, y: 0, z: 0 },
                vertex_2: Vec3 { x: 0, y: 0, z: 0 },
                material_id: 0,
            }),
    {
        Triangle {
            vertex_0: Vec3::zero(),
            vertex_1: Vec3::zero(),
            vertex_2: Vec3::zero(),
            material_id: 0,
        }
    }

    /// The tight axis-aligned box through the three vertices, as `(min, max)`.
    pub fn bounding_box(self) -> (r: (Vec3, Vec3))
        ensures
            forall|a: int| 0 <= a < 3 ==> #[trigger] r.0.coord(a) == self.lo(a),
            forall|a: int| 0 <= a < 3 ==> #[trigger] r.1.coord(a) == self.hi(a),
    {
        let bbox_min = self.vertex_0.min(&self.vertex_1).min(&self.vertex_2);
        let bbox_max = self.vertex_0.max(&self.vertex_1).max(&self.vertex_2);
        (bbox_min, bbox_max)
    }

    /// The centroid of the three vertices, each coordinate rounded down to
    /// the fixed-point grid.
    pub fn center(self) -> (r: Vec3)
        ensures
            forall|a: int| 0 <= a < 3 ==> #[trigger] r.coord(a) == third(self.centroid_sum(a)),
    {
        Vec3 {
            x: third_of_sum(self.vertex_0.x, self.vertex_1.x, self.vertex_2.x),
            y: third_of_sum(self.vertex_0.y, self.vertex_1.y, self.vertex_2.y),
            z: third_of_sum(self.vertex_0.z, self.vertex_1.z, self.vertex_2.z),
        }
    }
}

/// `floor((a + b + c) / 3)`, computed without overflow.
fn third_of_sum(a: i32, b: i32, c: i32) -> (r: i32)
    ensures
        r as int == third(a + b + c),
{
    let s: i64 = a as i64 + b as i64 + c as i64;
    let q: i64 = if s >= 0 {
        s / 3
    } else {
        -((-s + 2) / 3)
    };
    proof {
        let si = s as int;
        if si < 0 {
            let n = -si;
            assert((n + 2) / 3 * 3 <= n + 2 && n + 2 < (n + 2) / 3 * 3 + 3) by (nonlinear_arith);
            assert(si / 3 * 3 <= si && si < si / 3 * 3 + 3) by (nonlinear_arith);
        }
    }
    q as i32
}

} // verus!
