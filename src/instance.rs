//! Per-instance data that an instanced renderer draws: the layout (sphere
//! instances first, then cylinder instances, each family a contiguous range
//! that matches one of the mesh buffer's two index ranges) and the exact
//! transform of each sphere instance.
use vstd::prelude::*;

use crate::mesh::IndexRange;
use crate::parser::Position;
use crate::shape::Ratio;

verus! {

/// The instance ranges of the two shape families.
#[derive(Clone, Copy, Debug, PartialEq, Eq)]
pub struct InstanceLayout {
    pub sphere_instances: IndexRange,
    pub cylinder_instances: IndexRange,
}

/// The instances do not fit the buffer they are meant for.
#[derive(Clone, Copy, Debug, PartialEq, Eq)]
pub struct CapacityError {
    pub spheres: usize,
    pub cylinders: usize,
    pub capacity: u32,
}

/// Lays out `sphere_count` sphere instances and then `cylinder_count` cylinder
/// instances in a buffer of `capacity` instances; fails where they do not fit.
pub fn instance_layout(sphere_count: usize, cylinder_count: usize, capacity: u32) -> (r: Result<
    InstanceLayout,
    CapacityError,
>)
    ensures
        r is Ok <==> sphere_count + cylinder_count <= capacity,
        match r {
            Ok(layout) => layout == (InstanceLayout {
                sphere_instances: IndexRange { start: 0, end: sphere_count as u32 },
                cylinder_instances: IndexRange {
                    start: sphere_count as u32,
                    end: (sphere_count + cylinder_count) as u32,
                },
            }),
            Err(e) => e == (CapacityError {
                spheres: sphere_count,
                cylinders: cylinder_count,
                capacity,
            }),
        },
{
    let cap = capacity as usize;
    if sphere_count > cap || cylinder_count > cap - sphere_count {
        return Err(CapacityError { spheres: sphere_count, cylinders: cylinder_count, capacity });
    }
    let spheres = sphere_count as u32;
    let total = (sphere_count + cylinder_count) as u32;
    Ok(
        InstanceLayout {
            sphere_instances: IndexRange { start: 0, end: spheres },
            cylinder_instances: IndexRange { start: spheres, end: total },
        },
    )
}

/// An exact affine map of space, `p ↦ linear · p + translation`;
/// `linear[i][j]` is the entry at row `i`, column `j`.
#[derive(Clone, Copy, Debug, PartialEq, Eq)]
pub struct ExactAffine {
    pub linear: [[Ratio; 3]; 3],
    pub translation: Position,
}

impl ExactAffine {
    pub open spec fn entry(&self, i: int, j: int) -> Ratio {
        self.linear@[i]@[j]
    }
}

pub open spec fn zero() -> Ratio {
    Ratio { num: 0, den: 1 }
}

/// The instance transform of a sphere: scaled by `radius` about the mesh's
/// center, then moved to `origin`. No rotation: a sphere looks the same
/// from every side.
pub open spec fn is_sphere_transform(t: ExactAffine, origin: Position, radius: Ratio) -> bool {
    &&& t.translation == origin
    &&& forall|i: int, j: int|
        0 <= i < 3 && 0 <= j < 3 ==> #[trigger] t.entry(i, j) == if i == j {
            radius
        } else {
            zero()
        }
}

/// Builds the instance transform of a sphere at `origin` with `radius`.
pub fn sphere_transform(origin: Position, radius: Ratio) -> (r: ExactAffine)
    ensures
        is_sphere_transform(r, origin, radius),
{
    let z = Ratio { num: 0, den: 1 };
    ExactAffine {
        linear: [[radius, z, z], [z, radius, z], [z, z, radius]],
        translation: origin,
    }
}

/// A rational `(numerator, denominator)` pair, for reasoning about values.
pub open spec fn q(r: Ratio) -> (int, int) {
    (r.num as int, r.den as int)
}

pub open spec fn q_mul(a: (int, int), b: (int, int)) -> (int, int) {
    (a.0 * b.0, a.1 * b.1)
}

pub open spec fn q_add(a: (int, int), b: (int, int)) -> (int, int) {
    (a.0 * b.1 + b.0 * a.1, a.1 * b.1)
}

pub open spec fn q_sub(a: (int, int), b: (int, int)) -> (int, int) {
    (a.0 * b.1 - b.0 * a.1, a.1 * b.1)
}

/// `a` and `b` stand for the same number.
pub open spec fn q_eq(a: (int, int), b: (int, int)) -> bool {
    a.0 * b.1 == b.0 * a.1
}

/// Determinant of the linear part, by cofactors along the first row.
pub open spec fn det3(t: ExactAffine) -> (int, int) {
    let e = |i: int, j: int| q(t.entry(i, j));
    q_add(
        q_sub(
            q_mul(e(0, 0), q_sub(q_mul(e(1, 1), e(2, 2)), q_mul(e(1, 2), e(2, 1)))),
            q_mul(e(0, 1), q_sub(q_mul(e(1, 0), e(2, 2)), q_mul(e(1, 2), e(2, 0)))),
        ),
        q_mul(e(0, 2), q_sub(q_mul(e(1, 0), e(2, 1)), q_mul(e(1, 1), e(2, 0)))),
    )
}

/// The transform of a sphere of radius `r` is a uniform scale: its linear part
/// is `r` times the identity (no rotation, no shear), and its determinant is `r³`.
pub proof fn lemma_sphere_transform_is_uniform_scale(t: ExactAffine, origin: Position, radius: Ratio)
    requires
        is_sphere_transform(t, origin, radius),
    ensures
        forall|i: int| 0 <= i < 3 ==> #[trigger] t.entry(i, i) == radius,
        forall|i: int, j: int| 0 <= i < 3 && 0 <= j < 3 && i != j ==> #[trigger] t.entry(i, j).num == 0,
        q_eq(det3(t), q_mul(q(radius), q_mul(q(radius), q(radius)))),
{
    let n = radius.num as int;
    let d = radius.den as int;
    assert(t.entry(0, 0) == radius && t.entry(1, 1) == radius && t.entry(2, 2) == radius);
    assert(t.entry(0, 1) == zero() && t.entry(0, 2) == zero() && t.entry(1, 0) == zero());
    assert(t.entry(1, 2) == zero() && t.entry(2, 0) == zero() && t.entry(2, 1) == zero());
    let a = q_sub(q_mul((n, d), (n, d)), q_mul((0int, 1int), (0int, 1int)));
    assert(a == (n * n, d * d)) by (nonlinear_arith)
        requires
            a == q_sub(q_mul((n, d), (n, d)), q_mul((0int, 1int), (0int, 1int))),
    ;
    let b = q_sub(q_mul((0int, 1int), (n, d)), q_mul((0int, 1int), (0int, 1int)));
    assert(b == (0int, d)) by (nonlinear_arith)
        requires
            b == q_sub(q_mul((0int, 1int), (n, d)), q_mul((0int, 1int), (0int, 1int))),
    ;
    let c = q_sub(q_mul((0int, 1int), (0int, 1int)), q_mul((n, d), (0int, 1int)));
    assert(c == (0int, d)) by (nonlinear_arith)
        requires
            c == q_sub(q_mul((0int, 1int), (0int, 1int)), q_mul((n, d), (0int, 1int))),
    ;
    let first = q_mul((n, d), a);
    assert(first == (n * (n * n), d * (d * d))) by (nonlinear_arith)
        requires
            first == q_mul((n, d), a),
            a == (n * n, d * d),
    ;
    let s = q_sub(first, q_mul((0int, 1int), b));
    assert(s == (n * (n * n) * d, d * (d * d) * d)) by (nonlinear_arith)
        requires
            s == q_sub(first, q_mul((0int, 1int), b)),
            first == (n * (n * n), d * (d * d)),
            b == (0int, d),
    ;
    let det = q_add(s, q_mul((0int, 1int), c));
    assert(det == (n * (n * n) * d * d, d * (d * d) * d * d)) by (nonlinear_arith)
        requires
            det == q_add(s, q_mul((0int, 1int), c)),
            s == (n * (n * n) * d, d * (d * d) * d),
            c == (0int, d),
    ;
    assert(det3(t) == det);
    assert(q_eq(det, (n * (n * n), d * (d * d)))) by (nonlinear_arith)
        requires
            det == (n * (n * n) * d * d, d * (d * d) * d * d),
    ;
}

} // verus!
