use vstd::prelude::*;

verus! {

/// The cross product of `a` and `b`.
pub open spec fn cross3(a: (int, int, int), b: (int, int, int)) -> (int, int, int) {
    (a.1 * b.2 - a.2 * b.1, a.2 * b.0 - a.0 * b.2, a.0 * b.1 - a.1 * b.0)
}

/// A 3-component vector of `i32`.
#[derive(Clone, Copy, Debug)]
pub struct Vec3i([i32; 3]);

impl View for Vec3i {
    type V = (int, int, int);

    closed spec fn view(&self) -> (int, int, int) {
        (self.0[0] as int, self.0[1] as int, self.0[2] as int)
    }
}

impl Vec3i {
    pub fn new(x: i32, y: i32, z: i32) -> (r: Self)
        ensures
            r@ == (x as int, y as int, z as int),
    {
        Self([x, y, z])
    }

    pub fn x(&self) -> (r: i32)
        ensures
            r == self@.0,
    {
        self.0[0]
    }

    pub fn y(&self) -> (r: i32)
        ensures
            r == self@.1,
    {
        self.0[1]
    }

    pub fn z(&self) -> (r: i32)
        ensures
            r == self@.2,
    {
        self.0[2]
    }

    /// The cross product; every product and difference it forms fits in an `i32`.
    pub fn cross(self, rhs: Self) -> (r: Self)
        requires
            i32::MIN <= self@.1 * rhs@.2 <= i32::MAX,
            i32::MIN <= self@.2 * rhs@.1 <= i32::MAX,
            i32::MIN <= self@.2 * rhs@.0 <= i32::MAX,
            i32::MIN <= self@.0 * rhs@.2 <= i32::MAX,
            i32::MIN <= self@.0 * rhs@.1 <= i32::MAX,
            i32::MIN <= self@.1 * rhs@.0 <= i32::MAX,
            i32::MIN <= cross3(self@, rhs@).0 <= i32::MAX,
            i32::MIN <= cross3(self@, rhs@).1 <= i32::MAX,
            i32::MIN <= cross3(self@, rhs@).2 <= i32::MAX,
        ensures
            r@ == cross3(self@, rhs@),
    {
        Self([
            self.0[1] * rhs.0[2] - self.0[2] * rhs.0[1],
            self.0[2] * rhs.0[0] - self.0[0] * rhs.0[2],
            self.0[0] * rhs.0[1] - self.0[1] * rhs.0[0],
        ])
    }
}

/// The cross product is anti-commutative: `a x b == -(b x a)`.
pub proof fn lemma_cross_anticommutative(a: (int, int, int), b: (int, int, int))
    ensures
        cross3(a, b) == (-cross3(b, a).0, -cross3(b, a).1, -cross3(b, a).2),
{
    assert(a.1 * b.2 == b.2 * a.1) by (nonlinear_arith);
    assert(a.2 * b.1 == b.1 * a.2) by (nonlinear_arith);
    assert(a.2 * b.0 == b.0 * a.2) by (nonlinear_arith);
    assert(a.0 * b.2 == b.2 * a.0) by (nonlinear_arith);
    assert(a.0 * b.1 == b.1 * a.0) by (nonlinear_arith);
    assert(a.1 * b.0 == b.0 * a.1) by (nonlinear_arith);
}

/// The cross product is orthogonal to both factors.
pub proof fn lemma_cross_orthogonal(a: (int, int, int), b: (int, int, int))
    ensures
        a.0 * cross3(a, b).0 + a.1 * cross3(a, b).1 + a.2 * cross3(a, b).2 == 0,
        b.0 * cross3(a, b).0 + b.1 * cross3(a, b).1 + b.2 * cross3(a, b).2 == 0,
{
    assert(a.0 * (a.1 * b.2 - a.2 * b.1) + a.1 * (a.2 * b.0 - a.0 * b.2) + a.2 * (a.0 * b.1 - a.1 * b.0) == 0) by (nonlinear_arith);
    assert(b.0 * (a.1 * b.2 - a.2 * b.1) + b.1 * (a.2 * b.0 - a.0 * b.2) + b.2 * (a.0 * b.1 - a.1 * b.0) == 0) by (nonlinear_arith);
}

} // verus!
