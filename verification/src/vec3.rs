//! Three-component fixed-point vectors: points, directions and colors.

use vstd::prelude::*;
use crate::fixed::{
    q_add, q_sub, q_mul, q_div, q_sqrt, q_in_range, spec_clamp, spec_q_mul, spec_q_div,
    spec_q_sqrt, spec_clamp01, q_clamp01,
};

verus! {

/// A 3-vector of Q16.16 engine values.
#[derive(Clone, Copy, Debug, PartialEq)]
pub struct Vec3q {
    pub x: i64,
    pub y: i64,
    pub z: i64,
}

/// All three components are inside the engine range.
pub open spec fn v_in_range(v: Vec3q) -> bool {
    q_in_range(v.x as int) && q_in_range(v.y as int) && q_in_range(v.z as int)
}

impl Vec3q {
    pub fn new(x: i64, y: i64, z: i64) -> (r: Vec3q)
        ensures
            r == (Vec3q { x, y, z }),
    {
        Vec3q { x, y, z }
    }

    pub fn zero() -> (r: Vec3q)
        ensures
            r == (Vec3q { x: 0i64, y: 0i64, z: 0i64 }),
    {
        Vec3q { x: 0, y: 0, z: 0 }
    }

    pub open spec fn spec_add(self, o: Vec3q) -> Vec3q {
        Vec3q {
            x: spec_clamp(self.x + o.x) as i64,
            y: spec_clamp(self.y + o.y) as i64,
            z: spec_clamp(self.z + o.z) as i64,
        }
    }

    pub fn add(self, o: Vec3q) -> (r: Vec3q)
        requires
            v_in_range(self),
            v_in_range(o),
        ensures
            r == self.spec_add(o),
            v_in_range(r),
    {
        Vec3q { x: q_add(self.x, o.x), y: q_add(self.y, o.y), z: q_add(self.z, o.z) }
    }

    pub open spec fn spec_sub(self, o: Vec3q) -> Vec3q {
        Vec3q {
            x: spec_clamp(self.x - o.x) as i64,
            y: spec_clamp(self.y - o.y) as i64,
            z: spec_clamp(self.z - o.z) as i64,
        }
    }

    pub fn sub(self, o: Vec3q) -> (r: Vec3q)
        requires
            v_in_range(self),
            v_in_range(o),
        ensures
            r == self.spec_sub(o),
            v_in_range(r),
    {
        Vec3q { x: q_sub(self.x, o.x), y: q_sub(self.y, o.y), z: q_sub(self.z, o.z) }
    }

    pub open spec fn spec_scale(self, s: int) -> Vec3q {
        Vec3q {
            x: spec_q_mul(self.x as int, s) as i64,
            y: spec_q_mul(self.y as int, s) as i64,
            z: spec_q_mul(self.z as int, s) as i64,
        }
    }

    pub fn scale(self, s: i64) -> (r: Vec3q)
        ensures
            r == self.spec_scale(s as int),
            v_in_range(r),
    {
        Vec3q { x: q_mul(self.x, s), y: q_mul(self.y, s), z: q_mul(self.z, s) }
    }

    pub open spec fn spec_mul_elem(self, o: Vec3q) -> Vec3q {
        Vec3q {
            x: spec_q_mul(self.x as int, o.x as int) as i64,
            y: spec_q_mul(self.y as int, o.y as int) as i64,
            z: spec_q_mul(self.z as int, o.z as int) as i64,
        }
    }

    pub fn mul_elem(self, o: Vec3q) -> (r: Vec3q)
        ensures
            r == self.spec_mul_elem(o),
            v_in_range(r),
    {
        Vec3q { x: q_mul(self.x, o.x), y: q_mul(self.y, o.y), z: q_mul(self.z, o.z) }
    }

    pub open spec fn spec_dot(self, o: Vec3q) -> int {
        spec_clamp(
            spec_clamp(
                spec_q_mul(self.x as int, o.x as int) + spec_q_mul(self.y as int, o.y as int),
            ) + spec_q_mul(self.z as int, o.z as int),
        )
    }

    pub fn dot(self, o: Vec3q) -> (r: i64)
        ensures
            r == self.spec_dot(o),
            q_in_range(r as int),
    {
        q_add(q_add(q_mul(self.x, o.x), q_mul(self.y, o.y)), q_mul(self.z, o.z))
    }

    pub open spec fn spec_cross(self, o: Vec3q) -> Vec3q {
        Vec3q {
            x: spec_clamp(
                spec_q_mul(self.y as int, o.z as int) - spec_q_mul(self.z as int, o.y as int),
            ) as i64,
            y: spec_clamp(
                spec_q_mul(self.z as int, o.x as int) - spec_q_mul(self.x as int, o.z as int),
            ) as i64,
            z: spec_clamp(
                spec_q_mul(self.x as int, o.y as int) - spec_q_mul(self.y as int, o.x as int),
            ) as i64,
        }
    }

    pub fn cross(self, o: Vec3q) -> (r: Vec3q)
        ensures
            r == self.spec_cross(o),
            v_in_range(r),
    {
        Vec3q {
            x: q_sub(q_mul(self.y, o.z), q_mul(self.z, o.y)),
            y: q_sub(q_mul(self.z, o.x), q_mul(self.x, o.z)),
            z: q_sub(q_mul(self.x, o.y), q_mul(self.y, o.x)),
        }
    }

    pub open spec fn spec_length(self) -> int {
        spec_q_sqrt(self.spec_dot(self))
    }

    pub fn length(self) -> (r: i64)
        ensures
            r == self.spec_length(),
            r >= 0,
            q_in_range(r as int),
    {
        q_sqrt(self.dot(self))
    }

    pub open spec fn spec_normalized(self) -> Vec3q {
        let len = self.spec_length();
        if len == 0 {
            self
        } else {
            Vec3q {
                x: spec_q_div(self.x as int, len) as i64,
                y: spec_q_div(self.y as int, len) as i64,
                z: spec_q_div(self.z as int, len) as i64,
            }
        }
    }

    pub fn normalized(self) -> (r: Vec3q)
        requires
            v_in_range(self),
        ensures
            r == self.spec_normalized(),
            v_in_range(r),
    {
        let len = self.length();
        if len == 0 {
            self
        } else {
            Vec3q { x: q_div(self.x, len), y: q_div(self.y, len), z: q_div(self.z, len) }
        }
    }

    pub open spec fn spec_div_s(self, s: int) -> Vec3q {
        Vec3q {
            x: spec_q_div(self.x as int, s) as i64,
            y: spec_q_div(self.y as int, s) as i64,
            z: spec_q_div(self.z as int, s) as i64,
        }
    }

    pub fn div_s(self, s: i64) -> (r: Vec3q)
        ensures
            r == self.spec_div_s(s as int),
            v_in_range(r),
    {
        Vec3q { x: q_div(self.x, s), y: q_div(self.y, s), z: q_div(self.z, s) }
    }

    pub open spec fn spec_min(self, o: Vec3q) -> Vec3q {
        Vec3q {
            x: if self.x <= o.x {
                self.x
            } else {
                o.x
            },
            y: if self.y <= o.y {
                self.y
            } else {
                o.y
            },
            z: if self.z <= o.z {
                self.z
            } else {
                o.z
            },
        }
    }

    pub fn min(self, o: Vec3q) -> (r: Vec3q)
        ensures
            r == self.spec_min(o),
    {
        Vec3q {
            x: if self.x <= o.x {
                self.x
            } else {
                o.x
            },
            y: if self.y <= o.y {
                self.y
            } else {
                o.y
            },
            z: if self.z <= o.z {
                self.z
            } else {
                o.z
            },
        }
    }

    pub open spec fn spec_max(self, o: Vec3q) -> Vec3q {
        Vec3q {
            x: if self.x >= o.x {
                self.x
            } else {
                o.x
            },
            y: if self.y >= o.y {
                self.y
            } else {
                o.y
            },
            z: if self.z >= o.z {
                self.z
            } else {
                o.z
            },
        }
    }

    pub fn max(self, o: Vec3q) -> (r: Vec3q)
        ensures
            r == self.spec_max(o),
    {
        Vec3q {
            x: if self.x >= o.x {
                self.x
            } else {
                o.x
            },
            y: if self.y >= o.y {
                self.y
            } else {
                o.y
            },
            z: if self.z >= o.z {
                self.z
            } else {
                o.z
            },
        }
    }

    pub open spec fn spec_clamp01v(self) -> Vec3q {
        Vec3q {
            x: spec_clamp01(self.x as int) as i64,
            y: spec_clamp01(self.y as int) as i64,
            z: spec_clamp01(self.z as int) as i64,
        }
    }

    pub fn clamp01v(self) -> (r: Vec3q)
        ensures
            r == self.spec_clamp01v(),
            v_in_range(r),
    {
        Vec3q { x: q_clamp01(self.x), y: q_clamp01(self.y), z: q_clamp01(self.z) }
    }
}

/// Unit throughput is the identity: adding `1 * v` to black gives `v` back.
pub proof fn lemma_unit_mul_elem(v: Vec3q)
    requires
        v_in_range(v),
    ensures
        (Vec3q { x: 0i64, y: 0i64, z: 0i64 }).spec_add(
            (Vec3q { x: 65536i64, y: 65536i64, z: 65536i64 }).spec_mul_elem(v),
        ) == v,
{
    assert(spec_q_mul(65536, v.x as int) == v.x as int) by (nonlinear_arith)
        requires
            q_in_range(v.x as int),
    ;
    assert(spec_q_mul(65536, v.y as int) == v.y as int) by (nonlinear_arith)
        requires
            q_in_range(v.y as int),
    ;
    assert(spec_q_mul(65536, v.z as int) == v.z as int) by (nonlinear_arith)
        requires
            q_in_range(v.z as int),
    ;
}

/// A ray: an origin point and a direction.
#[derive(Clone, Copy, Debug)]
pub struct Ray {
    pub origin: Vec3q,
    pub direction: Vec3q,
}

impl Ray {
    /// The point reached after travelling `t` along the direction.
    pub open spec fn spec_at(self, t: int) -> Vec3q {
        self.origin.spec_add(self.direction.spec_scale(t))
    }

    pub fn at(&self, t: i64) -> (r: Vec3q)
        requires
            v_in_range(self.origin),
        ensures
            r == self.spec_at(t as int),
    {
        self.origin.add(self.direction.scale(t))
    }
}

} // verus!
