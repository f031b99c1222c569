//! A pinhole camera with an orthonormal basis from look-from / look-at / up.

use vstd::prelude::*;
use crate::fixed::{q_in_range, q_mul, q_sub, spec_q_mul};
use crate::vec3::{Ray, Vec3q, v_in_range};

verus! {

/// tan(17.5 degrees) in Q16.16: half of the fixed 35-degree vertical field of
/// view, precomputed because the engine carries no trigonometry.
pub const VFOV35_HALF_TAN_Q: i64 = 20663;

#[derive(Clone, Copy, Debug)]
pub struct Camera {
    pub origin: Vec3q,
    pub lower_left: Vec3q,
    pub horizontal: Vec3q,
    pub vertical: Vec3q,
}

pub open spec fn wf_camera(c: Camera) -> bool {
    v_in_range(c.origin) && v_in_range(c.lower_left) && v_in_range(c.horizontal) && v_in_range(
        c.vertical,
    )
}

/// The camera a given framing builds: viewport from the half-tangent of the
/// vertical field of view and the aspect ratio, basis from cross products.
pub open spec fn spec_camera(
    look_from: Vec3q,
    look_at: Vec3q,
    vup: Vec3q,
    half_tan_q: int,
    aspect_q: int,
) -> Camera {
    let vh = spec_q_mul(131072, half_tan_q);
    let vw = spec_q_mul(aspect_q, vh);
    let w = look_from.spec_sub(look_at).spec_normalized();
    let u = vup.spec_cross(w).spec_normalized();
    let v = w.spec_cross(u);
    let horizontal = u.spec_scale(vw);
    let vertical = v.spec_scale(vh);
    let lower_left = look_from.spec_sub(horizontal.spec_scale(32768)).spec_sub(
        vertical.spec_scale(32768),
    ).spec_sub(w);
    Camera { origin: look_from, lower_left, horizontal, vertical }
}

/// The ray through normalized image coordinates (u, v) in [0,1]^2 (Q16.16).
pub open spec fn spec_camera_ray(c: Camera, u_q: int, v_q: int) -> Ray {
    Ray {
        origin: c.origin,
        direction: c.lower_left.spec_add(c.horizontal.spec_scale(u_q)).spec_add(
            c.vertical.spec_scale(v_q),
        ).spec_sub(c.origin).spec_normalized(),
    }
}

impl Camera {
    /// Build the camera for a framing; the 35-degree field of view enters as
    /// the precomputed half-tangent.
    pub fn new(look_from: Vec3q, look_at: Vec3q, vup: Vec3q, half_tan_q: i64, aspect_q: i64) -> (r:
        Camera)
        requires
            v_in_range(look_from),
            v_in_range(look_at),
            v_in_range(vup),
        ensures
            r == spec_camera(look_from, look_at, vup, half_tan_q as int, aspect_q as int),
            wf_camera(r),
    {
        let vh = q_mul(131072, half_tan_q);
        let vw = q_mul(aspect_q, vh);
        let w = look_from.sub(look_at).normalized();
        let u = vup.cross(w).normalized();
        let v = w.cross(u);
        let horizontal = u.scale(vw);
        let vertical = v.scale(vh);
        let lower_left = look_from.sub(horizontal.scale(32768)).sub(vertical.scale(32768)).sub(w);
        Camera { origin: look_from, lower_left, horizontal, vertical }
    }

    /// The ray for a normalized image coordinate pair.
    pub fn ray(&self, u_q: i64, v_q: i64) -> (r: Ray)
        requires
            wf_camera(*self),
        ensures
            r == spec_camera_ray(*self, u_q as int, v_q as int),
            v_in_range(r.origin),
            v_in_range(r.direction),
    {
        Ray {
            origin: self.origin,
            direction: self.lower_left.add(self.horizontal.scale(u_q)).add(
                self.vertical.scale(v_q),
            ).sub(self.origin).normalized(),
        }
    }
}

} // verus!
