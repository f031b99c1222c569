//! Sphere primitives and exact ray-sphere intersection.
//!
//! The intersection is the quadratic-formula test carried out in saturating
//! Q16.16 arithmetic; `spec_sphere_hit` states the returned hit exactly, so a
//! query over a set of spheres is a mathematical function of the ray and the
//! set. `brute_force_hit` is the reference nearest-hit query that the spatial
//! index is measured against.

use vstd::prelude::*;
use crate::fixed::{q_add, q_sub, q_mul, q_div, q_sqrt, q_in_range, spec_clamp, spec_q_mul,
    spec_q_div, spec_q_sqrt};
use crate::vec3::{Ray, Vec3q, v_in_range};

verus! {

/// The only renderable shape: a sphere with reflectance and emission.
#[derive(Clone, Copy, Debug)]
pub struct Sphere {
    pub center: Vec3q,
    pub radius: i64,
    pub albedo: Vec3q,
    pub emission: Vec3q,
}

/// A well-formed sphere: all quantities inside the engine range.
pub open spec fn wf_sphere(s: Sphere) -> bool {
    v_in_range(s.center) && q_in_range(s.radius as int) && v_in_range(s.albedo) && v_in_range(
        s.emission,
    )
}

/// A ray whose components are inside the engine range.
pub open spec fn wf_ray(r: Ray) -> bool {
    v_in_range(r.origin) && v_in_range(r.direction)
}

/// A surface interaction.
#[derive(Clone, Copy, Debug)]
pub struct Hit {
    pub t: i64,
    pub point: Vec3q,
    pub normal: Vec3q,
    pub albedo: Vec3q,
    pub emission: Vec3q,
}

/// The candidate parameter of the nearest admissible root at or past `t_min`,
/// ignoring any upper bound: the smaller quadratic root if it lies at or past
/// `t_min`, else the larger, else nothing.
pub open spec fn spec_candidate(ray: Ray, t_min: int, s: Sphere) -> Option<int> {
    let oc = ray.origin.spec_sub(s.center);
    let a = ray.direction.spec_dot(ray.direction);
    let half_b = oc.spec_dot(ray.direction);
    let c = spec_clamp(oc.spec_dot(oc) - spec_q_mul(s.radius as int, s.radius as int));
    let disc = spec_clamp(spec_q_mul(half_b, half_b) - spec_q_mul(a, c));
    if disc < 0 {
        Option::None
    } else {
        let sq = spec_q_sqrt(disc);
        let near = spec_q_div(spec_clamp(spec_clamp(-half_b) - sq), a);
        let far = spec_q_div(spec_clamp(spec_clamp(-half_b) + sq), a);
        if near >= t_min {
            Option::Some(near)
        } else if far >= t_min {
            Option::Some(far)
        } else {
            Option::None
        }
    }
}

/// The hit record built at parameter `t` on a sphere.
pub open spec fn spec_make_hit(ray: Ray, s: Sphere, t: int) -> Hit {
    let point = ray.spec_at(t);
    Hit {
        t: t as i64,
        point,
        normal: point.spec_sub(s.center).spec_div_s(s.radius as int),
        albedo: s.albedo,
        emission: s.emission,
    }
}

/// What a bounded intersection query returns: the candidate if it does not
/// overshoot the bound, dressed up as a hit record.
pub open spec fn spec_sphere_hit(ray: Ray, t_min: int, t_max: int, s: Sphere) -> Option<Hit> {
    match spec_candidate(ray, t_min, s) {
        Option::Some(t) => if t <= t_max {
            Option::Some(spec_make_hit(ray, s, t))
        } else {
            Option::None
        },
        Option::None => Option::None,
    }
}

impl Sphere {
    /// Nearest intersection of the ray with this sphere inside [t_min, t_max].
    pub fn hit(&self, ray: &Ray, t_min: i64, t_max: i64) -> (r: Option<Hit>)
        requires
            wf_sphere(*self),
            wf_ray(*ray),
        ensures
            r == spec_sphere_hit(*ray, t_min as int, t_max as int, *self),
            r matches Some(h) ==> t_min <= h.t <= t_max && q_in_range(h.t as int),
    {
        let oc = ray.origin.sub(self.center);
        let a = ray.direction.dot(ray.direction);
        let half_b = oc.dot(ray.direction);
        let c = q_sub(oc.dot(oc), q_mul(self.radius, self.radius));
        let disc = q_sub(q_mul(half_b, half_b), q_mul(a, c));
        if disc < 0 {
            return None;
        }
        let sq = q_sqrt(disc);
        let neg_half_b = q_sub(0, half_b);
        let near = q_div(q_sub(neg_half_b, sq), a);
        let far = q_div(q_add(neg_half_b, sq), a);
        let root = if near >= t_min {
            near
        } else if far >= t_min {
            far
        } else {
            return None;
        };
        if root > t_max {
            return None;
        }
        let point = ray.at(root);
        let normal = point.sub(self.center).div_s(self.radius);
        Some(
            Hit { t: root, point, normal, albedo: self.albedo, emission: self.emission },
        )
    }
}

/// All spheres in a set are well-formed.
pub open spec fn wf_spheres(s: Seq<Sphere>) -> bool {
    forall|i: int| 0 <= i < s.len() ==> wf_sphere(#[trigger] s[i])
}

/// The nearest hit over a sphere list, scanning left to right and narrowing
/// the upper bound at each hit — the reference for any accelerated query.
pub open spec fn spec_brute_hit(
    spheres: Seq<Sphere>,
    ray: Ray,
    t_min: int,
    t_max: int,
) -> Option<Hit>
    decreases spheres.len(),
{
    if spheres.len() == 0 {
        Option::None
    } else {
        let prev = spec_brute_hit(spheres.drop_last(), ray, t_min, t_max);
        let bound = match prev {
            Option::Some(h) => h.t as int,
            Option::None => t_max,
        };
        match spec_sphere_hit(ray, t_min, bound, spheres.last()) {
            Option::Some(h) => Option::Some(h),
            Option::None => prev,
        }
    }
}

/// Exhaustive nearest-hit query over every sphere.
pub fn brute_force_hit(spheres: &Vec<Sphere>, ray: &Ray, t_min: i64, t_max: i64) -> (r: Option<
    Hit,
>)
    requires
        wf_spheres(spheres@),
        wf_ray(*ray),
    ensures
        r == spec_brute_hit(spheres@, *ray, t_min as int, t_max as int),
        r matches Some(h) ==> t_min <= h.t <= t_max,
{
    let n = spheres.len();
    let mut closest: Option<Hit> = None;
    let mut j: usize = 0;
    proof {
        assert(spheres@.take(0) =~= Seq::<Sphere>::empty());
    }
    while j < n
        invariant
            j <= n,
            n == spheres@.len(),
            wf_spheres(spheres@),
            wf_ray(*ray),
            closest == spec_brute_hit(spheres@.take(j as int), *ray, t_min as int, t_max as int),
            closest matches Some(h) ==> t_min <= h.t <= t_max,
        decreases n - j,
    {
        proof {
            assert(spheres@.take(j + 1).drop_last() =~= spheres@.take(j as int));
            assert(spheres@.take(j + 1).last() == spheres@[j as int]);
        }
        let ct = match &closest {
            Some(h) => h.t,
            None => t_max,
        };
        match spheres[j].hit(ray, t_min, ct) {
            Some(h) => {
                closest = Some(h);
            },
            None => {},
        }
        j += 1;
    }
    proof {
        assert(spheres@.take(n as int) =~= spheres@);
    }
    closest
}

} // verus!
