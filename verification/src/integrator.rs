//! The Monte Carlo path tracer.
//!
//! Per pixel and per sample, a deterministic generator seeded from a 64-bit
//! mix of (global seed, x, y, sample index) drives a sub-pixel jitter and a
//! hemispherical random walk: on a hit the path picks up the surface's
//! emission scaled by its running throughput and bounces on; on a miss it
//! picks up the sky/ground gradient and stops. The walk is a biased
//! estimator by design: no importance sampling, no density weighting, no
//! termination roulette, and a path that exhausts its bounce budget simply
//! keeps what it has accumulated.
//!
//! Every step is exact fixed-point arithmetic, so a sample's radiance is a
//! mathematical function of (scene index, camera, seed, x, y, sample index)
//! and renders are reproducible bit for bit across runs, machines and thread
//! counts.

use vstd::prelude::*;
use rayon::iter::{IndexedParallelIterator, IntoParallelIterator, ParallelIterator};
use crate::bvh::Bvh;
use crate::camera::{Camera, spec_camera_ray, wf_camera};
use crate::fixed::{q_add, q_mul, q_sub, q_in_range, spec_clamp, spec_q_mul, Q_SAT};
use crate::geom::wf_ray;
use crate::rng::{Rng, spec_rng_init, spec_rng_next, spec_hash_seed, hash_seed};
use crate::fixed::{q_div, q_clamp01, q_sqrt, spec_q_div, spec_q_sqrt, spec_clamp01};
use crate::model::{SceneFile, SceneNodeView, SceneView};
use crate::scene::{build_spheres, spec_build_spheres, wf_scene};
use crate::camera::{VFOV35_HALF_TAN_Q, spec_camera as spec_camera_build};
use crate::vec3::{Ray, Vec3q, v_in_range};

verus! {

/// Render parameters: image size, sampling and bounce budgets, the global
/// seed, the progress-report cadence and the worker count (0 = sequential).
#[derive(Clone, Copy, Debug)]
pub struct RenderSettings {
    pub width: u32,
    pub height: u32,
    pub spp: u32,
    pub bounces: u32,
    pub seed: u64,
    pub progress_every: u32,
    pub threads: usize,
}

/// The self-intersection guard (0.001 in Q16.16).
pub const T_MIN_Q: i64 = 66;

/// The sky/ground vertical gradient a missing ray picks up.
pub open spec fn spec_background(ray: Ray) -> Vec3q {
    let t = spec_q_mul(32768, spec_clamp(ray.direction.y + 65536));
    let ground = Vec3q { x: 3277i64, y: 3277i64, z: 4588i64 };
    let sky = Vec3q { x: 39322i64, y: 52429i64, z: 65536i64 };
    ground.spec_scale(spec_clamp(65536 - t)).spec_add(sky.spec_scale(t))
}

pub fn background(ray: &Ray) -> (r: Vec3q)
    requires
        wf_ray(*ray),
    ensures
        r == spec_background(*ray),
        v_in_range(r),
{
    let t = q_mul(32768, q_add(ray.direction.y, 65536));
    let ground = Vec3q { x: 3277, y: 3277, z: 4588 };
    let sky = Vec3q { x: 39322, y: 52429, z: 65536 };
    ground.scale(q_sub(65536, t)).add(sky.scale(t))
}

/// One signed draw in [-1, 1): the generator step and its value.
pub open spec fn spec_signed_draw(state: u64) -> (int, u64) {
    let st = spec_rng_next(state);
    (2 * (((st >> 32u64) >> 16u64) as int) - 65536, st)
}

/// One candidate direction: three signed draws.
pub open spec fn spec_unit_try(state: u64) -> (Vec3q, u64) {
    let dx = spec_signed_draw(state);
    let dy = spec_signed_draw(dx.1);
    let dz = spec_signed_draw(dy.1);
    (Vec3q { x: dx.0 as i64, y: dy.0 as i64, z: dz.0 as i64 }, dz.1)
}

/// Rejection-sample a direction inside the unit ball, then normalize.
/// The attempt budget makes the walk total; when it runs out the last
/// candidate is accepted as-is.
#[verifier::opaque]
pub open spec fn spec_random_unit(state: u64, fuel: nat) -> (Vec3q, u64)
    decreases fuel,
{
    let t = spec_unit_try(state);
    let p = t.0;
    if p.spec_dot(p) < 65536 {
        (p.spec_normalized(), t.1)
    } else if fuel == 0 {
        (p.spec_normalized(), t.1)
    } else {
        spec_random_unit(t.1, (fuel - 1) as nat)
    }
}

/// The number of rejection attempts before the last candidate is accepted.
pub const UNIT_TRIES: u32 = 64;

fn random_unit_vector(rng: &mut Rng) -> (r: Vec3q)
    ensures
        r == spec_random_unit(old(rng).state, UNIT_TRIES as nat).0,
        final(rng).state == spec_random_unit(old(rng).state, UNIT_TRIES as nat).1,
        v_in_range(r),
{
    let mut tries: u32 = 0;
    loop
        invariant
            tries <= UNIT_TRIES,
            spec_random_unit(old(rng).state, UNIT_TRIES as nat) == spec_random_unit(
                rng.state,
                (UNIT_TRIES - tries) as nat,
            ),
        decreases UNIT_TRIES - tries,
    {
        proof {
            reveal_with_fuel(spec_random_unit, 1);
        }
        let x = rng.next_signed_q();
        let y = rng.next_signed_q();
        let z = rng.next_signed_q();
        let p = Vec3q { x, y, z };
        let d = p.dot(p);
        if d < 65536 || tries == UNIT_TRIES {
            return p.normalized();
        }
        tries += 1;
    }
}

/// A random direction in the hemisphere about the normal: a unit-ball draw,
/// flipped to the normal's side, blended with the normal and normalized.
pub open spec fn spec_hemisphere(normal: Vec3q, state: u64) -> (Vec3q, u64) {
    let t = spec_random_unit(state, UNIT_TRIES as nat);
    let d = if t.0.spec_dot(normal) < 0 {
        t.0.spec_scale(-65536)
    } else {
        t.0
    };
    (normal.spec_add(d).spec_normalized(), t.1)
}

fn random_in_hemisphere(normal: Vec3q, rng: &mut Rng) -> (r: Vec3q)
    requires
        v_in_range(normal),
    ensures
        r == spec_hemisphere(normal, old(rng).state).0,
        final(rng).state == spec_hemisphere(normal, old(rng).state).1,
        v_in_range(r),
{
    let mut d = random_unit_vector(rng);
    if d.dot(normal) < 0 {
        d = d.scale(-65536);
    }
    normal.add(d).normalized()
}

/// The bounce walk: what one primary ray accumulates, and the generator
/// state it leaves behind.
#[verifier::opaque]
pub open spec fn spec_trace_rec(
    bvh: Bvh,
    ray: Ray,
    bounces: nat,
    throughput: Vec3q,
    color: Vec3q,
    state: u64,
) -> (Vec3q, u64)
    decreases bounces,
{
    if bounces == 0 {
        (color, state)
    } else {
        match bvh.spec_query(ray, T_MIN_Q as int, Q_SAT as int) {
            Option::Some(h) => {
                let color2 = color.spec_add(throughput.spec_mul_elem(h.emission));
                let hs = spec_hemisphere(h.normal, state);
                let ray2 = Ray {
                    origin: h.point.spec_add(h.normal.spec_scale(66)),
                    direction: hs.0,
                };
                let throughput2 = throughput.spec_mul_elem(h.albedo);
                spec_trace_rec(bvh, ray2, (bounces - 1) as nat, throughput2, color2, hs.1)
            },
            Option::None => (color.spec_add(throughput.spec_mul_elem(spec_background(ray))), state),
        }
    }
}

/// What a full path contributes: starts with unit throughput, black radiance.
pub open spec fn spec_trace(bvh: Bvh, ray: Ray, bounces: nat, state: u64) -> (Vec3q, u64) {
    spec_trace_rec(
        bvh,
        ray,
        bounces,
        Vec3q { x: 65536i64, y: 65536i64, z: 65536i64 },
        Vec3q { x: 0i64, y: 0i64, z: 0i64 },
        state,
    )
}

/// One bounce of the walk. `Ok` carries the next ray, throughput and
/// accumulated color; `Err` carries the finished color after a miss.
fn trace_bounce(
    bvh: &Bvh,
    cur: Ray,
    throughput: Vec3q,
    color: Vec3q,
    rng: &mut Rng,
    Ghost(rem): Ghost<nat>,
) -> (r: Result<(Ray, Vec3q, Vec3q), Vec3q>)
    requires
        bvh.wf(),
        wf_ray(cur),
        v_in_range(throughput),
        v_in_range(color),
        rem >= 1,
    ensures
        r matches Ok(st) ==> wf_ray(st.0) && v_in_range(st.1) && v_in_range(st.2),
        r matches Ok(st) ==> spec_trace_rec(*bvh, cur, rem, throughput, color, old(rng).state)
            == spec_trace_rec(*bvh, st.0, (rem - 1) as nat, st.1, st.2, final(rng).state),
        r matches Err(c) ==> v_in_range(c) && final(rng).state == old(rng).state && spec_trace_rec(
            *bvh,
            cur,
            rem,
            throughput,
            color,
            old(rng).state,
        ) == (c, old(rng).state),
        bvh.spec_spheres().len() == 0 ==> (r matches Err(c) && c == color.spec_add(
            throughput.spec_mul_elem(spec_background(cur)),
        )),
{
    proof {
        reveal_with_fuel(spec_trace_rec, 1);
    }
    match bvh.hit(&cur, T_MIN_Q, Q_SAT) {
        Some(h) => {
            proof {
                crate::bvh::lemma_bvh_wf_spheres(*bvh);
                crate::bvh::lemma_real_hit_in_range(
                    bvh.spec_spheres(),
                    cur,
                    T_MIN_Q as int,
                    Q_SAT as int,
                    h,
                );
            }
            let color2 = color.add(throughput.mul_elem(h.emission));
            let direction = random_in_hemisphere(h.normal, rng);
            let ray2 = Ray { origin: h.point.add(h.normal.scale(66)), direction };
            let throughput2 = throughput.mul_elem(h.albedo);
            Ok((ray2, throughput2, color2))
        },
        None => {
            let c = color.add(throughput.mul_elem(background(&cur)));
            Err(c)
        },
    }
}

/// Walk one path. On a hit the path picks up emission and bounces into the
/// hemisphere; on a miss it picks up the background and stops; an exhausted
/// bounce budget keeps whatever was accumulated.
#[verifier::rlimit(60)]
pub fn trace(ray: &Ray, bvh: &Bvh, bounces: u32, rng: &mut Rng) -> (r: Vec3q)
    requires
        bvh.wf(),
        wf_ray(*ray),
    ensures
        r == spec_trace(*bvh, *ray, bounces as nat, old(rng).state).0,
        final(rng).state == spec_trace(*bvh, *ray, bounces as nat, old(rng).state).1,
        v_in_range(r),
        bvh.spec_spheres().len() == 0 && bounces >= 1 ==> r == spec_background(*ray),
{
    let mut current_ray = *ray;
    let mut throughput = Vec3q { x: 65536, y: 65536, z: 65536 };
    let mut color = Vec3q { x: 0, y: 0, z: 0 };
    let mut rem = bounces;
    loop
        invariant
            rem <= bounces,
            bvh.wf(),
            wf_ray(current_ray),
            v_in_range(throughput),
            v_in_range(color),
            spec_trace(*bvh, *ray, bounces as nat, old(rng).state) == spec_trace_rec(
                *bvh,
                current_ray,
                rem as nat,
                throughput,
                color,
                rng.state,
            ),
            bvh.spec_spheres().len() == 0 ==> (rem == bounces && current_ray == *ray && throughput == (Vec3q {
                x: 65536i64,
                y: 65536i64,
                z: 65536i64,
            }) && color == (Vec3q { x: 0i64, y: 0i64, z: 0i64 })),
        decreases rem,
    {
        if rem == 0 {
            proof {
                reveal_with_fuel(spec_trace_rec, 1);
            }
            return color;
        }
        match trace_bounce(bvh, current_ray, throughput, color, rng, Ghost(rem as nat)) {
            Ok(st) => {
                current_ray = st.0;
                throughput = st.1;
                color = st.2;
                rem -= 1;
            },
            Err(c) => {
                proof {
                    if bvh.spec_spheres().len() == 0 {
                        crate::vec3::lemma_unit_mul_elem(spec_background(*ray));
                    }
                }
                return c;
            },
        }
    }
}

/// One unit draw in [0, 1) (Q16.16) and the state after it.
pub open spec fn spec_unit_draw(state: u64) -> (int, u64) {
    let st = spec_rng_next(state);
    ((((st >> 32u64) >> 16u64) as int), st)
}

/// The jittered primary ray of one sample: two unit draws seeded from
/// (seed, x, y, sample) perturb the pixel coordinate.
pub open spec fn spec_sample_ray(
    cam: Camera,
    seed: u64,
    width: u32,
    height: u32,
    x: u32,
    y: u32,
    s: u32,
) -> Ray {
    let st0 = spec_rng_init(spec_hash_seed(seed, x, y, s));
    let d1 = spec_unit_draw(st0);
    let d2 = spec_unit_draw(d1.1);
    let u = (x * 65536 + d1.0) / (width as int);
    let v = (y * 65536 + d2.0) / (height as int);
    spec_camera_ray(cam, u, 65536 - v)
}

/// The radiance of one sample: jitter the pixel coordinate with two draws
/// seeded from (seed, x, y, sample), shoot the camera ray, walk the path.
pub open spec fn spec_sample_color(
    bvh: Bvh,
    cam: Camera,
    seed: u64,
    width: u32,
    height: u32,
    bounces: u32,
    x: u32,
    y: u32,
    s: u32,
) -> Vec3q {
    let st0 = spec_rng_init(spec_hash_seed(seed, x, y, s));
    let d1 = spec_unit_draw(st0);
    let d2 = spec_unit_draw(d1.1);
    spec_trace(bvh, spec_sample_ray(cam, seed, width, height, x, y, s), bounces as nat, d2.1).0
}

/// With zero primitives a whole path is exactly the background of its ray:
/// the first cast misses and the walk stops with unit throughput.
pub proof fn lemma_trace_empty(bvh: Bvh, ray: Ray, bounces: nat, state: u64)
    requires
        bvh.wf(),
        bvh.spec_spheres().len() == 0,
        bounces >= 1,
        v_in_range(spec_background(ray)),
    ensures
        spec_trace(bvh, ray, bounces, state).0 == spec_background(ray),
{
    reveal_with_fuel(spec_trace_rec, 1);
    crate::bvh::lemma_query_empty(bvh, ray, T_MIN_Q as int, Q_SAT as int);
    crate::vec3::lemma_unit_mul_elem(spec_background(ray));
}

/// Rendering an empty scene cannot fail for lack of geometry, and every
/// sample of every pixel is exactly the sky/ground gradient of its own
/// jittered camera ray: the image is background-only.
pub proof fn lemma_empty_scene_samples_are_background(
    bvh: Bvh,
    cam: Camera,
    seed: u64,
    width: u32,
    height: u32,
    bounces: u32,
    x: u32,
    y: u32,
    s: u32,
)
    requires
        bvh.wf(),
        bvh.spec_spheres().len() == 0,
        bounces >= 1,
    ensures
        spec_sample_color(bvh, cam, seed, width, height, bounces, x, y, s) == spec_background(
            spec_sample_ray(cam, seed, width, height, x, y, s),
        ),
{
    let ray = spec_sample_ray(cam, seed, width, height, x, y, s);
    assert(v_in_range(spec_background(ray)));
    lemma_trace_empty(
        bvh,
        ray,
        bounces as nat,
        spec_unit_draw(spec_unit_draw(spec_rng_init(spec_hash_seed(seed, x, y, s))).1).1,
    );
}

/// Compute one sample.
pub fn sample_color(
    bvh: &Bvh,
    cam: &Camera,
    seed: u64,
    width: u32,
    height: u32,
    bounces: u32,
    x: u32,
    y: u32,
    s: u32,
) -> (r: Vec3q)
    requires
        bvh.wf(),
        wf_camera(*cam),
        1 <= width,
        1 <= height,
        x < width,
        y < height,
    ensures
        r == spec_sample_color(*bvh, *cam, seed, width, height, bounces, x, y, s),
        v_in_range(r),
{
    let mut rng = Rng::new(hash_seed(seed, x, y, s));
    let r1 = rng.next_unit_q();
    let r2 = rng.next_unit_q();
    let nu = (x as u64) * 65536 + (r1 as u64);
    let nv = (y as u64) * 65536 + (r2 as u64);
    let u = (nu / (width as u64)) as i64;
    let v = (nv / (height as u64)) as i64;
    proof {
        assert(nu / (width as u64) < 65536) by (nonlinear_arith)
            requires
                nu < (width as u64) * 65536,
                width >= 1,
        ;
        assert(nv / (height as u64) < 65536) by (nonlinear_arith)
            requires
                nv < (height as u64) * 65536,
                height >= 1,
        ;
    }
    let ray = cam.ray(u, 65536 - v);
    trace(&ray, bvh, bounces, &mut rng)
}

/// The running sum of a pixel over samples `s0 .. s0+n`, added in ascending
/// sample order on top of `start`.
pub open spec fn spec_pixel_accum(
    bvh: Bvh,
    cam: Camera,
    seed: u64,
    width: u32,
    height: u32,
    bounces: u32,
    x: u32,
    y: u32,
    s0: int,
    n: nat,
    start: Vec3q,
) -> Vec3q
    decreases n,
{
    if n == 0 {
        start
    } else {
        spec_pixel_accum(bvh, cam, seed, width, height, bounces, x, y, s0, (n - 1) as nat, start)
            .spec_add(
            spec_sample_color(
                bvh,
                cam,
                seed,
                width,
                height,
                bounces,
                x,
                y,
                (s0 + n - 1) as u32,
            ),
        )
    }
}

/// Progressive equivalence: accumulating `n1` samples and then `n2` more on
/// the result is exactly accumulating `n1 + n2` samples in one pass — the
/// buffer is strictly additive and never recomputed.
#[verifier::rlimit(60)]
#[verifier::spinoff_prover]
pub proof fn lemma_progressive_equivalence(
    bvh: Bvh,
    cam: Camera,
    seed: u64,
    width: u32,
    height: u32,
    bounces: u32,
    x: u32,
    y: u32,
    s0: int,
    n1: nat,
    n2: nat,
    start: Vec3q,
)
    ensures
        spec_pixel_accum(
            bvh,
            cam,
            seed,
            width,
            height,
            bounces,
            x,
            y,
            s0 + n1,
            n2,
            spec_pixel_accum(bvh, cam, seed, width, height, bounces, x, y, s0, n1, start),
        ) == spec_pixel_accum(bvh, cam, seed, width, height, bounces, x, y, s0, (n1 + n2) as nat, start),
    decreases n2,
{
    if n2 == 0 {
    } else {
        lemma_progressive_equivalence(
            bvh,
            cam,
            seed,
            width,
            height,
            bounces,
            x,
            y,
            s0,
            n1,
            (n2 - 1) as nat,
            start,
        );
        assert(s0 + n1 + (n2 - 1) == s0 + (n1 + n2) - 1);
    }
}

/// One row of accumulation: every pixel of row `y` gets `n` more samples.
pub open spec fn spec_row(
    bvh: Bvh,
    cam: Camera,
    seed: u64,
    width: u32,
    height: u32,
    bounces: u32,
    y: int,
    prev: Seq<Vec3q>,
    s0: u32,
    n: u32,
) -> Seq<Vec3q> {
    Seq::new(
        width as nat,
        |x: int|
            spec_pixel_accum(
                bvh,
                cam,
                seed,
                width,
                height,
                bounces,
                x as u32,
                y as u32,
                s0 as int,
                n as nat,
                prev[x],
            ),
    )
}

/// The per-row views of a row-buffer vector.
pub open spec fn rows_view(s: Seq<Vec<Vec3q>>) -> Seq<Seq<Vec3q>> {
    s.map_values(|v: Vec<Vec3q>| v@)
}

/// All row buffers have the right width and hold engine values.
pub open spec fn wf_rows(rows: Seq<Seq<Vec3q>>, width: u32) -> bool {
    forall|y: int|
        0 <= y < rows.len() ==> (#[trigger] rows[y]).len() == width && forall|x: int|
            0 <= x < rows[y].len() ==> v_in_range(#[trigger] rows[y][x])
}

/// Accumulate `n` samples into one row.
pub fn render_row(
    bvh: &Bvh,
    cam: &Camera,
    seed: u64,
    width: u32,
    height: u32,
    bounces: u32,
    y: usize,
    prev: &Vec<Vec3q>,
    s0: u32,
    n: u32,
) -> (r: Vec<Vec3q>)
    requires
        bvh.wf(),
        wf_camera(*cam),
        1 <= width,
        1 <= height <= 0xffff_ffff,
        y < height,
        prev@.len() == width,
        forall|x: int| 0 <= x < prev@.len() ==> v_in_range(#[trigger] prev@[x]),
        s0 + n <= 0xffff_ffff,
    ensures
        r@ == spec_row(*bvh, *cam, seed, width, height, bounces, y as int, prev@, s0, n),
        r@.len() == width,
        forall|x: int| 0 <= x < r@.len() ==> v_in_range(#[trigger] r@[x]),
{
    let mut out: Vec<Vec3q> = Vec::new();
    let mut x: u32 = 0;
    while x < width
        invariant
            x <= width,
            bvh.wf(),
            wf_camera(*cam),
            1 <= width,
            1 <= height <= 0xffff_ffff,
            y < height,
            prev@.len() == width,
            forall|q: int| 0 <= q < prev@.len() ==> v_in_range(#[trigger] prev@[q]),
            s0 + n <= 0xffff_ffff,
            out@.len() == x,
            forall|q: int|
                0 <= q < x ==> out@[q] == spec_row(
                    *bvh,
                    *cam,
                    seed,
                    width,
                    height,
                    bounces,
                    y as int,
                    prev@,
                    s0,
                    n,
                )[q],
            forall|q: int| 0 <= q < out@.len() ==> v_in_range(#[trigger] out@[q]),
        decreases width - x,
    {
        let mut acc = prev[x as usize];
        let mut s: u32 = 0;
        while s < n
            invariant
                s <= n,
                bvh.wf(),
                wf_camera(*cam),
                1 <= width,
                1 <= height <= 0xffff_ffff,
                x < width,
                y < height,
                s0 + n <= 0xffff_ffff,
                v_in_range(acc),
                acc == spec_pixel_accum(
                    *bvh,
                    *cam,
                    seed,
                    width,
                    height,
                    bounces,
                    x,
                    y as u32,
                    s0 as int,
                    s as nat,
                    prev@[x as int],
                ),
            decreases n - s,
        {
            let c = sample_color(bvh, cam, seed, width, height, bounces, x, y as u32, s0 + s);
            acc = acc.add(c);
            s += 1;
        }
        let ghost olds = out@;
        out.push(acc);
        proof {
            assert forall|q: int| 0 <= q <= x implies out@[q] == spec_row(
                *bvh,
                *cam,
                seed,
                width,
                height,
                bounces,
                y as int,
                prev@,
                s0,
                n,
            )[q] by {
                if q < x {
                    assert(out@[q] == olds[q]);
                }
            }
            assert forall|q: int| 0 <= q < out@.len() implies v_in_range(
                #[trigger] out@[q],
            ) by {
                if q < x {
                    assert(out@[q] == olds[q]);
                }
            }
        }
        x += 1;
    }
    proof {
        assert(out@ =~= spec_row(*bvh, *cam, seed, width, height, bounces, y as int, prev@, s0, n));
    }
    out
}

/// A whole accumulation pass: every row gets `n` more samples.
pub open spec fn spec_pass(
    bvh: Bvh,
    cam: Camera,
    seed: u64,
    width: u32,
    height: u32,
    bounces: u32,
    rows: Seq<Seq<Vec3q>>,
    s0: u32,
    n: u32,
) -> Seq<Seq<Vec3q>> {
    Seq::new(
        rows.len(),
        |y: int| spec_row(bvh, cam, seed, width, height, bounces, y, rows[y], s0, n),
    )
}

/// Relies on rayon: `ThreadPoolBuilder::build` yields a pool of the requested
/// size (or an error, reported as `None`), and an indexed parallel map over
/// `0..height` collected into a `Vec` preserves index order, each element
/// being the verified `render_row` of its own row. Rows are disjoint, so no
/// synchronization is involved.
#[verifier::external_body]
fn par_render_rows(
    bvh: &Bvh,
    cam: &Camera,
    seed: u64,
    width: u32,
    height: u32,
    bounces: u32,
    rows: &Vec<Vec<Vec3q>>,
    s0: u32,
    n: u32,
    threads: usize,
) -> (r: Option<Vec<Vec<Vec3q>>>)
    requires
        bvh.wf(),
        wf_camera(*cam),
        1 <= width,
        1 <= height <= 0xffff_ffff,
        rows@.len() == height,
        wf_rows(rows_view(rows@), width),
        s0 + n <= 0xffff_ffff,
    ensures
        r matches Some(out) ==> out@.len() == rows@.len() && forall|y: int|
            0 <= y < out@.len() ==> (#[trigger] out@[y])@ == spec_row(
                *bvh,
                *cam,
                seed,
                width,
                height,
                bounces,
                y,
                rows@[y]@,
                s0,
                n,
            ),
{
    match rayon::ThreadPoolBuilder::new().num_threads(threads).build() {
        Err(_) => None,
        Ok(pool) => Some(
            pool.install(
                || {
                    (0..rows.len()).into_par_iter().map(
                        |y| render_row(bvh, cam, seed, width, height, bounces, y, &rows[y], s0, n),
                    ).collect()
                },
            ),
        ),
    }
}

/// Chunked and one-pass accumulation agree row-for-row and pass-for-pass.
pub proof fn lemma_progressive_pass_equivalence(
    bvh: Bvh,
    cam: Camera,
    seed: u64,
    width: u32,
    height: u32,
    bounces: u32,
    rows: Seq<Seq<Vec3q>>,
    s0: u32,
    n1: u32,
    n2: u32,
)
    requires
        s0 + n1 + n2 <= 0xffff_ffff,
    ensures
        spec_pass(
            bvh,
            cam,
            seed,
            width,
            height,
            bounces,
            spec_pass(bvh, cam, seed, width, height, bounces, rows, s0, n1),
            (s0 + n1) as u32,
            n2,
        ) == spec_pass(bvh, cam, seed, width, height, bounces, rows, s0, (n1 + n2) as u32),
{
    let mid = spec_pass(bvh, cam, seed, width, height, bounces, rows, s0, n1);
    let lhs = spec_pass(bvh, cam, seed, width, height, bounces, mid, (s0 + n1) as u32, n2);
    let rhs = spec_pass(bvh, cam, seed, width, height, bounces, rows, s0, (n1 + n2) as u32);
    assert forall|y: int, x: int| 0 <= y < rows.len() && 0 <= x < width implies lhs[y][x] == rhs[y][x] by {
        lemma_progressive_equivalence(
            bvh,
            cam,
            seed,
            width,
            height,
            bounces,
            x as u32,
            y as u32,
            s0 as int,
            n1 as nat,
            n2 as nat,
            rows[y][x],
        );
    }
    assert forall|y: int| 0 <= y < rows.len() implies lhs[y] == rhs[y] by {
        assert(lhs[y] =~= rhs[y]);
    }
    assert(lhs =~= rhs);
}

/// The scene's bounding box over node positions (degenerate when empty).
pub open spec fn spec_scene_bounds(nodes: Seq<SceneNodeView>) -> (Vec3q, Vec3q)
    decreases nodes.len(),
{
    if nodes.len() == 0 {
        (
            Vec3q { x: Q_SAT, y: Q_SAT, z: Q_SAT },
            Vec3q { x: -Q_SAT as i64, y: -Q_SAT as i64, z: -Q_SAT as i64 },
        )
    } else {
        let b = spec_scene_bounds(nodes.drop_last());
        (b.0.spec_min(nodes.last().position), b.1.spec_max(nodes.last().position))
    }
}

/// Auto-framing: look from an offset of the bounding-box center scaled by the
/// box diagonal, at the center, with the fixed 35-degree field of view.
pub open spec fn spec_build_camera(sv: SceneView, width: u32, height: u32) -> Camera {
    let b = spec_scene_bounds(sv.nodes);
    let center = b.0.spec_add(b.1).spec_scale(32768);
    let extent0 = b.1.spec_sub(b.0).spec_length();
    let extent = if extent0 < 65536 {
        65536
    } else {
        extent0
    };
    let distance = spec_q_mul(extent, 104858);
    let look_from = center.spec_add(
        Vec3q { x: distance as i64, y: spec_q_mul(distance, 39322) as i64, z: distance as i64 },
    );
    let aspect = spec_q_div(width as int * 65536, height as int * 65536);
    spec_camera_build(
        look_from,
        center,
        Vec3q { x: 0i64, y: 65536i64, z: 0i64 },
        VFOV35_HALF_TAN_Q as int,
        aspect,
    )
}

/// Build the auto-framed camera for a scene.
#[verifier::rlimit(60)]
pub fn build_camera(scene: &SceneFile, width: u32, height: u32) -> (r: Camera)
    requires
        wf_scene(scene@),
    ensures
        r == spec_build_camera(scene@, width, height),
        wf_camera(r),
{
    let mut bmin = Vec3q { x: Q_SAT, y: Q_SAT, z: Q_SAT };
    let mut bmax = Vec3q { x: -Q_SAT, y: -Q_SAT, z: -Q_SAT };
    let n = scene.nodes.len();
    let mut i: usize = 0;
    proof {
        assert(scene@.nodes.take(0) =~= Seq::<SceneNodeView>::empty());
    }
    while i < n
        invariant
            i <= n,
            n == scene.nodes@.len(),
            n == scene@.nodes.len(),
            wf_scene(scene@),
            (bmin, bmax) == spec_scene_bounds(scene@.nodes.take(i as int)),
            v_in_range(bmin),
            v_in_range(bmax),
        decreases n - i,
    {
        proof {
            assert(scene@.nodes.take(i + 1).drop_last() =~= scene@.nodes.take(i as int));
            assert(scene@.nodes.take(i + 1).last() == scene@.nodes[i as int]);
        }
        let p = scene.nodes[i].position;
        proof {
            assert(p == scene@.nodes[i as int].position);
        }
        bmin = bmin.min(p);
        bmax = bmax.max(p);
        i += 1;
    }
    proof {
        assert(scene@.nodes.take(n as int) =~= scene@.nodes);
    }
    let center = bmin.add(bmax).scale(32768);
    let extent0 = bmax.sub(bmin).length();
    let extent = if extent0 < 65536 {
        65536
    } else {
        extent0
    };
    let distance = q_mul(extent, 104858);
    let look_from = center.add(
        Vec3q { x: distance, y: q_mul(distance, 39322), z: distance },
    );
    let aspect = q_div((width as i64) * 65536, (height as i64) * 65536);
    Camera::new(look_from, center, Vec3q { x: 0, y: 65536, z: 0 }, VFOV35_HALF_TAN_Q, aspect)
}

/// Tone-map one channel: normalize, clamp to [0,1], square-root gamma, 8 bits.
pub open spec fn spec_tone_byte(c: int, inv: int) -> int {
    let g = spec_q_sqrt(spec_clamp01(spec_q_mul(c, inv)));
    (g * 255) / 65536
}

fn tone_byte(c: i64, inv: i64) -> (r: u8)
    ensures
        r as int == spec_tone_byte(c as int, inv as int),
{
    let scaled = q_mul(c, inv);
    let clamped = q_clamp01(scaled);
    let g = q_sqrt(clamped);
    proof {
        crate::fixed::lemma_isqrt_bounds(clamped as int * 65536);
        assert(g <= 65536) by (nonlinear_arith)
            requires
                g as int * g as int <= clamped as int * 65536,
                0 <= clamped <= 65536,
                g >= 0,
        ;
    }
    ((g * 255) / 65536) as u8
}

/// An 8-bit RGB image, row-major, three bytes per pixel.
#[derive(Clone, Debug, PartialEq)]
pub struct ImageRgb {
    pub width: u32,
    pub height: u32,
    pub pixels: Vec<u8>,
}

/// The tone-mapped bytes of an accumulation buffer at a sample count.
pub open spec fn spec_image_pixels(
    rows: Seq<Seq<Vec3q>>,
    width: u32,
    height: u32,
    samples: u32,
) -> Seq<u8> {
    let s = if samples == 0 {
        1int
    } else {
        samples as int
    };
    let inv = spec_q_div(65536, s * 65536);
    Seq::new(
        (height as nat) * (width as nat) * 3,
        |i: int|
            {
                let p = i / 3;
                let ch = i % 3;
                let y = p / (width as int);
                let x = p % (width as int);
                let v = rows[y][x];
                let c = if ch == 0 {
                    v.x as int
                } else if ch == 1 {
                    v.y as int
                } else {
                    v.z as int
                };
                spec_tone_byte(c, inv) as u8
            },
    )
}

/// Divide the accumulated radiance by the sample count and tone-map to bytes.
pub fn image_from_rows(rows: &Vec<Vec<Vec3q>>, width: u32, height: u32, samples: u32) -> (r:
    ImageRgb)
    requires
        1 <= width <= 0x4000,
        1 <= height <= 0x4000,
        rows@.len() == height,
        wf_rows(rows_view(rows@), width),
    ensures
        r.width == width,
        r.height == height,
        r.pixels@ == spec_image_pixels(rows_view(rows@), width, height, samples),
        r.pixels@.len() == 3 * (width as int) * (height as int),
{
    let s = if samples == 0 {
        1u32
    } else {
        samples
    };
    let inv = q_div(65536, (s as i64) * 65536);
    let ghost target = spec_image_pixels(rows_view(rows@), width, height, samples);
    let mut pixels: Vec<u8> = Vec::new();
    let mut y: u32 = 0;
    while y < height
        invariant
            y <= height,
            1 <= width <= 0x4000,
            1 <= height <= 0x4000,
            rows@.len() == height,
            wf_rows(rows_view(rows@), width),
            inv as int == spec_q_div(
                65536,
                (if samples == 0 {
                    1int
                } else {
                    samples as int
                }) * 65536,
            ),
            target == spec_image_pixels(rows_view(rows@), width, height, samples),
            target.len() == (height as int) * (width as int) * 3,
            pixels@.len() == 3 * ((width as int) * (y as int)),
            forall|i: int| 0 <= i < pixels@.len() ==> pixels@[i] == target[i],
        decreases height - y,
    {
        let row = &rows[y as usize];
        proof {
            assert(rows_view(rows@)[y as int] == rows@[y as int]@);
            assert(rows_view(rows@)[y as int].len() == width);
        }
        let mut x: u32 = 0;
        while x < width
            invariant
                x <= width,
                y < height,
                1 <= width <= 0x4000,
                1 <= height <= 0x4000,
                rows@.len() == height,
                wf_rows(rows_view(rows@), width),
                row == &rows[y as int],
                row@.len() == width,
                inv as int == spec_q_div(
                    65536,
                    (if samples == 0 {
                        1int
                    } else {
                        samples as int
                    }) * 65536,
                ),
                target == spec_image_pixels(rows_view(rows@), width, height, samples),
                target.len() == (height as int) * (width as int) * 3,
                pixels@.len() == 3 * ((width as int) * (y as int) + (x as int)),
                forall|i: int| 0 <= i < pixels@.len() ==> pixels@[i] == target[i],
            decreases width - x,
        {
            let v = row[x as usize];
            let b0 = tone_byte(v.x, inv);
            let b1 = tone_byte(v.y, inv);
            let b2 = tone_byte(v.z, inv);
            let ghost olds = pixels@;
            let ghost p = (width as int) * (y as int) + (x as int);
            pixels.push(b0);
            pixels.push(b1);
            pixels.push(b2);
            proof {
                assert(v == rows_view(rows@)[y as int][x as int]);
                assert((3 * p) / 3 == p && (3 * p) % 3 == 0) by (nonlinear_arith);
                assert((3 * p + 1) / 3 == p && (3 * p + 1) % 3 == 1) by (nonlinear_arith);
                assert((3 * p + 2) / 3 == p && (3 * p + 2) % 3 == 2) by (nonlinear_arith);
                assert(p / (width as int) == y && p % (width as int) == x) by (nonlinear_arith)
                    requires
                        p == (width as int) * (y as int) + (x as int),
                        0 <= x < width,
                        0 <= y,
                        width >= 1,
                ;
                assert(p < (width as int) * (height as int)) by (nonlinear_arith)
                    requires
                        p == (width as int) * (y as int) + (x as int),
                        0 <= x < width,
                        0 <= y < height,
                        width >= 1,
                ;
                assert(target[3 * p] == b0 && target[3 * p + 1] == b1 && target[3 * p + 2]
                    == b2);
                assert forall|i: int| 0 <= i < pixels@.len() implies pixels@[i] == target[i] by {
                    if i < olds.len() {
                        assert(pixels@[i] == olds[i]);
                    }
                }
            }
            x += 1;
        }
        proof {
            assert(3 * ((width as int) * (y as int) + (width as int)) == 3 * ((width as int) * ((
            y as int) + 1))) by (nonlinear_arith);
        }
        y += 1;
    }
    proof {
        assert(pixels@.len() == 3 * ((width as int) * (height as int)));
        assert(pixels@.len() == target.len()) by (nonlinear_arith)
            requires
                pixels@.len() == 3 * ((width as int) * (height as int)),
                target.len() == (height as int) * (width as int) * 3,
        ;
        assert(pixels@ =~= target);
        assert(pixels@.len() == 3 * (width as int) * (height as int)) by (nonlinear_arith)
            requires
                pixels@.len() == 3 * ((width as int) * (height as int)),
        ;
    }
    ImageRgb { width, height, pixels }
}

/// Why a render call failed: the worker pool could not be built.
#[derive(Clone, Copy, Debug, PartialEq, Eq)]
pub enum RenderError {
    PoolBuild,
}

/// An all-zero accumulation buffer.
pub open spec fn spec_zero_rows(width: u32, height: u32) -> Seq<Seq<Vec3q>> {
    Seq::new(
        height as nat,
        |y: int| Seq::new(width as nat, |x: int| Vec3q { x: 0i64, y: 0i64, z: 0i64 }),
    )
}

/// A render in flight: the read-only spatial index and camera, the running
/// per-pixel radiance sums, and the cumulative sample count. Passes only ever
/// add into the buffer; a snapshot at any point is a valid partial estimate.
pub struct ProgressiveRender {
    bvh: Bvh,
    camera: Camera,
    width: u32,
    height: u32,
    bounces: u32,
    seed: u64,
    spp: u32,
    threads: usize,
    rows: Vec<Vec<Vec3q>>,
    done: u32,
}

impl ProgressiveRender {
    pub closed spec fn wf(self) -> bool {
        &&& self.bvh.wf()
        &&& wf_camera(self.camera)
        &&& 1 <= self.width <= 0x4000
        &&& 1 <= self.height <= 0x4000
        &&& self.rows@.len() == self.height
        &&& wf_rows(rows_view(self.rows@), self.width)
        &&& self.done <= self.spp
        &&& self.spp >= 1
        &&& self.bounces >= 1
    }

    pub closed spec fn spec_rows(self) -> Seq<Seq<Vec3q>> {
        rows_view(self.rows@)
    }

    pub closed spec fn spec_done(self) -> u32 {
        self.done
    }

    pub closed spec fn spec_spp(self) -> u32 {
        self.spp
    }

    pub closed spec fn spec_bvh(self) -> Bvh {
        self.bvh
    }

    pub closed spec fn spec_cam(self) -> Camera {
        self.camera
    }

    pub closed spec fn spec_size(self) -> (u32, u32) {
        (self.width, self.height)
    }

    pub closed spec fn spec_seed(self) -> u64 {
        self.seed
    }

    pub closed spec fn spec_bounces(self) -> u32 {
        self.bounces
    }

    pub closed spec fn spec_threads(self) -> usize {
        self.threads
    }

    /// Set up a render: primitives, index, camera, and a zero buffer.
    /// Sample and bounce budgets of zero are raised to one.
    #[verifier::rlimit(60)]
    pub fn new(scene: &SceneFile, settings: &RenderSettings) -> (r: ProgressiveRender)
        requires
            wf_scene(scene@),
            1 <= settings.width <= 0x4000,
            1 <= settings.height <= 0x4000,
        ensures
            r.wf(),
            r.spec_done() == 0,
            r.spec_spp() == if settings.spp == 0 {
                1u32
            } else {
                settings.spp
            },
            r.spec_bounces() == if settings.bounces == 0 {
                1u32
            } else {
                settings.bounces
            },
            r.spec_bvh().wf(),
            r.spec_bvh().spec_spheres() == spec_build_spheres(scene@),
            r.spec_bvh().spec_index_data() == crate::bvh::spec_bvh_layout(
                spec_build_spheres(scene@),
            ),
            r.spec_cam() == spec_build_camera(scene@, settings.width, settings.height),
            r.spec_size() == (settings.width, settings.height),
            r.spec_seed() == settings.seed,
            r.spec_threads() == settings.threads,
            r.spec_rows() == spec_zero_rows(settings.width, settings.height),
    {
        let spheres = build_spheres(scene);
        let bvh = Bvh::new(spheres);
        let camera = build_camera(scene, settings.width, settings.height);
        let mut rows: Vec<Vec<Vec3q>> = Vec::new();
        let mut y: u32 = 0;
        while y < settings.height
            invariant
                y <= settings.height,
                1 <= settings.width <= 0x4000,
                rows@.len() == y,
                forall|q: int|
                    0 <= q < y ==> (#[trigger] rows@[q])@ == spec_zero_rows(
                        settings.width,
                        settings.height,
                    )[q],
            decreases settings.height - y,
        {
            let mut row: Vec<Vec3q> = Vec::new();
            let mut x: u32 = 0;
            while x < settings.width
                invariant
                    x <= settings.width,
                    row@.len() == x,
                    forall|q: int|
                        0 <= q < x ==> row@[q] == (Vec3q { x: 0i64, y: 0i64, z: 0i64 }),
                decreases settings.width - x,
            {
                let ghost olds = row@;
                row.push(Vec3q { x: 0, y: 0, z: 0 });
                proof {
                    assert forall|q: int| 0 <= q <= x implies row@[q] == (Vec3q {
                        x: 0i64,
                        y: 0i64,
                        z: 0i64,
                    }) by {
                        if q < x {
                            assert(row@[q] == olds[q]);
                        }
                    }
                }
                x += 1;
            }
            proof {
                assert(row@ =~= spec_zero_rows(settings.width, settings.height)[y as int]);
            }
            let ghost oldr = rows@;
            rows.push(row);
            proof {
                assert forall|q: int| 0 <= q <= y implies (#[trigger] rows@[q])@
                    == spec_zero_rows(settings.width, settings.height)[q] by {
                    if q < y {
                        assert(rows@[q] == oldr[q]);
                    }
                }
            }
            y += 1;
        }
        proof {
            assert(rows_view(rows@) =~= spec_zero_rows(settings.width, settings.height));
        }
        let spp = if settings.spp == 0 {
            1
        } else {
            settings.spp
        };
        let bounces = if settings.bounces == 0 {
            1
        } else {
            settings.bounces
        };
        ProgressiveRender {
            bvh,
            camera,
            width: settings.width,
            height: settings.height,
            bounces,
            seed: settings.seed,
            spp,
            threads: settings.threads,
            rows,
            done: 0,
        }
    }

    /// How many samples the next pass of the requested chunk size will add.
    pub open spec fn spec_next_chunk(self, chunk: u32) -> u32 {
        let want = if chunk == 0 {
            1u32
        } else {
            chunk
        };
        if want > self.spec_spp() - self.spec_done() {
            (self.spec_spp() - self.spec_done()) as u32
        } else {
            want
        }
    }

    /// Render the next chunk of samples into the running sums. On success the
    /// buffer advances by exactly one `spec_pass`; on a pool failure nothing
    /// changes. A zero thread count renders sequentially and cannot fail.
    pub fn advance(&mut self, chunk: u32) -> (r: Result<u32, RenderError>)
        requires
            old(self).wf(),
        ensures
            final(self).wf(),
            final(self).spec_bvh() == old(self).spec_bvh(),
            final(self).spec_cam() == old(self).spec_cam(),
            final(self).spec_size() == old(self).spec_size(),
            final(self).spec_seed() == old(self).spec_seed(),
            final(self).spec_bounces() == old(self).spec_bounces(),
            final(self).spec_threads() == old(self).spec_threads(),
            final(self).spec_spp() == old(self).spec_spp(),
            r matches Ok(d) ==> d == final(self).spec_done() && final(self).spec_done() == old(
                self,
            ).spec_done() + old(self).spec_next_chunk(chunk) && final(self).spec_rows()
                == spec_pass(
                old(self).spec_bvh(),
                old(self).spec_cam(),
                old(self).spec_seed(),
                old(self).spec_size().0,
                old(self).spec_size().1,
                old(self).spec_bounces(),
                old(self).spec_rows(),
                old(self).spec_done(),
                old(self).spec_next_chunk(chunk),
            ),
            r is Err ==> *final(self) == *old(self),
            old(self).spec_threads() == 0 ==> r is Ok,
    {
        let want = if chunk == 0 {
            1
        } else {
            chunk
        };
        let remaining = self.spp - self.done;
        let n = if want > remaining {
            remaining
        } else {
            want
        };
        let new_rows: Vec<Vec<Vec3q>>;
        if self.threads == 0 {
            let mut out: Vec<Vec<Vec3q>> = Vec::new();
            let mut y: usize = 0;
            let h = self.height as usize;
            while y < h
                invariant
                    y <= h,
                    h == self.height,
                    self.wf(),
                    self.done + n <= self.spp,
                    out@.len() == y,
                    forall|q: int|
                        0 <= q < y ==> (#[trigger] out@[q])@ == spec_pass(
                            self.spec_bvh(),
                            self.spec_cam(),
                            self.spec_seed(),
                            self.spec_size().0,
                            self.spec_size().1,
                            self.spec_bounces(),
                            self.spec_rows(),
                            self.spec_done(),
                            n,
                        )[q],
                decreases h - y,
            {
                proof {
                    assert(rows_view(self.rows@)[y as int] == self.rows@[y as int]@);
                    assert(rows_view(self.rows@)[y as int].len() == self.width);
                }
                let row = render_row(
                    &self.bvh,
                    &self.camera,
                    self.seed,
                    self.width,
                    self.height,
                    self.bounces,
                    y,
                    &self.rows[y],
                    self.done,
                    n,
                );
                let ghost olds = out@;
                out.push(row);
                proof {
                    assert forall|q: int| 0 <= q <= y implies (#[trigger] out@[q])@
                        == spec_pass(
                        self.spec_bvh(),
                        self.spec_cam(),
                        self.spec_seed(),
                        self.spec_size().0,
                        self.spec_size().1,
                        self.spec_bounces(),
                        self.spec_rows(),
                        self.spec_done(),
                        n,
                    )[q] by {
                        if q < y {
                            assert(out@[q] == olds[q]);
                        }
                    }
                }
                y += 1;
            }
            new_rows = out;
        } else {
            match par_render_rows(
                &self.bvh,
                &self.camera,
                self.seed,
                self.width,
                self.height,
                self.bounces,
                &self.rows,
                self.done,
                n,
                self.threads,
            ) {
                Some(out) => {
                    new_rows = out;
                },
                None => {
                    return Err(RenderError::PoolBuild);
                },
            }
        }
        proof {
            assert(rows_view(new_rows@) =~= spec_pass(
                self.spec_bvh(),
                self.spec_cam(),
                self.spec_seed(),
                self.spec_size().0,
                self.spec_size().1,
                self.spec_bounces(),
                self.spec_rows(),
                self.spec_done(),
                n,
            ));
        }
        self.rows = new_rows;
        self.done = self.done + n;
        Ok(self.done)
    }

    /// The cumulative sample count.
    pub fn done(&self) -> (r: u32)
        ensures
            r == self.spec_done(),
    {
        self.done
    }

    /// The total sample budget.
    pub fn spp(&self) -> (r: u32)
        ensures
            r == self.spec_spp(),
    {
        self.spp
    }

    /// Normalize the running sums by the cumulative sample count and
    /// tone-map: a valid partial estimate at any point.
    pub fn snapshot(&self) -> (r: ImageRgb)
        requires
            self.wf(),
        ensures
            r.width == self.spec_size().0,
            r.height == self.spec_size().1,
            r.pixels@ == spec_image_pixels(
                self.spec_rows(),
                self.spec_size().0,
                self.spec_size().1,
                self.spec_done(),
            ),
            r.pixels@.len() == 3 * (self.spec_size().0 as int) * (self.spec_size().1 as int),
    {
        image_from_rows(&self.rows, self.width, self.height, self.done)
    }
}

/// The pinned content of a finished render: the tone-mapped one-pass
/// accumulation over the scene's own primitives and auto-framed camera,
/// carried out over the index that the scene's sphere list builds.
pub open spec fn spec_rendered_image(sv: SceneView, settings: RenderSettings, pixels: Seq<u8>) -> bool {
    let w = settings.width;
    let h = settings.height;
    let spp1 = if settings.spp == 0 {
        1u32
    } else {
        settings.spp
    };
    let bn1 = if settings.bounces == 0 {
        1u32
    } else {
        settings.bounces
    };
    exists|b: Bvh|
        #[trigger] b.wf() && b.spec_spheres() == spec_build_spheres(sv) && b.spec_index_data()
            == crate::bvh::spec_bvh_layout(spec_build_spheres(sv)) && pixels == spec_image_pixels(
            spec_pass(
                b,
                spec_build_camera(sv, w, h),
                settings.seed,
                w,
                h,
                bn1,
                spec_zero_rows(w, h),
                0,
                spp1,
            ),
            w,
            h,
            spp1,
        )
}

/// Full render: every requested sample in one pass, then tone-map. The
/// pixels are pinned by `spec_rendered_image`; by `lemma_render_images_agree`
/// any two renders of the same scene and settings are pixel-identical,
/// whatever their thread counts. An empty scene yields exactly the
/// background-only image.
pub fn render_scene(scene: &SceneFile, settings: &RenderSettings) -> (r: Result<
    ImageRgb,
    RenderError,
>)
    requires
        wf_scene(scene@),
        1 <= settings.width <= 0x4000,
        1 <= settings.height <= 0x4000,
    ensures
        r matches Ok(img) ==> img.width == settings.width && img.height == settings.height
            && img.pixels@.len() == 3 * (settings.width as int) * (settings.height as int)
            && spec_rendered_image(scene@, *settings, img.pixels@),
        scene@.nodes.len() == 0 ==> (r matches Ok(img) && img.pixels@ == spec_image_pixels(
            spec_background_rows(
                spec_build_camera(scene@, settings.width, settings.height),
                settings.seed,
                settings.width,
                settings.height,
                (if settings.spp == 0 {
                    1u32
                } else {
                    settings.spp
                }),
            ),
            settings.width,
            settings.height,
            (if settings.spp == 0 {
                1u32
            } else {
                settings.spp
            }),
        ) || r is Err),
        settings.threads == 0 ==> r is Ok,
{
    let mut pr = ProgressiveRender::new(scene, settings);
    let ghost b = pr.spec_bvh();
    let ghost cam = pr.spec_cam();
    let ghost spp1: u32 = if settings.spp == 0 {
        1u32
    } else {
        settings.spp
    };
    let ghost bn1: u32 = if settings.bounces == 0 {
        1u32
    } else {
        settings.bounces
    };
    let total = pr.spp();
    match pr.advance(total) {
        Ok(_) => {
            let img = pr.snapshot();
            proof {
                assert(pr.spec_done() == spp1);
                assert(pr.spec_rows() == spec_pass(
                    b,
                    cam,
                    settings.seed,
                    settings.width,
                    settings.height,
                    bn1,
                    spec_zero_rows(settings.width, settings.height),
                    0,
                    spp1,
                ));
                assert(b.wf() && b.spec_spheres() == spec_build_spheres(scene@)
                    && b.spec_index_data() == crate::bvh::spec_bvh_layout(
                    spec_build_spheres(scene@),
                ) && img.pixels@ == spec_image_pixels(
                    spec_pass(
                        b,
                        spec_build_camera(scene@, settings.width, settings.height),
                        settings.seed,
                        settings.width,
                        settings.height,
                        bn1,
                        spec_zero_rows(settings.width, settings.height),
                        0,
                        spp1,
                    ),
                    settings.width,
                    settings.height,
                    spp1,
                ));
                assert(spec_rendered_image(scene@, *settings, img.pixels@));
                if scene@.nodes.len() == 0 {
                    crate::scene::lemma_build_spheres_empty(scene@);
                    lemma_empty_pass_is_background(
                        b,
                        cam,
                        settings.seed,
                        settings.width,
                        settings.height,
                        bn1,
                        spp1,
                    );
                }
            }
            Ok(img)
        },
        Err(e) => Err(e),
    }
}

/// Whole walks agree between two equally built indexes over the same spheres.
pub proof fn lemma_trace_rec_congruence(
    b1: Bvh,
    b2: Bvh,
    ray: Ray,
    bounces: nat,
    throughput: Vec3q,
    color: Vec3q,
    state: u64,
)
    requires
        b1.spec_spheres() == b2.spec_spheres(),
        b1.spec_index_data() == b2.spec_index_data(),
    ensures
        spec_trace_rec(b1, ray, bounces, throughput, color, state) == spec_trace_rec(
            b2,
            ray,
            bounces,
            throughput,
            color,
            state,
        ),
    decreases bounces,
{
    reveal_with_fuel(spec_trace_rec, 1);
    crate::bvh::lemma_query_congruence(b1, b2, ray, T_MIN_Q as int, Q_SAT as int);
    if bounces > 0 {
        match b1.spec_query(ray, T_MIN_Q as int, Q_SAT as int) {
            Option::Some(h) => {
                let hs = spec_hemisphere(h.normal, state);
                let ray2 = Ray {
                    origin: h.point.spec_add(h.normal.spec_scale(66)),
                    direction: hs.0,
                };
                lemma_trace_rec_congruence(
                    b1,
                    b2,
                    ray2,
                    (bounces - 1) as nat,
                    throughput.spec_mul_elem(h.albedo),
                    color.spec_add(throughput.spec_mul_elem(h.emission)),
                    hs.1,
                );
            },
            Option::None => {},
        }
    }
}

/// Per-pixel accumulation agrees between two equally built indexes.
pub proof fn lemma_pixel_accum_congruence(
    b1: Bvh,
    b2: Bvh,
    cam: Camera,
    seed: u64,
    width: u32,
    height: u32,
    bounces: u32,
    x: u32,
    y: u32,
    s0: int,
    n: nat,
    start: Vec3q,
)
    requires
        b1.spec_spheres() == b2.spec_spheres(),
        b1.spec_index_data() == b2.spec_index_data(),
    ensures
        spec_pixel_accum(b1, cam, seed, width, height, bounces, x, y, s0, n, start)
            == spec_pixel_accum(b2, cam, seed, width, height, bounces, x, y, s0, n, start),
    decreases n,
{
    if n > 0 {
        lemma_pixel_accum_congruence(
            b1,
            b2,
            cam,
            seed,
            width,
            height,
            bounces,
            x,
            y,
            s0,
            (n - 1) as nat,
            start,
        );
        let s = (s0 + n - 1) as u32;
        let st0 = spec_rng_init(spec_hash_seed(seed, x, y, s));
        let d1 = spec_unit_draw(st0);
        let d2 = spec_unit_draw(d1.1);
        lemma_trace_rec_congruence(
            b1,
            b2,
            spec_sample_ray(cam, seed, width, height, x, y, s),
            bounces as nat,
            Vec3q { x: 65536i64, y: 65536i64, z: 65536i64 },
            Vec3q { x: 0i64, y: 0i64, z: 0i64 },
            d2.1,
        );
    }
}

/// Whole passes agree between two equally built indexes.
pub proof fn lemma_pass_congruence(
    b1: Bvh,
    b2: Bvh,
    cam: Camera,
    seed: u64,
    width: u32,
    height: u32,
    bounces: u32,
    rows: Seq<Seq<Vec3q>>,
    s0: u32,
    n: u32,
)
    requires
        b1.spec_spheres() == b2.spec_spheres(),
        b1.spec_index_data() == b2.spec_index_data(),
    ensures
        spec_pass(b1, cam, seed, width, height, bounces, rows, s0, n) == spec_pass(
            b2,
            cam,
            seed,
            width,
            height,
            bounces,
            rows,
            s0,
            n,
        ),
{
    let p1 = spec_pass(b1, cam, seed, width, height, bounces, rows, s0, n);
    let p2 = spec_pass(b2, cam, seed, width, height, bounces, rows, s0, n);
    assert forall|y: int| 0 <= y < rows.len() implies p1[y] == p2[y] by {
        assert forall|x: int| 0 <= x < width implies spec_row(
            b1,
            cam,
            seed,
            width,
            height,
            bounces,
            y,
            rows[y],
            s0,
            n,
        )[x] == spec_row(b2, cam, seed, width, height, bounces, y, rows[y], s0, n)[x] by {
            lemma_pixel_accum_congruence(
                b1,
                b2,
                cam,
                seed,
                width,
                height,
                bounces,
                x as u32,
                y as u32,
                s0 as int,
                n as nat,
                rows[y][x],
            );
        }
        assert(p1[y] =~= p2[y]);
    }
    assert(p1 =~= p2);
}

/// Determinism across calls: any two images carrying `render_scene`'s pinned
/// clause for the same scene view and settings have identical pixels, so
/// thread counts and scheduling never affect output.
pub proof fn lemma_render_images_agree(
    sv: SceneView,
    width: u32,
    height: u32,
    seed: u64,
    bounces: u32,
    spp: u32,
    b1: Bvh,
    b2: Bvh,
    p1: Seq<u8>,
    p2: Seq<u8>,
)
    requires
        b1.spec_spheres() == spec_build_spheres(sv),
        b1.spec_index_data() == crate::bvh::spec_bvh_layout(spec_build_spheres(sv)),
        b2.spec_spheres() == spec_build_spheres(sv),
        b2.spec_index_data() == crate::bvh::spec_bvh_layout(spec_build_spheres(sv)),
        p1 == spec_image_pixels(
            spec_pass(
                b1,
                spec_build_camera(sv, width, height),
                seed,
                width,
                height,
                bounces,
                spec_zero_rows(width, height),
                0,
                spp,
            ),
            width,
            height,
            spp,
        ),
        p2 == spec_image_pixels(
            spec_pass(
                b2,
                spec_build_camera(sv, width, height),
                seed,
                width,
                height,
                bounces,
                spec_zero_rows(width, height),
                0,
                spp,
            ),
            width,
            height,
            spp,
        ),
    ensures
        p1 == p2,
{
    lemma_pass_congruence(
        b1,
        b2,
        spec_build_camera(sv, width, height),
        seed,
        width,
        height,
        bounces,
        spec_zero_rows(width, height),
        0,
        spp,
    );
}

/// Progressive equivalence, end to end: tone-mapping the buffer after a
/// split into two chunks equals the one-pass image over the same index,
/// camera and settings. With `render_scene`'s pinned clause this closes the
/// loop between a full render and progressive passes of any split.
pub proof fn lemma_progressive_image_equals_one_pass(
    b: Bvh,
    cam: Camera,
    seed: u64,
    width: u32,
    height: u32,
    bounces: u32,
    n1: u32,
    n2: u32,
)
    requires
        n1 + n2 <= 0xffff_ffff,
    ensures
        spec_image_pixels(
            spec_pass(
                b,
                cam,
                seed,
                width,
                height,
                bounces,
                spec_pass(
                    b,
                    cam,
                    seed,
                    width,
                    height,
                    bounces,
                    spec_zero_rows(width, height),
                    0,
                    n1,
                ),
                n1,
                n2,
            ),
            width,
            height,
            (n1 + n2) as u32,
        ) == spec_image_pixels(
            spec_pass(
                b,
                cam,
                seed,
                width,
                height,
                bounces,
                spec_zero_rows(width, height),
                0,
                (n1 + n2) as u32,
            ),
            width,
            height,
            (n1 + n2) as u32,
        ),
{
    lemma_progressive_pass_equivalence(
        b,
        cam,
        seed,
        width,
        height,
        bounces,
        spec_zero_rows(width, height),
        0,
        n1,
        n2,
    );
}

/// The background-only accumulation: what a pixel receives when there is
/// nothing to hit — each sample adds the gradient of its own jittered ray.
pub open spec fn spec_background_accum(
    cam: Camera,
    seed: u64,
    width: u32,
    height: u32,
    x: u32,
    y: u32,
    s0: int,
    n: nat,
    start: Vec3q,
) -> Vec3q
    decreases n,
{
    if n == 0 {
        start
    } else {
        spec_background_accum(cam, seed, width, height, x, y, s0, (n - 1) as nat, start).spec_add(
            spec_background(spec_sample_ray(cam, seed, width, height, x, y, (s0 + n - 1) as u32)),
        )
    }
}

/// The background-only buffer after `n` samples per pixel.
pub open spec fn spec_background_rows(
    cam: Camera,
    seed: u64,
    width: u32,
    height: u32,
    n: u32,
) -> Seq<Seq<Vec3q>> {
    Seq::new(
        height as nat,
        |y: int|
            Seq::new(
                width as nat,
                |x: int|
                    spec_background_accum(
                        cam,
                        seed,
                        width,
                        height,
                        x as u32,
                        y as u32,
                        0,
                        n as nat,
                        Vec3q { x: 0i64, y: 0i64, z: 0i64 },
                    ),
            ),
    )
}

proof fn lemma_empty_pixel_accum(
    b: Bvh,
    cam: Camera,
    seed: u64,
    width: u32,
    height: u32,
    bounces: u32,
    x: u32,
    y: u32,
    s0: int,
    n: nat,
    start: Vec3q,
)
    requires
        b.wf(),
        b.spec_spheres().len() == 0,
        bounces >= 1,
    ensures
        spec_pixel_accum(b, cam, seed, width, height, bounces, x, y, s0, n, start)
            == spec_background_accum(cam, seed, width, height, x, y, s0, n, start),
    decreases n,
{
    if n > 0 {
        lemma_empty_pixel_accum(
            b,
            cam,
            seed,
            width,
            height,
            bounces,
            x,
            y,
            s0,
            (n - 1) as nat,
            start,
        );
        lemma_empty_scene_samples_are_background(
            b,
            cam,
            seed,
            width,
            height,
            bounces,
            x,
            y,
            (s0 + n - 1) as u32,
        );
    }
}

/// With zero primitives a whole pass over the zero buffer is exactly the
/// background-only buffer: an empty scene renders a pure sky/ground image.
pub proof fn lemma_empty_pass_is_background(
    b: Bvh,
    cam: Camera,
    seed: u64,
    width: u32,
    height: u32,
    bounces: u32,
    n: u32,
)
    requires
        b.wf(),
        b.spec_spheres().len() == 0,
        bounces >= 1,
    ensures
        spec_pass(b, cam, seed, width, height, bounces, spec_zero_rows(width, height), 0, n)
            == spec_background_rows(cam, seed, width, height, n),
{
    let p = spec_pass(b, cam, seed, width, height, bounces, spec_zero_rows(width, height), 0, n);
    let bg = spec_background_rows(cam, seed, width, height, n);
    assert forall|y: int| 0 <= y < height implies p[y] == bg[y] by {
        assert forall|x: int| 0 <= x < width implies p[y][x] == bg[y][x] by {
            lemma_empty_pixel_accum(
                b,
                cam,
                seed,
                width,
                height,
                bounces,
                x as u32,
                y as u32,
                0,
                n as nat,
                Vec3q { x: 0i64, y: 0i64, z: 0i64 },
            );
        }
        assert(p[y] =~= bg[y]);
    }
    assert(p =~= bg);
}

} // verus!
