//! The scene builder: positioned nodes and edges become sphere primitives.
//!
//! Node spheres are solid and id-colored; each resolved edge becomes a chain
//! of small emissive spheres along the segment between its endpoints. An edge
//! with an unresolved endpoint contributes no primitives at all
//! (`lemma_dangling_edge_no_primitives`), and a near-zero-length segment is
//! skipped.

use vstd::prelude::*;
use vstd::arithmetic::power2::{pow2, lemma_pow2_unfold, lemma_pow2_pos, lemma2_to64};
use crate::fixed::{q_add, q_div, q_mul, q_in_range, spec_clamp, spec_q_div, spec_q_mul, q_abs};
use crate::layout::{spec_bucket, degree_bucket, lemma_bucket_below_pow2, lemma_bucket_nonneg};
use crate::rng::{fnv_from, spec_fnv, spec_channel_q, FNV_BASIS};
use crate::vec3::{Vec3q, v_in_range};
use crate::geom::{Sphere, wf_sphere, wf_spheres};
use crate::bytes::bytes_eq;
use crate::model::{SceneFile, SceneNode, SceneNodeView, SceneEdgeView, SceneView};
use vstd::string::StrSliceExecFns;

verus! {

/// ln(2) in Q16.16.
pub const LN2_Q: i64 = 45426;

/// A piecewise-linear fixed-point logarithm: log2 interpolated between powers
/// of two, scaled by ln(2). Zero for counts of zero or one, never negative.
pub open spec fn spec_q_ln(n: u32) -> int {
    if n <= 1 {
        0
    } else {
        let k = spec_bucket(n as int);
        let p = pow2(k as nat) as int;
        let lg = k * 65536 + ((n - p) * 65536) / p;
        spec_q_mul(lg, LN2_Q as int)
    }
}

/// 2^bucket(d) <= d < 2^(bucket(d)+1) for positive d.
pub proof fn lemma_bucket_pow2_bounds(d: int)
    requires
        d >= 1,
    ensures
        pow2(spec_bucket(d) as nat) <= d,
        d < pow2((spec_bucket(d) + 1) as nat),
    decreases d,
{
    lemma_bucket_nonneg(d);
    if d < 2 {
        lemma2_to64();
    } else {
        lemma_bucket_pow2_bounds(d / 2);
        let b = spec_bucket(d);
        lemma_bucket_nonneg(d / 2);
        lemma_pow2_unfold(b as nat);
        lemma_pow2_unfold((b + 1) as nat);
    }
}

/// The fixed-point logarithm of a count.
pub fn q_ln(n: u32) -> (r: i64)
    ensures
        r == spec_q_ln(n),
        0 <= r <= 0x20_0000,
{
    if n <= 1 {
        return 0;
    }
    let k = degree_bucket(n as usize);
    proof {
        lemma2_to64();
        vstd::arithmetic::power2::lemma2_to64_rest();
        lemma_bucket_below_pow2(n as int, 32);
        lemma_bucket_pow2_bounds(n as int);
    }
    let mut p: u64 = 1;
    let mut i: usize = 0;
    while i < k
        invariant
            i <= k,
            k == spec_bucket(n as int),
            k <= 32,
            p == pow2(i as nat),
            p <= 0x1_0000_0000,
        decreases k - i,
    {
        proof {
            lemma_pow2_unfold((i + 1) as nat);
            lemma2_to64();
            vstd::arithmetic::power2::lemma2_to64_rest();
            if i + 1 < 32 {
                vstd::arithmetic::power2::lemma_pow2_strictly_increases((i + 1) as nat, 32);
            }
        }
        p = p * 2;
        i += 1;
    }
    proof {
        lemma_pow2_pos(k as nat);
    }
    let pi = p as i64;
    let frac = ((n as i64 - pi) * 65536) / pi;
    let lg = (k as i64) * 65536 + frac;
    proof {
        assert(0 <= ((n as int - pi as int) * 65536) / (pi as int) < 65536) by (nonlinear_arith)
            requires
                pi as int >= 1,
                0 <= (n as int - pi as int) < pi as int,
        ;
    }
    let r = q_mul(lg, LN2_Q);
    proof {
        assert(spec_q_mul(lg as int, LN2_Q as int) <= 0x20_0000) by (nonlinear_arith)
            requires
                0 <= lg <= 33 * 65536,
        ;
        assert(spec_q_mul(lg as int, LN2_Q as int) >= 0) by (nonlinear_arith)
            requires
                lg >= 0,
        ;
    }
    r
}

/// Node sphere radius: 0.15 + ln(max(seen,1)) * 0.05, never below the base.
pub open spec fn spec_node_radius(seen: u32) -> int {
    9830 + spec_q_mul(spec_q_ln(seen), 3277)
}

pub fn node_radius(seen: u32) -> (r: i64)
    ensures
        r == spec_node_radius(seen),
        9830 <= r <= 0x4_0000,
{
    let l = q_ln(seen);
    let s = q_mul(l, 3277);
    proof {
        assert(0 <= spec_q_mul(l as int, 3277) <= 0x2_0000) by (nonlinear_arith)
            requires
                0 <= l <= 0x20_0000,
        ;
    }
    9830 + s
}

/// Link chain sphere radius: 0.04 + ln(max(seen,1)) * 0.01.
pub open spec fn spec_link_radius(seen: u32) -> int {
    2621 + spec_q_mul(spec_q_ln(seen), 655)
}

pub fn link_radius(seen: u32) -> (r: i64)
    ensures
        r == spec_link_radius(seen),
        2621 <= r <= 0x1_0000,
{
    let l = q_ln(seen);
    let s = q_mul(l, 655);
    proof {
        assert(0 <= spec_q_mul(l as int, 655) <= 0x8000) by (nonlinear_arith)
            requires
                0 <= l <= 0x20_0000,
        ;
    }
    2621 + s
}

/// Link glow: 3 * (ln(seen)+1) / (1 + |rtt_ms| / 50). Well-traveled, stable
/// links glow; slow or unstable links dim. The delta arrives in microseconds.
pub open spec fn spec_link_intensity(seen: u32, rtt_delta_us: int) -> int {
    let freq = spec_q_ln(seen) + 65536;
    let rtt_factor = spec_q_div(65536, spec_clamp(65536 + spec_q_div(q_abs(rtt_delta_us), 50000)));
    spec_q_mul(196608, spec_q_mul(freq, rtt_factor))
}

pub fn link_intensity(seen: u32, rtt_delta_us: i64) -> (r: i64)
    requires
        q_in_range(rtt_delta_us as int),
    ensures
        r == spec_link_intensity(seen, rtt_delta_us as int),
        q_in_range(r as int),
{
    let freq = q_ln(seen) + 65536;
    let a = if rtt_delta_us < 0 {
        -rtt_delta_us
    } else {
        rtt_delta_us
    };
    let rtt_factor = q_div(65536, q_add(65536, q_div(a, 50000)));
    q_mul(196608, q_mul(freq, rtt_factor))
}

/// The stable pastel color of an id's raw bytes (seed-independent).
pub open spec fn spec_color_of_hash(h: u64) -> Vec3q {
    Vec3q {
        x: spec_channel_q(h & 0xff) as i64,
        y: spec_channel_q((h >> 8u64) & 0xff) as i64,
        z: spec_channel_q((h >> 16u64) & 0xff) as i64,
    }
}

pub open spec fn spec_color_from_bytes(bytes: Seq<u8>) -> Vec3q {
    spec_color_of_hash(spec_fnv(FNV_BASIS, bytes))
}

/// One pastel channel from one hash byte.
fn channel_q(b: u64) -> (r: i64)
    requires
        b <= 0xff,
    ensures
        r == spec_channel_q(b),
        13107 <= r <= 65536,
{
    proof {
        assert(b % 256 == b);
    }
    13107 + ((52429 * (b as i64)) / 255)
}

/// The pastel color of a byte string.
pub fn color_from_bytes(bytes: &[u8]) -> (r: Vec3q)
    ensures
        r == spec_color_from_bytes(bytes@),
        v_in_range(r),
{
    let h = fnv_from(FNV_BASIS, bytes);
    proof {
        assert((h & 0xff) <= 0xff) by (bit_vector);
        assert(((h >> 8u64) & 0xff) <= 0xff) by (bit_vector);
        assert(((h >> 16u64) & 0xff) <= 0xff) by (bit_vector);
    }
    Vec3q { x: channel_q(h & 0xff), y: channel_q((h >> 8) & 0xff), z: channel_q((h >> 16) & 0xff) }
}

/// Positions and round-trip deltas a scene must keep inside the engine range.
pub open spec fn wf_scene(sv: SceneView) -> bool {
    &&& forall|i: int| 0 <= i < sv.nodes.len() ==> v_in_range((#[trigger] sv.nodes[i]).position)
    &&& forall|i: int|
        0 <= i < sv.edges.len() ==> q_in_range((#[trigger] sv.edges[i]).rtt_delta_us as int)
}

/// The solid, id-colored sphere a node becomes.
pub open spec fn spec_node_sphere(n: SceneNodeView) -> Sphere {
    Sphere {
        center: n.position,
        radius: spec_node_radius(n.seen) as i64,
        albedo: spec_color_from_bytes(n.id),
        emission: Vec3q { x: 0i64, y: 0i64, z: 0i64 },
    }
}

/// The position of the last scene node carrying this id, if any.
pub open spec fn spec_pos_of(nodes: Seq<SceneNodeView>, id: Seq<u8>) -> Option<Vec3q>
    decreases nodes.len(),
{
    if nodes.len() == 0 {
        Option::None
    } else if nodes.last().id == id {
        Option::Some(nodes.last().position)
    } else {
        spec_pos_of(nodes.drop_last(), id)
    }
}

/// Segments at or below this length (about 0.0001) are skipped.
pub const DIST_EPS_Q: i64 = 7;

/// The chain spacing floor (0.05).
pub const SPACING_FLOOR_Q: i64 = 3277;

/// ceil(distance / spacing), at least 2.
pub open spec fn spec_chain_steps(distance: int, spacing: int) -> int {
    let c = (distance + spacing - 1) / spacing;
    if c < 2 {
        2
    } else {
        c
    }
}

/// The color word of an edge: the id hash of "from->to".
pub open spec fn spec_arrow_hash(from: Seq<u8>, to: Seq<u8>) -> u64 {
    spec_fnv(spec_fnv(spec_fnv(FNV_BASIS, from), seq![45u8, 62u8]), to)
}

/// The emissive chain an edge becomes: spheres sampling the open segment
/// between its endpoints. Unresolved or near-zero-length edges contribute
/// nothing.
pub open spec fn spec_edge_chain(sv: SceneView, e: SceneEdgeView) -> Seq<Sphere> {
    let fp = spec_pos_of(sv.nodes, e.from);
    let tp = spec_pos_of(sv.nodes, e.to);
    if fp is None || tp is None {
        Seq::empty()
    } else {
        let from = fp->Some_0;
        let to = tp->Some_0;
        let delta = to.spec_sub(from);
        let distance = delta.spec_length();
        if distance <= DIST_EPS_Q as int {
            Seq::empty()
        } else {
            let radius = spec_link_radius(e.seen);
            let spacing0 = spec_q_mul(radius, 196608);
            let spacing = if spacing0 < SPACING_FLOOR_Q as int {
                SPACING_FLOOR_Q as int
            } else {
                spacing0
            };
            let steps = spec_chain_steps(distance, spacing);
            let emission = spec_color_of_hash(spec_arrow_hash(e.from, e.to)).spec_scale(
                spec_link_intensity(e.seen, e.rtt_delta_us as int),
            );
            let albedo = Vec3q { x: 5243i64, y: 5243i64, z: 5243i64 };
            Seq::new(
                (steps - 1) as nat,
                |i: int|
                    Sphere {
                        center: from.spec_add(delta.spec_scale(((i + 1) * 65536) / steps)),
                        radius: radius as i64,
                        albedo,
                        emission,
                    },
            )
        }
    }
}

/// Dangling-edge tolerance: an edge with an unresolved endpoint contributes
/// zero primitives, and scene construction does not fail on it.
pub proof fn lemma_dangling_edge_no_primitives(sv: SceneView, e: SceneEdgeView)
    requires
        spec_pos_of(sv.nodes, e.from) is None || spec_pos_of(sv.nodes, e.to) is None,
    ensures
        spec_edge_chain(sv, e) == Seq::<Sphere>::empty(),
{
}

/// The chains of the first `k` edges, in order.
pub open spec fn spec_chains_prefix(sv: SceneView, k: int) -> Seq<Sphere>
    decreases k,
{
    if k <= 0 {
        Seq::empty()
    } else {
        spec_chains_prefix(sv, k - 1) + spec_edge_chain(sv, sv.edges[k - 1])
    }
}

/// The whole primitive set: one sphere per node, then every edge chain.
pub open spec fn spec_build_spheres(sv: SceneView) -> Seq<Sphere> {
    sv.nodes.map_values(|n: SceneNodeView| spec_node_sphere(n)) + spec_chains_prefix(
        sv,
        sv.edges.len() as int,
    )
}

/// The views of a scene-node list.
pub open spec fn scene_node_views(s: Seq<SceneNode>) -> Seq<SceneNodeView> {
    s.map_values(|n: SceneNode| n@)
}

/// Find the position of the last node with this id.
fn find_pos(nodes: &Vec<SceneNode>, id: &[u8]) -> (r: Option<Vec3q>)
    ensures
        r == spec_pos_of(scene_node_views(nodes@), id@),
{
    let mut i = nodes.len();
    proof {
        assert(scene_node_views(nodes@).take(i as int) =~= scene_node_views(nodes@));
    }
    while i > 0
        invariant
            i <= nodes@.len(),
            spec_pos_of(scene_node_views(nodes@), id@) == spec_pos_of(
                scene_node_views(nodes@).take(i as int),
                id@,
            ),
        decreases i,
    {
        i -= 1;
        proof {
            assert(scene_node_views(nodes@).take(i + 1).last() == scene_node_views(
                nodes@,
            )[i as int]);
            assert(scene_node_views(nodes@).take(i + 1).drop_last() =~= scene_node_views(
                nodes@,
            ).take(i as int));
        }
        if bytes_eq(nodes[i].id.as_str().as_bytes(), id) {
            return Some(nodes[i].position);
        }
    }
    proof {
        assert(scene_node_views(nodes@).take(0) =~= Seq::<SceneNodeView>::empty());
    }
    None
}

/// Build the primitive set of a positioned scene.
pub fn build_spheres(scene: &SceneFile) -> (r: Vec<Sphere>)
    requires
        wf_scene(scene@),
    ensures
        r@ == spec_build_spheres(scene@),
        wf_spheres(r@),
{
    let mut out: Vec<Sphere> = Vec::new();
    let n = scene.nodes.len();
    let mut i: usize = 0;
    while i < n
        invariant
            i <= n,
            n == scene.nodes@.len(),
            n == scene@.nodes.len(),
            wf_scene(scene@),
            out@.len() == i,
            forall|q: int|
                0 <= q < i ==> out@[q] == spec_node_sphere(#[trigger] scene@.nodes[q]),
            forall|q: int| 0 <= q < i ==> wf_sphere(#[trigger] out@[q]),
        decreases n - i,
    {
        let idb = scene.nodes[i].id.as_str().as_bytes();
        proof {
            assert(idb@ == scene@.nodes[i as int].id);
        }
        let sphere = Sphere {
            center: scene.nodes[i].position,
            radius: node_radius(scene.nodes[i].seen),
            albedo: color_from_bytes(idb),
            emission: Vec3q { x: 0, y: 0, z: 0 },
        };
        proof {
            assert(scene.nodes@[i as int]@.position == scene@.nodes[i as int].position);
            assert(sphere == spec_node_sphere(scene@.nodes[i as int]));
            assert(v_in_range(scene@.nodes[i as int].position));
        }
        let ghost olds = out@;
        out.push(sphere);
        proof {
            assert forall|q: int| 0 <= q <= i implies out@[q] == spec_node_sphere(
                #[trigger] scene@.nodes[q],
            ) && wf_sphere(out@[q]) by {
                if q < i {
                    assert(out@[q] == olds[q]);
                    assert(olds[q] == spec_node_sphere(scene@.nodes[q]));
                    assert(wf_sphere(olds[q]));
                }
            }
        }
        i += 1;
    }
    let ghost nodes_part = scene@.nodes.map_values(|nv: SceneNodeView| spec_node_sphere(nv));
    proof {
        assert(out@ =~= nodes_part);
    }
    let m = scene.edges.len();
    let mut j: usize = 0;
    while j < m
        invariant
            j <= m,
            m == scene.edges@.len(),
            m == scene@.edges.len(),
            wf_scene(scene@),
            nodes_part == scene@.nodes.map_values(|nv: SceneNodeView| spec_node_sphere(nv)),
            out@ == nodes_part + spec_chains_prefix(scene@, j as int),
            forall|q: int| 0 <= q < out@.len() ==> wf_sphere(#[trigger] out@[q]),
        decreases m - j,
    {
        let e = &scene.edges[j];
        let fb = e.from.as_str().as_bytes();
        let tb = e.to.as_str().as_bytes();
        proof {
            assert(fb@ == scene@.edges[j as int].from);
            assert(tb@ == scene@.edges[j as int].to);
            assert(scene_node_views(scene.nodes@) =~= scene@.nodes);
        }
        let fp = find_pos(&scene.nodes, fb);
        let tp = find_pos(&scene.nodes, tb);
        let ghost ev = scene@.edges[j as int];
        let ghost chain = spec_edge_chain(scene@, ev);
        let ghost base = out@;
        if let (Some(from), Some(to)) = (fp, tp) {
            proof {
                lemma_pos_of_in_range(scene@, ev.from);
                lemma_pos_of_in_range(scene@, ev.to);
                assert(v_in_range(from) && v_in_range(to));
            }
            let delta = to.sub(from);
            let distance = delta.length();
            if distance > DIST_EPS_Q {
                let radius = link_radius(e.seen);
                let spacing0 = q_mul(radius, 196608);
                let spacing = if spacing0 < SPACING_FLOOR_Q {
                    SPACING_FLOOR_Q
                } else {
                    spacing0
                };
                let steps_raw = (((distance as u64) + (spacing as u64) - 1) / (
                spacing as u64)) as i64;
                proof {
                    assert(steps_raw as int == (distance as int + spacing as int - 1) / (
                    spacing as int));
                    assert(steps_raw as int <= distance as int) by (nonlinear_arith)
                        requires
                            spacing as int >= 1,
                            distance as int >= 1,
                            steps_raw as int == (distance as int + spacing as int - 1) / (
                            spacing as int),
                    ;
                }
                let steps = if steps_raw < 2 {
                    2
                } else {
                    steps_raw
                };
                proof {
                    assert(steps as int == spec_chain_steps(distance as int, spacing as int));
                    assert(chain.len() == steps - 1);
                }
                let mut arrow: Vec<u8> = Vec::new();
                arrow.push(45);
                arrow.push(62);
                proof {
                    assert(arrow@ =~= seq![45u8, 62u8]);
                }
                let h0 = fnv_from(FNV_BASIS, fb);
                let h1 = fnv_from(h0, arrow.as_slice());
                let h2 = fnv_from(h1, tb);
                proof {
                    assert((h2 & 0xff) <= 0xff) by (bit_vector);
                    assert(((h2 >> 8u64) & 0xff) <= 0xff) by (bit_vector);
                    assert(((h2 >> 16u64) & 0xff) <= 0xff) by (bit_vector);
                }
                let color = Vec3q {
                    x: channel_q(h2 & 0xff),
                    y: channel_q((h2 >> 8) & 0xff),
                    z: channel_q((h2 >> 16) & 0xff),
                };
                let intensity = link_intensity(e.seen, e.rtt_delta_us);
                let emission = color.scale(intensity);
                let albedo = Vec3q { x: 5243, y: 5243, z: 5243 };
                let mut ci: i64 = 1;
                while ci < steps
                    invariant
                        1 <= ci <= steps,
                        2 <= steps <= 0x4000_0000_0000,
                        spacing >= SPACING_FLOOR_Q,
                        0 < distance,
                        q_in_range(distance as int),
                        steps as int == spec_chain_steps(distance as int, spacing as int),
                        chain.len() == steps - 1,
                        v_in_range(from),
                        v_in_range(delta),
                        v_in_range(emission),
                        v_in_range(albedo),
                        out@ == base + chain.take(ci - 1),
                        forall|q: int| 0 <= q < out@.len() ==> wf_sphere(#[trigger] out@[q]),
                        2621 <= radius <= 0x1_0000,
                        forall|q: int|
                            0 <= q < chain.len() ==> #[trigger] chain[q] == (Sphere {
                                center: from.spec_add(
                                    delta.spec_scale(((q + 1) * 65536) / steps as int),
                                ),
                                radius,
                                albedo,
                                emission,
                            }),
                    decreases steps - ci,
                {
                    let t = (((ci as u64) * 65536) / (steps as u64)) as i64;
                    let center = from.add(delta.scale(t));
                    let sphere = Sphere { center, radius, albedo, emission };
                    proof {
                        assert(t as int == ((ci - 1 + 1) * 65536) / (steps as int));
                        assert(sphere == chain[ci - 1]);
                    }
                    let ghost olds = out@;
                    out.push(sphere);
                    proof {
                        assert(out@ =~= base + chain.take(ci as int));
                        assert forall|q: int| 0 <= q < out@.len() implies wf_sphere(
                            #[trigger] out@[q],
                        ) by {
                            if q < olds.len() {
                                assert(out@[q] == olds[q]);
                            }
                        }
                    }
                    ci += 1;
                }
                proof {
                    assert(chain.take(steps - 1) =~= chain);
                }
            } else {
                proof {
                    assert(chain =~= Seq::<Sphere>::empty());
                    assert(out@ =~= base + chain);
                }
            }
        } else {
            proof {
                assert(chain =~= Seq::<Sphere>::empty());
                assert(out@ =~= base + chain);
            }
        }
        proof {
            assert(out@ == base + chain);
            assert(spec_chains_prefix(scene@, j + 1) == spec_chains_prefix(scene@, j as int)
                + chain);
            assert((nodes_part + spec_chains_prefix(scene@, j as int)) + chain =~= nodes_part + (
            spec_chains_prefix(scene@, j as int) + chain));
            assert(out@ =~= nodes_part + spec_chains_prefix(scene@, j + 1));
        }
        j += 1;
    }
    proof {
        assert(out@ =~= spec_build_spheres(scene@));
    }
    out
}

/// A scene without nodes builds no primitives at all: every chain is
/// dangling and the node list is empty.
pub proof fn lemma_build_spheres_empty(sv: SceneView)
    requires
        sv.nodes.len() == 0,
    ensures
        spec_build_spheres(sv) == Seq::<Sphere>::empty(),
{
    lemma_chains_prefix_empty(sv, sv.edges.len() as int);
    assert(spec_build_spheres(sv) =~= Seq::<Sphere>::empty());
}

proof fn lemma_chains_prefix_empty(sv: SceneView, k: int)
    requires
        sv.nodes.len() == 0,
    ensures
        spec_chains_prefix(sv, k) == Seq::<Sphere>::empty(),
    decreases k,
{
    if k > 0 {
        lemma_chains_prefix_empty(sv, k - 1);
        assert(spec_edge_chain(sv, sv.edges[k - 1]) =~= Seq::<Sphere>::empty());
        assert(spec_chains_prefix(sv, k) =~= Seq::<Sphere>::empty());
    } else {
        assert(spec_chains_prefix(sv, k) =~= Seq::<Sphere>::empty());
    }
}

/// A resolved endpoint position inherits the scene's range bound.
pub proof fn lemma_pos_of_in_range(sv: SceneView, id: Seq<u8>)
    requires
        wf_scene(sv),
        spec_pos_of(sv.nodes, id) is Some,
    ensures
        v_in_range(spec_pos_of(sv.nodes, id)->Some_0),
{
    lemma_pos_of_in_range_rec(sv.nodes, id);
}

proof fn lemma_pos_of_in_range_rec(nodes: Seq<SceneNodeView>, id: Seq<u8>)
    requires
        forall|i: int| 0 <= i < nodes.len() ==> v_in_range((#[trigger] nodes[i]).position),
        spec_pos_of(nodes, id) is Some,
    ensures
        v_in_range(spec_pos_of(nodes, id)->Some_0),
    decreases nodes.len(),
{
    if nodes.len() > 0 && nodes.last().id != id {
        lemma_pos_of_in_range_rec(nodes.drop_last(), id);
    }
}

/// Buckets never shrink as the count grows.
proof fn lemma_bucket_monotone(a: int, b: int)
    requires
        1 <= a <= b,
    ensures
        spec_bucket(a) <= spec_bucket(b),
{
    lemma_bucket_nonneg(a);
    lemma_bucket_nonneg(b);
    lemma_bucket_pow2_bounds(a);
    lemma_bucket_pow2_bounds(b);
    if spec_bucket(a) > spec_bucket(b) {
        vstd::arithmetic::power2::lemma_pow2_strictly_increases(
            (spec_bucket(b) + 1) as nat,
            spec_bucket(a) as nat,
        );
    }
}

/// The interpolated logarithm never shrinks as the count grows.
pub proof fn lemma_q_ln_monotone(a: u32, b: u32)
    requires
        a <= b,
    ensures
        spec_q_ln(a) <= spec_q_ln(b),
        spec_q_ln(a) >= 0,
{
    lemma_q_ln_nonneg(a);
    lemma_q_ln_nonneg(b);
    if a > 1 {
        let ka = spec_bucket(a as int);
        let kb = spec_bucket(b as int);
        let pa = pow2(ka as nat) as int;
        let pb = pow2(kb as nat) as int;
        lemma_bucket_monotone(a as int, b as int);
        lemma_bucket_nonneg(a as int);
        lemma_bucket_pow2_bounds(a as int);
        lemma_bucket_pow2_bounds(b as int);
        lemma_pow2_pos(ka as nat);
        lemma_pow2_pos(kb as nat);
        vstd::arithmetic::power2::lemma2_to64();
        vstd::arithmetic::power2::lemma2_to64_rest();
        lemma_bucket_below_pow2(a as int, 32);
        lemma_bucket_below_pow2(b as int, 32);
        let la = ka * 65536 + ((a - pa) * 65536) / pa;
        let lb = kb * 65536 + ((b - pb) * 65536) / pb;
        assert(0 <= ((a - pa) * 65536) / pa < 65536) by (nonlinear_arith)
            requires
                pa >= 1,
                0 <= a - pa < pa,
        ;
        assert(0 <= ((b - pb) * 65536) / pb < 65536) by (nonlinear_arith)
            requires
                pb >= 1,
                0 <= b - pb < pb,
        ;
        if ka == kb {
            assert(((a - pa) * 65536) / pa <= ((b - pa) * 65536) / pa) by (nonlinear_arith)
                requires
                    pa >= 1,
                    0 <= a - pa <= b - pa,
            ;
        } else {
            assert(la < (ka + 1) * 65536 <= kb * 65536 <= lb);
        }
        assert(la <= lb);
        assert(spec_q_mul(la, LN2_Q as int) <= spec_q_mul(lb, LN2_Q as int)) by (nonlinear_arith)
            requires
                0 <= la <= lb <= 33 * 65536,
        ;
    }
}

proof fn lemma_q_ln_nonneg(n: u32)
    ensures
        spec_q_ln(n) >= 0,
{
    if n > 1 {
        let k = spec_bucket(n as int);
        let p = pow2(k as nat) as int;
        lemma_bucket_nonneg(n as int);
        lemma_bucket_pow2_bounds(n as int);
        lemma_pow2_pos(k as nat);
        let lg = k * 65536 + ((n - p) * 65536) / p;
        assert(((n - p) * 65536) / p >= 0) by (nonlinear_arith)
            requires
                p >= 1,
                n - p >= 0,
        ;
        assert(spec_q_mul(lg, LN2_Q as int) >= 0) by (nonlinear_arith)
            requires
                lg >= 0,
        ;
    }
}

/// Node radii grow monotonically with the observation count and never drop
/// below the base radius.
pub proof fn lemma_node_radius_monotone(a: u32, b: u32)
    requires
        a <= b,
    ensures
        spec_node_radius(a) <= spec_node_radius(b),
        spec_node_radius(a) >= 9830,
{
    lemma_q_ln_monotone(a, b);
    lemma_q_ln_bound(b);
    assert(spec_q_mul(spec_q_ln(a), 3277) <= spec_q_mul(spec_q_ln(b), 3277)) by (nonlinear_arith)
        requires
            0 <= spec_q_ln(a) <= spec_q_ln(b) <= 0x20_0000,
    ;
    assert(spec_q_mul(spec_q_ln(a), 3277) >= 0) by (nonlinear_arith)
        requires
            spec_q_ln(a) >= 0,
    ;
}

proof fn lemma_q_ln_bound(n: u32)
    ensures
        spec_q_ln(n) <= 0x20_0000,
{
    if n > 1 {
        let k = spec_bucket(n as int);
        let p = pow2(k as nat) as int;
        lemma_bucket_nonneg(n as int);
        lemma_bucket_pow2_bounds(n as int);
        lemma_pow2_pos(k as nat);
        vstd::arithmetic::power2::lemma2_to64();
        vstd::arithmetic::power2::lemma2_to64_rest();
        lemma_bucket_below_pow2(n as int, 32);
        let lg = k * 65536 + ((n - p) * 65536) / p;
        assert(0 <= ((n - p) * 65536) / p < 65536) by (nonlinear_arith)
            requires
                p >= 1,
                0 <= n - p < p,
        ;
        assert(spec_q_mul(lg, LN2_Q as int) <= 0x20_0000) by (nonlinear_arith)
            requires
                0 <= lg <= 33 * 65536,
        ;
    }
}

/// The glow never dims as a link is seen more often (the delta held fixed),
/// and it is never negative.
pub proof fn lemma_link_intensity_monotone_seen(a: u32, b: u32, rtt_delta_us: int)
    requires
        a <= b,
    ensures
        0 <= spec_link_intensity(a, rtt_delta_us) <= spec_link_intensity(b, rtt_delta_us),
{
    lemma_q_ln_monotone(a, b);
    let fa = spec_q_ln(a) + 65536;
    let fb = spec_q_ln(b) + 65536;
    let d = spec_q_div(q_abs(rtt_delta_us), 50000);
    crate::fixed::lemma_q_div_monotone(0, q_abs(rtt_delta_us), 50000);
    let denom = spec_clamp(65536 + d);
    assert(denom >= 65536);
    let f = spec_q_div(65536, denom);
    crate::fixed::lemma_q_div_monotone(0, 65536, denom);
    crate::fixed::lemma_q_mul_monotone(fa, fb, f, f);
    crate::fixed::lemma_q_mul_monotone(
        196608,
        196608,
        spec_q_mul(fa, f),
        spec_q_mul(fb, f),
    );
}

/// The glow never grows as the delta's magnitude grows (the count held
/// fixed): slow or unstable links dim.
pub proof fn lemma_link_intensity_antitone_rtt(seen: u32, us1: int, us2: int)
    requires
        q_abs(us1) <= q_abs(us2),
    ensures
        0 <= spec_link_intensity(seen, us2) <= spec_link_intensity(seen, us1),
{
    lemma_q_ln_monotone(seen, seen);
    let freq = spec_q_ln(seen) + 65536;
    crate::fixed::lemma_q_div_monotone(q_abs(us1), q_abs(us2), 50000);
    let d1 = spec_q_div(q_abs(us1), 50000);
    let d2 = spec_q_div(q_abs(us2), 50000);
    let den1 = spec_clamp(65536 + d1);
    let den2 = spec_clamp(65536 + d2);
    assert(65536 <= den1 <= den2);
    crate::fixed::lemma_q_div_antitone(65536, den1, den2);
    crate::fixed::lemma_q_mul_monotone(
        freq,
        freq,
        spec_q_div(65536, den2),
        spec_q_div(65536, den1),
    );
    crate::fixed::lemma_q_mul_monotone(
        196608,
        196608,
        spec_q_mul(freq, spec_q_div(65536, den2)),
        spec_q_mul(freq, spec_q_div(65536, den1)),
    );
}

/// The glow is strictly positive whenever the delta's magnitude stays below
/// about fifty minutes; past that the saturating fixed-point division
/// underflows to zero and the link goes dark.
pub proof fn lemma_link_intensity_positive(seen: u32, rtt_delta_us: int)
    requires
        0 <= q_abs(rtt_delta_us) <= 3_000_000_000,
    ensures
        spec_link_intensity(seen, rtt_delta_us) >= 3,
{
    let a = q_abs(rtt_delta_us);
    let d = spec_q_div(a, 50000);
    assert(0 <= (a * 65536) / 50000 <= 3_932_160_000) by (nonlinear_arith)
        requires
            0 <= a <= 3_000_000_000,
    ;
    assert(d == (a * 65536) / 50000);
    let denom = spec_clamp(65536 + d);
    assert(65536 <= denom <= 3_932_225_536);
    let f = spec_q_div(65536, denom);
    assert((65536int * 65536) / denom >= 1 && (65536int * 65536) / denom <= 65536)
        by (nonlinear_arith)
        requires
            65536 <= denom <= 3_932_225_536,
    ;
    assert(f >= 1);
    lemma_q_ln_monotone(seen, seen);
    let freq = spec_q_ln(seen) + 65536;
    crate::fixed::lemma_q_mul_monotone(65536, freq, 1, f);
    assert(spec_q_mul(65536, 1) == 1);
    crate::fixed::lemma_q_mul_monotone(196608, 196608, 1, spec_q_mul(freq, f));
    assert(spec_q_mul(196608, 1) == 3);
}

} // verus!
