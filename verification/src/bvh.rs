//! A bounding volume hierarchy over sphere primitives.
//!
//! The tree is a median-split build over an index array: a node either owns a
//! contiguous leaf range of at most `LEAF_SIZE` indices or two children whose
//! boxes it contains. It is immutable after construction, and the whole
//! layout is pinned (`spec_bvh_layout`): equal sphere lists build indexes
//! that answer every query alike, wherever and whenever they are built. A
//! query walks only boxes that pass the slab test, narrows its bound at
//! every hit, and is sound: whatever it returns is a genuine sphere
//! intersection inside the query interval (`is_real_hit`). An empty set of
//! primitives answers every query with `None`.

use vstd::prelude::*;
use vstd::relations::{sorted_by, total_ordering};
use crate::fixed::{q_add, q_sub, q_div, q_in_range, spec_clamp, spec_q_div, Q_SAT};
use crate::geom::{Hit, Sphere, spec_brute_hit, spec_candidate, spec_sphere_hit, wf_ray,
    wf_sphere, wf_spheres};
use crate::vec3::{Ray, Vec3q, v_in_range};

verus! {

/// The largest number of primitives a leaf may hold.
pub const LEAF_SIZE: usize = 4;

/// One tree node: a box, and either a leaf range or two children.
#[derive(Clone, Copy, Debug)]
pub struct BvhNode {
    pub bbox_min: Vec3q,
    pub bbox_max: Vec3q,
    pub leaf: bool,
    pub left: usize,
    pub right: usize,
    pub start: usize,
    pub end: usize,
}

/// Node well-formedness: a leaf's range stays inside the index array; an
/// internal node's children were built before it, so child links only point
/// backwards and every walk terminates.
pub open spec fn wf_node(nd: BvhNode, my_id: int, idx_len: int) -> bool {
    &&& v_in_range(nd.bbox_min)
    &&& v_in_range(nd.bbox_max)
    &&& if nd.leaf {
        nd.start <= nd.end <= idx_len
    } else {
        nd.left < my_id && nd.right < my_id
    }
}

pub open spec fn wf_nodes(nodes: Seq<BvhNode>, idx_len: int) -> bool {
    forall|i: int| 0 <= i < nodes.len() ==> wf_node(#[trigger] nodes[i], i, idx_len)
}

/// Whether `h` is a genuine intersection of the ray with one of the spheres,
/// inside the queried interval.
pub open spec fn is_real_hit(
    spheres: Seq<Sphere>,
    ray: Ray,
    t_min: int,
    t_max: int,
    h: Hit,
) -> bool {
    exists|i: int|
        0 <= i < spheres.len() && spec_sphere_hit(ray, t_min, t_max, #[trigger] spheres[i])
            == Option::Some(h)
}

/// A genuine hit stays genuine when the interval is widened.
pub proof fn lemma_hit_bound_widen(
    spheres: Seq<Sphere>,
    ray: Ray,
    t_min: int,
    t1: int,
    t2: int,
    h: Hit,
)
    requires
        is_real_hit(spheres, ray, t_min, t1, h),
        t1 <= t2,
    ensures
        is_real_hit(spheres, ray, t_min, t2, h),
{
    let i = choose|i: int|
        0 <= i < spheres.len() && spec_sphere_hit(ray, t_min, t1, #[trigger] spheres[i])
            == Option::Some(h);
    assert(spec_sphere_hit(ray, t_min, t2, spheres[i]) == Option::Some(h));
}

/// A well-formed index only holds well-formed spheres.
pub proof fn lemma_bvh_wf_spheres(b: Bvh)
    requires
        b.wf(),
    ensures
        wf_spheres(b.spec_spheres()),
{
}

/// Two indexes over the same spheres with the same built layout answer
/// every query alike: with `new`'s pinning, renders over equal scenes are
/// provably equal whatever the thread count or call site.
pub proof fn lemma_query_congruence(b1: Bvh, b2: Bvh, ray: Ray, t_min: int, t_max: int)
    requires
        b1.spec_spheres() == b2.spec_spheres(),
        b1.spec_index_data() == b2.spec_index_data(),
    ensures
        b1.spec_query(ray, t_min, t_max) == b2.spec_query(ray, t_min, t_max),
{
    assert(b1.indices@ == b2.indices@);
    assert(b1.nodes@ == b2.nodes@);
    assert(b1.root == b2.root);
}

/// Over zero primitives, every query answers `None`.
pub proof fn lemma_query_empty(b: Bvh, ray: Ray, t_min: int, t_max: int)
    requires
        b.wf(),
        b.spec_spheres().len() == 0,
    ensures
        b.spec_query(ray, t_min, t_max) is None,
{
}

/// The slab test on one axis, as a mathematical function.
pub open spec fn spec_hit_axis(
    lo: int,
    hi: int,
    origin: int,
    direction: int,
    t_min: int,
    t_max: int,
) -> (bool, int, int) {
    if direction == 0 {
        (origin >= lo && origin <= hi, t_min, t_max)
    } else {
        let t0 = spec_q_div(spec_clamp(lo - origin), direction);
        let t1 = spec_q_div(spec_clamp(hi - origin), direction);
        let a = if direction < 0 {
            t1
        } else {
            t0
        };
        let b = if direction < 0 {
            t0
        } else {
            t1
        };
        let new_min = if a > t_min {
            a
        } else {
            t_min
        };
        let new_max = if b < t_max {
            b
        } else {
            t_max
        };
        (new_max > new_min, new_min, new_max)
    }
}

/// The three-axis box test, as a mathematical function.
pub open spec fn spec_hit_box(nd: BvhNode, ray: Ray, t_min: int, t_max: int) -> bool {
    let rx = spec_hit_axis(
        nd.bbox_min.x as int,
        nd.bbox_max.x as int,
        ray.origin.x as int,
        ray.direction.x as int,
        t_min,
        t_max,
    );
    if !rx.0 {
        false
    } else {
        let ry = spec_hit_axis(
            nd.bbox_min.y as int,
            nd.bbox_max.y as int,
            ray.origin.y as int,
            ray.direction.y as int,
            rx.1,
            rx.2,
        );
        if !ry.0 {
            false
        } else {
            spec_hit_axis(
                nd.bbox_min.z as int,
                nd.bbox_max.z as int,
                ray.origin.z as int,
                ray.direction.z as int,
                ry.1,
                ry.2,
            ).0
        }
    }
}

/// The exhaustive scan of a leaf range, narrowing the bound at each hit.
pub open spec fn spec_leaf_scan(
    spheres: Seq<Sphere>,
    indices: Seq<usize>,
    ray: Ray,
    t_min: int,
    t_max: int,
    k: int,
    end: int,
    cur: Option<Hit>,
) -> Option<Hit>
    decreases end - k,
{
    if k >= end {
        cur
    } else {
        let ct = match cur {
            Option::Some(h) => h.t as int,
            Option::None => t_max,
        };
        let f = spec_sphere_hit(ray, t_min, ct, spheres[indices[k] as int]);
        let next = match f {
            Option::Some(h) => Option::Some(h),
            Option::None => cur,
        };
        spec_leaf_scan(spheres, indices, ray, t_min, t_max, k + 1, end, next)
    }
}

/// The walk of a subtree, as a mathematical function of the arena.
pub open spec fn spec_hit_node(
    nodes: Seq<BvhNode>,
    spheres: Seq<Sphere>,
    indices: Seq<usize>,
    id: int,
    ray: Ray,
    t_min: int,
    t_max: int,
) -> Option<Hit>
    decreases id,
{
    if id < 0 || id >= nodes.len() {
        Option::None
    } else {
        let nd = nodes[id];
        if !spec_hit_box(nd, ray, t_min, t_max) {
            Option::None
        } else if nd.leaf {
            spec_leaf_scan(
                spheres,
                indices,
                ray,
                t_min,
                t_max,
                nd.start as int,
                nd.end as int,
                Option::None,
            )
        } else if nd.left < id && nd.right < id {
            let lt = spec_hit_node(nodes, spheres, indices, nd.left as int, ray, t_min, t_max);
            let ct = match lt {
                Option::Some(h) => h.t as int,
                Option::None => t_max,
            };
            let rt = spec_hit_node(nodes, spheres, indices, nd.right as int, ray, t_min, ct);
            match rt {
                Option::Some(h) => Option::Some(h),
                Option::None => lt,
            }
        } else {
            Option::None
        }
    }
}

/// Every field of a genuine hit is inside the engine range (the albedo and
/// emission come from a well-formed sphere; the point and normal come out of
/// saturating arithmetic).
pub proof fn lemma_real_hit_in_range(
    spheres: Seq<Sphere>,
    ray: Ray,
    t_min: int,
    t_max: int,
    h: Hit,
)
    requires
        wf_spheres(spheres),
        is_real_hit(spheres, ray, t_min, t_max, h),
    ensures
        v_in_range(h.point),
        v_in_range(h.normal),
        v_in_range(h.albedo),
        v_in_range(h.emission),
{
    let i = choose|i: int|
        0 <= i < spheres.len() && spec_sphere_hit(ray, t_min, t_max, #[trigger] spheres[i])
            == Option::Some(h);
    assert(wf_sphere(spheres[i]));
}

/// Axis slab test: does the ray meet the [lo, hi] slab inside [t_min, t_max]?
fn hit_axis(lo: i64, hi: i64, origin: i64, direction: i64, t_min: i64, t_max: i64) -> (r: (
    bool,
    i64,
    i64,
))
    requires
        q_in_range(lo as int),
        q_in_range(hi as int),
        q_in_range(origin as int),
        q_in_range(direction as int),
        q_in_range(t_min as int),
        q_in_range(t_max as int),
    ensures
        q_in_range(r.1 as int),
        q_in_range(r.2 as int),
        r.0 == spec_hit_axis(
            lo as int,
            hi as int,
            origin as int,
            direction as int,
            t_min as int,
            t_max as int,
        ).0,
        r.1 as int == spec_hit_axis(
            lo as int,
            hi as int,
            origin as int,
            direction as int,
            t_min as int,
            t_max as int,
        ).1,
        r.2 as int == spec_hit_axis(
            lo as int,
            hi as int,
            origin as int,
            direction as int,
            t_min as int,
            t_max as int,
        ).2,
{
    if direction == 0 {
        return (origin >= lo && origin <= hi, t_min, t_max);
    }
    let mut t0 = q_div(q_sub(lo, origin), direction);
    let mut t1 = q_div(q_sub(hi, origin), direction);
    if direction < 0 {
        let tmp = t0;
        t0 = t1;
        t1 = tmp;
    }
    let new_min = if t0 > t_min {
        t0
    } else {
        t_min
    };
    let new_max = if t1 < t_max {
        t1
    } else {
        t_max
    };
    (new_max > new_min, new_min, new_max)
}

/// Box slab test over the three axes. Purely a pruning heuristic: the query's
/// contract does not lean on it.
fn hit_box(nd: &BvhNode, ray: &Ray, t_min: i64, t_max: i64) -> (r: bool)
    requires
        v_in_range(nd.bbox_min),
        v_in_range(nd.bbox_max),
        wf_ray(*ray),
        q_in_range(t_min as int),
        q_in_range(t_max as int),
    ensures
        r == spec_hit_box(*nd, *ray, t_min as int, t_max as int),
{
    let (ok_x, t_min, t_max) = hit_axis(
        nd.bbox_min.x,
        nd.bbox_max.x,
        ray.origin.x,
        ray.direction.x,
        t_min,
        t_max,
    );
    if !ok_x {
        return false;
    }
    let (ok_y, t_min, t_max) = hit_axis(
        nd.bbox_min.y,
        nd.bbox_max.y,
        ray.origin.y,
        ray.direction.y,
        t_min,
        t_max,
    );
    if !ok_y {
        return false;
    }
    let (ok_z, _, _) = hit_axis(
        nd.bbox_min.z,
        nd.bbox_max.z,
        ray.origin.z,
        ray.direction.z,
        t_min,
        t_max,
    );
    ok_z
}

/// The box of one sphere.
fn sphere_box(s: &Sphere) -> (r: (Vec3q, Vec3q))
    requires
        wf_sphere(*s),
    ensures
        v_in_range(r.0),
        v_in_range(r.1),
        r.0 == s.center.spec_sub(Vec3q { x: s.radius, y: s.radius, z: s.radius }),
        r.1 == s.center.spec_add(Vec3q { x: s.radius, y: s.radius, z: s.radius }),
{
    let rad = Vec3q { x: s.radius, y: s.radius, z: s.radius };
    (s.center.sub(rad), s.center.add(rad))
}

/// The sphere's center coordinate on a chosen axis.
fn center_axis(s: &Sphere, axis: u8) -> (r: i64)
    requires
        wf_sphere(*s),
    ensures
        q_in_range(r as int),
        r == (if axis == 0 {
            s.center.x
        } else if axis == 1 {
            s.center.y
        } else {
            s.center.z
        }),
{
    if axis == 0 {
        s.center.x
    } else if axis == 1 {
        s.center.y
    } else {
        s.center.z
    }
}

/// The center coordinate of sphere `i` on a chosen axis: the sort key.
pub open spec fn spec_center_axis(spheres: Seq<Sphere>, axis: u8, i: usize) -> int {
    if axis == 0 {
        spheres[i as int].center.x as int
    } else if axis == 1 {
        spheres[i as int].center.y as int
    } else {
        spheres[i as int].center.z as int
    }
}

/// Build order on indices: by center coordinate, ties by index value, so the
/// sorted range — and with it the whole construction — is a function of the
/// sphere list alone.
pub open spec fn axis_leq(spheres: Seq<Sphere>, axis: u8) -> spec_fn(usize, usize) -> bool {
    |i: usize, j: usize|
        spec_center_axis(spheres, axis, i) < spec_center_axis(spheres, axis, j) || (
        spec_center_axis(spheres, axis, i) == spec_center_axis(spheres, axis, j) && i <= j)
}

/// The build order is total, so the sorted range is unique.
pub proof fn lemma_axis_leq_total(spheres: Seq<Sphere>, axis: u8)
    ensures
        total_ordering(axis_leq(spheres, axis)),
{
    let leq = axis_leq(spheres, axis);
    assert forall|i: usize| #[trigger] leq(i, i) by {}
    assert forall|i: usize, j: usize| #[trigger] leq(i, j) && #[trigger] leq(j, i) implies i
        == j by {}
    assert forall|i: usize, j: usize, k: usize|
        #[trigger] leq(i, j) && #[trigger] leq(j, k) implies leq(i, k) by {}
    assert forall|i: usize, j: usize| #[trigger] leq(i, j) || #[trigger] leq(j, i) by {}
}

/// Does `a` come no later than `b` in build order?
fn axis_le(spheres: &Vec<Sphere>, axis: u8, a: usize, b: usize) -> (r: bool)
    requires
        a < spheres@.len(),
        b < spheres@.len(),
        wf_spheres(spheres@),
    ensures
        r == axis_leq(spheres@, axis)(a, b),
{
    let ka = center_axis(&spheres[a], axis);
    let kb = center_axis(&spheres[b], axis);
    ka < kb || (ka == kb && a <= b)
}

/// A sorted range, as a mathematical function of the sphere list.
pub open spec fn spec_sorted_range(
    spheres: Seq<Sphere>,
    s: Seq<usize>,
    start: int,
    end: int,
    axis: u8,
) -> Seq<usize> {
    s.take(start) + s.subrange(start, end).sort_by(axis_leq(spheres, axis)) + s.skip(end)
}

/// Sort `indices[start..end)` into build order; nothing outside the range
/// moves, and the result is pinned to the unique sorted arrangement.
fn sort_range(
    indices: &mut Vec<usize>,
    start: usize,
    end: usize,
    spheres: &Vec<Sphere>,
    axis: u8,
)
    requires
        start <= end <= old(indices)@.len(),
        wf_spheres(spheres@),
        forall|k: int| 0 <= k < old(indices)@.len() ==> #[trigger] old(indices)@[k] < spheres@.len(),
    ensures
        final(indices)@ == spec_sorted_range(
            spheres@,
            old(indices)@,
            start as int,
            end as int,
            axis,
        ),
        final(indices)@.len() == old(indices)@.len(),
        forall|k: int|
            0 <= k < final(indices)@.len() && !(start <= k < end) ==> final(indices)@[k] == old(
                indices,
            )@[k],
        forall|k: int| 0 <= k < final(indices)@.len() ==> #[trigger] final(indices)@[k]
            < spheres@.len(),
{
    let ghost leq = axis_leq(spheres@, axis);
    let ghost orig = indices@;
    let mut tmp: Vec<usize> = Vec::new();
    let mut i = start;
    proof {
        broadcast use vstd::seq_lib::group_to_multiset_ensures;

        assert(orig.subrange(start as int, start as int) =~= Seq::<usize>::empty());
        assert(tmp@.to_multiset() =~= orig.subrange(start as int, start as int).to_multiset());
    }
    while i < end
        invariant
            start <= i <= end <= indices@.len(),
            indices@ == orig,
            wf_spheres(spheres@),
            forall|k: int| 0 <= k < orig.len() ==> #[trigger] orig[k] < spheres@.len(),
            tmp@.len() == i - start,
            forall|k: int| 0 <= k < tmp@.len() ==> #[trigger] tmp@[k] < spheres@.len(),
            sorted_by(tmp@, leq),
            leq == axis_leq(spheres@, axis),
            tmp@.to_multiset() == orig.subrange(start as int, i as int).to_multiset(),
        decreases end - i,
    {
        let x = indices[i];
        let mut p: usize = 0;
        while p < tmp.len() && axis_le(spheres, axis, tmp[p], x)
            invariant
                p <= tmp@.len(),
                x < spheres@.len(),
                wf_spheres(spheres@),
                forall|k: int| 0 <= k < tmp@.len() ==> #[trigger] tmp@[k] < spheres@.len(),
                leq == axis_leq(spheres@, axis),
                forall|k: int| 0 <= k < p ==> leq(#[trigger] tmp@[k], x),
            decreases tmp@.len() - p,
        {
            p += 1;
        }
        let ghost olds = tmp@;
        tmp.insert(p, x);
        proof {
            broadcast use vstd::seq_lib::group_to_multiset_ensures;

            lemma_axis_leq_total(spheres@, axis);
            olds.insert_ensures(p as int, x);
            assert forall|a: int, c: int| 0 <= a < c < tmp@.len() implies leq(
                tmp@[a],
                tmp@[c],
            ) by {
                if c < p {
                    assert(tmp@[a] == olds[a] && tmp@[c] == olds[c]);
                } else if a > p {
                    assert(tmp@[a] == olds[a - 1] && tmp@[c] == olds[c - 1]);
                } else if a < p && c == p {
                    assert(tmp@[a] == olds[a]);
                } else if a == p && c > p {
                    assert(tmp@[c] == olds[c - 1]);
                    if p < olds.len() {
                        assert(!leq(olds[p as int], x));
                        assert(leq(x, olds[p as int]));
                        if c - 1 > p {
                            assert(leq(olds[p as int], olds[c - 1]));
                        }
                    }
                } else if a < p && c > p {
                    assert(tmp@[a] == olds[a] && tmp@[c] == olds[c - 1]);
                    if p < olds.len() {
                        assert(leq(x, olds[p as int]));
                        if c - 1 > p {
                            assert(leq(olds[p as int], olds[c - 1]));
                        }
                    }
                }
            }
            crate::layout::lemma_to_multiset_insert(olds, p as int, x);
            assert(orig.subrange(start as int, i + 1).drop_last() =~= orig.subrange(
                start as int,
                i as int,
            ));
            assert(orig.subrange(start as int, i + 1) =~= orig.subrange(
                start as int,
                i as int,
            ).push(orig[i as int]));
            assert(tmp@.to_multiset() =~= orig.subrange(start as int, i + 1).to_multiset());
            assert forall|k: int| 0 <= k < tmp@.len() implies #[trigger] tmp@[k]
                < spheres@.len() by {
                if k < p {
                    assert(tmp@[k] == olds[k]);
                } else if k > p {
                    assert(tmp@[k] == olds[k - 1]);
                }
            }
        }
        i += 1;
    }
    let ghost sub = orig.subrange(start as int, end as int);
    proof {
        lemma_axis_leq_total(spheres@, axis);
        sub.lemma_sort_by_ensures(leq);
        vstd::seq_lib::lemma_sorted_unique(tmp@, sub.sort_by(leq), leq);
        assert(tmp@ =~= sub.sort_by(leq));
    }
    let n = end - start;
    let mut k: usize = 0;
    while k < n
        invariant
            k <= n,
            n == end - start,
            start <= end <= indices@.len(),
            indices@.len() == orig.len(),
            tmp@.len() == n,
            tmp@ == sub.sort_by(leq),
            forall|q: int| 0 <= q < tmp@.len() ==> #[trigger] tmp@[q] < spheres@.len(),
            forall|q: int| 0 <= q < orig.len() ==> #[trigger] orig[q] < spheres@.len(),
            forall|q: int|
                0 <= q < indices@.len() && !(start <= q < start + k) ==> indices@[q] == orig[q],
            forall|q: int| 0 <= q < k ==> indices@[start + q] == tmp@[q],
        decreases n - k,
    {
        indices.set(start + k, tmp[k]);
        k += 1;
    }
    proof {
        assert(indices@ =~= spec_sorted_range(spheres@, orig, start as int, end as int, axis));
        assert forall|q: int| 0 <= q < indices@.len() implies #[trigger] indices@[q]
            < spheres@.len() by {
            if start <= q < end {
                assert(indices@[q] == tmp@[q - start]);
            }
        }
    }
}

/// The joint bounding box of a range of primitives (degenerate when empty).
pub open spec fn spec_range_box(
    spheres: Seq<Sphere>,
    s: Seq<usize>,
    start: int,
    end: int,
) -> (Vec3q, Vec3q)
    decreases end - start,
{
    if end <= start {
        (
            Vec3q { x: Q_SAT, y: Q_SAT, z: Q_SAT },
            Vec3q { x: (-Q_SAT) as i64, y: (-Q_SAT) as i64, z: (-Q_SAT) as i64 },
        )
    } else {
        let b = spec_range_box(spheres, s, start, end - 1);
        let sp = spheres[s[end - 1] as int];
        let rad = Vec3q { x: sp.radius, y: sp.radius, z: sp.radius };
        (b.0.spec_min(sp.center.spec_sub(rad)), b.1.spec_max(sp.center.spec_add(rad)))
    }
}

/// The construction of one subtree as a mathematical function: the reordered
/// index array, the grown arena, and the new root's id.
pub open spec fn spec_build_node(
    spheres: Seq<Sphere>,
    s: Seq<usize>,
    start: int,
    end: int,
    nodes: Seq<BvhNode>,
) -> (Seq<usize>, Seq<BvhNode>, int)
    decreases end - start,
    when start < end
{
    let bb = spec_range_box(spheres, s, start, end);
    if end - start <= LEAF_SIZE {
        (
            s,
            nodes.push(
                BvhNode {
                    bbox_min: bb.0,
                    bbox_max: bb.1,
                    leaf: true,
                    left: 0,
                    right: 0,
                    start: start as usize,
                    end: end as usize,
                },
            ),
            nodes.len() as int,
        )
    } else {
        let ext = bb.1.spec_sub(bb.0);
        let axis: u8 = if ext.x >= ext.y && ext.x >= ext.z {
            0u8
        } else if ext.y >= ext.z {
            1u8
        } else {
            2u8
        };
        let s1 = spec_sorted_range(spheres, s, start, end, axis);
        let mid = start + (end - start) / 2;
        let l = spec_build_node(spheres, s1, start, mid, nodes);
        let r = spec_build_node(spheres, l.0, mid, end, l.1);
        let lnode = r.1[l.2];
        let rnode = r.1[r.2];
        (
            r.0,
            r.1.push(
                BvhNode {
                    bbox_min: lnode.bbox_min.spec_min(rnode.bbox_min),
                    bbox_max: lnode.bbox_max.spec_max(rnode.bbox_max),
                    leaf: false,
                    left: l.2 as usize,
                    right: r.2 as usize,
                    start: 0,
                    end: 0,
                },
            ),
            r.1.len() as int,
        )
    }
}

/// The fully built index layout as a function of the sphere list: identity
/// indices fed to the root build (empty lists build nothing).
pub open spec fn spec_bvh_layout(spheres: Seq<Sphere>) -> (Seq<usize>, Seq<BvhNode>, int) {
    let ident = Seq::new(spheres.len(), |i: int| i as usize);
    if spheres.len() == 0 {
        (ident, Seq::empty(), 0)
    } else {
        spec_build_node(spheres, ident, 0, spheres.len() as int, Seq::empty())
    }
}

/// Build the subtree over `indices[start..end)` and return its node id.
/// Children are pushed before their parent, so every link points backwards.
fn build_node(
    spheres: &Vec<Sphere>,
    indices: &mut Vec<usize>,
    start: usize,
    end: usize,
    nodes: &mut Vec<BvhNode>,
) -> (id: usize)
    requires
        start < end <= old(indices)@.len(),
        wf_spheres(spheres@),
        forall|k: int| 0 <= k < old(indices)@.len() ==> #[trigger] old(indices)@[k]
            < spheres@.len(),
        wf_nodes(old(nodes)@, old(indices)@.len() as int),
    ensures
        final(indices)@.len() == old(indices)@.len(),
        forall|k: int|
            0 <= k < final(indices)@.len() && !(start <= k < end) ==> final(indices)@[k] == old(
                indices,
            )@[k],
        forall|k: int| 0 <= k < final(indices)@.len() ==> #[trigger] final(indices)@[k]
            < spheres@.len(),
        final(nodes)@.len() > old(nodes)@.len(),
        forall|i: int| 0 <= i < old(nodes)@.len() ==> #[trigger] final(nodes)@[i] == old(
            nodes,
        )@[i],
        wf_nodes(final(nodes)@, final(indices)@.len() as int),
        id == final(nodes)@.len() - 1,
        ({
            let r = spec_build_node(
                spheres@,
                old(indices)@,
                start as int,
                end as int,
                old(nodes)@,
            );
            &&& final(indices)@ == r.0
            &&& final(nodes)@ == r.1
            &&& id as int == r.2
        }),
    decreases end - start,
{
    let ghost sbn = spec_build_node(spheres@, old(indices)@, start as int, end as int, old(nodes)@);
    let mut bmin = Vec3q { x: Q_SAT, y: Q_SAT, z: Q_SAT };
    let mut bmax = Vec3q { x: -Q_SAT, y: -Q_SAT, z: -Q_SAT };
    let mut k = start;
    while k < end
        invariant
            start <= k <= end <= indices@.len(),
            wf_spheres(spheres@),
            indices@ == old(indices)@,
            forall|q: int| 0 <= q < indices@.len() ==> #[trigger] indices@[q] < spheres@.len(),
            v_in_range(bmin),
            v_in_range(bmax),
            (bmin, bmax) == spec_range_box(spheres@, old(indices)@, start as int, k as int),
        decreases end - k,
    {
        let si = indices[k];
        let (smin, smax) = sphere_box(&spheres[si]);
        bmin = bmin.min(smin);
        bmax = bmax.max(smax);
        k += 1;
    }
    let ghost bb = spec_range_box(spheres@, old(indices)@, start as int, end as int);
    proof {
        assert(bmin == bb.0 && bmax == bb.1);
    }
    if end - start <= LEAF_SIZE {
        let ghost oldnodes = nodes@;
        nodes.push(
            BvhNode {
                bbox_min: bmin,
                bbox_max: bmax,
                leaf: true,
                left: 0,
                right: 0,
                start,
                end,
            },
        );
        proof {
            assert forall|i: int| 0 <= i < nodes@.len() implies wf_node(
                #[trigger] nodes@[i],
                i,
                indices@.len() as int,
            ) by {
                if i < oldnodes.len() {
                    assert(nodes@[i] == oldnodes[i]);
                }
            }
            assert(nodes@ =~= sbn.1);
        }
        return nodes.len() - 1;
    }
    let ext = bmax.sub(bmin);
    let axis: u8 = if ext.x >= ext.y && ext.x >= ext.z {
        0
    } else if ext.y >= ext.z {
        1
    } else {
        2
    };
    proof {
        let sext = bb.1.spec_sub(bb.0);
        assert(ext == sext);
        assert(axis == (if sext.x >= sext.y && sext.x >= sext.z {
            0u8
        } else if sext.y >= sext.z {
            1u8
        } else {
            2u8
        }));
    }
    sort_range(indices, start, end, spheres, axis);
    let ghost s1 = spec_sorted_range(spheres@, old(indices)@, start as int, end as int, axis);
    proof {
        assert(indices@ == s1);
    }
    let mid = start + (end - start) / 2;
    let ghost l = spec_build_node(spheres@, s1, start as int, mid as int, old(nodes)@);
    let left_id = build_node(spheres, indices, start, mid, nodes);
    proof {
        assert(indices@ == l.0 && nodes@ == l.1 && left_id as int == l.2);
    }
    let ghost r = spec_build_node(spheres@, l.0, mid as int, end as int, l.1);
    let right_id = build_node(spheres, indices, mid, end, nodes);
    proof {
        assert(indices@ == r.0 && nodes@ == r.1 && right_id as int == r.2);
        assert(left_id < l.1.len());
        assert(nodes@[left_id as int] == l.1[left_id as int]);
    }
    let lmin = nodes[left_id].bbox_min;
    let lmax = nodes[left_id].bbox_max;
    let rmin = nodes[right_id].bbox_min;
    let rmax = nodes[right_id].bbox_max;
    let ghost oldnodes = nodes@;
    nodes.push(
        BvhNode {
            bbox_min: lmin.min(rmin),
            bbox_max: lmax.max(rmax),
            leaf: false,
            left: left_id,
            right: right_id,
            start: 0,
            end: 0,
        },
    );
    proof {
        assert forall|i: int| 0 <= i < nodes@.len() implies wf_node(
            #[trigger] nodes@[i],
            i,
            indices@.len() as int,
        ) by {
            if i < oldnodes.len() {
                assert(nodes@[i] == oldnodes[i]);
            }
        }
        assert(nodes@ =~= sbn.1);
        assert(indices@ == sbn.0);
    }
    nodes.len() - 1
}

/// Walk a subtree; whatever comes back is a genuine hit inside the interval.
fn hit_node(
    nodes: &Vec<BvhNode>,
    spheres: &Vec<Sphere>,
    indices: &Vec<usize>,
    id: usize,
    ray: &Ray,
    t_min: i64,
    t_max: i64,
) -> (r: Option<Hit>)
    requires
        wf_nodes(nodes@, indices@.len() as int),
        id < nodes@.len(),
        forall|k: int| 0 <= k < indices@.len() ==> #[trigger] indices@[k] < spheres@.len(),
        wf_spheres(spheres@),
        wf_ray(*ray),
        q_in_range(t_min as int),
        q_in_range(t_max as int),
    ensures
        r matches Some(h) ==> is_real_hit(spheres@, *ray, t_min as int, t_max as int, h) && t_min
            <= h.t <= t_max && q_in_range(h.t as int),
        r == spec_hit_node(nodes@, spheres@, indices@, id as int, *ray, t_min as int, t_max as int),
    decreases id,
{
    let nd = nodes[id];
    proof {
        assert(wf_node(nodes@[id as int], id as int, indices@.len() as int));
    }
    if !hit_box(&nd, ray, t_min, t_max) {
        return None;
    }
    if nd.leaf {
        let mut closest: Option<Hit> = None;
        let mut k = nd.start;
        while k < nd.end
            invariant
                nd.start <= k <= nd.end <= indices@.len(),
                forall|q: int| 0 <= q < indices@.len() ==> #[trigger] indices@[q]
                    < spheres@.len(),
                wf_spheres(spheres@),
                wf_ray(*ray),
                q_in_range(t_min as int),
                q_in_range(t_max as int),
                closest matches Some(h) ==> is_real_hit(
                    spheres@,
                    *ray,
                    t_min as int,
                    t_max as int,
                    h,
                ) && t_min <= h.t <= t_max && q_in_range(h.t as int),
                spec_leaf_scan(
                    spheres@,
                    indices@,
                    *ray,
                    t_min as int,
                    t_max as int,
                    nd.start as int,
                    nd.end as int,
                    Option::None,
                ) == spec_leaf_scan(
                    spheres@,
                    indices@,
                    *ray,
                    t_min as int,
                    t_max as int,
                    k as int,
                    nd.end as int,
                    closest,
                ),
            decreases nd.end - k,
        {
            let ct = match &closest {
                Some(h) => h.t,
                None => t_max,
            };
            let si = indices[k];
            let found = spheres[si].hit(ray, t_min, ct);
            match found {
                Some(h) => {
                    proof {
                        assert(spec_sphere_hit(*ray, t_min as int, ct as int, spheres@[si as int])
                            == Option::Some(h));
                        assert(is_real_hit(spheres@, *ray, t_min as int, ct as int, h));
                        lemma_hit_bound_widen(
                            spheres@,
                            *ray,
                            t_min as int,
                            ct as int,
                            t_max as int,
                            h,
                        );
                    }
                    closest = Some(h);
                },
                None => {},
            }
            k += 1;
        }
        return closest;
    }
    let lt = hit_node(nodes, spheres, indices, nd.left, ray, t_min, t_max);
    let ct = match &lt {
        Some(h) => h.t,
        None => t_max,
    };
    let rt = hit_node(nodes, spheres, indices, nd.right, ray, t_min, ct);
    match rt {
        Some(h) => {
            proof {
                lemma_hit_bound_widen(spheres@, *ray, t_min as int, ct as int, t_max as int, h);
            }
            Some(h)
        },
        None => lt,
    }
}

/// The spatial index: a sphere set, a permutation of its indices, and the
/// node arena. Immutable after construction; queries only read it.
pub struct Bvh {
    spheres: Vec<Sphere>,
    indices: Vec<usize>,
    nodes: Vec<BvhNode>,
    root: usize,
}

impl Bvh {
    /// The sphere set this index answers queries over.
    pub closed spec fn spec_spheres(self) -> Seq<Sphere> {
        self.spheres@
    }

    /// The raw built layout: the index permutation, the node arena, the root.
    pub closed spec fn spec_index_data(self) -> (Seq<usize>, Seq<BvhNode>, int) {
        (self.indices@, self.nodes@, self.root as int)
    }

    /// Structural well-formedness, established by `new` and relied on by `hit`.
    pub closed spec fn wf(self) -> bool {
        &&& wf_spheres(self.spheres@)
        &&& self.indices@.len() == self.spheres@.len()
        &&& (forall|k: int| 0 <= k < self.indices@.len() ==> #[trigger] self.indices@[k]
            < self.spheres@.len())
        &&& wf_nodes(self.nodes@, self.indices@.len() as int)
        &&& (self.spheres@.len() > 0 ==> self.root < self.nodes@.len())
    }

    /// Build the hierarchy over a sphere set. The result is pinned: the
    /// layout is a function of the sphere list alone, so equal inputs build
    /// indexes that answer every query alike.
    pub fn new(spheres: Vec<Sphere>) -> (r: Bvh)
        requires
            wf_spheres(spheres@),
        ensures
            r.wf(),
            r.spec_spheres() == spheres@,
            r.spec_index_data() == spec_bvh_layout(spheres@),
    {
        let n = spheres.len();
        let ghost ident = Seq::new(spheres@.len(), |i: int| i as usize);
        let mut indices: Vec<usize> = Vec::new();
        let mut i: usize = 0;
        while i < n
            invariant
                i <= n,
                n == spheres@.len(),
                indices@.len() == i,
                forall|k: int| 0 <= k < i ==> #[trigger] indices@[k] < n,
                forall|k: int| 0 <= k < i ==> #[trigger] indices@[k] == k,
            decreases n - i,
        {
            let ghost olds = indices@;
            indices.push(i);
            proof {
                assert forall|k: int| 0 <= k <= i implies #[trigger] indices@[k] < n
                    && indices@[k] == k by {
                    if k < i {
                        assert(indices@[k] == olds[k]);
                    }
                }
            }
            i += 1;
        }
        proof {
            assert(indices@ =~= ident);
        }
        let mut nodes: Vec<BvhNode> = Vec::new();
        let root = if n == 0 {
            0
        } else {
            build_node(&spheres, &mut indices, 0, n, &mut nodes)
        };
        let r = Bvh { spheres, indices, nodes, root };
        proof {
            if n == 0 {
                assert(r.spec_index_data().1 =~= spec_bvh_layout(r.spheres@).1);
            }
        }
        r
    }

    /// What a query answers, as a mathematical function of the built index.
    pub closed spec fn spec_query(self, ray: Ray, t_min: int, t_max: int) -> Option<Hit> {
        if self.indices@.len() == 0 {
            Option::None
        } else {
            spec_hit_node(
                self.nodes@,
                self.spheres@,
                self.indices@,
                self.root as int,
                ray,
                t_min,
                t_max,
            )
        }
    }

    /// Nearest hit at parameter inside [t_min, t_max], or `None`.
    /// With zero primitives every query returns `None`.
    pub fn hit(&self, ray: &Ray, t_min: i64, t_max: i64) -> (r: Option<Hit>)
        requires
            self.wf(),
            wf_ray(*ray),
            q_in_range(t_min as int),
            q_in_range(t_max as int),
        ensures
            r == self.spec_query(*ray, t_min as int, t_max as int),
            self.spec_spheres().len() == 0 ==> r is None,
            r matches Some(h) ==> is_real_hit(self.spec_spheres(), *ray, t_min as int, t_max as int, h)
                && t_min <= h.t <= t_max && q_in_range(h.t as int),
    {
        if self.indices.len() == 0 {
            return None;
        }
        hit_node(&self.nodes, &self.spheres, &self.indices, self.root, ray, t_min, t_max)
    }

    /// The primitives, in the order they were handed in.
    pub fn spheres(&self) -> (r: &Vec<Sphere>)
        ensures
            r@ == self.spec_spheres(),
    {
        &self.spheres
    }
}

/// The reference query is the nearest hit: whatever it returns is a genuine
/// intersection no sphere can beat inside the interval, and when it returns
/// nothing, no sphere intersects the interval at all.
#[verifier::rlimit(100)]
#[verifier::spinoff_prover]
pub proof fn lemma_brute_hit_nearest(spheres: Seq<Sphere>, ray: Ray, t_min: int, t_max: int)
    ensures
        spec_brute_hit(spheres, ray, t_min, t_max) matches Some(h) ==> is_real_hit(
            spheres,
            ray,
            t_min,
            t_max,
            h,
        ) && h.t <= t_max && forall|i: int|
            0 <= i < spheres.len() ==> match spec_candidate(ray, t_min, #[trigger] spheres[i]) {
                Option::Some(t) => t >= h.t || t > t_max,
                Option::None => true,
            },
        spec_brute_hit(spheres, ray, t_min, t_max) is None ==> forall|i: int|
            0 <= i < spheres.len() ==> spec_sphere_hit(ray, t_min, t_max, #[trigger] spheres[i])
                is None,
    decreases spheres.len(),
{
    if spheres.len() > 0 {
        let s0 = spheres.drop_last();
        lemma_brute_hit_nearest(s0, ray, t_min, t_max);
        let prev = spec_brute_hit(s0, ray, t_min, t_max);
        let bound = match prev {
            Option::Some(h) => h.t as int,
            Option::None => t_max,
        };
        let f = spec_sphere_hit(ray, t_min, bound, spheres.last());
        let out = spec_brute_hit(spheres, ray, t_min, t_max);
        assert(forall|i: int| 0 <= i < s0.len() ==> s0[i] == spheres[i]);
        match f {
            Option::Some(h) => {
                assert(out == Option::Some(h));
                assert(spec_sphere_hit(ray, t_min, t_max, spheres[spheres.len() - 1])
                    == Option::Some(h));
                assert(is_real_hit(spheres, ray, t_min, t_max, h));
                assert forall|i: int| 0 <= i < spheres.len() implies match spec_candidate(
                    ray,
                    t_min,
                    #[trigger] spheres[i],
                ) {
                    Option::Some(t) => t >= h.t || t > t_max,
                    Option::None => true,
                } by {
                    if i < spheres.len() - 1 {
                        match prev {
                            Option::Some(hp) => {
                                assert(h.t <= hp.t);
                            },
                            Option::None => {
                                assert(spec_sphere_hit(ray, t_min, t_max, spheres[i]) is None);
                            },
                        }
                    }
                }
            },
            Option::None => {
                assert(out == prev);
                match prev {
                    Option::Some(hp) => {
                        let i0 = choose|i: int|
                            0 <= i < s0.len() && spec_sphere_hit(ray, t_min, t_max, #[trigger] s0[i])
                                == Option::Some(hp);
                        assert(spec_sphere_hit(ray, t_min, t_max, spheres[i0])
                            == Option::Some(hp));
                        assert(is_real_hit(spheres, ray, t_min, t_max, hp));
                        assert forall|i: int| 0 <= i < spheres.len() implies match spec_candidate(
                            ray,
                            t_min,
                            #[trigger] spheres[i],
                        ) {
                            Option::Some(t) => t >= hp.t || t > t_max,
                            Option::None => true,
                        } by {
                            if i == spheres.len() - 1 {
                                assert(spec_sphere_hit(ray, t_min, hp.t as int, spheres[i])
                                    is None);
                            }
                        }
                    },
                    Option::None => {
                        assert forall|i: int| 0 <= i < spheres.len() implies spec_sphere_hit(
                            ray,
                            t_min,
                            t_max,
                            #[trigger] spheres[i],
                        ) is None by {
                            if i == spheres.len() - 1 {
                                assert(bound == t_max);
                            }
                        }
                    },
                }
            },
        }
    }
}

/// Sorting a range only rearranges it: same length, same contents as a
/// multiset, nothing outside the range moved.
proof fn lemma_sorted_range_preserves(
    spheres: Seq<Sphere>,
    s: Seq<usize>,
    start: int,
    end: int,
    axis: u8,
)
    requires
        0 <= start <= end <= s.len(),
    ensures
        spec_sorted_range(spheres, s, start, end, axis).len() == s.len(),
        spec_sorted_range(spheres, s, start, end, axis).to_multiset() == s.to_multiset(),
        forall|k: int|
            0 <= k < s.len() && !(start <= k < end) ==> spec_sorted_range(
                spheres,
                s,
                start,
                end,
                axis,
            )[k] == s[k],
{
    broadcast use vstd::seq_lib::group_to_multiset_ensures;
    broadcast use vstd::multiset::group_multiset_axioms;

    let leq = axis_leq(spheres, axis);
    let sub = s.subrange(start, end);
    lemma_axis_leq_total(spheres, axis);
    sub.lemma_sort_by_ensures(leq);
    let sorted = sub.sort_by(leq);
    assert(sorted.len() == sub.len()) by {
        assert(sorted.to_multiset().len() == sub.to_multiset().len());
    };
    let out = spec_sorted_range(spheres, s, start, end, axis);
    assert(out =~= (s.take(start) + sorted) + s.skip(end));
    assert forall|k: int| 0 <= k < s.len() && !(start <= k < end) implies out[k] == s[k] by {
        if k < start {
            assert(out[k] == s.take(start)[k]);
        } else {
            assert(out[k] == s.skip(end)[k - end]);
        }
    }
    assert(s =~= (s.take(start) + sub) + s.skip(end));
    vstd::seq_lib::lemma_multiset_commutative(s.take(start), sorted);
    vstd::seq_lib::lemma_multiset_commutative(s.take(start), sub);
    vstd::seq_lib::lemma_multiset_commutative(s.take(start) + sorted, s.skip(end));
    vstd::seq_lib::lemma_multiset_commutative(s.take(start) + sub, s.skip(end));
    assert(out.to_multiset() =~= s.to_multiset());
}

/// The build only rearranges the index array inside the range it was given:
/// length and contents (as a multiset) are preserved, and nothing outside
/// the range moves.
pub proof fn lemma_build_preserves_indices(
    spheres: Seq<Sphere>,
    s: Seq<usize>,
    start: int,
    end: int,
    nodes: Seq<BvhNode>,
)
    requires
        0 <= start < end <= s.len(),
    ensures
        spec_build_node(spheres, s, start, end, nodes).0.len() == s.len(),
        spec_build_node(spheres, s, start, end, nodes).0.to_multiset() == s.to_multiset(),
        forall|k: int|
            0 <= k < s.len() && !(start <= k < end) ==> spec_build_node(
                spheres,
                s,
                start,
                end,
                nodes,
            ).0[k] == s[k],
    decreases end - start,
{
    let r = spec_build_node(spheres, s, start, end, nodes);
    if end - start <= LEAF_SIZE {
        assert(r.0 == s);
    } else {
        let bb = spec_range_box(spheres, s, start, end);
        let ext = bb.1.spec_sub(bb.0);
        let axis: u8 = if ext.x >= ext.y && ext.x >= ext.z {
            0u8
        } else if ext.y >= ext.z {
            1u8
        } else {
            2u8
        };
        let s1 = spec_sorted_range(spheres, s, start, end, axis);
        lemma_sorted_range_preserves(spheres, s, start, end, axis);
        let mid = start + (end - start) / 2;
        let l = spec_build_node(spheres, s1, start, mid, nodes);
        lemma_build_preserves_indices(spheres, s1, start, mid, nodes);
        lemma_build_preserves_indices(spheres, l.0, mid, end, l.1);
    }
}

/// The built index array is a permutation of the identity: every primitive
/// appears exactly once across the leaf ranges.
pub proof fn lemma_layout_indices_permutation(spheres: Seq<Sphere>)
    ensures
        spec_bvh_layout(spheres).0.len() == spheres.len(),
        spec_bvh_layout(spheres).0.to_multiset() == Seq::new(
            spheres.len(),
            |i: int| i as usize,
        ).to_multiset(),
{
    let ident = Seq::new(spheres.len(), |i: int| i as usize);
    if spheres.len() > 0 {
        lemma_build_preserves_indices(spheres, ident, 0, spheres.len() as int, Seq::empty());
    }
}

} // verus!
