//! Deterministic graph layout.
//!
//! Every id appearing in the nodes or edges gets an integer depth by
//! shortest-distance from the start set (the ids of minimum in-degree),
//! a connectivity lane from the logarithm of its total degree, and a seeded
//! z-jitter. The resulting scene is a pure function of the graph and the
//! seed: `layout_graph` is specified exactly by `spec_layout`.

use vstd::prelude::*;
use vstd::relations::{sorted_by, total_ordering};
use vstd::string::StrSliceExecFns;
use crate::bytes::{bytes_eq, bytes_lt, lex_lt, lemma_lex_asymmetric, lemma_lex_total,
    lemma_lex_transitive};
use crate::model::{Edge, EdgeView, GraphFile, GraphView, NodeView, SceneEdge, SceneEdgeView,
    SceneFile, SceneNode, SceneNodeView, SceneView};
use crate::rng::{jitter_q, spec_jitter_q};
use crate::vec3::Vec3q;

verus! {

/// The ids of all nodes, in node-list order.
pub open spec fn spec_node_ids(nodes: Seq<NodeView>) -> Seq<Seq<u8>> {
    nodes.map_values(|n: NodeView| n.id)
}

/// Every id mentioned by the document: node ids, then each edge's endpoints.
pub open spec fn spec_all_ids(g: GraphView) -> Seq<Seq<u8>> {
    spec_node_ids(g.nodes) + Seq::new(
        2 * g.edges.len(),
        |i: int|
            if i % 2 == 0 {
                g.edges[i / 2].from
            } else {
                g.edges[i / 2].to
            },
    )
}

/// Keep the first occurrence of each id, in order of first appearance.
pub open spec fn spec_dedup_first(s: Seq<Seq<u8>>) -> Seq<Seq<u8>>
    decreases s.len(),
{
    if s.len() == 0 {
        Seq::empty()
    } else {
        let rest = spec_dedup_first(s.drop_last());
        if rest.contains(s.last()) {
            rest
        } else {
            rest.push(s.last())
        }
    }
}

/// The id universe: each mentioned id exactly once.
pub open spec fn spec_universe(g: GraphView) -> Seq<Seq<u8>> {
    spec_dedup_first(spec_all_ids(g))
}

/// Deduplication keeps exactly the ids that were present.
pub proof fn lemma_dedup_contains(s: Seq<Seq<u8>>, x: Seq<u8>)
    ensures
        spec_dedup_first(s).contains(x) <==> s.contains(x),
    decreases s.len(),
{
    if s.len() > 0 {
        lemma_dedup_contains(s.drop_last(), x);
        let rest = spec_dedup_first(s.drop_last());
        let out = spec_dedup_first(s);
        if s.contains(x) {
            let i = choose|i: int| 0 <= i < s.len() && s[i] == x;
            if i < s.len() - 1 {
                assert(s.drop_last()[i] == x);
                assert(s.drop_last().contains(x));
                if rest.contains(x) {
                    let j = choose|j: int| 0 <= j < rest.len() && rest[j] == x;
                    assert(out[j] == x);
                    assert(out.contains(x));
                }
            } else {
                assert(s.last() == x);
                if rest.contains(s.last()) {
                    let j = choose|j: int| 0 <= j < rest.len() && rest[j] == x;
                    assert(out[j] == x);
                } else {
                    assert(out == rest.push(s.last()));
                    assert(out[rest.len() as int] == x);
                }
                assert(out.contains(x));
            }
        }
        if out.contains(x) {
            let j = choose|j: int| 0 <= j < out.len() && out[j] == x;
            if rest.contains(s.last()) {
                assert(rest[j] == x);
                assert(rest.contains(x));
                assert(s.drop_last().contains(x));
                let i = choose|i: int| 0 <= i < s.drop_last().len() && s.drop_last()[i] == x;
                assert(s[i] == x);
                assert(s.contains(x));
            } else {
                if j < rest.len() {
                    assert(rest[j] == x);
                    assert(rest.contains(x));
                    assert(s.drop_last().contains(x));
                    let i = choose|i: int|
                        0 <= i < s.drop_last().len() && s.drop_last()[i] == x;
                    assert(s[i] == x);
                } else {
                    assert(x == s.last());
                    assert(s[s.len() - 1] == x);
                }
                assert(s.contains(x));
            }
        }
    }
}

/// The first position of an id in a sequence.
pub open spec fn spec_idx_of(u: Seq<Seq<u8>>, id: Seq<u8>) -> int
    decreases u.len(),
{
    if u.len() == 0 {
        0
    } else if u[0] == id {
        0
    } else {
        1 + spec_idx_of(u.drop_first(), id)
    }
}

/// For a present id the first position is in range and holds the id.
pub proof fn lemma_idx_of_present(u: Seq<Seq<u8>>, id: Seq<u8>)
    requires
        u.contains(id),
    ensures
        0 <= spec_idx_of(u, id) < u.len(),
        u[spec_idx_of(u, id)] == id,
    decreases u.len(),
{
    if u.len() > 0 && u[0] != id {
        let i = choose|i: int| 0 <= i < u.len() && u[i] == id;
        assert(u.drop_first()[i - 1] == id);
        lemma_idx_of_present(u.drop_first(), id);
    }
}

/// How many edges point at this id.
pub open spec fn spec_indeg(edges: Seq<EdgeView>, id: Seq<u8>) -> int
    decreases edges.len(),
{
    if edges.len() == 0 {
        0
    } else {
        spec_indeg(edges.drop_last(), id) + if edges.last().to == id {
            1int
        } else {
            0int
        }
    }
}

/// How many edges leave this id.
pub open spec fn spec_outdeg(edges: Seq<EdgeView>, id: Seq<u8>) -> int
    decreases edges.len(),
{
    if edges.len() == 0 {
        0
    } else {
        spec_outdeg(edges.drop_last(), id) + if edges.last().from == id {
            1int
        } else {
            0int
        }
    }
}

pub proof fn lemma_indeg_bounds(edges: Seq<EdgeView>, id: Seq<u8>)
    ensures
        0 <= spec_indeg(edges, id) <= edges.len(),
        0 <= spec_outdeg(edges, id) <= edges.len(),
    decreases edges.len(),
{
    if edges.len() > 0 {
        lemma_indeg_bounds(edges.drop_last(), id);
    }
}

/// The smallest in-degree over a non-empty id universe.
pub open spec fn spec_min_indeg(edges: Seq<EdgeView>, u: Seq<Seq<u8>>) -> int
    decreases u.len(),
{
    if u.len() <= 1 {
        spec_indeg(edges, u[0])
    } else {
        let m = spec_min_indeg(edges, u.drop_last());
        let last = spec_indeg(edges, u.last());
        if last < m {
            last
        } else {
            m
        }
    }
}

/// Each edge as a pair of universe indices.
pub open spec fn spec_edge_pairs(g: GraphView, u: Seq<Seq<u8>>) -> Seq<(int, int)> {
    g.edges.map_values(|e: EdgeView| (spec_idx_of(u, e.from), spec_idx_of(u, e.to)))
}

/// Depth zero on the start set, "unreached" (= the universe size) elsewhere.
pub open spec fn spec_init_depths(g: GraphView, u: Seq<Seq<u8>>) -> Seq<int> {
    Seq::new(
        u.len(),
        |v: int|
            if spec_indeg(g.edges, u[v]) == spec_min_indeg(g.edges, u) {
                0
            } else {
                u.len() as int
            },
    )
}

/// Relax one vertex against every edge, left to right.
pub open spec fn spec_relax_at(d: Seq<int>, eidx: Seq<(int, int)>, v: int) -> int
    decreases eidx.len(),
{
    if eidx.len() == 0 {
        d[v]
    } else {
        let prev = spec_relax_at(d, eidx.drop_last(), v);
        let e = eidx.last();
        if e.1 == v && d[e.0] + 1 < prev {
            d[e.0] + 1
        } else {
            prev
        }
    }
}

/// One parallel relaxation round over all vertices.
pub open spec fn spec_step(d: Seq<int>, eidx: Seq<(int, int)>) -> Seq<int> {
    Seq::new(d.len(), |v: int| spec_relax_at(d, eidx, v))
}

/// `k` relaxation rounds.
pub open spec fn spec_iter_depths(d: Seq<int>, eidx: Seq<(int, int)>, k: nat) -> Seq<int>
    decreases k,
{
    if k == 0 {
        d
    } else {
        spec_step(spec_iter_depths(d, eidx, (k - 1) as nat), eidx)
    }
}

/// The depth of every universe id: as many rounds as there are ids, which is
/// enough for every shortest distance to settle.
pub open spec fn spec_depths(g: GraphView) -> Seq<int> {
    let u = spec_universe(g);
    spec_iter_depths(spec_init_depths(g, u), spec_edge_pairs(g, u), u.len())
}

/// The largest reached depth (strictly below the cap), or -1 if none.
pub open spec fn spec_max_reached(d: Seq<int>, cap: int) -> int
    decreases d.len(),
{
    if d.len() == 0 {
        -1
    } else {
        let m = spec_max_reached(d.drop_last(), cap);
        if d.last() < cap && d.last() > m {
            d.last()
        } else {
            m
        }
    }
}

/// The layout x coordinate (in whole depth units) for a universe id:
/// its depth if reached, one past the largest reached depth otherwise.
pub open spec fn spec_x_depth(g: GraphView, id: Seq<u8>) -> int {
    let u = spec_universe(g);
    let n = u.len() as int;
    let d = spec_depths(g);
    let dv = d[spec_idx_of(u, id)];
    if dv < n {
        dv
    } else {
        spec_max_reached(d, n) + 1
    }
}

/// Total degree of an id.
pub open spec fn spec_degree(g: GraphView, id: Seq<u8>) -> int {
    spec_indeg(g.edges, id) + spec_outdeg(g.edges, id)
}

/// The connectivity lane: floor(log2(degree)), zero for degree zero.
pub open spec fn spec_bucket(d: int) -> int
    decreases d,
{
    if d < 2 {
        0
    } else {
        1 + spec_bucket(d / 2)
    }
}

/// A node's position: x = depth, y = lane spacing (2.0) times the lane,
/// z = the seeded jitter, all in Q16.16.
pub open spec fn spec_position(g: GraphView, seed: u64, id: Seq<u8>) -> Vec3q {
    Vec3q {
        x: (spec_x_depth(g, id) * 65536) as i64,
        y: (spec_bucket(spec_degree(g, id)) * 131072) as i64,
        z: spec_jitter_q(seed, id) as i64,
    }
}

/// Node order for the output: by id bytes, ties by input position.
pub open spec fn node_leq(nodes: Seq<NodeView>) -> spec_fn(usize, usize) -> bool {
    |i: usize, j: usize|
        {
            if nodes[i as int].id == nodes[j as int].id {
                i <= j
            } else {
                lex_lt(nodes[i as int].id, nodes[j as int].id)
            }
        }
}

/// That order is total, so the sorted output is unique.
pub proof fn lemma_node_leq_total(nodes: Seq<NodeView>)
    ensures
        total_ordering(node_leq(nodes)),
{
    let leq = node_leq(nodes);
    assert forall|i: usize, j: usize| #[trigger] leq(i, j) && #[trigger] leq(j, i) implies i
        == j by {
        let a = nodes[i as int].id;
        let b = nodes[j as int].id;
        if a != b {
            lemma_lex_asymmetric(a, b);
        }
    }
    assert forall|i: usize, j: usize, k: usize|
        #[trigger] leq(i, j) && #[trigger] leq(j, k) implies leq(i, k) by {
        let a = nodes[i as int].id;
        let b = nodes[j as int].id;
        let c = nodes[k as int].id;
        if a != b && b != c && a != c {
            lemma_lex_transitive(a, b, c);
        }
        if a != b && b != c && a == c {
            lemma_lex_asymmetric(a, b);
        }
    }
    assert forall|i: usize, j: usize| #[trigger] leq(i, j) || #[trigger] leq(j, i) by {
        let a = nodes[i as int].id;
        let b = nodes[j as int].id;
        if a != b {
            lemma_lex_total(a, b);
        }
    }
}

/// The output permutation of the node list.
pub open spec fn spec_node_order(g: GraphView) -> Seq<usize> {
    Seq::new(g.nodes.len(), |i: int| i as usize).sort_by(node_leq(g.nodes))
}

/// The laid-out nodes, sorted by id.
pub open spec fn spec_scene_nodes(g: GraphView, seed: u64) -> Seq<SceneNodeView> {
    Seq::new(
        g.nodes.len(),
        |k: int|
            {
                let i = spec_node_order(g)[k] as int;
                SceneNodeView {
                    id: g.nodes[i].id,
                    position: spec_position(g, seed, g.nodes[i].id),
                    seen: g.nodes[i].seen,
                    loss_probes: g.nodes[i].loss_probes,
                }
            },
    )
}

/// The edges, copied through unchanged in input order.
pub open spec fn spec_scene_edges(g: GraphView) -> Seq<SceneEdgeView> {
    g.edges.map_values(
        |e: EdgeView|
            SceneEdgeView { from: e.from, to: e.to, seen: e.seen, rtt_delta_us: e.rtt_delta_us },
    )
}

/// The whole layout as a mathematical function of the graph and the seed.
/// An empty node list gives the empty scene.
pub open spec fn spec_layout(g: GraphView, seed: u64) -> SceneView {
    if g.nodes.len() == 0 {
        SceneView { version: 1, nodes: Seq::empty(), edges: Seq::empty() }
    } else {
        SceneView { version: 1, nodes: spec_scene_nodes(g, seed), edges: spec_scene_edges(g) }
    }
}

/// The byte views of a list of byte vectors.
pub open spec fn views(s: Seq<Vec<u8>>) -> Seq<Seq<u8>> {
    s.map_values(|v: Vec<u8>| v@)
}

/// The views of an edge list.
pub open spec fn edge_views(s: Seq<Edge>) -> Seq<EdgeView> {
    s.map_values(|e: Edge| e@)
}

/// Collect every id the document mentions, in document order.
fn id_list(graph: &GraphFile) -> (r: Vec<Vec<u8>>)
    ensures
        views(r@) == spec_all_ids(graph@),
{
    let mut out: Vec<Vec<u8>> = Vec::new();
    let n = graph.nodes.len();
    let mut i: usize = 0;
    while i < n
        invariant
            i <= n,
            n == graph.nodes@.len(),
            views(out@) =~= spec_node_ids(graph@.nodes).take(i as int),
        decreases n - i,
    {
        let b = graph.nodes[i].id.as_str().as_bytes_vec();
        proof {
            assert(b@ == graph@.nodes[i as int].id);
            assert(spec_node_ids(graph@.nodes)[i as int] == graph@.nodes[i as int].id);
        }
        let ghost bv = b@;
        let ghost oldseq = out@;
        out.push(b);
        proof {
            assert(spec_node_ids(graph@.nodes).len() == n);
            assert(views(oldseq).len() == oldseq.len());
            assert(views(oldseq) == spec_node_ids(graph@.nodes).take(i as int));
            assert(spec_node_ids(graph@.nodes).take(i as int).len() == i);
            assert(oldseq.len() == i);
            assert(out@ == oldseq.push(b));
            assert forall|k: int| 0 <= k <= i implies views(out@)[k] == spec_node_ids(
                graph@.nodes,
            ).take(i + 1)[k] by {
                if k < i {
                    assert(out@[k] == oldseq[k]);
                    assert(views(out@)[k] == oldseq[k]@);
                    assert(oldseq[k]@ == views(oldseq)[k]);
                } else {
                    assert(out@[k]@ == bv);
                }
            }
            assert(views(out@) =~= spec_node_ids(graph@.nodes).take(i + 1));
        }
        i += 1;
    }
    proof {
        assert(spec_node_ids(graph@.nodes).take(n as int) =~= spec_node_ids(graph@.nodes));
    }
    let m = graph.edges.len();
    let mut j: usize = 0;
    while j < m
        invariant
            j <= m,
            m == graph.edges@.len(),
            views(out@) =~= spec_all_ids(graph@).take(graph.nodes@.len() + 2 * j),
        decreases m - j,
    {
        let bf = graph.edges[j].from.as_str().as_bytes_vec();
        let bt = graph.edges[j].to.as_str().as_bytes_vec();
        proof {
            let base = graph.nodes@.len() as int;
            assert(bf@ == graph@.edges[j as int].from);
            assert(bt@ == graph@.edges[j as int].to);
            assert((2 * j) % 2 == 0 && (2 * j + 1) % 2 == 1 && (2 * j) / 2 == j && (2 * j + 1)
                / 2 == j);
            assert(spec_all_ids(graph@)[base + 2 * j] == graph@.edges[j as int].from);
            assert(spec_all_ids(graph@)[base + 2 * j + 1] == graph@.edges[j as int].to);
        }
        let ghost bfv = bf@;
        let ghost btv = bt@;
        let ghost oldseq = out@;
        out.push(bf);
        out.push(bt);
        proof {
            let base = graph.nodes@.len() as int;
            let all = spec_all_ids(graph@);
            assert(all.len() == base + 2 * m);
            assert(views(oldseq).len() == oldseq.len());
            assert(all.take(base + 2 * j).len() == base + 2 * j);
            assert(oldseq.len() == base + 2 * j);
            assert(out@ == oldseq.push(bf).push(bt));
            assert forall|k: int| 0 <= k < base + 2 * (j + 1) implies views(out@)[k] == all.take(
                base + 2 * (j + 1),
            )[k] by {
                if k < base + 2 * j {
                    assert(out@[k] == oldseq[k]);
                    assert(views(out@)[k] == oldseq[k]@);
                    assert(oldseq[k]@ == views(oldseq)[k]);
                } else if k == base + 2 * j {
                    assert(out@[k]@ == bfv);
                } else {
                    assert(out@[k]@ == btv);
                }
            }
            assert(views(out@) =~= all.take(base + 2 * (j + 1)));
        }
        j += 1;
    }
    proof {
        assert(spec_all_ids(graph@).take(graph.nodes@.len() + 2 * m) =~= spec_all_ids(graph@));
    }
    out
}

/// Linear membership test among collected ids.
fn contains_in(u: &Vec<Vec<u8>>, x: &[u8]) -> (r: bool)
    ensures
        r == views(u@).contains(x@),
{
    let n = u.len();
    let mut i: usize = 0;
    while i < n
        invariant
            i <= n,
            n == u@.len(),
            forall|k: int| 0 <= k < i ==> views(u@)[k] != x@,
        decreases n - i,
    {
        if bytes_eq(u[i].as_slice(), x) {
            proof {
                assert(views(u@)[i as int] == x@);
            }
            return true;
        }
        i += 1;
    }
    proof {
        if views(u@).contains(x@) {
            let k = choose|k: int| 0 <= k < views(u@).len() && views(u@)[k] == x@;
            assert(false);
        }
    }
    false
}

/// Keep the first occurrence of every id.
fn universe_of(ids: &Vec<Vec<u8>>) -> (r: Vec<Vec<u8>>)
    ensures
        views(r@) == spec_dedup_first(views(ids@)),
{
    let mut out: Vec<Vec<u8>> = Vec::new();
    let n = ids.len();
    let mut i: usize = 0;
    proof {
        assert(views(ids@).take(0) =~= Seq::<Seq<u8>>::empty());
        assert(views(out@) =~= Seq::<Seq<u8>>::empty());
    }
    while i < n
        invariant
            i <= n,
            n == ids@.len(),
            views(out@) == spec_dedup_first(views(ids@).take(i as int)),
        decreases n - i,
    {
        proof {
            assert(views(ids@).take(i + 1).drop_last() =~= views(ids@).take(i as int));
            assert(views(ids@).take(i + 1).last() == views(ids@)[i as int]);
        }
        if !contains_in(&out, ids[i].as_slice()) {
            let b = ids[i].clone();
            proof {
                assert(b@ == ids@[i as int]@);
            }
            out.push(b);
            proof {
                assert(views(out@) =~= spec_dedup_first(views(ids@).take(i + 1)));
            }
        }
        i += 1;
    }
    proof {
        assert(views(ids@).take(n as int) =~= views(ids@));
    }
    out
}

/// First position of a known id in the universe.
fn find_idx(u: &Vec<Vec<u8>>, x: &[u8]) -> (r: usize)
    requires
        views(u@).contains(x@),
    ensures
        r == spec_idx_of(views(u@), x@),
        r < u@.len(),
        views(u@)[r as int] == x@,
{
    let n = u.len();
    let mut i: usize = 0;
    proof {
        assert(views(u@).skip(0) =~= views(u@));
    }
    while i < n
        invariant
            i <= n,
            n == u@.len(),
            spec_idx_of(views(u@), x@) == i + spec_idx_of(views(u@).skip(i as int), x@),
            forall|k: int| 0 <= k < i ==> views(u@)[k] != x@,
        decreases n - i,
    {
        proof {
            assert(views(u@).skip(i as int)[0] == views(u@)[i as int]);
            assert(views(u@).skip(i as int).drop_first() =~= views(u@).skip(i + 1));
        }
        if bytes_eq(u[i].as_slice(), x) {
            proof {
                lemma_idx_of_present(views(u@), x@);
            }
            return i;
        }
        i += 1;
    }
    proof {
        let k = choose|k: int| 0 <= k < views(u@).len() && views(u@)[k] == x@;
        assert(false);
    }
    0
}

/// Count the edges pointing at an id.
fn indeg_count(edges: &Vec<Edge>, id: &[u8]) -> (r: usize)
    ensures
        r == spec_indeg(edge_views(edges@), id@),
        r <= edges@.len(),
{
    let m = edges.len();
    let mut count: usize = 0;
    let mut j: usize = 0;
    proof {
        assert(edge_views(edges@).take(0) =~= Seq::<EdgeView>::empty());
    }
    while j < m
        invariant
            j <= m,
            m == edges@.len(),
            count <= j,
            count == spec_indeg(edge_views(edges@).take(j as int), id@),
        decreases m - j,
    {
        proof {
            assert(edge_views(edges@).take(j + 1).drop_last() =~= edge_views(edges@).take(
                j as int,
            ));
            assert(edge_views(edges@).take(j + 1).last() == edge_views(edges@)[j as int]);
        }
        if bytes_eq(edges[j].to.as_str().as_bytes(), id) {
            count += 1;
        }
        j += 1;
    }
    proof {
        assert(edge_views(edges@).take(m as int) =~= edge_views(edges@));
    }
    count
}

/// Count the edges leaving an id.
fn outdeg_count(edges: &Vec<Edge>, id: &[u8]) -> (r: usize)
    ensures
        r == spec_outdeg(edge_views(edges@), id@),
        r <= edges@.len(),
{
    let m = edges.len();
    let mut count: usize = 0;
    let mut j: usize = 0;
    proof {
        assert(edge_views(edges@).take(0) =~= Seq::<EdgeView>::empty());
    }
    while j < m
        invariant
            j <= m,
            m == edges@.len(),
            count <= j,
            count == spec_outdeg(edge_views(edges@).take(j as int), id@),
        decreases m - j,
    {
        proof {
            assert(edge_views(edges@).take(j + 1).drop_last() =~= edge_views(edges@).take(
                j as int,
            ));
            assert(edge_views(edges@).take(j + 1).last() == edge_views(edges@)[j as int]);
        }
        if bytes_eq(edges[j].from.as_str().as_bytes(), id) {
            count += 1;
        }
        j += 1;
    }
    proof {
        assert(edge_views(edges@).take(m as int) =~= edge_views(edges@));
    }
    count
}

/// The minimum in-degree over the universe.
fn min_indeg_of(edges: &Vec<Edge>, u: &Vec<Vec<u8>>) -> (r: usize)
    requires
        u@.len() > 0,
    ensures
        r == spec_min_indeg(edge_views(edges@), views(u@)),
{
    let n = u.len();
    let mut m = indeg_count(edges, u[0].as_slice());
    let mut j: usize = 1;
    proof {
        assert(views(u@).take(1)[0] == views(u@)[0]);
    }
    while j < n
        invariant
            1 <= j <= n,
            n == u@.len(),
            m == spec_min_indeg(edge_views(edges@), views(u@).take(j as int)),
        decreases n - j,
    {
        proof {
            assert(views(u@).take(j + 1).drop_last() =~= views(u@).take(j as int));
            assert(views(u@).take(j + 1).last() == views(u@)[j as int]);
        }
        let c = indeg_count(edges, u[j].as_slice());
        if c < m {
            m = c;
        }
        j += 1;
    }
    proof {
        assert(views(u@).take(n as int) =~= views(u@));
    }
    m
}

/// The bucket of `d` is at most `k` once `d` is below 2^k.
pub proof fn lemma_bucket_below_pow2(d: int, k: nat)
    requires
        0 <= d,
        d < vstd::arithmetic::power2::pow2(k),
    ensures
        spec_bucket(d) <= k,
    decreases k,
{
    vstd::arithmetic::power2::lemma_pow2_pos(k);
    if d < 2 {
    } else {
        if k < 2 {
            vstd::arithmetic::power2::lemma2_to64();
            assert(vstd::arithmetic::power2::pow2(k) <= 2);
        }
        assert(vstd::arithmetic::power2::pow2(k) == 2 * vstd::arithmetic::power2::pow2(
            (k - 1) as nat,
        )) by {
            vstd::arithmetic::power2::lemma_pow2_unfold(k);
        };
        lemma_bucket_below_pow2(d / 2, (k - 1) as nat);
    }
}

/// The bucket is non-negative.
pub proof fn lemma_bucket_nonneg(d: int)
    ensures
        spec_bucket(d) >= 0,
    decreases d,
{
    if d >= 2 {
        lemma_bucket_nonneg(d / 2);
    }
}

/// floor(log2(d)) for positive d, zero for zero.
pub fn degree_bucket(d: usize) -> (r: usize)
    ensures
        r == spec_bucket(d as int),
        r <= 64,
{
    proof {
        vstd::arithmetic::power2::lemma2_to64_rest();
        lemma_bucket_below_pow2(d as int, 64);
    }
    let mut x = d;
    let mut b: usize = 0;
    while x >= 2
        invariant
            x <= d,
            spec_bucket(d as int) == b + spec_bucket(x as int),
            spec_bucket(d as int) <= 64,
        decreases x,
    {
        proof {
            lemma_bucket_nonneg(x as int / 2);
        }
        x = x / 2;
        b += 1;
    }
    b
}

/// Index pairs as unbounded integers.
pub open spec fn pairs_int(s: Seq<(usize, usize)>) -> Seq<(int, int)> {
    s.map_values(|p: (usize, usize)| (p.0 as int, p.1 as int))
}

/// Depth vectors as unbounded integers.
pub open spec fn ints_of(s: Seq<usize>) -> Seq<int> {
    s.map_values(|x: usize| x as int)
}

/// Deduplication never grows a sequence.
pub proof fn lemma_dedup_len(s: Seq<Seq<u8>>)
    ensures
        spec_dedup_first(s).len() <= s.len(),
    decreases s.len(),
{
    if s.len() > 0 {
        lemma_dedup_len(s.drop_last());
    }
}

/// Every edge endpoint is a member of the universe.
pub open spec fn endpoints_in(g: GraphView, u: Seq<Seq<u8>>) -> bool {
    forall|i: int|
        0 <= i < g.edges.len() ==> u.contains(#[trigger] g.edges[i].from) && u.contains(
            g.edges[i].to,
        )
}

/// Resolve every edge to a pair of universe indices.
fn edge_pairs_of(graph: &GraphFile, u: &Vec<Vec<u8>>) -> (r: Vec<(usize, usize)>)
    requires
        endpoints_in(graph@, views(u@)),
    ensures
        pairs_int(r@) == spec_edge_pairs(graph@, views(u@)),
        r@.len() == graph@.edges.len(),
        forall|i: int|
            0 <= i < r@.len() ==> (#[trigger] r@[i]).0 < u@.len() && r@[i].1 < u@.len(),
{
    let m = graph.edges.len();
    let mut out: Vec<(usize, usize)> = Vec::new();
    let mut j: usize = 0;
    while j < m
        invariant
            j <= m,
            m == graph.edges@.len(),
            out@.len() == j,
            endpoints_in(graph@, views(u@)),
            forall|i: int|
                0 <= i < j ==> pairs_int(out@)[i] == spec_edge_pairs(graph@, views(u@))[i],
            forall|i: int|
                0 <= i < j ==> (#[trigger] out@[i]).0 < u@.len() && out@[i].1 < u@.len(),
        decreases m - j,
    {
        proof {
            assert(views(u@).contains(graph@.edges[j as int].from));
            assert(views(u@).contains(graph@.edges[j as int].to));
        }
        let f = find_idx(u, graph.edges[j].from.as_str().as_bytes());
        let t = find_idx(u, graph.edges[j].to.as_str().as_bytes());
        let ghost oldseq = out@;
        out.push((f, t));
        proof {
            assert forall|i: int| 0 <= i <= j implies pairs_int(out@)[i] == spec_edge_pairs(
                graph@,
                views(u@),
            )[i] by {
                if i < j {
                    assert(out@[i] == oldseq[i]);
                    assert(pairs_int(oldseq)[i] == spec_edge_pairs(graph@, views(u@))[i]);
                } else {
                    assert(out@[i] == (f, t));
                    assert(spec_edge_pairs(graph@, views(u@))[i] == (
                        spec_idx_of(views(u@), graph@.edges[i].from),
                        spec_idx_of(views(u@), graph@.edges[i].to),
                    ));
                }
            }
            assert forall|i: int| 0 <= i <= j implies (#[trigger] out@[i]).0 < u@.len()
                && out@[i].1 < u@.len() by {
                if i < j {
                    assert(out@[i] == oldseq[i]);
                    assert(oldseq[i].0 < u@.len() && oldseq[i].1 < u@.len());
                }
            }
        }
        j += 1;
    }
    proof {
        assert(pairs_int(out@) =~= spec_edge_pairs(graph@, views(u@)));
    }
    out
}

/// The initial depth of every universe id: zero on the start set.
fn init_depths(graph: &GraphFile, u: &Vec<Vec<u8>>) -> (r: Vec<usize>)
    requires
        u@.len() > 0,
        u@.len() <= 0x4000_0000,
    ensures
        ints_of(r@) == spec_init_depths(graph@, views(u@)),
        r@.len() == u@.len(),
        forall|i: int| 0 <= i < r@.len() ==> #[trigger] r@[i] <= u@.len(),
{
    proof {
        assert(graph@.edges =~= edge_views(graph.edges@));
    }
    let n = u.len();
    let mi = min_indeg_of(&graph.edges, u);
    let mut out: Vec<usize> = Vec::new();
    let mut v: usize = 0;
    while v < n
        invariant
            v <= n,
            n == u@.len(),
            out@.len() == v,
            graph@.edges =~= edge_views(graph.edges@),
            mi == spec_min_indeg(graph@.edges, views(u@)),
            forall|i: int|
                0 <= i < v ==> ints_of(out@)[i] == spec_init_depths(graph@, views(u@))[i],
            forall|i: int| 0 <= i < v ==> #[trigger] out@[i] <= n,
        decreases n - v,
    {
        let c = indeg_count(&graph.edges, u[v].as_slice());
        let ghost oldseq = out@;
        if c == mi {
            out.push(0);
        } else {
            out.push(n);
        }
        proof {
            assert forall|i: int| 0 <= i <= v implies ints_of(out@)[i] == spec_init_depths(
                graph@,
                views(u@),
            )[i] by {
                if i < v {
                    assert(out@[i] == oldseq[i]);
                    assert(ints_of(oldseq)[i] == spec_init_depths(graph@, views(u@))[i]);
                } else {
                    assert(views(u@)[i] == u@[i]@);
                }
            }
            assert forall|i: int| 0 <= i <= v implies #[trigger] out@[i] <= n by {
                if i < v {
                    assert(out@[i] == oldseq[i]);
                }
            }
        }
        v += 1;
    }
    proof {
        assert(ints_of(out@) =~= spec_init_depths(graph@, views(u@)));
    }
    out
}

/// One relaxation round.
fn relax_round(d: &Vec<usize>, eidx: &Vec<(usize, usize)>, cap: usize) -> (r: Vec<usize>)
    requires
        cap <= 0x4000_0000,
        forall|i: int| 0 <= i < d@.len() ==> #[trigger] d@[i] <= cap,
        forall|i: int|
            0 <= i < eidx@.len() ==> (#[trigger] eidx@[i]).0 < d@.len() && eidx@[i].1 < d@.len(),
    ensures
        ints_of(r@) == spec_step(ints_of(d@), pairs_int(eidx@)),
        r@.len() == d@.len(),
        forall|i: int| 0 <= i < r@.len() ==> #[trigger] r@[i] <= cap,
{
    let n = d.len();
    let m = eidx.len();
    let mut out: Vec<usize> = Vec::new();
    let mut v: usize = 0;
    while v < n
        invariant
            v <= n,
            n == d@.len(),
            m == eidx@.len(),
            cap <= 0x4000_0000,
            out@.len() == v,
            forall|i: int| 0 <= i < d@.len() ==> #[trigger] d@[i] <= cap,
            forall|i: int|
                0 <= i < eidx@.len() ==> (#[trigger] eidx@[i]).0 < d@.len() && eidx@[i].1
                    < d@.len(),
            forall|i: int|
                0 <= i < v ==> ints_of(out@)[i] == spec_step(ints_of(d@), pairs_int(eidx@))[i],
            forall|i: int| 0 <= i < v ==> #[trigger] out@[i] <= cap,
        decreases n - v,
    {
        let mut best = d[v];
        let mut j: usize = 0;
        proof {
            assert(pairs_int(eidx@).take(0) =~= Seq::<(int, int)>::empty());
        }
        while j < m
            invariant
                j <= m,
                v < n,
                n == d@.len(),
                m == eidx@.len(),
                cap <= 0x4000_0000,
                best <= cap,
                forall|i: int| 0 <= i < d@.len() ==> #[trigger] d@[i] <= cap,
                forall|i: int|
                    0 <= i < eidx@.len() ==> (#[trigger] eidx@[i]).0 < d@.len() && eidx@[i].1
                        < d@.len(),
                best as int == spec_relax_at(
                    ints_of(d@),
                    pairs_int(eidx@).take(j as int),
                    v as int,
                ),
            decreases m - j,
        {
            proof {
                assert(pairs_int(eidx@).take(j + 1).drop_last() =~= pairs_int(eidx@).take(
                    j as int,
                ));
                assert(pairs_int(eidx@).take(j + 1).last() == pairs_int(eidx@)[j as int]);
            }
            let e = eidx[j];
            if e.1 == v {
                let c = d[e.0] + 1;
                if c < best {
                    best = c;
                }
            }
            j += 1;
        }
        proof {
            assert(pairs_int(eidx@).take(m as int) =~= pairs_int(eidx@));
        }
        let ghost oldseq = out@;
        out.push(best);
        proof {
            assert forall|i: int| 0 <= i <= v implies ints_of(out@)[i] == spec_step(
                ints_of(d@),
                pairs_int(eidx@),
            )[i] by {
                if i < v {
                    assert(out@[i] == oldseq[i]);
                    assert(ints_of(oldseq)[i] == spec_step(ints_of(d@), pairs_int(eidx@))[i]);
                } else {
                    assert(out@[i] == best);
                }
            }
            assert forall|i: int| 0 <= i <= v implies #[trigger] out@[i] <= cap by {
                if i < v {
                    assert(out@[i] == oldseq[i]);
                }
            }
        }
        v += 1;
    }
    proof {
        assert(ints_of(out@) =~= spec_step(ints_of(d@), pairs_int(eidx@)));
    }
    out
}

/// Run one relaxation round per universe id.
fn compute_depths(graph: &GraphFile, u: &Vec<Vec<u8>>, eidx: &Vec<(usize, usize)>) -> (r: Vec<
    usize,
>)
    requires
        u@.len() > 0,
        u@.len() <= 0x4000_0000,
        pairs_int(eidx@) == spec_edge_pairs(graph@, views(u@)),
        forall|i: int|
            0 <= i < eidx@.len() ==> (#[trigger] eidx@[i]).0 < u@.len() && eidx@[i].1 < u@.len(),
        views(u@) == spec_universe(graph@),
    ensures
        ints_of(r@) == spec_depths(graph@),
        r@.len() == u@.len(),
        forall|i: int| 0 <= i < r@.len() ==> #[trigger] r@[i] <= u@.len(),
{
    let n = u.len();
    let mut d = init_depths(graph, u);
    let mut round: usize = 0;
    while round < n
        invariant
            round <= n,
            n == u@.len(),
            n <= 0x4000_0000,
            d@.len() == n,
            pairs_int(eidx@) == spec_edge_pairs(graph@, views(u@)),
            forall|i: int|
                0 <= i < eidx@.len() ==> (#[trigger] eidx@[i]).0 < u@.len() && eidx@[i].1
                    < u@.len(),
            forall|i: int| 0 <= i < d@.len() ==> #[trigger] d@[i] <= n,
            ints_of(d@) == spec_iter_depths(
                spec_init_depths(graph@, views(u@)),
                spec_edge_pairs(graph@, views(u@)),
                round as nat,
            ),
        decreases n - round,
    {
        d = relax_round(&d, eidx, n);
        round += 1;
    }
    d
}

/// The largest reached depth, or -1 when nothing is reached.
fn max_reached_of(d: &Vec<usize>, cap: usize) -> (r: i64)
    requires
        cap <= 0x4000_0000,
        forall|i: int| 0 <= i < d@.len() ==> #[trigger] d@[i] <= cap,
    ensures
        r as int == spec_max_reached(ints_of(d@), cap as int),
        -1 <= r < cap as i64,
{
    let n = d.len();
    let mut m: i64 = -1;
    let mut j: usize = 0;
    proof {
        assert(ints_of(d@).take(0) =~= Seq::<int>::empty());
    }
    while j < n
        invariant
            j <= n,
            n == d@.len(),
            cap <= 0x4000_0000,
            forall|i: int| 0 <= i < d@.len() ==> #[trigger] d@[i] <= cap,
            -1 <= m < cap as i64,
            m as int == spec_max_reached(ints_of(d@).take(j as int), cap as int),
        decreases n - j,
    {
        proof {
            assert(ints_of(d@).take(j + 1).drop_last() =~= ints_of(d@).take(j as int));
            assert(ints_of(d@).take(j + 1).last() == ints_of(d@)[j as int]);
        }
        let dv = d[j];
        if dv < cap && (dv as i64) > m {
            m = dv as i64;
        }
        j += 1;
    }
    proof {
        assert(ints_of(d@).take(n as int) =~= ints_of(d@));
    }
    m
}

/// Inserting an element anywhere adds exactly it to the multiset of elements.
pub proof fn lemma_to_multiset_insert<A>(s: Seq<A>, p: int, x: A)
    requires
        0 <= p <= s.len(),
    ensures
        s.insert(p, x).to_multiset() == s.to_multiset().insert(x),
{
    broadcast use vstd::seq_lib::group_to_multiset_ensures;
    broadcast use vstd::multiset::group_multiset_axioms;

    let left = s.subrange(0, p);
    let right = s.subrange(p, s.len() as int);
    assert(s.insert(p, x) == left.push(x) + right);
    assert(s =~= left + right);
    vstd::seq_lib::lemma_multiset_commutative(left.push(x), right);
    vstd::seq_lib::lemma_multiset_commutative(left, right);
    assert(left.push(x).to_multiset() =~= left.to_multiset().insert(x));
    assert((left.to_multiset().insert(x)).add(right.to_multiset()) =~= (left.to_multiset().add(
        right.to_multiset(),
    )).insert(x));
}

/// Compare two nodes in output order: by id bytes, ties by input position.
fn node_le(graph: &GraphFile, a: usize, b: usize) -> (r: bool)
    requires
        a < graph.nodes@.len(),
        b < graph.nodes@.len(),
    ensures
        r == node_leq(graph@.nodes)(a, b),
{
    let ba = graph.nodes[a].id.as_str().as_bytes();
    let bb = graph.nodes[b].id.as_str().as_bytes();
    proof {
        assert(ba@ == graph@.nodes[a as int].id);
        assert(bb@ == graph@.nodes[b as int].id);
    }
    if bytes_eq(ba, bb) {
        a <= b
    } else {
        bytes_lt(ba, bb)
    }
}

/// The identity permutation over the node list.
pub open spec fn spec_ident(n: nat) -> Seq<usize> {
    Seq::new(n, |k: int| k as usize)
}

/// Sort the node indices into output order by insertion.
fn sorted_node_order(graph: &GraphFile) -> (r: Vec<usize>)
    ensures
        r@ == spec_node_order(graph@),
        r@.len() == graph.nodes@.len(),
        forall|k: int| 0 <= k < r@.len() ==> #[trigger] r@[k] < graph.nodes@.len(),
{
    let n = graph.nodes.len();
    let mut perm: Vec<usize> = Vec::new();
    let mut i: usize = 0;
    proof {
        broadcast use vstd::seq_lib::group_to_multiset_ensures;

        assert(spec_ident(graph@.nodes.len()).take(0) =~= Seq::<usize>::empty());
        assert(perm@.to_multiset() =~= spec_ident(graph@.nodes.len()).take(0).to_multiset());
    }
    while i < n
        invariant
            i <= n,
            n == graph.nodes@.len(),
            n == graph@.nodes.len(),
            perm@.len() == i,
            forall|k: int| 0 <= k < i ==> #[trigger] perm@[k] < i,
            sorted_by(perm@, node_leq(graph@.nodes)),
            perm@.to_multiset() == spec_ident(graph@.nodes.len()).take(i as int).to_multiset(),
        decreases n - i,
    {
        let mut p: usize = 0;
        while p < i && node_le(graph, perm[p], i)
            invariant
                p <= i,
                i < n,
                n == graph.nodes@.len(),
                n == graph@.nodes.len(),
                perm@.len() == i,
                forall|k: int| 0 <= k < i ==> #[trigger] perm@[k] < i,
                forall|k: int| 0 <= k < p ==> node_leq(graph@.nodes)(#[trigger] perm@[k], i as usize),
            decreases i - p,
        {
            p += 1;
        }
        let ghost olds = perm@;
        let ghost leq = node_leq(graph@.nodes);
        perm.insert(p, i);
        proof {
            broadcast use vstd::seq_lib::group_to_multiset_ensures;

            lemma_node_leq_total(graph@.nodes);
            olds.insert_ensures(p as int, i as usize);
            assert(perm@ == olds.insert(p as int, i as usize));
            // order: scanned elements come before, the rest after
            assert forall|a: int, b: int| 0 <= a < b < perm@.len() implies leq(
                perm@[a],
                perm@[b],
            ) by {
                if b < p {
                    assert(perm@[a] == olds[a] && perm@[b] == olds[b]);
                } else if a > p {
                    assert(perm@[a] == olds[a - 1] && perm@[b] == olds[b - 1]);
                } else if a < p && b == p {
                    assert(perm@[a] == olds[a]);
                    assert(leq(olds[a], i as usize));
                } else if a == p && b > p {
                    assert(perm@[b] == olds[b - 1]);
                    if p < olds.len() {
                        assert(!leq(olds[p as int], i as usize));
                        assert(leq(i as usize, olds[p as int]));
                        if b - 1 > p {
                            assert(leq(olds[p as int], olds[b - 1]));
                        }
                    }
                } else if a < p && b > p {
                    assert(perm@[a] == olds[a] && perm@[b] == olds[b - 1]);
                    assert(leq(olds[a], i as usize));
                    if p < olds.len() {
                        assert(leq(i as usize, olds[p as int]));
                        if b - 1 > p {
                            assert(leq(olds[p as int], olds[b - 1]));
                        }
                    }
                }
            }
            // membership: exactly the indices 0..=i
            lemma_to_multiset_insert(olds, p as int, i as usize);
            assert(spec_ident(graph@.nodes.len()).take(i + 1).drop_last() =~= spec_ident(
                graph@.nodes.len(),
            ).take(i as int));
            assert(spec_ident(graph@.nodes.len()).take(i + 1) =~= spec_ident(
                graph@.nodes.len(),
            ).take(i as int).push(i as usize));
            assert(perm@.to_multiset() =~= spec_ident(graph@.nodes.len()).take(
                i + 1,
            ).to_multiset());
            // bounds
            assert forall|k: int| 0 <= k < perm@.len() implies #[trigger] perm@[k] < i + 1 by {
                if k < p {
                    assert(perm@[k] == olds[k]);
                } else if k > p {
                    assert(perm@[k] == olds[k - 1]);
                }
            }
        }
        i += 1;
    }
    proof {
        lemma_node_leq_total(graph@.nodes);
        let ident = spec_ident(graph@.nodes.len());
        assert(ident.take(n as int) =~= ident);
        ident.lemma_sort_by_ensures(node_leq(graph@.nodes));
        vstd::seq_lib::lemma_sorted_unique(
            perm@,
            ident.sort_by(node_leq(graph@.nodes)),
            node_leq(graph@.nodes),
        );
        assert(ident == Seq::new(graph@.nodes.len(), |k: int| k as usize));
        assert(perm@ =~= spec_node_order(graph@));
    }
    perm
}

/// Every node id is a member of the universe.
pub open spec fn node_ids_in(g: GraphView, u: Seq<Seq<u8>>) -> bool {
    forall|i: int| 0 <= i < g.nodes.len() ==> u.contains(#[trigger] g.nodes[i].id)
}

/// Lay the graph out.
///
/// The scene is a pure function of the graph and the seed (`spec_layout`):
/// running the layout twice on the same input gives the same scene, value for
/// value, and two seeds can differ only in the z-jitter of each node.
/// The size bounds keep every fixed-point coordinate inside the engine range.
pub fn layout_graph(graph: &GraphFile, seed: u64) -> (r: SceneFile)
    requires
        graph.nodes@.len() <= 0x1000_0000,
        graph.edges@.len() <= 0x1000_0000,
    ensures
        r@ == spec_layout(graph@, seed),
{
    if graph.nodes.len() == 0 {
        let r = SceneFile { version: 1, nodes: Vec::new(), edges: Vec::new() };
        proof {
            assert(r@.nodes =~= spec_layout(graph@, seed).nodes);
            assert(r@.edges =~= spec_layout(graph@, seed).edges);
        }
        return r;
    }
    let ids = id_list(graph);
    let u = universe_of(&ids);
    proof {
        assert forall|i: int| 0 <= i < graph@.nodes.len() implies views(u@).contains(
            #[trigger] graph@.nodes[i].id,
        ) by {
            assert(spec_all_ids(graph@)[i] == graph@.nodes[i].id);
            assert(spec_all_ids(graph@).contains(graph@.nodes[i].id));
            lemma_dedup_contains(spec_all_ids(graph@), graph@.nodes[i].id);
        }
        assert forall|i: int| 0 <= i < graph@.edges.len() implies views(u@).contains(
            #[trigger] graph@.edges[i].from,
        ) && views(u@).contains(graph@.edges[i].to) by {
            let base = graph@.nodes.len() as int;
            assert((2 * i) % 2 == 0 && (2 * i) / 2 == i && (2 * i + 1) % 2 == 1 && (2 * i + 1)
                / 2 == i);
            assert(spec_all_ids(graph@)[base + 2 * i] == graph@.edges[i].from);
            assert(spec_all_ids(graph@)[base + 2 * i + 1] == graph@.edges[i].to);
            assert(spec_all_ids(graph@).contains(graph@.edges[i].from));
            assert(spec_all_ids(graph@).contains(graph@.edges[i].to));
            lemma_dedup_contains(spec_all_ids(graph@), graph@.edges[i].from);
            lemma_dedup_contains(spec_all_ids(graph@), graph@.edges[i].to);
        }
        lemma_dedup_len(spec_all_ids(graph@));
        assert(views(u@).contains(graph@.nodes[0].id));
    }
    let n_u = u.len();
    let eidx = edge_pairs_of(graph, &u);
    let d = compute_depths(graph, &u, &eidx);
    let maxr = max_reached_of(&d, n_u);
    let order = sorted_node_order(graph);
    let n = graph.nodes.len();
    let mut nodes_out: Vec<SceneNode> = Vec::new();
    let mut k: usize = 0;
    while k < n
        invariant
            k <= n,
            n == graph.nodes@.len(),
            n == graph@.nodes.len(),
            graph.edges@.len() <= 0x1000_0000,
            nodes_out@.len() == k,
            order@ == spec_node_order(graph@),
            order@.len() == n,
            forall|q: int| 0 <= q < order@.len() ==> #[trigger] order@[q] < n,
            views(u@) == spec_universe(graph@),
            node_ids_in(graph@, views(u@)),
            n_u == u@.len(),
            0 < n_u <= 0x3000_0001,
            ints_of(d@) == spec_depths(graph@),
            d@.len() == n_u,
            forall|q: int| 0 <= q < d@.len() ==> #[trigger] d@[q] <= n_u,
            maxr as int == spec_max_reached(spec_depths(graph@), n_u as int),
            -1 <= maxr < n_u as i64,
            forall|q: int|
                0 <= q < k ==> nodes_out@[q]@ == spec_scene_nodes(graph@, seed)[q],
        decreases n - k,
    {
        let i = order[k];
        let idb = graph.nodes[i].id.as_str().as_bytes();
        proof {
            assert(idb@ == graph@.nodes[i as int].id);
            assert(views(u@).contains(idb@));
        }
        let ui = find_idx(&u, idb);
        let dv = d[ui];
        let xi: i64 = if dv < n_u {
            dv as i64
        } else {
            maxr + 1
        };
        let x_q: i64 = xi * 65536;
        proof {
            assert(graph@.edges =~= edge_views(graph.edges@));
            assert(spec_x_depth(graph@, idb@) == xi);
        }
        let indeg = indeg_count(&graph.edges, idb);
        let outdeg = outdeg_count(&graph.edges, idb);
        let deg = indeg + outdeg;
        let b = degree_bucket(deg);
        let y_q: i64 = (b as i64) * 131072;
        let z_q = jitter_q(seed, graph.nodes[i].id.as_str());
        let sn = SceneNode {
            id: graph.nodes[i].id.clone(),
            position: Vec3q { x: x_q, y: y_q, z: z_q },
            seen: graph.nodes[i].seen,
            loss_probes: graph.nodes[i].loss_probes,
        };
        proof {
            assert(spec_degree(graph@, idb@) == deg);
            assert(spec_position(graph@, seed, idb@) == sn.position);
            assert(sn@ == spec_scene_nodes(graph@, seed)[k as int]);
        }
        let ghost olds = nodes_out@;
        nodes_out.push(sn);
        proof {
            assert forall|q: int| 0 <= q <= k implies nodes_out@[q]@ == spec_scene_nodes(
                graph@,
                seed,
            )[q] by {
                if q < k {
                    assert(nodes_out@[q] == olds[q]);
                    assert(olds[q]@ == spec_scene_nodes(graph@, seed)[q]);
                }
            }
        }
        k += 1;
    }
    let m = graph.edges.len();
    let mut edges_out: Vec<SceneEdge> = Vec::new();
    let mut j: usize = 0;
    while j < m
        invariant
            j <= m,
            m == graph.edges@.len(),
            m == graph@.edges.len(),
            edges_out@.len() == j,
            forall|q: int| 0 <= q < j ==> edges_out@[q]@ == spec_scene_edges(graph@)[q],
        decreases m - j,
    {
        let e = &graph.edges[j];
        let se = SceneEdge {
            from: e.from.clone(),
            to: e.to.clone(),
            seen: e.seen,
            rtt_delta_us: e.rtt_delta_us,
        };
        proof {
            assert(se@ == spec_scene_edges(graph@)[j as int]);
        }
        let ghost olds = edges_out@;
        edges_out.push(se);
        proof {
            assert forall|q: int| 0 <= q <= j implies edges_out@[q]@ == spec_scene_edges(
                graph@,
            )[q] by {
                if q < j {
                    assert(edges_out@[q] == olds[q]);
                    assert(olds[q]@ == spec_scene_edges(graph@)[q]);
                }
            }
        }
        j += 1;
    }
    let r = SceneFile { version: 1, nodes: nodes_out, edges: edges_out };
    proof {
        assert(r@.nodes =~= spec_scene_nodes(graph@, seed));
        assert(r@.edges =~= spec_scene_edges(graph@));
    }
    r
}

/// Determinism: the scene is a mathematical function of (graph, seed), so two
/// layout results over the same input are equal, value for value.
pub proof fn lemma_layout_deterministic(g: GraphView, seed: u64, a: SceneView, b: SceneView)
    requires
        a == spec_layout(g, seed),
        b == spec_layout(g, seed),
    ensures
        a == b,
{
}

/// Seed sensitivity: changing the seed can change only each node's z-jitter.
/// The node order, ids, statistics, depth (x) and lane (y) coordinates and the
/// whole edge list are identical, and each z is the jitter of its own seed.
pub proof fn lemma_seed_changes_only_jitter(g: GraphView, s1: u64, s2: u64)
    ensures
        spec_layout(g, s1).version == spec_layout(g, s2).version,
        spec_layout(g, s1).edges == spec_layout(g, s2).edges,
        spec_layout(g, s1).nodes.len() == spec_layout(g, s2).nodes.len(),
        forall|k: int|
            0 <= k < spec_layout(g, s1).nodes.len() ==> (#[trigger] spec_layout(g, s1).nodes[k]).id
                == spec_layout(g, s2).nodes[k].id,
        forall|k: int|
            0 <= k < spec_layout(g, s1).nodes.len() ==> (#[trigger] spec_layout(g, s1).nodes[k]).seen
                == spec_layout(g, s2).nodes[k].seen && spec_layout(g, s1).nodes[k].loss_probes
                == spec_layout(g, s2).nodes[k].loss_probes,
        forall|k: int|
            0 <= k < spec_layout(g, s1).nodes.len() ==> (#[trigger] spec_layout(
                g,
                s1,
            ).nodes[k]).position.x == spec_layout(g, s2).nodes[k].position.x && spec_layout(
                g,
                s1,
            ).nodes[k].position.y == spec_layout(g, s2).nodes[k].position.y,
        forall|k: int|
            0 <= k < spec_layout(g, s1).nodes.len() ==> (#[trigger] spec_layout(
                g,
                s1,
            ).nodes[k]).position.z == spec_jitter_q(s1, spec_layout(g, s1).nodes[k].id) as i64
                && spec_layout(g, s2).nodes[k].position.z == spec_jitter_q(
                s2,
                spec_layout(g, s2).nodes[k].id,
            ) as i64,
{
    if g.nodes.len() == 0 {
    } else {
        assert forall|k: int| 0 <= k < spec_layout(g, s1).nodes.len() implies (
        #[trigger] spec_layout(g, s1).nodes[k]).id == spec_layout(g, s2).nodes[k].id && spec_layout(
            g,
            s1,
        ).nodes[k].position.x == spec_layout(g, s2).nodes[k].position.x && spec_layout(
            g,
            s1,
        ).nodes[k].position.y == spec_layout(g, s2).nodes[k].position.y by {
            let i = spec_node_order(g)[k] as int;
            assert(spec_layout(g, s1).nodes[k] == spec_scene_nodes(g, s1)[k]);
            assert(spec_layout(g, s2).nodes[k] == spec_scene_nodes(g, s2)[k]);
        }
    }
}

/// The minimum in-degree is a lower bound attained over the universe.
proof fn lemma_min_indeg_le(edges: Seq<EdgeView>, u: Seq<Seq<u8>>, v: int)
    requires
        0 <= v < u.len(),
    ensures
        spec_min_indeg(edges, u) <= spec_indeg(edges, u[v]),
    decreases u.len(),
{
    if u.len() > 1 {
        if v < u.len() - 1 {
            assert(u.drop_last()[v] == u[v]);
            lemma_min_indeg_le(edges, u.drop_last(), v);
        }
    }
}

proof fn lemma_min_indeg_nonneg(edges: Seq<EdgeView>, u: Seq<Seq<u8>>)
    requires
        u.len() >= 1,
    ensures
        spec_min_indeg(edges, u) >= 0,
    decreases u.len(),
{
    lemma_indeg_bounds(edges, u[0]);
    if u.len() > 1 {
        lemma_min_indeg_nonneg(edges, u.drop_last());
        lemma_indeg_bounds(edges, u.last());
    } else {
        assert(spec_min_indeg(edges, u) == spec_indeg(edges, u[0]));
    }
}

/// Relaxation never raises a vertex's depth.
proof fn lemma_relax_at_le(d: Seq<int>, eidx: Seq<(int, int)>, v: int)
    ensures
        spec_relax_at(d, eidx, v) <= d[v],
    decreases eidx.len(),
{
    if eidx.len() > 0 {
        lemma_relax_at_le(d, eidx.drop_last(), v);
    }
}

/// Relaxation keeps depths non-negative when every edge endpoint is in range.
proof fn lemma_relax_at_nonneg(d: Seq<int>, eidx: Seq<(int, int)>, v: int)
    requires
        0 <= v < d.len(),
        forall|i: int| 0 <= i < d.len() ==> #[trigger] d[i] >= 0,
        forall|i: int|
            0 <= i < eidx.len() ==> 0 <= (#[trigger] eidx[i]).0 < d.len() && 0 <= eidx[i].1
                < d.len(),
    ensures
        spec_relax_at(d, eidx, v) >= 0,
    decreases eidx.len(),
{
    if eidx.len() > 0 {
        assert(forall|i: int|
            0 <= i < eidx.drop_last().len() ==> 0 <= (#[trigger] eidx.drop_last()[i]).0 < d.len()
                && 0 <= eidx.drop_last()[i].1 < d.len());
        lemma_relax_at_nonneg(d, eidx.drop_last(), v);
    }
}

/// Once a vertex is at depth zero it stays there through every round, and
/// depths stay non-negative.
proof fn lemma_iter_keeps_zero(d: Seq<int>, eidx: Seq<(int, int)>, k: nat, v: int)
    requires
        0 <= v < d.len(),
        d[v] == 0,
        forall|i: int| 0 <= i < d.len() ==> #[trigger] d[i] >= 0,
        forall|i: int|
            0 <= i < eidx.len() ==> 0 <= (#[trigger] eidx[i]).0 < d.len() && 0 <= eidx[i].1
                < d.len(),
    ensures
        spec_iter_depths(d, eidx, k).len() == d.len(),
        spec_iter_depths(d, eidx, k)[v] == 0,
        forall|i: int| 0 <= i < d.len() ==> #[trigger] spec_iter_depths(d, eidx, k)[i] >= 0,
    decreases k,
{
    if k > 0 {
        lemma_iter_keeps_zero(d, eidx, (k - 1) as nat, v);
        let prev = spec_iter_depths(d, eidx, (k - 1) as nat);
        lemma_relax_at_le(prev, eidx, v);
        lemma_relax_at_nonneg(prev, eidx, v);
        assert forall|i: int| 0 <= i < d.len() implies #[trigger] spec_iter_depths(
            d,
            eidx,
            k,
        )[i] >= 0 by {
            lemma_relax_at_nonneg(prev, eidx, i);
        }
    }
}

/// Every edge endpoint resolves to a universe position in range.
proof fn lemma_edge_pairs_in_range(g: GraphView)
    ensures
        forall|i: int|
            0 <= i < spec_edge_pairs(g, spec_universe(g)).len() ==> 0 <= (#[trigger] spec_edge_pairs(
                g,
                spec_universe(g),
            )[i]).0 < spec_universe(g).len() && 0 <= spec_edge_pairs(g, spec_universe(g))[i].1
                < spec_universe(g).len(),
{
    let u = spec_universe(g);
    assert forall|i: int| 0 <= i < spec_edge_pairs(g, u).len() implies 0 <= (
    #[trigger] spec_edge_pairs(g, u)[i]).0 < u.len() && 0 <= spec_edge_pairs(g, u)[i].1
        < u.len() by {
        let base = g.nodes.len() as int;
        assert((2 * i) % 2 == 0 && (2 * i) / 2 == i && (2 * i + 1) % 2 == 1 && (2 * i + 1) / 2
            == i);
        assert(spec_all_ids(g)[base + 2 * i] == g.edges[i].from);
        assert(spec_all_ids(g)[base + 2 * i + 1] == g.edges[i].to);
        assert(spec_all_ids(g).contains(g.edges[i].from));
        assert(spec_all_ids(g).contains(g.edges[i].to));
        lemma_dedup_contains(spec_all_ids(g), g.edges[i].from);
        lemma_dedup_contains(spec_all_ids(g), g.edges[i].to);
        lemma_idx_of_present(u, g.edges[i].from);
        lemma_idx_of_present(u, g.edges[i].to);
    }
}

/// An id nothing points at is a traversal start: its depth, and with it its
/// layout x coordinate, is zero.
pub proof fn lemma_zero_indegree_zero_depth(g: GraphView, id: Seq<u8>)
    requires
        spec_universe(g).contains(id),
        spec_indeg(g.edges, id) == 0,
    ensures
        spec_x_depth(g, id) == 0,
{
    let u = spec_universe(g);
    let n = u.len() as int;
    lemma_idx_of_present(u, id);
    let v = spec_idx_of(u, id);
    lemma_min_indeg_le(g.edges, u, v);
    lemma_min_indeg_nonneg(g.edges, u);
    assert(spec_min_indeg(g.edges, u) == 0);
    let d0 = spec_init_depths(g, u);
    assert(d0[v] == 0);
    assert(forall|i: int| 0 <= i < d0.len() ==> #[trigger] d0[i] >= 0);
    lemma_edge_pairs_in_range(g);
    lemma_iter_keeps_zero(d0, spec_edge_pairs(g, u), u.len(), v);
    assert(spec_depths(g)[v] == 0);
}

} // verus!
