use ptroute::integrator::{render_scene, RenderSettings};
use ptroute::layout::{degree_bucket, layout_graph};
use ptroute::model::{Edge, GraphFile, Node, SceneEdge, SceneFile, SceneNode};
use ptroute::scene::build_spheres;
use ptroute::vec3::Vec3q;

fn node(id: &str, seen: u32, loss_probes: u32) -> Node {
    Node { id: id.to_string(), seen, loss_probes }
}

fn edge(from: &str, to: &str, seen: u32, rtt_delta_us: i64) -> Edge {
    Edge { from: from.to_string(), to: to.to_string(), seen, rtt_delta_us }
}

#[test]
fn layout_is_deterministic_for_seed() {
    let graph = GraphFile {
        version: 1,
        nodes: vec![node("a", 1, 0), node("b", 1, 0), node("c", 1, 0)],
        edges: vec![edge("a", "b", 1, 1000), edge("b", "c", 1, 1000)],
    };

    let scene_a = layout_graph(&graph, 42);
    let scene_b = layout_graph(&graph, 42);

    assert_eq!(scene_a, scene_b);
}

#[test]
fn layout_changes_with_seed() {
    let graph = GraphFile {
        version: 1,
        nodes: vec![node("a", 1, 0), node("b", 1, 0)],
        edges: vec![edge("a", "b", 1, 1000)],
    };

    let scene_a = layout_graph(&graph, 1);
    let scene_b = layout_graph(&graph, 2);

    let z_a = scene_a.nodes[0].position.z;
    let z_b = scene_b.nodes[0].position.z;
    assert_ne!(z_a, z_b);
}

#[test]
fn layout_seed_changes_only_jitter() {
    let graph = GraphFile {
        version: 1,
        nodes: vec![node("a", 3, 0), node("b", 2, 1), node("c", 1, 0)],
        edges: vec![edge("a", "b", 2, 500), edge("a", "c", 1, -250)],
    };

    let scene_a = layout_graph(&graph, 7);
    let scene_b = layout_graph(&graph, 8);

    assert_eq!(scene_a.nodes.len(), scene_b.nodes.len());
    assert_eq!(scene_a.edges, scene_b.edges);
    for (na, nb) in scene_a.nodes.iter().zip(scene_b.nodes.iter()) {
        assert_eq!(na.id, nb.id);
        assert_eq!(na.seen, nb.seen);
        assert_eq!(na.loss_probes, nb.loss_probes);
        assert_eq!(na.position.x, nb.position.x);
        assert_eq!(na.position.y, nb.position.y);
    }
}

#[test]
fn empty_graph_gives_empty_scene() {
    let graph = GraphFile {
        version: 1,
        nodes: vec![],
        edges: vec![edge("ghost", "phantom", 1, 0)],
    };
    let scene = layout_graph(&graph, 5);
    assert_eq!(scene.version, 1);
    assert!(scene.nodes.is_empty());
    assert!(scene.edges.is_empty());
}

#[test]
fn depths_follow_in_degree() {
    // A has in-degree 0, so depth 0 (x = 0); B is one step away (x = 1.0).
    let graph = GraphFile {
        version: 1,
        nodes: vec![node("a", 10, 0), node("b", 5, 1)],
        edges: vec![edge("a", "b", 8, 2000)],
    };
    let scene = layout_graph(&graph, 1);
    assert_eq!(scene.nodes[0].id, "a");
    assert_eq!(scene.nodes[0].position.x, 0);
    assert_eq!(scene.nodes[1].id, "b");
    assert_eq!(scene.nodes[1].position.x, 65536);

    let settings = RenderSettings {
        width: 32,
        height: 24,
        spp: 2,
        bounces: 2,
        seed: 1,
        progress_every: 0,
        threads: 0,
    };
    let image = render_scene(&scene, &settings).unwrap();
    assert_eq!(image.width, 32);
    assert_eq!(image.height, 24);
}

#[test]
fn identical_layout_calls_agree_on_jitter() {
    let graph = GraphFile {
        version: 1,
        nodes: vec![node("x", 1, 0), node("y", 2, 0), node("z", 3, 0)],
        edges: vec![edge("x", "y", 1, 0)],
    };
    let scene_a = layout_graph(&graph, 99);
    let scene_b = layout_graph(&graph, 99);
    for (na, nb) in scene_a.nodes.iter().zip(scene_b.nodes.iter()) {
        assert_eq!(na.position.z, nb.position.z);
    }
}

#[test]
fn cycle_nodes_all_share_the_minimum_in_degree() {
    // In a two-node cycle nobody has in-degree zero, so the minimum in-degree
    // ids form the start set and both nodes sit at depth zero.
    let graph = GraphFile {
        version: 1,
        nodes: vec![node("p", 1, 0), node("q", 1, 0)],
        edges: vec![edge("p", "q", 1, 0), edge("q", "p", 1, 0)],
    };
    let scene = layout_graph(&graph, 3);
    assert_eq!(scene.nodes[0].position.x, 0);
    assert_eq!(scene.nodes[1].position.x, 0);
}

#[test]
fn unreached_nodes_sit_one_past_the_deepest() {
    // c is the only in-degree-zero id, so the traversal starts there and
    // reaches d at depth 1. The a/b cycle is unreached and falls back to
    // one past the deepest reached depth: x = 2.0.
    let graph = GraphFile {
        version: 1,
        nodes: vec![node("a", 1, 0), node("b", 1, 0), node("c", 1, 0), node("d", 1, 0)],
        edges: vec![edge("a", "b", 1, 0), edge("b", "a", 1, 0), edge("c", "d", 1, 0)],
    };
    let scene = layout_graph(&graph, 3);
    assert_eq!(scene.nodes[0].id, "a");
    assert_eq!(scene.nodes[0].position.x, 2 * 65536);
    assert_eq!(scene.nodes[1].position.x, 2 * 65536);
    assert_eq!(scene.nodes[2].position.x, 0);
    assert_eq!(scene.nodes[3].position.x, 65536);
}

#[test]
fn degree_bucket_is_floor_log2() {
    assert_eq!(degree_bucket(0), 0);
    assert_eq!(degree_bucket(1), 0);
    assert_eq!(degree_bucket(2), 1);
    assert_eq!(degree_bucket(3), 1);
    assert_eq!(degree_bucket(4), 2);
    assert_eq!(degree_bucket(7), 2);
    assert_eq!(degree_bucket(8), 3);
    assert_eq!(degree_bucket(1024), 10);
}

#[test]
fn dangling_edge_contributes_no_primitives() {
    let scene = SceneFile {
        version: 1,
        nodes: vec![
            SceneNode {
                id: "known".to_string(),
                position: Vec3q { x: 0, y: 0, z: 0 },
                seen: 1,
                loss_probes: 0,
            },
        ],
        edges: vec![
            SceneEdge {
                from: "known".to_string(),
                to: "unresolved".to_string(),
                seen: 3,
                rtt_delta_us: 1500,
            },
        ],
    };
    let spheres = build_spheres(&scene);
    // Only the node sphere: the dangling edge adds nothing and nothing fails.
    assert_eq!(spheres.len(), 1);
}

#[test]
fn resolved_edge_grows_a_chain() {
    let scene = SceneFile {
        version: 1,
        nodes: vec![
            SceneNode {
                id: "a".to_string(),
                position: Vec3q { x: 0, y: 0, z: 0 },
                seen: 1,
                loss_probes: 0,
            },
            SceneNode {
                id: "b".to_string(),
                position: Vec3q { x: 4 * 65536, y: 0, z: 0 },
                seen: 1,
                loss_probes: 0,
            },
        ],
        edges: vec![
            SceneEdge { from: "a".to_string(), to: "b".to_string(), seen: 1, rtt_delta_us: 0 },
        ],
    };
    let spheres = build_spheres(&scene);
    assert!(spheres.len() > 2);
    // Chain spheres glow; node spheres do not.
    assert_eq!(spheres[0].emission.x, 0);
    assert!(spheres[2].emission.x > 0);
}
