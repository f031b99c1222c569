use ptroute::bvh::Bvh;
use ptroute::fixed::{q_sqrt, Q_SAT};
use ptroute::geom::{brute_force_hit, Sphere};
use ptroute::integrator::{render_scene, ProgressiveRender, RenderSettings};
use ptroute::model::{SceneEdge, SceneFile, SceneNode};
use ptroute::vec3::{Ray, Vec3q};

struct TestRng {
    state: u64,
}

impl TestRng {
    fn new(seed: u64) -> Self {
        Self { state: seed }
    }

    fn next_u32(&mut self) -> u32 {
        self.state = self.state.wrapping_mul(6364136223846793005).wrapping_add(1);
        (self.state >> 32) as u32
    }

    fn next_f32(&mut self) -> f32 {
        self.next_u32() as f32 / u32::MAX as f32
    }

    fn range_q(&mut self, min: f32, max: f32) -> i64 {
        let v = min + (max - min) * self.next_f32();
        (v * 65536.0) as i64
    }
}

fn settings(width: u32, height: u32, spp: u32, bounces: u32, seed: u64) -> RenderSettings {
    RenderSettings { width, height, spp, bounces, seed, progress_every: 0, threads: 0 }
}

#[test]
fn bvh_hit_matches_bruteforce() {
    let mut spheres = Vec::new();
    let mut rng = TestRng::new(1);

    for _ in 0..64 {
        let center = Vec3q {
            x: rng.range_q(-5.0, 5.0),
            y: rng.range_q(-5.0, 5.0),
            z: rng.range_q(-5.0, 5.0),
        };
        let radius = rng.range_q(0.2, 1.0);
        spheres.push(Sphere {
            center,
            radius,
            albedo: Vec3q { x: 32768, y: 32768, z: 32768 },
            emission: Vec3q { x: 0, y: 0, z: 0 },
        });
    }

    let bvh = Bvh::new(spheres.clone());

    for _ in 0..128 {
        let origin = Vec3q {
            x: rng.range_q(-8.0, 8.0),
            y: rng.range_q(-8.0, 8.0),
            z: rng.range_q(-8.0, 8.0),
        };
        let direction = Vec3q {
            x: rng.range_q(-1.0, 1.0),
            y: rng.range_q(-1.0, 1.0),
            z: rng.range_q(-1.0, 1.0),
        };
        let ray = Ray { origin, direction };

        let brute = brute_force_hit(&spheres, &ray, 66, Q_SAT);
        let bvh_hit = bvh.hit(&ray, 66, Q_SAT);

        assert_eq!(brute.is_some(), bvh_hit.is_some());
        if let (Some(a), Some(b)) = (brute, bvh_hit) {
            // 1e-3 in Q16.16 units.
            assert!((a.t - b.t).abs() < 66);
        }
    }
}

#[test]
fn bvh_empty_set_never_hits() {
    let bvh = Bvh::new(Vec::new());
    let ray = Ray {
        origin: Vec3q { x: 0, y: 0, z: 0 },
        direction: Vec3q { x: 65536, y: 0, z: 0 },
    };
    assert!(bvh.hit(&ray, 66, Q_SAT).is_none());
}

#[test]
fn render_scene_outputs_image() {
    let scene = SceneFile {
        version: 1,
        nodes: vec![SceneNode {
            id: "node".to_string(),
            position: Vec3q { x: 0, y: 0, z: 0 },
            seen: 1,
            loss_probes: 0,
        }],
        edges: vec![SceneEdge {
            from: "node".to_string(),
            to: "node".to_string(),
            seen: 1,
            rtt_delta_us: 0,
        }],
    };

    let s = settings(32, 24, 2, 2, 1);
    let image = render_scene(&scene, &s).unwrap();
    assert_eq!(image.width, s.width);
    assert_eq!(image.height, s.height);
    assert_eq!(image.pixels.len(), (32 * 24 * 3) as usize);
}

#[test]
fn empty_scene_renders_background_image() {
    let scene = SceneFile { version: 1, nodes: vec![], edges: vec![] };
    let s = settings(32, 24, 3, 5, 77);
    let image = render_scene(&scene, &s).unwrap();
    assert_eq!(image.width, 32);
    assert_eq!(image.height, 24);
    assert_eq!(image.pixels.len(), 32 * 24 * 3);
    // The sky/ground gradient is never pure black.
    assert!(image.pixels.iter().any(|&b| b > 0));
}

#[test]
fn renders_are_reproducible() {
    let scene = SceneFile {
        version: 1,
        nodes: vec![SceneNode {
            id: "n".to_string(),
            position: Vec3q { x: 65536, y: 0, z: 0 },
            seen: 4,
            loss_probes: 0,
        }],
        edges: vec![],
    };
    let s = settings(16, 12, 3, 3, 42);
    let a = render_scene(&scene, &s).unwrap();
    let b = render_scene(&scene, &s).unwrap();
    assert_eq!(a.pixels, b.pixels);
}

#[test]
fn progressive_passes_equal_one_pass() {
    let scene = SceneFile {
        version: 1,
        nodes: vec![
            SceneNode {
                id: "a".to_string(),
                position: Vec3q { x: 0, y: 0, z: 0 },
                seen: 2,
                loss_probes: 0,
            },
            SceneNode {
                id: "b".to_string(),
                position: Vec3q { x: 3 * 65536, y: 65536, z: 0 },
                seen: 5,
                loss_probes: 1,
            },
        ],
        edges: vec![SceneEdge {
            from: "a".to_string(),
            to: "b".to_string(),
            seen: 3,
            rtt_delta_us: 2000,
        }],
    };
    let s = settings(16, 12, 4, 2, 9);

    let one_pass = render_scene(&scene, &s).unwrap();

    let mut pr = ProgressiveRender::new(&scene, &s);
    pr.advance(2).unwrap();
    let partial = pr.snapshot();
    assert_eq!(partial.width, 16);
    pr.advance(2).unwrap();
    assert_eq!(pr.done(), 4);
    let chunked = pr.snapshot();

    assert_eq!(one_pass.pixels, chunked.pixels);
}

#[test]
fn thread_count_never_changes_the_image() {
    let scene = SceneFile {
        version: 1,
        nodes: vec![
            SceneNode {
                id: "left".to_string(),
                position: Vec3q { x: 0, y: 0, z: 0 },
                seen: 3,
                loss_probes: 0,
            },
            SceneNode {
                id: "right".to_string(),
                position: Vec3q { x: 2 * 65536, y: 65536, z: -65536 },
                seen: 7,
                loss_probes: 2,
            },
        ],
        edges: vec![SceneEdge {
            from: "left".to_string(),
            to: "right".to_string(),
            seen: 4,
            rtt_delta_us: 1500,
        }],
    };
    let sequential = settings(20, 14, 3, 3, 5);
    let mut threaded = sequential;
    threaded.threads = 2;

    let a = render_scene(&scene, &sequential).unwrap();
    let b = render_scene(&scene, &threaded).unwrap();
    assert_eq!(a.pixels, b.pixels);
}

#[test]
fn fixed_sqrt_matches_known_squares() {
    // sqrt(4.0) == 2.0 and sqrt(1.0) == 1.0, exactly, in Q16.16.
    assert_eq!(q_sqrt(4 * 65536), 2 * 65536);
    assert_eq!(q_sqrt(65536), 65536);
    assert_eq!(q_sqrt(0), 0);
    assert_eq!(q_sqrt(-5), 0);
}
