use raytracer::bvh::{BVHNode, Child};
use raytracer::hit::Hit;
use raytracer::scene::Scene;

use rand::Rng;

#[derive(Clone, Copy, Debug)]
struct Ball {
    center: [f32; 3],
    radius: f32,
    id: usize,
}

#[derive(Clone, Copy)]
struct Line {
    origin: [f32; 3],
    direction: [f32; 3],
}

type Bounds = ([f32; 3], [f32; 3]);

const T_MIN: f32 = 0.001;

fn order_key(f: f32) -> u32 {
    let b = f.to_bits();
    if b & 0x8000_0000 != 0 {
        !b
    } else {
        b | 0x8000_0000
    }
}

fn from_order_key(k: u32) -> f32 {
    if k & 0x8000_0000 != 0 {
        f32::from_bits(k & 0x7fff_ffff)
    } else {
        f32::from_bits(!k)
    }
}

fn dot(a: [f32; 3], b: [f32; 3]) -> f32 {
    a[0] * b[0] + a[1] * b[1] + a[2] * b[2]
}

fn ball_hit(b: &Ball, line: &Line, t_max: f32) -> Option<f32> {
    let oc = [
        line.origin[0] - b.center[0],
        line.origin[1] - b.center[1],
        line.origin[2] - b.center[2],
    ];
    let a = dot(line.direction, line.direction);
    let half_b = dot(oc, line.direction);
    let c = dot(oc, oc) - b.radius * b.radius;
    let disc = half_b * half_b - a * c;
    if disc < 0.0 {
        return None;
    }
    let sq = disc.sqrt();
    let mut root = (-half_b - sq) / a;
    if root < T_MIN || root > t_max {
        root = (-half_b + sq) / a;
        if root < T_MIN || root > t_max {
            return None;
        }
    }
    Some(root)
}

fn ball_box(b: &Ball) -> Bounds {
    let r = b.radius;
    (
        [b.center[0] - r, b.center[1] - r, b.center[2] - r],
        [b.center[0] + r, b.center[1] + r, b.center[2] + r],
    )
}

fn union(a: &Bounds, b: &Bounds) -> Bounds {
    (
        [a.0[0].min(b.0[0]), a.0[1].min(b.0[1]), a.0[2].min(b.0[2])],
        [a.1[0].max(b.1[0]), a.1[1].max(b.1[1]), a.1[2].max(b.1[2])],
    )
}

fn empty_box() -> Bounds {
    ([f32::INFINITY; 3], [f32::NEG_INFINITY; 3])
}

fn slab_hit(b: &Bounds, line: &Line) -> bool {
    let mut lo = f32::NEG_INFINITY;
    let mut hi = f32::INFINITY;
    for a in 0..3 {
        let inv = 1.0 / line.direction[a];
        let t0 = (b.0[a] - line.origin[a]) * inv;
        let t1 = (b.1[a] - line.origin[a]) * inv;
        lo = lo.max(t0.min(t1));
        hi = hi.min(t0.max(t1));
    }
    !(hi < 0.0 || lo > hi)
}

fn build(balls: Vec<Ball>) -> BVHNode<Ball, Bounds> {
    BVHNode::from_vector(
        balls,
        empty_box(),
        &|b: &Ball| Some(ball_box(b)),
        &|a: &Bounds, b: &Bounds| union(a, b),
        &|b: &Bounds, axis: usize| order_key(b.0[axis]),
    )
}

fn tree_hit(tree: &BVHNode<Ball, Bounds>, line: &Line) -> Option<Hit<usize>> {
    tree.intersect(
        &|b: &Bounds| slab_hit(b, line),
        &|p: &Ball, t: u32| {
            ball_hit(p, line, from_order_key(t)).map(|d| Hit { dist: order_key(d), record: p.id })
        },
        order_key(f32::INFINITY),
    )
}

fn scan_hit(scene: &Scene<Ball>, line: &Line) -> Option<Hit<usize>> {
    scene.intersect(
        &|p: &Ball, t: u32| {
            ball_hit(p, line, from_order_key(t)).map(|d| Hit { dist: order_key(d), record: p.id })
        },
        order_key(f32::INFINITY),
    )
}

fn random_balls(n: usize) -> Vec<Ball> {
    let mut rng = rand::thread_rng();
    (0..n)
        .map(|id| Ball {
            center: [
                rng.gen_range(-20.0..20.0),
                rng.gen_range(-20.0..20.0),
                rng.gen_range(-20.0..20.0),
            ],
            radius: rng.gen_range(0.2..2.0),
            id,
        })
        .collect()
}

fn leaf_count(tree: &BVHNode<Ball, Bounds>, c: Child, seen: &mut Vec<usize>) {
    match c {
        Child::Empty => {},
        Child::Leaf(i) => seen.push(i),
        Child::Inner(k) => {
            assert!(k < tree.nodes.len());
            leaf_count(tree, tree.nodes[k].left, seen);
            leaf_count(tree, tree.nodes[k].right, seen);
        },
    }
}

#[test]
fn bvh_matches_linear_scan_on_random_spheres() {
    let mut rng = rand::thread_rng();
    for _ in 0..5 {
        let balls = random_balls(60);
        let mut scene = Scene::new();
        for b in balls.iter() {
            scene.add_shape(*b);
        }
        let tree = build(balls);
        let mut hits = 0;
        for _ in 0..200 {
            let line = Line {
                origin: [
                    rng.gen_range(-40.0..40.0),
                    rng.gen_range(-40.0..40.0),
                    rng.gen_range(-40.0..40.0),
                ],
                direction: [
                    rng.gen_range(-1.0..1.0),
                    rng.gen_range(-1.0..1.0),
                    rng.gen_range(-1.0..1.0),
                ],
            };
            let a = tree_hit(&tree, &line);
            let b = scan_hit(&scene, &line);
            assert_eq!(a.is_some(), b.is_some());
            if let (Some(x), Some(y)) = (a, b) {
                hits += 1;
                assert_eq!(x.dist, y.dist);
                assert_eq!(x.record, y.record);
            }
        }
        assert!(hits > 0);
    }
}

#[test]
fn every_primitive_is_a_leaf_exactly_once() {
    for n in [1usize, 2, 3, 4, 7, 50, 101] {
        let tree = build(random_balls(n));
        let mut seen = Vec::new();
        leaf_count(&tree, tree.root, &mut seen);
        seen.sort();
        assert_eq!(seen, (0..n).collect::<Vec<_>>());
    }
}

#[test]
fn node_boxes_contain_their_children() {
    let tree = build(random_balls(40));
    for (k, e) in tree.nodes.iter().enumerate() {
        for c in [e.left, e.right] {
            let inner = match c {
                Child::Empty => continue,
                Child::Leaf(i) => tree.prim_boxes[i],
                Child::Inner(j) => {
                    assert!(j < k);
                    tree.nodes[j].bbox
                },
            };
            for a in 0..3 {
                assert!(e.bbox.0[a] <= inner.0[a]);
                assert!(e.bbox.1[a] >= inner.1[a]);
            }
        }
    }
}

#[test]
fn empty_tree_is_never_hit() {
    let tree: BVHNode<Ball, Bounds> = BVHNode::new(empty_box());
    let line = Line { origin: [0.0, 0.0, -5.0], direction: [0.0, 0.0, 1.0] };
    assert!(tree_hit(&tree, &line).is_none());
    let b = tree.bounding_box();
    assert_eq!(b.0, [f32::INFINITY; 3]);
    let built = build(Vec::new());
    assert!(built.root == Child::Empty);
    assert!(tree_hit(&built, &line).is_none());
}

#[test]
fn single_primitive_tree() {
    let tree = build(vec![Ball { center: [0.0, 0.0, 0.0], radius: 1.0, id: 7 }]);
    assert_eq!(tree.nodes.len(), 1);
    assert!(tree.nodes[0].left == Child::Leaf(0));
    assert!(tree.nodes[0].right == Child::Empty);
    let line = Line { origin: [0.0, 0.0, -5.0], direction: [0.0, 0.0, 1.0] };
    let h = tree_hit(&tree, &line).unwrap();
    assert_eq!(h.record, 7);
    assert_eq!(from_order_key(h.dist), 4.0);
    assert_eq!(tree.bounding_box(), ([-1.0; 3], [1.0; 3]));
}

#[test]
fn two_primitives_are_ordered_by_their_lower_corner() {
    let balls = vec![
        Ball { center: [5.0, 5.0, 5.0], radius: 1.0, id: 0 },
        Ball { center: [-5.0, -5.0, -5.0], radius: 1.0, id: 1 },
    ];
    let tree = build(balls);
    assert_eq!(tree.nodes.len(), 1);
    assert!(tree.nodes[0].left == Child::Leaf(1));
    assert!(tree.nodes[0].right == Child::Leaf(0));
    assert_eq!(tree.bounding_box(), ([-6.0; 3], [6.0; 3]));
}

#[test]
fn closer_hit_on_the_right_side_wins() {
    let balls = vec![
        Ball { center: [0.0, 0.0, 10.0], radius: 1.0, id: 0 },
        Ball { center: [0.0, 0.0, 0.0], radius: 1.0, id: 1 },
        Ball { center: [0.0, 0.0, 20.0], radius: 1.0, id: 2 },
        Ball { center: [0.0, 0.0, -10.0], radius: 1.0, id: 3 },
    ];
    let tree = build(balls);
    let line = Line { origin: [0.0, 0.0, -30.0], direction: [0.0, 0.0, 1.0] };
    let h = tree_hit(&tree, &line).unwrap();
    assert_eq!(h.record, 3);
    assert_eq!(from_order_key(h.dist), 19.0);
    let back = Line { origin: [0.0, 0.0, 30.0], direction: [0.0, 0.0, -1.0] };
    let h = tree_hit(&tree, &back).unwrap();
    assert_eq!(h.record, 2);
    assert_eq!(from_order_key(h.dist), 9.0);
}

#[test]
fn tree_from_scene_keeps_the_shapes() {
    let mut scene = Scene::new();
    for b in random_balls(9) {
        scene.add_shape(b);
    }
    let ids: Vec<usize> = scene.shapes.iter().map(|b| b.id).collect();
    let tree = BVHNode::from_scene(
        scene,
        empty_box(),
        &|b: &Ball| Some(ball_box(b)),
        &|a: &Bounds, b: &Bounds| union(a, b),
        &|b: &Bounds, axis: usize| order_key(b.0[axis]),
    );
    assert_eq!(tree.prims.iter().map(|b| b.id).collect::<Vec<_>>(), ids);
}

fn leaves_below(tree: &BVHNode<Ball, Bounds>, c: Child) -> Vec<usize> {
    let mut out = Vec::new();
    leaf_count(tree, c, &mut out);
    out
}

#[test]
fn splits_order_primitives_along_the_node_axis() {
    let tree = build(random_balls(64));
    for e in tree.nodes.iter() {
        assert!(e.axis < 3);
        let left = leaves_below(&tree, e.left);
        let right = leaves_below(&tree, e.right);
        for &a in left.iter() {
            for &b in right.iter() {
                assert!(tree.keys[a][e.axis] <= tree.keys[b][e.axis]);
            }
        }
    }
}

#[test]
fn keys_are_the_lower_corners_of_the_boxes() {
    let tree = build(random_balls(10));
    for (i, b) in tree.prims.iter().enumerate() {
        let bx = ball_box(b);
        assert_eq!(tree.prim_boxes[i], bx);
        for a in 0..3 {
            assert_eq!(tree.keys[i][a], order_key(bx.0[a]));
        }
    }
}

#[test]
fn shapes_without_a_box_count_as_empty() {
    let balls = vec![
        Ball { center: [0.0, 0.0, 0.0], radius: 1.0, id: 0 },
        Ball { center: [3.0, 0.0, 0.0], radius: 1.0, id: 1 },
        Ball { center: [6.0, 0.0, 0.0], radius: 1.0, id: 2 },
    ];
    let tree = BVHNode::from_vector(
        balls,
        empty_box(),
        &|b: &Ball| if b.id == 1 { None } else { Some(ball_box(b)) },
        &|a: &Bounds, b: &Bounds| union(a, b),
        &|b: &Bounds, axis: usize| order_key(b.0[axis]),
    );
    assert_eq!(tree.prim_boxes[1], empty_box());
    assert_eq!(tree.bounding_box(), ([-1.0, -1.0, -1.0], [7.0, 1.0, 1.0]));
    let mut seen = leaves_below(&tree, tree.root);
    seen.sort();
    assert_eq!(seen, vec![0, 1, 2]);
}

#[test]
fn nodes_split_at_the_middle() {
    for n in [2usize, 3, 5, 8, 33] {
        let tree = build(random_balls(n));
        for e in tree.nodes.iter() {
            let l = leaves_below(&tree, e.left).len();
            let r = leaves_below(&tree, e.right).len();
            assert!(r == 0 || l == (l + r) / 2);
        }
    }
}

#[test]
fn ray_missing_the_root_box_gets_no_hit() {
    let tree = build(random_balls(20));
    let line = Line { origin: [0.0, 0.0, -100.0], direction: [0.0, 0.0, 1.0] };
    let r = tree.intersect(
        &|_b: &Bounds| false,
        &|p: &Ball, t: u32| {
            ball_hit(p, &line, from_order_key(t)).map(|d| Hit { dist: order_key(d), record: p.id })
        },
        order_key(f32::INFINITY),
    );
    assert!(r.is_none());
    let far = Line { origin: [500.0, 500.0, 500.0], direction: [1.0, 0.0, 0.0] };
    assert!(tree_hit(&tree, &far).is_none());
}
