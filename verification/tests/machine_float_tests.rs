use raytracer::{Camera, Object, Scalar, Scene, Sphere, Triangle, Vec3};

// A hierarchy built with the machine's floats, to hold the library's against.

#[derive(Clone, Copy)]
enum Shape {
    Ball { center: [f32; 3], radius: f32 },
    Tri { corners: [[f32; 3]; 3], centroid: [f32; 3] },
}

#[derive(Clone, Copy, Debug, PartialEq)]
struct FloatNode {
    min: [f32; 3],
    left_child: i32,
    max: [f32; 3],
    count: usize,
}

struct FloatScene {
    shapes: Vec<Shape>,
    nodes: Vec<FloatNode>,
    used: usize,
    indices: Vec<usize>,
}

impl FloatScene {
    fn build(shapes: Vec<Shape>) -> FloatScene {
        let n = shapes.len();
        let empty = FloatNode {
            min: [f32::INFINITY; 3],
            left_child: -1,
            max: [f32::NEG_INFINITY; 3],
            count: 0,
        };
        let mut scene =
            FloatScene { shapes, nodes: vec![empty; 2 * n - 1], used: 1, indices: (0..n).collect() };
        scene.nodes[0].left_child = 0;
        scene.nodes[0].count = n;
        scene.update_bounds(0);
        scene.subdivide(0);
        scene
    }

    fn update_bounds(&mut self, at: usize) {
        let start = self.nodes[at].left_child as usize;
        let end = start + self.nodes[at].count;
        for k in start..end {
            let node = &mut self.nodes[at];
            match self.shapes[self.indices[k]] {
                Shape::Ball { center, radius } => {
                    for a in 0..3 {
                        node.min[a] = node.min[a].min(center[a] - radius);
                        node.max[a] = node.max[a].max(center[a] + radius);
                    }
                }
                Shape::Tri { corners, .. } => {
                    for corner in corners.iter() {
                        for a in 0..3 {
                            node.min[a] = node.min[a].min(corner[a]);
                            node.max[a] = node.max[a].max(corner[a]);
                        }
                    }
                }
            }
        }
    }

    fn position(&self, k: usize, axis: usize) -> f32 {
        match self.shapes[self.indices[k]] {
            Shape::Ball { center, .. } => center[axis],
            Shape::Tri { centroid, .. } => centroid[axis],
        }
    }

    fn subdivide(&mut self, at: usize) {
        let node = self.nodes[at];
        if node.count <= 2 {
            return;
        }
        let e = [node.max[0] - node.min[0], node.max[1] - node.min[1], node.max[2] - node.min[2]];
        let axis = if e[0] >= e[1] && e[0] >= e[2] {
            0
        } else if e[1] >= e[2] {
            1
        } else {
            2
        };
        let split_pos = node.min[axis] + e[axis] / 2.0;
        let start = node.left_child as usize;
        let mut i = start;
        let mut j = start + node.count;
        while i < j {
            if self.position(i, axis) < split_pos {
                i += 1;
            } else {
                j -= 1;
                self.indices.swap(i, j);
            }
        }
        let split = i - start;
        if split == 0 || split == node.count {
            return;
        }
        let left = self.used;
        self.used += 2;
        self.nodes[left].left_child = node.left_child;
        self.nodes[left].count = split;
        self.nodes[left + 1].left_child = i as i32;
        self.nodes[left + 1].count = node.count - split;
        self.nodes[at].left_child = left as i32;
        self.nodes[at].count = 0;
        self.update_bounds(left);
        self.update_bounds(left + 1);
        self.subdivide(left);
        self.subdivide(left + 1);
    }
}

fn s(x: f32) -> Scalar {
    Scalar::from_bits(x.to_bits())
}

fn v(a: [f32; 3]) -> Vec3 {
    Vec3(s(a[0]), s(a[1]), s(a[2]))
}

fn object_of(shape: &Shape) -> Object {
    match *shape {
        Shape::Ball { center, radius } => {
            Object::Sphere(Sphere::new(v(center), v([0.5, 0.5, 0.5]), s(radius)))
        }
        Shape::Tri { corners, centroid } => {
            let mut t = Triangle::new();
            t.corners = [v(corners[0]), v(corners[1]), v(corners[2])];
            t.centroid = v(centroid);
            Object::Triangle(t)
        }
    }
}

fn next(state: &mut u64) -> f32 {
    *state = state.wrapping_mul(6364136223846793005).wrapping_add(1442695040888963407);
    ((*state >> 40) as f32) / 16777216.0
}

fn shapes(n: usize, seed: u64, spread: f32, grid: bool) -> Vec<Shape> {
    let mut state = seed;
    let mut out = Vec::new();
    for i in 0..n {
        let mut center = [0.0f32; 3];
        for c in center.iter_mut() {
            *c = spread * next(&mut state) - spread / 2.0;
            if grid {
                *c = c.round();
            }
        }
        if i % 3 != 1 {
            out.push(Shape::Ball { center, radius: 0.1 + 1.9 * next(&mut state) });
        } else {
            let mut corners = [[0.0f32; 3]; 3];
            for corner in corners.iter_mut() {
                for a in 0..3 {
                    corner[a] = center[a] - 3.0 + 6.0 * next(&mut state);
                }
            }
            let mut centroid = [0.0f32; 3];
            for a in 0..3 {
                centroid[a] = (corners[0][a] + corners[1][a] + corners[2][a]) / 3.0;
            }
            out.push(Shape::Tri { corners, centroid });
        }
    }
    out
}

fn compare(list: Vec<Shape>) {
    let objects: Vec<Object> = list.iter().map(object_of).collect();
    let scene = Scene::new(objects, Camera::new(v([0.0, 0.0, 0.0])), 1, Vec::new());
    let float_scene = FloatScene::build(list);
    assert_eq!(scene.nodes_used, float_scene.used);
    assert_eq!(scene.object_indices, float_scene.indices);
    assert_eq!(scene.nodes.len(), float_scene.nodes.len());
    for i in 0..scene.nodes.len() {
        let node = &scene.nodes[i];
        let want = &float_scene.nodes[i];
        let got = FloatNode {
            min: [
                f32::from_bits(node.min_corner.0.to_bits()),
                f32::from_bits(node.min_corner.1.to_bits()),
                f32::from_bits(node.min_corner.2.to_bits()),
            ],
            left_child: node.left_child,
            max: [
                f32::from_bits(node.max_corner.0.to_bits()),
                f32::from_bits(node.max_corner.1.to_bits()),
                f32::from_bits(node.max_corner.2.to_bits()),
            ],
            count: node.object_count,
        };
        assert_eq!(&got, want, "node {}", i);
    }
}

#[test]
fn spread_scenes_agree_with_a_float_build() {
    for (n, seed) in [(1usize, 1u64), (2, 2), (3, 3), (7, 4), (50, 5), (333, 6), (1000, 7)] {
        compare(shapes(n, seed, 100.0, false));
    }
}

#[test]
fn crowded_scenes_agree_with_a_float_build() {
    for (n, seed) in [(10usize, 11u64), (100, 12), (500, 13)] {
        compare(shapes(n, seed, 4.0, true));
    }
}

#[test]
fn tiny_and_huge_scenes_agree_with_a_float_build() {
    compare(shapes(200, 21, 1.0e-30, false));
    compare(shapes(200, 22, 1.0e30, false));
    compare(shapes(200, 23, 3.0e38, false));
}
