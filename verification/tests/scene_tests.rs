use raytracer::{Camera, Node, ObjMesh, Object, Scalar, Scene, Sphere, Triangle, Vec3};

fn s(x: f32) -> Scalar {
    Scalar::from_bits(x.to_bits())
}

fn f(x: Scalar) -> f32 {
    f32::from_bits(x.to_bits())
}

fn v(x: f32, y: f32, z: f32) -> Vec3 {
    Vec3(s(x), s(y), s(z))
}

fn camera() -> Camera {
    Camera {
        position: v(-5.0, 0.0, 0.0),
        forwards: v(1.0, 0.0, 0.0),
        right: v(0.0, -1.0, 0.0),
        up: v(0.0, 0.0, 1.0),
        yaw: s(0.0),
        pitch: s(0.0),
    }
}

fn sphere(x: f32, y: f32, z: f32, r: f32) -> Object {
    Object::Sphere(Sphere::new(v(x, y, z), v(1.0, 0.5, 0.25), s(r)))
}

fn triangle(a: [f32; 3], b: [f32; 3], c: [f32; 3]) -> Object {
    let mut t = Triangle::new();
    t.corners = [v(a[0], a[1], a[2]), v(b[0], b[1], b[2]), v(c[0], c[1], c[2])];
    t.color = v(0.2, 0.4, 0.6);
    t.centroid = v(
        (a[0] + b[0] + c[0]) / 3.0,
        (a[1] + b[1] + c[1]) / 3.0,
        (a[2] + b[2] + c[2]) / 3.0,
    );
    Object::Triangle(t)
}

fn next(state: &mut u64) -> f32 {
    *state = state.wrapping_mul(6364136223846793005).wrapping_add(1442695040888963407);
    ((*state >> 40) as f32) / 16777216.0
}

fn mixed_objects(n: usize, seed: u64) -> Vec<Object> {
    let mut state = seed;
    let mut objects = Vec::new();
    for i in 0..n {
        let x = 100.0 * next(&mut state) - 50.0;
        let y = 100.0 * next(&mut state) - 50.0;
        let z = 100.0 * next(&mut state) - 50.0;
        if i % 2 == 0 {
            objects.push(sphere(x, y, z, 0.1 + 1.9 * next(&mut state)));
        } else {
            let mut corners = [[0.0f32; 3]; 3];
            for corner in corners.iter_mut() {
                corner[0] = x - 3.0 + 6.0 * next(&mut state);
                corner[1] = y - 3.0 + 6.0 * next(&mut state);
                corner[2] = z - 3.0 + 6.0 * next(&mut state);
            }
            objects.push(triangle(corners[0], corners[1], corners[2]));
        }
    }
    objects
}

fn extent(object: &Object) -> ([f32; 3], [f32; 3]) {
    match object {
        Object::Sphere(sp) => {
            let c = [f(sp.center.0), f(sp.center.1), f(sp.center.2)];
            let r = f(sp.radius);
            ([c[0] - r, c[1] - r, c[2] - r], [c[0] + r, c[1] + r, c[2] + r])
        }
        Object::Triangle(t) => {
            let mut lo = [f32::INFINITY; 3];
            let mut hi = [f32::NEG_INFINITY; 3];
            for corner in t.corners.iter() {
                let c = [f(corner.0), f(corner.1), f(corner.2)];
                for a in 0..3 {
                    lo[a] = lo[a].min(c[a]);
                    hi[a] = hi[a].max(c[a]);
                }
            }
            (lo, hi)
        }
    }
}

fn position(object: &Object) -> [f32; 3] {
    match object {
        Object::Sphere(sp) => [f(sp.center.0), f(sp.center.1), f(sp.center.2)],
        Object::Triangle(t) => [f(t.centroid.0), f(t.centroid.1), f(t.centroid.2)],
    }
}

fn corners(node: &Node) -> ([f32; 3], [f32; 3]) {
    (
        [f(node.min_corner.0), f(node.min_corner.1), f(node.min_corner.2)],
        [f(node.max_corner.0), f(node.max_corner.1), f(node.max_corner.2)],
    )
}

/// Walks the tree below `index`; gives the entries of the index array below
/// it and checks every rule on the way.
fn check_subtree(scene: &Scene, index: usize, leaves: &mut Vec<(usize, usize)>) -> (usize, usize) {
    assert!(index < scene.nodes_used);
    let node = &scene.nodes[index];
    let (lo, hi) = corners(node);
    let (start, end) = if node.object_count > 0 {
        let start = node.left_child as usize;
        leaves.push((start, node.object_count));
        (start, start + node.object_count)
    } else {
        let child = node.left_child as usize;
        assert!(child > index);
        assert!(child + 1 < scene.nodes_used);
        let (a, b) = check_subtree(scene, child, leaves);
        let (c, d) = check_subtree(scene, child + 1, leaves);
        assert_eq!(b, c);
        let mut axis = 2;
        let e = [hi[0] - lo[0], hi[1] - lo[1], hi[2] - lo[2]];
        if e[0] >= e[1] && e[0] >= e[2] {
            axis = 0;
        } else if e[1] >= e[2] {
            axis = 1;
        }
        let split = lo[axis] + e[axis] / 2.0;
        for k in a..b {
            assert!(position(&scene.objects[scene.object_indices[k]])[axis] < split);
        }
        for k in c..d {
            assert!(!(position(&scene.objects[scene.object_indices[k]])[axis] < split));
        }
        (a, d)
    };
    let mut want_lo = [f32::INFINITY; 3];
    let mut want_hi = [f32::NEG_INFINITY; 3];
    for k in start..end {
        let (olo, ohi) = extent(&scene.objects[scene.object_indices[k]]);
        for a in 0..3 {
            assert!(lo[a] <= olo[a]);
            assert!(ohi[a] <= hi[a]);
            want_lo[a] = want_lo[a].min(olo[a]);
            want_hi[a] = want_hi[a].max(ohi[a]);
        }
    }
    assert_eq!(lo, want_lo);
    assert_eq!(hi, want_hi);
    (start, end)
}

fn check_scene(scene: &Scene) {
    let n = scene.objects.len();
    assert_eq!(scene.nodes.len(), 2 * n - 1);
    assert!(scene.nodes_used >= 1 && scene.nodes_used <= 2 * n - 1);
    let mut seen = vec![false; n];
    assert_eq!(scene.object_indices.len(), n);
    for &i in &scene.object_indices {
        assert!(!seen[i]);
        seen[i] = true;
    }
    let mut leaves = Vec::new();
    assert_eq!(check_subtree(scene, 0, &mut leaves), (0, n));
    let inner = (0..scene.nodes_used).filter(|&i| scene.nodes[i].object_count == 0).count();
    assert_eq!(scene.nodes_used, 2 * inner + 1);
    assert_eq!(leaves.len(), inner + 1);
    let mut covered = vec![0usize; n];
    for (start, count) in leaves {
        for k in start..start + count {
            covered[k] += 1;
        }
    }
    assert!(covered.iter().all(|&c| c == 1));
    for i in scene.nodes_used..scene.nodes.len() {
        assert_eq!(scene.nodes[i].object_count, 0);
        assert_eq!(scene.nodes[i].left_child, -1);
    }
}

#[test]
fn four_spheres_in_a_square_split_once_on_x() {
    let objects = vec![
        sphere(0.0, 0.0, 0.0, 1.0),
        sphere(10.0, 0.0, 0.0, 1.0),
        sphere(0.0, 10.0, 0.0, 1.0),
        sphere(10.0, 10.0, 0.0, 1.0),
    ];
    let scene = Scene::new(objects, camera(), 4, Vec::new());
    assert_eq!(scene.nodes_used, 3);
    let root = &scene.nodes[0];
    assert_eq!(root.object_count, 0);
    assert_eq!(root.left_child, 1);
    assert_eq!(corners(root), ([-1.0, -1.0, -1.0], [11.0, 11.0, 1.0]));
    let left = &scene.nodes[1];
    let right = &scene.nodes[2];
    assert_eq!((left.left_child, left.object_count), (0, 2));
    assert_eq!((right.left_child, right.object_count), (2, 2));
    assert_eq!(scene.object_indices, vec![0, 2, 3, 1]);
    assert_eq!(corners(left), ([-1.0, -1.0, -1.0], [1.0, 11.0, 1.0]));
    assert_eq!(corners(right), ([9.0, -1.0, -1.0], [11.0, 11.0, 1.0]));
    assert_eq!(scene.longest_axis(0), 0);
    check_scene(&scene);
}

#[test]
fn root_of_four_spheres_is_split_at_five() {
    let objects = vec![
        sphere(0.0, 0.0, 0.0, 1.0),
        sphere(10.0, 0.0, 0.0, 1.0),
        sphere(0.0, 10.0, 0.0, 1.0),
        sphere(10.0, 10.0, 0.0, 1.0),
    ];
    let mut scene = Scene {
        objects,
        camera: camera(),
        nodes: vec![Node::default(); 7],
        nodes_used: 1,
        object_indices: vec![0, 1, 2, 3],
        max_bounces: 1,
        object_meshes: Vec::new(),
    };
    scene.nodes[0].left_child = 0;
    scene.nodes[0].object_count = 4;
    scene.update_bounds(0);
    assert_eq!(corners(&scene.nodes[0]), ([-1.0, -1.0, -1.0], [11.0, 11.0, 1.0]));
    let axis = scene.longest_axis(0);
    assert_eq!(axis, 0);
    // The middle of -1 .. 11 is 5: spheres at 0 go left, spheres at 10 right.
    let (split, first_right) = scene.median_split(0, axis);
    assert_eq!((split, first_right), (2, 2));
    assert_eq!(scene.object_indices, vec![0, 2, 3, 1]);
}

#[test]
fn objects_at_one_place_stay_in_one_leaf() {
    let objects: Vec<Object> = (0..9).map(|_| sphere(0.0, 0.0, 0.0, 1.0)).collect();
    let scene = Scene::new(objects, camera(), 4, Vec::new());
    assert_eq!(scene.nodes_used, 1);
    assert_eq!(scene.nodes[0].object_count, 9);
    assert_eq!(scene.nodes[0].left_child, 0);
    assert_eq!(scene.nodes.len(), 17);
    check_scene(&scene);
}

#[test]
fn triangles_at_one_place_stay_in_one_leaf() {
    let objects: Vec<Object> = (0..5)
        .map(|_| triangle([0.0, 0.0, 0.0], [1.0, 0.0, 0.0], [0.0, 1.0, 0.0]))
        .collect();
    let scene = Scene::new(objects, camera(), 4, Vec::new());
    assert_eq!(scene.nodes_used, 1);
    assert_eq!(scene.nodes[0].object_count, 5);
    check_scene(&scene);
}

#[test]
fn one_object_is_one_leaf() {
    let scene = Scene::new(vec![sphere(1.0, 2.0, 3.0, 0.5)], camera(), 4, Vec::new());
    assert_eq!(scene.nodes.len(), 1);
    assert_eq!(scene.nodes_used, 1);
    assert_eq!(scene.nodes[0].object_count, 1);
    assert_eq!(corners(&scene.nodes[0]), ([0.5, 1.5, 2.5], [1.5, 2.5, 3.5]));
    check_scene(&scene);
}

#[test]
fn two_objects_are_not_split() {
    let scene =
        Scene::new(vec![sphere(0.0, 0.0, 0.0, 1.0), sphere(100.0, 0.0, 0.0, 1.0)], camera(), 4, Vec::new());
    assert_eq!(scene.nodes_used, 1);
    assert_eq!(scene.nodes[0].object_count, 2);
    assert_eq!(scene.object_indices, vec![0, 1]);
    check_scene(&scene);
}

#[test]
fn three_objects_in_a_row_split_twice() {
    let scene = Scene::new(
        vec![sphere(0.0, 0.0, 0.0, 1.0), sphere(10.0, 0.0, 0.0, 1.0), sphere(4.0, 0.0, 0.0, 1.0)],
        camera(),
        4,
        Vec::new(),
    );
    // Middle of -1 .. 11 is 5: the spheres at 0 and at 4 go left.
    assert_eq!(scene.nodes_used, 3);
    assert_eq!(scene.nodes[1].object_count, 2);
    assert_eq!(scene.nodes[2].object_count, 1);
    assert_eq!(scene.object_indices, vec![0, 2, 1]);
    check_scene(&scene);
}

#[test]
fn equal_extents_prefer_x_then_y_then_z() {
    let mut scene = Scene {
        objects: vec![sphere(0.0, 0.0, 0.0, 1.0)],
        camera: camera(),
        nodes: vec![Node::default(); 1],
        nodes_used: 1,
        object_indices: vec![0],
        max_bounces: 1,
        object_meshes: Vec::new(),
    };
    let boxes: Vec<([f32; 3], usize)> = vec![
        ([1.0, 1.0, 1.0], 0),
        ([2.0, 1.0, 1.0], 0),
        ([1.0, 2.0, 1.0], 1),
        ([1.0, 1.0, 2.0], 2),
        ([2.0, 2.0, 1.0], 0),
        ([2.0, 1.0, 2.0], 0),
        ([1.0, 2.0, 2.0], 1),
        ([3.0, 2.0, 1.0], 0),
        ([1.0, 3.0, 2.0], 1),
        ([1.0, 2.0, 3.0], 2),
        ([2.0, 3.0, 3.0], 1),
    ];
    for (size, want) in boxes {
        scene.nodes[0].min_corner = v(0.0, 0.0, 0.0);
        scene.nodes[0].max_corner = v(size[0], size[1], size[2]);
        assert_eq!(scene.longest_axis(0), want, "{:?}", size);
    }
}

#[test]
fn mixed_scenes_keep_every_rule() {
    for (n, seed) in [(3usize, 1u64), (4, 2), (5, 3), (8, 4), (17, 5), (40, 6), (100, 7), (257, 8)] {
        let scene = Scene::new(mixed_objects(n, seed), camera(), 4, Vec::new());
        check_scene(&scene);
    }
}

#[test]
fn every_leaf_of_a_spread_scene_is_small() {
    let scene = Scene::new(mixed_objects(200, 11), camera(), 4, Vec::new());
    check_scene(&scene);
    assert!(scene.nodes_used > 1);
    for i in 0..scene.nodes_used {
        assert!(scene.nodes[i].object_count <= 2);
    }
}

#[test]
fn a_nan_coordinate_moves_no_box() {
    let objects = vec![
        sphere(0.0, 0.0, 0.0, 1.0),
        sphere(f32::NAN, 5.0, 0.0, 1.0),
        sphere(10.0, 0.0, 0.0, 1.0),
    ];
    let scene = Scene::new(objects, camera(), 4, Vec::new());
    let (lo, hi) = corners(&scene.nodes[0]);
    assert_eq!(lo, [-1.0, -1.0, -1.0]);
    assert_eq!(hi, [11.0, 6.0, 1.0]);
    // The object without a place on x is never below the middle.
    assert_eq!(scene.nodes_used, 3);
    assert_eq!(scene.nodes[1].object_count, 1);
    assert_eq!(scene.nodes[2].object_count, 2);
    assert_eq!(scene.object_indices[0], 0);
}

#[test]
fn update_bounds_grows_the_box_that_is_there() {
    let mut scene = Scene {
        objects: vec![sphere(0.0, 0.0, 0.0, 1.0), triangle([5.0, 5.0, 5.0], [6.0, 7.0, 8.0], [4.0, 9.0, 2.0])],
        camera: camera(),
        nodes: vec![Node::default(); 3],
        nodes_used: 1,
        object_indices: vec![0, 1],
        max_bounces: 1,
        object_meshes: Vec::new(),
    };
    scene.nodes[0].left_child = 1;
    scene.nodes[0].object_count = 1;
    scene.update_bounds(0);
    assert_eq!(corners(&scene.nodes[0]), ([4.0, 5.0, 2.0], [6.0, 9.0, 8.0]));
    scene.nodes[0].left_child = 0;
    scene.update_bounds(0);
    assert_eq!(corners(&scene.nodes[0]), ([-1.0, -1.0, -1.0], [6.0, 9.0, 8.0]));
    assert_eq!(scene.nodes[0].object_count, 1);
    assert_eq!(scene.nodes[1].left_child, -1);
}

#[test]
fn object_position_is_centre_or_centroid() {
    let scene = Scene::new(vec![sphere(1.0, 2.0, 3.0, 0.5)], camera(), 4, Vec::new());
    let sp = sphere(1.0, 2.0, 3.0, 0.5);
    let tr = triangle([0.0, 0.0, 0.0], [3.0, 0.0, 0.0], [0.0, 6.0, 9.0]);
    assert_eq!(f(scene.object_position(&sp, 0)), 1.0);
    assert_eq!(f(scene.object_position(&sp, 1)), 2.0);
    assert_eq!(f(scene.object_position(&sp, 2)), 3.0);
    assert_eq!(f(scene.object_position(&sp, 7)), 3.0);
    assert_eq!(f(scene.object_position(&tr, 0)), 1.0);
    assert_eq!(f(scene.object_position(&tr, 1)), 2.0);
    assert_eq!(f(scene.object_position(&tr, 2)), 3.0);
}

#[test]
fn node_default_is_the_empty_box() {
    let node = Node::default();
    assert_eq!(
        corners(&node),
        ([f32::INFINITY; 3], [f32::NEG_INFINITY; 3])
    );
    assert_eq!(node.left_child, -1);
    assert_eq!(node.object_count, 0);
}

#[test]
fn subdivide_of_a_settled_scene_changes_nothing() {
    let mut scene = Scene::new(mixed_objects(3, 21), camera(), 4, Vec::new());
    let before = (scene.nodes_used, scene.object_indices.clone());
    let leaf = (0..scene.nodes_used).find(|&i| scene.nodes[i].object_count > 0).unwrap();
    scene.subdivide(leaf);
    assert_eq!(before.0, scene.nodes_used);
    check_scene(&scene);
}

#[test]
fn a_large_scene_keeps_every_rule() {
    let scene = Scene::new(mixed_objects(3000, 77), camera(), 4, Vec::new());
    check_scene(&scene);
    assert!(scene.nodes_used > 1000);
}

#[test]
fn make_scene_builds_anew_after_objects_were_added() {
    let mut scene = Scene::new(mixed_objects(5, 31), camera(), 4, Vec::new());
    let first = scene.nodes_used;
    for object in mixed_objects(20, 32) {
        scene.objects.push(object);
    }
    scene.make_scene();
    assert_eq!(scene.nodes.len(), 49);
    assert_eq!(scene.object_indices.len(), 25);
    assert!(scene.nodes_used > first);
    check_scene(&scene);
    scene.build_bvh();
    check_scene(&scene);
}

#[test]
fn building_twice_gives_the_same_hierarchy() {
    let a = Scene::new(mixed_objects(64, 5), camera(), 4, Vec::new());
    let b = Scene::new(mixed_objects(64, 5), camera(), 4, Vec::new());
    assert_eq!(a.nodes_used, b.nodes_used);
    assert_eq!(a.object_indices, b.object_indices);
    assert_eq!(a.flatten_node_data(), b.flatten_node_data());
}

#[test]
fn children_take_the_next_free_nodes() {
    // Eight spheres in a row: the root splits into 1 and 2, node 1 into 3
    // and 4, and node 2 only after everything below node 1 is in place.
    let objects: Vec<Object> =
        (0..8).map(|i| sphere(10.0 * i as f32, 0.0, 0.0, 1.0)).collect();
    let scene = Scene::new(objects, camera(), 4, Vec::new());
    assert_eq!(scene.nodes_used, 7);
    assert_eq!(scene.nodes[0].left_child, 1);
    assert_eq!(scene.nodes[1].left_child, 3);
    assert_eq!(scene.nodes[2].left_child, 5);
    for leaf in 3..7 {
        assert_eq!(scene.nodes[leaf].object_count, 2);
    }
    assert_eq!(scene.nodes[3].left_child, 0);
    assert_eq!(scene.nodes[4].left_child, 2);
    assert_eq!(scene.nodes[5].left_child, 4);
    assert_eq!(scene.nodes[6].left_child, 6);
    check_scene(&scene);
}

#[test]
fn objects_at_infinity_do_not_stop_the_build() {
    let objects = vec![
        sphere(f32::INFINITY, 0.0, 0.0, 1.0),
        sphere(0.0, f32::NEG_INFINITY, 0.0, 1.0),
        sphere(1.0, 2.0, 3.0, f32::INFINITY),
        sphere(4.0, 5.0, 6.0, 1.0),
        sphere(7.0, 8.0, 9.0, 1.0),
    ];
    let scene = Scene::new(objects, camera(), 4, Vec::new());
    assert!(scene.nodes_used % 2 == 1);
    assert!(scene.nodes_used <= 9);
    let mut seen = vec![false; 5];
    for &i in &scene.object_indices {
        seen[i] = true;
    }
    assert!(seen.iter().all(|&b| b));
}

#[test]
fn meshes_give_their_triangles_to_the_scene() {
    let mut first = ObjMesh::new(v(1.0, 1.0, 1.0));
    first.v.push(v(0.0, 0.0, 0.0));
    first.v.push(v(3.0, 0.0, 0.0));
    first.v.push(v(3.0, 3.0, 0.0));
    first.v.push(v(0.0, 3.0, 6.0));
    first.read_face_data(&vec![1, 2, 3, 4]);
    let mut second = ObjMesh::new(v(0.5, 0.5, 0.5));
    second.v.push(v(20.0, 0.0, 0.0));
    second.v.push(v(23.0, 0.0, 0.0));
    second.v.push(v(23.0, 3.0, 0.0));
    second.read_face_data(&vec![3, 2, 1]);
    let empty = ObjMesh::new(v(0.0, 0.0, 0.0));

    let scene =
        Scene::new(vec![sphere(-20.0, 0.0, 0.0, 1.0)], camera(), 4, vec![first, empty, second]);
    assert_eq!(scene.objects.len(), 4);
    assert_eq!(scene.object_meshes.len(), 3);
    assert_eq!(scene.nodes.len(), 7);
    let corner = |i: usize, c: usize| match &scene.objects[i] {
        Object::Triangle(t) => [f(t.corners[c].0), f(t.corners[c].1), f(t.corners[c].2)],
        Object::Sphere(_) => panic!("a triangle was expected"),
    };
    assert!(matches!(scene.objects[0], Object::Sphere(_)));
    assert_eq!(corner(1, 2), [3.0, 3.0, 0.0]);
    assert_eq!(corner(2, 2), [0.0, 3.0, 6.0]);
    assert_eq!(corner(3, 0), [23.0, 3.0, 0.0]);
    check_scene(&scene);
}

#[test]
fn a_scene_of_meshes_alone_can_be_built() {
    let mut mesh = ObjMesh::new(v(1.0, 1.0, 1.0));
    mesh.v.push(v(0.0, 0.0, 0.0));
    mesh.v.push(v(3.0, 0.0, 0.0));
    mesh.v.push(v(3.0, 3.0, 0.0));
    mesh.read_face_data(&vec![1, 2, 3]);
    let scene = Scene::new(Vec::new(), camera(), 4, vec![mesh]);
    assert_eq!(scene.objects.len(), 1);
    assert_eq!(scene.nodes_used, 1);
    check_scene(&scene);
}

#[test]
fn subdivide_leaves_an_inner_node_alone() {
    let mut scene = Scene::new(mixed_objects(40, 9), camera(), 4, Vec::new());
    assert_eq!(scene.nodes[0].object_count, 0);
    let before = (scene.nodes_used, scene.object_indices.clone(), scene.flatten_node_data());
    scene.subdivide(0);
    assert_eq!(before, (scene.nodes_used, scene.object_indices.clone(), scene.flatten_node_data()));
}

#[test]
fn subdivide_builds_the_whole_tree_from_one_leaf() {
    let objects = mixed_objects(33, 10);
    let want = Scene::new(mixed_objects(33, 10), camera(), 4, Vec::new());
    let mut scene = Scene {
        objects,
        camera: camera(),
        nodes: vec![Node::default(); 65],
        nodes_used: 1,
        object_indices: (0..33).collect(),
        max_bounces: 4,
        object_meshes: Vec::new(),
    };
    scene.nodes[0].left_child = 0;
    scene.nodes[0].object_count = 33;
    scene.update_bounds(0);
    scene.subdivide(0);
    assert_eq!(scene.nodes_used, want.nodes_used);
    assert_eq!(scene.object_indices, want.object_indices);
    assert_eq!(scene.flatten_node_data(), want.flatten_node_data());
    check_scene(&scene);
}
