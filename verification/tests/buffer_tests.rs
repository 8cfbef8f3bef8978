use raytracer::{Camera, Object, Scalar, Scene, Sphere, Triangle, Vec3};

fn s(x: f32) -> Scalar {
    Scalar::from_bits(x.to_bits())
}

fn f(x: Scalar) -> f32 {
    f32::from_bits(x.to_bits())
}

fn v(x: f32, y: f32, z: f32) -> Vec3 {
    Vec3(s(x), s(y), s(z))
}

fn camera() -> Camera {
    Camera {
        position: v(-5.0, 0.25, 7.0),
        forwards: v(1.0, 0.0, 0.0),
        right: v(0.0, -1.0, 0.0),
        up: v(0.0, 0.0, 1.0),
        yaw: s(0.0),
        pitch: s(0.0),
    }
}

fn objects() -> Vec<Object> {
    let mut t = Triangle::new();
    t.corners = [v(1.0, 2.0, 3.0), v(4.0, 5.0, 6.0), v(7.0, 8.0, 9.5)];
    t.color = v(0.1, 0.2, 0.3);
    t.centroid = v(4.0, 5.0, 6.0);
    vec![
        Object::Sphere(Sphere::new(v(0.0, -2.0, 0.5), v(1.0, 0.5, 0.25), s(1.5))),
        Object::Triangle(t),
        Object::Sphere(Sphere::new(v(30.0, 0.0, 0.0), v(0.3, 0.3, 0.3), s(2.0))),
        Object::Sphere(Sphere::new(v(-30.0, 1.0, 0.0), v(0.3, 0.3, 0.3), s(2.0))),
    ]
}

fn bytes_of(values: &[f32]) -> Vec<u8> {
    bytemuck::cast_slice::<f32, u8>(values).to_vec()
}

#[test]
fn scene_parameters_are_sixteen_numbers_in_order() {
    let scene = Scene::new(objects(), camera(), 4, Vec::new());
    let want: [f32; 16] =
        [-5.0, 0.25, 7.0, 0.0, 1.0, 0.0, 0.0, 0.0, 0.0, -1.0, 0.0, 4.0, 0.0, 0.0, 1.0, 4.0];
    assert_eq!(scene.flatten_scene_data(), bytes_of(&want));
}

#[test]
fn object_records_are_seventeen_numbers_each() {
    let scene = Scene::new(objects(), camera(), 4, Vec::new());
    let data = scene.flatten_object_data();
    assert_eq!(data.len(), 4 * 17 * 4);
    let sphere: [f32; 17] = [
        0.0, 0.0, -2.0, 0.5, 1.5, 1.0, 0.5, 0.25, 0.0, 0.0, 0.0, 0.0, 0.0, 0.0, 0.0, 0.0, 0.0,
    ];
    let triangle: [f32; 17] = [
        1.0, 0.0, 0.0, 0.0, 0.0, 0.1, 0.2, 0.3, 1.0, 2.0, 3.0, 4.0, 5.0, 6.0, 7.0, 8.0, 9.5,
    ];
    assert_eq!(data[0..68].to_vec(), bytes_of(&sphere));
    assert_eq!(data[68..136].to_vec(), bytes_of(&triangle));
}

#[test]
fn node_records_cover_the_nodes_in_use_only() {
    let scene = Scene::new(objects(), camera(), 4, Vec::new());
    let data = scene.flatten_node_data();
    assert_eq!(data.len(), scene.nodes_used * 8 * 4);
    let mut want: Vec<f32> = Vec::new();
    for i in 0..scene.nodes_used {
        let node = &scene.nodes[i];
        want.push(f(node.min_corner.0));
        want.push(f(node.min_corner.1));
        want.push(f(node.min_corner.2));
        want.push(node.left_child as f32);
        want.push(f(node.max_corner.0));
        want.push(f(node.max_corner.1));
        want.push(f(node.max_corner.2));
        want.push(node.object_count as f32);
    }
    assert_eq!(data, bytes_of(&want));
    assert!(scene.nodes_used < scene.nodes.len());
}

#[test]
fn node_record_of_the_root_of_one_sphere() {
    let scene = Scene::new(
        vec![Object::Sphere(Sphere::new(v(1.0, 2.0, 3.0), v(0.0, 0.0, 0.0), s(0.5)))],
        camera(),
        1,
        Vec::new(),
    );
    let want: [f32; 8] = [0.5, 1.5, 2.5, 0.0, 1.5, 2.5, 3.5, 1.0];
    assert_eq!(scene.flatten_node_data(), bytes_of(&want));
}

#[test]
fn index_buffer_holds_each_index_as_a_number() {
    let scene = Scene::new(objects(), camera(), 4, Vec::new());
    let want: Vec<f32> = scene.object_indices.iter().map(|&i| i as f32).collect();
    assert_eq!(scene.flatten_object_index_data(), bytes_of(&want));
    assert_eq!(scene.flatten_object_index_data().len(), 16);
}

#[test]
fn flattening_twice_gives_the_same_bytes() {
    let scene = Scene::new(objects(), camera(), 4, Vec::new());
    assert_eq!(scene.flatten_scene_data(), scene.flatten_scene_data());
    assert_eq!(scene.flatten_object_data(), scene.flatten_object_data());
    assert_eq!(scene.flatten_node_data(), scene.flatten_node_data());
    assert_eq!(scene.flatten_object_index_data(), scene.flatten_object_index_data());
}

#[test]
fn words_lie_in_memory_as_the_machine_lays_them() {
    let scene = Scene::new(
        vec![Object::Sphere(Sphere::new(
            Vec3(Scalar::from_bits(0x0102_0304), Scalar::from_bits(0), Scalar::from_bits(0)),
            v(0.0, 0.0, 0.0),
            s(1.0),
        ))],
        camera(),
        1,
        Vec::new(),
    );
    let data = scene.flatten_object_data();
    assert_eq!(data[4..8].to_vec(), 0x0102_0304u32.to_ne_bytes().to_vec());
    assert_ne!(data[4..8].to_vec(), vec![0x04, 0x04, 0x04, 0x04]);
}

#[test]
fn a_scene_without_nodes_in_use_has_an_empty_node_buffer() {
    let scene = Scene {
        objects: objects(),
        camera: camera(),
        nodes: Vec::new(),
        nodes_used: 0,
        object_indices: vec![2, 0],
        max_bounces: 7,
        object_meshes: Vec::new(),
    };
    assert_eq!(scene.flatten_node_data().len(), 0);
    assert_eq!(scene.flatten_object_index_data(), bytes_of(&[2.0, 0.0]));
    let params = scene.flatten_scene_data();
    assert_eq!(params[44..48].to_vec(), bytes_of(&[7.0]));
    assert_eq!(params[60..64].to_vec(), bytes_of(&[2.0]));
}
