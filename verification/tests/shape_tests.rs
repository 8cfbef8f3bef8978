use raytracer::obj_mesh::corner_number;
use raytracer::{ObjMesh, Scalar, Square, Vec3};

fn s(x: f32) -> Scalar {
    Scalar::from_bits(x.to_bits())
}

fn f(x: Scalar) -> f32 {
    f32::from_bits(x.to_bits())
}

fn v(x: f32, y: f32, z: f32) -> Vec3 {
    Vec3(s(x), s(y), s(z))
}

fn parts(a: Vec3) -> [f32; 3] {
    [f(a.0), f(a.1), f(a.2)]
}

fn sin_cos(x: Scalar) -> (Scalar, Scalar) {
    let (a, b) = f(x).sin_cos();
    (s(a), s(b))
}

fn mean(a: [f32; 3], b: [f32; 3], c: [f32; 3]) -> [f32; 3] {
    [(a[0] + b[0] + c[0]) / 3.0, (a[1] + b[1] + c[1]) / 3.0, (a[2] + b[2] + c[2]) / 3.0]
}

#[test]
fn a_level_square_is_two_triangles() {
    let sq = Square::new(v(1.0, 2.0, 3.0), s(4.0), s(2.0), v(0.0, 1.0, 0.0), s(0.0), &sin_cos);
    assert_eq!(f(sq.size.width), 2.0);
    assert_eq!(f(sq.size.height), 4.0);
    assert_eq!(f(sq.orientation), 0.0);
    assert_eq!(parts(sq.center), [1.0, 2.0, 3.0]);
    assert_eq!(sq.triangles.len(), 2);
    let far_left = [0.0, 2.0, 5.0];
    let far_right = [2.0, 2.0, 5.0];
    let near_left = [0.0, 2.0, 1.0];
    let near_right = [2.0, 2.0, 1.0];
    let first = &sq.triangles[0];
    assert_eq!(parts(first.corners[0]), far_left);
    assert_eq!(parts(first.corners[1]), near_left);
    assert_eq!(parts(first.corners[2]), far_right);
    assert_eq!(parts(first.centroid), mean(far_left, near_left, far_right));
    assert_eq!(parts(first.color), [0.0, 1.0, 0.0]);
    let second = &sq.triangles[1];
    assert_eq!(parts(second.corners[0]), near_left);
    assert_eq!(parts(second.corners[1]), near_right);
    assert_eq!(parts(second.corners[2]), far_right);
    assert_eq!(parts(second.centroid), mean(near_left, near_right, far_right));
}

#[test]
fn a_turned_square_has_turned_corners() {
    let o = 0.7f32;
    let sq = Square::new(v(1.0, 2.0, 3.0), s(4.0), s(2.0), v(0.0, 1.0, 0.0), s(o), &sin_cos);
    let turn = |x: f32, z: f32| {
        [x * o.cos() - z * o.sin() + 1.0, 0.0 + 2.0, x * o.sin() + z * o.cos() + 3.0]
    };
    assert_eq!(parts(sq.triangles[0].corners[0]), turn(-1.0, 2.0));
    assert_eq!(parts(sq.triangles[0].corners[1]), turn(-1.0, -2.0));
    assert_eq!(parts(sq.triangles[0].corners[2]), turn(1.0, 2.0));
    assert_eq!(parts(sq.triangles[1].corners[1]), turn(1.0, -2.0));
}

#[test]
fn a_face_of_four_corners_is_a_fan_of_two() {
    let mut mesh = ObjMesh::new(v(0.5, 0.5, 0.5));
    mesh.v.push(v(0.0, 0.0, 0.0));
    mesh.v.push(v(3.0, 0.0, 0.0));
    mesh.v.push(v(3.0, 3.0, 0.0));
    mesh.v.push(v(0.0, 3.0, 6.0));
    mesh.read_face_data(&vec![1, 2, 3, 4]);
    assert_eq!(mesh.triangles.len(), 2);
    assert_eq!(parts(mesh.triangles[0].corners[0]), [0.0, 0.0, 0.0]);
    assert_eq!(parts(mesh.triangles[0].corners[1]), [3.0, 0.0, 0.0]);
    assert_eq!(parts(mesh.triangles[0].corners[2]), [3.0, 3.0, 0.0]);
    assert_eq!(parts(mesh.triangles[0].centroid), [2.0, 1.0, 0.0]);
    assert_eq!(parts(mesh.triangles[1].corners[0]), [0.0, 0.0, 0.0]);
    assert_eq!(parts(mesh.triangles[1].corners[1]), [3.0, 3.0, 0.0]);
    assert_eq!(parts(mesh.triangles[1].corners[2]), [0.0, 3.0, 6.0]);
    assert_eq!(parts(mesh.triangles[1].centroid), [1.0, 2.0, 2.0]);
    assert_eq!(parts(mesh.triangles[1].color), [0.5, 0.5, 0.5]);
    mesh.read_face_data(&vec![4, 3, 1]);
    assert_eq!(mesh.triangles.len(), 3);
    assert_eq!(parts(mesh.triangles[2].corners[0]), [0.0, 3.0, 6.0]);
}

#[test]
fn a_face_of_fewer_than_three_corners_gives_nothing() {
    let mut mesh = ObjMesh::new(v(0.5, 0.5, 0.5));
    mesh.v.push(v(0.0, 0.0, 0.0));
    mesh.v.push(v(3.0, 0.0, 0.0));
    mesh.read_face_data(&vec![1]);
    mesh.read_face_data(&vec![1, 2]);
    assert_eq!(mesh.triangles.len(), 0);
    assert_eq!(parts(mesh.read_corner(2)), [3.0, 0.0, 0.0]);
}

fn number(text: &str) -> Option<usize> {
    corner_number(&text.as_bytes().to_vec())
}

fn parsed(text: &str) -> Option<usize> {
    text.split('/').next().and_then(|head| head.parse::<usize>().ok())
}

#[test]
fn corner_number_is_what_stands_before_the_first_slash() {
    assert_eq!(number("12/7/3"), Some(12));
    assert_eq!(number("12"), Some(12));
    assert_eq!(number("1//3"), Some(1));
    assert_eq!(number("007/1"), Some(7));
    assert_eq!(number("0"), Some(0));
    assert_eq!(number("+5/1"), Some(5));
    assert_eq!(number("3/x/y"), Some(3));
}

#[test]
fn corner_number_is_none_without_a_number() {
    assert_eq!(number(""), None);
    assert_eq!(number("/3"), None);
    assert_eq!(number("+"), None);
    assert_eq!(number("+/3"), None);
    assert_eq!(number("-1/3"), None);
    assert_eq!(number("1a/2"), None);
    assert_eq!(number("a1/2"), None);
    assert_eq!(number("1 /2"), None);
    assert_eq!(number("++1"), None);
    assert_eq!(number("1+"), None);
    assert_eq!(number("1.5/2"), None);
}

#[test]
fn corner_number_is_none_where_the_number_does_not_fit() {
    let max = usize::MAX.to_string();
    assert_eq!(number(&max), Some(usize::MAX));
    assert_eq!(number(&format!("{}/1", max)), Some(usize::MAX));
    assert_eq!(number(&format!("{}0", max)), None);
    assert_eq!(number("99999999999999999999999999999999999999999"), None);
    assert_eq!(number("000000000000000000000000000000000000000001"), Some(1));
    let mut digits: Vec<u8> = max.clone().into_bytes();
    let last = digits.len() - 1;
    if digits[last] < b'9' {
        digits[last] += 1;
        assert_eq!(corner_number(&digits), None);
    }
}

#[test]
fn corner_number_agrees_with_the_standard_parser() {
    let alphabet = [b'0', b'1', b'9', b'/', b'+', b'-', b' ', b'a'];
    let mut state: u32 = 5;
    for _ in 0..20000 {
        let mut text = String::new();
        state = state.wrapping_mul(1664525).wrapping_add(1013904223);
        let length = (state >> 28) as usize % 7;
        for _ in 0..length {
            state = state.wrapping_mul(1664525).wrapping_add(1013904223);
            text.push(alphabet[(state >> 29) as usize] as char);
        }
        assert_eq!(number(&text), parsed(&text), "{:?}", text);
    }
}
