use pathtracer::cuboid::{faces, Corner, Edge, End, Face};

fn end(corner: &Corner, axis: u8) -> End {
    match axis {
        0 => corner.x,
        1 => corner.y,
        _ => corner.z,
    }
}

/// The corner as a point of the box between (0, 0, 0) and (1, 1, 1).
fn point(corner: &Corner) -> [i32; 3] {
    let at = |e: End| if e == End::High { 1 } else { 0 };
    [at(corner.x), at(corner.y), at(corner.z)]
}

fn vector(edge: &Edge) -> [i32; 3] {
    let mut v = [0, 0, 0];
    v[edge.axis as usize] = if edge.reversed { -1 } else { 1 };
    v
}

fn cross(a: [i32; 3], b: [i32; 3]) -> [i32; 3] {
    [
        a[1] * b[2] - a[2] * b[1],
        a[2] * b[0] - a[0] * b[2],
        a[0] * b[1] - a[1] * b[0],
    ]
}

#[test]
fn faces_come_front_right_back_left_top_bottom() {
    let list = faces();
    let front = Face {
        corner: Corner { x: End::Low, y: End::Low, z: End::High },
        u: Edge { axis: 0, reversed: false },
        v: Edge { axis: 1, reversed: false },
    };
    let right = Face {
        corner: Corner { x: End::High, y: End::Low, z: End::High },
        u: Edge { axis: 2, reversed: true },
        v: Edge { axis: 1, reversed: false },
    };
    let back = Face {
        corner: Corner { x: End::High, y: End::Low, z: End::Low },
        u: Edge { axis: 0, reversed: true },
        v: Edge { axis: 1, reversed: false },
    };
    let left = Face {
        corner: Corner { x: End::Low, y: End::Low, z: End::Low },
        u: Edge { axis: 2, reversed: false },
        v: Edge { axis: 1, reversed: false },
    };
    let top = Face {
        corner: Corner { x: End::Low, y: End::High, z: End::High },
        u: Edge { axis: 0, reversed: false },
        v: Edge { axis: 2, reversed: true },
    };
    let bottom = Face {
        corner: Corner { x: End::Low, y: End::Low, z: End::Low },
        u: Edge { axis: 0, reversed: false },
        v: Edge { axis: 2, reversed: false },
    };
    assert_eq!(list, [front, right, back, left, top, bottom]);
}

#[test]
fn every_face_stays_on_the_box() {
    for face in faces() {
        let q = point(&face.corner);
        let u = vector(&face.u);
        let v = vector(&face.v);
        for (a, b) in [(0, 0), (1, 0), (0, 1), (1, 1)] {
            for axis in 0..3 {
                let c = q[axis] + a * u[axis] + b * v[axis];
                assert!(c == 0 || c == 1);
            }
        }
    }
}

#[test]
fn every_normal_points_outward() {
    let expected = [[0, 0, 1], [1, 0, 0], [0, 0, -1], [-1, 0, 0], [0, 1, 0], [0, -1, 0]];
    for (face, normal) in faces().iter().zip(expected) {
        assert_eq!(cross(vector(&face.u), vector(&face.v)), normal);
        let axis = normal.iter().position(|c| *c != 0).unwrap();
        let side = end(&face.corner, axis as u8);
        assert_eq!(side == End::High, normal[axis] == 1);
    }
}

#[test]
fn every_side_is_closed_once() {
    let mut sides = Vec::new();
    for face in faces() {
        let axis = 3 - face.u.axis - face.v.axis;
        sides.push((axis, end(&face.corner, axis) == End::High));
    }
    sides.sort();
    assert_eq!(
        sides,
        vec![(0, false), (0, true), (1, false), (1, true), (2, false), (2, true)]
    );
}
