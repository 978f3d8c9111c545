use duckforge::color::Color;
use duckforge::render3d::{Mesh, Renderer, Triangle};

type P = (f32, f32, f32);

fn sub(a: P, b: P) -> P {
    (a.0 - b.0, a.1 - b.1, a.2 - b.2)
}

fn cross(a: P, b: P) -> P {
    (a.1 * b.2 - a.2 * b.1, a.2 * b.0 - a.0 * b.2, a.0 * b.1 - a.1 * b.0)
}

fn dot(a: P, b: P) -> f32 {
    a.0 * b.0 + a.1 * b.1 + a.2 * b.2
}

fn cube(color: Color) -> Mesh<P> {
    let h = 0.5;
    Mesh::cube(
        color,
        [
            (-h, -h, -h),
            (h, -h, -h),
            (h, h, -h),
            (-h, h, -h),
            (-h, -h, h),
            (h, -h, h),
            (h, h, h),
            (-h, h, h),
        ],
    )
}

fn pyramid(color: Color) -> Mesh<P> {
    let h = 0.5;
    Mesh::pyramid(color, [(-h, -h, -h), (h, -h, -h), (h, -h, h), (-h, -h, h)], (0.0, h, 0.0))
}

fn sphere(color: Color, segments: usize) -> Mesh<P> {
    let rings = (segments.max(3) / 2).max(2);
    let segs = segments.max(3);
    Mesh::sphere(color, segments, move |ring: usize, segment: usize| {
        let down = std::f32::consts::PI * ring as f32 / rings as f32;
        let around = std::f32::consts::TAU * segment as f32 / segs as f32;
        (down.sin() * around.cos() * 0.5, down.cos() * 0.5, down.sin() * around.sin() * 0.5)
    })
}

/// Every triangle's front should face away from the center of a solid shape.
fn assert_faces_point_outward(mesh: &Mesh<P>) {
    for triangle in &mesh.triangles {
        let [a, b, c] = triangle.corners.map(|i| mesh.vertices[i]);
        let normal = cross(sub(b, a), sub(c, a));
        let middle = ((a.0 + b.0 + c.0) / 3.0, (a.1 + b.1 + c.1) / 3.0, (a.2 + b.2 + c.2) / 3.0);
        assert!(dot(normal, middle) > 0.0, "triangle {triangle:?} faces inward");
    }
}

#[test]
fn built_in_meshes_face_outward() {
    assert_faces_point_outward(&cube(Color::RED()));
    assert_faces_point_outward(&pyramid(Color::RED()));
    assert_faces_point_outward(&sphere(Color::RED(), 12));
    assert_eq!(cube(Color::RED()).triangles.len(), 12);
}

#[test]
fn sphere_counts() {
    let s = sphere(Color::BLUE(), 12);
    assert_eq!(s.vertices.len(), 2 + 5 * 12);
    assert_eq!(s.triangles.len(), 12 * 2 * 5);
    // Too few segments are raised to 3 slices and 2 rings.
    let small = sphere(Color::BLUE(), 0);
    assert_eq!(small.vertices.len(), 2 + 3);
    assert_eq!(small.triangles.len(), 3 * 2);
    assert!(small.triangles.iter().all(|t| t.corners.iter().all(|&i| i < 5)));
    assert_eq!(small.triangles[0].corners, [0, 3, 2]);
    assert_eq!(small.triangles[1].corners, [2, 3, 1]);
}

#[test]
fn building_a_mesh_by_hand() {
    let mut mesh: Mesh<u8> = Mesh::new();
    assert_eq!(mesh.add_vertex(10), 0);
    assert_eq!(mesh.add_vertex(20), 1);
    assert_eq!(mesh.add_vertex(30), 2);
    assert_eq!(mesh.add_vertex(40), 3);
    mesh.add_quad(0, 1, 2, 3, Color::GREEN());
    assert_eq!(
        mesh.triangles,
        vec![
            Triangle { corners: [0, 1, 2], color: Color::GREEN() },
            Triangle { corners: [0, 2, 3], color: Color::GREEN() },
        ]
    );
    let recolored = mesh.with_color(Color::BLUE());
    assert!(recolored.triangles.iter().all(|t| t.color == Color::BLUE()));
    assert_eq!(recolored.triangles[1].corners, [0, 2, 3]);
    assert_eq!(recolored.vertices, vec![10, 20, 30, 40]);
}

#[test]
fn pyramid_sides() {
    let p = pyramid(Color::YELLOW());
    assert_eq!(p.vertices.len(), 5);
    assert_eq!(p.triangles[2].corners, [0, 4, 1]);
    assert_eq!(p.triangles[5].corners, [3, 4, 0]);
    assert_eq!(Renderer::default(), Renderer::Auto);
}

fn checkerboard(tiles: usize, tile_size: f32, a: Color, b: Color) -> Mesh<P> {
    let half = tiles as f32 * tile_size / 2.0;
    let corner = move |i: usize| i as f32 * tile_size - half;
    Mesh::checkerboard(tiles, a, b, move |x: usize, z: usize| (corner(x), 0.0, corner(z)))
}

#[test]
fn checkerboard_faces_up() {
    let floor = checkerboard(4, 1.0, Color::WHITE(), Color::BLACK());
    assert_eq!(floor.triangles.len(), 4 * 4 * 2);
    for triangle in &floor.triangles {
        let [a, b, c] = triangle.corners.map(|i| floor.vertices[i]);
        assert!(cross(sub(b, a), sub(c, a)).1 > 0.0);
    }
}

#[test]
fn checkerboard_alternates_colors() {
    let floor = checkerboard(3, 2.0, Color::WHITE(), Color::BLACK());
    assert_eq!(floor.vertices.len(), 16);
    assert_eq!(floor.vertices[5], (-1.0, 0.0, -1.0));
    let colors: Vec<Color> = floor.triangles.iter().step_by(2).map(|t| t.color).collect();
    assert_eq!(colors[0], Color::WHITE());
    assert_eq!(colors[1], Color::BLACK());
    assert_eq!(colors[3], Color::BLACK()); // row 1, column 0
    assert_eq!(floor.triangles[2].corners, [1, 5, 6]);
}
