use duckforge::color::Color;
use duckforge::gpu::{
    instance_capacity, instance_ranges, padded_bytes_per_row, sample, still_cached, FastHasher,
    EVICT_AFTER_FLUSHES,
};
use duckforge::render3d::{Mesh, Triangle};

fn fx(h: u64, n: u64) -> u64 {
    (h.rotate_left(5) ^ n).wrapping_mul(0x51_7c_c1_b7_27_22_0a_95)
}

#[test]
fn rows_are_padded_to_the_alignment() {
    assert_eq!(padded_bytes_per_row(64, 256), 256);
    assert_eq!(padded_bytes_per_row(65, 256), 512);
    assert_eq!(padded_bytes_per_row(0, 256), 0);
    assert_eq!(padded_bytes_per_row(320, 256), 1280);
    // The widest row whose padded length still fits in a u32.
    assert_eq!(padded_bytes_per_row(1_073_741_760, 256), 4_294_967_040);
}

#[test]
fn fast_hasher_mixes_in_order() {
    let mut h = FastHasher::new();
    assert_eq!(h.finish(), 0);
    h.write_u64(7);
    assert_eq!(h.finish(), fx(0, 7));
    h.write_usize(3);
    assert_eq!(h.finish(), fx(fx(0, 7), 3));
    let mut b = FastHasher::default();
    b.write(&[1, 2]);
    assert_eq!(b.finish(), fx(fx(0, 1), 2));
    assert_ne!(b.finish(), fx(fx(0, 2), 1));
}

#[test]
fn sample_picks_first_middle_last() {
    let mut mesh: Mesh<i32> = Mesh::new();
    for v in [10, 20, 30, 40, 50] {
        mesh.add_vertex(v);
    }
    mesh.add_triangle(0, 1, 2, Color::RED());
    let s = sample(&mesh);
    assert_eq!(s.vertices, [Some(10), Some(30), Some(50)]);
    let t = Some(Triangle { corners: [0, 1, 2], color: Color::RED() });
    assert_eq!(s.triangles, [t, t, t]);
    let empty: Mesh<i32> = Mesh::new();
    assert_eq!(sample(&empty).vertices, [None, None, None]);
}

#[test]
fn corner_list_carries_triangle_colors() {
    let mut mesh: Mesh<char> = Mesh::new();
    mesh.add_vertex('a');
    mesh.add_vertex('b');
    mesh.add_vertex('c');
    mesh.add_triangle(2, 1, 0, Color::BLUE());
    mesh.add_triangle(0, 0, 1, Color::GREEN());
    let corners = mesh.corner_list();
    assert_eq!(
        corners,
        vec![
            ('c', Color::BLUE()),
            ('b', Color::BLUE()),
            ('a', Color::BLUE()),
            ('a', Color::GREEN()),
            ('a', Color::GREEN()),
            ('b', Color::GREEN()),
        ]
    );
}

#[test]
fn meshes_leave_the_cache_after_a_while() {
    assert_eq!(EVICT_AFTER_FLUSHES, 120);
    assert!(still_cached(5, 5));
    assert!(still_cached(125, 5));
    assert!(!still_cached(126, 5));
}

#[test]
fn batches_follow_each_other_in_the_instance_buffer() {
    assert_eq!(instance_ranges(&[3, 0, 2]), vec![(0, 3), (3, 3), (3, 5)]);
    assert_eq!(instance_ranges(&[]), vec![]);
}

#[test]
fn instance_buffer_grows_to_powers_of_two() {
    assert_eq!(instance_capacity(0), 1);
    assert_eq!(instance_capacity(1), 1);
    assert_eq!(instance_capacity(3), 4);
    assert_eq!(instance_capacity(1024), 1024);
    assert_eq!(instance_capacity(1025), 2048);
}
