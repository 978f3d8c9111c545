use duckforge::rng::Rng;

#[test]
fn same_seed_same_sequence() {
    let mut a = Rng::new(42);
    let mut b = Rng::new(42);
    for _ in 0..100 {
        assert_eq!(a.next_u32(), b.next_u32());
    }
}

#[test]
fn zero_seed_still_works() {
    let mut rng = Rng::new(0);
    assert_ne!(rng.next_u32(), 0);
}

#[test]
fn xorshift_first_values() {
    // 1 -> 1 ^ (1 << 13) = 0x2001, then ^ (>> 17) keeps it, then ^ (<< 5).
    let mut rng = Rng::new(1);
    assert_eq!(rng.next_u32(), 0x2001 ^ (0x2001 << 5));
    assert_eq!(rng.next_u32(), 67634689);
}

#[test]
fn ranges_stay_in_bounds() {
    let mut rng = Rng::new(7);
    for _ in 0..10_000 {
        let i = rng.range_i32(-5, 5);
        assert!((-5..5).contains(&i));
    }
    assert_eq!(rng.range_i32(3, 3), 3);
    assert_eq!(rng.range_i32(4, -4), 4);
    let v = rng.range_i32(i32::MIN, i32::MAX);
    assert!(v < i32::MAX);
}

#[test]
fn range_i32_reduces_the_next_value() {
    let mut a = Rng::new(99);
    let mut b = Rng::new(99);
    let v = a.next_u32();
    assert_eq!(b.range_i32(10, 17), 10 + (v % 7) as i32);
    // An empty range draws nothing, so the two stay in step.
    assert_eq!(b.range_i32(5, 5), 5);
    assert_eq!(a.next_u32(), b.next_u32());
}

#[test]
fn clones_continue_the_same_sequence() {
    let mut a = Rng::new(5);
    a.next_u32();
    let mut b = a.clone();
    assert_eq!(a.next_u32(), b.next_u32());
}

#[test]
fn clock_seeded_generators_are_not_stuck() {
    let mut rng = Rng::from_time();
    assert_ne!(rng.next_u32(), 0);
}

#[test]
fn clock_readings_seed_the_generator() {
    let mut from_reading = Rng::from_clock_reading(Some(42));
    let mut direct = Rng::new(42);
    assert_eq!(from_reading.next_u32(), direct.next_u32());
    // A clock set before 1970 seeds with 1.
    let mut early = Rng::from_clock_reading(None);
    let mut one = Rng::new(1);
    assert_eq!(early.next_u32(), one.next_u32());
    // A reading of zero is replaced like a zero seed.
    let mut zero = Rng::from_clock_reading(Some(0));
    assert_ne!(zero.next_u32(), 0);
}

#[test]
fn each_draw_is_the_xorshift_of_the_one_before() {
    fn xs(x: u32) -> u32 {
        let x = x ^ (x << 13);
        let x = x ^ (x >> 17);
        x ^ (x << 5)
    }
    let mut rng = Rng::new(0);
    let mut previous = 0x9E37_79B9;
    for _ in 0..1000 {
        let x = rng.next_u32();
        assert_eq!(x, xs(previous));
        assert_ne!(x, 0);
        previous = x;
    }
}
