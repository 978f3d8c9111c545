use duckforge::physics::{first_of_each_pair, touching, BodyStore};

#[test]
fn add_remove_and_retain() {
    // Each body is its x position.
    let mut world: BodyStore<f32> = BodyStore::new();
    let a = world.add(0.0);
    let b = world.add(10.0);
    let c = world.add(20.0);
    assert_eq!(world.len(), 3);

    assert!(world.remove(a).is_some());
    assert!(world.remove(a).is_none());
    assert!(world.get(a).is_none());
    assert!(world.get(b).is_some()); // other ids still work

    world.retain(|_, &x| x < 15.0);
    assert!(world.get(c).is_none());
    assert_eq!(world.ids(), vec![b]);
}

#[test]
fn add_remove_and_retain_ids() {
    let mut world: BodyStore<i32> = BodyStore::new();
    assert!(world.is_empty());
    let a = world.add(10);
    let b = world.add(20);
    let c = world.add(15);
    assert_eq!(world.len(), 3);
    assert_eq!(world.get(b), Some(&20));
    assert_eq!(world.remove(b), Some(20));
    assert_eq!(world.remove(b), None);
    assert_eq!(world.get(b), None);
    assert_eq!(world.get(c), Some(&15)); // other ids stay valid
    assert_eq!(world.len(), 2);
    world.retain(|_, &v| v > 12);
    assert_eq!(world.get(a), None);
    assert_eq!(world.ids(), vec![c]);
    if let Some(v) = world.get_mut(c) {
        *v = 99;
    }
    assert_eq!(world.get(c), Some(&99));
    let d = world.add(1);
    assert_ne!(d, b); // ids are never handed out twice
    assert_eq!(world.len(), 2);
}

#[test]
fn touching_pairs_in_either_order() {
    let mut world: BodyStore<()> = BodyStore::new();
    let a = world.add(());
    let b = world.add(());
    let c = world.add(());
    let pairs = [(a, b), (a, b), (c, a), (a, b)];
    assert!(touching(&pairs, b, a));
    assert!(touching(&pairs, a, c));
    assert!(!touching(&pairs, b, c));
    assert_eq!(first_of_each_pair(&pairs), vec![0, 2]);
}
