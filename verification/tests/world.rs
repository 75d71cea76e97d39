use tb_ecs::world::{ResourceId, World};

struct TestResource {
    value: i32,
}

impl TestResource {
    fn new(value: i32) -> Self {
        Self { value }
    }
}

#[test]
fn world_works() {
    let mut world: World<TestResource> = World::default();
    let rid = ResourceId::new(1);
    let test_resource = world.try_fetch(rid);
    assert!(test_resource.is_err());
    world.insert(rid, || TestResource::new(10));
    assert!(world.try_fetch(rid).is_ok());
    assert_eq!(world.fetch(rid).value, 10);
    let resource: &mut TestResource = world.fetch_mut(rid);
    resource.value = 20;
    assert_eq!(world.fetch(rid).value, 20);
}

#[test]
fn fetch_mut_error() {
    let mut world: World<TestResource> = World::default();
    let result = world.try_fetch_mut(ResourceId::new(1));
    assert!(result.is_err());
}

#[test]
fn insert_is_idempotent() {
    let mut world: World<TestResource> = World::default();
    let rid = ResourceId::new(3);
    world.insert(rid, || TestResource::new(10));
    let existing = world.insert(rid, || TestResource::new(99));
    assert_eq!(existing.value, 10);
    assert_eq!(world.fetch(rid).value, 10);
}

#[test]
fn fetch_error_names_the_resource() {
    let world: World<TestResource> = World::default();
    let rid = ResourceId::new(42);
    match world.try_fetch(rid) {
        Ok(_) => panic!("expected a fetch error on an empty store"),
        Err(e) => assert_eq!(e.resource_id(), rid),
    }
}

#[test]
fn contains_tracks_insertions() {
    let mut world: World<TestResource> = World::default();
    let rid = ResourceId::new(5);
    assert!(!world.contains(rid));
    world.insert(rid, || TestResource::new(1));
    assert!(world.contains(rid));
    assert!(!world.contains(ResourceId::new(6)));
}
