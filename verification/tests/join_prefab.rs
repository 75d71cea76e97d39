use tb_ecs::join::{join, ComponentStorage};
use tb_ecs::prefab::{
    ComponentStorageInPrefab, ConvertToWorld, Entities, Entity, Prefab, PrefabLink,
};

#[test]
fn join_intersects_two_sources_in_ascending_order() {
    let mut s1: ComponentStorage<u32> = ComponentStorage::new();
    s1.insert(1, 10);
    s1.insert(3, 30);
    s1.insert(5, 50);
    let mut s2: ComponentStorage<i64> = ComponentStorage::new();
    s2.insert(3, 300);
    s2.insert(5, 500);
    s2.insert(7, 700);
    let mut it = join((&s1, &s2));
    let first = it.next().unwrap();
    assert_eq!((*first.0, *first.1), (30, 300));
    let second = it.next().unwrap();
    assert_eq!((*second.0, *second.1), (50, 500));
    assert!(it.next().is_none());
}

#[test]
fn join_order_is_source_order_independent() {
    let mut s1: ComponentStorage<u32> = ComponentStorage::new();
    s1.insert(5, 50);
    s1.insert(1, 10);
    let mut s2: ComponentStorage<u32> = ComponentStorage::new();
    s2.insert(1, 100);
    s2.insert(5, 500);
    let mut forward = join((&s1, &s2));
    let mut backward = join((&s2, &s1));
    let f1 = forward.next().unwrap();
    let b1 = backward.next().unwrap();
    assert_eq!((*f1.0, *f1.1), (10, 100));
    assert_eq!((*b1.0, *b1.1), (100, 10));
    let f2 = forward.next().unwrap();
    let b2 = backward.next().unwrap();
    assert_eq!((*f2.0, *f2.1), (50, 500));
    assert_eq!((*b2.0, *b2.1), (500, 50));
    assert!(forward.next().is_none());
    assert!(backward.next().is_none());
}

#[test]
fn single_source_join_yields_all_in_ascending_order() {
    let mut s: ComponentStorage<u32> = ComponentStorage::new();
    s.insert(8, 80);
    s.insert(2, 20);
    s.insert(4, 40);
    let mut it = join(&s);
    assert_eq!(*it.next().unwrap(), 20);
    assert_eq!(*it.next().unwrap(), 40);
    assert_eq!(*it.next().unwrap(), 80);
    assert!(it.next().is_none());
}

#[test]
fn storage_insert_replaces_by_id() {
    let mut s: ComponentStorage<u32> = ComponentStorage::new();
    s.insert(4, 40);
    s.insert(4, 41);
    assert!(s.contains_id(4));
    assert_eq!(*s.get(4), 41);
    let mut it = join(&s);
    assert_eq!(*it.next().unwrap(), 41);
    assert!(it.next().is_none());
}

#[derive(Clone)]
struct Component0 {
    value: i32,
}

#[derive(Clone)]
struct Component1 {
    entity_a: Entity,
}

#[derive(Clone)]
struct Component2 {
    entity_a: Entity,
    entity_b: Entity,
}

impl ConvertToWorld for Component0 {
    fn convert_to_world(&mut self, _link: &mut PrefabLink, _entities: &mut Entities) {}
}

impl ConvertToWorld for Component1 {
    fn convert_to_world(&mut self, link: &mut PrefabLink, entities: &mut Entities) {
        self.entity_a.convert_to_world(link, entities);
    }
}

impl ConvertToWorld for Component2 {
    fn convert_to_world(&mut self, link: &mut PrefabLink, entities: &mut Entities) {
        self.entity_a.convert_to_world(link, entities);
        self.entity_b.convert_to_world(link, entities);
    }
}

#[test]
fn convert_to_world() {
    let entities_in_source: Vec<Entity> = {
        let mut source_world_entities = Entities::new();
        (0..16).map(|_i| source_world_entities.new_entity()).collect()
    };

    let mut components0 = ComponentStorageInPrefab::<Component0>::default();
    components0.insert(Entity::new(10), Component0 { value: 10 });
    let mut components1 = ComponentStorageInPrefab::<Component1>::default();
    components1.insert(
        Entity::new(7),
        Component1 {
            entity_a: entities_in_source[15],
        },
    );
    let mut components2 = ComponentStorageInPrefab::<Component2>::default();
    components2.insert(
        Entity::new(15),
        Component2 {
            entity_a: entities_in_source[7],
            entity_b: entities_in_source[10],
        },
    );
    let prefab = Prefab::new(Entity::new(15));

    let mut entities = Entities::new();
    let mut link = PrefabLink::new();
    let mut storage0: ComponentStorage<Component0> = ComponentStorage::new();
    let mut storage1: ComponentStorage<Component1> = ComponentStorage::new();
    let mut storage2: ComponentStorage<Component2> = ComponentStorage::new();
    let mut prefab_links: ComponentStorage<PrefabLink> = ComponentStorage::new();

    assert!(components0.attach(&mut storage0, &mut link, &mut entities).is_ok());
    assert!(components1.attach(&mut storage1, &mut link, &mut entities).is_ok());
    assert!(components2.attach(&mut storage2, &mut link, &mut entities).is_ok());
    prefab.attach(link, &mut entities, &mut prefab_links);

    for component0 in [join(&storage0).next().unwrap()] {
        assert_eq!(component0.value, 10);
    }
    for component1 in [join(&storage1).next().unwrap()] {
        assert_eq!(component1.entity_a, Entity::new(1));
    }
    for component2 in [join(&storage2).next().unwrap()] {
        assert_eq!(component2.entity_a, Entity::new(2));
        assert_eq!(component2.entity_b, Entity::new(0));
    }
    // the completed link is stored under the root's world entity
    assert!(prefab_links.contains_id(1));
}

#[test]
fn build_link_is_stable_per_local_entity() {
    let mut link = PrefabLink::new();
    let mut entities = Entities::new();
    let first = link.build_link(Entity::new(9), &mut entities);
    let again = link.build_link(Entity::new(9), &mut entities);
    let other = link.build_link(Entity::new(4), &mut entities);
    assert_eq!(first, again);
    assert_eq!(first, Entity::new(0));
    assert_eq!(other, Entity::new(1));
}
