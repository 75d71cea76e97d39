use tb_ecs::asset::{AssetDirectory, AssetStore};

#[test]
fn paths_intern_to_stable_dense_identifiers() {
    let mut directory = AssetDirectory::new();
    let (id_a, new_a) = directory.lookup_or_register(String::from("models/tree.json"));
    let (id_b, new_b) = directory.lookup_or_register(String::from("models/rock.json"));
    let (id_a2, new_a2) = directory.lookup_or_register(String::from("models/tree.json"));
    assert_eq!(id_a, 0);
    assert_eq!(id_b, 1);
    assert_eq!(id_a2, id_a);
    assert!(new_a);
    assert!(new_b);
    assert!(!new_a2);
}

#[test]
fn completed_assets_are_found_by_identifier() {
    let mut store: AssetStore<String> = AssetStore::new();
    assert!(store.get(0).is_none());
    store.complete(0, String::from("tree"));
    assert!(store.contains(0));
    assert_eq!(store.get(0), Some(&String::from("tree")));
    assert!(store.get(1).is_none());
}
