use tb_ecs::registry::{SystemInfo, SystemRegistry};
use tb_ecs::world::ResourceId;

fn info(id: u64, name: &str, rbw: Vec<u64>, writes: Vec<u64>, raw: Vec<u64>) -> SystemInfo {
    let to_rids = |v: Vec<u64>| v.into_iter().map(ResourceId::new).collect::<Vec<ResourceId>>();
    SystemInfo::new(id, String::from(name), to_rids(rbw), to_rids(writes), to_rids(raw))
}

fn positions(registry: &mut SystemRegistry, count: usize) -> Vec<usize> {
    let mut visitor = match registry.systems() {
        Ok(v) => v,
        Err(_) => panic!("unexpected cycle"),
    };
    let mut pos = vec![usize::MAX; count];
    let mut p = 0;
    while let Some((sys, _wave)) = visitor.next() {
        pos[sys] = p;
        p += 1;
    }
    assert_eq!(p, count);
    pos
}

#[test]
fn it_works() {
    let mut registry = SystemRegistry::new();
    registry.add_system_infos(vec![info(1, "test_system", vec![], vec![], vec![])]);
    let mut has = false;
    let mut visitor = registry.systems().unwrap();
    while let Some(_x) = visitor.next() {
        has = true;
    }
    assert!(has);
    let mut has = false;
    let mut visitor = registry.systems().unwrap();
    while let Some(_x) = visitor.next() {
        has = true;
    }
    assert!(has);
}

#[test]
fn reader_roles_order_the_writer() {
    // B reads resource 1 before its writer, C reads it after, A writes it;
    // whatever the registration order, B runs before A and A before C.
    let mut registry = SystemRegistry::new();
    registry.add_system_infos(vec![
        info(2, "b", vec![1], vec![], vec![]),
        info(3, "c", vec![], vec![], vec![1]),
        info(1, "a", vec![], vec![1], vec![]),
    ]);
    let pos = positions(&mut registry, 3);
    assert!(pos[0] < pos[2], "reads-before-write runs before the writer");
    assert!(pos[2] < pos[1], "reads-after-write runs after the writer");
}

#[test]
fn reregistration_replaces() {
    let mut registry = SystemRegistry::new();
    registry.add_system_infos(vec![
        info(1, "first", vec![], vec![7], vec![]),
        info(2, "other", vec![], vec![], vec![]),
    ]);
    // same identity again: the schedule still holds two systems, not three
    registry.add_system_infos(vec![info(1, "replacement", vec![], vec![7], vec![])]);
    let visitor = registry.systems().unwrap();
    assert_eq!(visitor.len(), 2);
}

#[test]
fn writers_keep_registration_order() {
    let mut registry = SystemRegistry::new();
    registry.add_system_infos(vec![
        info(10, "w1", vec![], vec![7], vec![]),
        info(11, "w2", vec![], vec![7], vec![]),
    ]);
    let first = positions(&mut registry, 2);
    assert!(first[0] < first[1], "earlier-registered writer runs first");
    // force a rebuild and check the relative order is repeatable
    registry.add_system_infos(vec![]);
    let second = positions(&mut registry, 2);
    assert_eq!(first, second);
}

#[test]
fn cycle_is_reported() {
    // A must precede B through resource 1, B must precede A through
    // resource 2: no order exists and the error names both systems.
    let mut registry = SystemRegistry::new();
    registry.add_system_infos(vec![
        info(1, "a", vec![2], vec![1], vec![]),
        info(2, "b", vec![1], vec![2], vec![]),
    ]);
    match registry.systems() {
        Ok(_) => panic!("a cyclic declaration must not be linearized"),
        Err(e) => {
            assert!(e.participants().len() > 0);
            let names = e.names();
            assert!(names.iter().any(|n| n == "a"));
            assert!(names.iter().any(|n| n == "b"));
        },
    }
}

#[test]
fn wavefronts_never_decrease_and_split_dependents() {
    let mut registry = SystemRegistry::new();
    registry.add_system_infos(vec![
        info(1, "a", vec![], vec![1], vec![]),
        info(2, "b", vec![], vec![], vec![1]),
        info(3, "c", vec![], vec![], vec![1]),
    ]);
    let mut visitor = registry.systems().unwrap();
    let mut waves: Vec<(usize, usize)> = Vec::new();
    while let Some(e) = visitor.next() {
        waves.push(e);
    }
    assert_eq!(waves.len(), 3);
    for w in waves.windows(2) {
        assert!(w[0].1 <= w[1].1);
    }
    let wave_of = |sys: usize| waves.iter().find(|e| e.0 == sys).unwrap().1;
    // the writer runs in an earlier wavefront than both readers-after-write
    assert!(wave_of(0) < wave_of(1));
    assert!(wave_of(0) < wave_of(2));
    // the two readers share a wavefront: no constraint between them
    assert_eq!(wave_of(1), wave_of(2));
}

#[test]
fn system_info_exposes_identity_and_name() {
    let s = info(9, "mover", vec![1], vec![2], vec![3]);
    assert_eq!(s.system_type_id(), 9);
    assert_eq!(s.name(), "mover");
}

#[test]
fn resource_info_groups_the_three_roles() {
    let mut registry = SystemRegistry::new();
    registry.add_system_infos(vec![
        info(2, "b", vec![1], vec![], vec![]),
        info(3, "c", vec![], vec![], vec![1]),
        info(1, "a", vec![], vec![1], vec![]),
        info(4, "d", vec![], vec![2], vec![]),
    ]);
    let ri = registry.resource_info(ResourceId::new(1));
    assert_eq!(ri.read_before_write_systems(), &vec![0]);
    assert_eq!(ri.write_systems(), &vec![2]);
    assert_eq!(ri.read_after_write_systems(), &vec![1]);
}
