use winehouse::entity::Entity;
use winehouse::world::World;

#[test]
fn spawn_and_despawn() {
    let mut world = World::new();
    let e1 = world.spawn();
    let e2 = world.spawn();
    assert_eq!(world.entity_count(), 2);
    assert!(world.is_alive(e1));
    assert!(world.is_alive(e2));

    world.despawn(e1);
    assert!(!world.is_alive(e1));
    assert_eq!(world.entity_count(), 1);

    // Recycled index gets new generation
    let e3 = world.spawn();
    assert_eq!(e3.index(), e1.index());
    assert_ne!(e3.generation(), e1.generation());
}

#[test]
fn insert_and_get_component() {
    let mut world = World::new();
    let entity = world.spawn();
    world.insert(entity, 42u32);
    world.insert(entity, String::from("hello"));

    assert_eq!(world.get::<u32>(entity), Some(&42));
    assert_eq!(world.get::<String>(entity), Some(&String::from("hello")));
    assert_eq!(world.get::<f64>(entity), None);
}

#[test]
fn fresh_slots_are_numbered_from_zero_with_generation_zero() {
    let mut world = World::new();
    let a = world.spawn();
    let b = world.spawn();
    let c = world.spawn();
    assert_eq!((a.index(), a.generation()), (0, 0));
    assert_eq!((b.index(), b.generation()), (1, 0));
    assert_eq!((c.index(), c.generation()), (2, 0));
    assert_eq!(world.entity_count(), 3);
}

#[test]
fn despawned_handle_stays_dead_after_slot_is_reused() {
    let mut world = World::new();
    let e1 = world.spawn();
    world.despawn(e1);
    let e2 = world.spawn();
    assert_eq!(e2, Entity::new(e1.index(), e1.generation() + 1));
    assert!(world.is_alive(e2));
    assert!(!world.is_alive(e1));
    world.despawn(e2);
    let e3 = world.spawn();
    assert_eq!(e3.generation(), 2);
    assert!(!world.is_alive(e1));
    assert!(!world.is_alive(e2));
    assert!(world.is_alive(e3));
}

#[test]
fn freed_slots_are_reused_last_freed_first() {
    let mut world = World::new();
    let a = world.spawn();
    let b = world.spawn();
    let _c = world.spawn();
    world.despawn(a);
    world.despawn(b);
    let d = world.spawn();
    let e = world.spawn();
    assert_eq!(d.index(), b.index());
    assert_eq!(e.index(), a.index());
    let f = world.spawn();
    assert_eq!((f.index(), f.generation()), (3, 0));
    assert_eq!(world.entity_count(), 4);
}

#[test]
fn despawn_of_dead_or_unknown_handle_changes_nothing() {
    let mut world = World::new();
    let a = world.spawn();
    world.despawn(a);
    assert_eq!(world.entity_count(), 0);
    world.despawn(a);
    world.despawn(Entity::new(57, 0));
    assert_eq!(world.entity_count(), 0);
    let b = world.spawn();
    assert_eq!((b.index(), b.generation()), (0, 1));
    assert_eq!(world.entity_count(), 1);
}

#[test]
fn despawn_removes_every_component_of_the_entity() {
    let mut world = World::new();
    let a = world.spawn();
    let b = world.spawn();
    world.insert(a, 1u8);
    world.insert(a, String::from("a"));
    world.insert(b, 2u8);
    world.despawn(a);
    assert_eq!(world.get::<u8>(a), None);
    assert_eq!(world.get::<String>(a), None);
    assert_eq!(world.get::<u8>(b), Some(&2));
    let c = world.spawn();
    assert_eq!(c.index(), a.index());
    assert_eq!(world.get::<u8>(c), None);
}

#[test]
fn insert_replaces_a_component_of_the_same_type() {
    let mut world = World::new();
    let a = world.spawn();
    world.insert(a, 5i32);
    world.insert(a, 6i32);
    assert_eq!(world.get::<i32>(a), Some(&6));
}

#[test]
fn get_mut_writes_through() {
    let mut world = World::new();
    let a = world.spawn();
    world.insert(a, vec![1u32, 2]);
    if let Some(v) = world.get_mut::<Vec<u32>>(a) {
        v.push(3);
    }
    assert_eq!(world.get::<Vec<u32>>(a), Some(&vec![1u32, 2, 3]));
    assert!(world.get_mut::<u64>(a).is_none());
}

#[test]
fn stale_handle_reads_no_component() {
    let mut world = World::new();
    let e1 = world.spawn();
    world.despawn(e1);
    let e3 = world.spawn();
    world.insert(e3, 7u32);
    assert_eq!(world.get::<u32>(e1), None);
    assert_eq!(world.get::<u32>(e3), Some(&7));
    assert!(world.get_mut::<u32>(e1).is_none());
    let newer = Entity::new(e3.index(), e3.generation() + 7);
    assert_eq!(world.get::<u32>(newer), None);
}

#[test]
fn handle_for_a_freed_slot_is_not_alive() {
    let mut world = World::new();
    let e1 = world.spawn();
    let e2 = world.spawn();
    world.despawn(e1);
    let f = Entity::new(e1.index(), e1.generation() + 1);
    assert!(!world.is_alive(f));
    world.despawn(f);
    assert_eq!(world.entity_count(), 1);
    assert!(world.is_alive(e2));
    let a = world.spawn();
    let b = world.spawn();
    assert_ne!(a, b);
    assert_eq!(a, f);
    assert!(world.is_alive(a));
    assert!(world.is_alive(b));
    assert_eq!(world.entity_count(), 3);
}

#[test]
fn insert_through_a_dead_handle_does_not_reach_the_next_entity() {
    let mut world = World::new();
    let e1 = world.spawn();
    world.despawn(e1);
    world.insert(e1, 5u32);
    let e3 = world.spawn();
    assert_eq!(e3.index(), e1.index());
    assert_eq!(world.get::<u32>(e3), None);
    world.insert(Entity::new(40, 0), 1u8);
    let fresh = world.spawn();
    assert_eq!(world.get::<u8>(fresh), None);
}

#[test]
fn default_world_is_empty() {
    let world = World::default();
    assert_eq!(world.entity_count(), 0);
    assert!(!world.is_alive(Entity::new(0, 0)));
}

#[test]
fn entity_packs_index_low_and_generation_high() {
    let e = Entity::new(0x1234_5678, 0x9abc_def0);
    assert_eq!(e.id(), 0x9abc_def0_1234_5678);
    assert_eq!(e.index(), 0x1234_5678);
    assert_eq!(e.generation(), 0x9abc_def0);
    let m = Entity::new(u32::MAX, u32::MAX);
    assert_eq!(m.id(), u64::MAX);
    assert_eq!(Entity::new(m.index(), m.generation()), m);
    assert_ne!(Entity::new(1, 0), Entity::new(0, 1));
}

#[test]
fn alive_exactly_when_spawned_and_not_despawned_since() {
    let mut world = World::new();
    let mut issued: Vec<(Entity, bool)> = Vec::new();
    let plan = [true, true, true, false, true, false, false, true, true, false, true];
    for (step, spawn) in plan.iter().enumerate() {
        if *spawn {
            let e = world.spawn();
            assert!(issued.iter().all(|(f, _)| *f != e));
            issued.push((e, true));
        } else {
            let k = step % issued.len();
            let e = issued[k].0;
            world.despawn(e);
            issued[k].1 = false;
        }
        for (e, alive) in &issued {
            assert_eq!(world.is_alive(*e), *alive);
        }
        let live = issued.iter().filter(|(_, alive)| *alive).count();
        assert_eq!(world.entity_count(), live);
    }
}
