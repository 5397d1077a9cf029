use engine_ecs::{Command, ComponentRequests, EntityID, World};

#[derive(Clone, Debug, PartialEq, Eq)]
enum Comp {
    C1(u8),
    C2(u32),
    C3(u16),
}

const COMPONENT1: u32 = 0;
const COMPONENT2: u32 = 1;
const COMPONENT3: u32 = 2;

#[derive(Clone, Debug, PartialEq, Eq)]
struct Resource1(u32);

fn new_world() -> World<Comp, Resource1> {
    World::new(3, vec![Resource1(0)])
}

fn reads(types: &[u32]) -> ComponentRequests {
    let mut req = ComponentRequests::new();
    for &t in types {
        req.request(t, false);
        req.require(t);
    }
    req
}

#[test]
fn entity_spawned() {
    let mut world = new_world();
    world.spawn(vec![(COMPONENT1, Comp::C1(0)), (COMPONENT2, Comp::C2(1)), (COMPONENT3, Comp::C3(2))]);
    world.spawn(vec![(COMPONENT1, Comp::C1(3)), (COMPONENT2, Comp::C2(4)), (COMPONENT3, Comp::C3(5))]);
    world.spawn(vec![(COMPONENT1, Comp::C1(6)), (COMPONENT2, Comp::C2(7))]);
    assert_eq!(world.entity_count(), 3)
}

#[test]
fn entity_spawn_and_get() {
    let mut world = new_world();
    let ent1 = world.spawn(vec![(COMPONENT1, Comp::C1(0)), (COMPONENT2, Comp::C2(1)), (COMPONENT3, Comp::C3(2))]);
    let ent2 = world.spawn(vec![(COMPONENT2, Comp::C2(7))]);
    let ent3 = world.spawn(vec![(COMPONENT1, Comp::C1(3)), (COMPONENT2, Comp::C2(4)), (COMPONENT3, Comp::C3(5))]);

    assert_eq!(world.get(ent1, COMPONENT1), Some(&Comp::C1(0)));
    assert_eq!(world.get(ent1, COMPONENT2), Some(&Comp::C2(1)));
    assert_eq!(world.get(ent1, COMPONENT3), Some(&Comp::C3(2)));
    assert_eq!(world.get(ent2, COMPONENT2), Some(&Comp::C2(7)));
    assert_eq!(world.get(ent3, COMPONENT1), Some(&Comp::C1(3)));
    assert_eq!(world.get(ent3, COMPONENT2), Some(&Comp::C2(4)));
    assert_eq!(world.get(ent3, COMPONENT3), Some(&Comp::C3(5)));
}

#[test]
fn entity_spawn_and_get_mut() {
    let mut world = new_world();
    let ent1 = world.spawn(vec![(COMPONENT1, Comp::C1(0)), (COMPONENT2, Comp::C2(1)), (COMPONENT3, Comp::C3(2))]);
    assert_eq!(world.get(ent1, COMPONENT1), Some(&Comp::C1(0)));
    if let Some(Comp::C1(v)) = world.get_mut(ent1, COMPONENT1) {
        *v = 10;
    }
    assert_eq!(world.get(ent1, COMPONENT1), Some(&Comp::C1(10)));
}

#[test]
fn set_replaces_and_returns_the_old_component() {
    let mut world = new_world();
    let ent = world.spawn(vec![(COMPONENT2, Comp::C2(1))]);
    assert_eq!(world.set(ent, COMPONENT2, Comp::C2(5)), Some(Comp::C2(1)));
    assert_eq!(world.get(ent, COMPONENT2), Some(&Comp::C2(5)));
    assert_eq!(world.set(ent, COMPONENT1, Comp::C1(5)), None);
    assert_eq!(world.get(ent, COMPONENT1), None);
    assert!(world.get_mut(ent, COMPONENT3).is_none());
}

#[test]
fn entity_spawn_and_despawn() {
    let mut world = new_world();
    let ent1 = world.spawn(vec![(COMPONENT1, Comp::C1(0))]);
    let ent2 = world.spawn(vec![(COMPONENT1, Comp::C1(2))]);
    assert_eq!(world.get(ent1, COMPONENT1), Some(&Comp::C1(0)));
    assert_eq!(world.get(ent2, COMPONENT1), Some(&Comp::C1(2)));
    assert_eq!(world.entity_count(), 2);
    world.despawn(ent1);
    assert_eq!(world.entity_count(), 1);
    assert_eq!(world.get(ent1, COMPONENT1), None);
    assert_eq!(world.get(ent2, COMPONENT1), Some(&Comp::C1(2)));
}

#[test]
fn resource() {
    let mut world = new_world();
    assert_eq!(world.resource(0).0, 0);
    world.resource_mut(0).0 += 10;
    assert_eq!(world.resource(0).0, 10);
}

#[test]
fn spawn_get_round_trip_covers_every_registered_type() {
    let mut world = new_world();
    let ent = world.spawn(vec![(COMPONENT3, Comp::C3(9)), (COMPONENT1, Comp::C1(4))]);
    assert_eq!(world.get(ent, COMPONENT1), Some(&Comp::C1(4)));
    assert_eq!(world.get(ent, COMPONENT2), None);
    assert_eq!(world.get(ent, COMPONENT3), Some(&Comp::C3(9)));
    assert_eq!(world.get(ent, 7), None);
    let empty = world.spawn(vec![]);
    assert_eq!(world.get(empty, COMPONENT1), None);
    assert_eq!(world.entity_count(), 2);
}

#[test]
fn despawn_from_the_middle_moves_the_last_member() {
    let mut world = new_world();
    let ents: Vec<EntityID> = (0..4u8)
        .map(|i| world.spawn(vec![(COMPONENT1, Comp::C1(i)), (COMPONENT2, Comp::C2(100 + i as u32))]))
        .collect();
    assert!(world.despawn(ents[1]));
    assert_eq!(world.entity_count(), 3);
    assert_eq!(world.get(ents[1], COMPONENT1), None);
    assert_eq!(world.get(ents[1], COMPONENT2), None);
    for &i in &[0usize, 2, 3] {
        assert_eq!(world.get(ents[i], COMPONENT1), Some(&Comp::C1(i as u8)));
        assert_eq!(world.get(ents[i], COMPONENT2), Some(&Comp::C2(100 + i as u32)));
    }
    assert!(!world.despawn(ents[1]));
    assert_eq!(world.entity_count(), 3);
    let order: Vec<EntityID> = world.query(&reads(&[COMPONENT1]));
    assert_eq!(order, vec![ents[0], ents[3], ents[2]]);
}

#[test]
fn despawned_handle_is_not_reused_for_a_new_entity() {
    let mut world = new_world();
    let old = world.spawn(vec![(COMPONENT1, Comp::C1(1))]);
    assert!(world.despawn(old));
    let fresh = world.spawn(vec![(COMPONENT1, Comp::C1(2))]);
    assert_ne!(old, fresh);
    assert_eq!(world.get(old, COMPONENT1), None);
    assert_eq!(world.get(fresh, COMPONENT1), Some(&Comp::C1(2)));
    assert_eq!(EntityID::from_raw(fresh.to_raw()), fresh);
}

#[test]
fn same_type_set_shares_an_archetype() {
    let mut world = new_world();
    let a = world.spawn(vec![(COMPONENT1, Comp::C1(1)), (COMPONENT2, Comp::C2(2))]);
    let b = world.spawn(vec![(COMPONENT3, Comp::C3(3))]);
    let c = world.spawn(vec![(COMPONENT2, Comp::C2(5)), (COMPONENT1, Comp::C1(4))]);
    assert_eq!(world.query(&reads(&[COMPONENT1])), vec![a, c]);
    assert_eq!(world.query(&ComponentRequests::new()), vec![a, c, b]);
}

#[test]
fn queries_over_nested_type_sets() {
    let mut world = new_world();
    let abc = world.spawn(vec![(COMPONENT1, Comp::C1(0)), (COMPONENT2, Comp::C2(1)), (COMPONENT3, Comp::C3(2))]);
    world.spawn(vec![(COMPONENT1, Comp::C1(3)), (COMPONENT2, Comp::C2(4))]);
    world.spawn(vec![(COMPONENT1, Comp::C1(5))]);
    assert_eq!(world.query(&reads(&[COMPONENT1])).len(), 3);
    assert_eq!(world.query(&reads(&[COMPONENT2, COMPONENT3])).len(), 1);
    assert!(world.despawn(abc));
    assert_eq!(world.query(&reads(&[COMPONENT1])).len(), 2);
    assert_eq!(world.query(&reads(&[COMPONENT2, COMPONENT3])).len(), 0);
}

#[test]
fn resource_change_is_seen_for_one_cycle() {
    let mut world = new_world();
    assert!(!world.resource_changed(0));
    world.resource_mut(0).0 = 4;
    assert!(!world.resource_changed(0));
    world.next_cycle();
    assert!(world.resource_changed(0));
    world.next_cycle();
    assert!(!world.resource_changed(0));
}

#[test]
fn commands_apply_to_the_world() {
    let mut world = new_world();
    let e = world.spawn(vec![(COMPONENT1, Comp::C1(1))]);
    let spawned = world.apply_command(Command::Spawn(vec![(COMPONENT2, Comp::C2(8))])).unwrap();
    assert_eq!(world.get(spawned, COMPONENT2), Some(&Comp::C2(8)));
    assert_eq!(world.apply_command(Command::Spawn(vec![(COMPONENT2, Comp::C2(1)), (COMPONENT2, Comp::C2(2))])), None);
    assert_eq!(world.apply_command(Command::Spawn(vec![(9, Comp::C2(1))])), None);
    assert_eq!(world.apply_command(Command::Despawn(e)), None);
    assert_eq!(world.get(e, COMPONENT1), None);
    assert_eq!(world.apply_command(Command::SetResource(0, Resource1(42))), None);
    assert_eq!(world.resource(0), &Resource1(42));
    assert_eq!(world.apply_command(Command::SetResource(5, Resource1(1))), None);
    assert_eq!(world.entity_count(), 1);
}

#[test]
fn bundle_validity() {
    let world = new_world();
    assert!(world.bundle_valid(&vec![(COMPONENT1, Comp::C1(1)), (COMPONENT3, Comp::C3(1))]));
    assert!(world.bundle_valid(&vec![]));
    assert!(!world.bundle_valid(&vec![(COMPONENT1, Comp::C1(1)), (COMPONENT1, Comp::C1(2))]));
    assert!(!world.bundle_valid(&vec![(3, Comp::C1(1))]));
}
