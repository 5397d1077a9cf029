use engine_ecs::{AccessError, Command, ComponentRequests, World, WithG, WithoutG};

#[derive(Clone, Debug, PartialEq, Eq)]
enum Comp {
    C1(u8),
    C2(u32),
    C3(u16),
}

const COMPONENT1: u32 = 0;
const COMPONENT2: u32 = 1;
const COMPONENT3: u32 = 2;

#[derive(Clone, Debug, PartialEq, Eq)]
struct Resource1(u32);

fn new_world() -> World<Comp, Resource1> {
    World::new(3, vec![Resource1(0)])
}

fn resource_request(exclusive: bool) -> ComponentRequests {
    let mut req = ComponentRequests::new();
    req.request_resource(0, exclusive);
    req
}

fn component_query(t: u32, exclusive: bool) -> ComponentRequests {
    let mut req = ComponentRequests::new();
    req.request(t, exclusive);
    req.require(t);
    req
}

#[test]
fn parameter_resource() {
    let world = new_world();
    let mut query_world = world.query_world();
    let param = query_world.parameter(vec![resource_request(true)]).unwrap();
    query_world.resource_mut(&param, 0).0 += 10;
    let (world, _) = query_world.finish();

    let mut query_world = world.query_world();
    let param = query_world.parameter(vec![resource_request(false)]).unwrap();
    assert_eq!(query_world.resource(&param, 0).0, 10);
}

#[test]
fn system() {
    let mut world = new_world();
    let ent1 = world.spawn(vec![(COMPONENT1, Comp::C1(5)), (COMPONENT2, Comp::C2(1)), (COMPONENT3, Comp::C3(2))]);

    let mut query_world = world.query_world();
    let res = query_world.parameter(vec![resource_request(true)]).unwrap();
    let query = query_world.parameter(vec![component_query(COMPONENT2, false)]).unwrap();
    let add = match query_world.get(&query, ent1, COMPONENT2) {
        Some(Comp::C2(v)) => *v,
        _ => panic!("component expected"),
    };
    query_world.resource_mut(&res, 0).0 += add;
    let (world, _) = query_world.finish();

    let mut query_world = world.query_world();
    let res = query_world.parameter(vec![resource_request(true)]).unwrap();
    query_world.resource_mut(&res, 0).0 += 10;
    let (world, _) = query_world.finish();

    let param = world.resource(0);
    assert_eq!(param.0, 11);
}

#[test]
fn resource_claims_conflict_within_a_session() {
    let world = new_world();
    let mut query_world = world.query_world();
    let first = query_world.parameter(vec![resource_request(true)]).unwrap();
    assert_eq!(query_world.parameter(vec![resource_request(false)]).err(), Some(AccessError::Incompatible));
    query_world.release_parameter(first);
    assert!(query_world.parameter(vec![resource_request(false)]).is_ok());
}

#[test]
fn two_exclusive_queries_on_one_type_are_refused() {
    let mut world = new_world();
    world.spawn(vec![(COMPONENT1, Comp::C1(0))]);
    let mut query_world = world.query_world();
    assert!(query_world.parameter(vec![component_query(COMPONENT1, true)]).is_ok());
    assert_eq!(
        query_world.parameter(vec![component_query(COMPONENT1, true)]).err(),
        Some(AccessError::Incompatible)
    );
    assert_eq!(
        query_world.parameter(vec![component_query(COMPONENT1, false)]).err(),
        Some(AccessError::Incompatible)
    );
}

#[test]
fn with_and_without_queries_share_a_session() {
    let mut world = new_world();
    let ent1 = world.spawn(vec![(COMPONENT1, Comp::C1(0)), (COMPONENT2, Comp::C2(1)), (COMPONENT3, Comp::C3(2))]);
    let ent2 = world.spawn(vec![(COMPONENT1, Comp::C1(3)), (COMPONENT2, Comp::C2(4)), (COMPONENT3, Comp::C3(5))]);
    let ent3 = world.spawn(vec![(COMPONENT1, Comp::C1(6)), (COMPONENT2, Comp::C2(7))]);

    let mut query_world = world.query_world();
    let mut with = component_query(COMPONENT1, true);
    WithG { type_index: COMPONENT3 }.add_requests(&mut with);
    let mut without = component_query(COMPONENT1, true);
    WithoutG { type_index: COMPONENT3 }.add_requests(&mut without);
    let query1 = query_world.parameter(vec![with]).unwrap();
    let query2 = query_world.parameter(vec![without]).unwrap();

    let first = query_world.query(&query1);
    let second = query_world.query(&query2);
    assert_eq!(first, vec![ent1, ent2]);
    assert_eq!(second, vec![ent3]);
    for e in first {
        if let Some(Comp::C1(v)) = query_world.get(&query1, e, COMPONENT1).cloned() {
            query_world.set(&query1, e, COMPONENT1, Comp::C1(v + 3));
        }
    }
    for e in second {
        if let Some(Comp::C1(v)) = query_world.get(&query2, e, COMPONENT1).cloned() {
            query_world.set(&query2, e, COMPONENT1, Comp::C1(v + 6));
        }
    }
    let (world, _) = query_world.finish();
    assert_eq!(world.get(ent1, COMPONENT1), Some(&Comp::C1(3)));
    assert_eq!(world.get(ent2, COMPONENT1), Some(&Comp::C1(6)));
    assert_eq!(world.get(ent3, COMPONENT1), Some(&Comp::C1(12)));
}

#[test]
fn shared_session_refuses_exclusive_claims() {
    let world = new_world();
    let mut query_world = world.query_world_shared();
    assert!(!query_world.exclusive());
    assert_eq!(
        query_world.parameter(vec![resource_request(true)]).err(),
        Some(AccessError::ExclusiveInShared)
    );
    assert_eq!(query_world.commands().err(), Some(AccessError::ExclusiveInShared));
    assert!(query_world.parameter(vec![resource_request(false)]).is_ok());
}

#[test]
fn commands_apply_by_parameter_index() {
    let world = new_world();
    let mut query_world = world.query_world();
    let first = query_world.commands().unwrap();
    let second = query_world.commands().unwrap();
    assert_eq!(first.param_index, 1);
    assert_eq!(second.param_index, 2);
    query_world.submit(&second, Command::SetResource(0, Resource1(1)));
    query_world.submit(&first, Command::SetResource(0, Resource1(2)));
    query_world.submit(&first, Command::SetResource(0, Resource1(3)));
    let (world, ids) = query_world.finish();
    assert_eq!(ids.len(), 3);
    assert_eq!(world.resource(0), &Resource1(1));
    assert!(world.resource_changed(0));
}

#[test]
fn commands_spawn_and_despawn_after_the_session() {
    let mut world = new_world();
    let doomed = world.spawn(vec![(COMPONENT2, Comp::C2(1))]);
    let mut query_world = world.query_world();
    let commands = query_world.commands().unwrap();
    query_world.submit(&commands, Command::Spawn(vec![(COMPONENT1, Comp::C1(9))]));
    query_world.submit(&commands, Command::Despawn(doomed));
    assert_eq!(query_world.changes().resource_changed(0), false);
    let (world, ids) = query_world.finish();
    let spawned = ids[0].unwrap();
    assert_eq!(ids[1], None);
    assert_eq!(world.get(spawned, COMPONENT1), Some(&Comp::C1(9)));
    assert_eq!(world.get(doomed, COMPONENT2), None);
    assert_eq!(world.entity_count(), 1);
}

#[test]
fn session_end_advances_change_tracking() {
    let world = new_world();
    let mut query_world = world.query_world();
    let res = query_world.parameter(vec![resource_request(true)]).unwrap();
    query_world.resource_mut(&res, 0).0 = 7;
    let (world, _) = query_world.finish();
    let query_world = world.query_world();
    assert!(query_world.changes().resource_changed(0));
    let (world, _) = query_world.finish();
    let query_world = world.query_world();
    assert!(!query_world.changes().resource_changed(0));
}

#[test]
fn guarded_access_respects_the_filter() {
    let mut world = new_world();
    let with_c3 = world.spawn(vec![(COMPONENT1, Comp::C1(1)), (COMPONENT3, Comp::C3(1))]);
    let without_c3 = world.spawn(vec![(COMPONENT1, Comp::C1(2))]);
    let mut query_world = world.query_world();
    let mut with = component_query(COMPONENT1, true);
    WithG { type_index: COMPONENT3 }.add_requests(&mut with);
    let guard = query_world.parameter(vec![with]).unwrap();
    assert_eq!(query_world.get(&guard, with_c3, COMPONENT1), Some(&Comp::C1(1)));
    assert_eq!(query_world.get(&guard, without_c3, COMPONENT1), None);
    assert_eq!(query_world.set(&guard, without_c3, COMPONENT1, Comp::C1(9)), None);
    assert_eq!(query_world.get(&guard, with_c3, COMPONENT3), None);
    assert_eq!(query_world.set(&guard, with_c3, COMPONENT1, Comp::C1(9)), Some(Comp::C1(1)));
    let (world, _) = query_world.finish();
    assert_eq!(world.get(without_c3, COMPONENT1), Some(&Comp::C1(2)));
    assert_eq!(world.get(with_c3, COMPONENT1), Some(&Comp::C1(9)));
}

#[test]
fn shared_session_cannot_write() {
    let mut world = new_world();
    let e = world.spawn(vec![(COMPONENT1, Comp::C1(1))]);
    let mut query_world = world.query_world_shared();
    let guard = query_world.parameter(vec![component_query(COMPONENT1, false)]).unwrap();
    assert_eq!(query_world.set(&guard, e, COMPONENT1, Comp::C1(3)), None);
    assert_eq!(query_world.get(&guard, e, COMPONENT1), Some(&Comp::C1(1)));
}
