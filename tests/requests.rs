use engine_ecs::{ComponentRequests, WithG, WithoutG};

#[test]
fn query_req_disjoint() {
    let mut req1 = ComponentRequests::new();
    let mut req2 = ComponentRequests::new();
    let mut req3 = ComponentRequests::new();
    let mut req4 = ComponentRequests::new();
    let req_empty = ComponentRequests::new();

    req1.require(0);

    req2.require(0);
    req2.require(1);

    req3.require(0);
    req3.exclude(1);

    req4.require(1);

    assert!(!req1.disjoint_with(&req2));
    assert!(!req1.disjoint_with(&req3));
    assert!(req2.disjoint_with(&req3));
    assert!(req3.disjoint_with(&req4));

    assert!(!req3.disjoint_with(&req_empty));
    assert!(!req_empty.disjoint_with(&req3));
}

#[test]
fn query_req_conflict() {
    let mut req1 = ComponentRequests::new();
    let mut req2 = ComponentRequests::new();
    let mut req3 = ComponentRequests::new();
    let mut req4 = ComponentRequests::new();

    req1.request(0, false);
    req1.require(0);

    req2.request(0, false);
    req2.require(0);
    req2.require(1);

    req3.request(0, true);
    req3.require(0);
    req3.exclude(1);

    req4.request(1, true);
    req4.require(1);

    assert!(req1.conflicts_with(&req3));
    assert!(req2.conflicts_with(&req3));
    assert!(!req1.conflicts_with(&req2));
    assert!(!req3.conflicts_with(&req4));
}

#[test]
fn query_req_safe() {
    let mut req1 = ComponentRequests::new();
    let mut req2 = ComponentRequests::new();
    let mut req3 = ComponentRequests::new();
    let mut req4 = ComponentRequests::new();

    req1.request(0, false);
    req1.require(0);

    req2.request(0, false);
    req2.require(0);
    req2.require(1);

    req3.request(0, true);
    req3.require(0);
    req3.exclude(1);

    req4.request(1, true);
    req4.require(1);

    assert!(!req1.safe_with(&req3));
    assert!(req2.safe_with(&req3));
    assert!(req1.safe_with(&req2));
    assert!(req3.safe_with(&req4));
}

#[test]
fn system_parameter_req_disjoint() {
    let mut req1 = ComponentRequests::new();
    let mut req2 = ComponentRequests::new();
    let mut req3 = ComponentRequests::new();
    let mut req4 = ComponentRequests::new();
    let req_empty = ComponentRequests::new();

    req1.require(0);

    req2.require(0);
    req2.require(1);

    req3.require(0);
    req3.exclude(1);

    req4.require(1);

    assert!(!req1.disjoint_with(&req2));
    assert!(!req1.disjoint_with(&req3));
    assert!(req2.disjoint_with(&req3));
    assert!(req3.disjoint_with(&req4));

    assert!(!req3.disjoint_with(&req_empty));
    assert!(!req_empty.disjoint_with(&req3));
}

#[test]
fn system_parameter_req_conflict() {
    let mut req1 = ComponentRequests::new();
    let mut req2 = ComponentRequests::new();
    let mut req3 = ComponentRequests::new();
    let mut req4 = ComponentRequests::new();

    req1.request(0, false);
    req1.require(0);

    req2.request(0, false);
    req2.require(0);
    req2.require(1);

    req3.request(0, true);
    req3.require(0);
    req3.exclude(1);

    req4.request(1, true);
    req4.require(1);

    assert!(req1.conflicts_with(&req3));
    assert!(req2.conflicts_with(&req3));
    assert!(!req1.conflicts_with(&req2));
    assert!(!req3.conflicts_with(&req4));
}

#[test]
fn req_resource() {
    let mut req1 = ComponentRequests::new();
    let mut req2 = ComponentRequests::new();
    let mut req3 = ComponentRequests::new();
    let mut req4 = ComponentRequests::new();

    req1.request_resource(0, false);
    req2.request_resource(0, false);
    req3.request_resource(0, true);
    req4.request_resource(1, true);

    assert!(req1.resource_conflicts_with(&req3));
    assert!(req2.resource_conflicts_with(&req3));
    assert!(!req1.resource_conflicts_with(&req2));
    assert!(!req3.resource_conflicts_with(&req4));
}

#[test]
fn system_parameter_req_safe() {
    let mut req1 = ComponentRequests::new();
    let mut req2 = ComponentRequests::new();
    let mut req3 = ComponentRequests::new();
    let mut req4 = ComponentRequests::new();

    req1.request(0, false);
    req1.require(0);

    req2.request(0, false);
    req2.require(0);
    req2.require(1);

    req3.request(0, true);
    req3.require(0);
    req3.exclude(1);

    req4.request(1, true);
    req4.require(1);

    assert!(!req1.safe_with(&req3));
    assert!(req2.safe_with(&req3));
    assert!(req1.safe_with(&req2));
    assert!(req3.safe_with(&req4));
}

#[test]
fn resource_claims_make_requests_unsafe() {
    let mut a = ComponentRequests::new();
    let mut b = ComponentRequests::new();
    a.request_resource(3, true);
    b.request_resource(3, false);
    assert!(!a.safe_with(&b));
    assert!(!b.safe_with(&a));
    assert!(a.any_exclusive());
    assert!(!b.any_exclusive());
}

#[test]
fn filters_by_with_and_without() {
    let mut a = ComponentRequests::new();
    let mut b = ComponentRequests::new();
    a.request(0, true);
    WithG { type_index: 3 }.add_requests(&mut a);
    b.request(0, true);
    WithoutG { type_index: 3 }.add_requests(&mut b);
    assert!(a.conflicts_with(&b));
    assert!(a.disjoint_with(&b));
    assert!(a.safe_with(&b));
    assert!(a.satisfied_by(&vec![0, 3]));
    assert!(!a.satisfied_by(&vec![0, 2]));
    assert!(b.satisfied_by(&vec![0, 2]));
    assert!(!b.satisfied_by(&vec![0, 3]));
    assert!(b.exclude_satisfied(&vec![]));
    assert!(!a.require_satisfied(&vec![]));
}

#[test]
fn release_drops_claims() {
    let mut a = ComponentRequests::new();
    let mut b = ComponentRequests::new();
    a.request(1, true);
    b.request(1, false);
    assert!(!a.safe_with(&b));
    a.release();
    assert!(a.safe_with(&b));
    assert!(!a.any_exclusive());
}

#[test]
fn repeated_requests_are_kept_once() {
    let mut a = ComponentRequests::new();
    a.request(2, false);
    a.request(2, false);
    a.require(5);
    a.require(1);
    a.require(5);
    assert!(a.satisfied_by(&vec![1, 5]));
    assert!(!a.satisfied_by(&vec![5]));
}
