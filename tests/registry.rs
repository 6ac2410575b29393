use instance_fleet::claim::{claim_request, close_request};
use instance_fleet::model::{
    Children, HealthCheck, InstanceDescription, InstanceId, InstanceType, KillInstanceRequest, KillReason,
    Relationship, Services, SystemMetrics, TimestampMs,
};
use instance_fleet::registry::Registry;
use instance_fleet::rules::RegistryError;

fn id(s: &str) -> InstanceId {
    InstanceId { instance_id: s.to_string() }
}

fn add_request(s: &str, t: InstanceType) -> InstanceDescription {
    InstanceDescription { instance_id: Some(id(s)), instance_type: Some(t), ..Default::default() }
}

fn heartbeat(s: &str) -> InstanceDescription {
    InstanceDescription { instance_id: Some(id(s)), health_check: Some(HealthCheck { timestamp_ms: None }), ..Default::default() }
}

fn kill(s: &str, reason: KillReason) -> InstanceDescription {
    InstanceDescription {
        instance_id: Some(id(s)),
        kill_instance_request: Some(KillInstanceRequest { kill_reason: reason, timestamp_ms: None }),
        ..Default::default()
    }
}

fn registry_with(ids: &[(&str, InstanceType)], now: u64) -> Registry {
    let mut r = Registry::new();
    for (s, t) in ids {
        assert_eq!(r.try_add_instance(add_request(s, *t), now), Ok(true));
    }
    r
}

#[test]
fn add_then_get_returns_a_fresh_record() {
    let mut r = Registry::new();
    assert_eq!(r.try_add_instance(add_request("c1", InstanceType::ChromeBrowser), 7), Ok(true));
    let d = r.get_instance(&id("c1")).unwrap();
    let expected = InstanceDescription {
        instance_id: Some(id("c1")),
        instance_type: Some(InstanceType::ChromeBrowser),
        created_timestamp_ms: Some(TimestampMs { timestamp_ms: 7 }),
        ..Default::default()
    };
    assert_eq!(d, expected);
    assert_eq!(r.len(), 1);
}

#[test]
fn adding_a_seen_id_is_refused() {
    let mut r = registry_with(&[("c1", InstanceType::ChromeBrowser)], 1);
    assert_eq!(r.try_add_instance(add_request("c1", InstanceType::Agent), 2), Ok(false));
    assert_eq!(r.len(), 1);
    assert_eq!(r.get_instance(&id("c1")).unwrap().instance_type, Some(InstanceType::ChromeBrowser));
}

#[test]
fn add_with_forbidden_fields_is_invalid() {
    let mut r = Registry::new();
    let mut req = add_request("c1", InstanceType::ChromeBrowser);
    req.health_check = Some(HealthCheck { timestamp_ms: None });
    assert_eq!(r.try_add_instance(req, 1), Err(RegistryError::InvalidRequest));
    let req = InstanceDescription { instance_id: Some(id("c1")), ..Default::default() };
    assert_eq!(r.try_add_instance(req, 1), Err(RegistryError::InvalidRequest));
    assert_eq!(r.len(), 0);
}

#[test]
fn add_with_a_dead_parent_adds_nothing() {
    let mut r = registry_with(&[("p", InstanceType::Agent)], 1);
    assert_eq!(r.try_update_instance_description(&kill("p", KillReason::Killed), 2), Ok(true));
    let mut req = add_request("c", InstanceType::ChromeBrowser);
    req.parent = Some(Relationship { instance_id: Some(id("p")), timestamp_ms: None });
    assert_eq!(r.try_add_instance(req, 3), Ok(false));
    assert_eq!(r.get_instance(&id("c")), Err(RegistryError::InstanceNotFound));
    let mut req = add_request("c", InstanceType::ChromeBrowser);
    req.parent = Some(Relationship { instance_id: Some(id("nobody")), timestamp_ms: None });
    assert_eq!(r.try_add_instance(req, 3), Err(RegistryError::ParentNotFound));
    assert_eq!(r.len(), 1);
}

#[test]
fn update_errors() {
    let mut r = registry_with(&[("a", InstanceType::Agent)], 1);
    assert_eq!(r.try_update_instance_description(&heartbeat("zz"), 2), Err(RegistryError::InstanceNotFound));
    let mut req = heartbeat("a");
    req.instance_type = Some(InstanceType::Agent);
    assert_eq!(r.try_update_instance_description(&req, 2), Err(RegistryError::InvalidRequest));
    let req = InstanceDescription {
        instance_id: Some(id("a")),
        parent: Some(Relationship { instance_id: None, timestamp_ms: None }),
        ..Default::default()
    };
    assert_eq!(r.try_update_instance_description(&req, 2), Err(RegistryError::MissingInstanceId));
    let req = InstanceDescription {
        instance_id: Some(id("a")),
        children: Some(Children { children: vec![Relationship { instance_id: Some(id("ghost")), timestamp_ms: None }] }),
        ..Default::default()
    };
    assert_eq!(r.try_update_instance_description(&req, 2), Err(RegistryError::ChildNotFound));
    assert_eq!(r.post_instance_description(&heartbeat("a"), 2), Err(RegistryError::InvalidRequest));
}

#[test]
fn self_parent_is_refused() {
    let mut r = registry_with(&[("a", InstanceType::Agent)], 1);
    assert_eq!(r.try_update_instance_description(&claim_request(&id("a"), &id("a")), 2), Ok(false));
    assert_eq!(r.get_instance(&id("a")).unwrap().parent, None);
}

#[test]
fn killed_instance_refuses_every_update() {
    let mut r = registry_with(&[("a", InstanceType::Agent), ("b", InstanceType::Agent)], 1);
    assert_eq!(r.try_update_instance_description(&kill("a", KillReason::Timeout), 2), Ok(true));
    assert_eq!(r.try_update_instance_description(&heartbeat("a"), 3), Ok(false));
    assert_eq!(r.try_update_instance_description(&claim_request(&id("a"), &id("b")), 3), Ok(false));
    assert_eq!(r.try_update_instance_description(&kill("a", KillReason::Killed), 3), Ok(false));
    let post = InstanceDescription {
        instance_id: Some(id("a")),
        system_metrics: Some(SystemMetrics { timestamp_ms: None, used_memory_bytes: 1, total_memory_bytes: 2 }),
        ..Default::default()
    };
    assert_eq!(r.post_instance_description(&post, 3), Ok(false));
    let d = r.get_instance(&id("a")).unwrap();
    assert_eq!(d.health_check, None);
    assert_eq!(d.system_metrics, None);
    assert_eq!(d.kill_instance_request, Some(KillInstanceRequest { kill_reason: KillReason::Timeout, timestamp_ms: Some(TimestampMs { timestamp_ms: 2 }) }));
}

#[test]
fn registry_stamps_every_written_record() {
    let mut r = registry_with(&[("a", InstanceType::ChromeBrowser)], 1);
    let req = InstanceDescription {
        instance_id: Some(id("a")),
        health_check: Some(HealthCheck { timestamp_ms: Some(TimestampMs { timestamp_ms: 99999 }) }),
        services: Some(Services {
            timestamp_ms: Some(TimestampMs { timestamp_ms: 5 }),
            chrome_debug_port_service: Some("10.0.0.1:9222".to_string()),
            tzafonwright_service: None,
        }),
        ..Default::default()
    };
    assert_eq!(r.try_update_instance_description(&req, 42), Ok(true));
    let post = InstanceDescription {
        instance_id: Some(id("a")),
        system_metrics: Some(SystemMetrics { timestamp_ms: Some(TimestampMs { timestamp_ms: 3 }), used_memory_bytes: 1, total_memory_bytes: 2 }),
        ..Default::default()
    };
    assert_eq!(r.post_instance_description(&post, 43), Ok(true));
    let d = r.get_instance(&id("a")).unwrap();
    assert_eq!(d.health_check, Some(HealthCheck { timestamp_ms: Some(TimestampMs { timestamp_ms: 42 }) }));
    let s = d.services.unwrap();
    assert_eq!(s.timestamp_ms, Some(TimestampMs { timestamp_ms: 42 }));
    assert_eq!(s.chrome_debug_port_service.as_deref(), Some("10.0.0.1:9222"));
    assert_eq!(d.system_metrics.unwrap().timestamp_ms, Some(TimestampMs { timestamp_ms: 43 }));
    assert_eq!(d.created_timestamp_ms, Some(TimestampMs { timestamp_ms: 1 }));
}

#[test]
fn happy_claim_grants_the_instance_once() {
    let mut r = registry_with(
        &[("c1", InstanceType::ChromeBrowser), ("gw1", InstanceType::WarmpoolChromeProxy), ("gw2", InstanceType::WarmpoolChromeProxy)],
        0,
    );
    assert_eq!(r.try_update_instance_description(&heartbeat("c1"), 10), Ok(true));
    let services = InstanceDescription {
        instance_id: Some(id("c1")),
        services: Some(Services { timestamp_ms: None, chrome_debug_port_service: Some("10.0.0.1:9222".to_string()), tzafonwright_service: None }),
        ..Default::default()
    };
    assert_eq!(r.try_update_instance_description(&services, 11), Ok(true));
    assert_eq!(r.get_all_instances(InstanceType::ChromeBrowser), vec![id("c1")]);
    assert_eq!(r.try_update_instance_description(&claim_request(&id("c1"), &id("gw1")), 12), Ok(true));
    assert_eq!(r.try_update_instance_description(&claim_request(&id("c1"), &id("gw2")), 12), Ok(false));
    let d = r.get_instance(&id("c1")).unwrap();
    assert_eq!(d.parent.unwrap().instance_id, Some(id("gw1")));
    let gw1 = r.get_instance(&id("gw1")).unwrap();
    assert_eq!(gw1.children.unwrap().children, vec![Relationship { instance_id: Some(id("c1")), timestamp_ms: Some(TimestampMs { timestamp_ms: 12 }) }]);
    assert_eq!(r.get_instance(&id("gw2")).unwrap().children, None);
}

#[test]
fn listing_needs_a_heartbeat_and_life() {
    let mut r = registry_with(&[("a", InstanceType::ChromeBrowser), ("b", InstanceType::ChromeBrowser), ("c", InstanceType::Agent)], 0);
    assert!(r.get_all_instances(InstanceType::ChromeBrowser).is_empty());
    for s in ["a", "b", "c"] {
        assert_eq!(r.try_update_instance_description(&heartbeat(s), 1), Ok(true));
    }
    let mut listed = r.get_all_instances(InstanceType::ChromeBrowser);
    listed.sort_by(|x, y| x.instance_id.cmp(&y.instance_id));
    assert_eq!(listed, vec![id("a"), id("b")]);
    assert_eq!(r.try_update_instance_description(&close_request(&id("a")), 2), Ok(true));
    assert_eq!(r.get_all_instances(InstanceType::ChromeBrowser), vec![id("b")]);
    assert_eq!(r.get_all_instances(InstanceType::Agent), vec![id("c")]);
}

#[test]
fn kill_cascades_to_children_and_grandchildren() {
    let mut r = registry_with(&[("p", InstanceType::Agent), ("c", InstanceType::ChromeBrowser), ("g", InstanceType::ChromeBrowser), ("o", InstanceType::ChromeBrowser)], 0);
    assert_eq!(r.try_update_instance_description(&claim_request(&id("c"), &id("p")), 1), Ok(true));
    assert_eq!(r.try_update_instance_description(&claim_request(&id("g"), &id("c")), 1), Ok(true));
    assert_eq!(r.try_update_instance_description(&kill("p", KillReason::Killed), 5), Ok(true));
    let parent_dead = Some(KillInstanceRequest { kill_reason: KillReason::ParentDead, timestamp_ms: Some(TimestampMs { timestamp_ms: 5 }) });
    assert_eq!(r.get_instance(&id("c")).unwrap().kill_instance_request, parent_dead);
    assert_eq!(r.get_instance(&id("g")).unwrap().kill_instance_request, parent_dead);
    assert_eq!(r.get_instance(&id("p")).unwrap().kill_instance_request.unwrap().kill_reason, KillReason::Killed);
    assert_eq!(r.get_instance(&id("o")).unwrap().kill_instance_request, None);
}

#[test]
fn children_write_links_both_ways() {
    let mut r = registry_with(&[("p", InstanceType::Agent), ("c", InstanceType::ChromeBrowser)], 0);
    let req = InstanceDescription {
        instance_id: Some(id("p")),
        children: Some(Children { children: vec![Relationship { instance_id: Some(id("c")), timestamp_ms: None }] }),
        ..Default::default()
    };
    assert_eq!(r.try_update_instance_description(&req, 3), Ok(true));
    assert_eq!(r.get_instance(&id("c")).unwrap().parent, Some(Relationship { instance_id: Some(id("p")), timestamp_ms: Some(TimestampMs { timestamp_ms: 3 }) }));
    assert_eq!(r.try_update_instance_description(&req, 4), Ok(false));
}

#[test]
fn cascade_keeps_earlier_kill_reasons() {
    let mut r = registry_with(&[("p", InstanceType::Agent), ("c", InstanceType::ChromeBrowser), ("g", InstanceType::ChromeBrowser)], 0);
    assert_eq!(r.try_update_instance_description(&claim_request(&id("c"), &id("p")), 1), Ok(true));
    assert_eq!(r.try_update_instance_description(&claim_request(&id("g"), &id("c")), 1), Ok(true));
    assert_eq!(r.try_update_instance_description(&kill("c", KillReason::Timeout), 2), Ok(true));
    assert_eq!(r.get_instance(&id("g")).unwrap().kill_instance_request.unwrap().kill_reason, KillReason::ParentDead);
    assert_eq!(r.try_update_instance_description(&kill("p", KillReason::Killed), 3), Ok(true));
    let c = r.get_instance(&id("c")).unwrap().kill_instance_request.unwrap();
    assert_eq!((c.kill_reason, c.timestamp_ms), (KillReason::Timeout, Some(TimestampMs { timestamp_ms: 2 })));
    let g = r.get_instance(&id("g")).unwrap().kill_instance_request.unwrap();
    assert_eq!(g.timestamp_ms, Some(TimestampMs { timestamp_ms: 2 }));
}

#[test]
fn parent_of_a_dead_instance_cannot_be_claimed_for() {
    let mut r = registry_with(&[("p", InstanceType::Agent), ("c", InstanceType::ChromeBrowser)], 0);
    assert_eq!(r.try_update_instance_description(&kill("p", KillReason::Killed), 1), Ok(true));
    assert_eq!(r.try_update_instance_description(&claim_request(&id("c"), &id("p")), 2), Ok(false));
    let req = InstanceDescription {
        instance_id: Some(id("c")),
        children: Some(Children { children: vec![Relationship { instance_id: Some(id("p")), timestamp_ms: None }] }),
        ..Default::default()
    };
    assert_eq!(r.try_update_instance_description(&req, 2), Ok(false));
    assert_eq!(r.get_instance(&id("c")).unwrap().parent, None);
}

#[test]
fn parent_write_closing_a_cycle_is_refused() {
    let mut r = registry_with(&[("c", InstanceType::Agent), ("p", InstanceType::Agent), ("q", InstanceType::Agent)], 0);
    assert_eq!(r.try_update_instance_description(&claim_request(&id("p"), &id("c")), 1), Ok(true));
    assert_eq!(r.try_update_instance_description(&claim_request(&id("q"), &id("p")), 1), Ok(true));
    assert_eq!(r.try_update_instance_description(&claim_request(&id("c"), &id("p")), 2), Ok(false));
    assert_eq!(r.try_update_instance_description(&claim_request(&id("c"), &id("q")), 2), Ok(false));
    assert_eq!(r.get_instance(&id("c")).unwrap().parent, None);
}

#[test]
fn children_write_closing_a_cycle_is_refused() {
    let mut r = registry_with(&[("a", InstanceType::Agent), ("x", InstanceType::Agent), ("z", InstanceType::Agent), ("w", InstanceType::Agent)], 0);
    assert_eq!(r.try_update_instance_description(&claim_request(&id("x"), &id("a")), 1), Ok(true));
    let adopt = |parent: &str, child: &str| InstanceDescription {
        instance_id: Some(id(parent)),
        children: Some(Children { children: vec![Relationship { instance_id: Some(id(child)), timestamp_ms: None }] }),
        ..Default::default()
    };
    // `a` is an ancestor of `x`: adopting it under `x` would close a cycle
    assert_eq!(r.try_update_instance_description(&adopt("x", "a"), 2), Ok(false));
    // `w` taking `z` both as child and as parent would close a cycle
    let mut both = adopt("w", "z");
    both.parent = Some(Relationship { instance_id: Some(id("z")), timestamp_ms: None });
    assert_eq!(r.try_update_instance_description(&both, 2), Ok(false));
    assert_eq!(r.try_update_instance_description(&adopt("w", "z"), 3), Ok(true));
}
