use instance_fleet::claim::{get_proxy_config, is_claimable, ProxyType};
use instance_fleet::container::{create_services_from_args, parse_url_from_line};
use instance_fleet::heartbeat::{heartbeat_step, HeartbeatAction, HeartbeatOutcome, MAX_RETRIES};
use instance_fleet::ids::{generate_instance_id, get_timestamp_ms};
use instance_fleet::model::{
    HealthCheck, InstanceDescription, InstanceId, InstanceType, KillInstanceRequest, KillReason, Relationship,
    Services, TimestampMs,
};
use instance_fleet::proxy_metrics::{Connections, ProxyDirection, ProxyState};
use instance_fleet::reaper::unhealth_instance;
use instance_fleet::registry::Registry;
use instance_fleet::rewrite::PathOverride;
use instance_fleet::version::{check_version, VersionError};

fn id(s: &str) -> InstanceId {
    InstanceId { instance_id: s.to_string() }
}

fn ts(ms: u64) -> Option<TimestampMs> {
    Some(TimestampMs { timestamp_ms: ms })
}

fn record(t: InstanceType, created: u64, health: Option<u64>) -> InstanceDescription {
    InstanceDescription {
        instance_id: Some(id("x")),
        instance_type: Some(t),
        created_timestamp_ms: ts(created),
        health_check: health.map(|h| HealthCheck { timestamp_ms: ts(h) }),
        ..Default::default()
    }
}

fn verdict(d: &InstanceDescription, now: u64) -> Option<KillReason> {
    unhealth_instance(d, &TimestampMs { timestamp_ms: now })
}

#[test]
fn browser_heartbeat_window_edges() {
    let d = record(InstanceType::ChromeBrowser, 0, Some(10_000));
    assert_eq!(verdict(&d, 14_999), None);
    assert_eq!(verdict(&d, 15_000), None);
    assert_eq!(verdict(&d, 15_001), Some(KillReason::HealthCheckFailed));
}

#[test]
fn browser_without_heartbeat_counts_from_creation() {
    let d = record(InstanceType::FakeInstance, 1000, None);
    assert_eq!(verdict(&d, 6000), None);
    assert_eq!(verdict(&d, 6001), Some(KillReason::HealthCheckFailed));
}

#[test]
fn browser_claimed_for_over_an_hour_times_out_first() {
    let mut d = record(InstanceType::ChromeBrowser, 0, Some(0));
    d.parent = Some(Relationship { instance_id: Some(id("p")), timestamp_ms: ts(0) });
    assert_eq!(verdict(&d, 3_600_001), Some(KillReason::Timeout));
    assert_eq!(verdict(&d, 3_600_000), Some(KillReason::HealthCheckFailed));
}

#[test]
fn browser_living_over_a_day_is_killed() {
    let d = record(InstanceType::ChromeBrowser, 0, Some(86_400_001));
    assert_eq!(verdict(&d, 86_400_001), Some(KillReason::Killed));
    assert_eq!(verdict(&d, 86_400_000), None);
}

#[test]
fn agent_in_grace_is_never_killed() {
    let d = record(InstanceType::Agent, 100_000, None);
    assert_eq!(verdict(&d, 159_999), None);
    assert_eq!(verdict(&d, 50_000), None);
    assert_eq!(verdict(&d, 160_000), Some(KillReason::HealthCheckFailed));
    let d = record(InstanceType::Agent, 0, Some(59_000));
    assert_eq!(verdict(&d, 64_000), None);
    assert_eq!(verdict(&d, 64_001), Some(KillReason::HealthCheckFailed));
}

#[test]
fn other_types_are_left_alone() {
    let d = record(InstanceType::WarmpoolChromeProxy, 0, None);
    assert_eq!(verdict(&d, u64::MAX), None);
}

#[test]
fn reaper_pass_kills_stale_browser_only() {
    let mut r = Registry::new();
    for s in ["c1", "c2"] {
        let req = InstanceDescription { instance_id: Some(id(s)), instance_type: Some(InstanceType::ChromeBrowser), ..Default::default() };
        assert_eq!(r.try_add_instance(req, 0), Ok(true));
    }
    let beat = |s: &str| InstanceDescription { instance_id: Some(id(s)), health_check: Some(HealthCheck { timestamp_ms: None }), ..Default::default() };
    assert_eq!(r.try_update_instance_description(&beat("c1"), 0), Ok(true));
    assert_eq!(r.try_update_instance_description(&beat("c2"), 4000), Ok(true));
    let now = TimestampMs { timestamp_ms: 5100 };
    let flagged = r.get_unhealth_instances(&now);
    assert_eq!(flagged.len(), 1);
    assert_eq!(flagged[0].instance_id, Some(id("c1")));
    r.kill_unhealth_instances(&now);
    let c1 = r.get_instance(&id("c1")).unwrap();
    assert_eq!(c1.kill_instance_request, Some(KillInstanceRequest { kill_reason: KillReason::HealthCheckFailed, timestamp_ms: ts(5100) }));
    assert_eq!(r.get_instance(&id("c2")).unwrap().kill_instance_request, None);
}

#[test]
fn version_guard() {
    assert_eq!(check_version("v1", None), Err(VersionError::NoVersionSupplied));
    assert_eq!(check_version("v1", Some("v2")), Err(VersionError::WrongProtocolVersions));
    assert_eq!(check_version("v1", Some("v1")), Ok(()));
    assert_eq!(VersionError::NoVersionSupplied.message(), "No version supplied");
    assert_eq!(VersionError::WrongProtocolVersions.message(), "Wrong protocol versions");
}

#[test]
fn heartbeat_refusal_cancels() {
    assert_eq!(heartbeat_step(0, HeartbeatOutcome::Refused), (0, HeartbeatAction::Cancel));
    assert_eq!(heartbeat_step(2, HeartbeatOutcome::Accepted), (0, HeartbeatAction::Continue));
}

#[test]
fn heartbeat_gives_up_after_repeated_transport_errors() {
    let mut retries = 0;
    let mut actions = Vec::new();
    for _ in 0..4 {
        let (next, action) = heartbeat_step(retries, HeartbeatOutcome::TransportError);
        retries = next;
        actions.push(action);
    }
    assert_eq!(actions, vec![HeartbeatAction::Continue, HeartbeatAction::Continue, HeartbeatAction::Continue, HeartbeatAction::Cancel]);
    assert_eq!(retries, MAX_RETRIES);
}

fn claimable_record() -> InstanceDescription {
    let mut d = record(InstanceType::ChromeBrowser, 0, Some(10_000));
    d.services = Some(Services { timestamp_ms: None, chrome_debug_port_service: Some("10.0.0.1:9222".to_string()), tzafonwright_service: None });
    d
}

#[test]
fn claimable_needs_fresh_health_no_parent_and_a_service() {
    let d = claimable_record();
    assert!(is_claimable(&d, 14_999, ProxyType::Cdp));
    assert!(!is_claimable(&d, 15_000, ProxyType::Cdp));
    assert!(!is_claimable(&d, 12_000, ProxyType::Tzafonwright));
    let mut claimed = claimable_record();
    claimed.parent = Some(Relationship { instance_id: Some(id("p")), timestamp_ms: None });
    assert!(!is_claimable(&claimed, 12_000, ProxyType::Cdp));
    let mut dead = claimable_record();
    dead.kill_instance_request = Some(KillInstanceRequest { kill_reason: KillReason::Killed, timestamp_ms: None });
    assert!(!is_claimable(&dead, 12_000, ProxyType::Cdp));
}

#[test]
fn proxy_config_targets_the_service() {
    let c = get_proxy_config(&claimable_record(), ProxyType::Cdp).unwrap();
    assert_eq!(c.server_addr, "10.0.0.1:9222");
    assert!(matches!(&c.path_override, PathOverride::Replace(p) if p == "/"));
    assert_eq!(c.overide_headers, vec![("Host".to_string(), "10.0.0.1:9222".to_string())]);
    assert!(get_proxy_config(&claimable_record(), ProxyType::Tzafonwright).is_err());
}

#[test]
fn services_from_args() {
    let s = create_services_from_args(&"10.1.2.3".to_string(), Some(9222), None, Some(22));
    assert_eq!(s.chrome_debug_port_service.as_deref(), Some("10.1.2.3:9222"));
    assert_eq!(s.tzafonwright_service, None);
    assert_eq!(s.timestamp_ms, None);
    let s = create_services_from_args(&"h".to_string(), Some(0), Some(65535), None);
    assert_eq!(s.chrome_debug_port_service.as_deref(), Some("h:0"));
    assert_eq!(s.tzafonwright_service.as_deref(), Some("h:65535"));
}

#[test]
fn url_is_the_last_word() {
    assert_eq!(parse_url_from_line("DevTools listening on ws://127.0.0.1:9222/devtools/browser/x"), "ws://127.0.0.1:9222/devtools/browser/x");
    assert_eq!(parse_url_from_line("single"), "single");
    assert_eq!(parse_url_from_line("ends with "), "");
}

#[test]
fn generated_ids_carry_the_prefix_and_a_uuid() {
    let a = generate_instance_id("browser-container");
    let b = generate_instance_id("browser-container");
    assert!(a.starts_with("browser-container-"));
    assert_eq!(a.len(), "browser-container-".len() + 36);
    assert_ne!(a, b);
}

#[test]
fn clock_is_after_2020() {
    assert!(get_timestamp_ms().timestamp_ms > 1_577_836_800_000);
}

#[test]
fn proxy_connection_figures() {
    let mut c = Connections::new();
    assert_eq!(c.metrics().state, ProxyState::NoConnectionEstablished);
    c.new_connection();
    c.new_connection();
    c.message(ProxyDirection::ClientToServer, 10);
    c.message(ProxyDirection::ServerToClient, 7);
    c.message(ProxyDirection::ServerToClient, u64::MAX);
    let m = c.metrics();
    assert_eq!(m.state, ProxyState::Connected(2));
    assert_eq!(m.state.active_connections(), 2);
    assert_eq!((m.num_connections, m.client_to_server_bytes, m.server_to_client_bytes), (2, 10, 6));
    c.close_connection(50);
    assert_eq!(c.metrics().state, ProxyState::Connected(1));
    c.close_connection(60);
    assert_eq!(c.metrics().state, ProxyState::Disconnected(60));
    assert_eq!(c.metrics().state.active_connections(), 0);
    c.close_connection(70);
    assert_eq!(c.metrics().state, ProxyState::Disconnected(70));
}
