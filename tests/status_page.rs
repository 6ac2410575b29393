use instance_fleet::model::{InstanceDescription, InstanceId, InstanceType, KillInstanceRequest, KillReason, Relationship, TimestampMs};
use instance_fleet::status::{
    available_browsers, browsers_from_descriptions, format_instance_id, format_timestamp_ms, healthy_browsers,
    render, truncated_string, Browser, SingleInstancePageTemplate, StatusError, WarmPoolTemplate,
};

fn id(s: &str) -> InstanceId {
    InstanceId { instance_id: s.to_string() }
}

fn browser(name: &str, registered: u64, connected: Option<(&str, u64)>, dead: Option<u64>) -> Browser {
    Browser {
        browser_id: Some(id(name)),
        registered_at_ms: registered,
        connected: connected.map(|(p, t)| (Some(id(p)), t)),
        dead_at_ms: dead,
    }
}

fn empty_template() -> WarmPoolTemplate {
    render(&[], 0)
}

#[test]
fn time_strings() {
    let t = empty_template();
    assert_eq!(t.ms_to_time_string(&0), " 0h  0m  0s");
    assert_eq!(t.ms_to_time_string(&3_723_000), " 1h  2m  3s");
    assert_eq!(t.ms_to_time_string(&(99 * 3_600_000 + 59 * 60_000 + 59_999)), "99h 59m 59s");
    assert_eq!(t.ms_to_time_string(&(100 * 3_600_000)), ">99h old...");
}

#[test]
fn long_ids_are_truncated() {
    let long = "a".repeat(40);
    assert_eq!(truncated_string(&long), format!("{}...", "a".repeat(29)));
    assert_eq!(truncated_string(&"b".repeat(32)), "b".repeat(32));
    let link = format_instance_id(&Some(id("abc")));
    assert_eq!(link.label, "abc");
    assert_eq!(link.url.as_deref(), Some("browsers?instance_id=abc"));
    let none = format_instance_id(&None);
    assert_eq!(none.label, "No ID");
    assert_eq!(none.url, None);
}

#[test]
fn states_and_counts() {
    let bs = vec![
        browser("a", 0, None, None),
        browser("b", 0, Some(("p", 1)), None),
        browser("c", 0, Some(("p", 1)), Some(2)),
        browser("d", 0, None, Some(3)),
    ];
    assert_eq!(bs[0].state(), "idle");
    assert_eq!(bs[1].state(), "connected");
    assert_eq!(bs[2].state(), "dead");
    assert_eq!(bs[3].state(), "dead");
    assert_eq!(healthy_browsers(&bs), 2);
    assert_eq!(available_browsers(&bs), 1);
    let t = render(&bs, 10);
    assert_eq!(t.all_browsers, 4);
    assert_eq!(t.healthy_browsers, 2);
    assert_eq!(t.available_browsers, 1);
    assert_eq!(t.connections.len(), 2);
    assert_eq!(t.registrations.len(), 4);
}

#[test]
fn rows_are_most_recent_first_and_capped() {
    let mut bs = Vec::new();
    for i in 0..35u64 {
        bs.push(browser(&format!("b{}", i), i * 10, Some(("p", 1000 - i)), None));
    }
    let t = render(&bs, 1000);
    assert_eq!(t.registrations.len(), 30);
    assert_eq!(t.registrations[0].browser_id.label, "b34");
    assert_eq!(t.registrations[0].time_since_registered_ms, 1000 - 340);
    assert_eq!(t.registrations[29].browser_id.label, "b5");
    assert_eq!(t.connections.len(), 30);
    assert_eq!(t.connections[0].instance_id.label, "b0");
    assert_eq!(t.connections[0].time_since_connected_ms, 0);
    assert_eq!(t.connections[1].time_since_connected_ms, 1);
    assert_eq!(t.connections[0].parent_id.label, "p");
    assert_eq!(t.connections[0].state, "connected");
}

#[test]
fn equal_ages_keep_their_order() {
    let bs = vec![browser("x", 5, None, None), browser("y", 5, None, None), browser("z", 7, None, None)];
    let t = render(&bs, 10);
    let labels: Vec<&str> = t.registrations.iter().map(|r| r.browser_id.label.as_str()).collect();
    assert_eq!(labels, vec!["z", "x", "y"]);
}

#[test]
fn browsers_come_from_browser_records_only() {
    let mut c = InstanceDescription { instance_id: Some(id("c")), instance_type: Some(InstanceType::ChromeBrowser), created_timestamp_ms: Some(TimestampMs { timestamp_ms: 4 }), ..Default::default() };
    c.parent = Some(Relationship { instance_id: Some(id("p")), timestamp_ms: Some(TimestampMs { timestamp_ms: 6 }) });
    let a = InstanceDescription { instance_id: Some(id("a")), instance_type: Some(InstanceType::Agent), ..Default::default() };
    let bs = browsers_from_descriptions(&vec![a, c]).unwrap();
    assert_eq!(bs.len(), 1);
    assert_eq!(bs[0].registered_at_ms, 4);
    assert_eq!(bs[0].connected, Some((Some(id("p")), 6)));
    let bad = InstanceDescription { instance_id: Some(id("b")), instance_type: Some(InstanceType::ChromeBrowser), ..Default::default() };
    assert_eq!(browsers_from_descriptions(&vec![bad]).err(), Some(StatusError::CreatedTimestampNotFound));
}

#[test]
fn timestamps_show_in_utc() {
    assert_eq!(format_timestamp_ms(&None), "No timestamp");
    assert_eq!(format_timestamp_ms(&Some(TimestampMs { timestamp_ms: 0 })), "1970-01-01 00:00:00");
    assert_eq!(format_timestamp_ms(&Some(TimestampMs { timestamp_ms: 1_700_000_000_000 })), "2023-11-14 22:13:20");
}

#[test]
fn instance_page_fields() {
    let d = InstanceDescription {
        instance_id: Some(id("c")),
        instance_type: Some(InstanceType::ChromeBrowser),
        created_timestamp_ms: Some(TimestampMs { timestamp_ms: 0 }),
        kill_instance_request: Some(KillInstanceRequest { kill_reason: KillReason::ParentDead, timestamp_ms: Some(TimestampMs { timestamp_ms: 1000 }) }),
        ..Default::default()
    };
    let page = SingleInstancePageTemplate::from_description(&d, "dump".to_string(), "m".to_string());
    assert_eq!(page.instance_id.label, "c");
    assert_eq!(page.created_timestamp_ms, "1970-01-01 00:00:00");
    assert_eq!(page.state_info, "Was killed for ParentDead at 1970-01-01 00:00:01");
    assert_eq!(page.parent.label, "No parent");
    assert!(page.services.is_empty());
    assert!(page.children.is_empty());
    assert_eq!(page.system_metrics, "No system metrics");
    assert_eq!(page.debug_info, "dump");
}

#[test]
fn records_missing_timestamps_cannot_be_shown() {
    let base = InstanceDescription {
        instance_id: Some(id("c")),
        instance_type: Some(InstanceType::ChromeBrowser),
        created_timestamp_ms: Some(TimestampMs { timestamp_ms: 1 }),
        ..Default::default()
    };
    let mut p = base.clone();
    p.parent = Some(Relationship { instance_id: Some(id("p")), timestamp_ms: None });
    assert_eq!(browsers_from_descriptions(&vec![p]).err(), Some(StatusError::RelationshipTimestampNotFound));
    let mut k = base.clone();
    k.kill_instance_request = Some(KillInstanceRequest { kill_reason: KillReason::Killed, timestamp_ms: None });
    assert_eq!(browsers_from_descriptions(&vec![base, k]).err(), Some(StatusError::KillTimestampNotFound));
}
