//! What each registry operation does to the table of instances, stated over
//! record views. The executable registry is proved to follow these exactly.

use vstd::prelude::*;
use crate::model::{
    DescriptionView, GpuMetrics, HealthCheck, InstanceType, KillInstanceRequest, KillReason,
    LlmMetrics, ProxyMetrics, RelationshipView, ServicesView, SystemMetrics, TimestampMs,
};

verus! {

/// The registry's table: instance id to record.
pub type Table = Map<Seq<char>, DescriptionView>;

/// Why the registry refused a request outright.
#[derive(Debug, Clone, Copy, PartialEq, Eq, Structural)]
pub enum RegistryError {
    /// The request carries a field its operation forbids, or lacks one it needs.
    InvalidRequest,
    /// A relationship in the request names no instance.
    MissingInstanceId,
    /// The instance the request is about is not registered.
    InstanceNotFound,
    /// The parent named by the request is not registered.
    ParentNotFound,
    /// A child named by the request is not registered.
    ChildNotFound,
}

pub open spec fn is_alive(d: DescriptionView) -> bool {
    d.kill_instance_request is None
}

pub open spec fn stamp(now: u64) -> Option<TimestampMs> {
    Some(TimestampMs { timestamp_ms: now })
}

/// A `TryAdd` request names the instance and its type; it may carry services
/// and relationships, and nothing else.
pub open spec fn add_shape(r: DescriptionView) -> bool {
    &&& r.instance_id is Some
    &&& r.instance_type is Some
    &&& r.created_timestamp_ms is None
    &&& r.health_check is None
    &&& r.kill_instance_request is None
    &&& r.proxy_metrics is None
    &&& r.system_metrics is None
    &&& r.gpu_metrics is None
    &&& r.llm_metrics is None
}

/// A `TryUpdate` request names the instance and carries any of services,
/// health, parent, children and kill.
pub open spec fn update_shape(r: DescriptionView) -> bool {
    &&& r.instance_id is Some
    &&& r.instance_type is None
    &&& r.created_timestamp_ms is None
    &&& r.proxy_metrics is None
    &&& r.system_metrics is None
    &&& r.gpu_metrics is None
    &&& r.llm_metrics is None
}

/// A `Post` request names the instance and carries metric records only.
pub open spec fn post_shape(r: DescriptionView) -> bool {
    &&& r.instance_id is Some
    &&& r.instance_type is None
    &&& r.created_timestamp_ms is None
    &&& r.services is None
    &&& r.health_check is None
    &&& r.parent is None
    &&& r.children is None
    &&& r.kill_instance_request is None
}

/// What every write request shares: it names the instance and leaves the
/// type and the creation time alone.
pub open spec fn write_shape(r: DescriptionView) -> bool {
    &&& r.instance_id is Some
    &&& r.instance_type is None
    &&& r.created_timestamp_ms is None
}

pub open spec fn children_of(d: DescriptionView) -> Seq<RelationshipView> {
    match d.children {
        Some(c) => c,
        None => Seq::empty(),
    }
}

/// `p` is a chain of children links in `m`.
pub open spec fn is_chain(m: Table, p: Seq<Seq<char>>) -> bool {
    &&& p.len() >= 2
    &&& forall|i: int| 0 <= i < p.len() ==> m.contains_key(#[trigger] p[i])
    &&& forall|i: int| 0 <= i < p.len() - 1 ==> has_child(m[#[trigger] p[i]], p[i + 1])
}

/// `j` is reachable from `x` through children links.
pub open spec fn descendant(m: Table, x: Seq<char>, j: Seq<char>) -> bool {
    exists|p: Seq<Seq<char>>| #[trigger] is_chain(m, p) && p[0] == x && p.last() == j
}

/// `b` is `a` or one of its descendants.
pub open spec fn reaches(m: Table, a: Seq<char>, b: Seq<char>) -> bool {
    a == b || descendant(m, a, b)
}

/// The parent id a request names, if any.
pub open spec fn requested_parent(r: DescriptionView) -> Option<Seq<char>> {
    match r.parent {
        Some(p) => p.instance_id,
        None => None,
    }
}

/// Whether the parent link in request `r` on instance `k` may be written:
/// the parent exists, is alive, is not `k` nor one of its descendants (the
/// links stay a forest), and `k` has no parent yet.
pub open spec fn parent_check(m: Table, k: Seq<char>, r: DescriptionView) -> Result<bool, RegistryError> {
    match r.parent {
        None => Ok(true),
        Some(p) => match p.instance_id {
            None => Err(RegistryError::MissingInstanceId),
            Some(pid) => if !m.contains_key(pid) {
                Err(RegistryError::ParentNotFound)
            } else if pid == k || !is_alive(m[pid]) || m[k].parent is Some || reaches(m, k, pid) {
                Ok(false)
            } else {
                Ok(true)
            },
        },
    }
}

/// Whether the children links `cs[i..]` requested on instance `k` may be
/// written, checked in order: each child exists, is alive, has no parent,
/// and neither `k` nor the parent `up` the same request gives `k` is the
/// child or one of its descendants (the links stay a forest).
pub open spec fn children_check(
    m: Table,
    k: Seq<char>,
    up: Option<Seq<char>>,
    cs: Seq<RelationshipView>,
    i: int,
) -> Result<bool, RegistryError>
    decreases cs.len() - i,
{
    if i < 0 || i >= cs.len() {
        Ok(true)
    } else {
        match cs[i].instance_id {
            None => Err(RegistryError::MissingInstanceId),
            Some(c) => if !m.contains_key(c) {
                Err(RegistryError::ChildNotFound)
            } else if c == k || m[c].parent is Some || !is_alive(m[c]) || reaches(m, c, k) || (up is Some
                && reaches(m, c, up->Some_0)) {
                Ok(false)
            } else {
                children_check(m, k, up, cs, i + 1)
            },
        }
    }
}

pub open spec fn link_check(m: Table, k: Seq<char>, r: DescriptionView) -> Result<bool, RegistryError> {
    match parent_check(m, k, r) {
        Ok(true) => match r.children {
            None => Ok(true),
            Some(cs) => children_check(m, k, requested_parent(r), cs, 0),
        },
        other => other,
    }
}

pub open spec fn stamp_relationships(cs: Seq<RelationshipView>, now: u64) -> Seq<RelationshipView> {
    cs.map_values(|c: RelationshipView| RelationshipView { timestamp_ms: stamp(now), ..c })
}

/// Record `d` with every sub-record present in request `r` written, each
/// stamped with the registry's clock `now`. Children are appended.
pub open spec fn with_fields(d: DescriptionView, r: DescriptionView, now: u64) -> DescriptionView {
    DescriptionView {
        services: match r.services {
            Some(s) => Some(ServicesView { timestamp_ms: stamp(now), ..s }),
            None => d.services,
        },
        health_check: match r.health_check {
            Some(_) => Some(HealthCheck { timestamp_ms: stamp(now) }),
            None => d.health_check,
        },
        parent: match r.parent {
            Some(p) => Some(RelationshipView { timestamp_ms: stamp(now), ..p }),
            None => d.parent,
        },
        children: match r.children {
            Some(cs) => Some(children_of(d) + stamp_relationships(cs, now)),
            None => d.children,
        },
        kill_instance_request: match r.kill_instance_request {
            Some(q) => Some(KillInstanceRequest { timestamp_ms: stamp(now), ..q }),
            None => d.kill_instance_request,
        },
        proxy_metrics: match r.proxy_metrics {
            Some(x) => Some(ProxyMetrics { timestamp_ms: stamp(now), ..x }),
            None => d.proxy_metrics,
        },
        system_metrics: match r.system_metrics {
            Some(x) => Some(SystemMetrics { timestamp_ms: stamp(now), ..x }),
            None => d.system_metrics,
        },
        gpu_metrics: match r.gpu_metrics {
            Some(x) => Some(GpuMetrics { timestamp_ms: stamp(now), ..x }),
            None => d.gpu_metrics,
        },
        llm_metrics: match r.llm_metrics {
            Some(x) => Some(LlmMetrics { timestamp_ms: stamp(now), ..x }),
            None => d.llm_metrics,
        },
        ..d
    }
}

pub open spec fn with_parent(d: DescriptionView, k: Seq<char>, now: u64) -> DescriptionView {
    DescriptionView {
        parent: Some(RelationshipView { instance_id: Some(k), timestamp_ms: stamp(now) }),
        ..d
    }
}

pub open spec fn with_child(d: DescriptionView, k: Seq<char>, now: u64) -> DescriptionView {
    DescriptionView {
        children: Some(
            children_of(d).push(RelationshipView { instance_id: Some(k), timestamp_ms: stamp(now) }),
        ),
        ..d
    }
}

/// Each of the first `n` children listed in `cs` gets `k` as its parent.
pub open spec fn link_children(m: Table, k: Seq<char>, cs: Seq<RelationshipView>, n: int, now: u64) -> Table
    decreases n,
{
    if n <= 0 || n > cs.len() {
        m
    } else {
        let prev = link_children(m, k, cs, n - 1, now);
        let c = cs[n - 1].instance_id->Some_0;
        if prev.contains_key(c) {
            prev.insert(c, with_parent(prev[c], k, now))
        } else {
            prev
        }
    }
}

/// The parent named by request `r` lists `k` as its newest child.
pub open spec fn link_parent(m: Table, k: Seq<char>, r: DescriptionView, now: u64) -> Table {
    match r.parent {
        Some(p) => {
            let pid = p.instance_id->Some_0;
            if m.contains_key(pid) {
                m.insert(pid, with_child(m[pid], k, now))
            } else {
                m
            }
        },
        None => m,
    }
}

pub open spec fn has_child(d: DescriptionView, c: Seq<char>) -> bool {
    exists|i: int| 0 <= i < children_of(d).len() && (#[trigger] children_of(d)[i]).instance_id == Some(c)
}

/// `p` is a chain of children links in `m` from `p[0]` whose every instance
/// after the first is registered and alive.
pub open spec fn is_live_chain(m: Table, p: Seq<Seq<char>>) -> bool {
    &&& p.len() >= 2
    &&& forall|i: int| 0 <= i < p.len() - 1 ==> m.contains_key(#[trigger] p[i]) && has_child(m[p[i]], p[i + 1])
    &&& forall|i: int| 1 <= i < p.len() ==> m.contains_key(#[trigger] p[i]) && is_alive(m[p[i]])
}

/// `j` descends from `x` through instances that are all alive.
pub open spec fn live_descendant(m: Table, x: Seq<char>, j: Seq<char>) -> bool {
    exists|p: Seq<Seq<char>>| #[trigger] is_live_chain(m, p) && p[0] == x && p.last() == j
}

pub open spec fn killed_with_parent(d: DescriptionView, now: u64) -> DescriptionView {
    DescriptionView {
        kill_instance_request: Some(KillInstanceRequest { kill_reason: KillReason::ParentDead, timestamp_ms: stamp(now) }),
        ..d
    }
}

/// The kill of `x` reaches every live descendant of `x`.
pub open spec fn cascade(m: Table, x: Seq<char>, now: u64) -> Table {
    Map::new(
        |j: Seq<char>| m.contains_key(j),
        |j: Seq<char>| if is_alive(m[j]) && live_descendant(m, x, j) {
            killed_with_parent(m[j], now)
        } else {
            m[j]
        },
    )
}

/// The table after an accepted write request `r`.
pub open spec fn applied(m: Table, r: DescriptionView, now: u64) -> Table {
    let k = r.instance_id->Some_0;
    let m1 = m.insert(k, with_fields(m[k], r, now));
    let m2 = match r.children {
        Some(cs) => link_children(m1, k, cs, cs.len() as int, now),
        None => m1,
    };
    let m3 = link_parent(m2, k, r, now);
    if r.kill_instance_request is Some {
        cascade(m3, k, now)
    } else {
        m3
    }
}

/// The answer to a write request and the table after it.
pub open spec fn apply_outcome(m: Table, r: DescriptionView, now: u64) -> (Result<bool, RegistryError>, Table) {
    let k = r.instance_id->Some_0;
    if !m.contains_key(k) {
        (Err(RegistryError::InstanceNotFound), m)
    } else if !is_alive(m[k]) {
        (Ok(false), m)
    } else {
        match link_check(m, k, r) {
            Ok(true) => (Ok(true), applied(m, r, now)),
            other => (other, m),
        }
    }
}

/// `TryUpdate`.
pub open spec fn update_outcome(m: Table, r: DescriptionView, now: u64) -> (Result<bool, RegistryError>, Table) {
    if !update_shape(r) {
        (Err(RegistryError::InvalidRequest), m)
    } else {
        apply_outcome(m, r, now)
    }
}

/// `Post`.
pub open spec fn post_outcome(m: Table, r: DescriptionView, now: u64) -> (Result<bool, RegistryError>, Table) {
    if !post_shape(r) {
        (Err(RegistryError::InvalidRequest), m)
    } else {
        apply_outcome(m, r, now)
    }
}

/// The record a fresh instance starts with.
pub open spec fn fresh_record(k: Seq<char>, t: InstanceType, now: u64) -> DescriptionView {
    DescriptionView {
        instance_id: Some(k),
        instance_type: Some(t),
        created_timestamp_ms: stamp(now),
        services: None,
        health_check: None,
        parent: None,
        children: None,
        kill_instance_request: None,
        proxy_metrics: None,
        system_metrics: None,
        gpu_metrics: None,
        llm_metrics: None,
    }
}

/// `TryAdd`: the record is created, then the rest of the request is applied
/// as a write; if that write is not accepted the instance is not added.
pub open spec fn add_outcome(m: Table, r: DescriptionView, now: u64) -> (Result<bool, RegistryError>, Table) {
    let k = r.instance_id->Some_0;
    if !add_shape(r) {
        (Err(RegistryError::InvalidRequest), m)
    } else if m.contains_key(k) {
        (Ok(false), m)
    } else {
        let m1 = m.insert(k, fresh_record(k, r.instance_type->Some_0, now));
        let (res, m2) = apply_outcome(m1, DescriptionView { instance_type: None, ..r }, now);
        if res == Ok::<bool, RegistryError>(true) {
            (res, m2)
        } else {
            (res, m)
        }
    }
}

/// `GetAllInstances`: the instance is of type `t`, has sent a heartbeat and
/// has not been killed.
pub open spec fn is_listed(d: DescriptionView, t: InstanceType) -> bool {
    &&& d.instance_type == Some(t)
    &&& d.health_check is Some
    &&& d.kill_instance_request is None
}

} // verus!
