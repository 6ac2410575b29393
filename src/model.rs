//! The records kept by the registry for each instance.

use vstd::prelude::*;

verus! {

/// A point in time, in milliseconds since the Unix epoch.
#[derive(Debug, Clone, Copy, PartialEq, Eq, Structural)]
pub struct TimestampMs {
    pub timestamp_ms: u64,
}

/// The identifier of an instance.
#[derive(Debug, Clone, PartialEq, Eq)]
pub struct InstanceId {
    pub instance_id: String,
}

/// The kind of worker an instance is.
#[derive(Debug, Clone, Copy, PartialEq, Eq, Structural)]
pub enum InstanceType {
    DefaultInstanceType,
    ChromeBrowser,
    Agent,
    WarmpoolChromeProxy,
    FakeInstance,
}

/// Why an instance was killed.
#[derive(Debug, Clone, Copy, PartialEq, Eq, Structural)]
pub enum KillReason {
    DefaultKillReason,
    Timeout,
    HealthCheckFailed,
    Killed,
    ParentDead,
}

/// A link to another instance, with the time the link was recorded.
#[derive(Debug, Clone, PartialEq, Eq)]
pub struct Relationship {
    pub instance_id: Option<InstanceId>,
    pub timestamp_ms: Option<TimestampMs>,
}

/// The instances claimed by an instance, in the order they were attached.
#[derive(Debug, Clone, PartialEq, Eq, Default)]
pub struct Children {
    pub children: Vec<Relationship>,
}

/// The backend addresses ("host:port") an instance exposes.
#[derive(Debug, Clone, PartialEq, Eq)]
pub struct Services {
    pub timestamp_ms: Option<TimestampMs>,
    pub chrome_debug_port_service: Option<String>,
    pub tzafonwright_service: Option<String>,
}

/// The last heartbeat of an instance.
#[derive(Debug, Clone, Copy, PartialEq, Eq, Structural)]
pub struct HealthCheck {
    pub timestamp_ms: Option<TimestampMs>,
}

/// The terminal kill record of an instance.
#[derive(Debug, Clone, Copy, PartialEq, Eq, Structural)]
pub struct KillInstanceRequest {
    pub kill_reason: KillReason,
    pub timestamp_ms: Option<TimestampMs>,
}

/// Traffic figures of a proxying instance.
#[derive(Debug, Clone, Copy, PartialEq, Eq, Structural)]
pub struct ProxyMetrics {
    pub timestamp_ms: Option<TimestampMs>,
    pub active_connections: u64,
    pub num_connections: u64,
    pub client_to_server_bytes: u64,
    pub server_to_client_bytes: u64,
}

/// Memory figures of the container an instance runs in.
#[derive(Debug, Clone, Copy, PartialEq, Eq, Structural)]
pub struct SystemMetrics {
    pub timestamp_ms: Option<TimestampMs>,
    pub used_memory_bytes: u64,
    pub total_memory_bytes: u64,
}

/// Memory figures of the GPU an instance uses.
#[derive(Debug, Clone, Copy, PartialEq, Eq, Structural)]
pub struct GpuMetrics {
    pub timestamp_ms: Option<TimestampMs>,
    pub used_memory_bytes: u64,
    pub total_memory_bytes: u64,
}

/// Token figures of a language-model instance.
#[derive(Debug, Clone, Copy, PartialEq, Eq, Structural)]
pub struct LlmMetrics {
    pub timestamp_ms: Option<TimestampMs>,
    pub prompt_tokens: u64,
    pub completion_tokens: u64,
}

/// The authoritative record of one instance, and also the shape of every
/// request that writes to the registry: a request carries the fields it sets.
#[derive(Debug, Clone, PartialEq, Eq, Default)]
pub struct InstanceDescription {
    pub instance_id: Option<InstanceId>,
    pub instance_type: Option<InstanceType>,
    pub created_timestamp_ms: Option<TimestampMs>,
    pub services: Option<Services>,
    pub health_check: Option<HealthCheck>,
    pub parent: Option<Relationship>,
    pub children: Option<Children>,
    pub kill_instance_request: Option<KillInstanceRequest>,
    pub proxy_metrics: Option<ProxyMetrics>,
    pub system_metrics: Option<SystemMetrics>,
    pub gpu_metrics: Option<GpuMetrics>,
    pub llm_metrics: Option<LlmMetrics>,
}

/// The mathematical value of a `Relationship`.
pub ghost struct RelationshipView {
    pub instance_id: Option<Seq<char>>,
    pub timestamp_ms: Option<TimestampMs>,
}

/// The mathematical value of `Services`.
pub ghost struct ServicesView {
    pub timestamp_ms: Option<TimestampMs>,
    pub chrome_debug_port_service: Option<Seq<char>>,
    pub tzafonwright_service: Option<Seq<char>>,
}

/// The mathematical value of an `InstanceDescription`: identifiers and
/// addresses as character sequences, the children as a sequence.
pub ghost struct DescriptionView {
    pub instance_id: Option<Seq<char>>,
    pub instance_type: Option<InstanceType>,
    pub created_timestamp_ms: Option<TimestampMs>,
    pub services: Option<ServicesView>,
    pub health_check: Option<HealthCheck>,
    pub parent: Option<RelationshipView>,
    pub children: Option<Seq<RelationshipView>>,
    pub kill_instance_request: Option<KillInstanceRequest>,
    pub proxy_metrics: Option<ProxyMetrics>,
    pub system_metrics: Option<SystemMetrics>,
    pub gpu_metrics: Option<GpuMetrics>,
    pub llm_metrics: Option<LlmMetrics>,
}

pub open spec fn string_option_view(s: Option<String>) -> Option<Seq<char>> {
    match s {
        Some(v) => Some(v@),
        None => None,
    }
}

pub open spec fn id_option_view(id: Option<InstanceId>) -> Option<Seq<char>> {
    match id {
        Some(v) => Some(v@),
        None => None,
    }
}

impl View for InstanceId {
    type V = Seq<char>;

    open spec fn view(&self) -> Seq<char> {
        self.instance_id@
    }
}

impl View for Relationship {
    type V = RelationshipView;

    open spec fn view(&self) -> RelationshipView {
        RelationshipView {
            instance_id: id_option_view(self.instance_id),
            timestamp_ms: self.timestamp_ms,
        }
    }
}

pub open spec fn relationships_view(v: Seq<Relationship>) -> Seq<RelationshipView> {
    v.map_values(|r: Relationship| r@)
}

impl View for Children {
    type V = Seq<RelationshipView>;

    open spec fn view(&self) -> Seq<RelationshipView> {
        relationships_view(self.children@)
    }
}

impl View for Services {
    type V = ServicesView;

    open spec fn view(&self) -> ServicesView {
        ServicesView {
            timestamp_ms: self.timestamp_ms,
            chrome_debug_port_service: string_option_view(self.chrome_debug_port_service),
            tzafonwright_service: string_option_view(self.tzafonwright_service),
        }
    }
}

impl View for InstanceDescription {
    type V = DescriptionView;

    open spec fn view(&self) -> DescriptionView {
        DescriptionView {
            instance_id: id_option_view(self.instance_id),
            instance_type: self.instance_type,
            created_timestamp_ms: self.created_timestamp_ms,
            services: match self.services {
                Some(s) => Some(s@),
                None => None,
            },
            health_check: self.health_check,
            parent: match self.parent {
                Some(p) => Some(p@),
                None => None,
            },
            children: match self.children {
                Some(c) => Some(c@),
                None => None,
            },
            kill_instance_request: self.kill_instance_request,
            proxy_metrics: self.proxy_metrics,
            system_metrics: self.system_metrics,
            gpu_metrics: self.gpu_metrics,
            llm_metrics: self.llm_metrics,
        }
    }
}

/// A description with no field set.
pub open spec fn empty_view() -> DescriptionView {
    DescriptionView {
        instance_id: None,
        instance_type: None,
        created_timestamp_ms: None,
        services: None,
        health_check: None,
        parent: None,
        children: None,
        kill_instance_request: None,
        proxy_metrics: None,
        system_metrics: None,
        gpu_metrics: None,
        llm_metrics: None,
    }
}

pub fn new_description() -> (r: InstanceDescription)
    ensures
        r@ == empty_view(),
{
    InstanceDescription {
        instance_id: None,
        instance_type: None,
        created_timestamp_ms: None,
        services: None,
        health_check: None,
        parent: None,
        children: None,
        kill_instance_request: None,
        proxy_metrics: None,
        system_metrics: None,
        gpu_metrics: None,
        llm_metrics: None,
    }
}

pub fn copy_string_option(s: &Option<String>) -> (r: Option<String>)
    ensures
        string_option_view(r) == string_option_view(*s),
{
    match s {
        Some(v) => Some(v.clone()),
        None => None,
    }
}

impl InstanceId {
    pub fn new(id: &str) -> (r: InstanceId)
        ensures
            r@ == id@,
    {
        InstanceId { instance_id: id.to_owned() }
    }

    pub fn deep_copy(&self) -> (r: InstanceId)
        ensures
            r@ == self@,
    {
        InstanceId { instance_id: self.instance_id.clone() }
    }
}

pub fn copy_id_option(id: &Option<InstanceId>) -> (r: Option<InstanceId>)
    ensures
        id_option_view(r) == id_option_view(*id),
{
    match id {
        Some(v) => Some(v.deep_copy()),
        None => None,
    }
}

impl Relationship {
    pub fn deep_copy(&self) -> (r: Relationship)
        ensures
            r@ == self@,
    {
        Relationship { instance_id: copy_id_option(&self.instance_id), timestamp_ms: self.timestamp_ms }
    }
}

pub fn copy_relationships(v: &Vec<Relationship>) -> (r: Vec<Relationship>)
    ensures
        relationships_view(r@) == relationships_view(v@),
{
    let mut r: Vec<Relationship> = Vec::new();
    let mut i: usize = 0;
    while i < v.len()
        invariant
            i <= v.len(),
            r@.len() == i,
            forall|j: int| 0 <= j < i ==> (#[trigger] r@[j])@ == v@[j]@,
        decreases v.len() - i,
    {
        let c = v[i].deep_copy();
        r.push(c);
        i = i + 1;
    }
    assert(relationships_view(r@) =~= relationships_view(v@));
    r
}

impl Children {
    pub fn deep_copy(&self) -> (r: Children)
        ensures
            r@ == self@,
    {
        Children { children: copy_relationships(&self.children) }
    }
}

impl Services {
    pub fn deep_copy(&self) -> (r: Services)
        ensures
            r@ == self@,
    {
        Services {
            timestamp_ms: self.timestamp_ms,
            chrome_debug_port_service: copy_string_option(&self.chrome_debug_port_service),
            tzafonwright_service: copy_string_option(&self.tzafonwright_service),
        }
    }
}

impl InstanceDescription {
    pub fn deep_copy(&self) -> (r: InstanceDescription)
        ensures
            r@ == self@,
    {
        InstanceDescription {
            instance_id: copy_id_option(&self.instance_id),
            instance_type: self.instance_type,
            created_timestamp_ms: self.created_timestamp_ms,
            services: match &self.services {
                Some(s) => Some(s.deep_copy()),
                None => None,
            },
            health_check: self.health_check,
            parent: match &self.parent {
                Some(p) => Some(p.deep_copy()),
                None => None,
            },
            children: match &self.children {
                Some(c) => Some(c.deep_copy()),
                None => None,
            },
            kill_instance_request: self.kill_instance_request,
            proxy_metrics: self.proxy_metrics,
            system_metrics: self.system_metrics,
            gpu_metrics: self.gpu_metrics,
            llm_metrics: self.llm_metrics,
        }
    }
}

} // verus!
