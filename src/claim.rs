//! The claim gateway's decisions: which instance may be claimed, the
//! requests it sends the registry, and where it forwards once it holds one.

use vstd::prelude::*;
use vstd::string::StringExecFns;
use crate::http::{headers_view, Error};
use crate::laws::bare_request;
use crate::model::{
    copy_string_option, new_description, DescriptionView, InstanceDescription,
    InstanceId, KillInstanceRequest, KillReason, Relationship, RelationshipView,
};
use crate::rewrite::{HttpProxyConfig, PathOverride, PathOverrideView};

verus! {

broadcast use vstd::string::group_string_axioms;

/// A heartbeat older than this makes an instance unfit to claim.
pub const CLAIM_HEALTH_WINDOW_MS: u64 = 5000;

/// Which backend service of a claimed instance a gateway forwards to.
#[derive(Debug, Clone, Copy, PartialEq, Eq, Structural)]
pub enum ProxyType {
    /// The browser's debugging protocol.
    Cdp,
    /// The automation helper.
    Tzafonwright,
}

/// The address of the service of kind `kind` that `d` exposes, if any.
pub open spec fn service_address(d: DescriptionView, kind: ProxyType) -> Option<Seq<char>> {
    match d.services {
        None => None,
        Some(s) => match kind {
            ProxyType::Cdp => s.chrome_debug_port_service,
            ProxyType::Tzafonwright => s.tzafonwright_service,
        },
    }
}

/// An instance fit to claim at `now`: a heartbeat less than five seconds
/// old, no parent, not killed, and a service of the requested kind.
pub open spec fn claimable(d: DescriptionView, now: u64, kind: ProxyType) -> bool {
    &&& d.health_check is Some
    &&& d.health_check->Some_0.timestamp_ms is Some
    &&& d.health_check->Some_0.timestamp_ms->Some_0.timestamp_ms > now - CLAIM_HEALTH_WINDOW_MS
    &&& d.parent is None
    &&& d.kill_instance_request is None
    &&& service_address(d, kind) is Some
}

pub fn is_claimable(d: &InstanceDescription, now: u64, kind: ProxyType) -> (r: bool)
    ensures
        r == claimable(d@, now, kind),
{
    let fresh = match d.health_check {
        Some(h) => match h.timestamp_ms {
            Some(ts) => now < CLAIM_HEALTH_WINDOW_MS || ts.timestamp_ms > now - CLAIM_HEALTH_WINDOW_MS,
            None => false,
        },
        None => false,
    };
    let has_service = match &d.services {
        None => false,
        Some(s) => match kind {
            ProxyType::Cdp => s.chrome_debug_port_service.is_some(),
            ProxyType::Tzafonwright => s.tzafonwright_service.is_some(),
        },
    };
    fresh && d.parent.is_none() && d.kill_instance_request.is_none() && has_service
}

/// The `TryUpdate` that claims instance `k` for `caller`.
pub open spec fn claim_request_view(k: Seq<char>, caller: Seq<char>) -> DescriptionView {
    DescriptionView {
        parent: Some(RelationshipView { instance_id: Some(caller), timestamp_ms: None }),
        ..bare_request(k)
    }
}

/// The `TryUpdate` that kills instance `k` when its client has gone.
pub open spec fn close_request_view(k: Seq<char>) -> DescriptionView {
    DescriptionView {
        kill_instance_request: Some(KillInstanceRequest { kill_reason: KillReason::Killed, timestamp_ms: None }),
        ..bare_request(k)
    }
}

pub fn claim_request(instance: &InstanceId, caller: &InstanceId) -> (r: InstanceDescription)
    ensures
        r@ == claim_request_view(instance@, caller@),
{
    let mut r = new_description();
    r.instance_id = Some(instance.deep_copy());
    r.parent = Some(Relationship { instance_id: Some(caller.deep_copy()), timestamp_ms: None });
    assert(r@ =~= claim_request_view(instance@, caller@));
    r
}

pub fn close_request(instance: &InstanceId) -> (r: InstanceDescription)
    ensures
        r@ == close_request_view(instance@),
{
    let mut r = new_description();
    r.instance_id = Some(instance.deep_copy());
    r.kill_instance_request = Some(KillInstanceRequest { kill_reason: KillReason::Killed, timestamp_ms: None });
    assert(r@ =~= close_request_view(instance@));
    r
}

/// How to forward to the claimed instance `d`: to its service of kind
/// `kind`, with path "/" and that address as `Host`.
pub fn get_proxy_config(d: &InstanceDescription, kind: ProxyType) -> (r: Result<HttpProxyConfig, Error>)
    ensures
        match r {
            Ok(c) => service_address(d@, kind) == Some(c.server_addr@) && c.wf() && c.connection_count == 0
                && c.path_override@ == PathOverrideView::Replace(seq!['/'])
                && headers_view(c.overide_headers@) == seq![(seq!['H', 'o', 's', 't'], c.server_addr@)],
            Err(e) => service_address(d@, kind) is None && e is IoError,
        },
{
    let address = match &d.services {
        None => None,
        Some(s) => match kind {
            ProxyType::Cdp => copy_string_option(&s.chrome_debug_port_service),
            ProxyType::Tzafonwright => copy_string_option(&s.tzafonwright_service),
        },
    };
    let address = match address {
        Some(a) => a,
        None => {
            return Err(Error::IoError("Instance has no address"));
        },
    };
    let slash = "/";
    let host = "Host";
    proof {
        reveal_strlit("/");
        reveal_strlit("Host");
    }
    assert(slash@ =~= seq!['/']);
    assert(host@ =~= seq!['H', 'o', 's', 't']);
    let c = HttpProxyConfig::new(address.as_str()).with_path_override(PathOverride::Replace(String::from_str(slash)));
    let c = c.with_header_override(host, address.as_str());
    assert(headers_view(c.overide_headers@) =~= seq![(seq!['H', 'o', 's', 't'], address@)]);
    Ok(c)
}

} // verus!
