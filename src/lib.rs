//! Lifecycle and claim engine for a fleet of short-lived worker instances:
//! the instance registry with its invariants, the reaper's liveness rules,
//! the HTTP/1.1 request framing and rewrite used by the proxy gateway, the
//! claim decisions of the gateway and the heartbeat policy of containers.

pub mod claim;
pub mod container;
pub mod framing_laws;
pub mod heartbeat;
pub mod http;
pub mod ids;
pub mod laws;
pub mod model;
pub mod proxy_metrics;
pub mod reaper;
pub mod registry;
pub mod rewrite;
pub mod rules;
pub mod status;
pub mod table;
pub mod text;
pub mod version;
