//! Connection figures of a proxy: how many clients are connected now,
//! when the last one left, and the bytes carried each way.

use vstd::prelude::*;

verus! {

#[derive(Debug, Clone, Copy, PartialEq, Eq, Structural)]
pub enum ProxyDirection {
    ClientToServer,
    ServerToClient,
}

#[derive(Debug, Clone, Copy, PartialEq, Eq, Structural)]
pub enum ProxyState {
    /// Number of connections open now.
    Connected(u64),
    /// Time (ms) the last connection closed.
    Disconnected(u64),
    NoConnectionEstablished,
}

impl ProxyState {
    pub fn active_connections(&self) -> (r: u64)
        ensures
            r == match *self {
                ProxyState::Connected(n) => n,
                _ => 0,
            },
    {
        match self {
            ProxyState::Connected(num) => *num,
            _ => 0,
        }
    }
}

/// A snapshot of the figures.
#[derive(Debug, Clone, Copy, PartialEq, Eq, Structural)]
pub struct Metrics {
    pub state: ProxyState,
    pub num_connections: u64,
    pub client_to_server_bytes: u64,
    pub server_to_client_bytes: u64,
}

/// The figures as they are kept: counters wrap around.
pub struct Connections {
    state: ProxyState,
    num_connections: u64,
    client_to_server_bytes: u64,
    server_to_client_bytes: u64,
}

impl View for Connections {
    type V = Metrics;

    closed spec fn view(&self) -> Metrics {
        Metrics {
            state: self.state,
            num_connections: self.num_connections,
            client_to_server_bytes: self.client_to_server_bytes,
            server_to_client_bytes: self.server_to_client_bytes,
        }
    }
}

/// The state after a connection closes at `now_ms`: one fewer connection,
/// or disconnected since `now_ms` when it was the last (or the count was
/// already off).
pub open spec fn state_after_close(s: ProxyState, now_ms: u64) -> ProxyState {
    match s {
        ProxyState::Connected(n) => if n > 1 {
            ProxyState::Connected((n - 1) as u64)
        } else {
            ProxyState::Disconnected(now_ms)
        },
        _ => ProxyState::Disconnected(now_ms),
    }
}

/// The state after a connection opens.
pub open spec fn state_after_open(s: ProxyState) -> ProxyState {
    match s {
        ProxyState::Connected(n) => ProxyState::Connected((n + 1) as u64),
        _ => ProxyState::Connected(1),
    }
}

impl Connections {
    pub fn new() -> (r: Self)
        ensures
            r@ == (Metrics {
                state: ProxyState::NoConnectionEstablished,
                num_connections: 0,
                client_to_server_bytes: 0,
                server_to_client_bytes: 0,
            }),
    {
        Connections {
            state: ProxyState::NoConnectionEstablished,
            num_connections: 0,
            client_to_server_bytes: 0,
            server_to_client_bytes: 0,
        }
    }

    /// Counts `bytes` carried in `direction`.
    pub fn message(&mut self, direction: ProxyDirection, bytes: u64)
        ensures
            final(self)@ == match direction {
                ProxyDirection::ClientToServer => Metrics {
                    client_to_server_bytes: old(self)@.client_to_server_bytes.wrapping_add(bytes),
                    ..old(self)@
                },
                ProxyDirection::ServerToClient => Metrics {
                    server_to_client_bytes: old(self)@.server_to_client_bytes.wrapping_add(bytes),
                    ..old(self)@
                },
            },
    {
        match direction {
            ProxyDirection::ClientToServer => {
                self.client_to_server_bytes = self.client_to_server_bytes.wrapping_add(bytes);
            },
            ProxyDirection::ServerToClient => {
                self.server_to_client_bytes = self.server_to_client_bytes.wrapping_add(bytes);
            },
        }
    }

    /// Counts a connection that opens.
    pub fn new_connection(&mut self)
        requires
            old(self)@.state matches ProxyState::Connected(n) ==> n < u64::MAX,
        ensures
            final(self)@ == (Metrics {
                state: state_after_open(old(self)@.state),
                num_connections: old(self)@.num_connections.wrapping_add(1),
                ..old(self)@
            }),
    {
        self.num_connections = self.num_connections.wrapping_add(1);
        self.state = match self.state {
            ProxyState::Connected(num) => ProxyState::Connected(num + 1),
            _ => ProxyState::Connected(1),
        };
    }

    /// Counts a connection that closes at `now_ms`.
    pub fn close_connection(&mut self, now_ms: u64)
        ensures
            final(self)@ == (Metrics { state: state_after_close(old(self)@.state, now_ms), ..old(self)@ }),
    {
        self.state = match self.state {
            ProxyState::Connected(num) => if num > 1 {
                ProxyState::Connected(num - 1)
            } else {
                ProxyState::Disconnected(now_ms)
            },
            _ => ProxyState::Disconnected(now_ms),
        };
    }

    pub fn metrics(&self) -> (r: Metrics)
        ensures
            r == self@,
    {
        Metrics {
            state: self.state,
            num_connections: self.num_connections,
            client_to_server_bytes: self.client_to_server_bytes,
            server_to_client_bytes: self.server_to_client_bytes,
        }
    }
}

} // verus!
