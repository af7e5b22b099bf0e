//! Where and how to connect.

use vstd::prelude::*;

verus! {

/// Address of the admin interface where none is configured.
pub const DEFAULT_ADDR: &'static str = "127.0.0.1";

/// UDP port of the admin interface where none is configured.
pub const DEFAULT_PORT: u16 = 11234;

/// Socket or pipe of the admin interface where none is configured.
pub const DEFAULT_PIPE_PATH: &'static str = "cjdroute.sock";

/// Password where none is configured.
pub const DEFAULT_PASSWORD: &'static str = "NONE";

/// Resolved connection parameters.
#[derive(PartialEq, Eq, Debug)]
pub struct ConnectionOptions {
    /// What to connect to.
    pub endpoint: ConnectionEndpoint,
    /// Password for authenticated calls; empty for none.
    pub password: String,
    /// The config file that the parameters came from, if any.
    pub used_config_file: Option<String>,
}

/// What to connect to.
#[derive(PartialEq, Eq, Debug)]
pub enum ConnectionEndpoint {
    /// A UDP address.
    Udp {
        /// IP address as text.
        addr: String,
        /// Port.
        port: u16,
    },
    /// A Unix domain socket or a Windows named pipe.
    Pipe {
        /// Path of the socket or pipe.
        path: String,
    },
}

impl Clone for ConnectionEndpoint {
    fn clone(&self) -> (r: ConnectionEndpoint)
        ensures
            r == *self,
    {
        match self {
            ConnectionEndpoint::Udp { addr, port } => ConnectionEndpoint::Udp {
                addr: addr.clone(),
                port: *port,
            },
            ConnectionEndpoint::Pipe { path } => ConnectionEndpoint::Pipe { path: path.clone() },
        }
    }
}

impl Clone for ConnectionOptions {
    fn clone(&self) -> (r: ConnectionOptions)
        ensures
            r == *self,
    {
        ConnectionOptions {
            endpoint: self.endpoint.clone(),
            password: self.password.clone(),
            used_config_file: match &self.used_config_file {
                Some(path) => Some(path.clone()),
                None => None,
            },
        }
    }
}

/// The endpoint is the UDP address `addr`, `port`.
pub open spec fn is_udp(endpoint: ConnectionEndpoint, addr: Seq<char>, port: u16) -> bool {
    match endpoint {
        ConnectionEndpoint::Udp { addr: a, port: p } => a@ == addr && p == port,
        ConnectionEndpoint::Pipe { .. } => false,
    }
}

/// The endpoint is the socket or pipe at `path`.
pub open spec fn is_pipe(endpoint: ConnectionEndpoint, path: Seq<char>) -> bool {
    match endpoint {
        ConnectionEndpoint::Udp { .. } => false,
        ConnectionEndpoint::Pipe { path: p } => p@ == path,
    }
}

impl Default for ConnectionOptions {
    fn default() -> (r: ConnectionOptions)
        ensures
            is_udp(r.endpoint, DEFAULT_ADDR@, DEFAULT_PORT),
            r.password@ == DEFAULT_PASSWORD@,
            r.used_config_file is None,
    {
        ConnectionOptions {
            endpoint: ConnectionEndpoint::Udp {
                addr: DEFAULT_ADDR.to_owned(),
                port: DEFAULT_PORT,
            },
            password: DEFAULT_PASSWORD.to_owned(),
            used_config_file: None,
        }
    }
}

/// An endpoint is a UDP address or a path, and never both.
pub proof fn law_endpoint_is_what_it_says(endpoint: ConnectionEndpoint, t: Seq<char>, port: u16)
    ensures
        is_udp(endpoint, t, port) <==> (endpoint matches ConnectionEndpoint::Udp { addr: a, port: p }
            && a@ == t && p == port),
        is_pipe(endpoint, t) <==> (endpoint matches ConnectionEndpoint::Pipe { path: p } && p@ == t),
        !(is_udp(endpoint, t, port) && is_pipe(endpoint, t)),
{
}

} // verus!
