use vstd::prelude::*;

verus! {

/// A backend server as the balancing algorithms see it.
#[derive(Clone, Debug, PartialEq)]
pub struct Server {
    /// Address of the backend, as written in the configuration.
    pub addr: String,
    /// Relative capacity used by the weighted algorithms.
    pub weight: u32,
    /// Last measured response time, in nanoseconds (`Duration::as_nanos`).
    pub response_time_ns: u128,
    /// Requests currently in flight.
    pub connections: u32,
    /// Connection limit above which the server is not used.
    pub max_connections: u32,
    /// Outcome of the last health check or request.
    pub alive: bool,
}

/// Whole milliseconds of a duration given in nanoseconds
/// (`Duration::as_millis`), cut down to 32 bits as `as u32` does.
pub open spec fn millis_u32(ns: u128) -> u32 {
    ((ns / 1_000_000) % 0x1_0000_0000) as u32
}

/// A server that can take a request: alive and below its connection limit.
pub open spec fn available(s: Server) -> bool {
    s.alive && s.connections < s.max_connections
}

impl Server {
    /// A fresh server: alive, idle, with a zero response time.
    pub fn new(addr: String, weight: u32, max_connections: u32) -> (s: Server)
        ensures
            s.addr@ == addr@,
            s.weight == weight,
            s.max_connections == max_connections,
            s.response_time_ns == 0,
            s.connections == 0,
            s.alive,
    {
        Server { addr, weight, max_connections, response_time_ns: 0, connections: 0, alive: true }
    }

    /// A field-by-field copy.
    pub fn duplicate(&self) -> (s: Server)
        ensures
            s == *self,
    {
        Server {
            addr: self.addr.clone(),
            weight: self.weight,
            response_time_ns: self.response_time_ns,
            connections: self.connections,
            max_connections: self.max_connections,
            alive: self.alive,
        }
    }
}

} // verus!
