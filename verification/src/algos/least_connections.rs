use vstd::prelude::*;
use crate::algos::min_key::{is_first_min, first_min, index_of_first_min, lemma_first_min_exists};
use crate::balancer::{Loadbalancer, deref_servers};
use crate::server::Server;

verus! {

/// The key by which least connections ranks servers.
pub open spec fn connection_keys(servers: Seq<Server>) -> Seq<u32> {
    servers.map_values(|s: Server| s.connections)
}

/// Sends each request to a server with the fewest connections in flight.
pub struct LeastConnections {}

impl LeastConnections {
    /// The rule keeps no state.
    pub fn new() -> (r: LeastConnections) {
        LeastConnections {}
    }
}

impl Loadbalancer for LeastConnections {
    open spec fn accepts(&self, servers: Seq<Server>) -> bool {
        true
    }

    open spec fn choice(&self, servers: Seq<Server>) -> Option<int> {
        first_min(connection_keys(servers))
    }

    open spec fn after(&self, servers: Seq<Server>) -> Self {
        *self
    }

    fn can_select(&self, servers: &[&Server]) -> (b: bool) {
        true
    }

    /// The first server with the fewest connections.
    fn get_index(&mut self, servers: &[&Server]) -> (r: Option<usize>)
        ensures
            r matches Some(i) ==> is_first_min(connection_keys(deref_servers(servers@)), i as int),
    {
        let ghost keys_spec = connection_keys(deref_servers(servers@));
        let mut keys: Vec<u32> = Vec::new();
        let mut i: usize = 0;
        while i < servers.len()
            invariant
                i <= servers@.len(),
                keys_spec == connection_keys(deref_servers(servers@)),
                keys@ == keys_spec.take(i as int),
            decreases servers@.len() - i,
        {
            keys.push(servers[i].connections);
            i = i + 1;
        }
        assert(keys@ =~= keys_spec);
        index_of_first_min(&keys)
    }
}

/// Least connections sends a request to the first server with the fewest
/// connections in flight: it chooses one whenever there are servers, and no
/// server has fewer connections than the chosen one, nor as few before it.
pub proof fn lemma_least_connections_choice(b: LeastConnections, servers: Seq<Server>)
    ensures
        servers.len() == 0 ==> b.choice(servers) is None,
        servers.len() > 0 ==> (b.choice(servers) matches Some(i) && {
            &&& 0 <= i < servers.len()
            &&& forall|j: int|
                #![trigger servers[j]]
                0 <= j < servers.len() ==> servers[i].connections <= servers[j].connections
            &&& forall|j: int| #![trigger servers[j]] 0 <= j < i ==> servers[i].connections < servers[j].connections
        }),
{
    let keys = connection_keys(servers);
    if servers.len() > 0 {
        lemma_first_min_exists(keys);
        let i = b.choice(servers)->0;
        assert forall|j: int| #![trigger servers[j]] 0 <= j < servers.len() implies servers[i].connections
            <= servers[j].connections by {
            assert(keys[i] <= keys[j]);
        }
        assert forall|j: int| #![trigger servers[j]] 0 <= j < i implies servers[i].connections
            < servers[j].connections by {
            assert(keys[i] < keys[j]);
        }
    }
}

} // verus!
