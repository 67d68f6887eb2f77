use vstd::prelude::*;
use crate::algos::min_key::{is_first_min, first_min, index_of_first_min, lemma_first_min_exists};
use crate::balancer::{Loadbalancer, deref_servers};
use crate::server::Server;

verus! {

/// The key by which weighted least connections ranks servers: connections per unit of weight.
pub open spec fn weighted_connection_keys(servers: Seq<Server>) -> Seq<u32> {
    servers.map_values(|s: Server| connections_per_weight(s))
}

/// Connections in flight per unit of weight, rounded down.
pub open spec fn connections_per_weight(s: Server) -> u32 {
    (s.connections / s.weight) as u32
}

/// Sends each request to a server with the fewest connections per unit of weight.
pub struct WeightedLeastConnections {}

impl WeightedLeastConnections {
    /// The rule keeps no state.
    pub fn new() -> (r: WeightedLeastConnections) {
        WeightedLeastConnections {}
    }
}

impl Loadbalancer for WeightedLeastConnections {
    open spec fn accepts(&self, servers: Seq<Server>) -> bool {
        forall|i: int| 0 <= i < servers.len() ==> #[trigger] servers[i].weight > 0
    }

    open spec fn choice(&self, servers: Seq<Server>) -> Option<int> {
        first_min(weighted_connection_keys(servers))
    }

    open spec fn after(&self, servers: Seq<Server>) -> Self {
        *self
    }

    fn can_select(&self, servers: &[&Server]) -> (b: bool) {
        let mut i: usize = 0;
        while i < servers.len()
            invariant
                i <= servers@.len(),
                forall|j: int| 0 <= j < i ==> #[trigger] servers@[j].weight > 0,
            decreases servers@.len() - i,
        {
            if servers[i].weight == 0 {
                assert(deref_servers(servers@)[i as int] == *servers@[i as int]);
                return false;
            }
            i = i + 1;
        }
        assert forall|j: int| 0 <= j < servers@.len() implies #[trigger] deref_servers(servers@)[j].weight > 0 by {
            assert(deref_servers(servers@)[j] == *servers@[j]);
        }
        true
    }

    /// The first server with the fewest connections per unit of weight.
    fn get_index(&mut self, servers: &[&Server]) -> (r: Option<usize>)
        ensures
            r matches Some(i) ==> is_first_min(weighted_connection_keys(deref_servers(servers@)), i as int),
    {
        assert forall|j: int| 0 <= j < servers@.len() implies #[trigger] servers@[j].weight > 0 by {
            assert(deref_servers(servers@)[j] == *servers@[j]);
        }
        let ghost keys_spec = weighted_connection_keys(deref_servers(servers@));
        let mut keys: Vec<u32> = Vec::new();
        let mut i: usize = 0;
        while i < servers.len()
            invariant
                i <= servers@.len(),
                forall|j: int| 0 <= j < servers@.len() ==> #[trigger] servers@[j].weight > 0,
                keys_spec == weighted_connection_keys(deref_servers(servers@)),
                keys@ == keys_spec.take(i as int),
            decreases servers@.len() - i,
        {
            assert(servers@[i as int].weight > 0);
            let key = servers[i].connections / servers[i].weight;
            assert(deref_servers(servers@)[i as int] == *servers@[i as int]);
            assert(key == keys_spec[i as int]);
            keys.push(key);
            i = i + 1;
        }
        assert(keys@ =~= keys_spec);
        index_of_first_min(&keys)
    }
}

/// Weighted least connections sends a request to the first server with the
/// fewest connections per unit of weight (rounded down): among servers that
/// all have a positive weight, it chooses one, and no server has fewer
/// connections per unit of weight than the chosen one, nor as few before it.
pub proof fn lemma_weighted_least_connections_choice(b: WeightedLeastConnections, servers: Seq<Server>)
    requires
        b.accepts(servers),
    ensures
        servers.len() == 0 ==> b.choice(servers) is None,
        servers.len() > 0 ==> (b.choice(servers) matches Some(i) && {
            &&& 0 <= i < servers.len()
            &&& forall|j: int|
                0 <= j < servers.len() ==> servers[i].connections / servers[i].weight <= #[trigger] servers[j].connections
                    / servers[j].weight
            &&& forall|j: int|
                0 <= j < i ==> servers[i].connections / servers[i].weight < #[trigger] servers[j].connections
                    / servers[j].weight
        }),
{
    let keys = weighted_connection_keys(servers);
    if servers.len() > 0 {
        lemma_first_min_exists(keys);
        let i = b.choice(servers)->0;
        assert forall|j: int| 0 <= j < servers.len() implies servers[i].connections / servers[i].weight
            <= #[trigger] servers[j].connections / servers[j].weight by {
            assert(keys[i] <= keys[j]);
        }
        assert forall|j: int| 0 <= j < i implies servers[i].connections / servers[i].weight
            < #[trigger] servers[j].connections / servers[j].weight by {
            assert(keys[i] < keys[j]);
        }
    }
}

} // verus!
