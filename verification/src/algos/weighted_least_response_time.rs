use vstd::prelude::*;
use crate::algos::min_key::{is_first_min, first_min, index_of_first_min, lemma_first_min_exists};
use crate::balancer::{Loadbalancer, deref_servers};
use crate::server::{Server, millis_u32};

verus! {

/// The key by which weighted least response time ranks servers: the truncated response time per unit of weight.
pub open spec fn weighted_response_time_keys(servers: Seq<Server>) -> Seq<u32> {
    servers.map_values(|s: Server| response_time_per_weight(s))
}

/// Truncated response time per unit of weight, rounded down.
pub open spec fn response_time_per_weight(s: Server) -> u32 {
    (millis_u32(s.response_time_ns) / s.weight) as u32
}

/// Sends each request to the server with the shortest response time per unit of weight.
pub struct WeightedLeastResponseTime {}

impl WeightedLeastResponseTime {
    /// The rule keeps no state.
    pub fn new() -> (r: WeightedLeastResponseTime) {
        WeightedLeastResponseTime {}
    }
}

impl Loadbalancer for WeightedLeastResponseTime {
    open spec fn accepts(&self, servers: Seq<Server>) -> bool {
        forall|i: int| 0 <= i < servers.len() ==> #[trigger] servers[i].weight > 0
    }

    open spec fn choice(&self, servers: Seq<Server>) -> Option<int> {
        first_min(weighted_response_time_keys(servers))
    }

    open spec fn after(&self, servers: Seq<Server>) -> Self {
        *self
    }

    fn can_select(&self, servers: &[&Server]) -> (b: bool) {
        let mut i: usize = 0;
        while i < servers.len()
            invariant
                i <= servers@.len(),
                forall|j: int| 0 <= j < i ==> #[trigger] servers@[j].weight > 0,
            decreases servers@.len() - i,
        {
            if servers[i].weight == 0 {
                assert(deref_servers(servers@)[i as int] == *servers@[i as int]);
                return false;
            }
            i = i + 1;
        }
        assert forall|j: int| 0 <= j < servers@.len() implies #[trigger] deref_servers(servers@)[j].weight > 0 by {
            assert(deref_servers(servers@)[j] == *servers@[j]);
        }
        true
    }

    /// The first server with the shortest response time per unit of weight.
    fn get_index(&mut self, servers: &[&Server]) -> (r: Option<usize>)
        ensures
            r matches Some(i) ==> is_first_min(weighted_response_time_keys(deref_servers(servers@)), i as int),
    {
        assert forall|j: int| 0 <= j < servers@.len() implies #[trigger] servers@[j].weight > 0 by {
            assert(deref_servers(servers@)[j] == *servers@[j]);
        }
        let ghost keys_spec = weighted_response_time_keys(deref_servers(servers@));
        let mut keys: Vec<u32> = Vec::new();
        let mut i: usize = 0;
        while i < servers.len()
            invariant
                i <= servers@.len(),
                forall|j: int| 0 <= j < servers@.len() ==> #[trigger] servers@[j].weight > 0,
                keys_spec == weighted_response_time_keys(deref_servers(servers@)),
                keys@ == keys_spec.take(i as int),
            decreases servers@.len() - i,
        {
            assert(servers@[i as int].weight > 0);
            let ms = ((servers[i].response_time_ns / 1_000_000) % 0x1_0000_0000) as u32;
            assert(ms == millis_u32(servers@[i as int].response_time_ns));
            let key = ms / servers[i].weight;
            assert(deref_servers(servers@)[i as int] == *servers@[i as int]);
            assert(key == keys_spec[i as int]);
            keys.push(key);
            i = i + 1;
        }
        assert(keys@ =~= keys_spec);
        index_of_first_min(&keys)
    }
}

/// Weighted least response time sends a request to the first server with the
/// shortest response time, in whole milliseconds cut to 32 bits, per unit of
/// weight (rounded down): among servers that all have a positive weight, it
/// chooses one, and no server has a shorter such time than the chosen one,
/// nor as short a time before it.
pub proof fn lemma_weighted_least_response_time_choice(b: WeightedLeastResponseTime, servers: Seq<Server>)
    requires
        b.accepts(servers),
    ensures
        servers.len() == 0 ==> b.choice(servers) is None,
        servers.len() > 0 ==> (b.choice(servers) matches Some(i) && {
            &&& 0 <= i < servers.len()
            &&& forall|j: int|
                #![trigger servers[j]]
                0 <= j < servers.len() ==> (servers[i].response_time_ns as int / 1_000_000) % 0x1_0000_0000
                    / (servers[i].weight as int) <= (servers[j].response_time_ns as int / 1_000_000)
                    % 0x1_0000_0000 / (servers[j].weight as int)
            &&& forall|j: int|
                #![trigger servers[j]]
                0 <= j < i ==> (servers[i].response_time_ns as int / 1_000_000) % 0x1_0000_0000 / (
                servers[i].weight as int) < (servers[j].response_time_ns as int / 1_000_000) % 0x1_0000_0000
                    / (servers[j].weight as int)
        }),
{
    let keys = weighted_response_time_keys(servers);
    if servers.len() > 0 {
        lemma_first_min_exists(keys);
        let i = b.choice(servers)->0;
        assert forall|j: int|
            #![trigger servers[j]]
            0 <= j < servers.len() implies (servers[i].response_time_ns as int / 1_000_000) % 0x1_0000_0000
                / (servers[i].weight as int) <= (servers[j].response_time_ns as int / 1_000_000)
                % 0x1_0000_0000 / (servers[j].weight as int) by {
            assert(keys[i] <= keys[j]);
        }
        assert forall|j: int|
            #![trigger servers[j]]
            0 <= j < i implies (servers[i].response_time_ns as int / 1_000_000) % 0x1_0000_0000 / (
            servers[i].weight as int) < (servers[j].response_time_ns as int / 1_000_000) % 0x1_0000_0000
                / (servers[j].weight as int) by {
            assert(keys[i] < keys[j]);
        }
    }
}

} // verus!
