use vstd::prelude::*;
use crate::algos::min_key::{is_first_min, first_min, index_of_first_min, lemma_first_min_exists};
use crate::balancer::{Loadbalancer, deref_servers};
use crate::server::{Server, millis_u32};

verus! {

/// The key by which least response time ranks servers: the response time in whole milliseconds, truncated to 32 bits.
pub open spec fn response_time_keys(servers: Seq<Server>) -> Seq<u32> {
    servers.map_values(|s: Server| millis_u32(s.response_time_ns))
}

/// Sends each request to the server that answered fastest.
pub struct LeastResponseTime {}

impl LeastResponseTime {
    /// The rule keeps no state.
    pub fn new() -> (r: LeastResponseTime) {
        LeastResponseTime {}
    }
}

impl Loadbalancer for LeastResponseTime {
    open spec fn accepts(&self, servers: Seq<Server>) -> bool {
        true
    }

    open spec fn choice(&self, servers: Seq<Server>) -> Option<int> {
        first_min(response_time_keys(servers))
    }

    open spec fn after(&self, servers: Seq<Server>) -> Self {
        *self
    }

    fn can_select(&self, servers: &[&Server]) -> (b: bool) {
        true
    }

    /// The first server with the shortest response time.
    fn get_index(&mut self, servers: &[&Server]) -> (r: Option<usize>)
        ensures
            r matches Some(i) ==> is_first_min(response_time_keys(deref_servers(servers@)), i as int),
    {
        let ghost keys_spec = response_time_keys(deref_servers(servers@));
        let mut keys: Vec<u32> = Vec::new();
        let mut i: usize = 0;
        while i < servers.len()
            invariant
                i <= servers@.len(),
                keys_spec == response_time_keys(deref_servers(servers@)),
                keys@ == keys_spec.take(i as int),
            decreases servers@.len() - i,
        {
            let ms = ((servers[i].response_time_ns / 1_000_000) % 0x1_0000_0000) as u32;
            assert(ms == millis_u32(servers@[i as int].response_time_ns));
            keys.push(ms);
            i = i + 1;
        }
        assert(keys@ =~= keys_spec);
        index_of_first_min(&keys)
    }
}

/// Least response time sends a request to the first server with the
/// shortest response time, in whole milliseconds cut to 32 bits: it chooses
/// one whenever there are servers, and no server has a shorter such time
/// than the chosen one, nor as short a time before it.
pub proof fn lemma_least_response_time_choice(b: LeastResponseTime, servers: Seq<Server>)
    ensures
        servers.len() == 0 ==> b.choice(servers) is None,
        servers.len() > 0 ==> (b.choice(servers) matches Some(i) && {
            &&& 0 <= i < servers.len()
            &&& forall|j: int|
                #![trigger servers[j]]
                0 <= j < servers.len() ==> (servers[i].response_time_ns as int / 1_000_000) % 0x1_0000_0000
                    <= (servers[j].response_time_ns as int / 1_000_000) % 0x1_0000_0000
            &&& forall|j: int|
                #![trigger servers[j]]
                0 <= j < i ==> (servers[i].response_time_ns as int / 1_000_000) % 0x1_0000_0000
                    < (servers[j].response_time_ns as int / 1_000_000) % 0x1_0000_0000
        }),
{
    let keys = response_time_keys(servers);
    if servers.len() > 0 {
        lemma_first_min_exists(keys);
        let i = b.choice(servers)->0;
        assert forall|j: int|
            #![trigger servers[j]]
            0 <= j < servers.len() implies (servers[i].response_time_ns as int / 1_000_000) % 0x1_0000_0000
                <= (servers[j].response_time_ns as int / 1_000_000) % 0x1_0000_0000 by {
            assert(keys[i] <= keys[j]);
        }
        assert forall|j: int|
            #![trigger servers[j]]
            0 <= j < i implies (servers[i].response_time_ns as int / 1_000_000) % 0x1_0000_0000
                < (servers[j].response_time_ns as int / 1_000_000) % 0x1_0000_0000 by {
            assert(keys[i] < keys[j]);
        }
    }
}

} // verus!
