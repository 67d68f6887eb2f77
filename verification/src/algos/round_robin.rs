use vstd::prelude::*;
use crate::balancer::{Loadbalancer, deref_servers, choices_in_turn};
use crate::server::Server;
use crate::arith::{
    lemma_rotation_step, lemma_rotation_covers, slot_of, rotation_slots, lemma_rotation_slots,
    lemma_rotation_each_once, occurrences,
};

verus! {

/// Hands the servers out in turn, by a counter that wraps around.
pub struct RoundRobin {
    counter: usize,
}

impl RoundRobin {
    /// Starts with the first server.
    pub fn new() -> (r: RoundRobin)
        ensures
            r.counter() == 0,
    {
        RoundRobin { counter: 0 }
    }

    /// Number of selections made so far, modulo the word size.
    pub closed spec fn counter(&self) -> usize {
        self.counter
    }
}

impl Loadbalancer for RoundRobin {
    open spec fn accepts(&self, servers: Seq<Server>) -> bool {
        servers.len() > 0
    }

    open spec fn choice(&self, servers: Seq<Server>) -> Option<int> {
        if servers.len() == 0 {
            None
        } else {
            Some(self.counter() as int % servers.len() as int)
        }
    }

    closed spec fn after(&self, servers: Seq<Server>) -> Self {
        RoundRobin { counter: self.counter().wrapping_add(1) }
    }

    fn can_select(&self, servers: &[&Server]) -> (b: bool) {
        servers.len() > 0
    }

    /// The counter modulo the number of servers; the counter then advances.
    fn get_index(&mut self, servers: &[&Server]) -> (r: Option<usize>)
        ensures
            r == Some((old(self).counter() as int % servers@.len() as int) as usize),
            final(self).counter() == old(self).counter().wrapping_add(1),
    {
        let index = self.counter % servers.len();
        self.counter = self.counter.wrapping_add(1);
        Some(index)
    }
}


/// After a selection the counter has moved on by one.
pub proof fn lemma_round_robin_after(rr: RoundRobin, servers: Seq<Server>)
    ensures
        rr.after(servers).counter() == rr.counter().wrapping_add(1),
{
}

/// Round robin rotates: without wrapping, the next selection is the server
/// after the last one (cyclically), and any run of as many selections as
/// there are servers chooses every server, `slot` among them.
pub proof fn lemma_round_robin_rotates(counter: usize, n: nat, slot: int)
    requires
        n > 0,
        counter < usize::MAX,
        0 <= slot < n,
    ensures
        slot_of(counter + 1, n as int) == (slot_of(counter as int, n as int) + 1) % n as int,
        exists|k: int| 0 <= k < n && #[trigger] slot_of(counter + k, n as int) == slot,
{
    lemma_rotation_step(counter as int, n as int);
    lemma_rotation_covers(counter as int, n as int, slot);
}

/// The calls in a row with the same servers choose the positions of a
/// counter that moves on by one per call (wrapping around the word size).
pub proof fn lemma_round_robin_in_turn(rr: RoundRobin, servers: Seq<Server>, k: nat)
    requires
        servers.len() > 0,
    ensures
        choices_in_turn(rr, servers, k) == rotation_slots(rr.counter(), servers.len(), k).map_values(
            |x: int| Some(x),
        ),
    decreases k,
{
    if k > 0 {
        lemma_round_robin_in_turn(rr.after(servers), servers, (k - 1) as nat);
        assert(rr.after(servers).counter() == rr.counter().wrapping_add(1));
        assert(choices_in_turn(rr, servers, k) =~= rotation_slots(rr.counter(), servers.len(), k).map_values(
            |x: int| Some(x),
        ));
    }
}

/// Round robin called as many times in a row as there are servers, with the
/// same servers and its counter not wrapping, chooses every server exactly
/// once: call `j` chooses the server at the counter plus `j`, cyclically.
pub proof fn lemma_round_robin_each_once(rr: RoundRobin, servers: Seq<Server>, slot: int)
    requires
        servers.len() > 0,
        rr.counter() + servers.len() <= usize::MAX,
        0 <= slot < servers.len(),
    ensures
        choices_in_turn(rr, servers, servers.len()) == rotation_slots(
            rr.counter(),
            servers.len(),
            servers.len(),
        ).map_values(|x: int| Some(x)),
        choices_in_turn(rr, servers, servers.len()).len() == servers.len(),
        forall|j: int|
            0 <= j < servers.len() ==> #[trigger] choices_in_turn(rr, servers, servers.len())[j] == Some(
                (rr.counter() + j) % servers.len() as int,
            ),
        occurrences(rotation_slots(rr.counter(), servers.len(), servers.len()), slot) == 1,
{
    let n = servers.len();
    lemma_round_robin_in_turn(rr, servers, n);
    lemma_rotation_slots(rr.counter(), n, n);
    lemma_rotation_each_once(rr.counter(), n, slot);
    let s = rotation_slots(rr.counter(), n, n);
    assert forall|j: int| 0 <= j < n implies #[trigger] choices_in_turn(rr, servers, n)[j] == Some(
        (rr.counter() + j) % n as int,
    ) by {
        assert(s[j] == (rr.counter() + j) % (n as int));
    }
}

} // verus!
