use vstd::prelude::*;
use std::time::{Duration, Instant};
use crate::balancer::{Loadbalancer, deref_servers};
use crate::config::LoadBalancer;
use crate::server::{Server, available};
use crate::algos::least_connections::{LeastConnections, connection_keys};
use crate::algos::min_key::{is_first_min, lemma_first_min_exists};

verus! {

#[verifier::external_type_specification]
#[verifier::external_body]
pub struct ExInstant(Instant);

/// Reads the clock with `Instant::now`; nothing is claimed of the reading.
#[verifier::external_body]
fn instant_now() -> Instant {
    Instant::now()
}

/// `Instant::duration_since`: the time from the start of `window`'s current
/// window to `later` (zero if the window started later). The window start is
/// taken from the counter itself, so the call cannot measure the other way
/// round; nothing is claimed of the duration, which depends on the clock.
#[verifier::external_body]
fn duration_since(later: &Instant, window: &RequestCounter) -> Duration {
    later.duration_since(window.last_checked)
}

/// `Duration::as_secs`; nothing is claimed of the result, as the duration
/// is opaque here.
#[verifier::external_body]
fn duration_as_secs(d: &Duration) -> u64 {
    d.as_secs()
}

/// Requests above this count within the current window are queued.
pub const MAX_REQUEST_RATE: u64 = 1000;

/// Counts requests in windows of about a second.
pub struct RequestCounter {
    requests: u64,
    last_checked: Instant,
}

impl RequestCounter {
    /// A counter at zero whose window starts now.
    pub fn new() -> (r: RequestCounter)
        ensures
            r.requests() == 0,
    {
        RequestCounter { requests: 0, last_checked: instant_now() }
    }

    /// Requests counted in the current window.
    pub closed spec fn requests(&self) -> u64 {
        self.requests
    }

    /// Requests counted in the current window.
    pub fn request_count(&self) -> (n: u64)
        ensures
            n == self.requests(),
    {
        self.requests
    }

    /// When the current window started.
    pub closed spec fn last_checked(&self) -> Instant {
        self.last_checked
    }

    /// Counts one more request.
    pub fn increment(&mut self)
        requires
            old(self).requests() < u64::MAX,
        ensures
            final(self).requests() == old(self).requests() + 1,
            final(self).last_checked() == old(self).last_checked(),
    {
        self.requests = self.requests + 1;
    }

    /// The request count, after starting a new window at `now` when more
    /// than one whole second has passed since the window began.
    pub fn reset_if_stale(&mut self, now: Instant, elapsed_secs: u64) -> (rate: u64)
        ensures
            elapsed_secs > 1 ==> final(self).requests() == 0 && final(self).last_checked() == now,
            elapsed_secs <= 1 ==> *final(self) == *old(self),
            rate == final(self).requests(),
    {
        if elapsed_secs > 1 {
            self.requests = 0;
            self.last_checked = now;
        }
        self.requests
    }

    /// The request count in the current window, after starting a new window
    /// when more than one whole second has passed: either the count is kept
    /// or it drops to zero.
    pub fn get_rate(&mut self) -> (rate: u64)
        ensures
            rate == final(self).requests(),
            final(self).requests() == 0 || final(self).requests() == old(self).requests(),
            *final(self) == *old(self) || final(self).requests() == 0,
    {
        let now = instant_now();
        let elapsed = duration_since(&now, self);
        let secs = duration_as_secs(&elapsed);
        self.reset_if_stale(now, secs)
    }

    /// Counts an incoming request and says whether it must be queued: the
    /// count, in a window that may just have restarted, is above
    /// `MAX_REQUEST_RATE`.
    pub fn register_request(&mut self) -> (queued: bool)
        requires
            old(self).requests() < u64::MAX,
        ensures
            final(self).requests() == 0 || final(self).requests() == old(self).requests() + 1,
            queued == (final(self).requests() > MAX_REQUEST_RATE),
    {
        self.increment();
        let rate = self.get_rate();
        rate > MAX_REQUEST_RATE
    }
}

/// Positions of the servers that can take a request, in order.
pub open spec fn available_indices(servers: Seq<Server>) -> Seq<int>
    decreases servers.len(),
{
    if servers.len() == 0 {
        Seq::empty()
    } else {
        let prev = available_indices(servers.drop_last());
        if available(servers.last()) {
            prev.push(servers.len() - 1)
        } else {
            prev
        }
    }
}

/// The servers that can take a request, in order.
pub open spec fn available_servers_of(servers: Seq<Server>) -> Seq<Server> {
    available_indices(servers).map_values(|i: int| servers[i])
}

/// Every position listed by `available_indices` is a valid, available server,
/// and every available server is listed.
pub proof fn lemma_available_indices(servers: Seq<Server>)
    ensures
        forall|k: int|
            0 <= k < available_indices(servers).len() ==> {
                &&& 0 <= #[trigger] available_indices(servers)[k] < servers.len()
                &&& available(servers[available_indices(servers)[k]])
            },
        forall|i: int| 0 <= i < servers.len() && available(#[trigger] servers[i]) ==> available_indices(servers).contains(i),
        forall|k1: int, k2: int|
            0 <= k1 < k2 < available_indices(servers).len() ==> available_indices(servers)[k1]
                < available_indices(servers)[k2],
    decreases servers.len(),
{
    if servers.len() > 0 {
        let init = servers.drop_last();
        lemma_available_indices(init);
        let prev = available_indices(init);
        assert forall|i: int| 0 <= i < servers.len() && available(#[trigger] servers[i]) implies available_indices(
            servers,
        ).contains(i) by {
            if i < servers.len() - 1 {
                assert(init[i] == servers[i]);
                let k = choose|k: int| 0 <= k < prev.len() && prev[k] == i;
                assert(available_indices(servers)[k] == i);
            } else {
                assert(available_indices(servers)[prev.len() as int] == i);
            }
        }
        assert forall|k: int| 0 <= k < available_indices(servers).len() implies {
            &&& 0 <= #[trigger] available_indices(servers)[k] < servers.len()
            &&& available(servers[available_indices(servers)[k]])
        } by {
            if k < prev.len() {
                assert(init[prev[k]] == servers[prev[k]]);
            }
        }
    }
}

impl LoadBalancer {
    /// The servers that can take a request, with their positions.
    pub fn available_servers(&self) -> (r: (Vec<Server>, Vec<usize>))
        ensures
            r.1@.len() == available_indices(self.servers@).len(),
            forall|k: int| 0 <= k < r.1@.len() ==> #[trigger] r.1@[k] as int == available_indices(self.servers@)[k],
            r.0@ == available_servers_of(self.servers@),
    {
        let mut alive: Vec<Server> = Vec::new();
        let mut indices: Vec<usize> = Vec::new();
        let mut i: usize = 0;
        while i < self.servers.len()
            invariant
                i <= self.servers@.len(),
                indices@.len() == available_indices(self.servers@.take(i as int)).len(),
                forall|k: int|
                    0 <= k < indices@.len() ==> #[trigger] indices@[k] as int == available_indices(
                        self.servers@.take(i as int),
                    )[k],
                alive@ == available_servers_of(self.servers@.take(i as int)),
            decreases self.servers@.len() - i,
        {
            let ghost before = self.servers@.take(i as int);
            let ghost after = self.servers@.take(i + 1);
            assert(after.drop_last() =~= before);
            proof {
                lemma_available_indices(before);
            }
            let server = &self.servers[i];
            if server.alive && server.connections < server.max_connections {
                alive.push(server.duplicate());
                indices.push(i);
            }
            assert(available_servers_of(after) =~= alive@) by {
                assert forall|k: int| 0 <= k < available_indices(before).len() implies before[available_indices(
                    before,
                )[k]] == after[#[trigger] available_indices(before)[k]] by {}
            }
            i = i + 1;
        }
        assert(self.servers@.take(self.servers@.len() as int) =~= self.servers@);
        (alive, indices)
    }

    /// Whether `next_backend` may be called with `balancer` now: no server is
    /// available (the answer is then that there is none), or `balancer` may
    /// choose among the available ones.
    pub fn selectable<T: Loadbalancer>(&self, balancer: &T) -> (b: bool)
        ensures
            b == (available_indices(self.servers@).len() == 0 || balancer.accepts(
                available_servers_of(self.servers@),
            )),
    {
        let (alive, _) = self.available_servers();
        if alive.len() == 0 {
            return true;
        }
        let refs = server_refs(&alive);
        balancer.can_select(refs.as_slice())
    }

    /// Picks a backend for a request among the available servers and counts
    /// the request against it: `None` when no server is available; otherwise
    /// the position of the available server that the balancer chooses, whose
    /// connection count goes up by one, and a copy of it.
    pub fn next_backend<T: Loadbalancer>(&mut self, balancer: &mut T) -> (r: Option<(usize, Server)>)
        requires
            available_indices(old(self).servers@).len() > 0 ==> old(balancer).accepts(
                available_servers_of(old(self).servers@),
            ),
        ensures
            r is None <==> available_indices(old(self).servers@).len() == 0,
            r is None ==> *final(self) == *old(self) && *final(balancer) == *old(balancer),
            r is Some ==> *final(balancer) == old(balancer).after(available_servers_of(old(self).servers@)),
            r matches Some((k, s)) ==> {
                &&& old(balancer).choice(available_servers_of(old(self).servers@)) matches Some(j)
                    && k == available_indices(old(self).servers@)[j]
                &&& available_indices(old(self).servers@).contains(k as int)
                &&& 0 <= k < old(self).servers@.len()
                &&& final(self).servers@ == old(self).servers@.update(
                    k as int,
                    with_connection(old(self).servers@[k as int]),
                )
                &&& s == final(self).servers@[k as int]
                &&& final(self).load_balancer == old(self).load_balancer
                &&& final(self).algo == old(self).algo
                &&& final(self).timeout_secs == old(self).timeout_secs
                &&& final(self).health_check_interval_secs == old(self).health_check_interval_secs
            },
    {
        let (alive, indices) = self.available_servers();
        proof {
            lemma_available_indices(self.servers@);
        }
        if alive.len() == 0 {
            return None;
        }
        let refs = server_refs(&alive);
        let choice = balancer.get_index(refs.as_slice());
        match choice {
            Some(j) => {
                let k = indices[j];
                assert(available_indices(self.servers@)[j as int] == k);
                let mut server = self.servers[k].duplicate();
                assert(available(self.servers@[k as int]));
                server.connections = server.connections + 1;
                let copy = server.duplicate();
                self.servers.set(k, server);
                Some((k, copy))
            },
            None => None,
        }
    }

    /// A request sent to server `k` failed or timed out: the server loses one
    /// connection (if it has any) and is marked dead. Out-of-range positions
    /// change nothing.
    pub fn record_failure(&mut self, k: usize)
        ensures
            k < old(self).servers@.len() ==> final(self).servers@ == old(self).servers@.update(
                k as int,
                after_failure(old(self).servers@[k as int]),
            ),
            k >= old(self).servers@.len() ==> final(self).servers@ == old(self).servers@,
            final(self).load_balancer == old(self).load_balancer,
            final(self).algo == old(self).algo,
            final(self).timeout_secs == old(self).timeout_secs,
            final(self).health_check_interval_secs == old(self).health_check_interval_secs,
    {
        if k < self.servers.len() {
            let mut server = self.servers[k].duplicate();
            if server.connections > 0 {
                server.connections = server.connections - 1;
            }
            server.alive = false;
            self.servers.set(k, server);
        }
    }

    /// A health check of server `index` starts: the probe counts as one
    /// connection; returns a copy of the server as probed.
    pub fn begin_health_check(&mut self, index: usize) -> (s: Server)
        requires
            index < old(self).servers@.len(),
            old(self).servers@[index as int].connections < u32::MAX,
        ensures
            final(self).servers@ == old(self).servers@.update(
                index as int,
                with_connection(old(self).servers@[index as int]),
            ),
            s == final(self).servers@[index as int],
            final(self).load_balancer == old(self).load_balancer,
            final(self).algo == old(self).algo,
            final(self).timeout_secs == old(self).timeout_secs,
            final(self).health_check_interval_secs == old(self).health_check_interval_secs,
    {
        let mut server = self.servers[index].duplicate();
        server.connections = server.connections + 1;
        let copy = server.duplicate();
        self.servers.set(index, server);
        copy
    }

    /// A health check of server `index` ended after `elapsed_ns` nanoseconds:
    /// the time is recorded and the probe's connection released; the server
    /// is alive when it `answered` in time and is below its connection limit,
    /// and is otherwise marked dead with no connections.
    pub fn finish_health_check(&mut self, index: usize, elapsed_ns: u128, answered: bool)
        requires
            index < old(self).servers@.len(),
        ensures
            final(self).servers@ == old(self).servers@.update(
                index as int,
                health_checked(old(self).servers@[index as int], elapsed_ns, answered),
            ),
            final(self).load_balancer == old(self).load_balancer,
            final(self).algo == old(self).algo,
            final(self).timeout_secs == old(self).timeout_secs,
            final(self).health_check_interval_secs == old(self).health_check_interval_secs,
    {
        let mut server = self.servers[index].duplicate();
        server.response_time_ns = elapsed_ns;
        if server.connections > 0 {
            server.connections = server.connections - 1;
        }
        if !answered || server.connections >= server.max_connections {
            server.connections = 0;
            server.alive = false;
        } else {
            server.alive = true;
        }
        self.servers.set(index, server);
    }
}

/// Dispatching by least connections sends a request to an available server
/// with no more connections than any other available server.
pub proof fn lemma_least_connections_dispatch(b: LeastConnections, servers: Seq<Server>, j: int)
    requires
        b.choice(available_servers_of(servers)) == Some(j),
    ensures
        0 <= j < available_indices(servers).len(),
        0 <= available_indices(servers)[j] < servers.len(),
        available(servers[available_indices(servers)[j]]),
        forall|x: int|
            0 <= x < servers.len() && available(#[trigger] servers[x]) ==> servers[available_indices(
                servers,
            )[j]].connections <= servers[x].connections,
{
    let idx = available_indices(servers);
    let avail = available_servers_of(servers);
    let keys = connection_keys(avail);
    lemma_available_indices(servers);
    assert(avail.len() > 0);
    lemma_first_min_exists(keys);
    assert(is_first_min(keys, j));
    assert forall|x: int| 0 <= x < servers.len() && available(#[trigger] servers[x]) implies servers[idx[j]].connections
        <= servers[x].connections by {
        assert(idx.contains(x));
        let t = choose|t: int| 0 <= t < idx.len() && idx[t] == x;
        assert(keys[j] <= keys[t]);
        assert(avail[t] == servers[x]);
    }
}

/// A server with one more connection in flight.
pub open spec fn with_connection(s: Server) -> Server {
    Server { connections: (s.connections + 1) as u32, ..s }
}

/// A server after a request to it failed: one connection fewer (if it had
/// any), and dead.
pub open spec fn after_failure(s: Server) -> Server {
    Server {
        connections: if s.connections > 0 {
            (s.connections - 1) as u32
        } else {
            0
        },
        alive: false,
        ..s
    }
}

/// Reporting a failure undoes the connection that dispatching the request
/// added, and takes the server out of the available ones.
pub proof fn lemma_failure_undoes_dispatch(s: Server)
    requires
        s.connections < u32::MAX,
    ensures
        after_failure(with_connection(s)) == (Server { alive: false, ..s }),
        !available(after_failure(with_connection(s))),
{
}

/// Making one available server unavailable leaves exactly one available
/// server fewer.
pub proof fn lemma_one_fewer_available(servers: Seq<Server>, k: int, s: Server)
    requires
        0 <= k < servers.len(),
        available(servers[k]),
        !available(s),
    ensures
        available_indices(servers.update(k, s)).len() + 1 == available_indices(servers).len(),
    decreases servers.len(),
{
    let u = servers.update(k, s);
    if k == servers.len() - 1 {
        assert(u.drop_last() =~= servers.drop_last());
    } else {
        assert(u.drop_last() =~= servers.drop_last().update(k, s));
        lemma_one_fewer_available(servers.drop_last(), k, s);
        assert(u.last() == servers.last());
    }
}

/// A request dispatched to available server `k` (as `next_backend` does)
/// whose sending then fails (as `record_failure` records) leaves one
/// available server fewer than before the dispatch. So a request retried
/// after each failure ends after at most as many attempts as there were
/// available servers: with a server's answer, or with none left.
pub proof fn lemma_failed_attempt_shrinks(servers: Seq<Server>, k: int)
    requires
        0 <= k < servers.len(),
        available(servers[k]),
    ensures
        ({
            let dispatched = servers.update(k, with_connection(servers[k]));
            let failed = dispatched.update(k, after_failure(dispatched[k]));
            available_indices(failed).len() + 1 == available_indices(servers).len()
        }),
{
    let dispatched = servers.update(k, with_connection(servers[k]));
    let failed = dispatched.update(k, after_failure(dispatched[k]));
    assert(failed =~= servers.update(k, after_failure(with_connection(servers[k]))));
    lemma_one_fewer_available(servers, k, after_failure(with_connection(servers[k])));
}

/// A health check (its probe connection added, then the check finished)
/// leaves a server that answered in time and is below its limit alive with
/// the connection count it had; any other server is dead with no
/// connections. Either way the measured time is recorded.
pub proof fn lemma_health_check_round(s: Server, elapsed_ns: u128, answered: bool)
    requires
        s.connections < u32::MAX,
    ensures
        health_checked(with_connection(s), elapsed_ns, answered) == if answered && s.connections
            < s.max_connections {
            Server { response_time_ns: elapsed_ns, alive: true, ..s }
        } else {
            Server { response_time_ns: elapsed_ns, connections: 0, alive: false, ..s }
        },
        available(health_checked(with_connection(s), elapsed_ns, answered)) <==> (answered
            && s.connections < s.max_connections),
{
}

/// A server after a health check that took `elapsed_ns` nanoseconds.
pub open spec fn health_checked(s: Server, elapsed_ns: u128, answered: bool) -> Server {
    let connections: u32 = if s.connections > 0 {
        (s.connections - 1) as u32
    } else {
        0
    };
    if !answered || connections >= s.max_connections {
        Server { response_time_ns: elapsed_ns, connections: 0, alive: false, ..s }
    } else {
        Server { response_time_ns: elapsed_ns, connections, alive: true, ..s }
    }
}

/// References to the servers, in order.
pub fn server_refs(servers: &Vec<Server>) -> (r: Vec<&Server>)
    ensures
        deref_servers(r@) == servers@,
{
    let mut refs: Vec<&Server> = Vec::new();
    let mut i: usize = 0;
    while i < servers.len()
        invariant
            i <= servers@.len(),
            refs@.len() == i,
            deref_servers(refs@) == servers@.take(i as int),
        decreases servers@.len() - i,
    {
        let ghost before = refs@;
        refs.push(&servers[i]);
        assert forall|j: int| 0 <= j < i implies #[trigger] deref_servers(refs@)[j] == servers@[j] by {
            assert(refs@[j] == before[j]);
            assert(deref_servers(before)[j] == servers@.take(i as int)[j]);
        }
        assert(deref_servers(refs@)[i as int] == servers@[i as int]);
        assert(deref_servers(refs@) =~= servers@.take(i + 1));
        i = i + 1;
    }
    assert(servers@.take(servers@.len() as int) =~= servers@);
    refs
}

} // verus!
