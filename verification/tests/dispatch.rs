use balrs::algos::least_connections::LeastConnections;
use balrs::algos::round_robin::RoundRobin;
use balrs::config::LoadBalancer;
use balrs::dispatch::{server_refs, RequestCounter, MAX_REQUEST_RATE};
use balrs::server::Server;

fn balancer() -> LoadBalancer {
    let mut lb = LoadBalancer::new();
    for (i, port) in [5000, 5001, 5002].iter().enumerate() {
        let mut s = Server::new(format!("http://127.0.0.1:{}", port), 1, 2);
        s.connections = i as u32;
        lb.servers.push(s);
    }
    lb
}

#[test]
fn available_servers_skip_dead_and_full_ones() {
    let mut lb = balancer();
    lb.servers[0].alive = false;
    // server 2 has 2 connections and a limit of 2
    let (alive, indices) = lb.available_servers();
    assert_eq!(indices, vec![1]);
    assert_eq!(alive.len(), 1);
    assert_eq!(alive[0].addr, "http://127.0.0.1:5001");
}

#[test]
fn dispatch_counts_the_connection() {
    let mut lb = balancer();
    let mut rr = RoundRobin::new();
    assert!(lb.selectable(&rr));
    let (k, s) = lb.next_backend(&mut rr).unwrap();
    assert_eq!(k, 0);
    assert_eq!(s.connections, 1);
    assert_eq!(lb.servers[0].connections, 1);
    // the next pick is the second available server
    let (k, _) = lb.next_backend(&mut rr).unwrap();
    assert_eq!(k, 1);
    assert_eq!(lb.servers[1].connections, 2);
}

#[test]
fn dispatch_by_least_connections() {
    let mut lb = balancer();
    let mut lc = LeastConnections::new();
    let (k, _) = lb.next_backend(&mut lc).unwrap();
    assert_eq!(k, 0);
    let (k, _) = lb.next_backend(&mut lc).unwrap();
    assert_eq!(k, 0);
    // server 0 is full now, server 1 is full too: nothing is available
    assert_eq!(lb.servers[0].connections, 2);
    let (k, _) = lb.next_backend(&mut lc).unwrap();
    assert_eq!(k, 1);
    assert!(lb.next_backend(&mut lc).is_none());
}

#[test]
fn no_backend_when_all_are_dead() {
    let mut lb = balancer();
    for s in lb.servers.iter_mut() {
        s.alive = false;
    }
    let mut rr = RoundRobin::new();
    // with nothing available, asking is allowed and the answer is that there is none
    assert!(lb.selectable(&rr));
    assert!(lb.next_backend(&mut rr).is_none());
    let before = lb.servers.clone();
    let mut lc = LeastConnections::new();
    assert!(lb.next_backend(&mut lc).is_none());
    assert_eq!(lb.servers.len(), before.len());
    for (a, b) in lb.servers.iter().zip(before.iter()) {
        assert_eq!(a.connections, b.connections);
    }
}

#[test]
fn failure_undoes_the_connection_and_kills_the_server() {
    let mut lb = balancer();
    let mut rr = RoundRobin::new();
    let (k, _) = lb.next_backend(&mut rr).unwrap();
    lb.record_failure(k);
    assert_eq!(lb.servers[k].connections, 0);
    assert!(!lb.servers[k].alive);
    // out of range: nothing happens
    lb.record_failure(17);
    assert_eq!(lb.servers.len(), 3);
}

#[test]
fn health_check_round() {
    let mut lb = balancer();
    let probe = lb.begin_health_check(1);
    assert_eq!(probe.connections, 2);
    lb.finish_health_check(1, 7_000_000, true);
    assert_eq!(lb.servers[1].connections, 1);
    assert!(lb.servers[1].alive);
    assert_eq!(lb.servers[1].response_time_ns, 7_000_000);
    // no answer: dead with no connections
    lb.begin_health_check(0);
    lb.finish_health_check(0, 1, false);
    assert!(!lb.servers[0].alive);
    assert_eq!(lb.servers[0].connections, 0);
    // at its limit after the probe is released: dead
    lb.begin_health_check(2);
    lb.finish_health_check(2, 5, true);
    assert!(!lb.servers[2].alive);
    assert_eq!(lb.servers[2].connections, 0);
}

#[test]
fn server_refs_point_at_each_server() {
    let lb = balancer();
    let refs = server_refs(&lb.servers);
    assert_eq!(refs.len(), 3);
    assert_eq!(refs[2].addr, "http://127.0.0.1:5002");
}

#[test]
fn request_counter_queues_above_the_limit() {
    let mut c = RequestCounter::new();
    let mut queued = 0;
    for _ in 0..MAX_REQUEST_RATE {
        if c.register_request() {
            queued += 1;
        }
    }
    assert_eq!(queued, 0);
    assert!(c.register_request());
}

#[test]
fn request_counter_window() {
    let mut c = RequestCounter::new();
    c.increment();
    c.increment();
    assert_eq!(c.get_rate(), 2);
    let now = std::time::Instant::now();
    assert_eq!(c.reset_if_stale(now, 1), 2);
    assert_eq!(c.reset_if_stale(now, 2), 0);
    assert_eq!(c.get_rate(), 0);
}

#[test]
fn each_failed_attempt_takes_one_server_out() {
    let mut lb = LoadBalancer::new();
    for port in [5000, 5001, 5002] {
        lb.servers.push(Server::new(format!("http://127.0.0.1:{}", port), 1, 10));
    }
    let mut rr = RoundRobin::new();
    let mut attempts = 0;
    loop {
        let available_before = lb.available_servers().1.len();
        assert!(lb.selectable(&rr));
        match lb.next_backend(&mut rr) {
            Some((k, _)) => {
                attempts += 1;
                lb.record_failure(k);
                assert_eq!(lb.available_servers().1.len() + 1, available_before);
            }
            None => break,
        }
    }
    assert_eq!(attempts, 3);
    assert!(lb.servers.iter().all(|s| !s.alive && s.connections == 0));
}
