use balrs::algos::ip_hash::IpHash;
use balrs::algos::least_connections::LeastConnections;
use balrs::algos::least_response_time::LeastResponseTime;
use balrs::algos::round_robin::RoundRobin;
use balrs::algos::static_lb::StaticLB;
use balrs::algos::weighted_least_connections::WeightedLeastConnections;
use balrs::algos::weighted_least_response_time::WeightedLeastResponseTime;
use balrs::algos::weighted_round_robin::WeightedRoundRobin;
use balrs::balancer::Loadbalancer;
use balrs::server::Server;

fn server(weight: u32, connections: u32, response_ms: u128) -> Server {
    let mut s = Server::new(format!("http://127.0.0.1:{}", 5000 + weight), weight, 100);
    s.connections = connections;
    s.response_time_ns = response_ms * 1_000_000;
    s
}

fn refs(servers: &[Server]) -> Vec<&Server> {
    servers.iter().collect()
}

fn picks<T: Loadbalancer>(lb: &mut T, servers: &[Server], count: usize) -> Vec<usize> {
    let r = refs(servers);
    (0..count).map(|_| lb.get_index(&r).unwrap()).collect()
}

#[test]
fn round_robin_cycles_through_servers() {
    let servers = vec![server(1, 0, 0), server(1, 0, 0), server(1, 0, 0)];
    let mut rr = RoundRobin::new();
    assert_eq!(picks(&mut rr, &servers, 7), vec![0, 1, 2, 0, 1, 2, 0]);
}

#[test]
fn round_robin_rejects_no_servers() {
    let rr = RoundRobin::new();
    assert!(!rr.can_select(&[]));
    let servers = vec![server(1, 0, 0)];
    assert!(rr.can_select(&refs(&servers)));
}

#[test]
fn least_connections_picks_first_minimum() {
    let servers = vec![server(1, 3, 0), server(1, 1, 0), server(1, 1, 0)];
    let mut lc = LeastConnections::new();
    assert_eq!(lc.get_index(&refs(&servers)), Some(1));
    assert_eq!(lc.get_index(&[]), None);
}

#[test]
fn weighted_least_connections_divides_by_weight() {
    // keys: 4 / 2 = 2 and 3 / 1 = 3
    let servers = vec![server(2, 4, 0), server(1, 3, 0)];
    let mut wlc = WeightedLeastConnections::new();
    assert_eq!(wlc.get_index(&refs(&servers)), Some(0));
    // keys: 5 / 2 = 2 and 2 / 1 = 2: the first one wins a tie
    let servers = vec![server(2, 5, 0), server(1, 2, 0)];
    assert_eq!(wlc.get_index(&refs(&servers)), Some(0));
    let zero = vec![server(0, 1, 0)];
    assert!(!wlc.can_select(&refs(&zero)));
}

#[test]
fn least_response_time_picks_fastest() {
    let servers = vec![server(1, 0, 5), server(1, 0, 2), server(1, 0, 2)];
    let mut lrt = LeastResponseTime::new();
    assert_eq!(lrt.get_index(&refs(&servers)), Some(1));
}

#[test]
fn least_response_time_truncates_milliseconds_to_32_bits() {
    // 2^32 + 1 milliseconds count as 1, below 3
    let servers = vec![server(1, 0, 3), server(1, 0, (1u128 << 32) + 1)];
    let mut lrt = LeastResponseTime::new();
    assert_eq!(lrt.get_index(&refs(&servers)), Some(1));
    // sub-millisecond parts are dropped
    let mut a = server(1, 0, 0);
    a.response_time_ns = 1_999_999;
    let mut b = server(1, 0, 0);
    b.response_time_ns = 1_000_000;
    let servers = vec![a, b];
    assert_eq!(lrt.get_index(&refs(&servers)), Some(0));
}

#[test]
fn weighted_least_response_time_divides_by_weight() {
    // keys: 10 / 5 = 2 and 3 / 1 = 3
    let servers = vec![server(5, 0, 10), server(1, 0, 3)];
    let mut wlrt = WeightedLeastResponseTime::new();
    assert_eq!(wlrt.get_index(&refs(&servers)), Some(0));
    assert_eq!(wlrt.get_index(&[]), None);
    assert!(wlrt.can_select(&[]));
    let zero = vec![server(0, 0, 1)];
    assert!(!wlrt.can_select(&refs(&zero)));
}

#[test]
fn weighted_round_robin_follows_weights() {
    let servers = vec![server(5, 0, 0), server(1, 0, 0), server(1, 0, 0)];
    let mut wrr = WeightedRoundRobin::new();
    assert_eq!(picks(&mut wrr, &servers, 12), vec![0, 0, 0, 0, 0, 1, 2, 0, 1, 2, 0, 0]);
    let servers = vec![server(3, 0, 0), server(2, 0, 0)];
    let mut wrr = WeightedRoundRobin::new();
    assert_eq!(picks(&mut wrr, &servers, 10), vec![0, 0, 1, 0, 1, 0, 1, 0, 0, 1]);
}

#[test]
fn weighted_round_robin_all_zero_weights() {
    let servers = vec![server(0, 0, 0), server(0, 0, 0)];
    let mut wrr = WeightedRoundRobin::new();
    assert!(wrr.can_select(&refs(&servers)));
    assert_eq!(picks(&mut wrr, &servers, 4), vec![0, 1, 0, 1]);
}

#[test]
fn weighted_round_robin_detects_underflow_after_servers_change() {
    let servers = vec![server(1, 0, 0), server(1, 0, 0)];
    let mut wrr = WeightedRoundRobin::new();
    assert_eq!(picks(&mut wrr, &servers, 1), vec![0]);
    // the threshold is now 1, and a lone server of weight 2 steps it by 2
    let changed = vec![server(2, 0, 0)];
    assert!(!wrr.can_select(&refs(&changed)));
    assert!(wrr.can_select(&refs(&servers)));
    assert!(wrr.can_select(&[]));
    assert_eq!(wrr.get_index(&[]), None);
}

#[test]
fn gcd_values() {
    assert_eq!(WeightedRoundRobin::gcd(12, 18), 6);
    assert_eq!(WeightedRoundRobin::gcd(0, 7), 7);
    assert_eq!(WeightedRoundRobin::gcd(7, 0), 7);
    assert_eq!(WeightedRoundRobin::gcd(17, 5), 1);
}

#[test]
fn static_lb_points_at_its_index() {
    let mut s = StaticLB::new();
    assert_eq!(s.get_server(), Some(0));
    s.update(7);
    assert_eq!(s.get_server(), Some(7));
}

#[test]
fn ip_hash_maps_client_by_murmur3() {
    let backends = vec!["a".to_string(), "b".to_string(), "c".to_string()];
    let mut ip = IpHash::new(backends.clone());
    for client in ["10.0.0.1", "192.168.1.20", "::1", ""] {
        let hash = murmur3::murmur3_32(&mut std::io::Cursor::new(client), 0).unwrap();
        let expected = &backends[(hash as usize) % backends.len()];
        assert_eq!(&ip.get_server(client), expected);
        // the same client keeps its backend
        assert_eq!(&ip.get_server(client), expected);
    }
    assert_eq!(IpHash::hash_ip("hello world"), murmur3::murmur3_32(&mut std::io::Cursor::new("hello world"), 0).unwrap());
    assert_ne!(IpHash::hash_ip("hello world"), IpHash::hash_ip("hello worle"));
}

#[test]
fn weighted_round_robin_cycle_share() {
    // one cycle from a new balancer: each server weight / gcd + 1 times
    for (weights, cycle) in [(vec![5u32, 1, 1], 10usize), (vec![3, 2], 7), (vec![4, 2, 6], 9)] {
        let servers: Vec<Server> = weights.iter().map(|&w| server(w, 0, 0)).collect();
        let mut wrr = WeightedRoundRobin::new();
        let chosen = picks(&mut wrr, &servers, cycle);
        let g = weights.iter().fold(0, |acc, &w| WeightedRoundRobin::gcd(acc, w as usize));
        for (i, &w) in weights.iter().enumerate() {
            let count = chosen.iter().filter(|&&k| k == i).count();
            assert_eq!(count, w as usize / g + 1, "weights {:?}, server {}", weights, i);
        }
    }
}
