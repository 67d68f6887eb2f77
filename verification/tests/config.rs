use balrs::config::{get_algo, parse_config, Algorithm, ConfigError, LoadBalancer};

fn lines(text: &str) -> Vec<String> {
    text.lines().map(String::from).collect()
}

const SAMPLE: &str = "load balancer: http://127.0.0.1:9000
algorithm: least_connections
servers: http://127.0.0.1:5000, http://127.0.0.1:5001 ,http://127.0.0.1:5002
weights: 3, 2, 1
max connections: 10, 20, 30
timeout: 5
health check interval: 7";

#[test]
fn new_load_balancer_defaults() {
    let lb = LoadBalancer::new();
    assert_eq!(lb.load_balancer, "http://localhost:8000");
    assert_eq!(lb.algo, Algorithm::RoundRobin);
    assert!(lb.servers.is_empty());
    assert_eq!(lb.timeout_secs, 0);
    assert_eq!(lb.health_check_interval_secs, 0);
}

#[test]
fn sample_configuration_is_applied() {
    let mut lb = LoadBalancer::new();
    lb.update(&lines(SAMPLE));
    assert_eq!(lb.load_balancer, "http://127.0.0.1:9000");
    assert_eq!(lb.algo, Algorithm::LeastConnections);
    assert_eq!(lb.timeout_secs, 5);
    assert_eq!(lb.health_check_interval_secs, 7);
    let addrs: Vec<&str> = lb.servers.iter().map(|s| s.addr.as_str()).collect();
    assert_eq!(addrs, vec!["http://127.0.0.1:5000", "http://127.0.0.1:5001", "http://127.0.0.1:5002"]);
    let weights: Vec<u32> = lb.servers.iter().map(|s| s.weight).collect();
    assert_eq!(weights, vec![3, 2, 1]);
    let maxc: Vec<u32> = lb.servers.iter().map(|s| s.max_connections).collect();
    assert_eq!(maxc, vec![10, 20, 30]);
    for s in &lb.servers {
        assert!(s.alive);
        assert_eq!(s.connections, 0);
        assert_eq!(s.response_time_ns, 0);
    }
}

#[test]
fn a_second_update_adds_servers_again() {
    let mut lb = LoadBalancer::new();
    lb.update(&lines(SAMPLE));
    assert_eq!(lb.try_update(&lines(SAMPLE)), Ok(()));
    assert_eq!(lb.servers.len(), 6);
    assert_eq!(lb.servers[3].addr, "http://127.0.0.1:5000");
}

#[test]
fn unparsable_listen_address_falls_back_to_default() {
    let mut lb = LoadBalancer::new();
    lb.update(&lines("load balancer: http://[bad"));
    assert_eq!(lb.load_balancer, "http://localhost:8000");
}

#[test]
fn repeated_key_prefix_is_stripped() {
    let mut lb = LoadBalancer::new();
    lb.update(&lines("timeout:timeout: 9\nalgorithm:algorithm:  weighted_round_robin  "));
    assert_eq!(lb.timeout_secs, 9);
    assert_eq!(lb.algo, Algorithm::WeightedRoundRobin);
}

#[test]
fn later_lines_win_and_unknown_lines_are_ignored() {
    let mut lb = LoadBalancer::new();
    lb.update(&lines("timeout: 1\n# comment\nrandom: 3\ntimeout: +2\n timeout: 4"));
    assert_eq!(lb.timeout_secs, 2);
}

#[test]
fn unicode_white_space_is_trimmed() {
    let mut lb = LoadBalancer::new();
    lb.update(&lines("timeout:\u{3000}12\u{a0}\u{2003}"));
    assert_eq!(lb.timeout_secs, 12);
}

#[test]
fn config_errors() {
    let cases: Vec<(&str, ConfigError)> = vec![
        ("servers: http://a:1, http://[bad", ConfigError::InvalidUri),
        ("weights: 1, x", ConfigError::InvalidWeight),
        ("weights: 1,,2", ConfigError::InvalidWeight),
        ("weights: 4294967296", ConfigError::InvalidWeight),
        ("max connections: -1", ConfigError::InvalidMaxConnection),
        ("timeout: soon", ConfigError::InvalidTimeout),
        ("timeout: 18446744073709551616", ConfigError::InvalidTimeout),
        ("health check interval: +", ConfigError::InvalidHealthCheckInterval),
        ("servers: http://a:1\nmax connections: 3", ConfigError::MissingWeight),
        ("servers: http://a:1\nweights: 1", ConfigError::MissingMaxConnection),
        ("servers: http://a:1, http://b:2\nweights: 1, 2\nmax connections: 3", ConfigError::MissingMaxConnection),
    ];
    for (text, err) in cases {
        let mut lb = LoadBalancer::new();
        assert_eq!(lb.try_update(&lines(text)), Err(err), "{}", text);
        assert!(lb.servers.is_empty());
        assert_eq!(lb.timeout_secs, 0);
        assert!(parse_config(&lines(text)).is_err());
    }
}

#[test]
fn first_error_wins() {
    let mut lb = LoadBalancer::new();
    assert_eq!(lb.try_update(&lines("timeout: x\nweights: y")), Err(ConfigError::InvalidTimeout));
}

#[test]
fn largest_numbers_are_accepted() {
    let mut lb = LoadBalancer::new();
    lb.update(&lines("servers: http://a:1\nweights: 4294967295\nmax connections: 0\ntimeout: 18446744073709551615"));
    assert_eq!(lb.servers[0].weight, u32::MAX);
    assert_eq!(lb.servers[0].max_connections, 0);
    assert_eq!(lb.timeout_secs, u64::MAX);
}

#[test]
fn error_messages() {
    assert_eq!(ConfigError::InvalidUri.message(), "Invalid URI");
    assert_eq!(ConfigError::InvalidWeight.message(), "Invalid weight");
    assert_eq!(ConfigError::InvalidTimeout.message(), "Invalid timeout");
}

#[test]
fn algorithm_names() {
    assert_eq!(get_algo("round_robin"), Algorithm::RoundRobin);
    assert_eq!(get_algo("weighted_round_robin"), Algorithm::WeightedRoundRobin);
    assert_eq!(get_algo("least_connections"), Algorithm::LeastConnections);
    assert_eq!(get_algo("weighted_least_connections"), Algorithm::WeightedLeastConnections);
    assert_eq!(get_algo("least_response_time"), Algorithm::LeastResponseTime);
    assert_eq!(get_algo("weighted_least_response_time"), Algorithm::WeightedLeastResponseTime);
    assert_eq!(get_algo("fastest"), Algorithm::RoundRobin);
    assert_eq!(get_algo(" least_connections"), Algorithm::RoundRobin);
}

#[test]
fn listen_address_from_the_command_line() {
    let mut lb = LoadBalancer::new();
    assert!(lb.try_set_address("  http://0.0.0.0:9999 "));
    assert_eq!(lb.load_balancer, "http://0.0.0.0:9999");
    assert!(!lb.try_set_address("http://[bad"));
    assert_eq!(lb.load_balancer, "http://0.0.0.0:9999");
}
