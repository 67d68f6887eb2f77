use balrs::text::parse_port;
use balrs::command::{parse_command, CliCommand};
use balrs::con_servers;
use balrs::port_rotation::get_next_backend_port;
use balrs::weighted_load_balancer::WeightedLoadBalancer;

fn words(line: &str) -> Vec<String> {
    let mut args: Vec<String> = line.split_whitespace().map(String::from).collect();
    args.insert(0, "Blank".to_string());
    args
}

#[test]
fn ports_come_in_turn() {
    let ports = vec![3000u16, 3001, 3002];
    let mut index = 0usize;
    let got: Vec<u16> = (0..4).map(|_| get_next_backend_port(&mut index, &ports)).collect();
    assert_eq!(got, vec![3000, 3001, 3002, 3000]);
    assert_eq!(index, 4);
}

#[test]
fn port_counter_wraps() {
    let ports = vec![3000u16, 3001, 3002];
    let mut index = usize::MAX;
    let p = get_next_backend_port(&mut index, &ports);
    assert_eq!(p, ports[usize::MAX % 3]);
    assert_eq!(index, 0);
    assert_eq!(get_next_backend_port(&mut index, &ports), 3000);
}

#[test]
fn shell_commands() {
    assert_eq!(parse_command(&words("h")), CliCommand::Help);
    assert_eq!(parse_command(&words("?")), CliCommand::Help);
    assert_eq!(parse_command(&words("start")), CliCommand::Start);
    assert_eq!(parse_command(&words("stop")), CliCommand::Stop);
    assert_eq!(parse_command(&words("p 8080")), CliCommand::Port(8080));
    assert_eq!(parse_command(&words("p +12")), CliCommand::Port(12));
    assert_eq!(parse_command(&words("p 4294967295")), CliCommand::Port(4294967295));
    assert_eq!(parse_command(&words("p 4294967296")), CliCommand::InvalidPort);
    assert_eq!(parse_command(&words("p abc")), CliCommand::InvalidPort);
    assert_eq!(parse_command(&words("p -1")), CliCommand::InvalidPort);
    assert_eq!(parse_command(&words("c")), CliCommand::ShowServers);
    assert_eq!(parse_command(&words("q")), CliCommand::Quit);
    assert_eq!(parse_command(&words("x")), CliCommand::Unknown);
    assert_eq!(parse_command(&words("START")), CliCommand::Unknown);
}

#[test]
fn shell_port_argument_is_trimmed() {
    let args = vec!["Blank".to_string(), "p".to_string(), " 42\t".to_string()];
    assert_eq!(parse_command(&args), CliCommand::Port(42));
}

#[test]
fn no_servers_connected() {
    assert_eq!(con_servers(), 0);
}

fn backends(list: &[(&str, usize)]) -> Vec<(String, usize)> {
    list.iter().map(|(b, w)| (b.to_string(), *w)).collect()
}

#[test]
fn weighted_load_balancer_sequence() {
    let mut lb = WeightedLoadBalancer::new(backends(&[("a", 50), ("b", 30), ("c", 20)]), 50);
    let got: Vec<String> = (0..12).map(|_| lb.get_next_backend()).collect();
    let expected = ["a", "a", "b", "a", "b", "c", "a", "b", "c", "a", "a", "a"];
    assert_eq!(got, expected.iter().map(|s| s.to_string()).collect::<Vec<_>>());
}

#[test]
fn weighted_load_balancer_two_backends() {
    let mut lb = WeightedLoadBalancer::new(backends(&[("x", 2), ("y", 1)]), 2);
    let got: Vec<String> = (0..6).map(|_| lb.get_next_backend()).collect();
    assert_eq!(got, vec!["x", "y", "x", "x", "y", "x"]);
}

#[test]
fn weighted_load_balancer_gcd() {
    assert_eq!(WeightedLoadBalancer::calculate_gcd(&vec![50, 30, 20]), 10);
    assert_eq!(WeightedLoadBalancer::calculate_gcd(&vec![]), 0);
    assert_eq!(WeightedLoadBalancer::calculate_gcd(&vec![0, 0]), 0);
    assert_eq!(WeightedLoadBalancer::gcd(21, 14), 7);
}

#[test]
fn port_numbers() {
    assert_eq!(parse_port("3000"), Some(3000));
    assert_eq!(parse_port("+65535"), Some(65535));
    assert_eq!(parse_port("65536"), None);
    assert_eq!(parse_port(" 3000"), None);
    assert_eq!(parse_port(""), None);
    assert_eq!(parse_port("0042"), Some(42));
}
