use vstd::prelude::*;
use crate::server::Server;
use crate::text::{
    chars_of, chars_equal, starts_with, strip_prefixes, trim, split_commas, parse_unsigned,
    starts_with_at, strip_prefixes_at, trim_at, split_commas_at, parse_unsigned_at,
};
use crate::uri::{parses_as_uri, uri_parses};

verus! {

broadcast use vstd::string::group_string_axioms;

/// The balancing rule that the load balancer uses.
#[derive(Clone, Copy, Debug, PartialEq, Eq, Structural)]
pub enum Algorithm {
    RoundRobin,
    WeightedRoundRobin,
    LeastConnections,
    WeightedLeastConnections,
    LeastResponseTime,
    WeightedLeastResponseTime,
}

/// The algorithm a name stands for; round robin for an unknown name.
pub open spec fn algorithm_named(name: Seq<char>) -> Algorithm {
    if name == "round_robin"@ {
        Algorithm::RoundRobin
    } else if name == "weighted_round_robin"@ {
        Algorithm::WeightedRoundRobin
    } else if name == "least_connections"@ {
        Algorithm::LeastConnections
    } else if name == "weighted_least_connections"@ {
        Algorithm::WeightedLeastConnections
    } else if name == "least_response_time"@ {
        Algorithm::LeastResponseTime
    } else if name == "weighted_least_response_time"@ {
        Algorithm::WeightedLeastResponseTime
    } else {
        Algorithm::RoundRobin
    }
}

/// The algorithm that `algo` names; round robin for an unknown name.
pub fn get_algo(algo: &str) -> (a: Algorithm)
    ensures
        a == algorithm_named(algo@),
{
    let name = chars_of(algo);
    if chars_equal(&name, &chars_of("round_robin")) {
        Algorithm::RoundRobin
    } else if chars_equal(&name, &chars_of("weighted_round_robin")) {
        Algorithm::WeightedRoundRobin
    } else if chars_equal(&name, &chars_of("least_connections")) {
        Algorithm::LeastConnections
    } else if chars_equal(&name, &chars_of("weighted_least_connections")) {
        Algorithm::WeightedLeastConnections
    } else if chars_equal(&name, &chars_of("least_response_time")) {
        Algorithm::LeastResponseTime
    } else if chars_equal(&name, &chars_of("weighted_least_response_time")) {
        Algorithm::WeightedLeastResponseTime
    } else {
        Algorithm::RoundRobin
    }
}

/// The address the load balancer listens on unless configured otherwise.
pub open spec fn default_address() -> Seq<char> {
    "http://localhost:8000"@
}

/// Why a configuration cannot be applied; the program stops on it.
#[derive(Clone, Copy, Debug, PartialEq, Eq, Structural)]
pub enum ConfigError {
    /// A `servers:` entry is not a URI.
    InvalidUri,
    /// A `weights:` entry is not a `u32`.
    InvalidWeight,
    /// A `max connections:` entry is not a `u32`.
    InvalidMaxConnection,
    /// The `timeout:` value is not a `u64`.
    InvalidTimeout,
    /// The `health check interval:` value is not a `u64`.
    InvalidHealthCheckInterval,
    /// A server has no weight.
    MissingWeight,
    /// A server has no connection limit.
    MissingMaxConnection,
}

impl ConfigError {
    /// The message the error is reported with.
    pub fn message(&self) -> (m: &'static str)
        ensures
            m@ == match *self {
                ConfigError::InvalidUri => "Invalid URI"@,
                ConfigError::InvalidWeight => "Invalid weight"@,
                ConfigError::InvalidMaxConnection => "Invalid max connection"@,
                ConfigError::InvalidTimeout => "Invalid timeout"@,
                ConfigError::InvalidHealthCheckInterval => "Invalid health check interval"@,
                ConfigError::MissingWeight => "a server has no weight"@,
                ConfigError::MissingMaxConnection => "a server has no max connection"@,
            },
    {
        match self {
            ConfigError::InvalidUri => "Invalid URI",
            ConfigError::InvalidWeight => "Invalid weight",
            ConfigError::InvalidMaxConnection => "Invalid max connection",
            ConfigError::InvalidTimeout => "Invalid timeout",
            ConfigError::InvalidHealthCheckInterval => "Invalid health check interval",
            ConfigError::MissingWeight => "a server has no weight",
            ConfigError::MissingMaxConnection => "a server has no max connection",
        }
    }
}

/// What the lines of a configuration file set, as plain values.
pub struct ConfigSpec {
    pub load_balancer: Option<Seq<char>>,
    pub algo: Option<Algorithm>,
    pub servers: Seq<Seq<char>>,
    pub weights: Seq<u32>,
    pub max_connections: Seq<u32>,
    pub timeout_secs: Option<u64>,
    pub health_check_interval_secs: Option<u64>,
}

/// A configuration with nothing set.
pub open spec fn empty_config() -> ConfigSpec {
    ConfigSpec {
        load_balancer: None,
        algo: None,
        servers: Seq::empty(),
        weights: Seq::empty(),
        max_connections: Seq::empty(),
        timeout_secs: None,
        health_check_interval_secs: None,
    }
}

/// The value after a `key:` prefix: every leading copy of the key removed,
/// then trimmed.
pub open spec fn field_value(line: Seq<char>, key: Seq<char>) -> Seq<char> {
    trim(strip_prefixes(line, key))
}

/// The comma-separated entries of a value, each trimmed.
pub open spec fn entries(value: Seq<char>) -> Seq<Seq<char>> {
    split_commas(value).map_values(|p: Seq<char>| trim(p))
}

/// Every entry parses as an unsigned number of at most `max`.
pub open spec fn all_numbers(es: Seq<Seq<char>>, max: nat) -> bool {
    forall|i: int| 0 <= i < es.len() ==> (#[trigger] parse_unsigned(es[i], max)) is Some
}

/// The numbers the entries spell, as `u32`s.
pub open spec fn numbers_u32(es: Seq<Seq<char>>) -> Seq<u32> {
    es.map_values(|p: Seq<char>| parse_unsigned(p, u32::MAX as nat)->0 as u32)
}

pub open spec fn lb_key() -> Seq<char> {
    "load balancer:"@
}

pub open spec fn algorithm_key() -> Seq<char> {
    "algorithm:"@
}

pub open spec fn servers_key() -> Seq<char> {
    "servers:"@
}

pub open spec fn weights_key() -> Seq<char> {
    "weights:"@
}

pub open spec fn max_connections_key() -> Seq<char> {
    "max connections:"@
}

pub open spec fn timeout_key() -> Seq<char> {
    "timeout:"@
}

pub open spec fn health_key() -> Seq<char> {
    "health check interval:"@
}

/// The effect of one line of a configuration file: the first key it starts
/// with decides what it sets; a line with no known key sets nothing.
pub open spec fn apply_line(st: ConfigSpec, line: Seq<char>) -> Result<ConfigSpec, ConfigError> {
    if starts_with(line, lb_key()) {
        let v = field_value(line, lb_key());
        Ok(
            ConfigSpec {
                load_balancer: Some(
                    if parses_as_uri(v) {
                        v
                    } else {
                        default_address()
                    },
                ),
                ..st
            },
        )
    } else if starts_with(line, algorithm_key()) {
        Ok(ConfigSpec { algo: Some(algorithm_named(field_value(line, algorithm_key()))), ..st })
    } else if starts_with(line, servers_key()) {
        let es = entries(field_value(line, servers_key()));
        if forall|i: int| 0 <= i < es.len() ==> #[trigger] parses_as_uri(es[i]) {
            Ok(ConfigSpec { servers: es, ..st })
        } else {
            Err(ConfigError::InvalidUri)
        }
    } else if starts_with(line, weights_key()) {
        let es = entries(field_value(line, weights_key()));
        if all_numbers(es, u32::MAX as nat) {
            Ok(ConfigSpec { weights: numbers_u32(es), ..st })
        } else {
            Err(ConfigError::InvalidWeight)
        }
    } else if starts_with(line, max_connections_key()) {
        let es = entries(field_value(line, max_connections_key()));
        if all_numbers(es, u32::MAX as nat) {
            Ok(ConfigSpec { max_connections: numbers_u32(es), ..st })
        } else {
            Err(ConfigError::InvalidMaxConnection)
        }
    } else if starts_with(line, timeout_key()) {
        match parse_unsigned(field_value(line, timeout_key()), u64::MAX as nat) {
            Some(v) => Ok(ConfigSpec { timeout_secs: Some(v as u64), ..st }),
            None => Err(ConfigError::InvalidTimeout),
        }
    } else if starts_with(line, health_key()) {
        match parse_unsigned(field_value(line, health_key()), u64::MAX as nat) {
            Some(v) => Ok(ConfigSpec { health_check_interval_secs: Some(v as u64), ..st }),
            None => Err(ConfigError::InvalidHealthCheckInterval),
        }
    } else {
        Ok(st)
    }
}

/// A line starts with at most one of the keys: the keys begin with distinct
/// characters.
pub proof fn lemma_keys_exclusive(line: Seq<char>)
    ensures
        starts_with(line, timeout_key()) ==> !starts_with(line, lb_key()) && !starts_with(line, algorithm_key())
            && !starts_with(line, servers_key()) && !starts_with(line, weights_key()) && !starts_with(
            line,
            max_connections_key(),
        ) && !starts_with(line, health_key()),
        starts_with(line, health_key()) ==> !starts_with(line, lb_key()) && !starts_with(line, algorithm_key())
            && !starts_with(line, servers_key()) && !starts_with(line, weights_key()) && !starts_with(
            line,
            max_connections_key(),
        ) && !starts_with(line, timeout_key()),
        starts_with(line, algorithm_key()) ==> !starts_with(line, lb_key()),
        starts_with(line, lb_key()) ==> !starts_with(line, algorithm_key()) && !starts_with(line, timeout_key())
            && !starts_with(line, health_key()),
{
    reveal_strlit("load balancer:");
    reveal_strlit("algorithm:");
    reveal_strlit("servers:");
    reveal_strlit("weights:");
    reveal_strlit("max connections:");
    reveal_strlit("timeout:");
    reveal_strlit("health check interval:");
    if line.len() > 0 {
        let c = line[0];
        assert forall|key: Seq<char>| key.len() > 0 && #[trigger] starts_with(line, key) implies key[0] == c by {
            assert(line.subrange(0, key.len() as int)[0] == line[0]);
        }
    }
}

/// A line changes a setting only if it starts with that setting's key: a
/// `timeout:` line leaves the health check interval alone, and so on for
/// every pair of settings.
pub proof fn lemma_line_changes_only_its_setting(st: ConfigSpec, line: Seq<char>)
    ensures
        apply_line(st, line) matches Ok(next) ==> {
            &&& next.load_balancer != st.load_balancer ==> starts_with(line, lb_key())
            &&& next.algo != st.algo ==> starts_with(line, algorithm_key())
            &&& next.servers != st.servers ==> starts_with(line, servers_key())
            &&& next.weights != st.weights ==> starts_with(line, weights_key())
            &&& next.max_connections != st.max_connections ==> starts_with(line, max_connections_key())
            &&& next.timeout_secs != st.timeout_secs ==> starts_with(line, timeout_key())
            &&& next.health_check_interval_secs != st.health_check_interval_secs ==> starts_with(
                line,
                health_key(),
            )
        },
{
}

/// The number that a `key:` line gives a setting of at most `u64::MAX`.
pub open spec fn line_number(line: Seq<char>, key: Seq<char>) -> Option<nat> {
    parse_unsigned(field_value(line, key), u64::MAX as nat)
}

/// A `timeout:` line that is accepted sets the timeout to its number, and a
/// `health check interval:` line sets the interval to its number; no other
/// line changes either.
pub proof fn lemma_line_sets_timings(st: ConfigSpec, line: Seq<char>)
    ensures
        apply_line(st, line) matches Ok(next) ==> {
            &&& next.timeout_secs == if starts_with(line, timeout_key()) {
                Some(line_number(line, timeout_key())->0 as u64)
            } else {
                st.timeout_secs
            }
            &&& starts_with(line, timeout_key()) ==> line_number(line, timeout_key()) is Some
            &&& next.health_check_interval_secs == if starts_with(line, health_key()) {
                Some(line_number(line, health_key())->0 as u64)
            } else {
                st.health_check_interval_secs
            }
            &&& starts_with(line, health_key()) ==> line_number(line, health_key()) is Some
        },
{
    lemma_keys_exclusive(line);
}

/// The listen address that a `load balancer:` line sets: its value when that
/// parses as a URI, the default address otherwise.
pub open spec fn line_address(line: Seq<char>) -> Seq<char> {
    let v = field_value(line, lb_key());
    if parses_as_uri(v) {
        v
    } else {
        default_address()
    }
}

/// A `load balancer:` line sets the listen address and an `algorithm:` line
/// the algorithm; no other line changes either.
pub proof fn lemma_line_sets_address_and_algorithm(st: ConfigSpec, line: Seq<char>)
    ensures
        apply_line(st, line) matches Ok(next) ==> {
            &&& next.load_balancer == if starts_with(line, lb_key()) {
                Some(line_address(line))
            } else {
                st.load_balancer
            }
            &&& next.algo == if starts_with(line, algorithm_key()) {
                Some(algorithm_named(field_value(line, algorithm_key())))
            } else {
                st.algo
            }
        },
{
    lemma_keys_exclusive(line);
}

/// The position of the last of `lines` that starts with `key`.
pub open spec fn last_line_with(lines: Seq<Seq<char>>, key: Seq<char>) -> Option<int>
    decreases lines.len(),
{
    if lines.len() == 0 {
        None
    } else if starts_with(lines.last(), key) {
        Some(lines.len() - 1)
    } else {
        last_line_with(lines.drop_last(), key)
    }
}

/// The setting that the last line starting with `key` gives, or `fallback`
/// without such a line.
pub open spec fn last_number(lines: Seq<Seq<char>>, key: Seq<char>, fallback: Option<u64>) -> Option<u64> {
    match last_line_with(lines, key) {
        Some(k) => Some(line_number(lines[k], key)->0 as u64),
        None => fallback,
    }
}

/// Before the last line, the last line with a key is found among the
/// earlier lines.
proof fn lemma_last_line_with(lines: Seq<Seq<char>>, key: Seq<char>)
    requires
        lines.len() > 0,
    ensures
        !starts_with(lines.last(), key) ==> (last_line_with(lines.drop_last(), key) matches Some(k) ==> 0 <= k
            < lines.len() - 1 && lines.drop_last()[k] == lines[k]),
{
    lemma_last_line_in_range(lines.drop_last(), key);
}

/// The last line with a key is one of the lines.
proof fn lemma_last_line_in_range(lines: Seq<Seq<char>>, key: Seq<char>)
    ensures
        last_line_with(lines, key) matches Some(k) ==> 0 <= k < lines.len() && starts_with(lines[k], key),
    decreases lines.len(),
{
    if lines.len() > 0 && !starts_with(lines.last(), key) {
        lemma_last_line_in_range(lines.drop_last(), key);
    }
}

/// Applied in order, the lines leave the listen address at that of the last
/// `load balancer:` line and the algorithm at that of the last `algorithm:`
/// line; each is left as it was without such a line.
pub proof fn lemma_lines_set_address_and_algorithm(st: ConfigSpec, lines: Seq<Seq<char>>)
    ensures
        apply_lines(st, lines) matches Ok(c) ==> {
            &&& c.load_balancer == match last_line_with(lines, lb_key()) {
                Some(k) => Some(line_address(lines[k])),
                None => st.load_balancer,
            }
            &&& c.algo == match last_line_with(lines, algorithm_key()) {
                Some(k) => Some(algorithm_named(field_value(lines[k], algorithm_key()))),
                None => st.algo,
            }
        },
    decreases lines.len(),
{
    if lines.len() > 0 {
        let init = lines.drop_last();
        lemma_lines_set_address_and_algorithm(st, init);
        if let Ok(mid) = apply_lines(st, init) {
            lemma_line_sets_address_and_algorithm(mid, lines.last());
            assert(lines[lines.len() - 1] == lines.last());
            lemma_last_line_with(lines, lb_key());
            lemma_last_line_with(lines, algorithm_key());
        }
    }
}

/// Applied in order, the lines leave the timeout at the number of the last
/// `timeout:` line and the health check interval at that of the last
/// `health check interval:` line; each is left as it was without such a line.
pub proof fn lemma_lines_set_timings(st: ConfigSpec, lines: Seq<Seq<char>>)
    ensures
        apply_lines(st, lines) matches Ok(c) ==> {
            &&& c.timeout_secs == last_number(lines, timeout_key(), st.timeout_secs)
            &&& c.health_check_interval_secs == last_number(lines, health_key(), st.health_check_interval_secs)
        },
    decreases lines.len(),
{
    if lines.len() > 0 {
        let init = lines.drop_last();
        lemma_lines_set_timings(st, init);
        if let Ok(mid) = apply_lines(st, init) {
            lemma_line_sets_timings(mid, lines.last());
            assert(lines[lines.len() - 1] == lines.last());
            lemma_last_line_with(lines, timeout_key());
            lemma_last_line_with(lines, health_key());
        }
    }
}

/// The effect of the lines in order, stopping at the first error.
pub open spec fn apply_lines(st: ConfigSpec, lines: Seq<Seq<char>>) -> Result<ConfigSpec, ConfigError>
    decreases lines.len(),
{
    if lines.len() == 0 {
        Ok(st)
    } else {
        match apply_lines(st, lines.drop_last()) {
            Ok(s) => apply_line(s, lines.last()),
            Err(e) => Err(e),
        }
    }
}

/// What a configuration file sets, or the first reason it cannot be used:
/// its lines in order, then every server needs a weight and a connection
/// limit at its position.
pub open spec fn config_outcome(lines: Seq<Seq<char>>) -> Result<ConfigSpec, ConfigError> {
    match apply_lines(empty_config(), lines) {
        Ok(c) => if c.weights.len() < c.servers.len() && c.weights.len() <= c.max_connections.len() {
            Err(ConfigError::MissingWeight)
        } else if c.max_connections.len() < c.servers.len() {
            Err(ConfigError::MissingMaxConnection)
        } else {
            Ok(c)
        },
        Err(e) => Err(e),
    }
}

/// The text of each line.
pub open spec fn lines_view(lines: Seq<String>) -> Seq<Seq<char>> {
    lines.map_values(|l: String| l@)
}

/// What a configuration file sets, as plain values.
pub struct ParsedConfig {
    pub load_balancer: Option<String>,
    pub algo: Option<Algorithm>,
    pub servers: Vec<String>,
    pub weights: Vec<u32>,
    pub max_connections: Vec<u32>,
    pub timeout_secs: Option<u64>,
    pub health_check_interval_secs: Option<u64>,
}

impl View for ParsedConfig {
    type V = ConfigSpec;

    open spec fn view(&self) -> ConfigSpec {
        ConfigSpec {
            load_balancer: match self.load_balancer {
                Some(s) => Some(s@),
                None => None,
            },
            algo: self.algo,
            servers: self.servers@.map_values(|s: String| s@),
            weights: self.weights@,
            max_connections: self.max_connections@,
            timeout_secs: self.timeout_secs,
            health_check_interval_secs: self.health_check_interval_secs,
        }
    }
}

/// The entries of `cs[lo..hi]`, as bounds within `cs`.
fn entry_bounds(cs: &Vec<char>, lo: usize, hi: usize) -> (r: Vec<(usize, usize)>)
    requires
        lo <= hi <= cs@.len(),
    ensures
        r@.len() == entries(cs@.subrange(lo as int, hi as int)).len(),
        forall|k: int|
            0 <= k < r@.len() ==> {
                &&& (#[trigger] r@[k]).0 <= r@[k].1 <= cs@.len()
                &&& cs@.subrange(r@[k].0 as int, r@[k].1 as int) == entries(
                    cs@.subrange(lo as int, hi as int),
                )[k]
            },
{
    let pieces = split_commas_at(cs, lo, hi);
    let ghost parts = split_commas(cs@.subrange(lo as int, hi as int));
    let mut out: Vec<(usize, usize)> = Vec::new();
    let mut k: usize = 0;
    while k < pieces.len()
        invariant
            lo <= hi <= cs@.len(),
            parts == split_commas(cs@.subrange(lo as int, hi as int)),
            pieces@.len() == parts.len(),
            forall|j: int|
                0 <= j < pieces@.len() ==> {
                    &&& lo <= (#[trigger] pieces@[j]).0 <= pieces@[j].1 <= hi
                    &&& cs@.subrange(pieces@[j].0 as int, pieces@[j].1 as int) == parts[j]
                },
            k <= pieces@.len(),
            out@.len() == k,
            forall|j: int|
                0 <= j < k ==> {
                    &&& (#[trigger] out@[j]).0 <= out@[j].1 <= cs@.len()
                    &&& cs@.subrange(out@[j].0 as int, out@[j].1 as int) == trim(parts[j])
                },
        decreases pieces@.len() - k,
    {
        let (a, b) = pieces[k];
        let t = trim_at(cs, a, b);
        out.push(t);
        k = k + 1;
    }
    out
}

/// The effect of one line on what has been read so far.
#[verifier::loop_isolation(false)]
fn apply_line_exec(st: &mut ParsedConfig, line: &str) -> (r: Result<(), ConfigError>)
    ensures
        match apply_line(old(st)@, line@) {
            Ok(c) => r is Ok && final(st)@ == c,
            Err(e) => r == Err::<(), ConfigError>(e),
        },
{
    let cs = chars_of(line);
    let n = cs.len();
    let lb = chars_of("load balancer:");
    let algo = chars_of("algorithm:");
    let servers = chars_of("servers:");
    let weights = chars_of("weights:");
    let maxc = chars_of("max connections:");
    let timeout = chars_of("timeout:");
    let health = chars_of("health check interval:");
    proof {
        assert(cs@.subrange(0, n as int) =~= line@);
        // the keys are not empty
        reveal_strlit("load balancer:");
        reveal_strlit("algorithm:");
        reveal_strlit("servers:");
        reveal_strlit("weights:");
        reveal_strlit("max connections:");
        reveal_strlit("timeout:");
        reveal_strlit("health check interval:");
    }
    if starts_with_at(&cs, 0, n, &lb) {
        let s = strip_prefixes_at(&cs, 0, n, &lb);
        let (a, b) = trim_at(&cs, s, n);
        let value = line.substring_char(a, b);
        if uri_parses(value) {
            st.load_balancer = Some(value.to_owned());
        } else {
            st.load_balancer = Some("http://localhost:8000".to_owned());
        }
        Ok(())
    } else if starts_with_at(&cs, 0, n, &algo) {
        let s = strip_prefixes_at(&cs, 0, n, &algo);
        let (a, b) = trim_at(&cs, s, n);
        st.algo = Some(get_algo(line.substring_char(a, b)));
        Ok(())
    } else if starts_with_at(&cs, 0, n, &servers) {
        let s = strip_prefixes_at(&cs, 0, n, &servers);
        let (a, b) = trim_at(&cs, s, n);
        let bounds = entry_bounds(&cs, a, b);
        let ghost es = entries(cs@.subrange(a as int, b as int));
        let mut list: Vec<String> = Vec::new();
        let mut k: usize = 0;
        while k < bounds.len()
            invariant
                cs@ == line@,
                bounds@.len() == es.len(),
                forall|j: int|
                    0 <= j < bounds@.len() ==> {
                        &&& (#[trigger] bounds@[j]).0 <= bounds@[j].1 <= cs@.len()
                        &&& cs@.subrange(bounds@[j].0 as int, bounds@[j].1 as int) == es[j]
                    },
                k <= bounds@.len(),
                list@.len() == k,
                forall|j: int| 0 <= j < k ==> (#[trigger] list@[j])@ == es[j],
                forall|j: int| 0 <= j < k ==> parses_as_uri(#[trigger] es[j]),
            decreases bounds@.len() - k,
        {
            let (p, q) = bounds[k];
            let entry = line.substring_char(p, q);
            if !uri_parses(entry) {
                return Err(ConfigError::InvalidUri);
            }
            list.push(entry.to_owned());
            k = k + 1;
        }
        assert(list@.map_values(|s: String| s@) =~= es);
        st.servers = list;
        Ok(())
    } else if starts_with_at(&cs, 0, n, &weights) || starts_with_at(&cs, 0, n, &maxc) {
        let is_weights = starts_with_at(&cs, 0, n, &weights);
        let key = if is_weights {
            &weights
        } else {
            &maxc
        };
        let s = strip_prefixes_at(&cs, 0, n, key);
        let (a, b) = trim_at(&cs, s, n);
        let bounds = entry_bounds(&cs, a, b);
        let ghost es = entries(cs@.subrange(a as int, b as int));
        let mut list: Vec<u32> = Vec::new();
        let mut k: usize = 0;
        while k < bounds.len()
            invariant
                cs@ == line@,
                bounds@.len() == es.len(),
                forall|j: int|
                    0 <= j < bounds@.len() ==> {
                        &&& (#[trigger] bounds@[j]).0 <= bounds@[j].1 <= cs@.len()
                        &&& cs@.subrange(bounds@[j].0 as int, bounds@[j].1 as int) == es[j]
                    },
                k <= bounds@.len(),
                list@.len() == k,
                forall|j: int|
                    0 <= j < k ==> (#[trigger] parse_unsigned(es[j], u32::MAX as nat)) is Some,
                forall|j: int|
                    0 <= j < k ==> #[trigger] list@[j] == parse_unsigned(es[j], u32::MAX as nat)->0,
            decreases bounds@.len() - k,
        {
            let (p, q) = bounds[k];
            match parse_unsigned_at(&cs, p, q, u32::MAX as u64) {
                Some(v) => {
                    list.push(v as u32);
                },
                None => {
                    return if is_weights {
                        Err(ConfigError::InvalidWeight)
                    } else {
                        Err(ConfigError::InvalidMaxConnection)
                    };
                },
            }
            k = k + 1;
        }
        assert(list@ =~= numbers_u32(es));
        if is_weights {
            st.weights = list;
        } else {
            st.max_connections = list;
        }
        Ok(())
    } else if starts_with_at(&cs, 0, n, &timeout) || starts_with_at(&cs, 0, n, &health) {
        let is_timeout = starts_with_at(&cs, 0, n, &timeout);
        let key = if is_timeout {
            &timeout
        } else {
            &health
        };
        let s = strip_prefixes_at(&cs, 0, n, key);
        let (a, b) = trim_at(&cs, s, n);
        match parse_unsigned_at(&cs, a, b, u64::MAX) {
            Some(v) => {
                if is_timeout {
                    st.timeout_secs = Some(v);
                } else {
                    st.health_check_interval_secs = Some(v);
                }
                Ok(())
            },
            None => if is_timeout {
                Err(ConfigError::InvalidTimeout)
            } else {
                Err(ConfigError::InvalidHealthCheckInterval)
            },
        }
    } else {
        Ok(())
    }
}


/// Once the lines read so far fail, the whole file fails the same way.
proof fn lemma_apply_lines_err(st: ConfigSpec, lines: Seq<Seq<char>>, k: int)
    requires
        0 <= k <= lines.len(),
        apply_lines(st, lines.take(k)) is Err,
    ensures
        apply_lines(st, lines) == apply_lines(st, lines.take(k)),
    decreases lines.len() - k,
{
    if k < lines.len() {
        assert(lines.take(k + 1).drop_last() =~= lines.take(k));
        lemma_apply_lines_err(st, lines, k + 1);
    } else {
        assert(lines.take(k) =~= lines);
    }
}

/// What the lines of a configuration file set, or the first reason they
/// cannot be used.
pub fn parse_config(lines: &Vec<String>) -> (r: Result<ParsedConfig, ConfigError>)
    ensures
        match config_outcome(lines_view(lines@)) {
            Ok(c) => r matches Ok(p) && p@ == c,
            Err(e) => r matches Err(e2) && e2 == e,
        },
{
    let ghost ls = lines_view(lines@);
    let mut st = ParsedConfig {
        load_balancer: None,
        algo: None,
        servers: Vec::new(),
        weights: Vec::new(),
        max_connections: Vec::new(),
        timeout_secs: None,
        health_check_interval_secs: None,
    };
    assert(st@.servers =~= Seq::<Seq<char>>::empty());
    assert(ls.take(0) =~= Seq::<Seq<char>>::empty());
    let mut i: usize = 0;
    while i < lines.len()
        invariant
            ls == lines_view(lines@),
            i <= lines@.len(),
            apply_lines(empty_config(), ls.take(i as int)) == Ok::<ConfigSpec, ConfigError>(st@),
        decreases lines@.len() - i,
    {
        assert(ls.take(i + 1).drop_last() =~= ls.take(i as int));
        assert(ls.take(i + 1).last() == lines@[i as int]@);
        match apply_line_exec(&mut st, lines[i].as_str()) {
            Ok(()) => {},
            Err(e) => {
                proof {
                    lemma_apply_lines_err(empty_config(), ls, i + 1);
                }
                return Err(e);
            },
        }
        i = i + 1;
    }
    assert(ls.take(lines@.len() as int) =~= ls);
    if st.weights.len() < st.servers.len() && st.weights.len() <= st.max_connections.len() {
        return Err(ConfigError::MissingWeight);
    }
    if st.max_connections.len() < st.servers.len() {
        return Err(ConfigError::MissingMaxConnection);
    }
    Ok(st)
}

/// The settings of the load balancer and the servers it balances over.
#[derive(Debug)]
pub struct LoadBalancer {
    /// The address the load balancer listens on.
    pub load_balancer: String,
    /// The balancing rule.
    pub algo: Algorithm,
    /// The backends.
    pub servers: Vec<Server>,
    /// How long a backend may take to answer, in seconds.
    pub timeout_secs: u64,
    /// Time between two rounds of health checks, in seconds.
    pub health_check_interval_secs: u64,
}

/// A server as a configuration adds it: alive, idle, never measured.
pub open spec fn fresh_server(s: Server, addr: Seq<char>, weight: u32, max_connections: u32) -> bool {
    &&& s.addr@ == addr
    &&& s.weight == weight
    &&& s.max_connections == max_connections
    &&& s.response_time_ns == 0
    &&& s.connections == 0
    &&& s.alive
}

/// `new` is `old` with configuration `c` applied: the settings it names are
/// replaced, and its servers are added after the existing ones.
pub open spec fn config_applied(old: LoadBalancer, c: ConfigSpec, new: LoadBalancer) -> bool {
    &&& new.load_balancer@ == match c.load_balancer {
        Some(a) => a,
        None => old.load_balancer@,
    }
    &&& new.algo == match c.algo {
        Some(a) => a,
        None => old.algo,
    }
    &&& new.timeout_secs == match c.timeout_secs {
        Some(t) => t,
        None => old.timeout_secs,
    }
    &&& new.health_check_interval_secs == match c.health_check_interval_secs {
        Some(t) => t,
        None => old.health_check_interval_secs,
    }
    &&& new.servers@.len() == old.servers@.len() + c.servers.len()
    &&& forall|i: int| 0 <= i < old.servers@.len() ==> #[trigger] new.servers@[i] == old.servers@[i]
    &&& forall|k: int|
        0 <= k < c.servers.len() ==> fresh_server(
            #[trigger] new.servers@[old.servers@.len() + k],
            c.servers[k],
            c.weights[k],
            c.max_connections[k],
        )
}

/// Updating a balancer from a configuration file sets its timeout to the
/// number of the file's last `timeout:` line and its health check interval to
/// that of the last `health check interval:` line; each stays as it was
/// when the file has no such line.
pub proof fn lemma_update_sets_timings(before: LoadBalancer, lines: Seq<Seq<char>>, after: LoadBalancer)
    requires
        config_outcome(lines) matches Ok(c) && config_applied(before, c, after),
    ensures
        after.timeout_secs == last_number(lines, timeout_key(), Some(before.timeout_secs))->0,
        after.health_check_interval_secs == last_number(
            lines,
            health_key(),
            Some(before.health_check_interval_secs),
        )->0,
{
    lemma_lines_set_timings(empty_config(), lines);
}

/// Updating a balancer from a configuration file sets its listen address to
/// that of the file's last `load balancer:` line and its algorithm to that of
/// the last `algorithm:` line; each stays as it was when the file has no such
/// line.
pub proof fn lemma_update_sets_address_and_algorithm(
    before: LoadBalancer,
    lines: Seq<Seq<char>>,
    after: LoadBalancer,
)
    requires
        config_outcome(lines) matches Ok(c) && config_applied(before, c, after),
    ensures
        after.load_balancer@ == match last_line_with(lines, lb_key()) {
            Some(k) => line_address(lines[k]),
            None => before.load_balancer@,
        },
        after.algo == match last_line_with(lines, algorithm_key()) {
            Some(k) => algorithm_named(field_value(lines[k], algorithm_key())),
            None => before.algo,
        },
{
    lemma_lines_set_address_and_algorithm(empty_config(), lines);
}

impl LoadBalancer {
    /// Listens on `http://localhost:8000` by round robin, with no servers and
    /// zero timeout and health-check interval.
    pub fn new() -> (lb: LoadBalancer)
        ensures
            lb.load_balancer@ == default_address(),
            lb.algo == Algorithm::RoundRobin,
            lb.servers@.len() == 0,
            lb.timeout_secs == 0,
            lb.health_check_interval_secs == 0,
    {
        LoadBalancer {
            load_balancer: "http://localhost:8000".to_owned(),
            algo: Algorithm::RoundRobin,
            servers: Vec::new(),
            timeout_secs: 0,
            health_check_interval_secs: 0,
        }
    }

    /// Sets the listening address to `address` without surrounding white
    /// space, when that parses as a URI; otherwise changes nothing and
    /// returns `false`, on which the program stops.
    pub fn try_set_address(&mut self, address: &str) -> (ok: bool)
        ensures
            ok == parses_as_uri(trim(address@)),
            ok ==> final(self).load_balancer@ == trim(address@) && final(self).algo == old(self).algo
                && final(self).servers == old(self).servers && final(self).timeout_secs
                == old(self).timeout_secs && final(self).health_check_interval_secs
                == old(self).health_check_interval_secs,
            !ok ==> *final(self) == *old(self),
    {
        let cs = chars_of(address);
        let n = cs.len();
        assert(cs@.subrange(0, n as int) =~= address@);
        let (a, b) = trim_at(&cs, 0, n);
        let value = address.substring_char(a, b);
        if uri_parses(value) {
            self.load_balancer = value.to_owned();
            true
        } else {
            false
        }
    }

    /// Applies what a configuration file sets.
    fn apply_config(&mut self, cfg: ParsedConfig)
        requires
            cfg@.weights.len() >= cfg@.servers.len(),
            cfg@.max_connections.len() >= cfg@.servers.len(),
        ensures
            config_applied(*old(self), cfg@, *final(self)),
    {
        let ghost c = cfg@;
        let ParsedConfig {
            load_balancer,
            algo,
            servers,
            weights,
            max_connections,
            timeout_secs,
            health_check_interval_secs,
        } = cfg;
        let ghost before = self.servers@;
        let mut i: usize = 0;
        while i < servers.len()
            invariant
                c.servers == servers@.map_values(|s: String| s@),
                c.weights == weights@,
                c.max_connections == max_connections@,
                weights@.len() >= servers@.len(),
                max_connections@.len() >= servers@.len(),
                i <= servers@.len(),
                before == old(self).servers@,
                self.load_balancer == old(self).load_balancer,
                self.algo == old(self).algo,
                self.timeout_secs == old(self).timeout_secs,
                self.health_check_interval_secs == old(self).health_check_interval_secs,
                self.servers@.len() == before.len() + i,
                forall|j: int| 0 <= j < before.len() ==> #[trigger] self.servers@[j] == before[j],
                forall|k: int|
                    0 <= k < i ==> fresh_server(
                        #[trigger] self.servers@[before.len() + k],
                        c.servers[k],
                        c.weights[k],
                        c.max_connections[k],
                    ),
            decreases servers@.len() - i,
        {
            let server = Server::new(servers[i].clone(), weights[i], max_connections[i]);
            self.servers.push(server);
            i = i + 1;
        }
        if let Some(address) = load_balancer {
            self.load_balancer = address;
        }
        if let Some(a) = algo {
            self.algo = a;
        }
        if let Some(t) = timeout_secs {
            self.timeout_secs = t;
        }
        if let Some(t) = health_check_interval_secs {
            self.health_check_interval_secs = t;
        }
    }

    /// Applies a configuration file, given as its lines. Each line that
    /// starts with a known key sets that setting (the last one wins); the
    /// `servers:` line, with the `weights:` and `max connections:` lines,
    /// adds servers after the existing ones.
    pub fn update(&mut self, lines: &Vec<String>)
        requires
            config_outcome(lines_view(lines@)) is Ok,
        ensures
            config_outcome(lines_view(lines@)) matches Ok(c) && config_applied(*old(self), c, *final(self)),
    {
        match parse_config(lines) {
            Ok(cfg) => self.apply_config(cfg),
            Err(_) => {},
        }
    }

    /// `update`, or the first reason the configuration cannot be applied,
    /// in which case nothing changes.
    pub fn try_update(&mut self, lines: &Vec<String>) -> (r: Result<(), ConfigError>)
        ensures
            match config_outcome(lines_view(lines@)) {
                Ok(c) => r is Ok && config_applied(*old(self), c, *final(self)),
                Err(e) => r == Err::<(), ConfigError>(e) && *final(self) == *old(self),
            },
    {
        match parse_config(lines) {
            Ok(cfg) => {
                self.apply_config(cfg);
                Ok(())
            },
            Err(e) => Err(e),
        }
    }
}

} // verus!
