use vstd::prelude::*;
use crate::arith::{
    spec_gcd, gcd_fold, seq_max, lemma_gcd_fold_zero, lemma_seq_max, lemma_gcd_fold_divides,
    slot_of, lemma_rotation_covers,
};
use crate::balancer::{Loadbalancer, deref_servers};
use crate::server::Server;

verus! {

/// The weights of a list of servers.
pub open spec fn weights_of(servers: Seq<Server>) -> Seq<nat> {
    servers.map_values(|s: Server| s.weight as nat)
}

/// The weight that a new round starts from: the largest weight (1 for no servers).
pub open spec fn round_start_weight(ws: Seq<nat>) -> nat {
    if ws.len() == 0 {
        1
    } else {
        seq_max(ws)
    }
}

/// The step by which the weight threshold drops each round: the gcd of the
/// weights (1 for no servers).
pub open spec fn round_step(ws: Seq<nat>) -> nat {
    if ws.len() == 0 {
        1
    } else {
        gcd_fold(ws)
    }
}

/// How a selection by weighted round robin ends.
pub enum WrrOutcome {
    /// Server `index` is chosen; the counter and the weight threshold are left
    /// at `counter` and `weight`.
    Chosen { index: int, counter: usize, weight: nat },
    /// No server can ever reach the threshold: the selection never ends.
    Stuck,
    /// The threshold would drop below zero: the selection panics.
    Underflow,
}

/// Rounds of the threshold that can still pass before a selection ends.
pub open spec fn rounds_left(m: nat, g: nat, w: nat) -> nat {
    if w == 0 {
        m / g + 2
    } else {
        w / g + 1
    }
}

/// Steps of the counter until it next points at the first server.
pub open spec fn steps_to_round(n: nat, c: usize) -> nat {
    let r = (c as int % n as int) as nat;
    if r == 0 {
        0
    } else {
        (n - r) as nat
    }
}

/// A bound on the steps that a selection still takes.
pub open spec fn wrr_measure(ws: Seq<nat>, c: usize, w: nat) -> nat {
    let g = round_step(ws);
    if g == 0 || ws.len() == 0 {
        0
    } else {
        rounds_left(round_start_weight(ws), g, w) * ws.len() + steps_to_round(ws.len(), c)
    }
}

/// The result of one selection from counter `c` and threshold `w`: the
/// counter picks a server; when it points at the first server a new round
/// starts, with the threshold reset to the largest weight when it is zero
/// and lowered by the gcd otherwise; the first server whose weight reaches
/// the threshold is chosen.
pub open spec fn wrr_outcome(ws: Seq<nat>, c: usize, w: nat) -> WrrOutcome
    decreases wrr_measure(ws, c, w),
{
    let n = ws.len();
    let m = round_start_weight(ws);
    let g = round_step(ws);
    if n == 0 {
        WrrOutcome::Stuck
    } else {
        let i = c as int % n as int;
        let c2 = c.wrapping_add(1);
        if i == 0 && w != 0 && w < g {
            WrrOutcome::Underflow
        } else {
            let w2: nat = if i == 0 {
                if w == 0 {
                    m
                } else {
                    (w - g) as nat
                }
            } else {
                w
            };
            if ws[i] >= w2 {
                WrrOutcome::Chosen { index: i, counter: c2, weight: w2 }
            } else if g == 0 {
                WrrOutcome::Stuck
            } else {
                proof {
                    lemma_wrr_step_decreases(ws, c, w);
                }
                wrr_outcome(ws, c2, w2)
            }
        }
    }
}

/// A step of a selection that neither ends nor gets stuck lowers the measure.
pub proof fn lemma_wrr_step_decreases(ws: Seq<nat>, c: usize, w: nat)
    requires
        ws.len() > 0,
        round_step(ws) > 0,
        !(c as int % ws.len() as int == 0 && w != 0 && w < round_step(ws)),
        ({
            let i = c as int % ws.len() as int;
            let w2: nat = if i == 0 {
                if w == 0 {
                    round_start_weight(ws)
                } else {
                    (w - round_step(ws)) as nat
                }
            } else {
                w
            };
            ws[i] < w2
        }),
    ensures
        ({
            let i = c as int % ws.len() as int;
            let w2: nat = if i == 0 {
                if w == 0 {
                    round_start_weight(ws)
                } else {
                    (w - round_step(ws)) as nat
                }
            } else {
                w
            };
            wrr_measure(ws, c.wrapping_add(1), w2) < wrr_measure(ws, c, w)
        }),
{
    let n = ws.len();
    let m = round_start_weight(ws);
    let g = round_step(ws);
    let i = c as int % n as int;
    let c2 = c.wrapping_add(1);
    lemma_seq_max(ws);
    lemma_gcd_fold_zero(ws);
    // a non-zero gcd means a non-zero weight, so the largest weight is positive
    assert(m > 0) by {
        if m == 0 {
            assert forall|j: int| 0 <= j < ws.len() implies ws[j] == 0 by {
                assert(ws[j] <= seq_max(ws));
            }
        }
    }
    let w2: nat = if i == 0 {
        if w == 0 {
            m
        } else {
            (w - g) as nat
        }
    } else {
        w
    };
    let d = steps_to_round(n, c);
    let d2 = steps_to_round(n, c2);
    let p = rounds_left(m, g, w);
    let p2 = rounds_left(m, g, w2);
    assert(d < n);
    assert(d2 < n);
    if i == 0 {
        assert(w2 != 0) by {
            if w2 == 0 {
                assert(ws[i] >= 0);
            }
        }
        assert(p2 + 1 <= p) by {
            if w == 0 {
                assert(w2 == m);
            } else {
                assert(w >= g);
                assert(w2 + g == w);
                vstd::arithmetic::div_mod::lemma_div_plus_one(w2 as int, g as int);
            }
        }
        assert(p2 * n + d2 < p * n + d) by (nonlinear_arith)
            requires
                p2 + 1 <= p,
                d2 < n,
                d >= 0,
        ;
    } else {
        assert(w2 == w);
        // the counter moves one step closer to the first server
        if c == usize::MAX {
            assert(c2 == 0);
            vstd::arithmetic::div_mod::lemma_small_mod(0, n);
            assert(d2 == 0);
        } else {
            assert(c2 == c + 1);
            assert(d2 < d) by {
                let r = c as int % n as int;
                vstd::arithmetic::div_mod::lemma_fundamental_div_mod(c as int, n as int);
                vstd::arithmetic::div_mod::lemma_fundamental_div_mod(c as int + 1, n as int);
                let q = c as int / n as int;
                if r + 1 < n {
                    assert((c as int + 1) % (n as int) == r + 1) by {
                        assert(c as int + 1 == n * q + (r + 1));
                        vstd::arithmetic::div_mod::lemma_mod_multiples_vanish(q, r + 1, n as int);
                        vstd::arithmetic::div_mod::lemma_small_mod((r + 1) as nat, n);
                    }
                } else {
                    assert((c as int + 1) % (n as int) == 0) by {
                        assert(c as int + 1 == (q + 1) * n) by (nonlinear_arith)
                            requires
                                c as int == n * q + r,
                                r + 1 == n,
                        ;
                        vstd::arithmetic::div_mod::lemma_mod_multiples_basic(q + 1, n as int);
                    }
                }
            }
        }
        assert(p2 * n + d2 < p * n + d);
    }
}


/// Weighted round robin: the counter walks over the servers, and each time it
/// comes back to the first server the weight threshold moves; a server is
/// chosen when its weight reaches the threshold.
pub struct WeightedRoundRobin {
    counter: usize,
    current_weight: usize,
}

impl WeightedRoundRobin {
    /// Starts at the first server with a zero threshold.
    pub fn new() -> (r: WeightedRoundRobin)
        ensures
            r.counter() == 0,
            r.current_weight() == 0,
    {
        WeightedRoundRobin { counter: 0, current_weight: 0 }
    }

    /// Number of steps the counter has taken, modulo the word size.
    pub closed spec fn counter(&self) -> usize {
        self.counter
    }

    /// The current weight threshold.
    pub closed spec fn current_weight(&self) -> usize {
        self.current_weight
    }

    /// Euclid's algorithm.
    pub fn gcd(a: usize, b: usize) -> (r: usize)
        ensures
            r == spec_gcd(a as nat, b as nat),
        decreases b,
    {
        if b == 0 {
            a
        } else {
            Self::gcd(b, a % b)
        }
    }

    /// The largest weight and the gcd of the weights (1 and 1 for no servers).
    fn round_parameters(servers: &[&Server]) -> (res: (usize, usize))
        ensures
            res.0 as nat == round_start_weight(weights_of(deref_servers(servers@))),
            res.1 as nat == round_step(weights_of(deref_servers(servers@))),
            res.0 <= u32::MAX,
            res.1 <= u32::MAX,
    {
        let ghost ws = weights_of(deref_servers(servers@));
        let n = servers.len();
        if n == 0 {
            return (1, 1);
        }
        let mut max_weight: usize = 0;
        let mut gcd_weight: usize = 0;
        let mut i: usize = 0;
        while i < n
            invariant
                n == servers@.len(),
                ws == weights_of(deref_servers(servers@)),
                0 <= i <= n,
                max_weight as nat == seq_max(ws.take(i as int)),
                gcd_weight as nat == gcd_fold(ws.take(i as int)),
                max_weight <= u32::MAX,
                gcd_weight <= u32::MAX,
            decreases n - i,
        {
            let w = servers[i].weight as usize;
            assert(ws[i as int] == w);
            assert(ws.take(i + 1).drop_last() =~= ws.take(i as int));
            if w > max_weight {
                max_weight = w;
            }
            proof {
                lemma_gcd_le(gcd_weight as nat, w as nat);
            }
            gcd_weight = Self::gcd(gcd_weight, w);
            i = i + 1;
        }
        assert(ws.take(n as int) =~= ws);
        (max_weight, gcd_weight)
    }

    /// Runs one selection from counter `c` and threshold `w`; `None` when the
    /// selection would get stuck or underflow.
    fn run_selection(servers: &[&Server], max_weight: usize, gcd_weight: usize, c: usize, w: usize) -> (r:
        Option<(usize, usize, usize)>)
        requires
            servers@.len() > 0,
            max_weight as nat == round_start_weight(weights_of(deref_servers(servers@))),
            gcd_weight as nat == round_step(weights_of(deref_servers(servers@))),
        ensures
            match wrr_outcome(weights_of(deref_servers(servers@)), c, w as nat) {
                WrrOutcome::Chosen { index, counter, weight } => r == Some(
                    (index as usize, counter, weight as usize),
                ),
                _ => r is None,
            },
    {
        let ghost ws = weights_of(deref_servers(servers@));
        let ghost outcome = wrr_outcome(ws, c, w as nat);
        let n = servers.len();
        let mut counter = c;
        let mut current_weight = w;
        loop
            invariant
                n == servers@.len(),
                n > 0,
                ws == weights_of(deref_servers(servers@)),
                max_weight as nat == round_start_weight(ws),
                gcd_weight as nat == round_step(ws),
                outcome == wrr_outcome(ws, c, w as nat),
                wrr_outcome(ws, counter, current_weight as nat) == outcome,
            decreases wrr_measure(ws, counter, current_weight as nat),
        {
            let ghost c0 = counter;
            let ghost w0 = current_weight;
            let index = counter % n;
            counter = counter.wrapping_add(1);
            if index == 0 {
                if current_weight == 0 {
                    current_weight = max_weight;
                } else if current_weight < gcd_weight {
                    return None;
                } else {
                    current_weight = current_weight - gcd_weight;
                }
            }
            assert(ws[index as int] == servers[index as int].weight);
            if servers[index].weight as usize >= current_weight {
                return Some((index, counter, current_weight));
            }
            if gcd_weight == 0 {
                return None;
            }
            proof {
                lemma_wrr_step_decreases(ws, c0, w0 as nat);
            }
        }
    }
}

/// A chosen server is a valid index whose weight reaches the final threshold,
/// and the threshold never exceeds both the starting threshold and the
/// largest weight.
pub proof fn lemma_wrr_chosen(ws: Seq<nat>, c: usize, w: nat)
    ensures
        wrr_outcome(ws, c, w) matches WrrOutcome::Chosen { index, counter, weight } ==> {
            &&& 0 <= index < ws.len()
            &&& ws[index] >= weight
            &&& weight <= if w > round_start_weight(ws) { w } else { round_start_weight(ws) }
        },
    decreases wrr_measure(ws, c, w),
{
    let n = ws.len();
    if n > 0 {
        let m = round_start_weight(ws);
        let g = round_step(ws);
        let i = c as int % n as int;
        vstd::arithmetic::div_mod::lemma_mod_bound(c as int, n as int);
        if !(i == 0 && w != 0 && w < g) {
            let w2: nat = if i == 0 {
                if w == 0 {
                    m
                } else {
                    (w - g) as nat
                }
            } else {
                w
            };
            if ws[i] < w2 && g != 0 {
                lemma_wrr_step_decreases(ws, c, w);
                lemma_wrr_chosen(ws, c.wrapping_add(1), w2);
            }
        }
    }
}

/// After a selection the counter and the threshold are where `wrr_outcome`
/// leaves them (unchanged without servers).
pub proof fn lemma_wrr_after(b: WeightedRoundRobin, servers: Seq<Server>)
    ensures
        servers.len() == 0 ==> b.after(servers) == b,
        servers.len() > 0 ==> (wrr_outcome(weights_of(servers), b.counter(), b.current_weight() as nat) matches WrrOutcome::Chosen { counter, weight, .. } ==> b.after(servers).counter() == counter
            && b.after(servers).current_weight() == weight as usize),
{
}

/// A threshold from which selections always succeed for these weights: a
/// multiple of the gcd (zero when every weight is zero).
pub open spec fn wrr_settled(ws: Seq<nat>, w: nat) -> bool {
    if round_step(ws) == 0 {
        w == 0
    } else {
        w % round_step(ws) == 0
    }
}

/// With a fixed list of servers, a selection from a settled threshold always
/// chooses a server and leaves the threshold settled; as a new balancer starts
/// from a zero threshold, which is settled, it can select forever while the
/// servers stay the same.
pub proof fn lemma_wrr_keeps_settled(ws: Seq<nat>, c: usize, w: nat)
    requires
        ws.len() > 0,
        wrr_settled(ws, w),
    ensures
        wrr_outcome(ws, c, w) matches WrrOutcome::Chosen { weight, .. } && wrr_settled(ws, weight),
    decreases wrr_measure(ws, c, w),
{
    let n = ws.len();
    let m = round_start_weight(ws);
    let g = round_step(ws);
    let i = c as int % n as int;
    vstd::arithmetic::div_mod::lemma_mod_bound(c as int, n as int);
    lemma_seq_max(ws);
    lemma_gcd_fold_zero(ws);
    lemma_gcd_fold_divides(ws);
    if g > 0 {
        // the largest weight is one of the weights, so the gcd divides it
        let j = choose|j: int| 0 <= j < ws.len() && ws[j] == seq_max(ws);
        assert(ws[j] % g == 0);
        assert(m % g == 0);
        if w != 0 {
            assert(w >= g) by {
                if w < g {
                    vstd::arithmetic::div_mod::lemma_small_mod(w, g);
                }
            }
        }
    } else {
        assert(ws[i] == 0);
        assert(m == 0);
    }
    let w2: nat = if i == 0 {
        if w == 0 {
            m
        } else {
            (w - g) as nat
        }
    } else {
        w
    };
    assert(wrr_settled(ws, w2)) by {
        if g > 0 && i == 0 && w != 0 {
            vstd::arithmetic::div_mod::lemma_mod_sub_multiples_vanish(w as int, g as int);
        }
    }
    if ws[i] < w2 {
        lemma_wrr_step_decreases(ws, c, w);
        lemma_wrr_keeps_settled(ws, c.wrapping_add(1), w2);
    }
}

/// From a settled threshold no larger than the largest weight, a selection
/// ends no later than the step on which the counter reaches server `j`, whose
/// weight is the largest, `k` steps ahead.
proof fn lemma_wrr_reaches(ws: Seq<nat>, c: usize, w: nat, j: int, k: nat)
    requires
        ws.len() > 0,
        0 <= j < ws.len(),
        ws[j] == round_start_weight(ws),
        wrr_settled(ws, w),
        w <= round_start_weight(ws),
        (c + k) % (ws.len() as int) == j,
        c + k < usize::MAX,
    ensures
        wrr_outcome(ws, c, w) matches WrrOutcome::Chosen { counter, .. } && c < counter <= c + k + 1,
    decreases k,
{
    let n = ws.len();
    let m = round_start_weight(ws);
    let g = round_step(ws);
    let i = c as int % n as int;
    vstd::arithmetic::div_mod::lemma_mod_bound(c as int, n as int);
    lemma_seq_max(ws);
    lemma_gcd_fold_zero(ws);
    lemma_gcd_fold_divides(ws);
    if g > 0 {
        assert(m % g == 0) by {
            assert(ws[j] % g == 0);
        }
        if w != 0 {
            assert(w >= g) by {
                if w < g {
                    vstd::arithmetic::div_mod::lemma_small_mod(w, g);
                }
            }
        }
    } else {
        assert(ws[j] == 0);
    }
    let w2: nat = if i == 0 {
        if w == 0 {
            m
        } else {
            (w - g) as nat
        }
    } else {
        w
    };
    assert(w2 <= m);
    assert(c.wrapping_add(1) == c + 1);
    if k == 0 {
        assert(i == j);
    } else if ws[i] < w2 {
        assert(g > 0);
        assert(wrr_settled(ws, w2)) by {
            if i == 0 && w != 0 {
                vstd::arithmetic::div_mod::lemma_mod_sub_multiples_vanish(w as int, g as int);
            }
        }
        assert((c + 1) as usize + (k - 1) == c + k);
        lemma_wrr_reaches(ws, (c + 1) as usize, w2, j, (k - 1) as nat);
    }
}

/// From a settled threshold no larger than the largest weight, a selection
/// never underflows or gets stuck: it chooses a server within as many steps
/// of the counter as there are servers (when the counter does not wrap on
/// the way), and leaves a threshold of the same kind. A new balancer starts
/// from such a threshold (zero), so this holds of every selection it makes
/// while the weights stay the same.
pub proof fn lemma_wrr_picks_within_a_round(ws: Seq<nat>, c: usize, w: nat)
    requires
        ws.len() > 0,
        wrr_settled(ws, w),
        w <= round_start_weight(ws),
        c + ws.len() <= usize::MAX,
    ensures
        wrr_outcome(ws, c, w) matches WrrOutcome::Chosen { index, counter, weight } && {
            &&& 0 <= index < ws.len()
            &&& c < counter <= c + ws.len()
            &&& weight <= round_start_weight(ws)
            &&& wrr_settled(ws, weight)
        },
        wrr_settled(ws, 0),
{
    let n = ws.len();
    lemma_seq_max(ws);
    let j = choose|j: int| 0 <= j < ws.len() && ws[j] == seq_max(ws);
    lemma_rotation_covers(c as int, n as int, j);
    let k = choose|k: int| 0 <= k < n && #[trigger] slot_of(c + k, n as int) == j;
    lemma_wrr_reaches(ws, c, w, j, k as nat);
    lemma_wrr_chosen(ws, c, w);
    lemma_wrr_keeps_settled(ws, c, w);
    if round_step(ws) > 0 {
        vstd::arithmetic::div_mod::lemma_small_mod(0, round_step(ws));
    }
}

/// A selection gets stuck only when every weight is zero and the threshold
/// is positive; then it can never end, since the threshold never moves and no
/// weight reaches it.
pub proof fn lemma_wrr_stuck(ws: Seq<nat>, c: usize, w: nat)
    requires
        ws.len() > 0,
        wrr_outcome(ws, c, w) is Stuck,
    ensures
        w > 0,
        round_step(ws) == 0,
        forall|i: int| 0 <= i < ws.len() ==> ws[i] == 0,
    decreases wrr_measure(ws, c, w),
{
    let n = ws.len();
    let m = round_start_weight(ws);
    let g = round_step(ws);
    let i = c as int % n as int;
    vstd::arithmetic::div_mod::lemma_mod_bound(c as int, n as int);
    lemma_gcd_fold_zero(ws);
    lemma_seq_max(ws);
    let w2: nat = if i == 0 {
        if w == 0 {
            m
        } else {
            (w - g) as nat
        }
    } else {
        w
    };
    if g == 0 {
        assert(m == 0) by {
            if m != 0 {
                let j = choose|j: int| 0 <= j < ws.len() && ws[j] == seq_max(ws);
                assert(ws[j] == 0);
            }
        }
        assert(w2 > ws[i]);
    } else {
        lemma_wrr_step_decreases(ws, c, w);
        lemma_wrr_stuck(ws, c.wrapping_add(1), w2);
        assert(false);
    }
}

/// `gcd(a, b)` is at most the larger of `a` and `b`.
pub proof fn lemma_gcd_le(a: nat, b: nat)
    ensures
        spec_gcd(a, b) <= if a > b { a } else { b },
    decreases b,
{
    if b != 0 {
        lemma_gcd_le(b, a % b);
        vstd::arithmetic::div_mod::lemma_mod_bound(a as int, b as int);
    }
}

impl Loadbalancer for WeightedRoundRobin {
    open spec fn accepts(&self, servers: Seq<Server>) -> bool {
        servers.len() == 0 || wrr_outcome(weights_of(servers), self.counter(), self.current_weight() as nat) is Chosen
    }

    open spec fn choice(&self, servers: Seq<Server>) -> Option<int> {
        if servers.len() == 0 {
            None
        } else {
            match wrr_outcome(weights_of(servers), self.counter(), self.current_weight() as nat) {
                WrrOutcome::Chosen { index, .. } => Some(index),
                _ => None,
            }
        }
    }

    closed spec fn after(&self, servers: Seq<Server>) -> Self {
        if servers.len() == 0 {
            *self
        } else {
            match wrr_outcome(weights_of(servers), self.counter(), self.current_weight() as nat) {
                WrrOutcome::Chosen { counter, weight, .. } => WeightedRoundRobin {
                    counter,
                    current_weight: weight as usize,
                },
                _ => *self,
            }
        }
    }

    fn can_select(&self, servers: &[&Server]) -> (b: bool) {
        if servers.len() == 0 {
            return true;
        }
        let (max_weight, gcd_weight) = Self::round_parameters(servers);
        Self::run_selection(servers, max_weight, gcd_weight, self.counter, self.current_weight).is_some()
    }

    /// Without servers nothing is chosen; otherwise the server, counter and
    /// threshold that `wrr_outcome` gives.
    fn get_index(&mut self, servers: &[&Server]) -> (r: Option<usize>)
        ensures
            servers@.len() == 0 ==> r is None && final(self).counter() == old(self).counter()
                && final(self).current_weight() == old(self).current_weight(),
            servers@.len() > 0 ==> (wrr_outcome(
                weights_of(deref_servers(servers@)),
                old(self).counter(),
                old(self).current_weight() as nat,
            ) matches WrrOutcome::Chosen { index, counter, weight } && r == Some(index as usize)
                && final(self).counter() == counter && final(self).current_weight() == weight),
    {
        let (max_weight, gcd_weight) = Self::round_parameters(servers);
        let len = servers.len();
        if len == 0 {
            return None;
        }
        proof {
            lemma_wrr_chosen(weights_of(deref_servers(servers@)), self.counter, self.current_weight as nat);
        }
        match Self::run_selection(servers, max_weight, gcd_weight, self.counter, self.current_weight) {
            Some((index, counter, current_weight)) => {
                self.counter = counter;
                self.current_weight = current_weight;
                Some(index)
            },
            None => None,
        }
    }
}

/// A weighted round robin balancer whose threshold is settled and no larger
/// than the largest weight of `servers` (as `new` leaves it, at zero) chooses
/// a server of `servers`, the counter moving on by at most as many steps as
/// there are servers (when it does not wrap), and is left in such a state
/// again: every call with the same servers chooses one.
pub proof fn lemma_wrr_balancer_always_picks(b: WeightedRoundRobin, servers: Seq<Server>)
    requires
        servers.len() > 0,
        wrr_settled(weights_of(servers), b.current_weight() as nat),
        b.current_weight() <= round_start_weight(weights_of(servers)),
        b.counter() + servers.len() <= usize::MAX,
    ensures
        b.accepts(servers),
        b.choice(servers) matches Some(i) && 0 <= i < servers.len(),
        b.counter() < b.after(servers).counter() <= b.counter() + servers.len(),
        wrr_settled(weights_of(servers), b.after(servers).current_weight() as nat),
        b.after(servers).current_weight() <= round_start_weight(weights_of(servers)),
{
    let ws = weights_of(servers);
    lemma_wrr_picks_within_a_round(ws, b.counter(), b.current_weight() as nat);
    lemma_seq_max(ws);
    let j = choose|j: int| 0 <= j < ws.len() && ws[j] == seq_max(ws);
    assert(ws[j] == servers[j].weight);
}

} // verus!
