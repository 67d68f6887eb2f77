use vstd::prelude::*;
use crate::arith::{spec_gcd, gcd_fold, seq_max, lemma_gcd_fold_divides, lemma_gcd_fold_zero, lemma_seq_max};
use crate::algos::weighted_round_robin::lemma_gcd_le;

verus! {

/// How a backend pick of the weighted load balancer ends within a number of
/// steps.
pub enum BackendPick {
    /// Backend `index` is picked, leaving the threshold at `weight`.
    Picked { index: int, weight: nat },
    /// The threshold would drop below zero: the pick panics.
    Underflow,
    /// No backend was picked within the steps allowed.
    Pending,
}

/// At most `fuel` steps of a pick from position `i` with threshold `w`: the
/// position advances cyclically; on coming back to the first backend the
/// threshold drops by the gcd `g`, and starts again from `m` when it reaches
/// zero; the first backend whose weight is at least the threshold is picked.
pub open spec fn pick_run(ws: Seq<nat>, m: nat, g: nat, i: nat, w: nat, fuel: nat) -> BackendPick
    decreases fuel,
{
    if fuel == 0 || ws.len() == 0 {
        BackendPick::Pending
    } else {
        let i2 = ((i + 1) % ws.len()) as nat;
        if i2 == 0 && w < g {
            BackendPick::Underflow
        } else {
            let w2: nat = if i2 == 0 {
                if w - g == 0 {
                    m
                } else {
                    (w - g) as nat
                }
            } else {
                w
            };
            if w2 <= ws[i2 as int] {
                BackendPick::Picked { index: i2 as int, weight: w2 }
            } else {
                pick_run(ws, m, g, i2, w2, (fuel - 1) as nat)
            }
        }
    }
}

/// A threshold from which picks go well: the gcd `g` is positive, and the
/// threshold `w` and the start threshold `m` are positive multiples of it.
pub open spec fn pick_good(g: nat, m: nat, w: nat) -> bool {
    &&& g > 0
    &&& w > 0
    &&& w % g == 0
    &&& m > 0
    &&& m % g == 0
}

/// Some backend after position `i` has a weight of at least `w`.
pub open spec fn weight_ahead(ws: Seq<nat>, i: nat, w: nat) -> bool {
    exists|k: int| i < k < ws.len() && #[trigger] ws[k] >= w
}

/// 1 while the threshold may still start over before a pick: it is at the
/// gcd and no backend ahead reaches it.
pub open spec fn restart_pending(ws: Seq<nat>, g: nat, i: nat, w: nat) -> nat {
    if w == g && !weight_ahead(ws, i, g) {
        1
    } else {
        0
    }
}

/// Steps left before the threshold runs down, if it does not start over.
pub open spec fn pick_measure(n: nat, g: nat, i: nat, w: nat) -> nat {
    ((w / g) * n + (n - 1 - i)) as nat
}

/// Two amounts of steps that both end in a pick end in the same pick.
pub proof fn lemma_pick_run_unique(ws: Seq<nat>, m: nat, g: nat, i: nat, w: nat, f1: nat, f2: nat)
    requires
        pick_run(ws, m, g, i, w, f1) is Picked,
        pick_run(ws, m, g, i, w, f2) is Picked,
    ensures
        pick_run(ws, m, g, i, w, f1) == pick_run(ws, m, g, i, w, f2),
    decreases f1,
{
    if f1 > 0 && f2 > 0 && ws.len() > 0 {
        let i2 = ((i + 1) % ws.len()) as nat;
        if !(i2 == 0 && w < g) {
            let w2: nat = if i2 == 0 {
                if w - g == 0 {
                    m
                } else {
                    (w - g) as nat
                }
            } else {
                w
            };
            if !(w2 <= ws[i2 as int]) {
                lemma_pick_run_unique(ws, m, g, i2, w2, (f1 - 1) as nat, (f2 - 1) as nat);
            }
        }
    }
}

/// A picked backend is one of the backends, and its weight reaches the
/// threshold that the pick leaves behind.
pub proof fn lemma_pick_run_index(ws: Seq<nat>, m: nat, g: nat, i: nat, w: nat, f: nat)
    ensures
        pick_run(ws, m, g, i, w, f) matches BackendPick::Picked { index, weight } ==> 0 <= index < ws.len()
            && ws[index] >= weight,
    decreases f,
{
    if f > 0 && ws.len() > 0 {
        vstd::arithmetic::div_mod::lemma_mod_bound((i + 1) as int, ws.len() as int);
        let i2 = ((i + 1) % ws.len()) as nat;
        let w2: nat = if i2 == 0 {
            if w - g == 0 {
                m
            } else {
                (w - g) as nat
            }
        } else {
            w
        };
        lemma_pick_run_index(ws, m, g, i2, w2, (f - 1) as nat);
    }
}

/// From a good threshold, a pick ends with a backend chosen and a good
/// threshold; `f` steps are enough.
pub proof fn lemma_pick_settles(ws: Seq<nat>, m: nat, i: nat, w: nat) -> (f: nat)
    requires
        ws.len() > 0,
        i < ws.len(),
        pick_good(gcd_fold(ws), m, w),
    ensures
        pick_run(ws, m, gcd_fold(ws), i, w, f) matches BackendPick::Picked { weight, .. } && pick_good(
            gcd_fold(ws),
            m,
            weight,
        ),
    decreases restart_pending(ws, gcd_fold(ws), i, w), pick_measure(ws.len(), gcd_fold(ws), i, w),
{
    let g = gcd_fold(ws);
    let n = ws.len();
    lemma_gcd_fold_divides(ws);
    lemma_gcd_fold_zero(ws);
    // some weight is positive, and every positive weight is at least g
    let j = choose|j: int| 0 <= j < n && ws[j] != 0;
    assert forall|k: int| 0 <= k < n && ws[k] != 0 implies #[trigger] ws[k] >= g by {
        if ws[k] < g {
            vstd::arithmetic::div_mod::lemma_small_mod(ws[k], g);
        }
    }
    assert(ws[j] >= g);
    assert(w >= g) by {
        if w < g {
            vstd::arithmetic::div_mod::lemma_small_mod(w, g);
        }
    }
    let i2: nat = if i + 1 < n {
        vstd::arithmetic::div_mod::lemma_small_mod((i + 1) as nat, n);
        (i + 1) as nat
    } else {
        vstd::arithmetic::div_mod::lemma_mod_self_0(n as int);
        0
    };
    assert(i2 == ((i + 1) % n) as nat);
    let w2: nat = if i2 == 0 {
        if w - g == 0 {
            m
        } else {
            (w - g) as nat
        }
    } else {
        w
    };
    if w2 <= ws[i2 as int] {
        assert(pick_good(g, m, w2)) by {
            if i2 == 0 && w - g != 0 {
                vstd::arithmetic::div_mod::lemma_mod_sub_multiples_vanish(w as int, g as int);
            }
        }
        1
    } else {
        assert(pick_good(g, m, w2)) by {
            if i2 == 0 && w - g != 0 {
                vstd::arithmetic::div_mod::lemma_mod_sub_multiples_vanish(w as int, g as int);
            }
        }
        if i2 != 0 {
            // the same threshold, one step on
            if w == g && weight_ahead(ws, i, g) {
                let k = choose|k: int| i < k < ws.len() && #[trigger] ws[k] >= g;
                assert(k != i2);
                assert(i2 < k < ws.len() && ws[k] >= g);
            }
            assert(pick_measure(n, g, i2, w2) < pick_measure(n, g, i, w));
        } else {
            // a new round: nothing lies ahead of the last backend
            assert(!weight_ahead(ws, i, g));
            assert(restart_pending(ws, g, i2, w2) == 0) by {
                if w2 == g {
                    assert(j != 0);
                    assert(0 < j < ws.len() && ws[j] >= g);
                }
            }
            if w != g {
                assert(w2 + g == w);
                vstd::arithmetic::div_mod::lemma_div_plus_one(w2 as int, g as int);
                assert(pick_measure(n, g, i2, w2) < pick_measure(n, g, i, w)) by (nonlinear_arith)
                    requires
                        w2 as int / g as int + 1 == w as int / g as int,
                        pick_measure(n, g, i2, w2) == (w2 as int / g as int) * n + (n - 1),
                        pick_measure(n, g, i, w) == (w as int / g as int) * n + 0,
                        n > 0,
                ;
            }
        }
        let f2 = lemma_pick_settles(ws, m, i2, w2);
        f2 + 1
    }
}

/// Picks backends by weight, cycling over them with a falling threshold;
/// weights are integers (fractional weights are scaled by 100 before they
/// get here).
pub struct WeightedLoadBalancer {
    backends: Vec<String>,
    weights: Vec<usize>,
    current_index: usize,
    current_weight: usize,
    max_weight: usize,
    gcd_weight: usize,
}

impl WeightedLoadBalancer {
    /// The backends, in order.
    pub closed spec fn backends(&self) -> Seq<String> {
        self.backends@
    }

    /// The weight of each backend.
    pub closed spec fn weights(&self) -> Seq<nat> {
        self.weights@.map_values(|w: usize| w as nat)
    }

    /// Position of the backend picked last.
    pub closed spec fn current_index(&self) -> nat {
        self.current_index as nat
    }

    /// The current threshold.
    pub closed spec fn current_weight(&self) -> nat {
        self.current_weight as nat
    }

    /// The threshold a new cycle starts from.
    pub closed spec fn max_weight(&self) -> nat {
        self.max_weight as nat
    }

    /// The step by which the threshold drops.
    pub closed spec fn gcd_weight(&self) -> nat {
        self.gcd_weight as nat
    }

    /// One weight per backend, and a position within the backends (or zero).
    pub closed spec fn wf(&self) -> bool {
        &&& self.weights@.len() == self.backends@.len()
        &&& (self.current_index < self.backends@.len() || self.current_index == 0)
    }

    /// The picks from the current state end with a backend chosen.
    pub open spec fn settles(&self) -> bool {
        exists|f: nat|
            pick_run(
                self.weights(),
                self.max_weight(),
                self.gcd_weight(),
                self.current_index(),
                self.current_weight(),
                f,
            ) is Picked
    }

    /// What the next pick gives.
    pub open spec fn next_pick(&self) -> BackendPick {
        pick_run(
            self.weights(),
            self.max_weight(),
            self.gcd_weight(),
            self.current_index(),
            self.current_weight(),
            choose|f: nat|
                pick_run(
                    self.weights(),
                    self.max_weight(),
                    self.gcd_weight(),
                    self.current_index(),
                    self.current_weight(),
                    f,
                ) is Picked,
        )
    }

    /// A balancer over `(backend, weight)` pairs, starting at the first
    /// backend with the threshold at `max_weight`; the step is the gcd of the
    /// weights.
    pub fn new(backends: Vec<(String, usize)>, max_weight: usize) -> (r: WeightedLoadBalancer)
        ensures
            r.wf(),
            r.backends() == backends@.map_values(|b: (String, usize)| b.0),
            r.weights() == backends@.map_values(|b: (String, usize)| b.1 as nat),
            r.current_index() == 0,
            r.current_weight() == max_weight,
            r.max_weight() == max_weight,
            r.gcd_weight() == gcd_fold(r.weights()),
    {
        let mut names: Vec<String> = Vec::new();
        let mut weights: Vec<usize> = Vec::new();
        let mut i: usize = 0;
        while i < backends.len()
            invariant
                i <= backends@.len(),
                names@ == backends@.take(i as int).map_values(|b: (String, usize)| b.0),
                weights@ == backends@.take(i as int).map_values(|b: (String, usize)| b.1),
            decreases backends@.len() - i,
        {
            names.push(backends[i].0.clone());
            weights.push(backends[i].1);
            assert(backends@.take(i + 1).drop_last() =~= backends@.take(i as int));
            assert(names@ =~= backends@.take(i + 1).map_values(|b: (String, usize)| b.0));
            assert(weights@ =~= backends@.take(i + 1).map_values(|b: (String, usize)| b.1));
            i = i + 1;
        }
        assert(backends@.take(backends@.len() as int) =~= backends@);
        let gcd_weight = Self::calculate_gcd(&weights);
        let r = WeightedLoadBalancer {
            backends: names,
            weights,
            current_index: 0,
            current_weight: max_weight,
            max_weight,
            gcd_weight,
        };
        assert(r.weights() =~= backends@.map_values(|b: (String, usize)| b.1 as nat));
        r
    }

    /// The gcd of all the weights, folded from 0.
    pub fn calculate_gcd(weights: &Vec<usize>) -> (g: usize)
        ensures
            g as nat == gcd_fold(weights@.map_values(|w: usize| w as nat)),
    {
        let ghost ws = weights@.map_values(|w: usize| w as nat);
        let mut acc: usize = 0;
        let mut i: usize = 0;
        while i < weights.len()
            invariant
                i <= weights@.len(),
                ws == weights@.map_values(|w: usize| w as nat),
                acc as nat == gcd_fold(ws.take(i as int)),
            decreases weights@.len() - i,
        {
            assert(ws.take(i + 1).drop_last() =~= ws.take(i as int));
            proof {
                lemma_gcd_le(acc as nat, weights@[i as int] as nat);
            }
            acc = Self::gcd(acc, weights[i]);
            i = i + 1;
        }
        assert(ws.take(weights@.len() as int) =~= ws);
        acc
    }

    /// Euclid's algorithm.
    pub fn gcd(a: usize, b: usize) -> (r: usize)
        ensures
            r == spec_gcd(a as nat, b as nat),
        decreases b,
    {
        if b == 0 {
            a
        } else {
            Self::gcd(b, a % b)
        }
    }

    /// The next backend: the one `next_pick` chooses, with the position and
    /// the threshold moved to where the pick left them.
    pub fn get_next_backend(&mut self) -> (r: String)
        requires
            old(self).wf(),
            old(self).settles(),
        ensures
            final(self).wf(),
            old(self).next_pick() matches BackendPick::Picked { index, weight } && r == old(
                self,
            ).backends()[index] && final(self).current_index() == index && final(self).current_weight()
                == weight,
            final(self).current_index() < old(self).backends().len(),
            old(self).weights()[final(self).current_index() as int] >= final(self).current_weight(),
            final(self).backends() == old(self).backends(),
            final(self).weights() == old(self).weights(),
            final(self).max_weight() == old(self).max_weight(),
            final(self).gcd_weight() == old(self).gcd_weight(),
    {
        let ghost ws = self.weights();
        let ghost pick = self.next_pick();
        let ghost mut fuel: nat = choose|f: nat|
            pick_run(ws, self.max_weight(), self.gcd_weight(), self.current_index(), self.current_weight(), f)
                is Picked;
        proof {
            lemma_pick_run_index(ws, self.max_weight(), self.gcd_weight(), self.current_index(), self.current_weight(), fuel);
        }
        let n = self.backends.len();
        loop
            invariant
                self.wf(),
                n == self.backends@.len(),
                ws == self.weights(),
                self.backends@ == old(self).backends@,
                self.weights@ == old(self).weights@,
                self.max_weight == old(self).max_weight,
                self.gcd_weight == old(self).gcd_weight,
                pick == old(self).next_pick(),
                pick is Picked,
                pick_run(ws, self.max_weight(), self.gcd_weight(), self.current_index(), self.current_weight(), fuel)
                    == pick,
            decreases fuel,
        {
            let current_index = self.current_index;
            let new_index = (current_index + 1) % n;
            self.current_index = new_index;
            if new_index == 0 {
                let current_weight = self.current_weight;
                let new_weight = current_weight - self.gcd_weight;
                self.current_weight = new_weight;
                if new_weight == 0 {
                    self.current_weight = self.max_weight;
                }
            }
            let weight = self.weights[new_index];
            if self.current_weight <= weight {
                return self.backends[new_index].clone();
            }
            proof {
                fuel = (fuel - 1) as nat;
            }
        }
    }
}


/// A balancer whose threshold and start threshold are positive multiples of
/// the gcd of its weights always picks a backend, and the pick leaves the
/// threshold a positive multiple again; since `new` starts at the start
/// threshold and `get_next_backend` keeps the weights, that threshold and the
/// gcd, such a balancer picks forever.
pub proof fn lemma_balancer_keeps_picking(lb: WeightedLoadBalancer)
    requires
        lb.wf(),
        lb.backends().len() > 0,
        lb.gcd_weight() == gcd_fold(lb.weights()),
        pick_good(lb.gcd_weight(), lb.max_weight(), lb.current_weight()),
    ensures
        lb.settles(),
        lb.next_pick() matches BackendPick::Picked { index, weight } && 0 <= index < lb.backends().len()
            && pick_good(lb.gcd_weight(), lb.max_weight(), weight),
{
    let ws = lb.weights();
    assert(ws.len() == lb.backends().len());
    let f = lemma_pick_settles(ws, lb.max_weight(), lb.current_index(), lb.current_weight());
    assert(pick_run(ws, lb.max_weight(), lb.gcd_weight(), lb.current_index(), lb.current_weight(), f) is Picked);
    let fc = choose|f: nat|
        pick_run(ws, lb.max_weight(), lb.gcd_weight(), lb.current_index(), lb.current_weight(), f) is Picked;
    lemma_pick_run_unique(ws, lb.max_weight(), lb.gcd_weight(), lb.current_index(), lb.current_weight(), f, fc);
    lemma_pick_run_index(ws, lb.max_weight(), lb.gcd_weight(), lb.current_index(), lb.current_weight(), fc);
}

/// A balancer as `new` makes it, with the start threshold at the largest of
/// its weights and that weight positive, starts from a good threshold: so it
/// picks one of its backends on every call, without underflow, forever.
pub proof fn lemma_new_balancer_keeps_picking(lb: WeightedLoadBalancer)
    requires
        lb.wf(),
        lb.backends().len() > 0,
        lb.gcd_weight() == gcd_fold(lb.weights()),
        lb.max_weight() == seq_max(lb.weights()),
        lb.max_weight() > 0,
        lb.current_weight() == lb.max_weight(),
    ensures
        pick_good(lb.gcd_weight(), lb.max_weight(), lb.current_weight()),
        lb.settles(),
        lb.next_pick() matches BackendPick::Picked { index, weight } && 0 <= index < lb.backends().len()
            && pick_good(lb.gcd_weight(), lb.max_weight(), weight),
{
    let ws = lb.weights();
    assert(ws.len() == lb.backends().len());
    lemma_seq_max(ws);
    lemma_gcd_fold_zero(ws);
    lemma_gcd_fold_divides(ws);
    let j = choose|j: int| 0 <= j < ws.len() && ws[j] == seq_max(ws);
    assert(ws[j] % gcd_fold(ws) == 0);
    lemma_balancer_keeps_picking(lb);
}

} // verus!
