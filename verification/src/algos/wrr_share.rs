use vstd::prelude::*;
use crate::algos::weighted_round_robin::{
    WrrOutcome, wrr_outcome, round_start_weight, round_step,
};
use crate::arith::{seq_max, lemma_seq_max, lemma_gcd_fold_divides, occurrences, lemma_occurrences_concat};

verus! {

/// The threshold in force after the step at counter `c` from threshold `w`.
pub open spec fn step_weight(ws: Seq<nat>, c: int, w: nat) -> nat {
    if c % (ws.len() as int) == 0 {
        if w == 0 {
            round_start_weight(ws)
        } else {
            (w - round_step(ws)) as nat
        }
    } else {
        w
    }
}

/// The step at counter `c` would lower the threshold below zero.
pub open spec fn step_underflows(ws: Seq<nat>, c: int, w: nat) -> bool {
    c % (ws.len() as int) == 0 && w != 0 && w < round_step(ws)
}

/// The step at counter `c` chooses its server.
pub open spec fn step_hits(ws: Seq<nat>, c: int, w: nat) -> bool {
    ws[c % (ws.len() as int)] >= step_weight(ws, c, w)
}

/// The servers chosen during `s` steps of the counter from `c` with
/// threshold `w`.
pub open spec fn chosen_in_steps(ws: Seq<nat>, c: int, w: nat, s: nat) -> Seq<int>
    decreases s,
{
    if s == 0 {
        seq![]
    } else {
        let rest = chosen_in_steps(ws, c + 1, step_weight(ws, c, w), (s - 1) as nat);
        if step_hits(ws, c, w) {
            seq![c % (ws.len() as int)] + rest
        } else {
            rest
        }
    }
}

/// The threshold after `s` steps.
pub open spec fn weight_after_steps(ws: Seq<nat>, c: int, w: nat, s: nat) -> nat
    decreases s,
{
    if s == 0 {
        w
    } else {
        weight_after_steps(ws, c + 1, step_weight(ws, c, w), (s - 1) as nat)
    }
}

/// None of the next `s` steps underflows.
pub open spec fn steps_ok(ws: Seq<nat>, c: int, w: nat, s: nat) -> bool
    decreases s,
{
    s == 0 || (!step_underflows(ws, c, w) && steps_ok(ws, c + 1, step_weight(ws, c, w), (s - 1) as nat))
}

/// The servers chosen by `k` consecutive selections from counter `c` and
/// threshold `w` (fewer if a selection does not end).
pub open spec fn wrr_selections(ws: Seq<nat>, c: usize, w: nat, k: nat) -> Seq<int>
    decreases k,
{
    if k == 0 {
        seq![]
    } else {
        match wrr_outcome(ws, c, w) {
            WrrOutcome::Chosen { index, counter, weight } => seq![index] + wrr_selections(
                ws,
                counter,
                weight,
                (k - 1) as nat,
            ),
            _ => seq![],
        }
    }
}

/// Selections depend on the state only through the next outcome.
proof fn lemma_selections_by_outcome(ws: Seq<nat>, c1: usize, w1: nat, c2: usize, w2: nat, k: nat)
    requires
        wrr_outcome(ws, c1, w1) == wrr_outcome(ws, c2, w2),
    ensures
        wrr_selections(ws, c1, w1, k) == wrr_selections(ws, c2, w2, k),
{
}

/// Selections walk the steps: when none of `s` steps underflows, the first
/// selections, as many as there are choices along those steps, are exactly
/// the servers chosen along them.
pub proof fn lemma_selections_are_steps(ws: Seq<nat>, c: usize, w: nat, s: nat)
    requires
        ws.len() > 0,
        round_step(ws) > 0,
        c + s <= usize::MAX,
        steps_ok(ws, c as int, w, s),
    ensures
        wrr_selections(ws, c, w, chosen_in_steps(ws, c as int, w, s).len()) == chosen_in_steps(
            ws,
            c as int,
            w,
            s,
        ),
    decreases s,
{
    if s == 0 {
        assert(chosen_in_steps(ws, c as int, w, s) =~= Seq::<int>::empty());
    } else {
        let n = ws.len();
        let w1 = step_weight(ws, c as int, w);
        let c1 = c.wrapping_add(1);
        assert(c1 == c + 1);
        let rest = chosen_in_steps(ws, c + 1, w1, (s - 1) as nat);
        lemma_selections_are_steps(ws, c1, w1, (s - 1) as nat);
        if step_hits(ws, c as int, w) {
            assert(wrr_outcome(ws, c, w) == WrrOutcome::Chosen {
                index: c as int % n as int,
                counter: c1,
                weight: w1,
            });
            assert(chosen_in_steps(ws, c as int, w, s) == seq![c as int % n as int] + rest);
            assert(wrr_selections(ws, c, w, rest.len() + 1) == seq![c as int % n as int] + wrr_selections(
                ws,
                c1,
                w1,
                rest.len(),
            ));
        } else {
            assert(wrr_outcome(ws, c, w) == wrr_outcome(ws, c1, w1));
            lemma_selections_by_outcome(ws, c, w, c1, w1, rest.len());
        }
    }
}

/// Steps split: `a + b` steps are `a` steps followed by `b` steps.
pub proof fn lemma_steps_split(ws: Seq<nat>, c: int, w: nat, a: nat, b: nat)
    ensures
        chosen_in_steps(ws, c, w, a + b) == chosen_in_steps(ws, c, w, a) + chosen_in_steps(
            ws,
            c + a,
            weight_after_steps(ws, c, w, a),
            b,
        ),
        weight_after_steps(ws, c, w, a + b) == weight_after_steps(
            ws,
            c + a,
            weight_after_steps(ws, c, w, a),
            b,
        ),
        steps_ok(ws, c, w, a + b) == (steps_ok(ws, c, w, a) && steps_ok(
            ws,
            c + a,
            weight_after_steps(ws, c, w, a),
            b,
        )),
    decreases a,
{
    if a > 0 {
        let w1 = step_weight(ws, c, w);
        lemma_steps_split(ws, c + 1, w1, (a - 1) as nat, b);
        assert((a + b - 1) as nat == (a - 1) as nat + b);
        if step_hits(ws, c, w) {
            assert(chosen_in_steps(ws, c, w, a + b) =~= chosen_in_steps(ws, c, w, a) + chosen_in_steps(
                ws,
                c + a,
                weight_after_steps(ws, c, w, a),
                b,
            ));
        }
    } else {
        assert(chosen_in_steps(ws, c, w, 0) =~= Seq::<int>::empty());
        assert(chosen_in_steps(ws, c, w, a + b) =~= chosen_in_steps(ws, c, w, a) + chosen_in_steps(
            ws,
            c + a,
            weight_after_steps(ws, c, w, a),
            b,
        ));
    }
}

/// The servers from position `r` on whose weight reaches `t`, in order.
pub open spec fn chosen_in_round(ws: Seq<nat>, t: nat, r: nat) -> Seq<int>
    decreases ws.len() - r,
{
    if r >= ws.len() {
        seq![]
    } else {
        let rest = chosen_in_round(ws, t, r + 1);
        if ws[r as int] >= t {
            seq![r as int] + rest
        } else {
            rest
        }
    }
}

/// The rest of a round, from position `r` on, chooses the servers from `r`
/// on whose weight reaches the threshold, which stays put.
proof fn lemma_round_tail(ws: Seq<nat>, c: int, t: nat, r: nat)
    requires
        ws.len() > 0,
        c >= 0,
        c % (ws.len() as int) == 0,
        1 <= r <= ws.len(),
    ensures
        chosen_in_steps(ws, c + r, t, (ws.len() - r) as nat) == chosen_in_round(ws, t, r),
        weight_after_steps(ws, c + r, t, (ws.len() - r) as nat) == t,
        steps_ok(ws, c + r, t, (ws.len() - r) as nat),
    decreases ws.len() - r,
{
    let n = ws.len() as int;
    if r < n {
        assert((c + r) % n == r) by {
            vstd::arithmetic::div_mod::lemma_fundamental_div_mod(c, n);
            let q = c / n;
            assert(c + r == n * q + r);
            vstd::arithmetic::div_mod::lemma_mod_multiples_vanish(q, r as int, n);
            vstd::arithmetic::div_mod::lemma_small_mod(r, n as nat);
        }
        lemma_round_tail(ws, c, t, r + 1);
        assert(c + r + 1 == c + (r + 1));
        assert((ws.len() - r - 1) as nat == (ws.len() - (r + 1)) as nat);
    }
}

/// A round from the first server: its first step sets the threshold, then
/// every server whose weight reaches it is chosen, in order.
pub proof fn lemma_round(ws: Seq<nat>, c: int, w: nat)
    requires
        ws.len() > 0,
        c >= 0,
        c % (ws.len() as int) == 0,
        !step_underflows(ws, c, w),
    ensures
        chosen_in_steps(ws, c, w, ws.len()) == chosen_in_round(ws, step_weight(ws, c, w), 0),
        weight_after_steps(ws, c, w, ws.len()) == step_weight(ws, c, w),
        steps_ok(ws, c, w, ws.len()),
{
    let t = step_weight(ws, c, w);
    lemma_round_tail(ws, c, t, 1);
    assert(c + 1 == c + 1int);
}

/// The threshold of the next round.
pub open spec fn next_round_weight(ws: Seq<nat>, w: nat) -> nat {
    if w == 0 {
        round_start_weight(ws)
    } else {
        (w - round_step(ws)) as nat
    }
}

/// The servers chosen in `k` whole rounds after threshold `w`.
pub open spec fn chosen_in_rounds(ws: Seq<nat>, w: nat, k: nat) -> Seq<int>
    decreases k,
{
    if k == 0 {
        seq![]
    } else {
        let t = next_round_weight(ws, w);
        chosen_in_round(ws, t, 0) + chosen_in_rounds(ws, t, (k - 1) as nat)
    }
}

/// The threshold after `k` whole rounds.
pub open spec fn weight_after_rounds(ws: Seq<nat>, w: nat, k: nat) -> nat
    decreases k,
{
    if k == 0 {
        w
    } else {
        weight_after_rounds(ws, next_round_weight(ws, w), (k - 1) as nat)
    }
}


/// `k` whole rounds of steps from the first server choose, round by round,
/// the servers whose weight reaches each round's threshold.
pub proof fn lemma_rounds(ws: Seq<nat>, c: int, w: nat, k: nat)
    requires
        ws.len() > 0,
        c >= 0,
        c % (ws.len() as int) == 0,
        round_step(ws) > 0,
        w % round_step(ws) == 0,
        round_start_weight(ws) % round_step(ws) == 0,
    ensures
        chosen_in_steps(ws, c, w, ws.len() * k) == chosen_in_rounds(ws, w, k),
        weight_after_steps(ws, c, w, ws.len() * k) == weight_after_rounds(ws, w, k),
        steps_ok(ws, c, w, ws.len() * k),
    decreases k,
{
    let n = ws.len();
    let g = round_step(ws);
    if k == 0 {
        assert(n * k == 0) by (nonlinear_arith)
            requires
                k == 0,
        ;
        assert(chosen_in_steps(ws, c, w, 0) =~= Seq::<int>::empty());
    } else {
        assert(!step_underflows(ws, c, w)) by {
            if w != 0 && w < g {
                vstd::arithmetic::div_mod::lemma_small_mod(w, g);
            }
        }
        lemma_round(ws, c, w);
        let t = step_weight(ws, c, w);
        assert(t == next_round_weight(ws, w));
        assert(t % g == 0) by {
            if w != 0 {
                vstd::arithmetic::div_mod::lemma_mod_sub_multiples_vanish(w as int, g as int);
            }
        }
        let rest = (n * (k - 1)) as nat;
        assert(n * k == n + rest) by (nonlinear_arith)
            requires
                rest == n * (k - 1),
                k > 0,
        ;
        lemma_steps_split(ws, c, w, n, rest);
        assert((c + n) % (n as int) == 0) by {
            vstd::arithmetic::div_mod::lemma_mod_add_multiples_vanish(c, n as int);
        }
        lemma_rounds(ws, c + n, t, (k - 1) as nat);
    }
}

/// A round chooses a server once when its weight reaches the threshold.
proof fn lemma_round_occurrences(ws: Seq<nat>, t: nat, r: nat, i: int)
    requires
        0 <= i < ws.len(),
    ensures
        occurrences(chosen_in_round(ws, t, r), i) == if r <= i && ws[i] >= t {
            1nat
        } else {
            0nat
        },
    decreases ws.len() - r,
{
    if r < ws.len() {
        lemma_round_occurrences(ws, t, r + 1, i);
        let rest = chosen_in_round(ws, t, r + 1);
        if ws[r as int] >= t {
            assert((seq![r as int] + rest).drop_first() =~= rest);
        }
    }
}

/// Counting over the last `d` rounds of a cycle (thresholds `(d - 1) * g`
/// down to 0): a server of weight `a * g` is chosen `min(d, a + 1)` times.
proof fn lemma_count_rounds(ws: Seq<nat>, d: nat, i: int, a: nat)
    requires
        0 <= i < ws.len(),
        round_step(ws) > 0,
        ws[i] == a * round_step(ws),
    ensures
        occurrences(chosen_in_rounds(ws, d * round_step(ws), d), i) == if d <= a + 1 {
            d
        } else {
            a + 1
        },
    decreases d,
{
    let g = round_step(ws);
    if d > 0 {
        assert(d * g != 0) by (nonlinear_arith)
            requires
                d > 0,
                g > 0,
        ;
        let t = ((d - 1) * g) as nat;
        assert(next_round_weight(ws, d * g) == t) by (nonlinear_arith)
            requires
                d * g != 0,
                next_round_weight(ws, d * g) == (d * g - g) as nat,
                t == (d - 1) * g,
                d > 0,
        ;
        lemma_count_rounds(ws, (d - 1) as nat, i, a);
        lemma_round_occurrences(ws, t, 0, i);
        lemma_occurrences_concat(chosen_in_round(ws, t, 0), chosen_in_rounds(ws, t, (d - 1) as nat), i);
        assert((ws[i] >= t) == (a >= d - 1)) by (nonlinear_arith)
            requires
                ws[i] == a * g,
                t == (d - 1) * g,
                g > 0,
                d > 0,
        ;
    }
}


/// The number of selections in one cycle of thresholds, from zero back to
/// zero.
pub open spec fn wrr_cycle_length(ws: Seq<nat>) -> nat {
    chosen_in_rounds(ws, 0, round_start_weight(ws) / round_step(ws) + 1).len()
}

/// Weighted round robin shares the selections by weight: a new balancer
/// (counter and threshold at zero) over a fixed list of servers whose gcd
/// `g` is positive chooses, in its first `wrr_cycle_length` selections, each
/// server of weight `w` exactly `w / g + 1` times (once per threshold from
/// the largest weight down to 0 that `w` reaches).
pub proof fn lemma_wrr_cycle_share(ws: Seq<nat>, i: int)
    requires
        ws.len() > 0,
        round_step(ws) > 0,
        0 <= i < ws.len(),
        ws.len() * (round_start_weight(ws) / round_step(ws) + 1) <= usize::MAX,
    ensures
        occurrences(wrr_selections(ws, 0, 0, wrr_cycle_length(ws)), i) == ws[i] / round_step(ws) + 1,
{
    let n = ws.len();
    let g = round_step(ws);
    let m = round_start_weight(ws);
    let big_m = m / g;
    let a = ws[i] / g;
    lemma_seq_max(ws);
    lemma_gcd_fold_divides(ws);
    let j = choose|j: int| 0 <= j < ws.len() && ws[j] == seq_max(ws);
    assert(ws[j] % g == 0);
    assert(m % g == 0);
    assert(ws[i] % g == 0);
    vstd::arithmetic::div_mod::lemma_fundamental_div_mod(m as int, g as int);
    vstd::arithmetic::div_mod::lemma_fundamental_div_mod(ws[i] as int, g as int);
    assert(m == big_m * g);
    assert(ws[i] == a * g);
    assert(a <= big_m) by (nonlinear_arith)
        requires
            ws[i] <= m,
            m == big_m * g,
            ws[i] == a * g,
            g > 0,
    ;
    let s = n * (big_m + 1);
    lemma_rounds(ws, 0, 0, big_m + 1);
    lemma_selections_are_steps(ws, 0, 0, s);
    // the first round has threshold m, the others (big_m - 1) * g down to 0
    assert(next_round_weight(ws, 0) == big_m * g);
    lemma_round_occurrences(ws, m, 0, i);
    lemma_count_rounds(ws, big_m, i, a);
    lemma_occurrences_concat(chosen_in_round(ws, m, 0), chosen_in_rounds(ws, m, big_m), i);
    assert((ws[i] >= m) == (a >= big_m)) by (nonlinear_arith)
        requires
            ws[i] == a * g,
            m == big_m * g,
            g > 0,
    ;
}

} // verus!
