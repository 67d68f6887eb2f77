use vstd::prelude::*;
use crate::arith::{gcd_fold, seq_max, lemma_gcd_fold_divides, lemma_gcd_fold_zero, lemma_seq_max, occurrences, lemma_occurrences_concat};
use crate::weighted_load_balancer::{
    BackendPick, pick_run, pick_good, lemma_pick_settles, lemma_pick_run_unique, lemma_pick_run_index,
    WeightedLoadBalancer,
};

verus! {

/// Position and threshold after one step of the weighted load balancer from
/// position `i` and threshold `w` among `n` backends: the position moves on
/// cyclically; on reaching the first backend the threshold drops by `g`,
/// starting again from `m` when it reaches zero.
pub open spec fn pick_step(n: nat, m: nat, g: nat, i: nat, w: nat) -> (nat, nat) {
    let i2 = ((i + 1) % n) as nat;
    (
        i2,
        if i2 == 0 {
            if w - g == 0 {
                m
            } else {
                (w - g) as nat
            }
        } else {
            w
        },
    )
}

/// The backends picked during `s` steps: a step picks the backend it reaches
/// when that backend's weight is at least the threshold after the step.
pub open spec fn step_picks(ws: Seq<nat>, m: nat, g: nat, i: nat, w: nat, s: nat) -> Seq<int>
    decreases s,
{
    if s == 0 || ws.len() == 0 {
        Seq::empty()
    } else {
        let st = pick_step(ws.len(), m, g, i, w);
        (if st.1 <= ws[st.0 as int] {
            seq![st.0 as int]
        } else {
            Seq::<int>::empty()
        }) + step_picks(ws, m, g, st.0, st.1, (s - 1) as nat)
    }
}

/// Position and threshold after `s` steps.
pub open spec fn state_after_steps(ws: Seq<nat>, m: nat, g: nat, i: nat, w: nat, s: nat) -> (nat, nat)
    decreases s,
{
    if s == 0 || ws.len() == 0 {
        (i, w)
    } else {
        let st = pick_step(ws.len(), m, g, i, w);
        state_after_steps(ws, m, g, st.0, st.1, (s - 1) as nat)
    }
}

/// The backends that `k` calls of `get_next_backend` in a row pick from
/// position `i` and threshold `w`.
pub open spec fn picks_in_turn(ws: Seq<nat>, m: nat, g: nat, i: nat, w: nat, k: nat) -> Seq<int>
    decreases k,
{
    if k == 0 {
        Seq::empty()
    } else {
        match pick_run(ws, m, g, i, w, choose|f: nat| pick_run(ws, m, g, i, w, f) is Picked) {
            BackendPick::Picked { index, weight } => seq![index] + picks_in_turn(
                ws,
                m,
                g,
                index as nat,
                weight,
                (k - 1) as nat,
            ),
            _ => Seq::empty(),
        }
    }
}

/// The weights counted in units of `g`, summed over the first `k` backends.
pub open spec fn weight_units(ws: Seq<nat>, g: nat, k: nat) -> nat
    decreases k,
{
    if k == 0 {
        0
    } else {
        weight_units(ws, g, (k - 1) as nat) + ws[k - 1] / g
    }
}

/// Steps split into a first run and the run from where it ends.
proof fn lemma_steps_split(ws: Seq<nat>, m: nat, g: nat, i: nat, w: nat, a: nat, b: nat)
    ensures
        ({
            let st = state_after_steps(ws, m, g, i, w, a);
            &&& step_picks(ws, m, g, i, w, a + b) == step_picks(ws, m, g, i, w, a) + step_picks(
                ws,
                m,
                g,
                st.0,
                st.1,
                b,
            )
            &&& state_after_steps(ws, m, g, i, w, a + b) == state_after_steps(ws, m, g, st.0, st.1, b)
        }),
    decreases a,
{
    if ws.len() == 0 {
        assert(step_picks(ws, m, g, i, w, a + b) =~= Seq::<int>::empty());
        assert(step_picks(ws, m, g, i, w, a) =~= Seq::<int>::empty());
    } else if a == 0 {
        assert(step_picks(ws, m, g, i, w, 0) =~= Seq::<int>::empty());
        assert(step_picks(ws, m, g, i, w, a + b) =~= Seq::<int>::empty() + step_picks(ws, m, g, i, w, b));
    } else {
        let st = pick_step(ws.len(), m, g, i, w);
        lemma_steps_split(ws, m, g, st.0, st.1, (a - 1) as nat, b);
        assert((a + b - 1) as nat == (a - 1) as nat + b);
        let head = if st.1 <= ws[st.0 as int] {
            seq![st.0 as int]
        } else {
            Seq::<int>::empty()
        };
        let rest = state_after_steps(ws, m, g, st.0, st.1, (a - 1) as nat);
        assert(step_picks(ws, m, g, i, w, a + b) =~= head + step_picks(ws, m, g, st.0, st.1, (a - 1) as nat)
            + step_picks(ws, m, g, rest.0, rest.1, b));
    }
}

/// A pick of `get_next_backend` is the only pick of the steps it takes.
proof fn lemma_pick_steps(ws: Seq<nat>, m: nat, g: nat, i: nat, w: nat, f: nat) -> (s: nat)
    requires
        pick_run(ws, m, g, i, w, f) is Picked,
    ensures
        pick_run(ws, m, g, i, w, f) matches BackendPick::Picked { index, weight } && {
            &&& 1 <= s <= f
            &&& step_picks(ws, m, g, i, w, s) == seq![index]
            &&& step_picks(ws, m, g, i, w, (s - 1) as nat) == Seq::<int>::empty()
            &&& state_after_steps(ws, m, g, i, w, s) == (index as nat, weight)
        },
    decreases f,
{
    let n = ws.len();
    assert(f > 0 && n > 0);
    let st = pick_step(n, m, g, i, w);
    assert(step_picks(ws, m, g, i, w, 0) =~= Seq::<int>::empty());
    assert(!(st.0 == 0 && w < g));
    if st.1 <= ws[st.0 as int] {
        assert(pick_run(ws, m, g, i, w, f) == BackendPick::Picked { index: st.0 as int, weight: st.1 });
        assert(step_picks(ws, m, g, st.0, st.1, 0) =~= Seq::<int>::empty());
        assert(step_picks(ws, m, g, i, w, 1) =~= seq![st.0 as int]);
        assert(state_after_steps(ws, m, g, i, w, 1) == state_after_steps(ws, m, g, st.0, st.1, 0));
        1
    } else {
        assert(pick_run(ws, m, g, i, w, f) == pick_run(ws, m, g, st.0, st.1, (f - 1) as nat));
        let s1 = lemma_pick_steps(ws, m, g, st.0, st.1, (f - 1) as nat);
        assert(state_after_steps(ws, m, g, i, w, s1 + 1) == state_after_steps(ws, m, g, st.0, st.1, s1));
        assert(step_picks(ws, m, g, i, w, s1 + 1) =~= step_picks(ws, m, g, st.0, st.1, s1));
        assert(step_picks(ws, m, g, i, w, s1) =~= step_picks(ws, m, g, st.0, st.1, (s1 - 1) as nat));
        s1 + 1
    }
}

/// Calls of `get_next_backend` from a good threshold pick, in order, the
/// backends that the steps pick.
proof fn lemma_calls_are_steps(ws: Seq<nat>, m: nat, i: nat, w: nat, k: nat, big: nat)
    requires
        ws.len() > 0,
        i < ws.len(),
        pick_good(gcd_fold(ws), m, w),
        step_picks(ws, m, gcd_fold(ws), i, w, big).len() >= k,
    ensures
        picks_in_turn(ws, m, gcd_fold(ws), i, w, k) == step_picks(ws, m, gcd_fold(ws), i, w, big).take(k as int),
    decreases k,
{
    let g = gcd_fold(ws);
    if k == 0 {
        assert(step_picks(ws, m, g, i, w, big).take(0) =~= Seq::<int>::empty());
    } else {
        let f0 = lemma_pick_settles(ws, m, i, w);
        let fc = choose|f: nat| pick_run(ws, m, g, i, w, f) is Picked;
        lemma_pick_run_unique(ws, m, g, i, w, f0, fc);
        lemma_pick_run_index(ws, m, g, i, w, fc);
        let s = lemma_pick_steps(ws, m, g, i, w, fc);
        let (index, weight) = match pick_run(ws, m, g, i, w, fc) {
            BackendPick::Picked { index, weight } => (index, weight),
            _ => (0, 0),
        };
        if big < s {
            lemma_steps_split(ws, m, g, i, w, big, (s - 1 - big) as nat);
            assert((big + (s - 1 - big) as nat) as nat == (s - 1) as nat);
            assert(false);
        }
        lemma_steps_split(ws, m, g, i, w, s, (big - s) as nat);
        assert((s + (big - s) as nat) as nat == big);
        let rest = step_picks(ws, m, g, index as nat, weight, (big - s) as nat);
        lemma_calls_are_steps(ws, m, index as nat, weight, (k - 1) as nat, (big - s) as nat);
        assert(step_picks(ws, m, g, i, w, big) == seq![index] + rest);
        assert((seq![index] + rest).take(k as int) =~= seq![index] + rest.take(k - 1));
    }
}

/// Backends from position `r` on whose weight reaches `t`.
pub open spec fn reaching_from(ws: Seq<nat>, t: nat, r: nat) -> Seq<int>
    decreases ws.len() - r,
{
    if r >= ws.len() {
        Seq::empty()
    } else {
        (if t <= ws[r as int] {
            seq![r as int]
        } else {
            Seq::<int>::empty()
        }) + reaching_from(ws, t, r + 1)
    }
}

proof fn lemma_occurrences_single(x: int, p: int)
    ensures
        occurrences(seq![x], p) == if x == p {
            1nat
        } else {
            0nat
        },
        occurrences(Seq::<int>::empty(), p) == 0,
{
    assert(occurrences(Seq::<int>::empty(), p) == 0);
    assert(seq![x].drop_first() =~= Seq::<int>::empty());
    assert(seq![x][0] == x);
}

proof fn lemma_reaching_occurrences(ws: Seq<nat>, t: nat, r: nat, p: int)
    ensures
        occurrences(reaching_from(ws, t, r), p) == if r <= p < ws.len() && t <= ws[p] {
            1nat
        } else {
            0nat
        },
    decreases ws.len() - r,
{
    if r < ws.len() {
        let head = if t <= ws[r as int] {
            seq![r as int]
        } else {
            Seq::<int>::empty()
        };
        lemma_occurrences_concat(head, reaching_from(ws, t, r + 1), p);
        lemma_occurrences_single(r as int, p);
        lemma_reaching_occurrences(ws, t, r + 1, p);
    } else {
        lemma_occurrences_single(0, p);
    }
}

/// From position `i` at threshold `t`, the steps up to the last backend pick
/// the later backends whose weight reaches `t`.
proof fn lemma_round_tail(ws: Seq<nat>, m: nat, g: nat, i: nat, t: nat)
    requires
        i < ws.len(),
    ensures
        step_picks(ws, m, g, i, t, (ws.len() - 1 - i) as nat) == reaching_from(ws, t, i + 1),
        state_after_steps(ws, m, g, i, t, (ws.len() - 1 - i) as nat) == ((ws.len() - 1) as nat, t),
    decreases ws.len() - i,
{
    let n = ws.len();
    if i + 1 < n {
        vstd::arithmetic::div_mod::lemma_small_mod((i + 1) as nat, n);
        lemma_round_tail(ws, m, g, i + 1, t);
        assert(((n - 1 - i) as nat - 1) as nat == (n - 1 - (i + 1)) as nat);
        assert(step_picks(ws, m, g, i, t, (n - 1 - i) as nat) =~= reaching_from(ws, t, i + 1));
    } else {
        assert(step_picks(ws, m, g, i, t, 0) =~= Seq::<int>::empty());
        assert(reaching_from(ws, t, i + 1) =~= Seq::<int>::empty());
    }
}

/// The threshold after a step onto the first backend from threshold `t`.
pub open spec fn next_threshold(m: nat, g: nat, t: nat) -> nat {
    if t - g == 0 {
        m
    } else {
        (t - g) as nat
    }
}

/// One round: from the first backend at threshold `t`, `n` steps pick the
/// other backends whose weight reaches `t`, then the first backend if its
/// weight reaches the next threshold, and end back at the first backend.
proof fn lemma_round(ws: Seq<nat>, m: nat, g: nat, t: nat)
    requires
        ws.len() > 0,
    ensures
        step_picks(ws, m, g, 0, t, ws.len()) == reaching_from(ws, t, 1) + (if next_threshold(m, g, t) <= ws[0] {
            seq![0int]
        } else {
            Seq::<int>::empty()
        }),
        state_after_steps(ws, m, g, 0, t, ws.len()) == (0nat, next_threshold(m, g, t)),
{
    let n = ws.len();
    lemma_round_tail(ws, m, g, 0, t);
    lemma_steps_split(ws, m, g, 0, t, (n - 1) as nat, 1);
    assert(((n - 1) as nat + 1) as nat == n);
    vstd::arithmetic::div_mod::lemma_mod_self_0(n as int);
    let st = pick_step(n, m, g, (n - 1) as nat, t);
    assert(st.0 == 0);
    assert(step_picks(ws, m, g, 0, st.1, 0) =~= Seq::<int>::empty());
    assert(state_after_steps(ws, m, g, (n - 1) as nat, t, 1) == state_after_steps(ws, m, g, 0, st.1, 0));
    assert(step_picks(ws, m, g, (n - 1) as nat, t, 1) =~= (if next_threshold(m, g, t) <= ws[0] {
        seq![0int]
    } else {
        Seq::<int>::empty()
    }));
}

/// `j * g` reaches a multiple `x` of `g` exactly when `j` is at most `x / g`.
proof fn lemma_units(x: nat, g: nat, j: nat)
    requires
        g > 0,
        x % g == 0,
    ensures
        (j * g <= x) == (j <= x / g),
        x == (x / g) * g,
{
    vstd::arithmetic::div_mod::lemma_fundamental_div_mod(x as int, g as int);
    let q = x / g;
    assert(x == q * g) by (nonlinear_arith)
        requires
            x == g * q + 0,
    ;
    assert((j * g <= x) == (j <= q)) by (nonlinear_arith)
        requires
            x == q * g,
            g > 0,
    ;
}

/// `j` rounds from the first backend at threshold `j * g`: each later
/// backend is picked once per threshold of the rounds that its weight
/// reaches, the first backend once per threshold that follows one of them.
proof fn lemma_rounds(ws: Seq<nat>, m: nat, g: nat, j: nat)
    requires
        ws.len() > 0,
        g > 0,
        j >= 1,
        forall|p: int| 0 <= p < ws.len() ==> #[trigger] ws[p] % g == 0,
    ensures
        forall|p: int|
            1 <= p < ws.len() ==> #[trigger] occurrences(step_picks(ws, m, g, 0, j * g, ws.len() * j), p) == if ws[p]
                / g >= j {
                j
            } else {
                ws[p] / g
            },
        occurrences(step_picks(ws, m, g, 0, j * g, ws.len() * j), 0) == (if ws[0] / g >= (j - 1) as nat {
            (j - 1) as nat
        } else {
            ws[0] / g
        }) + (if m <= ws[0] {
            1nat
        } else {
            0nat
        }),
        state_after_steps(ws, m, g, 0, j * g, ws.len() * j) == (0nat, m),
    decreases j,
{
    let n = ws.len();
    let t = j * g;
    lemma_round(ws, m, g, t);
    let tail0 = if next_threshold(m, g, t) <= ws[0] {
        seq![0int]
    } else {
        Seq::<int>::empty()
    };
    assert(n * j == n + n * (j - 1) as nat) by (nonlinear_arith)
        requires
            j >= 1,
    ;
    lemma_steps_split(ws, m, g, 0, t, n, n * (j - 1) as nat);
    let nt = next_threshold(m, g, t);
    let rest = step_picks(ws, m, g, 0, nt, n * (j - 1) as nat);
    assert(step_picks(ws, m, g, 0, t, n * j) == reaching_from(ws, t, 1) + tail0 + rest);
    if j == 1 {
        assert(t == g) by (nonlinear_arith)
            requires
                t == j * g,
                j == 1,
        ;
        assert(nt == m);
        assert(n * (j - 1) as nat == 0) by (nonlinear_arith)
            requires
                j == 1,
        ;
        assert(rest =~= Seq::<int>::empty());
        assert forall|p: int| 1 <= p < n implies #[trigger] occurrences(
            step_picks(ws, m, g, 0, j * g, n * j),
            p,
        ) == if ws[p] / g >= j {
            j
        } else {
            ws[p] / g
        } by {
            lemma_occurrences_concat(reaching_from(ws, t, 1) + tail0, rest, p);
            lemma_occurrences_concat(reaching_from(ws, t, 1), tail0, p);
            lemma_reaching_occurrences(ws, t, 1, p);
            lemma_occurrences_single(0, p);
            lemma_units(ws[p], g, 1);
        }
        lemma_occurrences_concat(reaching_from(ws, t, 1) + tail0, rest, 0);
        lemma_occurrences_concat(reaching_from(ws, t, 1), tail0, 0);
        lemma_reaching_occurrences(ws, t, 1, 0);
        lemma_occurrences_single(0, 0);
    } else {
        let j1 = (j - 1) as nat;
        assert(t - g == j1 * g) by (nonlinear_arith)
            requires
                t == j * g,
                j1 == j - 1,
        ;
        assert(j1 * g > 0) by (nonlinear_arith)
            requires
                j1 >= 1,
                g > 0,
        ;
        assert(nt == j1 * g);
        assert(n * (j - 1) as nat == n * j1);
        lemma_rounds(ws, m, g, j1);
        assert forall|p: int| 1 <= p < n implies #[trigger] occurrences(
            step_picks(ws, m, g, 0, j * g, n * j),
            p,
        ) == if ws[p] / g >= j {
            j
        } else {
            ws[p] / g
        } by {
            lemma_occurrences_concat(reaching_from(ws, t, 1) + tail0, rest, p);
            lemma_occurrences_concat(reaching_from(ws, t, 1), tail0, p);
            lemma_reaching_occurrences(ws, t, 1, p);
            lemma_occurrences_single(0, p);
            lemma_units(ws[p], g, j);
            assert(occurrences(rest, p) == if ws[p] / g >= j1 {
                j1
            } else {
                ws[p] / g
            });
        }
        lemma_occurrences_concat(reaching_from(ws, t, 1) + tail0, rest, 0);
        lemma_occurrences_concat(reaching_from(ws, t, 1), tail0, 0);
        lemma_reaching_occurrences(ws, t, 1, 0);
        lemma_occurrences_single(0, 0);
        lemma_units(ws[0], g, j1);
    }
}

/// Every step pick is one of the backends.
proof fn lemma_step_picks_in_range(ws: Seq<nat>, m: nat, g: nat, i: nat, w: nat, s: nat)
    ensures
        forall|k: int|
            0 <= k < step_picks(ws, m, g, i, w, s).len() ==> 0 <= #[trigger] step_picks(ws, m, g, i, w, s)[k]
                < ws.len(),
    decreases s,
{
    if s > 0 && ws.len() > 0 {
        let st = pick_step(ws.len(), m, g, i, w);
        vstd::arithmetic::div_mod::lemma_mod_bound((i + 1) as int, ws.len() as int);
        lemma_step_picks_in_range(ws, m, g, st.0, st.1, (s - 1) as nat);
        let head = if st.1 <= ws[st.0 as int] {
            seq![st.0 as int]
        } else {
            Seq::<int>::empty()
        };
        let rest = step_picks(ws, m, g, st.0, st.1, (s - 1) as nat);
        assert forall|k: int| 0 <= k < step_picks(ws, m, g, i, w, s).len() implies 0
            <= #[trigger] step_picks(ws, m, g, i, w, s)[k] < ws.len() by {
            if k >= head.len() {
                assert(step_picks(ws, m, g, i, w, s)[k] == rest[k - head.len()]);
            }
        }
    }
}

/// Occurrences of the first `k` values, summed.
pub open spec fn count_below(s: Seq<int>, k: nat) -> nat
    decreases k,
{
    if k == 0 {
        0
    } else {
        count_below(s, (k - 1) as nat) + occurrences(s, k - 1)
    }
}

proof fn lemma_count_below_first(s: Seq<int>, k: nat)
    requires
        s.len() > 0,
    ensures
        count_below(s, k) == count_below(s.drop_first(), k) + if 0 <= s[0] < k {
            1nat
        } else {
            0nat
        },
    decreases k,
{
    if k > 0 {
        lemma_count_below_first(s, (k - 1) as nat);
    }
}

/// A sequence of values below `k` is as long as their occurrences add up to.
proof fn lemma_count_below_len(s: Seq<int>, k: nat)
    requires
        forall|x: int| 0 <= x < s.len() ==> 0 <= #[trigger] s[x] < k,
    ensures
        s.len() == count_below(s, k),
    decreases s.len(),
{
    if s.len() == 0 {
        lemma_count_below_empty(s, k);
    } else {
        lemma_count_below_first(s, k);
        assert forall|x: int| 0 <= x < s.drop_first().len() implies 0 <= #[trigger] s.drop_first()[x] < k by {
            assert(s.drop_first()[x] == s[x + 1]);
        }
        lemma_count_below_len(s.drop_first(), k);
    }
}

proof fn lemma_count_below_empty(s: Seq<int>, k: nat)
    requires
        s.len() == 0,
    ensures
        count_below(s, k) == 0,
    decreases k,
{
    if k > 0 {
        lemma_count_below_empty(s, (k - 1) as nat);
    }
}

proof fn lemma_count_below_units(s: Seq<int>, ws: Seq<nat>, g: nat, k: nat)
    requires
        k <= ws.len(),
        forall|p: int| 0 <= p < k ==> #[trigger] occurrences(s, p) == ws[p] / g,
    ensures
        count_below(s, k) == weight_units(ws, g, k),
    decreases k,
{
    if k > 0 {
        lemma_count_below_units(s, ws, g, (k - 1) as nat);
        assert(occurrences(s, k - 1) == ws[k - 1] / g);
    }
}

/// Weighted picks come in proportion to the weights. Take backend weights
/// `ws` whose largest is positive, the start threshold `m` at that largest
/// weight and the gcd `g` of the weights as the step, as `new` sets them up.
/// From where `new` starts (the first backend, threshold `m`), the calls of
/// `get_next_backend` over one cycle of the threshold (from `m` down to `g`)
/// number the weights counted in units of `g`, and among them every backend
/// comes up exactly its weight divided by `g` times.
pub proof fn lemma_picks_in_proportion(ws: Seq<nat>, m: nat, p: int)
    requires
        ws.len() > 0,
        m == seq_max(ws),
        m > 0,
        0 <= p < ws.len(),
    ensures
        ({
            let g = gcd_fold(ws);
            let cycle = picks_in_turn(ws, m, g, 0, m, weight_units(ws, g, ws.len()));
            &&& g > 0
            &&& cycle.len() == weight_units(ws, g, ws.len())
            &&& occurrences(cycle, p) == ws[p] / g
        }),
{
    let g = gcd_fold(ws);
    let n = ws.len();
    lemma_seq_max(ws);
    lemma_gcd_fold_zero(ws);
    lemma_gcd_fold_divides(ws);
    let jm = choose|j: int| 0 <= j < ws.len() && ws[j] == seq_max(ws);
    assert(g > 0);
    assert(m % g == 0) by {
        assert(ws[jm] % g == 0);
    }
    let big_k = m / g;
    lemma_units(m, g, 1);
    assert(m >= g) by {
        if m < g {
            vstd::arithmetic::div_mod::lemma_small_mod(m, g);
        }
    }
    assert(1 * g == g);
    assert(big_k >= 1);
    assert(big_k * g == m) by (nonlinear_arith)
        requires
            m == (m / g) * g,
            big_k == m / g,
    ;
    lemma_rounds(ws, m, g, big_k);
    let steps = step_picks(ws, m, g, 0, m, n * big_k);
    // every backend comes up its weight in units of g times among the steps
    assert forall|q: int| 0 <= q < n implies #[trigger] occurrences(steps, q) == ws[q] / g by {
        assert(ws[q] <= m);
        assert(ws[q] % g == 0);
        lemma_units(ws[q], g, big_k);
        assert(ws[q] / g <= big_k) by {
            lemma_units(ws[q], g, ws[q] / g);
            assert((ws[q] / g) * g <= big_k * g);
            assert(ws[q] / g <= big_k) by (nonlinear_arith)
                requires
                    (ws[q] / g) * g <= big_k * g,
                    g > 0,
            ;
        }
        if q == 0 {
            lemma_units(ws[0], g, (big_k - 1) as nat);
            if ws[0] == m {
            } else {
                assert(ws[0] / g < big_k) by {
                    if ws[0] / g == big_k {
                        assert(ws[0] == (ws[0] / g) * g);
                    }
                }
            }
        }
    }
    lemma_step_picks_in_range(ws, m, g, 0, m, n * big_k);
    lemma_count_below_len(steps, n);
    lemma_count_below_units(steps, ws, g, n);
    let total = weight_units(ws, g, n);
    assert(pick_good(g, m, m));
    lemma_calls_are_steps(ws, m, 0, m, total, n * big_k);
    assert(steps.take(total as int) =~= steps);
}

/// Each call of `get_next_backend` takes the first of the picks in turn: the
/// pick it makes, after which the picks in turn go on from the position and
/// threshold it leaves.
pub proof fn lemma_call_takes_first_pick(lb: WeightedLoadBalancer, k: nat)
    requires
        lb.settles(),
    ensures
        lb.next_pick() matches BackendPick::Picked { index, weight } && picks_in_turn(
            lb.weights(),
            lb.max_weight(),
            lb.gcd_weight(),
            lb.current_index(),
            lb.current_weight(),
            k + 1,
        ) == seq![index] + picks_in_turn(
            lb.weights(),
            lb.max_weight(),
            lb.gcd_weight(),
            index as nat,
            weight,
            k,
        ),
{
    assert((k + 1 - 1) as nat == k);
}

} // verus!
