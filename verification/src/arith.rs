use vstd::prelude::*;

verus! {

/// Euclid's greatest common divisor, with `gcd(a, 0) == a`.
pub open spec fn spec_gcd(a: nat, b: nat) -> nat
    decreases b,
{
    if b == 0 {
        a
    } else {
        spec_gcd(b, a % b)
    }
}

/// `gcd` folded over a sequence from 0: the reduction of the sequence by `gcd`
/// when it is not empty, 0 when it is.
pub open spec fn gcd_fold(ws: Seq<nat>) -> nat
    decreases ws.len(),
{
    if ws.len() == 0 {
        0
    } else {
        spec_gcd(gcd_fold(ws.drop_last()), ws.last())
    }
}

/// Largest element of a sequence of naturals, 0 for the empty sequence.
pub open spec fn seq_max(ws: Seq<nat>) -> nat
    decreases ws.len(),
{
    if ws.len() == 0 {
        0
    } else {
        let m = seq_max(ws.drop_last());
        if ws.last() > m {
            ws.last()
        } else {
            m
        }
    }
}

/// The gcd is zero only for two zeros.
pub proof fn lemma_gcd_zero(a: nat, b: nat)
    ensures
        spec_gcd(a, b) == 0 <==> (a == 0 && b == 0),
    decreases b,
{
    if b != 0 {
        lemma_gcd_zero(b, a % b);
    }
}

/// The folded gcd is zero exactly when every element is zero.
pub proof fn lemma_gcd_fold_zero(ws: Seq<nat>)
    ensures
        gcd_fold(ws) == 0 <==> (forall|i: int| 0 <= i < ws.len() ==> ws[i] == 0),
    decreases ws.len(),
{
    if ws.len() > 0 {
        let init = ws.drop_last();
        lemma_gcd_fold_zero(init);
        lemma_gcd_zero(gcd_fold(init), ws.last());
        if gcd_fold(ws) == 0 {
            assert forall|i: int| 0 <= i < ws.len() implies ws[i] == 0 by {
                if i < ws.len() - 1 {
                    assert(init[i] == ws[i]);
                }
            }
        } else {
            if forall|i: int| 0 <= i < ws.len() ==> ws[i] == 0 {
                assert forall|i: int| 0 <= i < init.len() implies init[i] == 0 by {
                    assert(init[i] == ws[i]);
                }
                assert(ws[ws.len() - 1] == 0);
            }
        }
    }
}

/// Every element is at most the maximum, and a non-empty sequence holds its maximum.
pub proof fn lemma_seq_max(ws: Seq<nat>)
    ensures
        forall|i: int| 0 <= i < ws.len() ==> ws[i] <= seq_max(ws),
        ws.len() > 0 ==> exists|i: int| 0 <= i < ws.len() && ws[i] == seq_max(ws),
    decreases ws.len(),
{
    if ws.len() > 0 {
        let init = ws.drop_last();
        lemma_seq_max(init);
        assert forall|i: int| 0 <= i < ws.len() implies ws[i] <= seq_max(ws) by {
            if i < ws.len() - 1 {
                assert(init[i] == ws[i]);
            }
        }
        if ws.last() > seq_max(init) || init.len() == 0 {
            assert(ws[ws.len() - 1] == seq_max(ws));
        } else {
            let j = choose|j: int| 0 <= j < init.len() && init[j] == seq_max(init);
            assert(ws[j] == seq_max(ws));
        }
    }
}


/// An integer combination of two multiples of `d` is a multiple of `d`.
pub proof fn lemma_multiple_combination(d: int, x: int, y: int, p: int, q: int)
    requires
        d > 0,
        x % d == 0,
        y % d == 0,
    ensures
        (p * x + q * y) % d == 0,
{
    vstd::arithmetic::div_mod::lemma_fundamental_div_mod(x, d);
    vstd::arithmetic::div_mod::lemma_fundamental_div_mod(y, d);
    let kx = x / d;
    let ky = y / d;
    assert(p * x + q * y == (p * kx + q * ky) * d) by (nonlinear_arith)
        requires
            x == d * kx,
            y == d * ky,
    ;
    vstd::arithmetic::div_mod::lemma_mod_multiples_basic(p * kx + q * ky, d);
}

/// `spec_gcd(a, b)` is the greatest common divisor of `a` and `b`: it divides
/// both (when it is not zero), and every positive common divisor divides it.
pub proof fn lemma_gcd_divides(a: nat, b: nat)
    ensures
        spec_gcd(a, b) > 0 ==> a % spec_gcd(a, b) == 0 && b % spec_gcd(a, b) == 0,
    decreases b,
{
    let g = spec_gcd(a, b);
    if b == 0 {
        if g > 0 {
            vstd::arithmetic::div_mod::lemma_mod_self_0(a as int);
            vstd::arithmetic::div_mod::lemma_small_mod(0, g);
        }
    } else {
        let r = a % b;
        lemma_gcd_divides(b, r);
        if g > 0 {
            vstd::arithmetic::div_mod::lemma_fundamental_div_mod(a as int, b as int);
            lemma_multiple_combination(g as int, b as int, r as int, a as int / b as int, 1);
            assert(a as int == (a as int / b as int) * b + 1 * r) by (nonlinear_arith)
                requires
                    a as int == b * (a as int / b as int) + r,
            ;
        }
    }
}

/// Every positive common divisor of `a` and `b` divides `spec_gcd(a, b)`.
pub proof fn lemma_gcd_greatest(a: nat, b: nat, d: nat)
    requires
        d > 0,
        a % d == 0,
        b % d == 0,
    ensures
        spec_gcd(a, b) % d == 0,
    decreases b,
{
    if b != 0 {
        let r = a % b;
        vstd::arithmetic::div_mod::lemma_fundamental_div_mod(a as int, b as int);
        lemma_multiple_combination(d as int, a as int, b as int, 1, -(a as int / b as int));
        let q = -(a as int / b as int);
        assert(r as int == 1 * (a as int) + q * (b as int)) by (nonlinear_arith)
            requires
                a as int == b * (a as int / b as int) + r,
                q == -(a as int / b as int),
        ;
        assert((r as int) % (d as int) == 0);
        lemma_gcd_greatest(b, r, d);
    }
}

/// The folded gcd divides every element (when it is not zero).
pub proof fn lemma_gcd_fold_divides(ws: Seq<nat>)
    ensures
        gcd_fold(ws) > 0 ==> forall|i: int| 0 <= i < ws.len() ==> #[trigger] ws[i] % gcd_fold(ws) == 0,
    decreases ws.len(),
{
    if ws.len() > 0 {
        let init = ws.drop_last();
        let gi = gcd_fold(init);
        let g = gcd_fold(ws);
        lemma_gcd_fold_divides(init);
        lemma_gcd_divides(gi, ws.last());
        lemma_gcd_fold_zero(init);
        if g > 0 {
            assert forall|i: int| 0 <= i < ws.len() implies #[trigger] ws[i] % g == 0 by {
                if i < ws.len() - 1 {
                    assert(init[i] == ws[i]);
                    if gi == 0 {
                        assert(ws[i] == 0);
                        vstd::arithmetic::div_mod::lemma_small_mod(0, g);
                    } else {
                        assert(init[i] % gi == 0);
                        vstd::arithmetic::div_mod::lemma_fundamental_div_mod(ws[i] as int, gi as int);
                        lemma_multiple_combination(g as int, gi as int, 0, ws[i] as int / gi as int, 0);
                        assert(ws[i] as int == (ws[i] as int / gi as int) * gi + 0 * 0) by (nonlinear_arith)
                            requires
                                ws[i] as int == gi * (ws[i] as int / gi as int) + 0,
                        ;
                    }
                }
            }
        }
    }
}

/// Every positive common divisor of the elements divides the folded gcd.
pub proof fn lemma_gcd_fold_greatest(ws: Seq<nat>, d: nat)
    requires
        d > 0,
        forall|i: int| 0 <= i < ws.len() ==> #[trigger] ws[i] % d == 0,
    ensures
        gcd_fold(ws) % d == 0,
    decreases ws.len(),
{
    if ws.len() == 0 {
        vstd::arithmetic::div_mod::lemma_small_mod(0, d);
    } else {
        let init = ws.drop_last();
        assert forall|i: int| 0 <= i < init.len() implies #[trigger] init[i] % d == 0 by {
            assert(init[i] == ws[i]);
        }
        lemma_gcd_fold_greatest(init, d);
        assert(ws[ws.len() - 1] % d == 0);
        lemma_gcd_greatest(gcd_fold(init), ws.last(), d);
    }
}


/// Advancing a counter by one moves its slot among `n` to the next slot,
/// cyclically.
pub proof fn lemma_rotation_step(c: int, n: int)
    requires
        n > 0,
        c >= 0,
    ensures
        (c + 1) % n == ((c % n) + 1) % n,
{
    vstd::arithmetic::div_mod::lemma_add_mod_noop(c, 1, n);
    if n == 1 {
        vstd::arithmetic::div_mod::lemma_mod_self_0(1);
    } else {
        vstd::arithmetic::div_mod::lemma_small_mod(1, n as nat);
    }
}

/// The slot among `n` that counter `c` falls on.
pub open spec fn slot_of(c: int, n: int) -> int {
    c % n
}

/// Any `n` consecutive counters fall on every one of the `n` slots.
pub proof fn lemma_rotation_covers(c: int, n: int, slot: int)
    requires
        n > 0,
        c >= 0,
        0 <= slot < n,
    ensures
        exists|k: int| 0 <= k < n && #[trigger] slot_of(c + k, n) == slot,
{
    let r = c % n;
    vstd::arithmetic::div_mod::lemma_mod_bound(c, n);
    let k = if slot >= r {
        slot - r
    } else {
        slot + n - r
    };
    vstd::arithmetic::div_mod::lemma_add_mod_noop(c, k, n);
    vstd::arithmetic::div_mod::lemma_small_mod(k as nat, n as nat);
    if slot >= r {
        vstd::arithmetic::div_mod::lemma_small_mod(slot as nat, n as nat);
    } else {
        vstd::arithmetic::div_mod::lemma_mod_multiples_vanish(1, slot, n);
        vstd::arithmetic::div_mod::lemma_small_mod(slot as nat, n as nat);
    }
    assert(slot_of(c + k, n) == slot);
}

/// How many times `x` occurs in `s`.
pub open spec fn occurrences(s: Seq<int>, x: int) -> nat
    decreases s.len(),
{
    if s.len() == 0 {
        0
    } else {
        (if s[0] == x {
            1nat
        } else {
            0nat
        }) + occurrences(s.drop_first(), x)
    }
}

/// Occurrences add up over a concatenation.
pub proof fn lemma_occurrences_concat(a: Seq<int>, b: Seq<int>, x: int)
    ensures
        occurrences(a + b, x) == occurrences(a, x) + occurrences(b, x),
    decreases a.len(),
{
    if a.len() > 0 {
        assert((a + b).drop_first() =~= a.drop_first() + b);
        lemma_occurrences_concat(a.drop_first(), b, x);
    } else {
        assert(a + b =~= b);
    }
}

/// In a sequence without repetitions a value occurs once if it is there at
/// all.
pub proof fn lemma_occurrences_distinct(s: Seq<int>, x: int)
    requires
        s.no_duplicates(),
    ensures
        occurrences(s, x) == if s.contains(x) {
            1nat
        } else {
            0nat
        },
    decreases s.len(),
{
    if s.len() > 0 {
        let t = s.drop_first();
        assert(t.no_duplicates()) by {
            assert forall|i: int, j: int| 0 <= i < t.len() && 0 <= j < t.len() && i != j implies t[i] != t[j] by {
                assert(s[i + 1] != s[j + 1]);
            }
        }
        lemma_occurrences_distinct(t, x);
        if s[0] == x {
            assert(!t.contains(x)) by {
                if t.contains(x) {
                    let i = choose|i: int| 0 <= i < t.len() && t[i] == x;
                    assert(s[i + 1] == s[0]);
                }
            }
        } else {
            assert(s.contains(x) == t.contains(x)) by {
                if s.contains(x) {
                    let i = choose|i: int| 0 <= i < s.len() && s[i] == x;
                    assert(t[i - 1] == x);
                }
                if t.contains(x) {
                    let i = choose|i: int| 0 <= i < t.len() && t[i] == x;
                    assert(s[i + 1] == x);
                }
            }
        }
    }
}

/// The positions that `k` calls pick among `n` from a counter that starts
/// at `c` and wraps around the word size: each call takes the counter
/// modulo `n`, then moves the counter on by one.
pub open spec fn rotation_slots(c: usize, n: nat, k: nat) -> Seq<int>
    decreases k,
{
    if k == 0 {
        Seq::empty()
    } else {
        seq![c as int % n as int] + rotation_slots(c.wrapping_add(1), n, (k - 1) as nat)
    }
}

/// When the counter does not wrap, call `j` of the run picks `(c + j) % n`.
pub proof fn lemma_rotation_slots(c: usize, n: nat, k: nat)
    requires
        n > 0,
        c + k <= usize::MAX,
    ensures
        rotation_slots(c, n, k).len() == k,
        forall|j: int| 0 <= j < k ==> #[trigger] rotation_slots(c, n, k)[j] == (c + j) % (n as int),
    decreases k,
{
    if k > 0 {
        assert(c.wrapping_add(1) == c + 1);
        let rest = rotation_slots((c + 1) as usize, n, (k - 1) as nat);
        lemma_rotation_slots((c + 1) as usize, n, (k - 1) as nat);
        assert forall|j: int| 0 <= j < k implies #[trigger] rotation_slots(c, n, k)[j] == (c + j) % (
        n as int) by {
            if j > 0 {
                assert(rotation_slots(c, n, k)[j] == rest[j - 1]);
            }
        }
    }
}

/// Any `n` calls in a row, while the counter does not wrap, pick each of
/// the `n` positions exactly once.
pub proof fn lemma_rotation_each_once(c: usize, n: nat, slot: int)
    requires
        n > 0,
        c + n <= usize::MAX,
        0 <= slot < n,
    ensures
        rotation_slots(c, n, n).len() == n,
        occurrences(rotation_slots(c, n, n), slot) == 1,
{
    let s = rotation_slots(c, n, n);
    lemma_rotation_slots(c, n, n);
    assert(s.no_duplicates()) by {
        assert forall|i: int, j: int| 0 <= i < s.len() && 0 <= j < s.len() && i != j implies s[i] != s[j] by {
            let (a, b) = if i < j { (i, j) } else { (j, i) };
            vstd::arithmetic::div_mod::lemma_mod_equivalence(c + b, c + a, n as int);
            vstd::arithmetic::div_mod::lemma_small_mod((b - a) as nat, n);
        }
    }
    lemma_rotation_covers(c as int, n as int, slot);
    let k = choose|k: int| 0 <= k < n && #[trigger] slot_of(c + k, n as int) == slot;
    assert(s[k] == slot);
    lemma_occurrences_distinct(s, slot);
}

} // verus!
