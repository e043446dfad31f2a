//! Finite sums of real numbers.
use vstd::prelude::*;

verus! {

/// `f(0) + f(1) + ..`, `n` terms.
pub open spec fn sum(f: spec_fn(int) -> real, n: nat) -> real
    decreases n,
{
    if n == 0 {
        0real
    } else {
        sum(f, (n - 1) as nat) + f(n - 1)
    }
}

/// Sums of the same terms are the same.
pub proof fn lemma_same(f: spec_fn(int) -> real, g: spec_fn(int) -> real, n: nat)
    requires
        forall|i: int| 0 <= i < n ==> #[trigger] f(i) == g(i),
    ensures
        sum(f, n) == sum(g, n),
    decreases n,
{
    if n > 0 {
        lemma_same(f, g, (n - 1) as nat);
        assert(f(n - 1) == g(n - 1));
    }
}

/// A sum of sums is the sum of both.
pub proof fn lemma_plus(f: spec_fn(int) -> real, g: spec_fn(int) -> real, n: nat)
    ensures
        sum(|i: int| f(i) + g(i), n) == sum(f, n) + sum(g, n),
    decreases n,
{
    if n > 0 {
        lemma_plus(f, g, (n - 1) as nat);
    }
}

/// A common factor can be taken out.
pub proof fn lemma_scaled(c: real, f: spec_fn(int) -> real, n: nat)
    ensures
        sum(|i: int| c * f(i), n) == c * sum(f, n),
    decreases n,
{
    if n > 0 {
        lemma_scaled(c, f, (n - 1) as nat);
        let (x, y) = (sum(f, (n - 1) as nat), f(n - 1));
        assert(c * (x + y) == c * x + c * y) by (nonlinear_arith);
    } else {
        assert(c * 0real == 0real) by (nonlinear_arith);
    }
}

/// A sum of steps is the way from start to end.
pub proof fn lemma_telescopes(g: spec_fn(int) -> real, n: nat)
    ensures
        sum(|i: int| g(i + 1) - g(i), n) == g(n as int) - g(0),
    decreases n,
{
    if n > 0 {
        lemma_telescopes(g, (n - 1) as nat);
    }
}

/// A sum can be parted anywhere.
pub proof fn lemma_parts(f: spec_fn(int) -> real, a: nat, b: nat)
    ensures
        sum(f, a + b) == sum(f, a) + sum(|i: int| f(a + i), b),
    decreases b,
{
    if b > 0 {
        lemma_parts(f, a, (b - 1) as nat);
        assert(a + b - 1 == a + (b - 1));
    }
}

/// The order of the terms does not matter: backwards it is the same sum.
pub proof fn lemma_reversed(f: spec_fn(int) -> real, n: nat)
    ensures
        sum(|i: int| f(n - 1 - i), n) == sum(f, n),
    decreases n,
{
    if n > 0 {
        let m = (n - 1) as nat;
        let g = |i: int| f(n - 1 - i);
        let rest = |i: int| f(1 + i);
        lemma_parts(f, 1, m);
        reveal_with_fuel(sum, 2);
        assert(sum(f, 1) == f(0));
        assert(sum(|i: int| f(1nat + i), m) == sum(rest, m)) by {
            lemma_same(|i: int| f(1nat + i), rest, m);
        }
        lemma_reversed(rest, m);
        lemma_same(|i: int| rest(m - 1 - i), g, m);
        assert(g(n - 1) == f(0));
    }
}

/// Nor does it matter where around a loop a sum starts.
pub proof fn lemma_rotated(f: spec_fn(int) -> real, n: nat, k: nat)
    requires
        k < n,
    ensures
        sum(|i: int| f((i + k) % n as int), n) == sum(f, n),
{
    let g = |i: int| f((i + k) % n as int);
    let m = (n - k) as nat;
    lemma_parts(g, m, k);
    lemma_parts(f, k, m);
    assert forall|i: int| 0 <= i < m implies #[trigger] g(i) == f(k + i) by {
        vstd::arithmetic::div_mod::lemma_small_mod((i + k) as nat, n);
    }
    lemma_same(g, |i: int| f(k + i), m);
    let h = |i: int| g(m + i);
    assert forall|i: int| 0 <= i < k implies #[trigger] h(i) == f(i) by {
        vstd::arithmetic::div_mod::lemma_mod_add_multiples_vanish(i, n as int);
        vstd::arithmetic::div_mod::lemma_small_mod(i as nat, n);
        assert(m + i + k == n + i);
    }
    lemma_same(h, f, k);
}

/// Term by term no larger, no larger in sum.
pub proof fn lemma_no_larger(f: spec_fn(int) -> real, g: spec_fn(int) -> real, n: nat)
    requires
        forall|i: int| 0 <= i < n ==> #[trigger] f(i) <= g(i),
    ensures
        sum(f, n) <= sum(g, n),
    decreases n,
{
    if n > 0 {
        lemma_no_larger(f, g, (n - 1) as nat);
        assert(f(n - 1) <= g(n - 1));
    }
}

} // verus!
