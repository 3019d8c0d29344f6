use vstd::prelude::*;

verus! {

/// `n` is at least 2 and has no divisor between 2 and itself.
pub open spec fn prime(n: nat) -> bool {
    n >= 2 && forall|d: nat| 2 <= d < n ==> #[trigger] (n % d) != 0
}

/// How many primes are below `m`.
pub open spec fn primes_below(m: nat) -> nat
    decreases m,
{
    if m == 0 {
        0
    } else {
        primes_below((m - 1) as nat) + if prime((m - 1) as nat) {
            1nat
        } else {
            0nat
        }
    }
}

/// A divisor of `x` divides every multiple of `x`.
pub proof fn lemma_divides_multiple(x: nat, k: nat, e: nat)
    requires
        e > 0,
        x % e == 0,
    ensures
        (x * k) % e == 0,
{
    vstd::arithmetic::div_mod::lemma_fundamental_div_mod(x as int, e as int);
    let q = x / e;
    assert(x * k == (q * k) * e) by {
        vstd::arithmetic::mul::lemma_mul_is_associative(e as int, q as int, k as int);
        vstd::arithmetic::mul::lemma_mul_is_commutative(e as int, (q * k) as int);
    }
    vstd::arithmetic::div_mod::lemma_mod_multiples_basic((q * k) as int, e as int);
}

/// A number with no divisor in `2..d`, where `d * d > n`, is prime.
pub proof fn lemma_prime_by_trial(n: nat, d: nat)
    requires
        n >= 2,
        d >= 2,
        d * d > n,
        forall|e: nat| 2 <= e < d ==> #[trigger] (n % e) != 0,
    ensures
        prime(n),
{
    assert forall|e: nat| 2 <= e < n implies #[trigger] (n % e) != 0 by {
        if n % e == 0 && e >= d {
            let f = n / e;
            assert(n == e * f) by (nonlinear_arith)
                requires
                    n % e == 0,
                    e >= 2,
                    f == n / e,
            ;
            assert(2 <= f < d) by (nonlinear_arith)
                requires
                    n == e * f,
                    e < n,
                    e >= d,
                    d * d > n,
                    d >= 2,
            ;
            assert(n % f == 0) by (nonlinear_arith)
                requires
                    n == e * f,
                    f >= 2,
            ;
        }
    }
}

/// Whether `n` is prime, by trial division up to its square root.
pub fn is_prime(n: u32) -> (r: bool)
    ensures
        r == prime(n as nat),
{
    if n < 2 {
        return false;
    }
    let mut d: u32 = 2;
    while d <= n / d
        invariant
            2 <= d <= n,
            forall|e: nat| 2 <= e < d ==> #[trigger] ((n as nat) % e) != 0,
        decreases n - d,
    {
        if n % d == 0 {
            assert(d < n) by (nonlinear_arith)
                requires
                    d <= n / d,
                    d >= 2,
            ;
            assert((n as nat) % (d as nat) == 0);
            return false;
        }
        assert(d + 1 <= n) by (nonlinear_arith)
            requires
                d <= n / d,
                d >= 2,
                n % d != 0,
        ;
        d = d + 1;
    }
    proof {
        assert(d * d > n) by (nonlinear_arith)
            requires
                d > n / d,
                d >= 2,
        ;
        lemma_prime_by_trial(n as nat, d as nat);
    }
    true
}

/// The `n`-th prime, counting from 0: `nth(0)` is 2.
pub fn nth(n: u32) -> (r: u32)
    requires
        exists|p: nat| p <= u32::MAX && prime(p) && primes_below(p) == n,
    ensures
        prime(r as nat),
        primes_below(r as nat) == n,
{
    let ghost p = choose|p: nat| p <= u32::MAX && prime(p) && primes_below(p) == n;
    proof {
        reveal_with_fuel(primes_below, 3);
    }
    let mut count: u32 = 0;
    let mut i: u32 = 2;
    loop
        invariant
            2 <= i <= p,
            p <= u32::MAX,
            prime(p),
            primes_below(p) == n,
            count == primes_below(i as nat),
            count <= n,
        decreases p - i,
    {
        if is_prime(i) {
            if count == n {
                return i;
            }
            count = count + 1;
        }
        assert(i != p);
        i = i + 1;
    }
}

} // verus!
