use vstd::prelude::*;

use crate::nth_prime::{lemma_divides_multiple, lemma_prime_by_trial, prime};

verus! {

pub open spec fn product(s: Seq<u64>) -> int
    decreases s.len(),
{
    if s.len() == 0 {
        1
    } else {
        product(s.drop_last()) * s.last()
    }
}

/// The prime factors of `n`, smallest first, each as often as it divides `n`.
/// Zero has the single factor 0.
pub fn factors(n: u64) -> (r: Vec<u64>)
    ensures
        n == 0 ==> r@ == seq![0u64],
        n >= 1 ==> product(r@) == n,
        n >= 1 ==> forall|i: int| 0 <= i < r@.len() ==> prime(#[trigger] r@[i] as nat),
        forall|i: int, j: int| 0 <= i <= j < r@.len() ==> r@[i] <= r@[j],
{
    let mut fs: Vec<u64> = Vec::new();
    if n == 0 {
        fs.push(0);
        assert(fs@ =~= seq![0u64]);
        return fs;
    }
    let mut num = n;
    let mut d: u64 = 2;
    while d <= num / d
        invariant
            num >= 1,
            d >= 2,
            product(fs@) * num == n,
            forall|i: int| 0 <= i < fs@.len() ==> prime(#[trigger] fs@[i] as nat),
            forall|i: int, j: int| 0 <= i <= j < fs@.len() ==> fs@[i] <= fs@[j],
            forall|i: int| 0 <= i < fs@.len() ==> #[trigger] fs@[i] <= d,
            forall|e: nat| 2 <= e < d ==> #[trigger] ((num as nat) % e) != 0,
        decreases num, num - d,
    {
        if num % d == 0 {
            let q = num / d;
            proof {
                assert(num == d * q) by (nonlinear_arith)
                    requires
                        num % d == 0,
                        d >= 2,
                        q == num / d,
                ;
                assert forall|e: nat| 2 <= e < d implies #[trigger] ((d as nat) % e) != 0 by {
                    if (d as nat) % e == 0 {
                        lemma_divides_multiple(d as nat, q as nat, e);
                    }
                }
                assert(d * d > d) by (nonlinear_arith)
                    requires
                        d >= 2,
                ;
                assert forall|e: nat| 2 <= e < d implies #[trigger] ((q as nat) % e) != 0 by {
                    if (q as nat) % e == 0 {
                        lemma_divides_multiple(q as nat, d as nat, e);
                        assert(q * d == num) by (nonlinear_arith)
                            requires
                                num == d * q,
                        ;
                    }
                }
                assert(q >= 1 && q < num) by (nonlinear_arith)
                    requires
                        num == d * q,
                        d >= 2,
                        num >= 1,
                ;
            }
            proof {
                lemma_prime_by_trial(d as nat, d as nat);
            }
            let ghost before = fs@;
            fs.push(d);
            assert(fs@.drop_last() =~= before);
            assert(product(fs@) * q == n) by (nonlinear_arith)
                requires
                    product(fs@) == product(before) * d,
                    product(before) * num == n,
                    num == d * q,
            ;
            num = q;
        } else {
            assert(d + 1 <= num) by (nonlinear_arith)
                requires
                    d <= num / d,
                    d >= 2,
                    num % d != 0,
            ;
            d = d + 1;
        }
    }
    if num > 1 {
        proof {
            assert(d * d > num) by (nonlinear_arith)
                requires
                    d > num / d,
                    d >= 2,
            ;
            lemma_prime_by_trial(num as nat, d as nat);
            if num < d {
                assert((num as nat) % (num as nat) == 0);
            }
        }
        let ghost before = fs@;
        fs.push(num);
        assert(fs@.drop_last() =~= before);
    } else {
        assert(product(fs@) == n);
    }
    fs
}

} // verus!
