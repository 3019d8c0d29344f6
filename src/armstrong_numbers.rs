use vstd::prelude::*;

verus! {

/// The decimal digits of `n`, least significant first; none for zero.
pub open spec fn digits(n: nat) -> Seq<nat>
    decreases n,
{
    if n == 0 {
        seq![]
    } else {
        seq![n % 10].add(digits(n / 10))
    }
}

pub open spec fn power(b: nat, e: nat) -> nat
    decreases e,
{
    if e == 0 {
        1
    } else {
        b * power(b, (e - 1) as nat)
    }
}

/// The sum of the first `k` digits in `ds`, each raised to the power `p`.
pub open spec fn power_sum(ds: Seq<nat>, p: nat, k: nat) -> nat
    decreases k,
{
    if k == 0 || k > ds.len() {
        0
    } else {
        power_sum(ds, p, (k - 1) as nat) + power(ds[k - 1], p)
    }
}

/// The sum of the digits of `n`, each raised to the number of digits.
pub open spec fn armstrong_sum(n: nat) -> nat {
    power_sum(digits(n), digits(n).len(), digits(n).len())
}

proof fn lemma_power_bound(b: nat, e: nat)
    requires
        b <= 9,
        e <= 10,
    ensures
        power(b, e) <= power(9, e),
        power(9, e) <= 3486784401,
    decreases e,
{
    if e > 0 {
        lemma_power_bound(b, (e - 1) as nat);
        assert(b * power(b, (e - 1) as nat) <= 9 * power(9, (e - 1) as nat)) by (nonlinear_arith)
            requires
                b <= 9,
                power(b, (e - 1) as nat) <= power(9, (e - 1) as nat),
        ;
    }
    reveal_with_fuel(power, 11);
}

proof fn lemma_digits_len(n: nat, bound: nat, k: nat)
    requires
        n < bound,
        bound == power(10, k),
    ensures
        digits(n).len() <= k,
        forall|i: int| 0 <= i < digits(n).len() ==> #[trigger] digits(n)[i] <= 9,
    decreases n,
{
    if n > 0 {
        if k == 0 {
            assert(power(10, 0) == 1);
        } else {
            assert(n / 10 < power(10, (k - 1) as nat)) by (nonlinear_arith)
                requires
                    n < bound,
                    bound == 10 * power(10, (k - 1) as nat),
            ;
            lemma_digits_len(n / 10, power(10, (k - 1) as nat), (k - 1) as nat);
        }
    }
}

/// Whether `num` equals the sum of its digits each raised to the number of
/// digits.
pub fn is_armstrong_number(num: u32) -> (r: bool)
    ensures
        r == (armstrong_sum(num as nat) == num),
{
    let mut nums: Vec<u32> = Vec::new();
    let mut nit = num;
    while nit != 0
        invariant
            digits(num as nat) == nums@.map_values(|d: u32| d as nat) + digits(nit as nat),
        decreases nit,
    {
        let ghost before = nums@;
        nums.push(nit % 10);
        assert(nums@.map_values(|d: u32| d as nat) + digits((nit / 10) as nat) =~= before.map_values(
            |d: u32| d as nat,
        ) + digits(nit as nat));
        nit = nit / 10;
    }
    let ghost ds = digits(num as nat);
    assert(ds =~= nums@.map_values(|d: u32| d as nat));
    proof {
        reveal_with_fuel(power, 11);
        lemma_digits_len(num as nat, power(10, 10), 10);
    }
    let p = nums.len();
    let mut sum: u64 = 0;
    let mut i: usize = 0;
    while i < p
        invariant
            p == nums.len(),
            p == ds.len(),
            p <= 10,
            i <= p,
            ds == nums@.map_values(|d: u32| d as nat),
            forall|j: int| 0 <= j < ds.len() ==> #[trigger] ds[j] <= 9,
            sum == power_sum(ds, p as nat, i as nat),
            sum <= i * 3486784401,
        decreases p - i,
    {
        let n = nums[i];
        assert(ds[i as int] == n);
        let mut t: u32 = 1;
        let mut e: usize = 0;
        while e < p
            invariant
                e <= p,
                p <= 10,
                n <= 9,
                t == power(n as nat, e as nat),
            decreases p - e,
        {
            proof {
                lemma_power_bound(n as nat, (e + 1) as nat);
                assert(power(n as nat, (e + 1) as nat) == n * power(n as nat, e as nat));
                assert(t * n == n * t) by (nonlinear_arith);
            }
            t = t * n;
            e = e + 1;
        }
        proof {
            lemma_power_bound(n as nat, p as nat);
        }
        sum = sum + t as u64;
        i = i + 1;
    }
    sum == num as u64
}

} // verus!
