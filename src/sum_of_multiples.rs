use vstd::prelude::*;

verus! {

/// `x` is a positive multiple of one of the non-zero factors.
pub open spec fn multiple_of_any(x: nat, factors: Seq<u32>) -> bool {
    x > 0 && exists|i: int| 0 <= i < factors.len() && factors[i] != 0 && #[trigger] (x % (factors[i] as nat)) == 0
}

/// The sum of the numbers below `limit` that are multiples of one of the
/// non-zero factors, each counted once.
pub open spec fn multiples_sum(limit: nat, factors: Seq<u32>) -> nat
    decreases limit,
{
    if limit == 0 {
        0
    } else {
        multiples_sum((limit - 1) as nat, factors) + if multiple_of_any((limit - 1) as nat, factors) {
            (limit - 1) as nat
        } else {
            0nat
        }
    }
}

proof fn lemma_multiples_sum_grows(limit: nat, k: nat, factors: Seq<u32>)
    requires
        k <= limit,
    ensures
        multiples_sum(k, factors) <= multiples_sum(limit, factors),
    decreases limit,
{
    if k < limit {
        lemma_multiples_sum_grows((limit - 1) as nat, k, factors);
    }
}

fn has_factor(x: u32, factors: &[u32]) -> (r: bool)
    ensures
        r == multiple_of_any(x as nat, factors@),
{
    if x == 0 {
        return false;
    }
    let mut i: usize = 0;
    while i < factors.len()
        invariant
            x > 0,
            i <= factors@.len(),
            forall|j: int| 0 <= j < i ==> !(factors@[j] != 0 && #[trigger] ((x as nat) % (factors@[j] as nat)) == 0),
        decreases factors.len() - i,
    {
        if factors[i] != 0 && x % factors[i] == 0 {
            assert(((x as nat) % (factors@[i as int] as nat)) == 0);
            return true;
        }
        i = i + 1;
    }
    false
}

/// The sum of all numbers below `limit` that are multiples of at least one of
/// the factors; factors that are zero count for nothing.
pub fn sum_of_multiples(limit: u32, factors: &[u32]) -> (r: u32)
    requires
        multiples_sum(limit as nat, factors@) <= u32::MAX,
    ensures
        r == multiples_sum(limit as nat, factors@),
{
    let mut sum: u32 = 0;
    let mut x: u32 = 0;
    while x < limit
        invariant
            x <= limit,
            sum == multiples_sum(x as nat, factors@),
            multiples_sum(limit as nat, factors@) <= u32::MAX,
        decreases limit - x,
    {
        proof {
            lemma_multiples_sum_grows(limit as nat, (x + 1) as nat, factors@);
        }
        if has_factor(x, factors) {
            sum = sum + x;
        }
        x = x + 1;
    }
    sum
}

/// The same sum, gathered factor by factor: each factor marks its multiples,
/// and the marked numbers are added up once each.
pub fn sum_of_multiples1(limit: u32, factors: &[u32]) -> (r: u32)
    requires
        multiples_sum(limit as nat, factors@) <= u32::MAX,
    ensures
        r == multiples_sum(limit as nat, factors@),
{
    let mut marked: Vec<bool> = Vec::new();
    let mut x: u32 = 0;
    while x < limit
        invariant
            x <= limit,
            marked@.len() == x,
            forall|y: int| 0 <= y < x ==> !(#[trigger] marked@[y]),
        decreases limit - x,
    {
        marked.push(false);
        x = x + 1;
    }
    let mut i: usize = 0;
    while i < factors.len()
        invariant
            i <= factors@.len(),
            marked@.len() == limit,
            forall|y: int|
                0 <= y < limit ==> (#[trigger] marked@[y] <==> (y > 0 && exists|j: int|
                    0 <= j < i && factors@[j] != 0 && #[trigger] ((y as nat) % (factors@[j] as nat))
                        == 0)),
        decreases factors.len() - i,
    {
        let f = factors[i];
        if f != 0 && limit > 0 {
            let mut y: u32 = 1;
            while y < limit
                invariant
                    1 <= y <= limit,
                    f == factors@[i as int],
                    f != 0,
                    i < factors@.len(),
                    marked@.len() == limit,
                    forall|z: int|
                        0 <= z < limit ==> (#[trigger] marked@[z] <==> (z > 0 && (exists|j: int|
                            0 <= j < i && factors@[j] != 0 && #[trigger] ((z as nat) % (
                            factors@[j] as nat)) == 0) || (0 < z < y && (z as nat) % (f as nat)
                            == 0))),
                decreases limit - y,
            {
                if y % f == 0 {
                    marked.set(y as usize, true);
                }
                y = y + 1;
            }
            assert forall|z: int| 0 <= z < limit implies (#[trigger] marked@[z] <==> (z > 0
                && exists|j: int|
                0 <= j < i + 1 && factors@[j] != 0 && #[trigger] ((z as nat) % (factors@[j] as nat))
                    == 0)) by {
                if z > 0 && (z as nat) % (f as nat) == 0 {
                    assert(((z as nat) % (factors@[i as int] as nat)) == 0);
                }
            }
        }
        i = i + 1;
    }
    let mut sum: u32 = 0;
    let mut x: u32 = 0;
    while x < limit
        invariant
            x <= limit,
            marked@.len() == limit,
            forall|y: int| 0 <= y < limit ==> (#[trigger] marked@[y] == multiple_of_any(y as nat, factors@)),
            sum == multiples_sum(x as nat, factors@),
            multiples_sum(limit as nat, factors@) <= u32::MAX,
        decreases limit - x,
    {
        proof {
            lemma_multiples_sum_grows(limit as nat, (x + 1) as nat, factors@);
        }
        if marked[x as usize] {
            sum = sum + x;
        }
        x = x + 1;
    }
    sum
}

} // verus!
