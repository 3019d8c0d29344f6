use vstd::prelude::*;
use vstd::string::*;

use crate::text::{decimal, push_decimal};

verus! {

/// "Pling" for a factor 3, "Plang" for 5, "Plong" for 7, in that order; the
/// number itself when it has none of them.
pub open spec fn drops(n: nat) -> Seq<char> {
    if n % 3 != 0 && n % 5 != 0 && n % 7 != 0 {
        decimal(n)
    } else {
        (if n % 3 == 0 { "Pling"@ } else { seq![] }) + (if n % 5 == 0 { "Plang"@ } else { seq![] })
            + (if n % 7 == 0 { "Plong"@ } else { seq![] })
    }
}

pub fn raindrops(n: u32) -> (r: String)
    ensures
        r@ == drops(n as nat),
{
    let mut s = String::new();
    let mut any = false;
    if n % 3 == 0 {
        s.append("Pling");
        any = true;
    }
    if n % 5 == 0 {
        s.append("Plang");
        any = true;
    }
    if n % 7 == 0 {
        s.append("Plong");
        any = true;
    }
    if !any {
        push_decimal(&mut s, n as u64);
    }
    assert(s@ =~= drops(n as nat));
    s
}

} // verus!
