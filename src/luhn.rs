use vstd::prelude::*;

use crate::text::chars_of;

verus! {

/// The characters of `s` other than spaces.
pub open spec fn strip_spaces(s: Seq<char>) -> Seq<char>
    decreases s.len(),
{
    if s.len() == 0 {
        seq![]
    } else if s.last() == ' ' {
        strip_spaces(s.drop_last())
    } else {
        strip_spaces(s.drop_last()).push(s.last())
    }
}

pub open spec fn digit_value(c: char) -> nat {
    (c as u32 - '0' as u32) as nat
}

/// What a digit adds to the checksum: itself, or, at every second place from
/// the right, its double with 9 taken off when that exceeds 9.
pub open spec fn term(c: char, doubled: bool) -> nat {
    if !doubled {
        digit_value(c)
    } else if digit_value(c) > 4 {
        (2 * digit_value(c) - 9) as nat
    } else {
        2 * digit_value(c)
    }
}

/// The checksum of the digits `f`, the last of them counted plainly if
/// `doubled` is false.
pub open spec fn luhn_sum(f: Seq<char>, doubled: bool) -> nat
    decreases f.len(),
{
    if f.len() == 0 {
        0
    } else {
        term(f.last(), doubled) + luhn_sum(f.drop_last(), !doubled)
    }
}

/// A code is valid when, spaces aside, it has at least two characters, all
/// decimal digits, and its checksum is a multiple of 10.
pub open spec fn luhn_valid(s: Seq<char>) -> bool {
    &&& forall|i: int| 0 <= i < s.len() ==> #[trigger] s[i] == ' ' || ('0' <= s[i] && s[i] <= '9')
    &&& strip_spaces(s).len() >= 2
    &&& luhn_sum(strip_spaces(s), false) % 10 == 0
}

proof fn lemma_strip_len(s: Seq<char>)
    ensures
        strip_spaces(s).len() <= s.len(),
    decreases s.len(),
{
    if s.len() > 0 {
        lemma_strip_len(s.drop_last());
    }
}

/// Check a Luhn checksum.
pub fn is_valid(code: &str) -> (r: bool)
    ensures
        r == luhn_valid(code@),
{
    let s = chars_of(code);
    let ghost all = s@;
    let mut sum: u32 = 0;
    let mut len: usize = 0;
    let mut doubled = false;
    let mut i: usize = s.len();
    assert(all.take(all.len() as int) =~= all);
    while i > 0
        invariant
            all == s@,
            all == code@,
            i <= all.len(),
            sum < 10,
            (sum + luhn_sum(strip_spaces(all.take(i as int)), doubled)) % 10 == luhn_sum(
                strip_spaces(all),
                false,
            ) % 10,
            len + strip_spaces(all.take(i as int)).len() == strip_spaces(all).len(),
            forall|j: int| i <= j < all.len() ==> #[trigger] all[j] == ' ' || ('0' <= all[j] && all[j] <= '9'),
        decreases i,
    {
        let c = s[i - 1];
        let ghost pre = all.take(i as int);
        assert(pre.drop_last() =~= all.take(i - 1));
        assert(pre.last() == c);
        if c != ' ' {
            if !('0' <= c && c <= '9') {
                return false;
            }
            let d = (c as u32) - ('0' as u32);
            let t = if !doubled {
                d
            } else if d > 4 {
                d * 2 - 9
            } else {
                d * 2
            };
            assert(t == term(c, doubled));
            proof {
                let f0 = strip_spaces(all.take(i - 1));
                assert(strip_spaces(pre) == f0.push(c));
                assert(f0.push(c).drop_last() =~= f0);
                assert(luhn_sum(f0.push(c), doubled) == t + luhn_sum(f0, !doubled));
                let rest = luhn_sum(f0, !doubled);
                vstd::arithmetic::div_mod::lemma_add_mod_noop_right(rest as int, (sum + t) as int, 10);
                lemma_strip_len(all);
                assert(len + 1 <= strip_spaces(all).len());
                assert(strip_spaces(all).len() <= s.len());
            }
            sum = (sum + t) % 10;
            len = len + 1;
            doubled = !doubled;
        }
        i = i - 1;
    }
    assert(all.take(0) =~= Seq::<char>::empty());
    assert(all.take(all.len() as int) =~= all);
    if len < 2 {
        return false;
    }
    sum == 0
}

} // verus!
