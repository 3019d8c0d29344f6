use vstd::prelude::*;
use vstd::string::*;

use crate::text::{decimal, push_decimal};

verus! {

/// The verse that starts with `n` bottles on the wall.
pub open spec fn verse_text(n: nat) -> Seq<char> {
    if n == 0 {
        "No more bottles of beer on the wall, no more bottles of beer.\nGo to the store and buy some more, 99 bottles of beer on the wall.\n"@
    } else if n == 1 {
        "1 bottle of beer on the wall, 1 bottle of beer.\nTake it down and pass it around, no more bottles of beer on the wall.\n"@
    } else {
        decimal(n) + " bottles of beer on the wall, "@ + decimal(n) + " bottles of beer.\nTake one down and pass it around, "@
            + decimal((n - 1) as nat) + (if n == 2 { " bottle"@ } else { " bottles"@ })
            + " of beer on the wall.\n"@
    }
}

/// The verses from `start` down to `end`, separated by empty lines.
pub open spec fn song(start: nat, end: nat) -> Seq<char>
    decreases start,
{
    if start < end {
        seq![]
    } else if start == end {
        verse_text(end)
    } else {
        verse_text(start) + "\n"@ + song((start - 1) as nat, end)
    }
}

pub fn verse(n: u32) -> (r: String)
    ensures
        r@ == verse_text(n as nat),
{
    if n == 0 {
        String::from_str(
            "No more bottles of beer on the wall, no more bottles of beer.\nGo to the store and buy some more, 99 bottles of beer on the wall.\n",
        )
    } else if n == 1 {
        String::from_str(
            "1 bottle of beer on the wall, 1 bottle of beer.\nTake it down and pass it around, no more bottles of beer on the wall.\n",
        )
    } else {
        let mut s = String::new();
        push_decimal(&mut s, n as u64);
        s.append(" bottles of beer on the wall, ");
        push_decimal(&mut s, n as u64);
        s.append(" bottles of beer.\nTake one down and pass it around, ");
        push_decimal(&mut s, (n - 1) as u64);
        if n == 2 {
            s.append(" bottle");
        } else {
            s.append(" bottles");
        }
        s.append(" of beer on the wall.\n");
        assert(s@ =~= verse_text(n as nat));
        s
    }
}

/// The verses from `start` down to `end`; nothing when `end` exceeds `start`.
pub fn sing(start: u32, end: u32) -> (r: String)
    ensures
        r@ == song(start as nat, end as nat),
{
    let mut s = String::new();
    if start < end {
        return s;
    }
    let mut n = start;
    loop
        invariant
            end <= n <= start,
            s@ + song(n as nat, end as nat) == song(start as nat, end as nat),
        decreases n,
    {
        let v = verse(n);
        s.append(v.as_str());
        if n == end {
            assert(s@ =~= song(start as nat, end as nat));
            return s;
        }
        s.append("\n");
        assert(s@ + song((n - 1) as nat, end as nat) =~= song(start as nat, end as nat));
        n = n - 1;
    }
}

} // verus!
