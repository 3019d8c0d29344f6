use vstd::prelude::*;
use vstd::string::*;

verus! {

/// "For want of a `a` the `b` was lost." and a line break.
pub open spec fn line(a: Seq<char>, b: Seq<char>) -> Seq<char> {
    "For want of a "@ + a + " the "@ + b + " was lost.\n"@
}

/// The lines for the first `k` neighbouring pairs of words.
pub open spec fn lines(ws: Seq<Seq<char>>, k: nat) -> Seq<char>
    decreases k,
{
    if k == 0 || k >= ws.len() {
        seq![]
    } else {
        lines(ws, (k - 1) as nat) + line(ws[k - 1], ws[k as int])
    }
}

/// One line for each pair of neighbouring words, then a last line that names
/// the first word; nothing for no words.
pub open spec fn proverb(ws: Seq<Seq<char>>) -> Seq<char> {
    if ws.len() == 0 {
        seq![]
    } else {
        lines(ws, (ws.len() - 1) as nat) + "And all for the want of a "@ + ws[0] + "."@
    }
}

pub open spec fn word_views(list: Seq<&str>) -> Seq<Seq<char>> {
    list.map_values(|w: &str| w@)
}

pub fn build_proverb(list: &[&str]) -> (r: String)
    ensures
        r@ == proverb(word_views(list@)),
{
    let ghost ws = word_views(list@);
    let mut s = String::new();
    if list.len() == 0 {
        return s;
    }
    let mut i: usize = 1;
    while i < list.len()
        invariant
            ws == word_views(list@),
            1 <= i <= list@.len(),
            s@ == lines(ws, (i - 1) as nat),
        decreases list.len() - i,
    {
        s.append("For want of a ");
        s.append(list[i - 1]);
        s.append(" the ");
        s.append(list[i]);
        s.append(" was lost.\n");
        assert(s@ =~= lines(ws, i as nat));
        i = i + 1;
    }
    s.append("And all for the want of a ");
    s.append(list[0]);
    s.append(".");
    assert(s@ =~= proverb(ws));
    s
}

} // verus!
