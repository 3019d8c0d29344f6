use vstd::prelude::*;
use vstd::string::*;

use crate::bob::{alphabetic, is_alphabetic};
use crate::forth::{lower, lower_char};

verus! {

/// Whether `char::is_numeric` holds of a character.
pub uninterp spec fn numeric(c: char) -> bool;

/// Relies on `char::is_numeric`: whether the character is a Unicode number.
#[verifier::external_body]
fn is_numeric(c: char) -> (r: bool)
    ensures
        r == numeric(c),
{
    c.is_numeric()
}

/// A tally: each character with how often it was seen.
pub type Tally = Vec<(char, usize)>;

/// How often `c` stands in `s`.
pub open spec fn count_of(s: Seq<char>, c: char) -> nat
    decreases s.len(),
{
    if s.len() == 0 {
        0
    } else {
        count_of(s.drop_last(), c) + if s.last() == c {
            1nat
        } else {
            0nat
        }
    }
}

/// The count a tally gives `c`: 0 if it has no entry for it.
pub open spec fn lookup(t: Seq<(char, usize)>, c: char) -> nat
    decreases t.len(),
{
    if t.len() == 0 {
        0
    } else if t.last().0 == c {
        t.last().1 as nat
    } else {
        lookup(t.drop_last(), c)
    }
}

/// Every character has at most one entry, and every entry counts something.
pub open spec fn tally_wf(t: Seq<(char, usize)>) -> bool {
    &&& forall|i: int, j: int| 0 <= i < j < t.len() ==> t[i].0 != t[j].0
    &&& forall|i: int| 0 <= i < t.len() ==> #[trigger] t[i].1 > 0
}

proof fn lemma_lookup_absent(t: Seq<(char, usize)>, c: char)
    requires
        forall|i: int| 0 <= i < t.len() ==> #[trigger] t[i].0 != c,
    ensures
        lookup(t, c) == 0,
    decreases t.len(),
{
    if t.len() > 0 {
        lemma_lookup_absent(t.drop_last(), c);
    }
}

proof fn lemma_lookup_at(t: Seq<(char, usize)>, i: int)
    requires
        tally_wf(t),
        0 <= i < t.len(),
    ensures
        lookup(t, t[i].0) == t[i].1,
    decreases t.len(),
{
    if i < t.len() - 1 {
        lemma_lookup_at(t.drop_last(), i);
    }
}

proof fn lemma_lookup_update(t: Seq<(char, usize)>, i: int, n: usize, d: char)
    requires
        tally_wf(t),
        0 <= i < t.len(),
    ensures
        lookup(t.update(i, (t[i].0, n)), d) == if d == t[i].0 {
            n as nat
        } else {
            lookup(t, d)
        },
    decreases t.len(),
{
    let u = t.update(i, (t[i].0, n));
    if i == t.len() - 1 {
        assert(u.drop_last() =~= t.drop_last());
        if d == t[i].0 {
        } else {
        }
    } else {
        assert(u.drop_last() =~= t.drop_last().update(i, (t[i].0, n)));
        lemma_lookup_update(t.drop_last(), i, n, d);
    }
}

/// Adds `n` to the count of `c`.
fn add_count(t: &mut Tally, c: char, n: usize)
    requires
        tally_wf(old(t)@),
        n > 0,
        lookup(old(t)@, c) + n <= usize::MAX,
    ensures
        tally_wf(final(t)@),
        forall|d: char| lookup(final(t)@, d) == lookup(old(t)@, d) + if d == c {
            n as nat
        } else {
            0nat
        },
{
    let mut i: usize = 0;
    while i < t.len()
        invariant
            t@ == old(t)@,
            tally_wf(old(t)@),
            n > 0,
            lookup(old(t)@, c) + n <= usize::MAX,
            i <= t@.len(),
            forall|j: int| 0 <= j < i ==> #[trigger] t@[j].0 != c,
        decreases t.len() - i,
    {
        if t[i].0 == c {
            let ghost before = t@;
            proof {
                lemma_lookup_at(before, i as int);
            }
            let m = t[i].1;
            t.set(i, (c, m + n));
            assert(t@ =~= before.update(i as int, (before[i as int].0, (m + n) as usize)));
            proof {
                assert forall|d: char| lookup(t@, d) == lookup(before, d) + if d == c {
                    n as nat
                } else {
                    0nat
                } by {
                    lemma_lookup_update(before, i as int, (m + n) as usize, d);
                }
            }
            return;
        }
        i = i + 1;
    }
    proof {
        lemma_lookup_absent(t@, c);
    }
    let ghost before = t@;
    t.push((c, n));
    assert(t@.drop_last() =~= before);
    assert(forall|d: char| d != c ==> lookup(t@, d) == lookup(t@.drop_last(), d));
}

/// Adds the counts of `other` to those of `into`.
pub fn merge(into: &mut Tally, other: &Tally)
    requires
        tally_wf(old(into)@),
        tally_wf(other@),
        forall|c: char| lookup(old(into)@, c) + lookup(other@, c) <= usize::MAX,
    ensures
        tally_wf(final(into)@),
        forall|c: char| lookup(final(into)@, c) == lookup(old(into)@, c) + lookup(other@, c),
{
    let mut i: usize = 0;
    while i < other.len()
        invariant
            i <= other@.len(),
            tally_wf(into@),
            tally_wf(other@),
            forall|c: char| lookup(old(into)@, c) + lookup(other@, c) <= usize::MAX,
            forall|c: char| lookup(into@, c) == lookup(old(into)@, c) + lookup(other@.take(i as int), c),
        decreases other.len() - i,
    {
        let (c, n) = other[i];
        let ghost pre = other@.take(i as int);
        assert(other@.take(i + 1).drop_last() =~= pre);
        proof {
            assert forall|j: int| 0 <= j < pre.len() implies #[trigger] pre[j].0 != c by {
                assert(other@[j].0 != other@[i as int].0);
            }
            lemma_lookup_absent(pre, c);
            lemma_prefix_lookup(other@, i as int + 1, c);
        }
        add_count(into, c, n);
        i = i + 1;
    }
    assert(other@.take(i as int) =~= other@);
}

proof fn lemma_prefix_lookup(t: Seq<(char, usize)>, k: int, c: char)
    requires
        tally_wf(t),
        0 <= k <= t.len(),
    ensures
        lookup(t.take(k), c) <= lookup(t, c),
    decreases t.len(),
{
    if k < t.len() {
        assert(t.drop_last().take(k) =~= t.take(k));
        assert(tally_wf(t.drop_last()));
        lemma_prefix_lookup(t.drop_last(), k, c);
        if t.last().0 == c {
            assert forall|j: int| 0 <= j < t.drop_last().len() implies #[trigger] t.drop_last()[j].0
                != c by {
                assert(t[j].0 != t[t.len() - 1].0);
            }
            lemma_lookup_absent(t.drop_last(), c);
        }
    } else {
        assert(t.take(k) =~= t);
    }
}

/// Which characters a count takes in.
#[derive(Clone, Copy)]
pub enum Filter {
    /// Letters only.
    Letters,
    /// Everything but numbers and ASCII punctuation.
    NoDigitsOrPunctuation,
}

pub open spec fn ascii_punctuation(c: char) -> bool {
    ('!' <= c && c <= '/') || (':' <= c && c <= '@') || ('[' <= c && c <= '`') || ('{' <= c
        && c <= '~')
}

pub open spec fn keeps(f: Filter, c: char) -> bool {
    match f {
        Filter::Letters => alphabetic(c),
        Filter::NoDigitsOrPunctuation => !numeric(c) && !ascii_punctuation(c),
    }
}

fn keeps_char(f: Filter, c: char) -> (r: bool)
    ensures
        r == keeps(f, c),
{
    match f {
        Filter::Letters => is_alphabetic(c),
        Filter::NoDigitsOrPunctuation => !is_numeric(c) && !(('!' <= c && c <= '/') || (':' <= c
            && c <= '@') || ('[' <= c && c <= '`') || ('{' <= c && c <= '~')),
    }
}

/// The characters of `s` that the filter takes in, ASCII letters folded to lower case.
pub open spec fn folded(s: Seq<char>, f: Filter) -> Seq<char>
    decreases s.len(),
{
    if s.len() == 0 {
        seq![]
    } else if keeps(f, s.last()) {
        folded(s.drop_last(), f).push(lower(s.last()))
    } else {
        folded(s.drop_last(), f)
    }
}

/// `folded` over every line, one after the other.
pub open spec fn folded_lines(ls: Seq<Seq<char>>, f: Filter) -> Seq<char>
    decreases ls.len(),
{
    if ls.len() == 0 {
        seq![]
    } else {
        folded_lines(ls.drop_last(), f) + folded(ls.last(), f)
    }
}

proof fn lemma_count_concat(a: Seq<char>, b: Seq<char>, c: char)
    ensures
        count_of(a + b, c) == count_of(a, c) + count_of(b, c),
    decreases b.len(),
{
    if b.len() == 0 {
        assert(a + b =~= a);
    } else {
        assert((a + b).drop_last() =~= a + b.drop_last());
        lemma_count_concat(a, b.drop_last(), c);
    }
}

proof fn lemma_folded_prefix(s: Seq<char>, j: int, f: Filter, c: char)
    requires
        0 <= j <= s.len(),
    ensures
        count_of(folded(s.take(j), f), c) <= count_of(folded(s, f), c),
    decreases s.len(),
{
    if j < s.len() {
        assert(s.drop_last().take(j) =~= s.take(j));
        lemma_folded_prefix(s.drop_last(), j, f, c);
        let fd = folded(s.drop_last(), f);
        assert(fd.push(lower(s.last())).drop_last() =~= fd);
    } else {
        assert(s.take(j) =~= s);
    }
}

proof fn lemma_lines_prefix(ls: Seq<Seq<char>>, i: int, f: Filter, c: char)
    requires
        0 <= i <= ls.len(),
    ensures
        count_of(folded_lines(ls.take(i), f), c) <= count_of(folded_lines(ls, f), c),
    decreases ls.len(),
{
    if i < ls.len() {
        assert(ls.drop_last().take(i) =~= ls.take(i));
        lemma_lines_prefix(ls.drop_last(), i, f, c);
        lemma_count_concat(folded_lines(ls.drop_last(), f), folded(ls.last(), f), c);
    } else {
        assert(ls.take(i) =~= ls);
    }
}

/// Counts, into `t`, the characters of `s` that the filter takes in.
fn tally_into(t: &mut Tally, s: &str, f: Filter)
    requires
        tally_wf(old(t)@),
        forall|c: char| lookup(old(t)@, c) + count_of(folded(s@, f), c) <= usize::MAX,
    ensures
        tally_wf(final(t)@),
        forall|c: char| lookup(final(t)@, c) == lookup(old(t)@, c) + count_of(folded(s@, f), c),
{
    let n = s.unicode_len();
    let mut j: usize = 0;
    while j < n
        invariant
            n == s@.len(),
            j <= n,
            tally_wf(t@),
            forall|c: char| lookup(old(t)@, c) + count_of(folded(s@, f), c) <= usize::MAX,
            forall|c: char|
                lookup(t@, c) == lookup(old(t)@, c) + count_of(folded(s@.take(j as int), f), c),
        decreases n - j,
    {
        let c = s.get_char(j);
        let ghost pre = s@.take(j as int);
        assert(s@.take(j + 1).drop_last() =~= pre);
        assert(s@.take(j + 1).last() == c);
        assert(folded(pre, f).push(lower(c)).drop_last() =~= folded(pre, f));
        if keeps_char(f, c) {
            let k = lower_char(c);
            proof {
                lemma_folded_prefix(s@, j + 1, f, k);
            }
            add_count(t, k, 1);
        }
        j = j + 1;
    }
    assert(s@.take(n as int) =~= s@);
}

pub open spec fn line_views(lines: Seq<&str>) -> Seq<Seq<char>> {
    lines.map_values(|l: &str| l@)
}

/// How often each letter occurs in the lines, ASCII letters counted in lower case.
pub fn count_letters(lines: &[&str]) -> (r: Tally)
    requires
        forall|c: char| count_of(folded_lines(line_views(lines@), Filter::Letters), c) <= usize::MAX,
    ensures
        tally_wf(r@),
        forall|c: char|
            lookup(r@, c) == count_of(folded_lines(line_views(lines@), Filter::Letters), c),
{
    let ghost ls = line_views(lines@);
    let mut t: Tally = Vec::new();
    let mut i: usize = 0;
    while i < lines.len()
        invariant
            ls == line_views(lines@),
            i <= lines@.len(),
            tally_wf(t@),
            forall|c: char| count_of(folded_lines(ls, Filter::Letters), c) <= usize::MAX,
            forall|c: char|
                lookup(t@, c) == count_of(folded_lines(ls.take(i as int), Filter::Letters), c),
        decreases lines.len() - i,
    {
        let ghost pre = ls.take(i as int);
        assert(ls.take(i + 1).drop_last() =~= pre);
        assert(ls.take(i + 1).last() == lines@[i as int]@);
        proof {
            assert forall|c: char| lookup(t@, c) + count_of(folded(lines@[i as int]@, Filter::Letters), c)
                <= usize::MAX by {
                lemma_count_concat(folded_lines(pre, Filter::Letters), folded(lines@[i as int]@, Filter::Letters), c);
                lemma_lines_prefix(ls, i + 1, Filter::Letters, c);
            }
        }
        let ghost before = t@;
        tally_into(&mut t, lines[i], Filter::Letters);
        proof {
            assert forall|c: char|
                lookup(t@, c) == count_of(folded_lines(ls.take(i + 1), Filter::Letters), c) by {
                lemma_count_concat(folded_lines(pre, Filter::Letters), folded(lines@[i as int]@, Filter::Letters), c);
            }
        }
        i = i + 1;
    }
    assert(ls.take(i as int) =~= ls);
    t
}

/// How often each character of `input` occurs, numbers and ASCII punctuation
/// left out and ASCII letters counted in lower case.
pub fn char_frequency(input: &str) -> (r: Tally)
    requires
        forall|c: char| count_of(folded(input@, Filter::NoDigitsOrPunctuation), c) <= usize::MAX,
    ensures
        tally_wf(r@),
        forall|c: char| lookup(r@, c) == count_of(folded(input@, Filter::NoDigitsOrPunctuation), c),
{
    let mut t: Tally = Vec::new();
    tally_into(&mut t, input, Filter::NoDigitsOrPunctuation);
    t
}

} // verus!
