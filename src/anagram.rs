use vstd::prelude::*;
use vstd::string::*;

use crate::text::chars_of;

verus! {

/// What `str::to_lowercase` makes of a text.
pub uninterp spec fn lower_of(s: Seq<char>) -> Seq<char>;

/// Relies on `str::to_lowercase`: the lower-case form of the text, which
/// depends on the text alone.
#[verifier::external_body]
pub(crate) fn lowercase(s: &str) -> (r: String)
    ensures
        r@ == lower_of(s@),
{
    s.to_lowercase()
}

/// `b` is an anagram of `a`, both already in lower case: the same letters in
/// another order.
pub open spec fn anagram_folded(a: Seq<char>, b: Seq<char>) -> bool {
    a != b && a.to_multiset() == b.to_multiset()
}

/// `b` is an anagram of `a`, letter case aside.
pub open spec fn is_anagram(a: Seq<char>, b: Seq<char>) -> bool {
    anagram_folded(lower_of(a), lower_of(b))
}

fn find_char(v: &Vec<char>, c: char) -> (r: Option<usize>)
    ensures
        match r {
            Some(j) => j < v@.len() && v@[j as int] == c,
            None => forall|x: int| 0 <= x < v@.len() ==> v@[x] != c,
        },
{
    let mut j: usize = 0;
    while j < v.len()
        invariant
            j <= v@.len(),
            forall|x: int| 0 <= x < j ==> v@[x] != c,
        decreases v.len() - j,
    {
        if v[j] == c {
            return Some(j);
        }
        j = j + 1;
    }
    None
}

fn same_letters(a: &Vec<char>, b: &Vec<char>) -> (r: bool)
    ensures
        r == (a@.to_multiset() == b@.to_multiset()),
{
    broadcast use vstd::seq_lib::group_to_multiset_ensures;

    let mut rest: Vec<char> = Vec::new();
    let mut k: usize = 0;
    while k < b.len()
        invariant
            k <= b@.len(),
            rest@ == b@.take(k as int),
        decreases b.len() - k,
    {
        rest.push(b[k]);
        k = k + 1;
        assert(rest@ =~= b@.take(k as int));
    }
    assert(b@.take(k as int) =~= b@);
    let mut i: usize = 0;
    while i < a.len()
        invariant
            i <= a@.len(),
            rest@.to_multiset().add(a@.take(i as int).to_multiset()) == b@.to_multiset(),
        decreases a.len() - i,
    {
        let c = a[i];
        assert(a@.take(i + 1) =~= a@.take(i as int).push(c));
        let found = find_char(&rest, c);
        if found.is_none() {
            proof {
                assert(!rest@.contains(c));
                let tail = a@.skip(i + 1);
                assert(a@ =~= a@.take(i + 1) + tail);
                vstd::seq_lib::lemma_multiset_commutative(a@.take(i + 1), tail);
                vstd::seq_lib::to_multiset_build(a@.take(i as int), c);
                vstd::seq_lib::to_multiset_contains(rest@, c);
                assert(a@.to_multiset().count(c) > b@.to_multiset().count(c));
            }
            return false;
        }
        let j = found.unwrap();
        let ghost before = rest@;
        rest.remove(j);
        proof {
            vstd::seq_lib::to_multiset_remove(before, j as int);
            vstd::seq_lib::to_multiset_build(a@.take(i as int), c);
            vstd::seq_lib::to_multiset_contains(before, c);
        }
        assert(rest@.to_multiset().add(a@.take(i + 1).to_multiset()) =~= before.to_multiset().add(
            a@.take(i as int).to_multiset(),
        ));
        i = i + 1;
    }
    assert(a@.take(i as int) =~= a@);
    if rest.len() > 0 {
        proof {
            assert(rest@.to_multiset().count(rest@[0]) > 0);
            assert(a@.to_multiset().count(rest@[0]) < b@.to_multiset().count(rest@[0]));
        }
        return false;
    }
    assert(rest@ =~= Seq::<char>::empty());
    assert(a@.to_multiset() =~= b@.to_multiset());
    true
}

fn same_text(a: &Vec<char>, b: &Vec<char>) -> (r: bool)
    ensures
        r == (a@ == b@),
{
    if a.len() != b.len() {
        return false;
    }
    let mut i: usize = 0;
    while i < a.len()
        invariant
            a.len() == b.len(),
            i <= a.len(),
            forall|j: int| 0 <= j < i ==> a@[j] == b@[j],
        decreases a.len() - i,
    {
        if a[i] != b[i] {
            return false;
        }
        i = i + 1;
    }
    assert(a@ =~= b@);
    true
}

/// The candidates that are anagrams of `word`, in their order.
pub fn anagrams_for<'a>(word: &str, possible_anagrams: &[&'a str]) -> (r: Vec<&'a str>)
    ensures
        r@ == possible_anagrams@.filter(|s: &'a str| is_anagram(word@, s@)),
{
    let w = chars_of(lowercase(word).as_str());
    let mut out: Vec<&'a str> = Vec::new();
    let mut i: usize = 0;
    while i < possible_anagrams.len()
        invariant
            i <= possible_anagrams@.len(),
            w@ == lower_of(word@),
            out@ == possible_anagrams@.take(i as int).filter(|s: &'a str| is_anagram(word@, s@)),
        decreases possible_anagrams.len() - i,
    {
        let cand = possible_anagrams[i];
        let c = chars_of(lowercase(cand).as_str());
        let ghost pre = possible_anagrams@.take(i as int);
        assert(possible_anagrams@.take(i + 1) =~= pre.push(cand));
        proof {
            pre.lemma_filter_push(cand, |s: &'a str| is_anagram(word@, s@));
        }
        if !same_text(&w, &c) && same_letters(&w, &c) {
            out.push(cand);
        }
        i = i + 1;
    }
    assert(possible_anagrams@.take(i as int) =~= possible_anagrams@);
    out
}

} // verus!
