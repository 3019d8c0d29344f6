use vstd::prelude::*;
use vstd::string::*;

use crate::forth::is_space;

verus! {

/// What `str::to_uppercase` makes of a text.
pub uninterp spec fn upper_of(s: Seq<char>) -> Seq<char>;

/// Whether `char::is_alphabetic` holds of a character.
pub uninterp spec fn alphabetic(c: char) -> bool;

/// Relies on `str::to_uppercase`: the upper-case form of the text, which
/// depends on the text alone.
#[verifier::external_body]
fn uppercase(s: &str) -> (r: String)
    ensures
        r@ == upper_of(s@),
{
    s.to_uppercase()
}

/// Relies on `char::is_alphabetic`: whether the character has the Unicode
/// `Alphabetic` property.
#[verifier::external_body]
pub(crate) fn is_alphabetic(c: char) -> (r: bool)
    ensures
        r == alphabetic(c),
{
    c.is_alphabetic()
}

/// A text is shouted when it has a letter and its upper-case form is itself.
pub open spec fn yelled(s: Seq<char>) -> bool {
    (exists|i: int| 0 <= i < s.len() && alphabetic(#[trigger] s[i])) && upper_of(s) == s
}

/// The text without white space at either end.
pub open spec fn trimmed(s: Seq<char>) -> Seq<char>
    decreases s.len(),
{
    if s.len() > 0 && is_space(s[0]) {
        trimmed(s.drop_first())
    } else if s.len() > 0 && is_space(s.last()) {
        trimmed(s.drop_last())
    } else {
        s
    }
}

/// Bob's answer: to a question, calm if it was shouted and sure if not; to
/// other shouting, a warning; to silence, resignation; to anything else, indifference.
pub open spec fn answer(m: Seq<char>) -> Seq<char> {
    let t = trimmed(m);
    if t.len() > 0 && t.last() == '?' {
        if yelled(m) {
            "Calm down, I know what I'm doing!"@
        } else {
            "Sure."@
        }
    } else if yelled(t) {
        "Whoa, chill out!"@
    } else if t.len() == 0 {
        "Fine. Be that way!"@
    } else {
        "Whatever."@
    }
}

fn is_yelling(message: &str) -> (r: bool)
    ensures
        r == yelled(message@),
{
    let n = message.unicode_len();
    let mut any = false;
    let mut i: usize = 0;
    while i < n
        invariant
            n == message@.len(),
            i <= n,
            any == exists|j: int| 0 <= j < i && alphabetic(#[trigger] message@[j]),
        decreases n - i,
    {
        if is_alphabetic(message.get_char(i)) {
            any = true;
        }
        i = i + 1;
    }
    if !any {
        return false;
    }
    let up = uppercase(message);
    let m = String::from_str(message);
    up == m
}

/// `s` without white space at either end.
fn trim(s: &str) -> (r: &str)
    ensures
        r@ == trimmed(s@),
{
    let n = s.unicode_len();
    let mut a: usize = 0;
    let mut b: usize = n;
    assert(s@.subrange(0, n as int) =~= s@);
    while a < b && is_space_at(s, a)
        invariant
            n == s@.len(),
            a <= b <= n,
            b == n,
            trimmed(s@.subrange(a as int, b as int)) == trimmed(s@),
        decreases b - a,
    {
        assert(s@.subrange(a as int, b as int).drop_first() =~= s@.subrange(a + 1, b as int));
        a = a + 1;
    }
    while a < b && is_space_at(s, b - 1)
        invariant
            n == s@.len(),
            a <= b <= n,
            a == b || !is_space(s@[a as int]),
            trimmed(s@.subrange(a as int, b as int)) == trimmed(s@),
        decreases b - a,
    {
        assert(s@.subrange(a as int, b as int).drop_last() =~= s@.subrange(a as int, b - 1));
        b = b - 1;
    }
    s.substring_char(a, b)
}

fn is_space_at(s: &str, i: usize) -> (r: bool)
    requires
        i < s@.len(),
    ensures
        r == is_space(s@[i as int]),
{
    let c = s.get_char(i);
    ('\u{9}' <= c && c <= '\u{d}') || c == ' ' || c == '\u{85}' || c == '\u{a0}'
        || c == '\u{1680}' || ('\u{2000}' <= c && c <= '\u{200a}') || c == '\u{2028}'
        || c == '\u{2029}' || c == '\u{202f}' || c == '\u{205f}' || c == '\u{3000}'
}

pub fn reply(message: &str) -> (r: &str)
    ensures
        r@ == answer(message@),
{
    let t = trim(message);
    let n = t.unicode_len();
    if n > 0 && t.get_char(n - 1) == '?' {
        if is_yelling(message) {
            return "Calm down, I know what I'm doing!";
        }
        return "Sure.";
    }
    if is_yelling(t) {
        "Whoa, chill out!"
    } else if n == 0 {
        "Fine. Be that way!"
    } else {
        "Whatever."
    }
}

} // verus!
