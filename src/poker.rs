use vstd::prelude::*;
use vstd::string::*;

use crate::anagram::{lower_of, lowercase};
use crate::forth::is_space;
use crate::text::chars_of;

verus! {

#[derive(Debug, PartialEq, Eq, PartialOrd, Ord)]
pub enum Error {
    BadValue(String),
    BadSuit(String),
    BadCard(String),
    BadRank,
    BadHand,
}

#[derive(Debug, Hash, Clone, Copy, PartialEq, Eq, PartialOrd, Ord, Structural)]
pub enum Suit {
    Heart,
    Diamond,
    Club,
    Spade,
}

impl Suit {
    /// Every suit, in a fixed order.
    pub fn values() -> (r: [Self; 4])
        ensures
            r@ == seq![Suit::Heart, Suit::Diamond, Suit::Club, Suit::Spade],
    {
        let r = [Suit::Heart, Suit::Diamond, Suit::Club, Suit::Spade];
        assert(r@ =~= seq![Suit::Heart, Suit::Diamond, Suit::Club, Suit::Spade]);
        r
    }
}

/// The rank of a card; the variants stand in the order of their worth, the ace highest.
#[derive(Debug, Clone, Copy, PartialEq, Eq, PartialOrd, Ord, Hash, Structural)]
pub enum Value {
    Two,
    Three,
    Four,
    Five,
    Six,
    Seven,
    Eight,
    Nine,
    Ten,
    Jack,
    Queen,
    King,
    Ace,
}

/// The worth of a rank: 2 to 10 for the numbered cards, then 11 for the jack up
/// to 14 for the ace.
pub open spec fn worth(v: Value) -> u8 {
    match v {
        Value::Two => 2,
        Value::Three => 3,
        Value::Four => 4,
        Value::Five => 5,
        Value::Six => 6,
        Value::Seven => 7,
        Value::Eight => 8,
        Value::Nine => 9,
        Value::Ten => 10,
        Value::Jack => 11,
        Value::Queen => 12,
        Value::King => 13,
        Value::Ace => 14,
    }
}

impl Value {
    pub fn value(self) -> (r: u8)
        ensures
            r == worth(self),
            2 <= r <= 14,
    {
        match self {
            Value::Two => 2,
            Value::Three => 3,
            Value::Four => 4,
            Value::Five => 5,
            Value::Six => 6,
            Value::Seven => 7,
            Value::Eight => 8,
            Value::Nine => 9,
            Value::Ten => 10,
            Value::Jack => 11,
            Value::Queen => 12,
            Value::King => 13,
            Value::Ace => 14,
        }
    }

    /// Every rank, the ace first.
    pub fn values() -> (r: [Value; 13])
        ensures
            r@ == seq![
                Value::Ace,
                Value::Two,
                Value::Three,
                Value::Four,
                Value::Five,
                Value::Six,
                Value::Seven,
                Value::Eight,
                Value::Nine,
                Value::Ten,
                Value::Jack,
                Value::Queen,
                Value::King,
            ],
    {
        let r = [
            Value::Ace,
            Value::Two,
            Value::Three,
            Value::Four,
            Value::Five,
            Value::Six,
            Value::Seven,
            Value::Eight,
            Value::Nine,
            Value::Ten,
            Value::Jack,
            Value::Queen,
            Value::King,
        ];
        assert(r@ =~= seq![
            Value::Ace,
            Value::Two,
            Value::Three,
            Value::Four,
            Value::Five,
            Value::Six,
            Value::Seven,
            Value::Eight,
            Value::Nine,
            Value::Ten,
            Value::Jack,
            Value::Queen,
            Value::King,
        ]);
        r
    }
}

#[derive(Debug, Clone, Copy, PartialEq, Eq, PartialOrd, Ord, Structural)]
pub struct Card(Suit, Value);

impl Card {
    pub closed spec fn suit_spec(&self) -> Suit {
        self.0
    }

    pub closed spec fn value_spec(&self) -> Value {
        self.1
    }

    pub fn new(suit: Suit, value: Value) -> (r: Self)
        ensures
            r.suit_spec() == suit,
            r.value_spec() == value,
    {
        Self(suit, value)
    }

    pub fn suit(&self) -> (r: Suit)
        ensures
            r == self.suit_spec(),
    {
        self.0
    }

    pub fn value(&self) -> (r: Value)
        ensures
            r == self.value_spec(),
    {
        self.1
    }
}

// ---------------------------------------------------------------------------
// Reading cards
// ---------------------------------------------------------------------------

/// The suit a lower-case text names.
pub open spec fn suit_named(s: Seq<char>) -> Option<Suit> {
    if s == "h"@ {
        Some(Suit::Heart)
    } else if s == "d"@ {
        Some(Suit::Diamond)
    } else if s == "c"@ {
        Some(Suit::Club)
    } else if s == "s"@ {
        Some(Suit::Spade)
    } else {
        None
    }
}

/// The rank a lower-case text names.
pub open spec fn value_named(s: Seq<char>) -> Option<Value> {
    if s == "a"@ {
        Some(Value::Ace)
    } else if s == "2"@ {
        Some(Value::Two)
    } else if s == "3"@ {
        Some(Value::Three)
    } else if s == "4"@ {
        Some(Value::Four)
    } else if s == "5"@ {
        Some(Value::Five)
    } else if s == "6"@ {
        Some(Value::Six)
    } else if s == "7"@ {
        Some(Value::Seven)
    } else if s == "8"@ {
        Some(Value::Eight)
    } else if s == "9"@ {
        Some(Value::Nine)
    } else if s == "10"@ {
        Some(Value::Ten)
    } else if s == "j"@ {
        Some(Value::Jack)
    } else if s == "q"@ {
        Some(Value::Queen)
    } else if s == "k"@ {
        Some(Value::King)
    } else {
        None
    }
}

fn is_text(a: &Vec<char>, lit: &str) -> (r: bool)
    ensures
        r == (a@ == lit@),
{
    let b = chars_of(lit);
    if a.len() != b.len() {
        return false;
    }
    let mut i: usize = 0;
    while i < a.len()
        invariant
            a.len() == b.len(),
            b@ == lit@,
            i <= a.len(),
            forall|j: int| 0 <= j < i ==> a@[j] == b@[j],
        decreases a.len() - i,
    {
        if a[i] != b[i] {
            return false;
        }
        i = i + 1;
    }
    assert(a@ =~= b@);
    true
}

/// Reads a suit: `h`, `d`, `c` or `s`, in either case.
pub fn parse_suit(s: &str) -> (r: Result<Suit, Error>)
    ensures
        match suit_named(lower_of(s@)) {
            Some(suit) => r == Ok::<Suit, Error>(suit),
            None => r matches Err(Error::BadSuit(m)) && m@ == s@,
        },
{
    let t = chars_of(lowercase(s).as_str());
    if is_text(&t, "h") {
        Ok(Suit::Heart)
    } else if is_text(&t, "d") {
        Ok(Suit::Diamond)
    } else if is_text(&t, "c") {
        Ok(Suit::Club)
    } else if is_text(&t, "s") {
        Ok(Suit::Spade)
    } else {
        Err(Error::BadSuit(String::from_str(s)))
    }
}

/// Reads a rank: `a`, `2` to `10`, `j`, `q` or `k`, in either case.
pub fn parse_value(s: &str) -> (r: Result<Value, Error>)
    ensures
        match value_named(lower_of(s@)) {
            Some(v) => r == Ok::<Value, Error>(v),
            None => r matches Err(Error::BadValue(m)) && m@ == s@,
        },
{
    let t = chars_of(lowercase(s).as_str());
    if is_text(&t, "a") {
        Ok(Value::Ace)
    } else if is_text(&t, "2") {
        Ok(Value::Two)
    } else if is_text(&t, "3") {
        Ok(Value::Three)
    } else if is_text(&t, "4") {
        Ok(Value::Four)
    } else if is_text(&t, "5") {
        Ok(Value::Five)
    } else if is_text(&t, "6") {
        Ok(Value::Six)
    } else if is_text(&t, "7") {
        Ok(Value::Seven)
    } else if is_text(&t, "8") {
        Ok(Value::Eight)
    } else if is_text(&t, "9") {
        Ok(Value::Nine)
    } else if is_text(&t, "10") {
        Ok(Value::Ten)
    } else if is_text(&t, "j") {
        Ok(Value::Jack)
    } else if is_text(&t, "q") {
        Ok(Value::Queen)
    } else if is_text(&t, "k") {
        Ok(Value::King)
    } else {
        Err(Error::BadValue(String::from_str(s)))
    }
}

/// The card a text of two or three characters names: the rank, then the suit.
pub open spec fn card_named(t: Seq<char>) -> Option<(Suit, Value)> {
    if t.len() != 2 && t.len() != 3 {
        None
    } else {
        match (suit_named(lower_of(t.subrange(t.len() - 1, t.len() as int))), value_named(
            lower_of(t.subrange(0, t.len() - 1)),
        )) {
            (Some(s), Some(v)) => Some((s, v)),
            _ => None,
        }
    }
}

/// Reads a card such as `10h` or `QS`. The suit is checked before the rank.
pub fn parse_card(card: &str) -> (r: Result<Card, Error>)
    ensures
        match card_named(card@) {
            Some((s, v)) => r matches Ok(c) && c.suit_spec() == s && c.value_spec() == v,
            None => r is Err,
        },
        (card@.len() != 2 && card@.len() != 3) ==> (r matches Err(Error::BadCard(m)) && m@
            == "invalid length"@),
        (card@.len() == 2 || card@.len() == 3) && suit_named(
            lower_of(card@.subrange(card@.len() - 1, card@.len() as int)),
        ) is None ==> (r matches Err(Error::BadSuit(m)) && m@ == card@.subrange(
            card@.len() - 1,
            card@.len() as int,
        )),
        (card@.len() == 2 || card@.len() == 3) && suit_named(
            lower_of(card@.subrange(card@.len() - 1, card@.len() as int)),
        ) is Some && value_named(lower_of(card@.subrange(0, card@.len() - 1))) is None ==> (
        r matches Err(Error::BadValue(m)) && m@ == card@.subrange(0, card@.len() - 1)),
{
    let len = card.unicode_len();
    if len != 2 && len != 3 {
        return Err(Error::BadCard(String::from_str("invalid length")));
    }
    let v = card.substring_char(0, len - 1);
    let s = card.substring_char(len - 1, len);
    let suit = match parse_suit(s) {
        Ok(x) => x,
        Err(e) => return Err(e),
    };
    let value = match parse_value(v) {
        Ok(x) => x,
        Err(e) => return Err(e),
    };
    Ok(Card(suit, value))
}

/// Splits `s` at white space, continuing a token `cur` already under way.
pub open spec fn words_from(s: Seq<char>, cur: Seq<char>) -> Seq<Seq<char>>
    decreases s.len(),
{
    if s.len() == 0 {
        if cur.len() == 0 {
            seq![]
        } else {
            seq![cur]
        }
    } else if is_space(s[0]) {
        (if cur.len() == 0 {
            seq![]
        } else {
            seq![cur]
        }) + words_from(s.drop_first(), seq![])
    } else {
        words_from(s.drop_first(), cur.push(s[0]))
    }
}

pub open spec fn str_views<'a>(v: Seq<&'a str>) -> Seq<Seq<char>> {
    v.map_values(|t: &'a str| t@)
}

/// The white-space separated words of `s`.
fn split_words<'a>(s: &'a str) -> (r: Vec<&'a str>)
    ensures
        str_views(r@) == words_from(s@, seq![]),
{
    let n = s.unicode_len();
    let mut out: Vec<&'a str> = Vec::new();
    let mut start: usize = 0;
    let mut i: usize = 0;
    assert(s@.subrange(0, n as int) =~= s@);
    assert(s@.subrange(0, 0) =~= Seq::<char>::empty());
    while i < n
        invariant
            n == s@.len(),
            start <= i <= n,
            str_views(out@) + words_from(s@.subrange(i as int, n as int), s@.subrange(
                start as int,
                i as int,
            )) == words_from(s@, seq![]),
        decreases n - i,
    {
        let c = s.get_char(i);
        let ghost rest = s@.subrange(i as int, n as int);
        let ghost cur = s@.subrange(start as int, i as int);
        assert(rest.drop_first() =~= s@.subrange(i + 1, n as int));
        assert(rest[0] == c);
        if crate::forth::is_space_char(c) {
            let ghost before = str_views(out@);
            if start < i {
                out.push(s.substring_char(start, i));
                assert(str_views(out@) =~= before + seq![cur]);
            } else {
                assert(str_views(out@) =~= before);
            }
            assert(before + ((if cur.len() == 0 {
                seq![]
            } else {
                seq![cur]
            }) + words_from(s@.subrange(i + 1, n as int), seq![])) =~= str_views(out@)
                + words_from(s@.subrange(i + 1, n as int), seq![]));
            start = i + 1;
            assert(s@.subrange(start as int, start as int) =~= Seq::<char>::empty());
        } else {
            assert(cur.push(c) =~= s@.subrange(start as int, i + 1));
        }
        i = i + 1;
    }
    assert(s@.subrange(n as int, n as int) =~= Seq::<char>::empty());
    let ghost before = str_views(out@);
    let ghost cur = s@.subrange(start as int, n as int);
    if start < n {
        out.push(s.substring_char(start, n));
        assert(str_views(out@) =~= before + seq![cur]);
    } else {
        assert(str_views(out@) =~= before);
    }
    out
}

// ---------------------------------------------------------------------------
// Ranking hands
// ---------------------------------------------------------------------------

/// The category of a hand, weakest first, with the ranks that break ties
/// between hands of that category, most significant first.
#[derive(Debug, Clone, Copy, PartialEq, Eq, PartialOrd, Ord)]
pub enum Rank {
    HighCard([Value; 5]),
    Pair([Value; 4]),
    TwoPair([Value; 3]),
    Triple([Value; 3]),
    Straight(Value),
    Flush([Value; 5]),
    FullHouse([Value; 2]),
    Bomb([Value; 2]),
    StraightFlush(Value),
    RoyalStraightFlush,
}

impl Rank {
    /// The category's place among the categories, and the tie-breaking ranks.
    pub open spec fn key(&self) -> (nat, Seq<Value>) {
        match self {
            Rank::HighCard(v) => (0, v@),
            Rank::Pair(v) => (1, v@),
            Rank::TwoPair(v) => (2, v@),
            Rank::Triple(v) => (3, v@),
            Rank::Straight(v) => (4, seq![*v]),
            Rank::Flush(v) => (5, v@),
            Rank::FullHouse(v) => (6, v@),
            Rank::Bomb(v) => (7, v@),
            Rank::StraightFlush(v) => (8, seq![*v]),
            Rank::RoyalStraightFlush => (9, seq![]),
        }
    }
}

/// Every rank, the highest first.
pub open spec fn ranks_desc() -> Seq<Value> {
    seq![
        Value::Ace,
        Value::King,
        Value::Queen,
        Value::Jack,
        Value::Ten,
        Value::Nine,
        Value::Eight,
        Value::Seven,
        Value::Six,
        Value::Five,
        Value::Four,
        Value::Three,
        Value::Two,
    ]
}

/// How many of the cards have rank `v`.
pub open spec fn count_value(h: Seq<Card>, v: Value) -> nat
    decreases h.len(),
{
    if h.len() == 0 {
        0
    } else {
        count_value(h.drop_last(), v) + if h.last().value_spec() == v {
            1nat
        } else {
            0nat
        }
    }
}

/// The ranks among the first `k` of `ranks_desc` that the hand holds, each with
/// how many cards have it: the hand grouped by rank, highest first.
pub open spec fn groups_upto(h: Seq<Card>, k: nat) -> Seq<(Value, u8)>
    decreases k,
{
    if k == 0 || k > 13 {
        seq![]
    } else {
        let v = ranks_desc()[k - 1];
        groups_upto(h, (k - 1) as nat) + if count_value(h, v) > 0 {
            seq![(v, count_value(h, v) as u8)]
        } else {
            seq![]
        }
    }
}

pub open spec fn groups(h: Seq<Card>) -> Seq<(Value, u8)> {
    groups_upto(h, 13)
}

/// The groups of `g` (among its first `k`) with `n` cards.
pub open spec fn with_count(g: Seq<(Value, u8)>, n: u8, k: nat) -> Seq<(Value, u8)>
    decreases k,
{
    if k == 0 || k > g.len() {
        seq![]
    } else {
        with_count(g, n, (k - 1) as nat) + if g[k - 1].1 == n {
            seq![g[k - 1]]
        } else {
            seq![]
        }
    }
}

/// The groups ordered by size, largest first; groups of one size stay highest first.
pub open spec fn by_count(h: Seq<Card>) -> Seq<(Value, u8)> {
    let g = groups(h);
    with_count(g, 4, g.len()) + with_count(g, 3, g.len()) + with_count(g, 2, g.len())
        + with_count(g, 1, g.len())
}

/// All cards have the suit of the first.
pub open spec fn flush(h: Seq<Card>) -> bool {
    forall|i: int| 0 <= i < h.len() ==> (#[trigger] h[i]).suit_spec() == h[0].suit_spec()
}

/// Five ranks in a row, the ace also counting below the two.
pub open spec fn straight(h: Seq<Card>) -> bool {
    let b = by_count(h);
    b.len() == 5 && (worth(b[0].0) - worth(b[4].0) == 4 || (b[0].0 == Value::Ace && b[1].0
        == Value::Five))
}

pub open spec fn firsts(b: Seq<(Value, u8)>) -> Seq<Value> {
    b.map_values(|p: (Value, u8)| p.0)
}

/// The rank of a hand of five cards. A straight is named by its highest card,
/// except that in A-5-4-3-2 the ace counts low and the five names it; a
/// straight flush from ace down to ten is royal.
pub open spec fn rank_key(h: Seq<Card>) -> (nat, Seq<Value>) {
    let b = by_count(h);
    if b.len() == 5 {
        if straight(h) {
            if flush(h) && b[1].0 == Value::King {
                (9, seq![])
            } else {
                let v = if b[0].0 == Value::Ace && b[1].0 == Value::Five {
                    b[1].0
                } else {
                    b[0].0
                };
                if flush(h) {
                    (8, seq![v])
                } else {
                    (4, seq![v])
                }
            }
        } else if flush(h) {
            (5, firsts(b))
        } else {
            (0, firsts(b))
        }
    } else if b.len() == 4 {
        (1, firsts(b))
    } else if b.len() == 3 {
        if b[0].1 == 2 {
            (2, firsts(b))
        } else {
            (3, firsts(b))
        }
    } else if b[0].1 == 3 {
        (6, firsts(b))
    } else {
        (7, firsts(b))
    }
}

fn ranks_high_first() -> (r: [Value; 13])
    ensures
        r@ == ranks_desc(),
{
    let r = [
        Value::Ace,
        Value::King,
        Value::Queen,
        Value::Jack,
        Value::Ten,
        Value::Nine,
        Value::Eight,
        Value::Seven,
        Value::Six,
        Value::Five,
        Value::Four,
        Value::Three,
        Value::Two,
    ];
    assert(r@ =~= ranks_desc());
    r
}

fn count_in(cards: &[Card; 5], v: Value) -> (r: u8)
    ensures
        r == count_value(cards@, v),
        r <= 5,
{
    let mut n: u8 = 0;
    let mut i: usize = 0;
    while i < 5
        invariant
            i <= 5,
            cards@.len() == 5,
            n == count_value(cards@.take(i as int), v),
            n <= i,
        decreases 5 - i,
    {
        assert(cards@.take(i + 1).drop_last() =~= cards@.take(i as int));
        if cards[i].1 == v {
            n = n + 1;
        }
        i = i + 1;
    }
    assert(cards@.take(5) =~= cards@);
    n
}

fn select_count(g: &Vec<(Value, u8)>, n: u8, out: &mut Vec<(Value, u8)>)
    ensures
        final(out)@ == old(out)@ + with_count(g@, n, g@.len()),
{
    let mut k: usize = 0;
    while k < g.len()
        invariant
            k <= g@.len(),
            out@ == old(out)@ + with_count(g@, n, k as nat),
        decreases g.len() - k,
    {
        let p = g[k];
        if p.1 == n {
            out.push(p);
        }
        k = k + 1;
        assert(out@ =~= old(out)@ + with_count(g@, n, k as nat));
    }
}

/// The hand grouped by rank, larger groups first.
fn grouped(cards: &[Card; 5]) -> (b: Vec<(Value, u8)>)
    ensures
        b@ == by_count(cards@),
{
    let order = ranks_high_first();
    let mut g: Vec<(Value, u8)> = Vec::new();
    let mut k: usize = 0;
    while k < 13
        invariant
            k <= 13,
            order@ == ranks_desc(),
            g@ == groups_upto(cards@, k as nat),
        decreases 13 - k,
    {
        let v = order[k];
        let n = count_in(cards, v);
        if n > 0 {
            g.push((v, n));
        }
        k = k + 1;
        assert(g@ =~= groups_upto(cards@, k as nat));
    }
    let mut b: Vec<(Value, u8)> = Vec::new();
    select_count(&g, 4, &mut b);
    select_count(&g, 3, &mut b);
    select_count(&g, 2, &mut b);
    select_count(&g, 1, &mut b);
    assert(b@ =~= by_count(cards@));
    b
}

/// The rank of a hand of five cards that holds from two to five ranks.
pub fn rank(cards: &[Card; 5]) -> (r: Rank)
    requires
        2 <= by_count(cards@).len() <= 5,
    ensures
        r.key() == rank_key(cards@),
{
    let b = grouped(cards);
    let suit = cards[0].0;
    let mut is_flush = true;
    let mut i: usize = 1;
    while i < 5
        invariant
            1 <= i <= 5,
            cards@.len() == 5,
            suit == cards@[0].suit_spec(),
            is_flush == forall|j: int| 0 <= j < i ==> (#[trigger] cards@[j]).suit_spec() == suit,
        decreases 5 - i,
    {
        if cards[i].0 != suit {
            is_flush = false;
        }
        i = i + 1;
    }
    assert(is_flush == flush(cards@));
    let n = b.len();
    if n == 5 {
        let vals = [b[0].0, b[1].0, b[2].0, b[3].0, b[4].0];
        assert(vals@ =~= firsts(b@));
        let is_straight = (b[0].0.value() as i16 - b[4].0.value() as i16 == 4) || (b[0].0
            == Value::Ace && b[1].0 == Value::Five);
        if is_straight {
            if is_flush && b[1].0 == Value::King {
                return Rank::RoyalStraightFlush;
            }
            let v = if b[0].0 == Value::Ace && b[1].0 == Value::Five {
                b[1].0
            } else {
                b[0].0
            };
            if is_flush {
                return Rank::StraightFlush(v);
            }
            return Rank::Straight(v);
        }
        if is_flush {
            return Rank::Flush(vals);
        }
        return Rank::HighCard(vals);
    }
    if n == 4 {
        let vals = [b[0].0, b[1].0, b[2].0, b[3].0];
        assert(vals@ =~= firsts(b@));
        return Rank::Pair(vals);
    }
    if n == 3 {
        let vals = [b[0].0, b[1].0, b[2].0];
        assert(vals@ =~= firsts(b@));
        if b[0].1 == 2 {
            return Rank::TwoPair(vals);
        }
        return Rank::Triple(vals);
    }
    let vals = [b[0].0, b[1].0];
    assert(vals@ =~= firsts(b@));
    if b[0].1 == 3 {
        return Rank::FullHouse(vals);
    }
    Rank::Bomb(vals)
}

// ---------------------------------------------------------------------------
// Comparing hands
// ---------------------------------------------------------------------------

/// Compares tie-breaking ranks one by one: negative if `a` is lower, positive
/// if higher, 0 if they are equal; a sequence that runs out first is lower.
pub open spec fn lex_cmp(a: Seq<Value>, b: Seq<Value>) -> int
    decreases a.len(),
{
    if a.len() == 0 && b.len() == 0 {
        0
    } else if a.len() == 0 {
        -1
    } else if b.len() == 0 {
        1
    } else if worth(a[0]) < worth(b[0]) {
        -1
    } else if worth(a[0]) > worth(b[0]) {
        1
    } else {
        lex_cmp(a.drop_first(), b.drop_first())
    }
}

/// Compares two ranks: by category first, then by the tie-breaking ranks.
pub open spec fn key_cmp(a: (nat, Seq<Value>), b: (nat, Seq<Value>)) -> int {
    if a.0 < b.0 {
        -1
    } else if a.0 > b.0 {
        1
    } else {
        lex_cmp(a.1, b.1)
    }
}

proof fn lemma_worth_injective(x: Value, y: Value)
    requires
        worth(x) == worth(y),
    ensures
        x == y,
{
    match x {
        Value::Two => {},
        Value::Three => {},
        Value::Four => {},
        Value::Five => {},
        Value::Six => {},
        Value::Seven => {},
        Value::Eight => {},
        Value::Nine => {},
        Value::Ten => {},
        Value::Jack => {},
        Value::Queen => {},
        Value::King => {},
        Value::Ace => {},
    }
}

/// `lex_cmp` orders sequences of ranks totally.
proof fn lemma_lex_order(a: Seq<Value>, b: Seq<Value>, c: Seq<Value>)
    ensures
        -1 <= lex_cmp(a, b) <= 1,
        lex_cmp(a, b) == -lex_cmp(b, a),
        lex_cmp(a, b) == 0 ==> a == b,
        lex_cmp(a, b) >= 0 && lex_cmp(b, c) >= 0 ==> lex_cmp(a, c) >= 0,
        lex_cmp(a, b) >= 0 && lex_cmp(b, c) >= 0 && (lex_cmp(a, b) > 0 || lex_cmp(b, c) > 0)
            ==> lex_cmp(a, c) > 0,
    decreases a.len(),
{
    if a.len() > 0 && b.len() > 0 && c.len() > 0 {
        lemma_lex_order(a.drop_first(), b.drop_first(), c.drop_first());
    } else if a.len() > 0 && b.len() > 0 {
        lemma_lex_order(a.drop_first(), b.drop_first(), c);
    }
    if a.len() == 0 && b.len() == 0 {
        assert(a =~= b);
    }
    if a.len() > 0 && b.len() > 0 && worth(a[0]) == worth(b[0]) && lex_cmp(a, b) == 0 {
        lemma_worth_injective(a[0], b[0]);
        assert(a =~= seq![a[0]] + a.drop_first());
        assert(b =~= seq![b[0]] + b.drop_first());
    }
}

/// `key_cmp` orders ranks totally; ranks that compare equal are the same.
pub proof fn lemma_key_order(a: (nat, Seq<Value>), b: (nat, Seq<Value>), c: (nat, Seq<Value>))
    ensures
        key_cmp(a, a) == 0,
        key_cmp(a, b) == -key_cmp(b, a),
        key_cmp(a, b) == 0 ==> a == b,
        key_cmp(a, b) >= 0 && key_cmp(b, c) >= 0 ==> key_cmp(a, c) >= 0,
        key_cmp(a, b) >= 0 && key_cmp(b, c) >= 0 && (key_cmp(a, b) > 0 || key_cmp(b, c) > 0)
            ==> key_cmp(a, c) > 0,
{
    lemma_lex_order(a.1, b.1, c.1);
    lemma_lex_order(a.1, a.1, a.1);
    lemma_lex_order(a.1, c.1, b.1);
    lemma_lex_order(b.1, a.1, c.1);
}

fn key_parts(r: &Rank) -> (k: (u8, Vec<Value>))
    ensures
        (k.0 as nat, k.1@) == r.key(),
{
    let mut v: Vec<Value> = Vec::new();
    let cat: u8 = match r {
        Rank::HighCard(a) => {
            v.push(a[0]);
            v.push(a[1]);
            v.push(a[2]);
            v.push(a[3]);
            v.push(a[4]);
            0
        },
        Rank::Pair(a) => {
            v.push(a[0]);
            v.push(a[1]);
            v.push(a[2]);
            v.push(a[3]);
            1
        },
        Rank::TwoPair(a) => {
            v.push(a[0]);
            v.push(a[1]);
            v.push(a[2]);
            2
        },
        Rank::Triple(a) => {
            v.push(a[0]);
            v.push(a[1]);
            v.push(a[2]);
            3
        },
        Rank::Straight(x) => {
            v.push(*x);
            4
        },
        Rank::Flush(a) => {
            v.push(a[0]);
            v.push(a[1]);
            v.push(a[2]);
            v.push(a[3]);
            v.push(a[4]);
            5
        },
        Rank::FullHouse(a) => {
            v.push(a[0]);
            v.push(a[1]);
            6
        },
        Rank::Bomb(a) => {
            v.push(a[0]);
            v.push(a[1]);
            7
        },
        Rank::StraightFlush(x) => {
            v.push(*x);
            8
        },
        Rank::RoyalStraightFlush => 9,
    };
    assert(v@ =~= r.key().1);
    (cat, v)
}

/// Compares two ranks: negative, zero or positive as `a` is lower than, equal
/// to or higher than `b`.
pub fn compare(a: &Rank, b: &Rank) -> (r: i8)
    ensures
        r == key_cmp(a.key(), b.key()),
{
    let (ca, va) = key_parts(a);
    let (cb, vb) = key_parts(b);
    if ca < cb {
        return -1;
    }
    if ca > cb {
        return 1;
    }
    proof {
        assert(va@.skip(0) =~= va@);
        assert(vb@.skip(0) =~= vb@);
    }
    let mut i: usize = 0;
    while i < va.len() && i < vb.len()
        invariant
            ca == cb,
            (ca as nat, va@) == a.key(),
            (cb as nat, vb@) == b.key(),
            i <= va@.len(),
            i <= vb@.len(),
            lex_cmp(va@.skip(i as int), vb@.skip(i as int)) == lex_cmp(va@, vb@),
        decreases va.len() - i,
    {
        let x = va[i].value();
        let y = vb[i].value();
        assert(va@.skip(i as int)[0] == va@[i as int]);
        assert(vb@.skip(i as int)[0] == vb@[i as int]);
        if x < y {
            return -1;
        }
        if x > y {
            return 1;
        }
        assert(va@.skip(i as int).drop_first() =~= va@.skip(i + 1));
        assert(vb@.skip(i as int).drop_first() =~= vb@.skip(i + 1));
        i = i + 1;
    }
    if va.len() < vb.len() {
        -1
    } else if va.len() > vb.len() {
        1
    } else {
        0
    }
}

// ---------------------------------------------------------------------------
// Hands
// ---------------------------------------------------------------------------

/// The cards the words name, if each of them names one.
pub open spec fn words_cards(ws: Seq<Seq<char>>) -> Option<Seq<(Suit, Value)>>
    decreases ws.len(),
{
    if ws.len() == 0 {
        Some(seq![])
    } else {
        match (words_cards(ws.drop_last()), card_named(ws.last())) {
            (Some(p), Some(c)) => Some(p.push(c)),
            _ => None,
        }
    }
}

pub closed spec fn as_cards(p: Seq<(Suit, Value)>) -> Seq<Card> {
    p.map_values(|x: (Suit, Value)| Card(x.0, x.1))
}

/// The five cards a hand such as `4S 5H 6D 10C KS` names.
pub open spec fn hand_of(s: Seq<char>) -> Option<Seq<Card>> {
    match words_cards(words_from(s, seq![])) {
        Some(p) => if p.len() == 5 {
            Some(as_cards(p))
        } else {
            None
        },
        None => None,
    }
}

/// A hand that names five cards of two to five ranks.
pub open spec fn valid_hand(s: Seq<char>) -> bool {
    hand_of(s) matches Some(h) && 2 <= by_count(h).len() <= 5
}

/// Reads a hand of five cards separated by white space.
pub fn parse_hand(s: &str) -> (r: Result<[Card; 5], Error>)
    ensures
        match hand_of(s@) {
            Some(h) => r matches Ok(c) && c@ == h,
            None => r is Err,
        },
        words_cards(words_from(s@, seq![])) matches Some(p) && p.len() != 5 ==> (r matches Err(
            Error::BadCard(m),
        ) && m@ == "invalid number of cards"@),
{
    let words = split_words(s);
    let ghost ws = words_from(s@, seq![]);
    let mut cards: Vec<Card> = Vec::new();
    let mut i: usize = 0;
    while i < words.len()
        invariant
            str_views(words@) == ws,
            ws == words_from(s@, seq![]),
            i <= words@.len(),
            words_cards(ws.take(i as int)) matches Some(p) && cards@ == as_cards(p),
        decreases words.len() - i,
    {
        let ghost pre = ws.take(i as int);
        assert(ws.take(i + 1).drop_last() =~= pre);
        assert(ws.take(i + 1).last() == words@[i as int]@);
        match parse_card(words[i]) {
            Ok(c) => {
                let ghost p = words_cards(pre).unwrap();
                cards.push(c);
                assert(cards@ =~= as_cards(p.push((c.suit_spec(), c.value_spec()))));
            },
            Err(e) => {
                proof {
                    assert(card_named(words@[i as int]@) is None);
                    assert(words_cards(ws.take(i + 1)) is None);
                    lemma_no_cards_after(ws, i as int + 1);
                }
                return Err(e);
            },
        }
        i = i + 1;
    }
    assert(ws.take(i as int) =~= ws);
    if cards.len() != 5 {
        return Err(Error::BadCard(String::from_str("invalid number of cards")));
    }
    let hand = [cards[0], cards[1], cards[2], cards[3], cards[4]];
    assert(hand@ =~= cards@);
    Ok(hand)
}

proof fn lemma_no_cards_after(ws: Seq<Seq<char>>, k: int)
    requires
        0 <= k <= ws.len(),
        words_cards(ws.take(k)) is None,
    ensures
        words_cards(ws) is None,
    decreases ws.len() - k,
{
    if k < ws.len() {
        assert(ws.take(k + 1).drop_last() =~= ws.take(k));
        lemma_no_cards_after(ws, k + 1);
    } else {
        assert(ws.take(k) =~= ws);
    }
}

/// The rank of each hand.
pub open spec fn hand_keys(hands: Seq<&str>) -> Seq<(nat, Seq<Value>)> {
    hands.map_values(|h: &str| rank_key(hand_of(h@).unwrap()))
}

/// No hand among the first `n` has a higher rank than hand `i`.
pub open spec fn best_among(keys: Seq<(nat, Seq<Value>)>, n: int, i: int) -> bool {
    forall|j: int| 0 <= j < n ==> key_cmp(keys[i], #[trigger] keys[j]) >= 0
}

/// `idx` lists, in increasing order and each once, the hands among the first
/// `n` that no other of them beats.
pub open spec fn winners_among(keys: Seq<(nat, Seq<Value>)>, n: int, idx: Seq<int>) -> bool {
    &&& forall|a: int, b: int| 0 <= a < b < idx.len() ==> idx[a] < idx[b]
    &&& forall|a: int| 0 <= a < idx.len() ==> 0 <= #[trigger] idx[a] < n && best_among(keys, n, idx[a])
    &&& forall|i: int| 0 <= i < n && best_among(keys, n, i) ==> idx.contains(i)
}

pub open spec fn picked<'a>(hands: Seq<&'a str>, idx: Seq<int>) -> Seq<&'a str> {
    idx.map_values(|i: int| hands[i])
}

fn hand_rank(s: &str) -> (r: Rank)
    requires
        valid_hand(s@),
    ensures
        r.key() == rank_key(hand_of(s@).unwrap()),
{
    match parse_hand(s) {
        Ok(cards) => rank(&cards),
        Err(_) => Rank::RoyalStraightFlush,
    }
}

/// The winning hands: those of the highest rank, in the order given, each once.
pub fn winning_hands<'a>(hands: &[&'a str]) -> (r: Vec<&'a str>)
    requires
        hands@.len() >= 1,
        forall|i: int| 0 <= i < hands@.len() ==> valid_hand(#[trigger] hands@[i]@),
    ensures
        exists|idx: Seq<int>|
            winners_among(hand_keys(hands@), hands@.len() as int, idx) && r@ == picked(hands@, idx),
{
    let ghost keys = hand_keys(hands@);
    let mut pre: usize = 0;
    let mut pre_rank = hand_rank(hands[0]);
    let mut win: Vec<&'a str> = Vec::new();
    win.push(hands[0]);
    let ghost mut idx: Seq<int> = seq![0];
    proof {
        lemma_key_order(keys[0], keys[0], keys[0]);
        assert(idx[0] == 0);
        assert(idx.contains(0));
    }
    assert(win@ =~= picked(hands@, idx));
    let mut k: usize = 1;
    while k < hands.len()
        invariant
            keys == hand_keys(hands@),
            1 <= k <= hands@.len(),
            forall|i: int| 0 <= i < hands@.len() ==> valid_hand(#[trigger] hands@[i]@),
            pre < k,
            best_among(keys, k as int, pre as int),
            pre_rank.key() == keys[pre as int],
            winners_among(keys, k as int, idx),
            win@ == picked(hands@, idx),
        decreases hands.len() - k,
    {
        let cur = hands[k];
        let cur_rank = hand_rank(cur);
        assert(cur_rank.key() == keys[k as int]);
        let ghost kk = k as int;
        let ghost old_idx = idx;
        let ghost p0 = pre as int;
        let c = compare(&pre_rank, &cur_rank);
        proof {
            lemma_key_order(keys[kk], keys[kk], keys[kk]);
            lemma_key_order(keys[p0], keys[kk], keys[kk]);
        }
        if c < 0 {
            win.clear();
            win.push(cur);
            pre = k;
            pre_rank = cur_rank;
            proof {
                idx = seq![kk];
                assert forall|j: int| 0 <= j < kk + 1 implies key_cmp(keys[kk], #[trigger] keys[j])
                    >= 0 by {
                    if j < kk {
                        assert(key_cmp(keys[p0], keys[j]) >= 0);
                        lemma_key_order(keys[kk], keys[p0], keys[j]);
                    }
                }
                assert forall|i: int| 0 <= i < kk + 1 && best_among(keys, kk + 1, i) implies idx.contains(
                    i,
                ) by {
                    if i < kk {
                        assert(key_cmp(keys[i], keys[kk]) >= 0);
                        lemma_key_order(keys[kk], keys[i], keys[i]);
                        assert(key_cmp(keys[kk], keys[i]) > 0);
                    }
                    assert(idx[0] == kk);
                }
            }
            assert(win@ =~= picked(hands@, idx));
        } else if c == 0 {
            win.push(cur);
            proof {
                idx = old_idx.push(kk);
                assert(keys[p0] == keys[kk]);
                assert forall|a: int| 0 <= a < idx.len() implies 0 <= #[trigger] idx[a] < kk + 1
                    && best_among(keys, kk + 1, idx[a]) by {
                    let i = idx[a];
                    if a < old_idx.len() {
                        assert(best_among(keys, kk, i));
                        assert(key_cmp(keys[i], keys[p0]) >= 0);
                    } else {
                        assert forall|j: int| 0 <= j < kk + 1 implies key_cmp(
                            keys[i],
                            #[trigger] keys[j],
                        ) >= 0 by {
                            if j < kk {
                                assert(key_cmp(keys[p0], keys[j]) >= 0);
                            }
                        }
                    }
                }
                assert forall|i: int| 0 <= i < kk + 1 && best_among(keys, kk + 1, i) implies idx.contains(
                    i,
                ) by {
                    if i < kk {
                        assert forall|j: int| 0 <= j < kk implies key_cmp(keys[i], #[trigger] keys[j])
                            >= 0 by {
                            assert(key_cmp(keys[i], keys[j]) >= 0);
                        }
                        assert(old_idx.contains(i));
                        let a = choose|a: int| 0 <= a < old_idx.len() && old_idx[a] == i;
                        assert(idx[a] == i);
                    } else {
                        assert(idx[old_idx.len() as int] == kk);
                    }
                }
                assert forall|a: int, b: int| 0 <= a < b < idx.len() implies idx[a] < idx[b] by {
                    if b < old_idx.len() {
                    } else {
                        assert(0 <= old_idx[a] < kk);
                    }
                }
            }
            assert(win@ =~= picked(hands@, idx));
        } else {
            proof {
                assert forall|a: int| 0 <= a < idx.len() implies 0 <= #[trigger] idx[a] < kk + 1
                    && best_among(keys, kk + 1, idx[a]) by {
                    let i = idx[a];
                    assert(best_among(keys, kk, i));
                    assert(key_cmp(keys[i], keys[p0]) >= 0);
                    lemma_key_order(keys[i], keys[p0], keys[kk]);
                }
                assert forall|i: int| 0 <= i < kk + 1 && best_among(keys, kk + 1, i) implies idx.contains(
                    i,
                ) by {
                    if i < kk {
                        assert forall|j: int| 0 <= j < kk implies key_cmp(keys[i], #[trigger] keys[j])
                            >= 0 by {
                            assert(key_cmp(keys[i], keys[j]) >= 0);
                        }
                    } else {
                        assert(key_cmp(keys[kk], keys[p0]) >= 0);
                    }
                }
                assert forall|j: int| 0 <= j < kk + 1 implies key_cmp(keys[p0], #[trigger] keys[j])
                    >= 0 by {
                }
            }
        }
        k = k + 1;
    }
    assert(winners_among(keys, hands@.len() as int, idx));
    win
}

/// The winning hands, or `None` if there are no hands or one of them does not
/// name five cards of two to five ranks.
pub fn try_winning_hands<'a>(hands: &[&'a str]) -> (r: Option<Vec<&'a str>>)
    ensures
        (hands@.len() >= 1 && forall|i: int| 0 <= i < hands@.len() ==> valid_hand(#[trigger] hands@[i]@))
            <==> r is Some,
        r matches Some(v) ==> exists|idx: Seq<int>|
            winners_among(hand_keys(hands@), hands@.len() as int, idx) && v@ == picked(hands@, idx),
{
    if hands.len() == 0 {
        return None;
    }
    let mut i: usize = 0;
    while i < hands.len()
        invariant
            i <= hands@.len(),
            forall|j: int| 0 <= j < i ==> valid_hand(#[trigger] hands@[j]@),
        decreases hands.len() - i,
    {
        match parse_hand(hands[i]) {
            Ok(cards) => {
                let n = grouped(&cards).len();
                if n < 2 || n > 5 {
                    return None;
                }
            },
            Err(_) => return None,
        }
        i = i + 1;
    }
    Some(winning_hands(hands))
}

} // verus!
