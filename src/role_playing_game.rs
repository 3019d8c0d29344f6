use vstd::prelude::*;
use vstd::string::*;

verus! {

pub struct Player {
    pub health: u32,
    pub mana: Option<u32>,
    pub level: u32,
}

impl Player {
    /// A dead player comes back with 100 health, and with 100 mana from level
    /// 10 on; a living player cannot be revived.
    pub fn revive(&self) -> (r: Option<Player>)
        ensures
            self.health == 0 ==> r == Some(
                Player {
                    health: 100,
                    level: self.level,
                    mana: if self.level < 10 {
                        None
                    } else {
                        Some(100u32)
                    },
                },
            ),
            self.health != 0 ==> r is None,
    {
        let level = self.level;
        match self.health {
            0 => {
                let health: u32 = 100;
                if level < 10 {
                    Some(Self { health, level, mana: None })
                } else {
                    Some(Self { health, level, mana: Some(100) })
                }
            },
            _ => None,
        }
    }

    /// Casts a spell and returns its damage. A player with mana spends it: with
    /// no more mana than the cost, the mana drops to 0 and so does the damage;
    /// otherwise twice the cost is taken off and what is left is returned. A
    /// player without mana pays the cost in health instead, down to 0, for no damage.
    pub fn cast_spell(&mut self, mana_cost: u32) -> (r: u32)
        requires
            match old(self).mana {
                Some(m) => m > mana_cost ==> 2 * mana_cost <= m,
                None => true,
            },
        ensures
            final(self).level == old(self).level,
            match old(self).mana {
                Some(m) => {
                    &&& r == if m <= mana_cost {
                        0
                    } else {
                        (m - 2 * mana_cost) as u32
                    }
                    &&& final(self).mana == Some(r)
                    &&& final(self).health == old(self).health
                },
                None => {
                    &&& r == 0
                    &&& final(self).mana is None
                    &&& final(self).health == if old(self).health <= mana_cost {
                        0
                    } else {
                        (old(self).health - mana_cost) as u32
                    }
                },
            },
    {
        match self.mana {
            Some(m) => {
                let rem = if m <= mana_cost {
                    0
                } else {
                    m - mana_cost * 2
                };
                self.mana = Some(rem);
                rem
            },
            None => {
                self.health = if self.health <= mana_cost {
                    0
                } else {
                    self.health - mana_cost
                };
                0
            },
        }
    }
}

pub open spec fn views_of(words: Seq<&str>) -> Seq<Seq<char>> {
    words.map_values(|w: &str| w@)
}

fn same_str(a: &str, b: &str) -> (r: bool)
    ensures
        r == (a@ == b@),
{
    let n = a.unicode_len();
    if n != b.unicode_len() {
        return false;
    }
    let mut i: usize = 0;
    while i < n
        invariant
            n == a@.len(),
            n == b@.len(),
            i <= n,
            forall|j: int| 0 <= j < i ==> a@[j] == b@[j],
        decreases n - i,
    {
        if a.get_char(i) != b.get_char(i) {
            return false;
        }
        i = i + 1;
    }
    assert(a@ =~= b@);
    true
}

fn position(words: &Vec<&str>, w: &str) -> (r: Option<usize>)
    ensures
        match r {
            Some(i) => i < words@.len() && words@[i as int]@ == w@,
            None => forall|x: int| 0 <= x < words@.len() ==> (#[trigger] words@[x])@ != w@,
        },
{
    let mut j: usize = 0;
    while j < words.len()
        invariant
            j <= words@.len(),
            forall|x: int| 0 <= x < j ==> (#[trigger] words@[x])@ != w@,
        decreases words.len() - j,
    {
        if same_str(words[j], w) {
            return Some(j);
        }
        j = j + 1;
    }
    None
}

/// Whether the note can be cut out of the magazine: every word of the note,
/// as often as the note has it, is a word of the magazine, letter case counting.
pub fn can_construct_note(magazine: &[&str], note: &[&str]) -> (r: bool)
    ensures
        r == views_of(note@).to_multiset().subset_of(views_of(magazine@).to_multiset()),
{
    broadcast use vstd::seq_lib::group_to_multiset_ensures;

    let ghost whole = views_of(magazine@).to_multiset();
    let mut words: Vec<&str> = Vec::new();
    let mut k: usize = 0;
    while k < magazine.len()
        invariant
            k <= magazine@.len(),
            words@ == magazine@.take(k as int),
        decreases magazine.len() - k,
    {
        words.push(magazine[k]);
        k = k + 1;
        assert(words@ =~= magazine@.take(k as int));
    }
    assert(magazine@.take(k as int) =~= magazine@);
    assert(views_of(note@.take(0)) =~= Seq::<Seq<char>>::empty());
    assert(views_of(words@).to_multiset().add(views_of(note@.take(0)).to_multiset()) =~= whole);
    let mut i: usize = 0;
    while i < note.len()
        invariant
            i <= note@.len(),
            whole == views_of(magazine@).to_multiset(),
            views_of(words@).to_multiset().add(views_of(note@.take(i as int)).to_multiset()) == whole,
        decreases note.len() - i,
    {
        let w = note[i];
        let ghost done = views_of(note@.take(i as int));
        assert(views_of(note@.take(i + 1)) =~= done.push(w@));
        let found = position(&words, w);
        match found {
            Some(ind) => {
                let ghost before = views_of(words@);
                assert(before[ind as int] == w@);
                words.remove(ind);
                assert(views_of(words@) =~= before.remove(ind as int));
                assert(before.contains(w@));
                proof {
                    vstd::seq_lib::to_multiset_contains(before, w@);
                    vstd::seq_lib::to_multiset_remove(before, ind as int);
                    vstd::seq_lib::to_multiset_build(done, w@);
                }
                assert(before.to_multiset().count(w@) > 0);
                assert(before.remove(ind as int).to_multiset() == before.to_multiset().remove(w@));
                assert(done.push(w@).to_multiset() == done.to_multiset().insert(w@));
                assert(views_of(words@).to_multiset().add(done.push(w@).to_multiset())
                    =~= before.to_multiset().add(done.to_multiset()));
            },
            None => {
                let ghost ws = views_of(words@);
                assert forall|x: int| 0 <= x < ws.len() implies ws[x] != w@ by {
                    assert(ws[x] == words@[x]@);
                }
                assert(!ws.contains(w@));
                let ghost rest = views_of(note@).skip(i + 1);
                assert(views_of(note@) =~= done.push(w@) + rest);
                proof {
                    vstd::seq_lib::lemma_multiset_commutative(done.push(w@), rest);
                    vstd::seq_lib::to_multiset_build(done, w@);
                    vstd::seq_lib::to_multiset_contains(ws, w@);
                }
                assert((done.push(w@) + rest).to_multiset() =~= done.push(w@).to_multiset().add(
                    rest.to_multiset(),
                ));
                assert(done.push(w@).to_multiset() == done.to_multiset().insert(w@));
                assert(ws.to_multiset().count(w@) == 0);
                assert(views_of(note@).to_multiset().count(w@) > whole.count(w@));
                return false;
            },
        }
        i = i + 1;
    }
    assert(note@.take(i as int) =~= note@);
    true
}

} // verus!
