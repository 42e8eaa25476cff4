//! The alias store: user-chosen names, each mapped to one saved character.
//! An alias written twice keeps the later character — last write wins.

use vstd::prelude::*;

verus! {

/// Stores variables and data for later use: each alias names one character.
pub struct Store {
    saved: Vec<(String, char)>,
}

impl Store {
    /// The mapping of a sequence of entries, later entries winning.
    pub closed spec fn map_of(entries: Seq<(String, char)>) -> Map<Seq<char>, char>
        decreases entries.len(),
    {
        if entries.len() == 0 {
            Map::empty()
        } else {
            Store::map_of(entries.drop_last()).insert(entries.last().0@, entries.last().1)
        }
    }

    /// The mapping the store holds.
    pub closed spec fn view(&self) -> Map<Seq<char>, char> {
        Store::map_of(self.saved@)
    }

    /// No alias occurs twice among the entries.
    pub closed spec fn wf(&self) -> bool {
        forall|i: int, j: int|
            0 <= i < j < self.saved@.len() ==> (#[trigger] self.saved@[i]).0@ != (
            #[trigger] self.saved@[j]).0@
    }

    /// Creates a new, empty store.
    /// This is the value used when there is no persisted store.
    pub fn new() -> (s: Store)
        ensures
            s@ == Map::<Seq<char>, char>::empty(),
            s.wf(),
    {
        let s = Store { saved: Vec::new() };
        proof {
            assert(s.saved@.len() == 0);
        }
        s
    }

    /// The character saved under the alias, if there is one.
    pub fn get(&self, alias: &String) -> (r: Option<char>)
        requires
            self.wf(),
        ensures
            r == if self@.contains_key(alias@) {
                Some(self@[alias@])
            } else {
                None::<char>
            },
    {
        let n = self.saved.len();
        let mut k: usize = 0;
        while k < n
            invariant
                k <= n,
                n == self.saved@.len(),
                self.wf(),
                forall|j: int| 0 <= j < k ==> (#[trigger] self.saved@[j]).0@ != alias@,
            decreases n - k,
        {
            let (name, value) = &self.saved[k];
            if *name == *alias {
                proof {
                    lemma_map_of_at(self.saved@, k as int);
                }
                return Some(*value);
            }
            k = k + 1;
        }
        proof {
            lemma_map_of_domain(self.saved@);
            assert(!has_alias(self.saved@, alias@));
        }
        None
    }

    /// Saves the character under the alias, replacing whatever the alias
    /// named before: last write wins, no merge.
    pub fn insert(&mut self, alias: String, value: char)
        requires
            old(self).wf(),
        ensures
            final(self)@ == old(self)@.insert(alias@, value),
            final(self).wf(),
    {
        let ghost pre = self.saved@;
        let n = self.saved.len();
        let mut k: usize = 0;
        let mut found = false;
        loop
            invariant_except_break
                !found,
            invariant
                k <= n,
                n == self.saved@.len(),
                old(self).wf(),
                self.saved@ == pre,
                forall|j: int| 0 <= j < k ==> (#[trigger] self.saved@[j]).0@ != alias@,
            ensures
                self.saved@ == pre,
                n == pre.len(),
                found ==> k < n && pre[k as int].0@ == alias@,
                !found ==> forall|j: int| 0 <= j < n ==> (#[trigger] pre[j]).0@ != alias@,
            decreases n - k,
        {
            if k == n {
                break;
            }
            let hit = {
                let (name, _) = &self.saved[k];
                *name == alias
            };
            if hit {
                found = true;
                break;
            }
            k = k + 1;
        }
        if found {
            self.saved.remove(k);
            proof {
                lemma_map_of_remove(pre, k as int);
                assert forall|x: int, y: int| 0 <= x < y < self.saved@.len() implies (
                #[trigger] self.saved@[x]).0@ != (#[trigger] self.saved@[y]).0@ by {
                    let x0 = if x < k { x } else { x + 1 };
                    let y0 = if y < k { y } else { y + 1 };
                    assert(self.saved@[x] == pre[x0] && self.saved@[y] == pre[y0]);
                };
                assert(!has_alias(self.saved@, alias@)) by {
                    if has_alias(self.saved@, alias@) {
                        let w = choose|w: int|
                            0 <= w < self.saved@.len() && (#[trigger] self.saved@[w]).0@
                                == alias@;
                        let w0 = if w < k { w } else { w + 1 };
                        assert(pre[w0].0@ == alias@ && w0 != k);
                    }
                };
            }
        } else {
            proof {
                lemma_map_of_domain(pre);
                assert(!has_alias(pre, alias@)) by {
                    if has_alias(pre, alias@) {
                        let w = choose|w: int|
                            0 <= w < pre.len() && (#[trigger] pre[w]).0@ == alias@;
                    }
                };
                assert(!Store::map_of(pre).contains_key(alias@));
            }
        }
        let ghost mid = self.saved@;
        proof {
            lemma_map_of_domain(mid);
            assert(!has_alias(mid, alias@) ==> forall|x: int|
                0 <= x < mid.len() ==> (#[trigger] mid[x]).0@ != alias@);
            assert(Store::map_of(mid) =~= Store::map_of(pre).remove(alias@)
                || Store::map_of(mid) =~= Store::map_of(pre));
        }
        self.saved.push((alias, value));
        proof {
            assert(self.saved@.drop_last() =~= mid);
            assert(self.saved@.last() == (alias, value));
            assert(Store::map_of(self.saved@) == Store::map_of(mid).insert(alias@, value));
            assert(Store::map_of(mid).insert(alias@, value) =~= Store::map_of(pre).insert(
                alias@,
                value,
            ));
            assert(forall|x: int| 0 <= x < mid.len() ==> (#[trigger] mid[x]).0@ != alias@);
            assert forall|x: int, y: int| 0 <= x < y < self.saved@.len() implies (
            #[trigger] self.saved@[x]).0@ != (#[trigger] self.saved@[y]).0@ by {
                if y < self.saved@.len() - 1 {
                    assert(self.saved@[x] == mid[x] && self.saved@[y] == mid[y]);
                } else {
                    assert(self.saved@[x] == mid[x]);
                }
            };
        }
    }

    /// The saved entries, alias by alias; in a well-formed store each alias
    /// occurs once.
    pub fn entries(&self) -> (v: &Vec<(String, char)>)
        ensures
            Store::map_of(v@) == self@,
            self.wf() ==> forall|i: int, j: int|
                0 <= i < j < v@.len() ==> (#[trigger] v@[i]).0@ != (#[trigger] v@[j]).0@,
    {
        &self.saved
    }
}

/// Some entry carries the alias.
spec fn has_alias(entries: Seq<(String, char)>, n: Seq<char>) -> bool {
    exists|i: int| 0 <= i < entries.len() && (#[trigger] entries[i]).0@ == n
}

/// The mapping holds exactly the aliases of the entries.
proof fn lemma_map_of_domain(entries: Seq<(String, char)>)
    ensures
        forall|n: Seq<char>| #[trigger] Store::map_of(entries).contains_key(n) <==> has_alias(
            entries,
            n,
        ),
    decreases entries.len(),
{
    if entries.len() > 0 {
        let head = entries.drop_last();
        lemma_map_of_domain(head);
        assert forall|n: Seq<char>| #[trigger] Store::map_of(entries).contains_key(n) implies
        has_alias(entries, n) by {
            if n == entries.last().0@ {
                assert(entries[entries.len() - 1].0@ == n);
            } else {
                assert(Store::map_of(head).contains_key(n));
                assert(has_alias(head, n));
                let i = choose|i: int| 0 <= i < head.len() && (#[trigger] head[i]).0@ == n;
                assert(entries[i].0@ == n);
            }
        };
        assert forall|n: Seq<char>| has_alias(entries, n) implies Store::map_of(
            entries,
        ).contains_key(n) by {
            let i = choose|i: int| 0 <= i < entries.len() && (#[trigger] entries[i]).0@ == n;
            if i < entries.len() - 1 {
                assert(head[i].0@ == n);
                assert(has_alias(head, n));
                assert(Store::map_of(head).contains_key(n));
            } else {
                assert(n == entries.last().0@);
            }
        };
    }
}

/// When no later entry carries the alias of entry `i`, the mapping sends that
/// alias to entry `i`'s character.
proof fn lemma_map_of_at(entries: Seq<(String, char)>, i: int)
    requires
        0 <= i < entries.len(),
        forall|j: int| i < j < entries.len() ==> (#[trigger] entries[j]).0@ != entries[i].0@,
    ensures
        Store::map_of(entries).contains_key(entries[i].0@),
        Store::map_of(entries)[entries[i].0@] == entries[i].1,
    decreases entries.len(),
{
    if i < entries.len() - 1 {
        let head = entries.drop_last();
        lemma_map_of_at(head, i);
    }
}

/// Removing an entry whose alias no other entry carries removes exactly that
/// alias from the mapping.
proof fn lemma_map_of_remove(entries: Seq<(String, char)>, k: int)
    requires
        0 <= k < entries.len(),
        forall|j: int| 0 <= j < entries.len() && j != k ==> (#[trigger] entries[j]).0@
            != entries[k].0@,
    ensures
        Store::map_of(entries.remove(k)) =~= Store::map_of(entries).remove(entries[k].0@),
    decreases entries.len(),
{
    let a = entries[k].0@;
    let head = entries.drop_last();
    if k == entries.len() - 1 {
        assert(entries.remove(k) =~= head);
        lemma_map_of_domain(head);
        assert(!has_alias(head, a)) by {
            if has_alias(head, a) {
                let w = choose|w: int| 0 <= w < head.len() && (#[trigger] head[w]).0@ == a;
                assert(entries[w].0@ == a);
            }
        };
        assert(Store::map_of(entries).remove(a) =~= Store::map_of(head).remove(a));
        assert(Store::map_of(head).remove(a) =~= Store::map_of(head));
    } else {
        assert(forall|j: int| 0 <= j < head.len() && j != k ==> (#[trigger] head[j]).0@
            != head[k].0@);
        lemma_map_of_remove(head, k);
        assert(entries.remove(k).drop_last() =~= head.remove(k));
        assert(entries.remove(k).last() == entries.last());
        assert(entries.remove(k).len() > 0);
        assert(Store::map_of(entries.remove(k)) == Store::map_of(head.remove(k)).insert(
            entries.last().0@,
            entries.last().1,
        ));
        assert(entries.last().0@ != a);
        assert(Store::map_of(head.remove(k)).insert(entries.last().0@, entries.last().1) =~= Store::map_of(
            entries,
        ).remove(a));
    }
}

/// Law: saving under one alias twice keeps only the second character.
pub proof fn lemma_last_write_wins(m: Map<Seq<char>, char>, alias: Seq<char>, c1: char, c2: char)
    ensures
        m.insert(alias, c1).insert(alias, c2) =~= m.insert(alias, c2),
        m.insert(alias, c1).insert(alias, c2)[alias] == c2,
{
}

} // verus!
