//! A table keyed by strings and kept in the order of its keys.

use crate::text::{chars_of, lemma_lex_irreflexive, lemma_lex_total, lemma_lex_transitive, less, lex_lt, same_chars};
use vstd::prelude::*;

verus! {

/// The key of each entry of `entries`, as a sequence of characters.
pub open spec fn keys_of<V>(entries: Seq<(String, V)>) -> Seq<Seq<char>> {
    Seq::new(entries.len(), |i: int| entries[i].0@)
}

/// Whether the keys of `entries` stand in strictly ascending order.
pub open spec fn ascending<V>(entries: Seq<(String, V)>) -> bool {
    forall|i: int, j: int|
        0 <= i < j < entries.len() ==> lex_lt(#[trigger] entries[i].0@, #[trigger] entries[j].0@)
}

/// The mapping that `entries` stand for: each key with its value, a later entry
/// replacing an earlier one with the same key.
pub open spec fn as_map<V>(entries: Seq<(String, V)>) -> Map<Seq<char>, V>
    decreases entries.len(),
{
    if entries.len() == 0 {
        Map::empty()
    } else {
        as_map(entries.drop_last()).insert(entries.last().0@, entries.last().1)
    }
}

/// Whether `key` is the key of one of `entries`.
pub open spec fn has_key<V>(entries: Seq<(String, V)>, key: Seq<char>) -> bool {
    exists|i: int| 0 <= i < entries.len() && #[trigger] entries[i].0@ == key
}

/// In ascending entries no key occurs twice.
pub proof fn lemma_ascending_distinct<V>(entries: Seq<(String, V)>, i: int, j: int)
    requires
        ascending(entries),
        0 <= i < entries.len(),
        0 <= j < entries.len(),
        entries[i].0@ == entries[j].0@,
    ensures
        i == j,
{
    lemma_lex_irreflexive(entries[i].0@);
    if i < j {
        assert(lex_lt(entries[i].0@, entries[j].0@));
    } else if j < i {
        assert(lex_lt(entries[j].0@, entries[i].0@));
    }
}

/// The mapping of ascending entries holds exactly their keys, each with its own value.
pub proof fn lemma_as_map<V>(entries: Seq<(String, V)>)
    requires
        ascending(entries),
    ensures
        forall|k: Seq<char>| as_map(entries).contains_key(k) <==> has_key(entries, k),
        forall|i: int| 0 <= i < entries.len() ==> as_map(entries)[#[trigger] entries[i].0@] == entries[i].1,
    decreases entries.len(),
{
    if entries.len() > 0 {
        let front = entries.drop_last();
        let last = entries.last();
        assert forall|i: int, j: int| 0 <= i < j < front.len() implies lex_lt(
            #[trigger] front[i].0@,
            #[trigger] front[j].0@,
        ) by {
            assert(lex_lt(entries[i].0@, entries[j].0@));
        }
        lemma_as_map(front);
        assert forall|k: Seq<char>| as_map(entries).contains_key(k) <==> has_key(entries, k) by {
            if has_key(entries, k) {
                let i = choose|i: int| 0 <= i < entries.len() && #[trigger] entries[i].0@ == k;
                if i < front.len() {
                    assert(front[i].0@ == k);
                    assert(has_key(front, k));
                }
            }
            if as_map(entries).contains_key(k) {
                if k == last.0@ {
                    assert(entries[entries.len() - 1].0@ == k);
                } else {
                    assert(has_key(front, k));
                    let i = choose|i: int| 0 <= i < front.len() && #[trigger] front[i].0@ == k;
                    assert(entries[i].0@ == k);
                }
            }
        }
        assert forall|i: int| 0 <= i < entries.len() implies as_map(entries)[#[trigger] entries[i].0@]
            == entries[i].1 by {
            if i < front.len() {
                assert(front[i] == entries[i]);
                if entries[i].0@ == last.0@ {
                    lemma_ascending_distinct(entries, i, entries.len() - 1);
                }
                assert(as_map(front)[front[i].0@] == front[i].1);
            }
        }
    }
}

/// Putting an entry at its place among ascending entries, in place of the entry with the
/// same key where there is one, keeps them ascending and sets its key in their mapping.
pub proof fn lemma_put<V>(old_entries: Seq<(String, V)>, new_entries: Seq<(String, V)>, i: int, entry: (String, V))
    requires
        ascending(old_entries),
        0 <= i <= old_entries.len(),
        forall|j: int| 0 <= j < i ==> lex_lt(#[trigger] old_entries[j].0@, entry.0@),
        forall|j: int| i <= j < old_entries.len() ==> !lex_lt(#[trigger] old_entries[j].0@, entry.0@),
        if i < old_entries.len() && old_entries[i].0@ == entry.0@ {
            new_entries == old_entries.update(i, entry)
        } else {
            new_entries == old_entries.insert(i, entry)
        },
    ensures
        ascending(new_entries),
        as_map(new_entries) == as_map(old_entries).insert(entry.0@, entry.1),
{
    let key = entry.0@;
    let replaced = i < old_entries.len() && old_entries[i].0@ == key;
    assert forall|a: int, b: int| 0 <= a < b < new_entries.len() implies lex_lt(
        #[trigger] new_entries[a].0@,
        #[trigger] new_entries[b].0@,
    ) by {
        if replaced {
            assert(new_entries[a].0@ == old_entries[a].0@);
            assert(new_entries[b].0@ == old_entries[b].0@);
            assert(lex_lt(old_entries[a].0@, old_entries[b].0@));
        } else {
            if b < i {
                assert(new_entries[a] == old_entries[a] && new_entries[b] == old_entries[b]);
                assert(lex_lt(old_entries[a].0@, old_entries[b].0@));
            } else if b == i {
                assert(new_entries[a] == old_entries[a]);
                assert(lex_lt(old_entries[a].0@, key));
            } else {
                assert(new_entries[b] == old_entries[b - 1]);
                lemma_lex_total(old_entries[b - 1].0@, key);
                assert(!lex_lt(old_entries[b - 1].0@, key));
                if b - 1 == i && i < old_entries.len() {
                    assert(old_entries[i].0@ != key);
                }
                if old_entries[b - 1].0@ == key {
                    assert(lex_lt(old_entries[i].0@, old_entries[b - 1].0@));
                    assert(!lex_lt(old_entries[i].0@, key));
                }
                assert(lex_lt(key, old_entries[b - 1].0@));
                if a < i {
                    assert(new_entries[a] == old_entries[a]);
                    lemma_lex_transitive(old_entries[a].0@, key, old_entries[b - 1].0@);
                } else if a == i {
                } else {
                    assert(new_entries[a] == old_entries[a - 1]);
                    assert(lex_lt(old_entries[a - 1].0@, old_entries[b - 1].0@));
                }
            }
        }
    }
    lemma_as_map(old_entries);
    lemma_as_map(new_entries);
    let target = as_map(old_entries).insert(key, entry.1);
    assert(new_entries[i] == entry);
    assert forall|k: Seq<char>| as_map(new_entries).contains_key(k) <==> target.contains_key(k) by {
        if has_key(new_entries, k) {
            let j = choose|j: int| 0 <= j < new_entries.len() && #[trigger] new_entries[j].0@ == k;
            if j != i {
                if replaced {
                    assert(old_entries[j].0@ == k);
                } else if j < i {
                    assert(old_entries[j].0@ == k);
                } else {
                    assert(old_entries[j - 1].0@ == k);
                }
                assert(has_key(old_entries, k));
            }
        }
        if has_key(old_entries, k) {
            let j = choose|j: int| 0 <= j < old_entries.len() && #[trigger] old_entries[j].0@ == k;
            if replaced {
                assert(new_entries[j].0@ == k);
            } else if j < i {
                assert(new_entries[j].0@ == k);
            } else {
                assert(new_entries[j + 1].0@ == k);
            }
            assert(has_key(new_entries, k));
        }
        if k == key {
            assert(new_entries[i].0@ == k);
            assert(has_key(new_entries, k));
        }
    }
    assert forall|k: Seq<char>| as_map(new_entries).contains_key(k) implies as_map(new_entries)[k]
        == target[k] by {
        assert(has_key(new_entries, k));
        let j = choose|j: int| 0 <= j < new_entries.len() && #[trigger] new_entries[j].0@ == k;
        assert(as_map(new_entries)[new_entries[j].0@] == new_entries[j].1);
        if j == i {
        } else {
            let m = if replaced || j < i {
                j
            } else {
                j - 1
            };
            assert(old_entries[m] == new_entries[j]);
            assert(as_map(old_entries)[old_entries[m].0@] == old_entries[m].1);
            if k == key {
                lemma_ascending_distinct(new_entries, i, j);
            }
        }
    }
    assert(as_map(new_entries) =~= target);
}

/// A table from strings to values, held as entries in the order of their keys.
#[derive(Debug, Clone, PartialEq, Eq)]
pub struct Sorted<V> {
    pub entries: Vec<(String, V)>,
}

impl<V> Sorted<V> {
    /// Whether the entries stand in strictly ascending order of their keys.
    pub open spec fn wf(&self) -> bool {
        ascending(self.entries@)
    }

    /// The mapping that the table stands for.
    pub open spec fn map(&self) -> Map<Seq<char>, V> {
        as_map(self.entries@)
    }

    /// A table without entries.
    pub fn new() -> (r: Self)
        ensures
            r.wf(),
            r.map() == Map::<Seq<char>, V>::empty(),
            r.entries@.len() == 0,
    {
        Sorted { entries: Vec::new() }
    }

    /// The number of entries.
    pub fn len(&self) -> (r: usize)
        ensures
            r == self.entries@.len(),
    {
        self.entries.len()
    }

    /// Whether the table has no entries.
    pub fn is_empty(&self) -> (r: bool)
        ensures
            r == (self.entries@.len() == 0),
    {
        self.entries.len() == 0
    }

    /// Whether the entries stand in strictly ascending order of their keys.
    pub fn is_sorted(&self) -> (r: bool)
        ensures
            r == self.wf(),
    {
        let mut i: usize = 1;
        while i < self.entries.len()
            invariant
                1 <= i,
                forall|a: int, b: int|
                    0 <= a < b < i && b < self.entries@.len() ==> lex_lt(
                        #[trigger] self.entries@[a].0@,
                        #[trigger] self.entries@[b].0@,
                    ),
            decreases self.entries.len() - i,
        {
            let left = chars_of(self.entries[i - 1].0.as_str());
            let right = chars_of(self.entries[i].0.as_str());
            if !less(&left, &right) {
                return false;
            }
            proof {
                assert forall|a: int, b: int| 0 <= a < b < i + 1 && b < self.entries@.len() implies lex_lt(
                    #[trigger] self.entries@[a].0@,
                    #[trigger] self.entries@[b].0@,
                ) by {
                    if b == i && a < i - 1 {
                        assert(lex_lt(self.entries@[a].0@, self.entries@[i - 1].0@));
                        lemma_lex_transitive(
                            self.entries@[a].0@,
                            self.entries@[i - 1].0@,
                            self.entries@[i as int].0@,
                        );
                    }
                }
            }
            i += 1;
        }
        true
    }

    /// The number of entries whose keys come before `key`.
    fn rank(&self, key: &Vec<char>) -> (r: usize)
        requires
            self.wf(),
        ensures
            r <= self.entries@.len(),
            forall|i: int| 0 <= i < r ==> lex_lt(#[trigger] self.entries@[i].0@, key@),
            forall|i: int| r <= i < self.entries@.len() ==> !lex_lt(#[trigger] self.entries@[i].0@, key@),
    {
        let mut i: usize = 0;
        while i < self.entries.len()
            invariant
                self.wf(),
                i <= self.entries@.len(),
                forall|j: int| 0 <= j < i ==> lex_lt(#[trigger] self.entries@[j].0@, key@),
            decreases self.entries.len() - i,
        {
            let k = chars_of(self.entries[i].0.as_str());
            if !less(&k, key) {
                proof {
                    assert forall|j: int| i <= j < self.entries@.len() implies !lex_lt(
                        #[trigger] self.entries@[j].0@,
                        key@,
                    ) by {
                        if j > i && lex_lt(self.entries@[j].0@, key@) {
                            assert(lex_lt(self.entries@[i as int].0@, self.entries@[j].0@));
                            lemma_lex_transitive(self.entries@[i as int].0@, self.entries@[j].0@, key@);
                        }
                    }
                }
                return i;
            }
            i += 1;
        }
        i
    }

    /// Sets the value held under `key`, in place of the one held before where there is one.
    pub fn insert(&mut self, key: String, value: V)
        requires
            old(self).wf(),
        ensures
            final(self).wf(),
            final(self).map() == old(self).map().insert(key@, value),
    {
        let k = chars_of(key.as_str());
        let i = self.rank(&k);
        let ghost before = self.entries@;
        let mut replace = false;
        if i < self.entries.len() {
            let here = chars_of(self.entries[i].0.as_str());
            replace = same_chars(&here, &k);
        }
        if replace {
            self.entries.remove(i);
        }
        self.entries.insert(i, (key, value));
        proof {
            if replace {
                assert(self.entries@ =~= before.update(i as int, (key, value)));
            }
            lemma_put(before, self.entries@, i as int, (key, value));
        }
    }

    /// Takes out the entry with the least key.
    pub fn remove_first(&mut self) -> (r: Option<(String, V)>)
        requires
            old(self).wf(),
        ensures
            final(self).wf(),
            match r {
                Some(entry) => {
                    &&& old(self).map().contains_key(entry.0@)
                    &&& old(self).map()[entry.0@] == entry.1
                    &&& final(self).map() == old(self).map().remove(entry.0@)
                    &&& forall|k: Seq<char>|
                        old(self).map().contains_key(k) ==> k == entry.0@ || lex_lt(entry.0@, k)
                },
                None => old(self).entries@.len() == 0 && final(self).entries@.len() == 0,
            },
    {
        if self.entries.len() == 0 {
            return None;
        }
        let ghost before = self.entries@;
        let entry = self.entries.remove(0);
        proof {
            let after = self.entries@;
            assert forall|a: int, b: int| 0 <= a < b < after.len() implies lex_lt(
                #[trigger] after[a].0@,
                #[trigger] after[b].0@,
            ) by {
                assert(after[a] == before[a + 1] && after[b] == before[b + 1]);
                assert(lex_lt(before[a + 1].0@, before[b + 1].0@));
            }
            lemma_as_map(before);
            lemma_as_map(after);
            assert(before[0] == entry);
            assert(has_key(before, entry.0@));
            let target = as_map(before).remove(entry.0@);
            assert forall|k: Seq<char>| as_map(after).contains_key(k) <==> target.contains_key(k) by {
                if has_key(after, k) {
                    let j = choose|j: int| 0 <= j < after.len() && #[trigger] after[j].0@ == k;
                    assert(before[j + 1].0@ == k);
                    assert(has_key(before, k));
                    if k == entry.0@ {
                        lemma_ascending_distinct(before, 0, j + 1);
                    }
                }
                if has_key(before, k) && k != entry.0@ {
                    let j = choose|j: int| 0 <= j < before.len() && #[trigger] before[j].0@ == k;
                    assert(after[j - 1].0@ == k);
                    assert(has_key(after, k));
                }
            }
            assert forall|k: Seq<char>| as_map(after).contains_key(k) implies as_map(after)[k]
                == target[k] by {
                assert(has_key(after, k));
                let j = choose|j: int| 0 <= j < after.len() && #[trigger] after[j].0@ == k;
                assert(as_map(after)[after[j].0@] == after[j].1);
                assert(before[j + 1] == after[j]);
                assert(as_map(before)[before[j + 1].0@] == before[j + 1].1);
                if k == entry.0@ {
                    lemma_ascending_distinct(before, 0, j + 1);
                }
            }
            assert(as_map(after) =~= target);
            assert forall|k: Seq<char>| as_map(before).contains_key(k) implies k == entry.0@ || lex_lt(
                entry.0@,
                k,
            ) by {
                assert(has_key(before, k));
                let j = choose|j: int| 0 <= j < before.len() && #[trigger] before[j].0@ == k;
                if j > 0 {
                    assert(lex_lt(before[0].0@, before[j].0@));
                }
            }
        }
        Some(entry)
    }

    /// The value held under `key`.
    pub fn get(&self, key: &str) -> (r: Option<&V>)
        requires
            self.wf(),
        ensures
            match r {
                Some(v) => self.map().contains_key(key@) && self.map()[key@] == *v,
                None => !self.map().contains_key(key@),
            },
    {
        let k = chars_of(key);
        let i = self.rank(&k);
        proof {
            lemma_as_map(self.entries@);
        }
        if i < self.entries.len() {
            let here = chars_of(self.entries[i].0.as_str());
            if same_chars(&here, &k) {
                proof {
                    assert(self.entries@[i as int].0@ == key@);
                    assert(has_key(self.entries@, key@));
                    assert(as_map(self.entries@)[self.entries@[i as int].0@] == self.entries@[i as int].1);
                }
                return Some(&self.entries[i].1);
            }
        }
        proof {
            if has_key(self.entries@, key@) {
                let j = choose|j: int| 0 <= j < self.entries@.len() && #[trigger] self.entries@[j].0@ == key@;
                lemma_lex_irreflexive(key@);
                if j > i {
                    assert(lex_lt(self.entries@[i as int].0@, self.entries@[j].0@));
                    lemma_lex_total(self.entries@[i as int].0@, key@);
                }
            }
        }
        None
    }
}

} // verus!
