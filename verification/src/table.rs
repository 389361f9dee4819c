//! The mapping from keys to what is known of them, and its merge.

use rustc_hash::FxHashMap;
use vstd::prelude::*;
use vstd::slice::slice_to_vec;

use crate::key_index::{index_get, index_insert, index_new, slots};
use crate::tally::merged_tally;

verus! {

/// What is known of one key: how many rows were counted for it, and a
/// summary of their values. The table does not look into the summary; it is
/// made and merged by the caller.
pub struct Entry<S> {
    pub key: Vec<u8>,
    pub count: u64,
    pub summary: S,
}

/// The keys of a list of entries, in its order.
pub open spec fn keys_of<S>(entries: Seq<Entry<S>>) -> Seq<Seq<u8>> {
    Seq::new(entries.len(), |i: int| entries[i].key@)
}

/// A mapping from keys to entries. Every key has one slot, and a key keeps
/// its slot for as long as the table lives.
pub struct Table<S> {
    entries: Vec<Entry<S>>,
    index: FxHashMap<Vec<u8>, usize>,
}

impl<S> Table<S> {
    /// The entries, slot by slot.
    pub closed spec fn entries(&self) -> Seq<Entry<S>> {
        self.entries@
    }

    /// The keys, slot by slot.
    pub open spec fn keys(&self) -> Seq<Seq<u8>> {
        keys_of(self.entries())
    }

    pub open spec fn has_key(&self, key: Seq<u8>) -> bool {
        self.keys().contains(key)
    }

    /// The slot of a key that the table has.
    pub open spec fn slot_of(&self, key: Seq<u8>) -> int {
        self.keys().index_of(key)
    }

    /// The entry of a key that the table has.
    pub open spec fn entry_of(&self, key: Seq<u8>) -> Entry<S> {
        self.entries()[self.slot_of(key)]
    }

    /// For each key, the number of rows counted for it.
    pub open spec fn counts(&self) -> Map<Seq<u8>, nat> {
        Map::new(|key: Seq<u8>| self.has_key(key), |key: Seq<u8>| self.entry_of(key).count as nat)
    }

    /// What the table holds, as a mapping: for each key the number of rows
    /// counted for it and the summary of their values.
    pub open spec fn as_map(&self) -> Map<Seq<u8>, (nat, S)> {
        Map::new(
            |key: Seq<u8>| self.has_key(key),
            |key: Seq<u8>| (self.entry_of(key).count as nat, self.entry_of(key).summary),
        )
    }

    /// Whether `self` is what merging `partial` into `before` with `combine`
    /// gives. The keys of `before` keep their slots, and the keys that are new
    /// follow them in the order that they have in `partial`. A key of `before`
    /// alone keeps its entry, a key of `partial` alone gets the entry that
    /// `partial` has for it, and a key of both gets the sum of the two counts
    /// and a summary that `combine` returned for the two summaries and counts.
    pub open spec fn is_merge_of<F: Fn(&S, u64, &S, u64) -> S>(
        &self,
        before: &Table<S>,
        partial: &Table<S>,
        combine: F,
    ) -> bool {
        &&& forall|key: Seq<u8>| #[trigger]
            self.has_key(key) <==> before.has_key(key) || partial.has_key(key)
        &&& forall|key: Seq<u8>|
            before.has_key(key) ==> #[trigger] self.slot_of(key) == before.slot_of(key)
        &&& forall|key: Seq<u8>|
            before.has_key(key) && !partial.has_key(key) ==> #[trigger] self.entry_of(key)
                == before.entry_of(key)
        &&& forall|key: Seq<u8>|
            !before.has_key(key) && partial.has_key(key) ==> #[trigger] self.entry_of(key)
                == partial.entry_of(key)
        &&& forall|a: Seq<u8>, b: Seq<u8>|
            !before.has_key(a) && !before.has_key(b) && partial.has_key(a) && partial.has_key(b)
                && partial.slot_of(a) < partial.slot_of(b) ==> #[trigger] self.slot_of(a)
                < #[trigger] self.slot_of(b)
        &&& forall|key: Seq<u8>|
            before.has_key(key) && partial.has_key(key) ==> {
                let mine = before.entry_of(key);
                let theirs = partial.entry_of(key);
                let merged = #[trigger] self.entry_of(key);
                &&& merged.key@ == key
                &&& merged.count == mine.count + theirs.count
                &&& call_ensures(
                    combine,
                    (&mine.summary, mine.count, &theirs.summary, theirs.count),
                    merged.summary,
                )
            }
    }

    /// Whether the table can find each of its keys, and only those.
    pub closed spec fn wf(&self) -> bool {
        &&& forall|i: int|
            0 <= i < self.keys().len() ==> slots(self.index).contains_key(#[trigger] self.keys()[i])
                && slots(self.index)[self.keys()[i]] == i
        &&& forall|key: Seq<u8>| #[trigger]
            slots(self.index).contains_key(key) ==> self.keys().contains(key)
    }

    /// In a table no key has two slots.
    pub proof fn lemma_keys_differ(&self)
        requires
            self.wf(),
        ensures
            self.keys().no_duplicates(),
            forall|i: int|
                0 <= i < self.keys().len() ==> self.slot_of(#[trigger] self.keys()[i]) == i,
    {
        assert forall|i: int| 0 <= i < self.keys().len() implies self.slot_of(
            #[trigger] self.keys()[i],
        ) == i by {
            let key = self.keys()[i];
            assert(self.keys().contains(key));
            let at = self.keys().index_of(key);
            assert(self.keys()[at] == key);
        }
    }

    pub fn new() -> (table: Table<S>)
        ensures
            table.wf(),
            table.entries().len() == 0,
    {
        Table { entries: Vec::new(), index: index_new() }
    }

    pub fn len(&self) -> (n: usize)
        ensures
            n == self.entries().len(),
    {
        self.entries.len()
    }

    /// The slot of `key`, if the table has it.
    pub fn find(&self, key: &[u8]) -> (slot: Option<usize>)
        requires
            self.wf(),
        ensures
            match slot {
                Some(i) => {
                    &&& self.has_key(key@)
                    &&& i == self.slot_of(key@)
                    &&& i < self.entries().len()
                },
                None => !self.has_key(key@),
            },
    {
        let slot = index_get(&self.index, key);
        proof {
            self.lemma_keys_differ();
            if slot.is_some() {
                let at = choose|at: int| 0 <= at < self.keys().len() && self.keys()[at] == key@;
                assert(self.keys()[at] == key@);
            } else if self.has_key(key@) {
                let at = choose|at: int| 0 <= at < self.keys().len() && self.keys()[at] == key@;
                assert(slots(self.index).contains_key(self.keys()[at]));
            }
        }
        slot
    }

    /// The entry in slot `slot`.
    pub fn entry(&self, slot: usize) -> (entry: &Entry<S>)
        requires
            slot < self.entries().len(),
        ensures
            *entry == self.entries()[slot as int],
    {
        &self.entries[slot]
    }

    /// The entry of `key`, if the table has it.
    pub fn get(&self, key: &[u8]) -> (entry: Option<&Entry<S>>)
        requires
            self.wf(),
        ensures
            match entry {
                Some(found) => self.has_key(key@) && *found == self.entry_of(key@),
                None => !self.has_key(key@),
            },
    {
        match self.find(key) {
            Some(slot) => Some(&self.entries[slot]),
            None => None,
        }
    }

    /// Gives `entry` the next free slot. Its key must be new to the table.
    pub fn insert_new(&mut self, entry: Entry<S>)
        requires
            old(self).wf(),
            !old(self).has_key(entry.key@),
        ensures
            final(self).wf(),
            final(self).entries() == old(self).entries().push(entry),
    {
        let slot = self.entries.len();
        let ghost before = self.keys();
        let ghost old_slots = slots(self.index);
        index_insert(&mut self.index, slice_to_vec(entry.key.as_slice()), slot);
        self.entries.push(entry);
        proof {
            let after = self.keys();
            assert(after == before.push(entry.key@));
            assert forall|i: int| 0 <= i < after.len() implies slots(self.index).contains_key(
                #[trigger] after[i],
            ) && slots(self.index)[after[i]] == i by {
                if i < slot {
                    assert(before.contains(before[i]));
                    assert(old_slots.contains_key(before[i]));
                }
            }
            assert forall|key: Seq<u8>| #[trigger]
                slots(self.index).contains_key(key) implies after.contains(key) by {
                if key == entry.key@ {
                    assert(after[slot as int] == key);
                } else {
                    assert(old_slots.contains_key(key));
                    let at = choose|at: int| 0 <= at < before.len() && before[at] == key;
                    assert(after[at] == key);
                }
            }
        }
    }
}

impl<S> Table<S> {
    /// Merges one entry of a partial result into the table.
    ///
    /// If the table does not have the entry's key, the entry goes in as it
    /// is. If it does, the counts are added and `combine` is called with the
    /// summary and count that the table has, followed by those of `entry`;
    /// what it returns replaces the summary in the table.
    pub fn absorb<F: Fn(&S, u64, &S, u64) -> S>(&mut self, entry: Entry<S>, combine: &F)
        requires
            old(self).wf(),
            old(self).has_key(entry.key@) ==> {
                let mine = old(self).entry_of(entry.key@);
                &&& mine.count + entry.count <= u64::MAX
                &&& call_requires(
                    *combine,
                    (&mine.summary, mine.count, &entry.summary, entry.count),
                )
            },
        ensures
            final(self).wf(),
            !old(self).has_key(entry.key@) ==> final(self).entries() == old(self).entries().push(
                entry,
            ),
            old(self).has_key(entry.key@) ==> {
                let slot = old(self).slot_of(entry.key@);
                let mine = old(self).entries()[slot];
                let merged = final(self).entries()[slot];
                &&& final(self).entries().len() == old(self).entries().len()
                &&& forall|i: int|
                    0 <= i < final(self).entries().len() && i != slot ==> final(self).entries()[i]
                        == old(self).entries()[i]
                &&& merged.key == mine.key
                &&& merged.count == mine.count + entry.count
                &&& call_ensures(
                    *combine,
                    (&mine.summary, mine.count, &entry.summary, entry.count),
                    merged.summary,
                )
            },
    {
        match self.find(entry.key.as_slice()) {
            Some(slot) => {
                let ghost before = self.keys();
                let merged = combine(
                    &self.entries[slot].summary,
                    self.entries[slot].count,
                    &entry.summary,
                    entry.count,
                );
                self.entries[slot].count = self.entries[slot].count + entry.count;
                self.entries[slot].summary = merged;
                proof {
                    assert(self.keys() == before);
                }
            },
            None => {
                self.insert_new(entry);
            },
        }
    }
}

/// In a list without repeats, an item is found where it stands.
proof fn lemma_found_in_place(keys: Seq<Seq<u8>>, at: int)
    requires
        keys.no_duplicates(),
        0 <= at < keys.len(),
    ensures
        keys.contains(keys[at]),
        keys.index_of(keys[at]) == at,
{
    let found = keys.index_of(keys[at]);
    assert(keys[found] == keys[at]);
}

/// How far a merge has come once the first `upto` entries of `theirs` have
/// gone into a table that held `mine` and now holds `now`.
spec fn merge_progress<S, F: Fn(&S, u64, &S, u64) -> S>(
    now: Seq<Entry<S>>,
    mine: Seq<Entry<S>>,
    theirs: Seq<Entry<S>>,
    upto: int,
    combine: F,
) -> bool {
    &&& now.len() >= mine.len()
    &&& forall|i: int|
        0 <= i < now.len() ==> {
            let key = (#[trigger] now[i]).key@;
            let taken = keys_of(theirs).take(upto).contains(key);
            let from = keys_of(theirs).index_of(key);
            if i < mine.len() {
                &&& key == mine[i].key@
                &&& !taken ==> now[i] == mine[i]
                &&& taken ==> now[i].count == mine[i].count + theirs[from].count && call_ensures(
                    combine,
                    (&mine[i].summary, mine[i].count, &theirs[from].summary, theirs[from].count),
                    now[i].summary,
                )
            } else {
                &&& taken
                &&& !keys_of(mine).contains(key)
                &&& now[i] == theirs[from]
            }
        }
    &&& forall|p: int| 0 <= p < upto ==> keys_of(now).contains(#[trigger] keys_of(theirs)[p])
    &&& forall|i: int, j: int|
        mine.len() <= i < j < now.len() ==> keys_of(theirs).index_of((#[trigger] now[i]).key@)
            < keys_of(theirs).index_of((#[trigger] now[j]).key@)
}

impl<S> Table<S> {
    /// Merges a partial result into the table, key by key.
    ///
    /// A key that the table does not have yet goes in with the entry that
    /// `partial` has for it, unchanged. For a key that both have, the counts
    /// are added and `combine` is called with the summary and count of the
    /// table, followed by those of `partial`; what it returns replaces the
    /// summary in the table. Every other entry of the table stays as it is.
    pub fn merge<F: Fn(&S, u64, &S, u64) -> S>(&mut self, partial: Table<S>, combine: &F)
        requires
            old(self).wf(),
            partial.wf(),
            forall|key: Seq<u8>| #[trigger]
                old(self).has_key(key) && partial.has_key(key) ==> {
                    let mine = old(self).entry_of(key);
                    let theirs = partial.entry_of(key);
                    &&& mine.count + theirs.count <= u64::MAX
                    &&& call_requires(
                        *combine,
                        (&mine.summary, mine.count, &theirs.summary, theirs.count),
                    )
                },
        ensures
            final(self).wf(),
            final(self).is_merge_of(old(self), &partial, *combine),
            final(self).counts() == merged_tally(old(self).counts(), partial.counts()),
    {
        let ghost mine = self.entries();
        let ghost theirs = partial.entries();
        proof {
            self.lemma_keys_differ();
            partial.lemma_keys_differ();
            assert(keys_of(theirs).take(0) == Seq::<Seq<u8>>::empty());
            assert forall|i: int, j: int|
                #![trigger mine[i], theirs[j]]
                0 <= i < mine.len() && 0 <= j < theirs.len() && mine[i].key@
                    == theirs[j].key@ implies {
                &&& mine[i].count + theirs[j].count <= u64::MAX
                &&& call_requires(
                    *combine,
                    (&mine[i].summary, mine[i].count, &theirs[j].summary, theirs[j].count),
                )
            } by {
                let key = mine[i].key@;
                assert(keys_of(mine)[i] == key);
                assert(keys_of(theirs)[j] == key);
                lemma_found_in_place(keys_of(mine), i);
                lemma_found_in_place(keys_of(theirs), j);
                assert(self.has_key(key) && partial.has_key(key));
            }
        }
        let incoming = partial.entries;
        for entry in it: incoming
            invariant
                it.seq() == theirs,
                self.wf(),
                keys_of(mine).no_duplicates(),
                keys_of(theirs).no_duplicates(),
                merge_progress(self.entries(), mine, theirs, it.index() as int, *combine),
                forall|i: int, j: int|
                    #![trigger mine[i], theirs[j]]
                    0 <= i < mine.len() && 0 <= j < theirs.len() && mine[i].key@ == theirs[j].key@
                        ==> {
                        &&& mine[i].count + theirs[j].count <= u64::MAX
                        &&& call_requires(
                            *combine,
                            (&mine[i].summary, mine[i].count, &theirs[j].summary, theirs[j].count),
                        )
                    },
        {
            let ghost j = it.index() as int;
            let ghost now = self.entries();
            let ghost key = entry.key@;
            let ghost their_keys = keys_of(theirs);
            proof {
                assert(entry == theirs[j]);
                assert(their_keys[j] == key);
                self.lemma_keys_differ();
                lemma_found_in_place(their_keys, j);
                assert(their_keys.take(j + 1) == their_keys.take(j).push(key));
                // `key` was not taken before: it stands only at `j`.
                if their_keys.take(j).contains(key) {
                    let p = choose|p: int| 0 <= p < j && their_keys.take(j)[p] == key;
                    assert(their_keys[p] == their_keys[j]);
                    assert(false);
                }
                if self.has_key(key) {
                    let slot = self.slot_of(key);
                    assert(keys_of(now)[slot] == key);
                    assert(now[slot].key@ == key);
                    assert(slot < mine.len());
                    assert(now[slot] == mine[slot]);
                    assert(mine[slot].key@ == theirs[j].key@);
                    assert(self.entry_of(key) == mine[slot]);
                }
            }
            self.absorb(entry, combine);
            proof {
                let after = self.entries();
                let grown = their_keys.take(j + 1);
                assert forall|i: int| 0 <= i < after.len() implies {
                    let k = (#[trigger] after[i]).key@;
                    let taken = grown.contains(k);
                    let from = their_keys.index_of(k);
                    if i < mine.len() {
                        &&& k == mine[i].key@
                        &&& !taken ==> after[i] == mine[i]
                        &&& taken ==> after[i].count == mine[i].count + theirs[from].count
                            && call_ensures(
                            *combine,
                            (
                                &mine[i].summary,
                                mine[i].count,
                                &theirs[from].summary,
                                theirs[from].count,
                            ),
                            after[i].summary,
                        )
                    } else {
                        &&& taken
                        &&& !keys_of(mine).contains(k)
                        &&& after[i] == theirs[from]
                    }
                } by {
                    let k = after[i].key@;
                    if i < now.len() {
                        assert(now[i].key@ == k);
                        assert(keys_of(now)[i] == k);
                        if k == key {
                            assert(grown[j] == k);
                        } else {
                            assert(after[i] == now[i]);
                            if grown.contains(k) {
                                let p = choose|p: int| 0 <= p < grown.len() && grown[p] == k;
                                assert(their_keys.take(j)[p] == k);
                            }
                            if their_keys.take(j).contains(k) {
                                let p = choose|p: int| 0 <= p < j && their_keys.take(j)[p] == k;
                                assert(grown[p] == k);
                            }
                        }
                    } else {
                        assert(after[i] == entry);
                        assert(grown[j] == k);
                        if keys_of(mine).contains(k) {
                            let m = choose|m: int| 0 <= m < mine.len() && keys_of(mine)[m] == k;
                            assert(now[m].key@ == k);
                            assert(keys_of(now)[m] == k);
                        }
                    }
                }
                assert forall|p: int| 0 <= p < j + 1 implies keys_of(after).contains(
                    #[trigger] their_keys[p],
                ) by {
                    if p < j {
                        let at = choose|at: int|
                            0 <= at < now.len() && keys_of(now)[at] == their_keys[p];
                        assert(keys_of(after)[at] == their_keys[p]);
                    } else if keys_of(now).contains(key) {
                        let at = choose|at: int| 0 <= at < now.len() && keys_of(now)[at] == key;
                        assert(keys_of(after)[at] == key);
                    } else {
                        assert(keys_of(after)[now.len() as int] == key);
                    }
                }
                assert forall|a: int, b: int|
                    mine.len() <= a < b < after.len() implies their_keys.index_of(
                    (#[trigger] after[a]).key@,
                ) < their_keys.index_of((#[trigger] after[b]).key@) by {
                    assert(now[a].key@ == after[a].key@);
                    assert(keys_of(now)[a] == now[a].key@);
                    if b < now.len() {
                        assert(now[b].key@ == after[b].key@);
                    } else {
                        let ka = now[a].key@;
                        assert(their_keys.take(j).contains(ka));
                        let p = choose|p: int| 0 <= p < j && their_keys.take(j)[p] == ka;
                        assert(their_keys[p] == ka);
                        lemma_found_in_place(their_keys, p);
                    }
                }
            }
        }
        proof {
            let after = self.entries();
            let their_keys = keys_of(theirs);
            let my_keys = keys_of(mine);
            let m = theirs.len() as int;
            assert(their_keys.take(m) == their_keys);
            self.lemma_keys_differ();
            assert forall|key: Seq<u8>| #[trigger]
                self.has_key(key) <==> my_keys.contains(key) || their_keys.contains(key) by {
                if self.has_key(key) {
                    let at = self.slot_of(key);
                    assert(keys_of(after)[at] == key);
                    assert(after[at].key@ == key);
                    if at < mine.len() {
                        assert(my_keys[at] == key);
                    }
                }
                if my_keys.contains(key) {
                    let at = choose|at: int| 0 <= at < mine.len() && my_keys[at] == key;
                    assert(after[at].key@ == key);
                    assert(keys_of(after)[at] == key);
                }
                if their_keys.contains(key) {
                    let p = choose|p: int| 0 <= p < m && their_keys[p] == key;
                    assert(keys_of(after).contains(their_keys[p]));
                }
            }
            assert forall|key: Seq<u8>| my_keys.contains(key) implies {
                &&& self.slot_of(key) == my_keys.index_of(key)
                &&& 0 <= my_keys.index_of(key) < mine.len()
                &&& after[my_keys.index_of(key)].key@ == key
            } by {
                let at = my_keys.index_of(key);
                assert(my_keys[at] == key);
                assert(after[at].key@ == key);
                assert(keys_of(after)[at] == key);
                lemma_found_in_place(keys_of(after), at);
            }
            assert forall|key: Seq<u8>| !my_keys.contains(key) && their_keys.contains(key) implies {
                #[trigger] self.entry_of(key) == theirs[their_keys.index_of(key)]
            } by {
                let at = self.slot_of(key);
                assert(keys_of(after).contains(key));
                assert(keys_of(after)[at] == key);
                assert(after[at].key@ == key);
                if at < mine.len() {
                    assert(my_keys[at] == key);
                }
            }
            assert forall|a: Seq<u8>, b: Seq<u8>|
                !my_keys.contains(a) && !my_keys.contains(b) && their_keys.contains(a)
                    && their_keys.contains(b) && their_keys.index_of(a) < their_keys.index_of(
                    b,
                ) implies #[trigger] self.slot_of(a) < #[trigger] self.slot_of(b) by {
                let sa = self.slot_of(a);
                let sb = self.slot_of(b);
                assert(keys_of(after).contains(a) && keys_of(after).contains(b));
                assert(keys_of(after)[sa] == a && keys_of(after)[sb] == b);
                assert(after[sa].key@ == a && after[sb].key@ == b);
                if sa < mine.len() {
                    assert(my_keys[sa] == a);
                }
                if sb < mine.len() {
                    assert(my_keys[sb] == b);
                }
            }
            assert(self.counts() =~= merged_tally(old(self).counts(), partial.counts()));
        }
    }
}

} // verus!
