//! Reading one chunk: its rows, grouped by key.

use rustc_hash::FxHashMap;
use vstd::prelude::*;
use vstd::slice::{slice_subrange, slice_to_vec};

use crate::chunker::{contents, NEWLINE};
use crate::key_index::{index_get, index_insert, index_new, slots};
use crate::number::{is_number_text, is_value_text};
use crate::table::{Entry, Table};
use crate::tally::tally;
use crate::rows::{
    classify_row, has_empty_key, is_measurement, key_of, lemma_split_prefix, split, value_of,
    RowShape,
};

verus! {

/// The key and the value field of every row that counts, in row order.
pub open spec fn measurements(rows: Seq<Seq<u8>>) -> Seq<(Seq<u8>, Seq<u8>)>
    decreases rows.len(),
{
    if rows.len() == 0 {
        Seq::empty()
    } else if is_measurement(rows.last()) {
        measurements(rows.drop_last()).push((key_of(rows.last()), value_of(rows.last())))
    } else {
        measurements(rows.drop_last())
    }
}

/// How many rows have two fields and an empty key.
pub open spec fn empty_key_rows(rows: Seq<Seq<u8>>) -> nat
    decreases rows.len(),
{
    if rows.len() == 0 {
        0
    } else if has_empty_key(rows.last()) {
        empty_key_rows(rows.drop_last()) + 1
    } else {
        empty_key_rows(rows.drop_last())
    }
}

/// The keys of `ms`, each once, in the order in which they first occur.
pub open spec fn first_seen_keys(ms: Seq<(Seq<u8>, Seq<u8>)>) -> Seq<Seq<u8>>
    decreases ms.len(),
{
    if ms.len() == 0 {
        Seq::empty()
    } else {
        let before = first_seen_keys(ms.drop_last());
        if before.contains(ms.last().0) {
            before
        } else {
            before.push(ms.last().0)
        }
    }
}

/// The value fields that `ms` holds for `key`, in row order.
pub open spec fn values_for(ms: Seq<(Seq<u8>, Seq<u8>)>, key: Seq<u8>) -> Seq<Seq<u8>>
    decreases ms.len(),
{
    if ms.len() == 0 {
        Seq::empty()
    } else if ms.last().0 == key {
        values_for(ms.drop_last(), key).push(ms.last().1)
    } else {
        values_for(ms.drop_last(), key)
    }
}

/// Whether every row of `rows` that counts has a value field that reads as
/// a value.
pub open spec fn all_values_read(rows: Seq<Seq<u8>>) -> bool {
    forall|r: int|
        0 <= r < rows.len() && is_measurement(#[trigger] rows[r]) ==> is_number_text(
            value_of(rows[r]),
        )
}

/// The rows of one key.
pub struct Group {
    pub key: Vec<u8>,
    pub values: Vec<Vec<u8>>,
}

/// What a chunk holds.
pub struct ChunkGroups {
    /// One group for each key, in the order in which the keys first occur.
    pub groups: Vec<Group>,
    /// How many rows were left out because their key was empty.
    pub empty_key_rows: usize,
}

/// Why a chunk could not be read.
#[derive(Clone, Copy, Debug, PartialEq, Eq)]
pub enum AggregateError {
    /// The value field of row `row` (counted from 0) is not the text of a value.
    UnparsableValue { row: usize },
}

impl ChunkGroups {
    /// Whether `self` holds the groups of `rows`.
    pub open spec fn holds(&self, rows: Seq<Seq<u8>>) -> bool {
        let ms = measurements(rows);
        &&& self.empty_key_rows == empty_key_rows(rows)
        &&& self.groups@.len() == first_seen_keys(ms).len()
        &&& forall|i: int|
            0 <= i < self.groups@.len() ==> {
                &&& (#[trigger] self.groups@[i]).key@ == first_seen_keys(ms)[i]
                &&& contents(self.groups@[i].values@) == values_for(ms, first_seen_keys(ms)[i])
            }
    }
}

/// A key is among the first-seen keys exactly if some row has it.
pub proof fn lemma_first_seen_keys(ms: Seq<(Seq<u8>, Seq<u8>)>, key: Seq<u8>)
    ensures
        first_seen_keys(ms).contains(key) <==> exists|r: int|
            0 <= r < ms.len() && (#[trigger] ms[r]).0 == key,
        !first_seen_keys(ms).contains(key) ==> values_for(ms, key) == Seq::<Seq<u8>>::empty(),
        first_seen_keys(ms).contains(key) ==> values_for(ms, key).len() > 0,
    decreases ms.len(),
{
    if ms.len() > 0 {
        let before = ms.drop_last();
        lemma_first_seen_keys(before, key);
        let keys = first_seen_keys(before);
        if first_seen_keys(ms).contains(key) {
            if keys.contains(key) {
                let r = choose|r: int| 0 <= r < before.len() && (#[trigger] before[r]).0 == key;
                assert(ms[r].0 == key);
            } else {
                let at = choose|at: int|
                    0 <= at < first_seen_keys(ms).len() && first_seen_keys(ms)[at] == key;
                assert(at == keys.len());
                assert(ms[ms.len() - 1].0 == key);
            }
        }
        if exists|r: int| 0 <= r < ms.len() && (#[trigger] ms[r]).0 == key {
            let r = choose|r: int| 0 <= r < ms.len() && (#[trigger] ms[r]).0 == key;
            if r < before.len() {
                assert(before[r].0 == key);
                assert(keys.contains(key));
                let at = choose|at: int| 0 <= at < keys.len() && keys[at] == key;
                assert(first_seen_keys(ms)[at] == key);
            } else {
                if keys.contains(key) {
                } else {
                    assert(first_seen_keys(ms)[keys.len() as int] == key);
                }
            }
        }
    }
}

/// No key stands twice among the first-seen keys.
pub proof fn lemma_first_seen_keys_differ(ms: Seq<(Seq<u8>, Seq<u8>)>)
    ensures
        forall|i: int, j: int|
            0 <= i < j < first_seen_keys(ms).len() ==> first_seen_keys(ms)[i] != first_seen_keys(
                ms,
            )[j],
    decreases ms.len(),
{
    if ms.len() > 0 {
        lemma_first_seen_keys_differ(ms.drop_last());
        let before = first_seen_keys(ms.drop_last());
        assert forall|i: int|
            0 <= i < before.len() && !before.contains(ms.last().0) implies before[i]
            != ms.last().0 by {
            assert(before.contains(before[i]));
        }
    }
}

/// The groups so far, with the index that finds a key's group.
struct Grouping {
    groups: Vec<Group>,
    index: FxHashMap<Vec<u8>, usize>,
    empty_key_rows: usize,
}

impl Grouping {
    /// Whether `self` holds the groups of `rows` and can find each of them.
    spec fn matches(&self, rows: Seq<Seq<u8>>) -> bool {
        let keys = first_seen_keys(measurements(rows));
        &&& ChunkGroups { groups: self.groups, empty_key_rows: self.empty_key_rows }.holds(rows)
        &&& forall|i: int|
            0 <= i < keys.len() ==> slots(self.index).contains_key(#[trigger] keys[i]) && slots(
                self.index,
            )[keys[i]] == i
        &&& forall|key: Seq<u8>| #[trigger]
            slots(self.index).contains_key(key) ==> keys.contains(key)
    }

    fn new() -> (fresh: Grouping)
        ensures
            fresh.matches(Seq::empty()),
    {
        Grouping { groups: Vec::new(), index: index_new(), empty_key_rows: 0 }
    }

    /// Takes in the row that follows `rows`.
    fn take_row(&mut self, row: &[u8], Ghost(rows): Ghost<Seq<Seq<u8>>>) -> (accepted: bool)
        requires
            old(self).matches(rows),
            old(self).empty_key_rows < usize::MAX || !has_empty_key(row@),
        ensures
            accepted == (is_measurement(row@) ==> is_number_text(value_of(row@))),
            accepted ==> final(self).matches(rows.push(row@)),
    {
        let ghost ms = measurements(rows);
        let ghost keys = first_seen_keys(ms);
        proof {
            assert(rows.push(row@).drop_last() == rows);
        }
        match classify_row(row) {
            RowShape::Malformed => true,
            RowShape::EmptyKey => {
                self.empty_key_rows = self.empty_key_rows + 1;
                true
            },
            RowShape::Measurement { separator } => {
                let len = row.len();
                assert(separator < len);
                let key = slice_subrange(row, 0, separator);
                let value = slice_subrange(row, separator + 1, len);
                if !is_value_text(value) {
                    return false;
                }
                let ghost after = ms.push((key@, value@));
                proof {
                    assert(after.drop_last() == ms);
                    assert(measurements(rows.push(row@)) == after);
                    lemma_first_seen_keys(ms, key@);
                }
                match index_get(&self.index, key) {
                    Some(slot) => {
                        proof {
                            let at = choose|at: int| 0 <= at < keys.len() && keys[at] == key@;
                            assert(slot == at);
                            assert(first_seen_keys(after) == keys);
                        }
                        let ghost before = self.groups@;
                        self.groups[slot].values.push(slice_to_vec(value));
                        proof {
                            assert forall|i: int| 0 <= i < self.groups@.len() implies {
                                &&& (#[trigger] self.groups@[i]).key@ == keys[i]
                                &&& contents(self.groups@[i].values@) == values_for(after, keys[i])
                            } by {
                                assert(contents(before[i].values@) == values_for(ms, keys[i]));
                                if i == slot {
                                    assert(contents(self.groups@[i].values@) == contents(
                                        before[i].values@,
                                    ).push(value@));
                                } else {
                                    assert(slots(self.index)[keys[i]] == i);
                                }
                            }
                        }
                    },
                    None => {
                        let slot = self.groups.len();
                        let ghost before = self.groups@;
                        let ghost old_slots = slots(self.index);
                        index_insert(&mut self.index, slice_to_vec(key), slot);
                        let mut values: Vec<Vec<u8>> = Vec::new();
                        values.push(slice_to_vec(value));
                        self.groups.push(Group { key: slice_to_vec(key), values });
                        proof {
                            let grown = keys.push(key@);
                            assert(first_seen_keys(after) == grown);
                            assert forall|i: int| 0 <= i < self.groups@.len() implies {
                                &&& (#[trigger] self.groups@[i]).key@ == grown[i]
                                &&& contents(self.groups@[i].values@) == values_for(after, grown[i])
                            } by {
                                if i < slot {
                                    assert(self.groups@[i] == before[i]);
                                    assert(keys.contains(keys[i]));
                                } else {
                                    assert(contents(self.groups@[i].values@) == seq![value@]);
                                    assert(values_for(ms, key@).push(value@) == seq![value@]);
                                }
                            }
                            assert forall|i: int| 0 <= i < grown.len() implies slots(
                                self.index,
                            ).contains_key(#[trigger] grown[i]) && slots(self.index)[grown[i]]
                                == i by {
                                if i < slot {
                                    assert(old_slots.contains_key(keys[i]));
                                    assert(keys.contains(keys[i]));
                                }
                            }
                            assert forall|k: Seq<u8>| #[trigger]
                                slots(self.index).contains_key(k) implies grown.contains(k) by {
                                if k == key@ {
                                    assert(grown[slot as int] == k);
                                } else {
                                    assert(old_slots.contains_key(k));
                                    let at = choose|at: int| 0 <= at < keys.len() && keys[at] == k;
                                    assert(grown[at] == k);
                                }
                            }
                        }
                    },
                }
                true
            },
        }
    }
}

/// Reads the rows of `chunk` and groups the value fields by key.
///
/// Rows are what stands between newlines. A row counts if it has exactly two
/// fields and its key is not empty; other rows are left out, those with an
/// empty key are counted. The first row that counts but whose value field is
/// not the text of a value ends the reading with an error.
pub fn group_rows(chunk: &[u8]) -> (result: Result<ChunkGroups, AggregateError>)
    ensures
        match result {
            Ok(found) => all_values_read(split(chunk@, NEWLINE)) && found.holds(
                split(chunk@, NEWLINE),
            ),
            Err(AggregateError::UnparsableValue { row }) => {
                let rows = split(chunk@, NEWLINE);
                &&& row < rows.len()
                &&& is_measurement(rows[row as int])
                &&& !is_number_text(value_of(rows[row as int]))
                &&& all_values_read(rows.take(row as int))
            },
        },
{
    let len = chunk.len();
    let ghost all_rows = split(chunk@, NEWLINE);
    let mut state = Grouping::new();
    let mut row_start: usize = 0;
    let mut row_number: usize = 0;
    let mut i: usize = 0;
    let ghost mut done: Seq<Seq<u8>> = Seq::empty();
    proof {
        assert(chunk@.take(0) == Seq::<u8>::empty());
        assert(chunk@.subrange(0, 0) == Seq::<u8>::empty());
        assert(split(chunk@.take(0), NEWLINE) == done.push(chunk@.subrange(0, 0)));
    }
    while i < len
        invariant
            len == chunk@.len(),
            all_rows == split(chunk@, NEWLINE),
            row_number == done.len(),
            row_number <= row_start <= i <= len,
            split(chunk@.take(i as int), NEWLINE) == done.push(
                chunk@.subrange(row_start as int, i as int),
            ),
            state.matches(done),
            state.empty_key_rows <= row_number,
            all_values_read(done),
        decreases len - i,
    {
        let ghost current = chunk@.subrange(row_start as int, i as int);
        proof {
            assert(chunk@.take(i + 1).drop_last() == chunk@.take(i as int));
            assert(done.push(current).drop_last() == done);
        }
        if chunk[i] == NEWLINE {
            let row = slice_subrange(chunk, row_start, i);
            let accepted = state.take_row(row, Ghost(done));
            proof {
                lemma_split_prefix(chunk@, i + 1, NEWLINE);
                let seen = split(chunk@.take(i + 1), NEWLINE);
                assert(seen == done.push(current).push(Seq::empty()));
                assert(all_rows[row_number as int] == seen[row_number as int]);
                assert(all_rows.take(row_number as int) == done);
            }
            if !accepted {
                return Err(AggregateError::UnparsableValue { row: row_number });
            }
            proof {
                done = done.push(current);
                assert(chunk@.subrange(i + 1, i + 1) == Seq::<u8>::empty());
            }
            row_start = i + 1;
            row_number = row_number + 1;
        } else {
            proof {
                assert(current.push(chunk@[i as int]) == chunk@.subrange(
                    row_start as int,
                    i + 1,
                ));
            }
        }
        i = i + 1;
    }
    let row = slice_subrange(chunk, row_start, len);
    proof {
        assert(chunk@.take(len as int) == chunk@);
        assert(all_rows == done.push(row@));
        assert(all_rows.take(row_number as int) == done);
        if has_empty_key(row@) {
            crate::rows::lemma_split_len(row@, crate::rows::FIELD_SEPARATOR);
            assert(row@.len() > 0);
        }
    }
    if !state.take_row(row, Ghost(done)) {
        return Err(AggregateError::UnparsableValue { row: row_number });
    }
    Ok(ChunkGroups { groups: state.groups, empty_key_rows: state.empty_key_rows })
}

/// Where every value field reads as a value, so does every value field of
/// every key.
pub proof fn lemma_values_read(rows: Seq<Seq<u8>>, key: Seq<u8>)
    requires
        all_values_read(rows),
    ensures
        forall|i: int|
            0 <= i < values_for(measurements(rows), key).len() ==> is_number_text(
                #[trigger] values_for(measurements(rows), key)[i],
            ),
    decreases rows.len(),
{
    if rows.len() > 0 {
        let before = rows.drop_last();
        assert forall|r: int| 0 <= r < before.len() && is_measurement(
            #[trigger] before[r],
        ) implies is_number_text(value_of(before[r])) by {
            assert(before[r] == rows[r]);
        }
        lemma_values_read(before, key);
        assert(is_measurement(rows[rows.len() - 1]) ==> is_number_text(
            value_of(rows[rows.len() - 1]),
        ));
        let values = values_for(measurements(rows), key);
        let earlier = values_for(measurements(before), key);
        if is_measurement(rows.last()) {
            assert(measurements(rows).drop_last() == measurements(before));
        }
        assert forall|i: int| 0 <= i < values.len() implies is_number_text(
            #[trigger] values[i],
        ) by {
            if i < earlier.len() {
                assert(values[i] == earlier[i]);
            }
        }
    }
}

/// What one chunk gives: the partial result that goes into the merge.
pub struct ChunkResult<S> {
    /// One entry for each key of the chunk.
    pub table: Table<S>,
    /// How many rows were left out because their key was empty.
    pub empty_key_rows: usize,
}

/// Reading the same rows twice gives the same groups.
pub proof fn lemma_grouping_repeats(first: ChunkGroups, second: ChunkGroups, rows: Seq<Seq<u8>>)
    requires
        first.holds(rows),
        second.holds(rows),
    ensures
        first.empty_key_rows == second.empty_key_rows,
        first.groups@.len() == second.groups@.len(),
        forall|i: int|
            0 <= i < first.groups@.len() ==> {
                &&& (#[trigger] first.groups@[i]).key@ == second.groups@[i].key@
                &&& contents(first.groups@[i].values@) == contents(second.groups@[i].values@)
            },
{
}

/// Reads one chunk into a table: one entry for each key, with the number of
/// rows counted for it and the summary that `summarize` makes of their value
/// fields.
///
/// `summarize` is called once for each key, in the order in which the keys
/// first occur, with the value fields of that key in row order. Each of them
/// is the text of a value, and there is at least one.
pub fn parse_and_compute<S, F: Fn(&Vec<Vec<u8>>) -> S>(chunk: Vec<u8>, summarize: &F) -> (result:
    Result<ChunkResult<S>, AggregateError>)
    requires
        forall|values: &Vec<Vec<u8>>|
            values@.len() > 0 && (forall|i: int|
                0 <= i < values@.len() ==> is_number_text(#[trigger] values@[i]@))
                ==> #[trigger] call_requires(*summarize, (values,)),
    ensures
        match result {
            Ok(ChunkResult { table, empty_key_rows: skipped }) => {
                let rows = split(chunk@, NEWLINE);
                let ms = measurements(rows);
                &&& all_values_read(rows)
                &&& skipped == empty_key_rows(rows)
                &&& table.wf()
                &&& table.keys() == first_seen_keys(ms)
                &&& table.counts() == tally(ms)
                &&& forall|i: int|
                    0 <= i < table.entries().len() ==> {
                        let entry = #[trigger] table.entries()[i];
                        &&& entry.count == values_for(ms, entry.key@).len()
                        &&& exists|values: &Vec<Vec<u8>>|
                            contents(values@) == values_for(ms, entry.key@)
                                && #[trigger] call_ensures(*summarize, (values,), entry.summary)
                    }
            },
            Err(AggregateError::UnparsableValue { row }) => {
                let rows = split(chunk@, NEWLINE);
                &&& row < rows.len()
                &&& is_measurement(rows[row as int])
                &&& !is_number_text(value_of(rows[row as int]))
                &&& all_values_read(rows.take(row as int))
            },
        },
{
    let ghost rows = split(chunk@, NEWLINE);
    let ghost ms = measurements(rows);
    let ghost keys = first_seen_keys(ms);
    let found = match group_rows(chunk.as_slice()) {
        Ok(found) => found,
        Err(e) => {
            return Err(e);
        },
    };
    let skipped = found.empty_key_rows;
    let groups = found.groups;
    let ghost all = groups@;
    let mut table: Table<S> = Table::new();
    proof {
        lemma_first_seen_keys_differ(ms);
        assert(table.keys() == keys.take(0));
    }
    for group in it: groups
        invariant
            it.seq() == all,
            all.len() == keys.len(),
            skipped == empty_key_rows(rows),
            rows == split(chunk@, NEWLINE),
            ms == measurements(rows),
            keys == first_seen_keys(ms),
            all_values_read(rows),
            forall|i: int, j: int| 0 <= i < j < keys.len() ==> keys[i] != keys[j],
            forall|i: int|
                0 <= i < all.len() ==> {
                    &&& (#[trigger] all[i]).key@ == keys[i]
                    &&& contents(all[i].values@) == values_for(ms, keys[i])
                },
            forall|values: &Vec<Vec<u8>>|
                values@.len() > 0 && (forall|i: int|
                    0 <= i < values@.len() ==> is_number_text(#[trigger] values@[i]@))
                    ==> #[trigger] call_requires(*summarize, (values,)),
            table.wf(),
            table.keys() == keys.take(it.index() as int),
            forall|i: int|
                0 <= i < table.entries().len() ==> {
                    let entry = #[trigger] table.entries()[i];
                    &&& entry.count == values_for(ms, entry.key@).len()
                    &&& exists|values: &Vec<Vec<u8>>|
                        contents(values@) == values_for(ms, entry.key@) && #[trigger] call_ensures(
                            *summarize,
                            (values,),
                            entry.summary,
                        )
                },
    {
        let ghost j = it.index() as int;
        let ghost before = table.entries();
        proof {
            assert(group == all[j]);
            lemma_values_read(rows, keys[j]);
            lemma_first_seen_keys(ms, keys[j]);
            assert(keys.contains(keys[j]));
            let texts = contents(group.values@);
            assert(texts.len() == group.values@.len());
            assert forall|i: int| 0 <= i < group.values@.len() implies is_number_text(
                #[trigger] group.values@[i]@,
            ) by {
                assert(texts[i] == group.values@[i]@);
            }
            if table.has_key(group.key@) {
                let at = choose|at: int| 0 <= at < j && keys.take(j)[at] == group.key@;
                assert(keys[at] == keys[j]);
            }
        }
        let count = group.values.len() as u64;
        let summary = summarize(&group.values);
        let entry = Entry { key: group.key, count, summary };
        table.insert_new(entry);
        proof {
            assert(table.entries() == before.push(entry));
            assert(table.keys() == keys.take(j).push(keys[j]));
            assert(table.keys() == keys.take(j + 1));
            assert forall|i: int| 0 <= i < table.entries().len() implies {
                let e = #[trigger] table.entries()[i];
                &&& e.count == values_for(ms, e.key@).len()
                &&& exists|values: &Vec<Vec<u8>>|
                    contents(values@) == values_for(ms, e.key@) && #[trigger] call_ensures(
                        *summarize,
                        (values,),
                        e.summary,
                    )
            } by {
                if i < j {
                    assert(table.entries()[i] == before[i]);
                } else {
                    assert(call_ensures(*summarize, (&group.values,), entry.summary));
                }
            }
        }
    }
    proof {
        assert(keys.take(keys.len() as int) == keys);
        table.lemma_keys_differ();
        assert forall|key: Seq<u8>| table.has_key(key) implies table.entry_of(key).count
            == values_for(ms, key).len() by {
            let at = table.slot_of(key);
            assert(table.keys()[at] == key);
            assert(table.entries()[at].key@ == key);
        }
        assert(table.counts() =~= tally(ms));
    }
    Ok(ChunkResult { table, empty_key_rows: skipped })
}

} // verus!
