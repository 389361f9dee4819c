//! How many rows count for each key, and what merging does to those numbers.

use vstd::prelude::*;

use crate::aggregate::{first_seen_keys, lemma_first_seen_keys, measurements, values_for};
use crate::chunker::{
    chunks_of, lemma_chunks_keep_rows, rows_of_chunks, window_count, window_has_newline, NEWLINE,
};
use crate::rows::split;

verus! {

/// For each key of `ms`, the number of rows that `ms` has for it.
pub open spec fn tally(ms: Seq<(Seq<u8>, Seq<u8>)>) -> Map<Seq<u8>, nat> {
    Map::new(
        |key: Seq<u8>| first_seen_keys(ms).contains(key),
        |key: Seq<u8>| values_for(ms, key).len(),
    )
}

/// The number that a tally has for a key: 0 for a key that it does not have.
pub open spec fn count_in(counts: Map<Seq<u8>, nat>, key: Seq<u8>) -> nat {
    if counts.contains_key(key) {
        counts[key]
    } else {
        0
    }
}

/// Two tallies merged: the keys of both, each with the sum of its numbers.
pub open spec fn merged_tally(a: Map<Seq<u8>, nat>, b: Map<Seq<u8>, nat>) -> Map<Seq<u8>, nat> {
    Map::new(
        |key: Seq<u8>| a.contains_key(key) || b.contains_key(key),
        |key: Seq<u8>| count_in(a, key) + count_in(b, key),
    )
}

/// The tallies of the chunks, each taken by itself, merged from first to last.
pub open spec fn tally_of_chunks(chunks: Seq<Seq<u8>>) -> Map<Seq<u8>, nat>
    decreases chunks.len(),
{
    if chunks.len() == 0 {
        Map::empty()
    } else {
        merged_tally(
            tally_of_chunks(chunks.drop_last()),
            tally(measurements(split(chunks.last(), NEWLINE))),
        )
    }
}

/// The rows that count in two lists of rows are those of the first followed
/// by those of the second.
pub proof fn lemma_measurements_of_joined(a: Seq<Seq<u8>>, b: Seq<Seq<u8>>)
    ensures
        measurements(a + b) == measurements(a) + measurements(b),
    decreases b.len(),
{
    if b.len() == 0 {
        assert(a + b == a);
    } else {
        assert((a + b).drop_last() == a + b.drop_last());
        assert((a + b).last() == b.last());
        lemma_measurements_of_joined(a, b.drop_last());
    }
}

/// The values of a key in two lists are those in the first followed by those
/// in the second.
pub proof fn lemma_values_of_joined(
    x: Seq<(Seq<u8>, Seq<u8>)>,
    y: Seq<(Seq<u8>, Seq<u8>)>,
    key: Seq<u8>,
)
    ensures
        values_for(x + y, key) == values_for(x, key) + values_for(y, key),
    decreases y.len(),
{
    if y.len() == 0 {
        assert(x + y == x);
    } else {
        assert((x + y).drop_last() == x + y.drop_last());
        assert((x + y).last() == y.last());
        lemma_values_of_joined(x, y.drop_last(), key);
    }
}

/// Counting the whole is counting the parts and merging: the tally of two
/// lists of rows, one behind the other, is the merge of their tallies.
pub proof fn lemma_tally_of_joined(x: Seq<(Seq<u8>, Seq<u8>)>, y: Seq<(Seq<u8>, Seq<u8>)>)
    ensures
        tally(x + y) == merged_tally(tally(x), tally(y)),
{
    let whole = tally(x + y);
    let parts = merged_tally(tally(x), tally(y));
    assert forall|key: Seq<u8>| whole.contains_key(key) <==> parts.contains_key(key) by {
        lemma_first_seen_keys(x + y, key);
        lemma_first_seen_keys(x, key);
        lemma_first_seen_keys(y, key);
        if exists|r: int| 0 <= r < (x + y).len() && (#[trigger] (x + y)[r]).0 == key {
            let r = choose|r: int| 0 <= r < (x + y).len() && (#[trigger] (x + y)[r]).0 == key;
            if r < x.len() {
                assert(x[r].0 == key);
            } else {
                assert(y[r - x.len()].0 == key);
            }
        }
        if exists|r: int| 0 <= r < x.len() && (#[trigger] x[r]).0 == key {
            let r = choose|r: int| 0 <= r < x.len() && (#[trigger] x[r]).0 == key;
            assert((x + y)[r].0 == key);
        }
        if exists|r: int| 0 <= r < y.len() && (#[trigger] y[r]).0 == key {
            let r = choose|r: int| 0 <= r < y.len() && (#[trigger] y[r]).0 == key;
            assert((x + y)[x.len() + r].0 == key);
        }
    }
    assert forall|key: Seq<u8>| whole.contains_key(key) implies whole[key] == parts[key] by {
        lemma_values_of_joined(x, y, key);
        lemma_first_seen_keys(x, key);
        lemma_first_seen_keys(y, key);
    }
    assert(whole =~= parts);
}

/// The order in which two tallies are merged does not matter.
pub proof fn lemma_merged_tally_commutes(a: Map<Seq<u8>, nat>, b: Map<Seq<u8>, nat>)
    ensures
        merged_tally(a, b) == merged_tally(b, a),
{
    assert(merged_tally(a, b) =~= merged_tally(b, a));
}

/// How three tallies are grouped for merging does not matter.
pub proof fn lemma_merged_tally_associates(
    a: Map<Seq<u8>, nat>,
    b: Map<Seq<u8>, nat>,
    c: Map<Seq<u8>, nat>,
)
    ensures
        merged_tally(merged_tally(a, b), c) == merged_tally(a, merged_tally(b, c)),
{
    assert(merged_tally(merged_tally(a, b), c) =~= merged_tally(a, merged_tally(b, c)));
}

/// Merging with a tally that has no keys changes nothing.
pub proof fn lemma_merged_tally_with_empty(a: Map<Seq<u8>, nat>)
    ensures
        merged_tally(Map::empty(), a) == a,
        merged_tally(a, Map::empty()) == a,
{
    assert(merged_tally(Map::empty(), a) =~= a);
    assert(merged_tally(a, Map::empty()) =~= a);
}

/// The merged tallies of the chunks are the tally of all their rows.
pub proof fn lemma_tally_of_chunks(chunks: Seq<Seq<u8>>)
    ensures
        tally_of_chunks(chunks) == tally(measurements(rows_of_chunks(chunks))),
    decreases chunks.len(),
{
    if chunks.len() == 0 {
        assert(tally(Seq::empty()) =~= Map::empty());
    } else {
        let head = rows_of_chunks(chunks.drop_last());
        let last = split(chunks.last(), NEWLINE);
        lemma_tally_of_chunks(chunks.drop_last());
        lemma_measurements_of_joined(head, last);
        lemma_tally_of_joined(measurements(head), measurements(last));
    }
}

/// Chunking does not change the counts: if the input is not empty and every
/// window but the last holds a newline, then counting chunk by chunk and
/// merging gives, for every key, the number that one pass over the whole
/// input gives.
pub proof fn lemma_counts_survive_chunking(content: Seq<u8>, size: int)
    requires
        0 < size,
        content.len() > 0,
        forall|k: int|
            0 <= k < window_count(content.len() as int, size) - 1 ==> #[trigger] window_has_newline(
                content,
                size,
                k,
            ),
    ensures
        tally_of_chunks(chunks_of(content, size)) == tally(measurements(split(content, NEWLINE))),
{
    lemma_chunks_keep_rows(content, size);
    lemma_tally_of_chunks(chunks_of(content, size));
}

} // verus!
