//! What the merge of tables inherits from the function that combines two
//! summaries.
//!
//! A table does not know what a summary is. Where the combining function is
//! a function in the mathematical sense, a merge is one too, and it is as
//! indifferent to the order and the grouping of the partial results as that
//! function is.

use vstd::prelude::*;

use crate::table::Table;

verus! {

/// Two mappings merged with `g`: the keys of both; a key of one alone keeps
/// what it has; a key of both gets the sum of the counts and what `g` makes
/// of the two summaries and their counts.
pub open spec fn merged_map<S>(
    a: Map<Seq<u8>, (nat, S)>,
    b: Map<Seq<u8>, (nat, S)>,
    g: spec_fn(S, nat, S, nat) -> S,
) -> Map<Seq<u8>, (nat, S)> {
    Map::new(
        |key: Seq<u8>| a.contains_key(key) || b.contains_key(key),
        |key: Seq<u8>|
            if a.contains_key(key) && b.contains_key(key) {
                (a[key].0 + b[key].0, g(a[key].1, a[key].0, b[key].1, b[key].0))
            } else if a.contains_key(key) {
                a[key]
            } else {
                b[key]
            },
    )
}

/// Whether `g` gives the same for two summaries in either order.
pub open spec fn commutes<S>(g: spec_fn(S, nat, S, nat) -> S) -> bool {
    forall|x: S, n: nat, y: S, m: nat| #[trigger] g(x, n, y, m) == g(y, m, x, n)
}

/// Whether `g` gives the same for three summaries however they are grouped.
pub open spec fn associates<S>(g: spec_fn(S, nat, S, nat) -> S) -> bool {
    forall|x: S, n: nat, y: S, m: nat, z: S, l: nat|
        g(#[trigger] g(x, n, y, m), n + m, z, l) == g(x, n, #[trigger] g(y, m, z, l), m + l)
}

/// Whether `combine` returns what `g` says, and nothing else.
pub open spec fn computes<S, F: Fn(&S, u64, &S, u64) -> S>(
    combine: F,
    g: spec_fn(S, nat, S, nat) -> S,
) -> bool {
    forall|x: &S, n: u64, y: &S, m: u64, r: S| #[trigger]
        call_ensures(combine, (x, n, y, m), r) ==> r == g(*x, n as nat, *y, m as nat)
}

/// Where `combine` computes `g`, the table after a merge holds the two
/// mappings merged with `g`.
pub proof fn lemma_merge_computes<S, F: Fn(&S, u64, &S, u64) -> S>(
    before: Table<S>,
    partial: Table<S>,
    after: Table<S>,
    combine: F,
    g: spec_fn(S, nat, S, nat) -> S,
)
    requires
        after.is_merge_of(&before, &partial, combine),
        computes(combine, g),
    ensures
        after.as_map() == merged_map(before.as_map(), partial.as_map(), g),
{
    let merged = merged_map(before.as_map(), partial.as_map(), g);
    assert forall|key: Seq<u8>| after.as_map().contains_key(key) implies after.as_map()[key]
        == merged[key] by {
        assert(after.has_key(key));
        if before.has_key(key) && partial.has_key(key) {
            let mine = before.entry_of(key);
            let theirs = partial.entry_of(key);
            let both = after.entry_of(key);
            assert(call_ensures(
                combine,
                (&mine.summary, mine.count, &theirs.summary, theirs.count),
                both.summary,
            ));
        } else if before.has_key(key) {
            assert(after.entry_of(key) == before.entry_of(key));
        } else {
            assert(after.entry_of(key) == partial.entry_of(key));
        }
    }
    assert forall|key: Seq<u8>| after.as_map().contains_key(key) <==> merged.contains_key(key) by {
        assert(after.has_key(key) <==> before.has_key(key) || partial.has_key(key));
    }
    assert(after.as_map() =~= merged);
}

/// Where `combine` computes a function, merging the same partial result into
/// the same table twice gives the same mapping.
pub proof fn lemma_merge_repeats<S, F: Fn(&S, u64, &S, u64) -> S>(
    before: Table<S>,
    partial: Table<S>,
    first: Table<S>,
    second: Table<S>,
    combine: F,
    g: spec_fn(S, nat, S, nat) -> S,
)
    requires
        first.is_merge_of(&before, &partial, combine),
        second.is_merge_of(&before, &partial, combine),
        computes(combine, g),
    ensures
        first.as_map() == second.as_map(),
{
    lemma_merge_computes(before, partial, first, combine, g);
    lemma_merge_computes(before, partial, second, combine, g);
}

/// Where `g` commutes, it does not matter which of two partial results is
/// merged into the other.
pub proof fn lemma_merged_map_commutes<S>(
    a: Map<Seq<u8>, (nat, S)>,
    b: Map<Seq<u8>, (nat, S)>,
    g: spec_fn(S, nat, S, nat) -> S,
)
    requires
        commutes(g),
    ensures
        merged_map(a, b, g) == merged_map(b, a, g),
{
    assert(merged_map(a, b, g) =~= merged_map(b, a, g));
}

/// Where `g` associates, it does not matter how three partial results are
/// grouped for merging.
pub proof fn lemma_merged_map_associates<S>(
    a: Map<Seq<u8>, (nat, S)>,
    b: Map<Seq<u8>, (nat, S)>,
    c: Map<Seq<u8>, (nat, S)>,
    g: spec_fn(S, nat, S, nat) -> S,
)
    requires
        associates(g),
    ensures
        merged_map(merged_map(a, b, g), c, g) == merged_map(a, merged_map(b, c, g), g),
{
    let left = merged_map(merged_map(a, b, g), c, g);
    let right = merged_map(a, merged_map(b, c, g), g);
    assert forall|key: Seq<u8>| left.contains_key(key) implies left[key] == right[key] by {
        if a.contains_key(key) && b.contains_key(key) && c.contains_key(key) {
            let x = a[key];
            let y = b[key];
            let z = c[key];
            assert(g(g(x.1, x.0, y.1, y.0), x.0 + y.0, z.1, z.0) == g(
                x.1,
                x.0,
                g(y.1, y.0, z.1, z.0),
                y.0 + z.0,
            ));
        }
    }
    assert(left =~= right);
}

} // verus!
