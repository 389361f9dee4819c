//! Rows and fields: splitting bytes on a separator.

use vstd::prelude::*;

verus! {

/// The byte that separates the key of a row from its value.
pub const FIELD_SEPARATOR: u8 = 59;

/// The pieces of `s` between occurrences of `sep`, in order. There is always
/// one piece more than there are separators, so the empty input has one
/// empty piece.
pub open spec fn split(s: Seq<u8>, sep: u8) -> Seq<Seq<u8>>
    decreases s.len(),
{
    if s.len() == 0 {
        seq![Seq::empty()]
    } else if s.last() == sep {
        split(s.drop_last(), sep).push(Seq::empty())
    } else {
        let before = split(s.drop_last(), sep);
        before.drop_last().push(before.last().push(s.last()))
    }
}

/// A split is never empty.
pub proof fn lemma_split_nonempty(s: Seq<u8>, sep: u8)
    ensures
        split(s, sep).len() >= 1,
    decreases s.len(),
{
    if s.len() > 0 {
        lemma_split_nonempty(s.drop_last(), sep);
    }
}

/// Splitting two inputs joined by a separator gives the pieces of the first
/// followed by the pieces of the second.
pub proof fn lemma_split_joined(a: Seq<u8>, b: Seq<u8>, sep: u8)
    ensures
        split(a + seq![sep] + b, sep) == split(a, sep) + split(b, sep),
    decreases b.len(),
{
    let joined = a + seq![sep] + b;
    lemma_split_nonempty(a, sep);
    if b.len() == 0 {
        assert(joined.drop_last() == a);
        assert(split(b, sep) == seq![Seq::<u8>::empty()]);
        assert(split(a, sep).push(Seq::empty()) == split(a, sep) + split(b, sep));
    } else {
        let shorter = a + seq![sep] + b.drop_last();
        assert(joined.drop_last() == shorter);
        assert(joined.last() == b.last());
        lemma_split_joined(a, b.drop_last(), sep);
        lemma_split_nonempty(b.drop_last(), sep);
        let left = split(a, sep);
        let right = split(b.drop_last(), sep);
        assert((left + right).last() == right.last());
        assert((left + right).drop_last() == left + right.drop_last());
        if b.last() == sep {
            assert((left + right).push(Seq::empty()) == left + right.push(Seq::empty()));
        } else {
            let grown = right.last().push(b.last());
            assert((left + right.drop_last()).push(grown) == left + right.drop_last().push(grown));
        }
    }
}

/// The pieces of a prefix, but for its last, are pieces of the whole: a
/// piece is complete once its separator has been read.
pub proof fn lemma_split_prefix(s: Seq<u8>, upto: int, sep: u8)
    requires
        0 <= upto <= s.len(),
    ensures
        1 <= split(s.take(upto), sep).len() <= split(s, sep).len(),
        forall|r: int|
            0 <= r < split(s.take(upto), sep).len() - 1 ==> split(s, sep)[r] == split(
                s.take(upto),
                sep,
            )[r],
    decreases s.len() - upto,
{
    lemma_split_nonempty(s.take(upto), sep);
    if upto == s.len() {
        assert(s.take(upto) == s);
    } else {
        assert(s.drop_last().take(upto) == s.take(upto));
        lemma_split_prefix(s.drop_last(), upto, sep);
        lemma_split_nonempty(s.drop_last(), sep);
    }
}

/// How often `sep` occurs in `s`.
pub open spec fn count_of(s: Seq<u8>, sep: u8) -> nat
    decreases s.len(),
{
    if s.len() == 0 {
        0
    } else if s.last() == sep {
        count_of(s.drop_last(), sep) + 1
    } else {
        count_of(s.drop_last(), sep)
    }
}

/// A split has one piece more than there are separators.
pub proof fn lemma_split_len(s: Seq<u8>, sep: u8)
    ensures
        split(s, sep).len() == count_of(s, sep) + 1,
    decreases s.len(),
{
    if s.len() > 0 {
        lemma_split_len(s.drop_last(), sep);
    }
}

/// Without a separator the input is its own single piece.
pub proof fn lemma_split_whole(s: Seq<u8>, sep: u8)
    requires
        forall|i: int| 0 <= i < s.len() ==> s[i] != sep,
    ensures
        split(s, sep) == seq![s],
        count_of(s, sep) == 0,
    decreases s.len(),
{
    if s.len() > 0 {
        lemma_split_whole(s.drop_last(), sep);
        assert(s.drop_last().push(s.last()) == s);
        assert(seq![s.drop_last()].drop_last().push(s) == seq![s]);
    } else {
        assert(s == Seq::<u8>::empty());
    }
}

/// With exactly one separator, at `at`, the pieces are what stands in front
/// of it and what stands behind it.
pub proof fn lemma_split_pair(s: Seq<u8>, sep: u8, at: int)
    requires
        0 <= at < s.len(),
        s[at] == sep,
        forall|i: int| 0 <= i < s.len() && i != at ==> s[i] != sep,
    ensures
        split(s, sep) == seq![s.subrange(0, at), s.subrange(at + 1, s.len() as int)],
{
    let front = s.subrange(0, at);
    let back = s.subrange(at + 1, s.len() as int);
    assert(front + seq![sep] + back == s);
    lemma_split_joined(front, back, sep);
    lemma_split_whole(front, sep);
    lemma_split_whole(back, sep);
    assert(seq![front] + seq![back] == seq![front, back]);
}

/// A row that counts: exactly two fields, the first of them, the key, not
/// empty.
pub open spec fn is_measurement(row: Seq<u8>) -> bool {
    split(row, FIELD_SEPARATOR).len() == 2 && split(row, FIELD_SEPARATOR)[0].len() > 0
}

/// A row of two fields whose key is empty.
pub open spec fn has_empty_key(row: Seq<u8>) -> bool {
    split(row, FIELD_SEPARATOR).len() == 2 && split(row, FIELD_SEPARATOR)[0].len() == 0
}

/// The key of a row of two fields.
pub open spec fn key_of(row: Seq<u8>) -> Seq<u8> {
    split(row, FIELD_SEPARATOR)[0]
}

/// The value field of a row of two fields.
pub open spec fn value_of(row: Seq<u8>) -> Seq<u8> {
    split(row, FIELD_SEPARATOR)[1]
}

/// What kind of row a line is.
#[derive(Clone, Copy, Debug, PartialEq, Eq)]
pub enum RowShape {
    /// Not exactly two fields.
    Malformed,
    /// Two fields, but nothing in front of the separator.
    EmptyKey,
    /// A key and a value field, with the separator at this offset.
    Measurement { separator: usize },
}

/// Finds the fields of one row.
pub fn classify_row(row: &[u8]) -> (shape: RowShape)
    ensures
        match shape {
            RowShape::Malformed => !is_measurement(row@) && !has_empty_key(row@),
            RowShape::EmptyKey => has_empty_key(row@),
            RowShape::Measurement { separator } => {
                &&& is_measurement(row@)
                &&& separator < row@.len()
                &&& key_of(row@) == row@.subrange(0, separator as int)
                &&& value_of(row@) == row@.subrange(separator + 1, row@.len() as int)
            },
        },
{
    let mut seen: usize = 0;
    let mut first: usize = 0;
    let mut i: usize = 0;
    while i < row.len()
        invariant
            i <= row@.len(),
            seen <= i,
            seen == count_of(row@.take(i as int), FIELD_SEPARATOR),
            seen >= 1 ==> first < i && row@[first as int] == FIELD_SEPARATOR,
            seen == 0 ==> forall|j: int| 0 <= j < i ==> row@[j] != FIELD_SEPARATOR,
            seen == 1 ==> forall|j: int| 0 <= j < i && j != first ==> row@[j] != FIELD_SEPARATOR,
        decreases row@.len() - i,
    {
        proof {
            assert(row@.take(i + 1).drop_last() == row@.take(i as int));
        }
        if row[i] == FIELD_SEPARATOR {
            if seen == 0 {
                first = i;
            }
            seen = seen + 1;
        }
        i = i + 1;
    }
    proof {
        assert(row@.take(i as int) == row@);
        lemma_split_len(row@, FIELD_SEPARATOR);
        if seen == 1 {
            lemma_split_pair(row@, FIELD_SEPARATOR, first as int);
        }
    }
    if seen != 1 {
        RowShape::Malformed
    } else if first == 0 {
        RowShape::EmptyKey
    } else {
        RowShape::Measurement { separator: first }
    }
}

} // verus!
