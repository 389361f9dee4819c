//! The result, laid out for reading: keys in ascending order, one line of
//! text for all of them.

use vstd::prelude::*;
use vstd::slice::slice_to_vec;

use crate::chunker::contents;
use crate::table::Table;

verus! {

/// Whether `a` comes before `b`, or is `b`, in dictionary order by bytes.
pub open spec fn lex_le(a: Seq<u8>, b: Seq<u8>) -> bool
    decreases a.len(),
{
    if a.len() == 0 {
        true
    } else if b.len() == 0 {
        false
    } else if a[0] != b[0] {
        a[0] < b[0]
    } else {
        lex_le(a.skip(1), b.skip(1))
    }
}

/// `<[T]>::sort` on byte strings: the same byte strings as before, each as
/// often as before, in ascending dictionary order.
#[verifier::external_body]
fn sort_keys(keys: &mut Vec<Vec<u8>>)
    ensures
        contents(final(keys)@).to_multiset() == contents(old(keys)@).to_multiset(),
        forall|i: int, j: int|
            0 <= i < j < final(keys)@.len() ==> lex_le(
                (#[trigger] final(keys)@[i])@,
                (#[trigger] final(keys)@[j])@,
            ),
{
    keys.sort();
}

/// The slots of `table` in ascending order of their keys.
pub fn slots_in_key_order<S>(table: &Table<S>) -> (order: Vec<usize>)
    requires
        table.wf(),
    ensures
        order@.len() == table.entries().len(),
        forall|i: int| 0 <= i < order@.len() ==> (#[trigger] order@[i]) < table.entries().len(),
        forall|slot: usize| slot < table.entries().len() ==> #[trigger] order@.contains(slot),
        forall|i: int, j: int|
            0 <= i < j < order@.len() ==> {
                &&& lex_le(
                    table.keys()[(#[trigger] order@[i]) as int],
                    table.keys()[(#[trigger] order@[j]) as int],
                )
                &&& order@[i] != order@[j]
            },
{
    let n = table.len();
    let mut names: Vec<Vec<u8>> = Vec::new();
    let mut i: usize = 0;
    while i < n
        invariant
            n == table.entries().len(),
            i <= n,
            contents(names@) == table.keys().take(i as int),
        decreases n - i,
    {
        let ghost before = contents(names@);
        names.push(slice_to_vec(table.entry(i).key.as_slice()));
        proof {
            assert(contents(names@) == before.push(table.keys()[i as int]));
            assert(table.keys().take(i + 1) == table.keys().take(i as int).push(
                table.keys()[i as int],
            ));
        }
        i = i + 1;
    }
    proof {
        assert(table.keys().take(n as int) == table.keys());
    }
    let ghost unsorted = contents(names@);
    sort_keys(&mut names);
    let ghost sorted = contents(names@);
    proof {
        assert(unsorted == table.keys());
        table.lemma_keys_differ();
        table.keys().to_multiset_ensures();
        sorted.to_multiset_ensures();
        table.keys().lemma_multiset_has_no_duplicates();
        sorted.lemma_multiset_has_no_duplicates_conv();
        assert(sorted.len() == names@.len());
        assert forall|key: Seq<u8>| sorted.contains(key) <==> table.has_key(key) by {
            vstd::seq_lib::to_multiset_contains(sorted, key);
            vstd::seq_lib::to_multiset_contains(table.keys(), key);
        }
    }
    let mut order: Vec<usize> = Vec::new();
    let mut j: usize = 0;
    while j < n
        invariant
            n == table.entries().len(),
            names@.len() == n,
            sorted == contents(names@),
            j <= n,
            table.wf(),
            sorted.no_duplicates(),
            forall|key: Seq<u8>| sorted.contains(key) <==> table.has_key(key),
            order@.len() == j,
            forall|i: int|
                0 <= i < j ==> (#[trigger] order@[i]) < n && table.keys()[order@[i] as int]
                    == sorted[i],
        decreases n - j,
    {
        proof {
            assert(sorted[j as int] == names@[j as int]@);
            assert(sorted.contains(sorted[j as int]));
        }
        let found = table.find(names[j].as_slice());
        let slot = match found {
            Some(slot) => slot,
            None => {
                proof {
                    assert(false);
                }
                0
            },
        };
        proof {
            let key = sorted[j as int];
            assert(table.keys()[table.slot_of(key)] == key);
        }
        order.push(slot);
        j = j + 1;
    }
    proof {
        assert forall|slot: usize| slot < n implies #[trigger] order@.contains(slot) by {
            let key = table.keys()[slot as int];
            assert(table.has_key(key));
            assert(sorted.contains(key));
            let at = choose|at: int| 0 <= at < sorted.len() && sorted[at] == key;
            assert(table.keys()[order@[at] as int] == key);
            assert(order@[at] == slot);
        }
        assert forall|a: int, b: int| 0 <= a < b < order@.len() implies {
            &&& lex_le(
                table.keys()[(#[trigger] order@[a]) as int],
                table.keys()[(#[trigger] order@[b]) as int],
            )
            &&& order@[a] != order@[b]
        } by {
            assert(sorted[a] == names@[a]@);
            assert(sorted[b] == names@[b]@);
            assert(sorted[a] != sorted[b]);
        }
    }
    order
}

/// One key with the texts of its smallest value, its mean and its largest
/// value.
pub struct ReportLine {
    pub key: Vec<u8>,
    pub min: Vec<u8>,
    pub mean: Vec<u8>,
    pub max: Vec<u8>,
}

/// `key=min/mean/max`.
pub open spec fn line_text(line: ReportLine) -> Seq<u8> {
    line.key@ + seq![61u8] + line.min@ + seq![47u8] + line.mean@ + seq![47u8] + line.max@
}

/// The texts of the lines with a comma and a space between them.
pub open spec fn joined(lines: Seq<ReportLine>) -> Seq<u8>
    decreases lines.len(),
{
    if lines.len() == 0 {
        Seq::empty()
    } else if lines.len() == 1 {
        line_text(lines[0])
    } else {
        joined(lines.drop_last()) + seq![44u8, 32u8] + line_text(lines.last())
    }
}

/// The joined lines between braces.
pub open spec fn report_text(lines: Seq<ReportLine>) -> Seq<u8> {
    seq![123u8] + joined(lines) + seq![125u8]
}

fn append(out: &mut Vec<u8>, bytes: &[u8])
    ensures
        final(out)@ == old(out)@ + bytes@,
{
    let mut i: usize = 0;
    while i < bytes.len()
        invariant
            i <= bytes@.len(),
            out@ == old(out)@ + bytes@.take(i as int),
        decreases bytes@.len() - i,
    {
        out.push(bytes[i]);
        proof {
            assert(bytes@.take(i + 1) == bytes@.take(i as int).push(bytes@[i as int]));
        }
        i = i + 1;
    }
    proof {
        assert(bytes@.take(bytes@.len() as int) == bytes@);
    }
}

/// Writes the lines as one text: `{`, the lines as `key=min/mean/max` with
/// `, ` between them, `}`.
pub fn render(lines: &Vec<ReportLine>) -> (text: Vec<u8>)
    ensures
        text@ == report_text(lines@),
{
    let mut text: Vec<u8> = Vec::new();
    text.push(123u8);
    let mut i: usize = 0;
    while i < lines.len()
        invariant
            i <= lines@.len(),
            text@ == seq![123u8] + joined(lines@.take(i as int)),
        decreases lines@.len() - i,
    {
        let ghost before = text@;
        if i > 0 {
            text.push(44u8);
            text.push(32u8);
        }
        let line = &lines[i];
        append(&mut text, line.key.as_slice());
        text.push(61u8);
        append(&mut text, line.min.as_slice());
        text.push(47u8);
        append(&mut text, line.mean.as_slice());
        text.push(47u8);
        append(&mut text, line.max.as_slice());
        proof {
            let head = lines@.take(i + 1);
            assert(head.drop_last() == lines@.take(i as int));
            assert(head.last() == lines@[i as int]);
            let gap = if i > 0 {
                seq![44u8, 32u8]
            } else {
                Seq::<u8>::empty()
            };
            assert(text@ == before + gap + line_text(lines@[i as int]));
            if i == 0 {
                assert(joined(lines@.take(0)) == Seq::<u8>::empty());
                assert(head[0] == lines@[0]);
            }
        }
        i = i + 1;
    }
    proof {
        assert(lines@.take(lines@.len() as int) == lines@);
    }
    text.push(125u8);
    text
}

} // verus!
