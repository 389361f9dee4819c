use keyed_stats::aggregate::{group_rows, parse_and_compute, AggregateError};
use keyed_stats::chunker::{create_newline_separated_chunks, split_at_row_ends};
use keyed_stats::report::{render, slots_in_key_order, ReportLine};
use keyed_stats::table::{Entry, Table};

#[derive(Debug, Clone, PartialEq)]
struct Summary {
    min: f64,
    max: f64,
    mean: f64,
}

fn summarize(values: &Vec<Vec<u8>>) -> Summary {
    let mut sum = 0.0;
    let mut min = f64::INFINITY;
    let mut max = f64::NEG_INFINITY;
    for text in values {
        let value: f64 = std::str::from_utf8(text).unwrap().parse().unwrap();
        sum += value;
        if value < min {
            min = value;
        }
        if value > max {
            max = value;
        }
    }
    Summary { min, max, mean: sum / values.len() as f64 }
}

fn combine(mine: &Summary, mine_count: u64, theirs: &Summary, theirs_count: u64) -> Summary {
    let sum = mine.mean * mine_count as f64 + theirs.mean * theirs_count as f64;
    Summary {
        min: f64::min(mine.min, theirs.min),
        max: f64::max(mine.max, theirs.max),
        mean: sum / (mine_count + theirs_count) as f64,
    }
}

fn run(chunks: Vec<Vec<u8>>) -> Table<Summary> {
    let mut global: Table<Summary> = Table::new();
    for chunk in chunks {
        let partial = parse_and_compute(chunk, &summarize).unwrap();
        global.merge(partial.table, &combine);
    }
    global
}

fn report(table: &Table<Summary>) -> String {
    let mut lines: Vec<ReportLine> = Vec::new();
    for slot in slots_in_key_order(table) {
        let entry = table.entry(slot);
        lines.push(ReportLine {
            key: entry.key.clone(),
            min: format!("{:.1}", entry.summary.min).into_bytes(),
            mean: format!("{:.1}", entry.summary.mean).into_bytes(),
            max: format!("{:.1}", entry.summary.max).into_bytes(),
        });
    }
    String::from_utf8(render(&lines)).unwrap()
}

#[test]
fn single_chunk_report() {
    let input = "A;10.0\nB;5.0\nA;20.0\n";
    let chunks = create_newline_separated_chunks(input, 1024);
    assert_eq!(chunks.len(), 1);
    let table = run(chunks);
    assert_eq!(report(&table), "{A=10.0/15.0/20.0, B=5.0/5.0/5.0}");
}

#[test]
fn keys_split_over_two_chunks() {
    let chunks = vec![b"A;10.0\nA;20.0\n".to_vec(), b"B;5.0\n".to_vec()];
    let table = run(chunks);
    assert_eq!(report(&table), "{A=10.0/15.0/20.0, B=5.0/5.0/5.0}");
    let swapped = vec![b"B;5.0\n".to_vec(), b"A;10.0\nA;20.0\n".to_vec()];
    assert_eq!(report(&run(swapped)), "{A=10.0/15.0/20.0, B=5.0/5.0/5.0}");
}

#[test]
fn empty_value_fails_the_chunk() {
    let result = parse_and_compute(b"A;1.0\nX;\nB;2.0\n".to_vec(), &summarize);
    match result {
        Err(AggregateError::UnparsableValue { row }) => assert_eq!(row, 1),
        Ok(_) => panic!("an empty value was taken for a number"),
    }
    assert_eq!(
        group_rows(b"X;\n").err(),
        Some(AggregateError::UnparsableValue { row: 0 })
    );
    assert_eq!(
        group_rows(b"A;1\nB;zero").err(),
        Some(AggregateError::UnparsableValue { row: 1 })
    );
}

#[test]
fn empty_key_is_skipped() {
    let partial = parse_and_compute(b"A;1.0\n;9.0\nB;2.0\n".to_vec(), &summarize).unwrap();
    assert_eq!(partial.empty_key_rows, 1);
    assert_eq!(partial.table.len(), 2);
    let a = partial.table.get(b"A").unwrap();
    assert_eq!((a.count, a.summary.min, a.summary.max), (1, 1.0, 1.0));
    let b = partial.table.get(b"B").unwrap();
    assert_eq!((b.count, b.summary.min, b.summary.max), (1, 2.0, 2.0));
    assert!(partial.table.get(b"").is_none());
    let skipped = group_rows(b";abc\n;\n").unwrap();
    assert_eq!(skipped.empty_key_rows, 2);
    assert!(skipped.groups.is_empty());
}

#[test]
fn missing_final_newline_counts_the_last_row() {
    let input = "A;1.0\nA;2.0";
    let table = run(create_newline_separated_chunks(input, 1024));
    let a = table.get(b"A").unwrap();
    assert_eq!(a.count, 2);
    assert_eq!(a.summary, Summary { min: 1.0, max: 2.0, mean: 1.5 });
    for size in 1..12 {
        let chunks = create_newline_separated_chunks(input, size);
        if chunks.len() <= 2 && chunks.iter().all(|c| c.contains(&b';')) {
            assert_eq!(run(chunks).get(b"A").unwrap().count, 2);
        }
    }
}

#[test]
fn groups_come_in_first_seen_order() {
    let found = group_rows(b"b;1\na;2\nb;3\nc;4\na;5").unwrap();
    let keys: Vec<&[u8]> = found.groups.iter().map(|g| g.key.as_slice()).collect();
    assert_eq!(keys, vec![&b"b"[..], &b"a"[..], &b"c"[..]]);
    assert_eq!(found.groups[0].values, vec![b"1".to_vec(), b"3".to_vec()]);
    assert_eq!(found.groups[1].values, vec![b"2".to_vec(), b"5".to_vec()]);
    assert_eq!(found.groups[2].values, vec![b"4".to_vec()]);
    assert_eq!(found.empty_key_rows, 0);
}

#[test]
fn malformed_rows_are_left_out() {
    let found = group_rows(b"no separator\na;1;2\n\na;7\n;;\n").unwrap();
    assert_eq!(found.groups.len(), 1);
    assert_eq!(found.groups[0].key, b"a".to_vec());
    assert_eq!(found.groups[0].values, vec![b"7".to_vec()]);
    assert_eq!(found.empty_key_rows, 0);
    let nothing = group_rows(b"").unwrap();
    assert!(nothing.groups.is_empty());
}

#[test]
fn counts_are_rows_per_key() {
    let partial = parse_and_compute(b"k;1\nk;2\nk;3\nj;4\n".to_vec(), &summarize).unwrap();
    assert_eq!(partial.table.get(b"k").unwrap().count, 3);
    assert_eq!(partial.table.get(b"j").unwrap().count, 1);
    assert_eq!(partial.table.get(b"k").unwrap().summary.mean, 2.0);
    assert_eq!(partial.table.find(b"k"), Some(0));
    assert_eq!(partial.table.find(b"j"), Some(1));
    assert_eq!(partial.table.find(b"i"), None);
}

#[test]
fn merge_inserts_merges_and_leaves_alone() {
    let mut global: Table<Summary> = Table::new();
    global.insert_new(Entry {
        key: b"kept".to_vec(),
        count: 4,
        summary: Summary { min: -1.0, max: 9.0, mean: 2.5 },
    });
    global.insert_new(Entry {
        key: b"both".to_vec(),
        count: 1,
        summary: Summary { min: 10.0, max: 10.0, mean: 10.0 },
    });
    let mut partial: Table<Summary> = Table::new();
    partial.insert_new(Entry {
        key: b"new".to_vec(),
        count: 2,
        summary: Summary { min: 0.5, max: 1.5, mean: 1.0 },
    });
    partial.insert_new(Entry {
        key: b"both".to_vec(),
        count: 3,
        summary: Summary { min: 2.0, max: 30.0, mean: 14.0 },
    });
    global.merge(partial, &combine);
    assert_eq!(global.len(), 3);
    let kept = global.get(b"kept").unwrap();
    assert_eq!((kept.count, kept.summary.clone()), (4, Summary { min: -1.0, max: 9.0, mean: 2.5 }));
    let new = global.get(b"new").unwrap();
    assert_eq!((new.count, new.summary.clone()), (2, Summary { min: 0.5, max: 1.5, mean: 1.0 }));
    let both = global.get(b"both").unwrap();
    assert_eq!(both.count, 4);
    assert_eq!(both.summary, Summary { min: 2.0, max: 30.0, mean: 13.0 });
    assert_eq!(global.find(b"kept"), Some(0));
    assert_eq!(global.find(b"both"), Some(1));
    assert_eq!(global.find(b"new"), Some(2));
}

#[test]
fn absorb_takes_one_entry() {
    let mut table: Table<Summary> = Table::new();
    let first = Entry {
        key: b"k".to_vec(),
        count: 2,
        summary: Summary { min: 1.0, max: 3.0, mean: 2.0 },
    };
    table.absorb(first, &combine);
    assert_eq!(table.len(), 1);
    assert_eq!(table.entry(0).count, 2);
    let second = Entry {
        key: b"k".to_vec(),
        count: 2,
        summary: Summary { min: 0.0, max: 2.0, mean: 1.0 },
    };
    table.absorb(second, &combine);
    assert_eq!(table.len(), 1);
    assert_eq!(table.entry(0).count, 4);
    assert_eq!(table.entry(0).summary, Summary { min: 0.0, max: 3.0, mean: 1.5 });
}

#[test]
fn merging_in_any_order_gives_the_same_counts_and_extremes() {
    let content = b"a;1.5\nb;2\nc;-3.25\na;4\nb;5.5\na;-6\nc;7\nd;8\na;9\nb;-10\n";
    let whole = run(vec![content.to_vec()]);
    for size in 8..40 {
        let chunks = split_at_row_ends(content, size);
        let forward = run(chunks.clone());
        let mut reversed = chunks.clone();
        reversed.reverse();
        let backward = run(reversed);
        for key in [&b"a"[..], &b"b"[..], &b"c"[..], &b"d"[..]] {
            let want = whole.get(key).unwrap();
            for table in [&forward, &backward] {
                let got = table.get(key).unwrap();
                assert_eq!(got.count, want.count, "size {}", size);
                assert_eq!(got.summary.min, want.summary.min);
                assert_eq!(got.summary.max, want.summary.max);
                let error = (got.summary.mean - want.summary.mean).abs();
                assert!(error <= 1e-9 * want.summary.mean.abs());
            }
        }
        assert_eq!(report(&forward), report(&whole));
        assert_eq!(report(&backward), report(&whole));
    }
}

#[test]
fn running_twice_gives_the_same_report() {
    let content = "x;1.0\ny;2.0\nx;3.0\nz;4.5\ny;-1.0\n";
    for size in 6..20 {
        let first = report(&run(create_newline_separated_chunks(content, size)));
        let second = report(&run(create_newline_separated_chunks(content, size)));
        assert_eq!(first, second);
    }
}

#[test]
fn keys_are_reported_in_byte_order() {
    let table = run(vec![b"b;1\nab;1\na;1\nB;1\nabc;1\n\xc3\xa9;1\naa;1\n".to_vec()]);
    let order = slots_in_key_order(&table);
    let keys: Vec<Vec<u8>> = order.iter().map(|s| table.entry(*s).key.clone()).collect();
    let want: Vec<Vec<u8>> = vec![
        b"B".to_vec(),
        b"a".to_vec(),
        b"aa".to_vec(),
        b"ab".to_vec(),
        b"abc".to_vec(),
        b"b".to_vec(),
        b"\xc3\xa9".to_vec(),
    ];
    assert_eq!(keys, want);
    let mut sorted_slots = order.clone();
    sorted_slots.sort();
    assert_eq!(sorted_slots, vec![0, 1, 2, 3, 4, 5, 6]);
}

#[test]
fn render_writes_the_exact_text() {
    assert_eq!(render(&Vec::new()), b"{}".to_vec());
    let one = vec![ReportLine {
        key: b"k".to_vec(),
        min: b"-1.0".to_vec(),
        mean: b"0.5".to_vec(),
        max: b"2.0".to_vec(),
    }];
    assert_eq!(render(&one), b"{k=-1.0/0.5/2.0}".to_vec());
    let two = vec![
        ReportLine {
            key: b"a".to_vec(),
            min: b"1".to_vec(),
            mean: b"2".to_vec(),
            max: b"3".to_vec(),
        },
        ReportLine {
            key: b"b".to_vec(),
            min: b"4".to_vec(),
            mean: b"5".to_vec(),
            max: b"6".to_vec(),
        },
    ];
    assert_eq!(render(&two), b"{a=1/2/3, b=4/5/6}".to_vec());
}
