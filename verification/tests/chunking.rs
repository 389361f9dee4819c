use keyed_stats::chunker::{create_newline_separated_chunks, split_at_row_ends};

#[test]
fn test_chunk_creation() {
    let content = "row_one\nrow_two\nrow_three\nrow_four\nrow_five";
    let mut expected = vec!["row_one", "row_two", "row_three", "row_four", "row_five"];
    expected.reverse();
    let chunks = create_newline_separated_chunks(content, 10);
    for chunk in chunks {
        let content = String::from_utf8(chunk).unwrap();
        assert_eq!(content, expected.pop().unwrap());
    }
    let mut bigger_expected = vec!["row_one", "row_two\nrow_three", "row_four", "row_five"];
    bigger_expected.reverse();
    let bigger_chunks = create_newline_separated_chunks(content, 13);
    for c in bigger_chunks {
        let content = String::from_utf8(c).unwrap();
        assert_eq!(content, bigger_expected.pop().unwrap());
    }
}

#[test]
fn chunk_counts_match_windows() {
    let content = "row_one\nrow_two\nrow_three\nrow_four\nrow_five";
    assert_eq!(create_newline_separated_chunks(content, 10).len(), 5);
    assert_eq!(create_newline_separated_chunks(content, 13).len(), 4);
    assert_eq!(create_newline_separated_chunks(content, 43).len(), 1);
    assert_eq!(create_newline_separated_chunks(content, 1000).len(), 1);
}

#[test]
fn empty_input_gives_no_chunks() {
    assert!(create_newline_separated_chunks("", 8).is_empty());
    assert!(split_at_row_ends(&[], 1).is_empty());
}

#[test]
fn single_window_keeps_everything() {
    let chunks = split_at_row_ends(b"A;1.0\nB;2.0\n", 64);
    assert_eq!(chunks, vec![b"A;1.0\nB;2.0\n".to_vec()]);
}

#[test]
fn last_window_keeps_its_newlines() {
    let chunks = split_at_row_ends(b"ab\ncd\nef\n", 5);
    assert_eq!(chunks, vec![b"ab".to_vec(), b"cd\nef\n".to_vec()]);
}

#[test]
fn window_without_newline_is_emitted_whole() {
    let chunks = split_at_row_ends(b"ab\nxycdefgh", 5);
    assert_eq!(chunks, vec![b"ab".to_vec(), b"xycdefg".to_vec(), b"h".to_vec()]);
}

#[test]
fn only_the_newline_is_dropped_at_a_boundary() {
    let chunks = split_at_row_ends(b"ab\n  cd\n e", 4);
    assert_eq!(chunks, vec![b"ab".to_vec(), b"  cd".to_vec(), b" e".to_vec()]);
}

/// Puts the chunks back together: a newline goes back in behind every chunk
/// whose window was not the last and held a newline.
fn rejoin(chunks: &[Vec<u8>], content: &[u8], size: usize) -> Vec<u8> {
    let mut out: Vec<u8> = Vec::new();
    for (k, chunk) in chunks.iter().enumerate() {
        out.extend_from_slice(chunk);
        let window = &content[k * size..content.len().min((k + 1) * size)];
        if k + 1 < chunks.len() && window.contains(&b'\n') {
            out.push(b'\n');
        }
    }
    out
}

#[test]
fn chunks_rejoin_to_the_input() {
    let inputs: [&[u8]; 5] = [
        b"alpha;1.5\nbeta;-2.0\ngamma;3.25\ndelta;4\nepsilon;5.5",
        b"alpha;1.5\nbeta;-2.0\n",
        b"\n\n\nx;1\n\n",
        b"no newline at all",
        b"a\n  b\n\tc\n",
    ];
    for content in inputs {
        for size in 1..content.len() + 3 {
            let chunks = split_at_row_ends(content, size);
            assert_eq!(chunks.len(), (content.len() + size - 1) / size);
            assert_eq!(rejoin(&chunks, content, size), content.to_vec(), "size {}", size);
        }
    }
}

#[test]
fn rows_survive_chunking() {
    let content = b"alpha;1.5\nbeta;-2.0\ngamma;3.25\ndelta;4\nepsilon;5.5";
    let rows: Vec<&[u8]> = content.split(|b| *b == b'\n').collect();
    for size in 12..60 {
        let chunks = split_at_row_ends(content, size);
        let mut seen: Vec<Vec<u8>> = Vec::new();
        for chunk in &chunks {
            for row in chunk.split(|b| *b == b'\n') {
                seen.push(row.to_vec());
            }
        }
        let want: Vec<Vec<u8>> = rows.iter().map(|r| r.to_vec()).collect();
        assert_eq!(seen, want, "size {}", size);
    }
}

#[test]
fn chunking_twice_gives_the_same_chunks() {
    let content = "station one;12.3\nstation two;-4.5\nstation one;0.0\n";
    for size in 1..40 {
        assert_eq!(
            create_newline_separated_chunks(content, size),
            create_newline_separated_chunks(content, size)
        );
    }
}
