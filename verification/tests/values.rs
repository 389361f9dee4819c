use keyed_stats::number::is_value_text;
use keyed_stats::rows::{classify_row, RowShape};

#[test]
fn accepts_decimal_numbers() {
    for text in [
        "0", "7", "10.0", "-3.14", "+3.14", "5.", ".5", "-.5", "+5.", "2.5E10", "2.5e10",
        "2.5E-10", "1e+3", "1.e5", ".5e0", "007", "123456789012345678901234567890.5",
    ] {
        assert!(is_value_text(text.as_bytes()), "{}", text);
    }
}

#[test]
fn accepts_the_special_words() {
    for text in [
        "inf", "-inf", "+infinity", "NaN", "nan", "INF", "Infinity", "-INFINITY", "+nan", "iNf",
    ] {
        assert!(is_value_text(text.as_bytes()), "{}", text);
    }
}

#[test]
fn rejects_what_is_not_a_number() {
    for text in [
        "", "+", "-", ".", "+.", "e5", "1e", "1e+", "1e-", "1.2.3", "1 ", " 1", "1,5", "abc",
        "--1", "+-1", "1e5.0", "0x10", "1_000", "infinit", "infinityy", "in", "na", "nanx",
        "1f", "1.0f", "\u{0661}", "1e1e1", ".e1", "-.e1", "1\n",
    ] {
        assert!(!is_value_text(text.as_bytes()), "{:?}", text);
    }
}

#[test]
fn agrees_with_the_standard_reading_of_numbers() {
    let alphabet: &[u8] = b"+-.eE019infaINFty ";
    let mut texts: Vec<Vec<u8>> = vec![Vec::new()];
    let mut frontier: Vec<Vec<u8>> = vec![Vec::new()];
    for _ in 0..4 {
        let mut next: Vec<Vec<u8>> = Vec::new();
        for text in &frontier {
            for b in alphabet {
                let mut longer = text.clone();
                longer.push(*b);
                next.push(longer);
            }
        }
        texts.extend(next.iter().cloned());
        frontier = next;
    }
    for text in texts {
        let standard = std::str::from_utf8(&text).unwrap().parse::<f64>().is_ok();
        assert_eq!(is_value_text(&text), standard, "{:?}", String::from_utf8_lossy(&text));
    }
}

#[test]
fn agrees_with_the_standard_reading_of_longer_texts() {
    for text in [
        "infinity", "Infinity", "-infinity", "+INFINITY", "infinitY", "infinite", "1.5e-300",
        "1.7976931348623157e308", "1e400", "-0.0", "0.000000000000000000001", "12.34.56",
        "1e-", "1E+05", "9999999999999999999999", "+.e", "3.e", "3.e1", "nan ", "n an",
    ] {
        let standard = text.parse::<f64>().is_ok();
        assert_eq!(is_value_text(text.as_bytes()), standard, "{:?}", text);
    }
}

#[test]
fn classifies_rows() {
    assert_eq!(classify_row(b"key;1.0"), RowShape::Measurement { separator: 3 });
    assert_eq!(classify_row(b"k;"), RowShape::Measurement { separator: 1 });
    assert_eq!(classify_row(b";1.0"), RowShape::EmptyKey);
    assert_eq!(classify_row(b";"), RowShape::EmptyKey);
    assert_eq!(classify_row(b""), RowShape::Malformed);
    assert_eq!(classify_row(b"key"), RowShape::Malformed);
    assert_eq!(classify_row(b"a;b;c"), RowShape::Malformed);
    assert_eq!(classify_row(b";;"), RowShape::Malformed);
}
