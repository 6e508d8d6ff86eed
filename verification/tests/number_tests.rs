use gpsdxo::decimal::{is_decimal, Decimal};
use gpsdxo::number::{parse_decimal, parse_u32, parse_u64, push_decimal};

fn strings_over(alphabet: &[u8], max_len: usize) -> Vec<Vec<u8>> {
    let mut all: Vec<Vec<u8>> = vec![vec![]];
    let mut last: Vec<Vec<u8>> = vec![vec![]];
    for _ in 0..max_len {
        let mut next = Vec::new();
        for s in &last {
            for b in alphabet {
                let mut t = s.clone();
                t.push(*b);
                next.push(t);
            }
        }
        all.extend(next.iter().cloned());
        last = next;
    }
    all
}

#[test]
fn parse_u64_examples() {
    assert_eq!(parse_u64(b"0"), Some(0));
    assert_eq!(parse_u64(b"80000000"), Some(80000000));
    assert_eq!(parse_u64(b"+7"), Some(7));
    assert_eq!(parse_u64(b"007"), Some(7));
    assert_eq!(parse_u64(b"18446744073709551615"), Some(u64::MAX));
    assert_eq!(parse_u64(b"18446744073709551616"), None);
    assert_eq!(parse_u64(b"184467440737095516150"), None);
    assert_eq!(parse_u64(b""), None);
    assert_eq!(parse_u64(b"+"), None);
    assert_eq!(parse_u64(b"-1"), None);
    assert_eq!(parse_u64(b"1 "), None);
    assert_eq!(parse_u64(b" 1"), None);
    assert_eq!(parse_u64(b"1_000"), None);
    assert_eq!(parse_u64(b"0x10"), None);
}

#[test]
fn parse_u32_examples() {
    assert_eq!(parse_u32(b"2048"), Some(2048));
    assert_eq!(parse_u32(b"4294967295"), Some(u32::MAX));
    assert_eq!(parse_u32(b"4294967296"), None);
    assert_eq!(parse_u32(b"+0"), Some(0));
    assert_eq!(parse_u32(b""), None);
}

#[test]
fn parse_decimal_respects_the_limit() {
    assert_eq!(parse_decimal(b"255", 255), Some(255));
    assert_eq!(parse_decimal(b"256", 255), None);
    assert_eq!(parse_decimal(b"0", 0), Some(0));
    assert_eq!(parse_decimal(b"1", 0), None);
}

#[test]
fn unsigned_parsing_agrees_with_the_standard_library() {
    for s in strings_over(b"+-019 a", 4) {
        let text = std::str::from_utf8(&s).unwrap();
        assert_eq!(parse_u64(&s), text.parse::<u64>().ok(), "{:?}", text);
        assert_eq!(parse_u32(&s), text.parse::<u32>().ok(), "{:?}", text);
    }
}

#[test]
fn push_decimal_writes_the_digits() {
    for n in [0u64, 1, 9, 10, 11, 99, 100, 12345, 80000000, u64::MAX] {
        let mut out = b"x".to_vec();
        push_decimal(&mut out, n);
        assert_eq!(out, format!("x{}", n).into_bytes());
        assert_eq!(parse_u64(&out[1..]), Some(n));
    }
}

#[test]
fn decimal_literals_accepted() {
    for text in [
        "0", "7", "007", "3.14", "-3.14", "+3.14", "5.", ".5", "-.5", "2.5E10", "2.5e10",
        "2.5E-10", "1e+5", "1.e5", ".1e5", "inf", "-inf", "+infinity", "INF", "Infinity", "NaN",
        "nan", "-nan", "+NAN", "00.00", "1e0009",
    ] {
        assert!(is_decimal(text.as_bytes()), "{:?}", text);
        assert!(text.parse::<f64>().is_ok(), "{:?}", text);
    }
}

#[test]
fn decimal_literals_rejected() {
    for text in [
        "", "+", "-", ".", "+.", "e5", ".e5", "1e", "1e+", "1e-", "1.2.3", "1..2", "--1", "+-1",
        " 1", "1 ", "1,5", "0x10", "1_0", "in", "infinit", "infinityy", "nano", "na", "1e5.0",
        "1ee5", "1e5e5", "abc", "1f", "1.0Hz", "١",
    ] {
        assert!(!is_decimal(text.as_bytes()), "{:?}", text);
        assert!(text.parse::<f64>().is_err(), "{:?}", text);
    }
}

#[test]
fn decimal_grammar_agrees_with_the_standard_library() {
    for s in strings_over(b"+-.0e9Ein", 5) {
        let text = std::str::from_utf8(&s).unwrap();
        assert_eq!(is_decimal(&s), text.parse::<f64>().is_ok(), "{:?}", text);
    }
}

#[test]
fn special_words_agree_with_the_standard_library() {
    for s in strings_over(b"iInNfFaA", 3) {
        let text = std::str::from_utf8(&s).unwrap();
        assert_eq!(is_decimal(&s), text.parse::<f64>().is_ok(), "{:?}", text);
    }
    for text in ["infinity", "INFINITY", "InFiNiTy", "-infinity", "infinit0", "infinitY", "+infinite"] {
        assert_eq!(is_decimal(text.as_bytes()), text.parse::<f64>().is_ok(), "{:?}", text);
    }
}

#[test]
fn decimal_keeps_its_literal() {
    let d = Decimal::parse(b"-1.25e3").unwrap();
    assert_eq!(d.as_bytes(), b"-1.25e3");
    assert_eq!(d.clone(), d);
    assert_eq!(Decimal::parse(b"1.25Hz"), None);
    assert_eq!(Decimal::parse(b""), None);
}
