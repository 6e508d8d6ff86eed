use gpsdxo::decimal::Decimal;
use gpsdxo::message::{CartainMessage, Kind};

fn decimal(text: &str) -> Decimal {
    Decimal::parse(text.as_bytes()).unwrap()
}

#[test]
fn current_frequency_line() {
    assert_eq!(CartainMessage::from_str("# Curr: 80000000"), Some(CartainMessage::Curr(80000000)));
}

#[test]
fn deviation_current_line() {
    assert_eq!(
        CartainMessage::from_str("# Deviation current: 0.5Hz"),
        Some(CartainMessage::DevCurr(decimal("0.5")))
    );
}

#[test]
fn deviation_accumulated_line() {
    assert_eq!(
        CartainMessage::from_str("# Deviation accum: 1.25Hz"),
        Some(CartainMessage::DevAccum(decimal("1.25")))
    );
}

#[test]
fn dac1_line() {
    assert_eq!(CartainMessage::from_str("# New DAC1 value 2048"), Some(CartainMessage::DAC1(2048)));
}

#[test]
fn dac2_line() {
    assert_eq!(CartainMessage::from_str("# New DAC2 value 2049"), Some(CartainMessage::DAC2(2049)));
}

#[test]
fn deviation_ppb_line() {
    assert_eq!(
        CartainMessage::from_str("* 0.75 ppb"),
        Some(CartainMessage::Deviation(decimal("0.75")))
    );
}

#[test]
fn bytes_and_text_classify_alike() {
    assert_eq!(
        CartainMessage::from_bytes(b"# New DAC1 value 7"),
        CartainMessage::from_str("# New DAC1 value 7")
    );
    assert_eq!(CartainMessage::from_bytes(b"# New DAC1 value 7"), Some(CartainMessage::DAC1(7)));
}

#[test]
fn unrecognised_line_is_no_message() {
    assert_eq!(CartainMessage::from_str("hello world"), None);
    assert_eq!(CartainMessage::from_str(""), None);
    assert_eq!(CartainMessage::from_str("#"), None);
    assert_eq!(CartainMessage::from_str("# Current: 5"), None);
    assert_eq!(CartainMessage::from_str(" # Curr: 5"), None);
    assert_eq!(CartainMessage::from_str("# curr: 5"), None);
}

#[test]
fn malformed_number_is_no_message() {
    assert_eq!(CartainMessage::from_str("# Curr: notanumber"), None);
    assert_eq!(CartainMessage::from_str("# Curr: 12a"), None);
    assert_eq!(CartainMessage::from_str("# Curr: -5"), None);
    assert_eq!(CartainMessage::from_str("# Curr: 1.5"), None);
    assert_eq!(CartainMessage::from_str("# New DAC1 value x"), None);
    assert_eq!(CartainMessage::from_str("# Deviation current: abcHz"), None);
    assert_eq!(CartainMessage::from_str("* zero ppb"), None);
}

#[test]
fn missing_separator_is_no_message() {
    assert_eq!(CartainMessage::from_str("# Curr:"), None);
    assert_eq!(CartainMessage::from_str("# Curr:80000000"), None);
    assert_eq!(CartainMessage::from_str("*"), None);
    assert_eq!(CartainMessage::from_str("*0.5ppb"), None);
    assert_eq!(CartainMessage::from_str("# New DAC1 value"), None);
}

#[test]
fn empty_payload_is_no_message() {
    assert_eq!(CartainMessage::from_str("# Curr: "), None);
    assert_eq!(CartainMessage::from_str("# Deviation current: Hz"), None);
    assert_eq!(CartainMessage::from_str("*  ppb"), None);
    assert_eq!(CartainMessage::from_str("# New DAC2 value "), None);
}

#[test]
fn missing_unit_is_no_message() {
    assert_eq!(CartainMessage::from_str("# Deviation current: 0.5"), None);
    assert_eq!(CartainMessage::from_str("# Deviation accum: 0.5hz"), None);
    assert_eq!(CartainMessage::from_str("# Deviation accum: 0.5 Hz"), None);
    assert_eq!(CartainMessage::from_str("* 0.5"), None);
    assert_eq!(CartainMessage::from_str("* 0.5ppb"), None);
    assert_eq!(CartainMessage::from_str("* 0.5 ppm"), None);
}

#[test]
fn hash_lines_take_the_last_token() {
    assert_eq!(CartainMessage::from_str("# Curr: 5 6"), Some(CartainMessage::Curr(6)));
    assert_eq!(CartainMessage::from_str("# Curr: extra words 17"), Some(CartainMessage::Curr(17)));
    assert_eq!(
        CartainMessage::from_str("# Deviation current: now 2Hz"),
        Some(CartainMessage::DevCurr(decimal("2")))
    );
}

#[test]
fn star_lines_split_at_the_first_blank() {
    assert_eq!(
        CartainMessage::from_str("*** -3.5e2 ppb"),
        Some(CartainMessage::Deviation(decimal("-3.5e2")))
    );
    assert_eq!(CartainMessage::from_str("* 1 2 ppb"), None);
    assert_eq!(CartainMessage::from_str("*  0.5 ppb"), None);
}

#[test]
fn integer_limits() {
    assert_eq!(
        CartainMessage::from_str("# Curr: 18446744073709551615"),
        Some(CartainMessage::Curr(u64::MAX))
    );
    assert_eq!(CartainMessage::from_str("# Curr: 18446744073709551616"), None);
    assert_eq!(CartainMessage::from_str("# Curr: 99999999999999999999999"), None);
    assert_eq!(
        CartainMessage::from_str("# New DAC1 value 4294967295"),
        Some(CartainMessage::DAC1(u32::MAX))
    );
    assert_eq!(CartainMessage::from_str("# New DAC1 value 4294967296"), None);
    assert_eq!(CartainMessage::from_str("# New DAC2 value 0"), Some(CartainMessage::DAC2(0)));
}

#[test]
fn integers_take_a_plus_sign_and_leading_zeros() {
    assert_eq!(CartainMessage::from_str("# Curr: +42"), Some(CartainMessage::Curr(42)));
    assert_eq!(CartainMessage::from_str("# Curr: 00042"), Some(CartainMessage::Curr(42)));
    assert_eq!(CartainMessage::from_str("# Curr: +"), None);
    assert_eq!(CartainMessage::from_str("# Curr: ++1"), None);
}

#[test]
fn written_line_of_each_kind() {
    assert_eq!(CartainMessage::Curr(80000000).to_line(), b"# Curr: 80000000".to_vec());
    assert_eq!(
        CartainMessage::DevCurr(decimal("0.5")).to_line(),
        b"# Deviation current: 0.5Hz".to_vec()
    );
    assert_eq!(
        CartainMessage::DevAccum(decimal("1.25")).to_line(),
        b"# Deviation accum: 1.25Hz".to_vec()
    );
    assert_eq!(CartainMessage::Deviation(decimal("0.75")).to_line(), b"* 0.75 ppb".to_vec());
    assert_eq!(CartainMessage::DAC1(2048).to_line(), b"# New DAC1 value 2048".to_vec());
    assert_eq!(CartainMessage::DAC2(0).to_line(), b"# New DAC2 value 0".to_vec());
}

#[test]
fn written_line_classifies_as_the_message() {
    let messages = vec![
        CartainMessage::Curr(0),
        CartainMessage::Curr(9),
        CartainMessage::Curr(10),
        CartainMessage::Curr(79999999),
        CartainMessage::Curr(u64::MAX),
        CartainMessage::DevCurr(decimal("0.5")),
        CartainMessage::DevCurr(decimal("-12.")),
        CartainMessage::DevAccum(decimal("+.25e-3")),
        CartainMessage::DevAccum(decimal("nan")),
        CartainMessage::Deviation(decimal("0.75")),
        CartainMessage::Deviation(decimal("-Infinity")),
        CartainMessage::DAC1(0),
        CartainMessage::DAC1(u32::MAX),
        CartainMessage::DAC2(65535),
    ];
    for message in messages {
        let line = message.to_line();
        assert_eq!(CartainMessage::from_bytes(&line), Some(message));
    }
}

#[test]
fn clone_keeps_the_message() {
    let message = CartainMessage::DevAccum(decimal("1.25"));
    assert_eq!(message.clone(), message);
    let message = CartainMessage::DAC2(3);
    assert_eq!(message.clone(), message);
}

#[test]
fn float_payloads_convert_within_tolerance() {
    let cases = vec![("# Deviation current: 0.5Hz", 0.5f64), ("* 0.75 ppb", 0.75f64)];
    for (line, expected) in cases {
        let value = match CartainMessage::from_str(line) {
            Some(CartainMessage::DevCurr(d)) | Some(CartainMessage::Deviation(d)) => {
                std::str::from_utf8(d.as_bytes()).unwrap().parse::<f64>().unwrap()
            }
            other => panic!("unexpected {:?}", other),
        };
        assert!((value - expected).abs() < 1e-12);
    }
}

#[test]
fn each_message_has_its_kind() {
    assert_eq!(CartainMessage::Curr(1).kind(), Kind::Curr);
    assert_eq!(CartainMessage::DevCurr(decimal("1")).kind(), Kind::DevCurr);
    assert_eq!(CartainMessage::DevAccum(decimal("1")).kind(), Kind::DevAccum);
    assert_eq!(CartainMessage::Deviation(decimal("1")).kind(), Kind::Deviation);
    assert_eq!(CartainMessage::DAC1(1).kind(), Kind::DAC1);
    assert_eq!(CartainMessage::DAC2(1).kind(), Kind::DAC2);
}

#[test]
fn a_marker_inside_a_line_does_not_count() {
    assert_eq!(CartainMessage::from_str("x# Curr: 5"), None);
    assert_eq!(CartainMessage::from_str("# Deviation current: # Curr: 5"), None);
    assert_eq!(
        CartainMessage::from_str("# Curr: * 5"),
        Some(CartainMessage::Curr(5))
    );
    assert_eq!(
        CartainMessage::from_str("*# Curr: 0.5 ppb"),
        None
    );
}
