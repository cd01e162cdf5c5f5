use hls_reorder::bandwidth::{get_bandwidth, parse_bandwidth};
use hls_reorder::error::ReorderError;
use hls_reorder::variant::Variant;

fn with_bandwidth(text: &str) -> Variant<()> {
    Variant { is_i_frame: false, audio: None, bandwidth: text.to_string(), payload: () }
}

#[test]
fn parses_plain_decimal() {
    assert_eq!(parse_bandwidth("500000"), Some(500000));
    assert_eq!(parse_bandwidth("0"), Some(0));
    assert_eq!(parse_bandwidth("7"), Some(7));
    assert_eq!(parse_bandwidth("1234567890"), Some(1234567890));
}

#[test]
fn accepts_leading_zeros_and_one_plus_sign() {
    assert_eq!(parse_bandwidth("007"), Some(7));
    assert_eq!(parse_bandwidth("+5"), Some(5));
    assert_eq!(parse_bandwidth("+0042"), Some(42));
    assert_eq!(parse_bandwidth("++5"), None);
}

#[test]
fn rejects_text_that_is_no_number() {
    for text in ["", "+", "-", "-1", "12a", "a12", "1 2", " 12", "12 ", "1.5", "1e3", "0x10", "१२"] {
        assert_eq!(parse_bandwidth(text), None, "{:?}", text);
    }
}

#[test]
fn rejects_what_does_not_fit_a_machine_word() {
    let max = usize::MAX.to_string();
    assert_eq!(parse_bandwidth(&max), Some(usize::MAX));
    let mut over = max.clone();
    over.push('0');
    assert_eq!(parse_bandwidth(&over), None);
    assert_eq!(parse_bandwidth("340282366920938463463374607431768211456"), None);
    // one more than the largest value: the same digits but for the last one
    let (head, last) = max.split_at(max.len() - 1);
    let digit: u32 = last.parse().unwrap();
    if digit < 9 {
        assert_eq!(parse_bandwidth(&format!("{}{}", head, digit + 1)), None);
    }
}

#[test]
fn agrees_with_the_standard_parser() {
    let samples = [
        "", "+", "-", "0", "+0", "-0", "1", "10", "0010", "+10", "99999", "18446744073709551615",
        "18446744073709551616", "4294967295", "4294967296", "9x", "x9", "٣", "1_000", "1,000",
        "500000", "+500000", " 1", "1\n",
    ];
    for text in samples {
        assert_eq!(parse_bandwidth(text), text.parse::<usize>().ok(), "{:?}", text);
    }
}

#[test]
fn get_bandwidth_reads_the_attribute() {
    assert_eq!(get_bandwidth(&with_bandwidth("900000")), Ok(900000));
    assert_eq!(get_bandwidth(&with_bandwidth("+1")), Ok(1));
}

#[test]
fn get_bandwidth_reports_malformed_text() {
    assert_eq!(get_bandwidth(&with_bandwidth("")), Err(ReorderError::MalformedBandwidth));
    assert_eq!(get_bandwidth(&with_bandwidth("fast")), Err(ReorderError::MalformedBandwidth));
    assert_eq!(get_bandwidth(&with_bandwidth("-3")), Err(ReorderError::MalformedBandwidth));
}
