use conservation_protocol::binary64::{count_to_bits, NEG_ONE_BITS, ZERO_BITS};
use conservation_protocol::digits::{parse_usize, push_decimal_bytes, push_hex, usize_to_string};

#[test]
fn parse_usize_follows_from_str() {
    for text in ["0", "7", "42", "+42", "007", "-1", "", "+", "4 2", "x1", "1x", "++1", "٣"] {
        assert_eq!(parse_usize(text), text.parse::<usize>().ok(), "text {text:?}");
    }
    let max = usize::MAX.to_string();
    assert_eq!(parse_usize(&max), Some(usize::MAX));
    let over = format!("{max}0");
    assert_eq!(parse_usize(&over), None);
}

#[test]
fn decimal_text_round_trips() {
    for v in [0usize, 9, 10, 99, 100, 12345, usize::MAX] {
        let s = usize_to_string(v);
        assert_eq!(s, v.to_string());
        assert_eq!(parse_usize(&s), Some(v));
    }
    let mut out = vec![b'x'];
    push_decimal_bytes(&mut out, 907);
    assert_eq!(out, b"x907".to_vec());
}

#[test]
fn hex_text_is_zero_padded_lowercase() {
    let mut s = String::from("#");
    push_hex(&mut s, 0xbeef, 16);
    assert_eq!(s, "#000000000000beef");
    let mut t = String::new();
    push_hex(&mut t, u64::MAX, 16);
    assert_eq!(t, format!("{:016x}", u64::MAX));
}

#[test]
fn counts_convert_like_as_f64() {
    for d in [0usize, 1, 2, 3, 5, 7, 8, 1000, 123_456_789, (1usize << 52) + 1, (1usize << 53) - 1] {
        assert_eq!(count_to_bits(d), (d as f64).to_bits(), "count {d}");
    }
    assert_eq!(NEG_ONE_BITS, (-1.0f64).to_bits());
    assert_eq!(ZERO_BITS, 0.0f64.to_bits());
}
