use serial_udp_forwarder::numbers::{parse_u16_flex, push_decimal, push_hex2, push_hex4};
use serial_udp_forwarder::terminator::decode_terminator;

#[test]
fn decimal_numbers() {
    assert_eq!(parse_u16_flex("0"), Some(0));
    assert_eq!(parse_u16_flex("1027"), Some(1027));
    assert_eq!(parse_u16_flex("+12"), Some(12));
    assert_eq!(parse_u16_flex("00065535"), Some(65535));
    assert_eq!(parse_u16_flex("65536"), None);
    assert_eq!(parse_u16_flex("99999999999999999999"), None);
}

#[test]
fn hexadecimal_numbers() {
    assert_eq!(parse_u16_flex("0x0403"), Some(0x0403));
    assert_eq!(parse_u16_flex("0X0403"), Some(0x0403));
    assert_eq!(parse_u16_flex("0xFfFf"), Some(0xffff));
    assert_eq!(parse_u16_flex("0x10000"), None);
    assert_eq!(parse_u16_flex("0x+ff"), Some(255));
    assert_eq!(parse_u16_flex("10c4"), Some(0x10c4));
    assert_eq!(parse_u16_flex("EA60"), Some(0xea60));
    assert_eq!(parse_u16_flex("abcde"), None);
}

#[test]
fn no_numbers() {
    for s in ["", "+", "-1", " 1", "1 ", "0x", "0xg", "+ab", "12g", "++1", "1.5", "\u{661}"] {
        assert_eq!(parse_u16_flex(s), None, "{:?}", s);
    }
}

#[test]
fn every_number_can_be_given_both_ways() {
    for n in 0..=u16::MAX {
        let mut dec = String::new();
        push_decimal(&mut dec, n as u64);
        assert_eq!(dec, n.to_string());
        assert_eq!(parse_u16_flex(&dec), Some(n));
        let mut hex = String::from("0x");
        push_hex4(&mut hex, n);
        assert_eq!(hex, format!("0x{:04x}", n));
        assert_eq!(parse_u16_flex(&hex), Some(n));
        assert_eq!(parse_u16_flex(&hex.to_uppercase()), Some(n));
    }
}

#[test]
fn large_decimals_and_bytes() {
    let mut s = String::from("n=");
    push_decimal(&mut s, u64::MAX);
    assert_eq!(s, "n=18446744073709551615");
    for b in 0..=u8::MAX {
        let mut h = String::new();
        push_hex2(&mut h, b);
        assert_eq!(h, format!("{:02x}", b));
    }
}

#[test]
fn known_escapes() {
    assert_eq!(decode_terminator("\\n"), b"\n");
    assert_eq!(decode_terminator("\\r\\n"), b"\r\n");
    assert_eq!(decode_terminator("\\t\\0\\\\"), b"\t\0\\");
}

#[test]
fn unknown_escapes_are_literal() {
    assert_eq!(decode_terminator("\\q\\x"), b"qx");
    assert_eq!(decode_terminator("end\\"), b"end\\");
}

#[test]
fn plain_text_is_literal() {
    assert_eq!(decode_terminator("\n"), b"\n");
    assert_eq!(decode_terminator(""), b"");
    assert_eq!(decode_terminator("END;"), b"END;");
    assert_eq!(decode_terminator("\u{e9}\u{120}"), vec![0xe9, 0x20]);
    assert_eq!(decode_terminator("\\\u{10a}"), vec![0x0a]);
}

#[test]
fn every_delimiter_can_be_spelled() {
    let mut text = String::new();
    let mut bytes: Vec<u8> = Vec::new();
    for b in 0..=u8::MAX {
        bytes.push(b);
        if b == b'\\' {
            text.push('\\');
        }
        text.push(b as char);
    }
    assert_eq!(decode_terminator(&text), bytes);
}
