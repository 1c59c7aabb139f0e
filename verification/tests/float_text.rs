use abada::request::float_text::{read_float, ReadFloat};

#[test]
fn decimal_literals_are_taken_apart() {
    assert_eq!(
        read_float(b"-12.50e+3x"),
        Some(ReadFloat { mantissa: 1250, exp: 1, neg: true, trunc: false, hex: false, end: 9 })
    );
    assert_eq!(
        read_float(b"0.001"),
        Some(ReadFloat { mantissa: 1, exp: -3, neg: false, trunc: false, hex: false, end: 5 })
    );
    assert_eq!(
        read_float(b"12345678901234567890123"),
        Some(ReadFloat { mantissa: 1234567890123456789, exp: 4, neg: false, trunc: true, hex: false, end: 23 })
    );
    assert_eq!(read_float(b"0"), Some(ReadFloat { mantissa: 0, exp: 0, neg: false, trunc: false, hex: false, end: 1 }));
}

#[test]
fn hex_literals_need_a_binary_exponent() {
    assert_eq!(
        read_float(b"0x1.8p1"),
        Some(ReadFloat { mantissa: 0x18, exp: -3, neg: false, trunc: false, hex: true, end: 7 })
    );
    assert_eq!(read_float(b"0x1.8"), None);
}

#[test]
fn malformed_literals_are_refused() {
    assert_eq!(read_float(b""), None);
    assert_eq!(read_float(b"."), None);
    assert_eq!(read_float(b"1e"), None);
    assert_eq!(read_float(b"1e+"), None);
    assert_eq!(read_float(b"1__0"), None);
    assert_eq!(
        read_float(b"1_0"),
        Some(ReadFloat { mantissa: 10, exp: 0, neg: false, trunc: false, hex: false, end: 3 })
    );
}
