use zokrates::field::Field;
use zokrates::parse::strip_hex_prefix;

#[test]
fn decimal_numbers() {
    let f = Field::new(101).unwrap();
    assert_eq!(f.try_from_dec_str("0"), Some(0));
    assert_eq!(f.try_from_dec_str("7"), Some(7));
    assert_eq!(f.try_from_dec_str("100"), Some(100));
    assert_eq!(f.try_from_dec_str("101"), Some(0));
    assert_eq!(f.try_from_dec_str("0042"), Some(42));
    assert_eq!(f.try_from_dec_str("123456789012345678901234567890"), Some(46));
    assert_eq!(f.try_from_dec_str(""), None);
    assert_eq!(f.try_from_dec_str("-1"), None);
    assert_eq!(f.try_from_dec_str("1a"), None);
    assert_eq!(f.try_from_dec_str("1 2"), None);
    assert_eq!(f.try_from_dec_str("١٢"), None);
}

#[test]
fn numbers_in_other_radixes() {
    let f = Field::new(1000003).unwrap();
    assert_eq!(f.try_from_str("ff", 16), Some(255));
    assert_eq!(f.try_from_str("FF", 16), Some(255));
    assert_eq!(f.try_from_str("fF0", 16), Some(4080));
    assert_eq!(f.try_from_str("fffff", 16), Some(1048575 - 1000003));
    assert_eq!(f.try_from_str("g", 16), None);
    assert_eq!(f.try_from_str("101", 2), Some(5));
    assert_eq!(f.try_from_str("102", 2), None);
    assert_eq!(f.try_from_str("zz", 36), Some(1295));
    assert_eq!(f.try_from_str("10", 37), None);
    assert_eq!(f.try_from_str("10", 1), None);
    assert_eq!(f.try_from_str("10", 0), None);
    assert_eq!(f.try_from_str("", 16), None);
    let small = Field::new(7).unwrap();
    assert_eq!(small.try_from_str("10", 16), Some(2));
    assert_eq!(small.try_from_str("zz", 36), Some(0));
}

#[test]
fn hexadecimal_prefixes() {
    assert_eq!(strip_hex_prefix("0x1f"), "1f");
    assert_eq!(strip_hex_prefix("1f"), "1f");
    assert_eq!(strip_hex_prefix("0x0x1f"), "1f");
    assert_eq!(strip_hex_prefix("0x"), "");
    assert_eq!(strip_hex_prefix("0"), "0");
    assert_eq!(strip_hex_prefix(""), "");
    assert_eq!(strip_hex_prefix("0X1f"), "0X1f");
    assert_eq!(strip_hex_prefix("x0x1"), "x0x1");
    assert_eq!(strip_hex_prefix("0xé"), "é");
}
