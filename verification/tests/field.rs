use zokrates::field::Field;

#[test]
fn new_refuses_small_moduli() {
    assert!(Field::new(0).is_none());
    assert!(Field::new(1).is_none());
    assert_eq!(Field::new(2).unwrap().modulus(), 2);
    assert_eq!(Field::new(101).unwrap().modulus, 101);
}

#[test]
fn arithmetic_modulo_seven() {
    let f = Field::new(7).unwrap();
    assert_eq!(f.add(3, 5), 1);
    assert_eq!(f.add(0, 0), 0);
    assert_eq!(f.sub(3, 5), 5);
    assert_eq!(f.sub(5, 3), 2);
    assert_eq!(f.neg(0), 0);
    assert_eq!(f.neg(3), 4);
    assert_eq!(f.mul(3, 5), 1);
    assert_eq!(f.mul(6, 6), 1);
    assert_eq!(f.reduce(23), 2);
    assert!(f.contains(6));
    assert!(!f.contains(7));
}

#[test]
fn arithmetic_near_the_word_size() {
    // the largest prime below 2^64
    let p: u64 = 18446744073709551557;
    let f = Field::new(p).unwrap();
    assert_eq!(f.add(p - 1, p - 1), p - 2);
    assert_eq!(f.mul(p - 1, p - 1), 1);
    assert_eq!(f.sub(0, 1), p - 1);
    assert_eq!(f.mul(1 << 63, 2), 59);
    let x = 1234567890123456789;
    let inv = f.inverse(x).unwrap();
    assert_eq!(f.mul(x, inv), 1);
}

#[test]
fn inverses_modulo_a_prime() {
    let f = Field::new(101).unwrap();
    assert_eq!(f.inverse(0), None);
    assert_eq!(f.inverse(1), Some(1));
    assert_eq!(f.inverse(2), Some(51));
    assert_eq!(f.inverse(100), Some(100));
    for a in 1..101u64 {
        let inv = f.inverse(a).unwrap();
        assert!(inv < 101);
        assert_eq!(f.mul(a, inv), 1);
    }
}

#[test]
fn inverses_modulo_a_composite() {
    let f = Field::new(12).unwrap();
    assert_eq!(f.inverse(5), Some(5));
    assert_eq!(f.inverse(7), Some(7));
    assert_eq!(f.inverse(11), Some(11));
    assert_eq!(f.inverse(0), None);
    assert_eq!(f.inverse(2), None);
    assert_eq!(f.inverse(3), None);
    assert_eq!(f.inverse(8), None);
}

#[test]
fn division() {
    let f = Field::new(13).unwrap();
    assert_eq!(f.div(6, 3), Some(2));
    assert_eq!(f.div(1, 2), Some(7));
    assert_eq!(f.div(0, 5), Some(0));
    assert_eq!(f.div(5, 0), None);
    assert_eq!(f.div(0, 0), None);
}

#[test]
fn every_element_of_a_prime_field_but_zero_has_an_inverse() {
    for p in [2u64, 3, 5, 7, 11, 13, 97, 251] {
        let f = Field::new(p).unwrap();
        assert_eq!(f.inverse(0), None);
        for a in 1..p {
            let inv = f.inverse(a).unwrap();
            assert_eq!(f.mul(a, inv), 1);
            assert_eq!(f.div(1, a), Some(inv));
        }
    }
}
