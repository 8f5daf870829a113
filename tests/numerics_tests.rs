use bigfib::BigInteger;

#[test]
fn zero_renders_as_zero() {
    assert_eq!(BigInteger::zero().to_string(), "0");
    assert_eq!(BigInteger::zero().get_code(), "00000000");
}

#[test]
fn one_renders_as_one() {
    assert_eq!(BigInteger::one().to_string(), "1");
    assert_eq!(BigInteger::one().get_code(), "00000001");
}

#[test]
fn carry_crosses_a_word_boundary() {
    let a = BigInteger::new(&vec![0xFFFF_FFFF, 0x0000_0000]);
    assert_eq!(a.to_string(), "4294967295");
    let s = a.add(&BigInteger::one());
    assert_eq!(s.get_code(), "00000001, 00000000");
    assert_eq!(s.to_string(), "4294967296");
}

#[test]
fn final_carry_adds_a_word() {
    let a = BigInteger::new(&vec![0xFFFF_FFFF]);
    let s = a.add(&BigInteger::one());
    assert_eq!(s.get_code(), "00000001, 00000000");
    assert_eq!(s.to_string(), "4294967296");
    let t = BigInteger::new(&vec![0xFFFF_FFFF, 0xFFFF_FFFF]).add(&BigInteger::new(&vec![0xFFFF_FFFF, 0xFFFF_FFFF]));
    assert_eq!(t.get_code(), "00000001, ffffffff, fffffffe");
    assert_eq!(t.to_string(), "36893488147419103230");
}

#[test]
fn addition_is_commutative() {
    let a = BigInteger::new(&vec![0x8000_0000, 7]);
    let b = BigInteger::new(&vec![0x8000_0001]);
    let ab = a.add(&b);
    let ba = b.add(&a);
    assert_eq!(ab.get_code(), ba.get_code());
    assert_eq!(ab.get_code(), "00000008, 00000001");
    assert_eq!(ab.to_string(), ba.to_string());
}

#[test]
fn addition_is_associative() {
    let a = BigInteger::new(&vec![0xFFFF_FFFF]);
    let b = BigInteger::new(&vec![0xFFFF_FFFF, 0xFFFF_FFFF]);
    let c = BigInteger::new(&vec![2]);
    let left = a.add(&b).add(&c);
    let right = a.add(&b.add(&c));
    assert_eq!(left.get_code(), right.get_code());
    assert_eq!(left.get_code(), "00000001, 00000001, 00000000");
    assert_eq!(left.to_string(), "18446744078004518912");
}

#[test]
fn adding_zero_keeps_the_value() {
    let a = BigInteger::new(&vec![5, 0]);
    let s = a.add(&BigInteger::zero());
    assert_eq!(s.get_code(), "00000000, 00000005");
    assert_eq!(s.to_string(), "5");
    let b = BigInteger::new(&vec![123_456_789, 42]);
    assert_eq!(b.add(&BigInteger::zero()).get_code(), b.get_code());
    assert_eq!(BigInteger::zero().add(&b).to_string(), b.to_string());
}

#[test]
fn sum_of_negative_inputs_is_positive() {
    let a = BigInteger::from_i32(-1);
    assert_eq!(a.to_string(), "-4294967295");
    let s = a.add(&BigInteger::zero());
    assert_eq!(s.to_string(), "4294967295");
}

#[test]
fn from_i32_keeps_bits_and_sign() {
    let a = BigInteger::from_i32(-5);
    assert_eq!(a.get_code(), "fffffffb");
    assert_eq!(a.to_string(), "-4294967291");
    let b = BigInteger::from_i32(1234);
    assert_eq!(b.get_code(), "000004d2");
    assert_eq!(b.to_string(), "1234");
    assert_eq!(BigInteger::from_i32(0).to_string(), "0");
}

#[test]
fn empty_words_render_as_zero() {
    let a = BigInteger::new(&vec![]);
    assert_eq!(a.to_string(), "0");
    assert_eq!(a.get_code(), "");
}

#[test]
fn inner_zero_super_digits_stay_padded() {
    assert_eq!(BigInteger::new(&vec![1_000_000_000]).to_string(), "1000000000");
    assert_eq!(BigInteger::new(&vec![0, 0, 1]).to_string(), "18446744073709551616");
    assert_eq!(BigInteger::new(&vec![0, 0, 1]).get_code(), "00000001, 00000000, 00000000");
    assert_eq!(BigInteger::new(&vec![0xFFFF_FFFF; 4]).to_string(), "340282366920938463463374607431768211455");
}

#[test]
fn leading_zero_words_do_not_show() {
    let a = BigInteger::new(&vec![7, 0, 0]);
    assert_eq!(a.to_string(), "7");
    assert_eq!(a.get_code(), "00000000, 00000000, 00000007");
    assert_eq!(BigInteger::new(&vec![0, 0]).to_string(), "0");
}

#[test]
fn hex_view_uses_lower_case_digits() {
    let a = BigInteger::new(&vec![0xABCD_EF01, 1]);
    assert_eq!(a.get_code(), "00000001, abcdef01");
}

#[test]
fn clone_keeps_words_and_sign() {
    let a = BigInteger::from_i32(-9);
    let b = a.clone();
    assert_eq!(a.get_code(), b.get_code());
    assert_eq!(a.to_string(), b.to_string());
}

#[test]
fn negative_inputs_add_as_magnitudes() {
    let a = BigInteger::from_i32(-1);
    assert_eq!(a.get_code(), "ffffffff");
    let s = a.add(&BigInteger::from_i32(-1));
    assert_eq!(s.get_code(), "00000001, fffffffe");
    assert_eq!(s.to_string(), "8589934590");
    assert_eq!(BigInteger::from_i32(i32::MIN).get_code(), "80000000");
    assert_eq!(BigInteger::from_i32(i32::MIN).to_string(), "-2147483648");
}
