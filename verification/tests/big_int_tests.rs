use bignum::{one, ten, two, zero, Base, BigInt, BigIntError};
use core::cmp::Ordering;

fn parse(s: &str) -> BigInt {
    BigInt::try_from(s).unwrap()
}

#[test]
fn parse_hex_and_format_every_base() {
    let x = parse("0x1A");
    assert_eq!(x, BigInt::from(26));
    assert_eq!(x.to_decimal(), "26");
    assert_eq!(x.to_hex_lower(), "1a");
    assert_eq!(x.to_hex_upper(), "1A");
    assert_eq!(x.to_binary(), "11010");
}

#[test]
fn add_small_decimals() {
    let s = parse("123").add(&parse("456"));
    assert_eq!(s.to_decimal(), "579");
}

#[test]
fn divide_and_remainder() {
    let q = parse("1000").div(&parse("7")).unwrap();
    let r = parse("1000").rem(&parse("7")).unwrap();
    assert_eq!(q.to_decimal(), "142");
    assert_eq!(r.to_decimal(), "6");
}

#[test]
fn pow_of_two() {
    assert_eq!(BigInt::from(2).pow(10), BigInt::from(1024));
}

#[test]
fn gcd_small() {
    assert_eq!(BigInt::gcd(BigInt::from(48), BigInt::from(18)), BigInt::from(6));
}

#[test]
fn square_of_ten() {
    assert_eq!(BigInt::from(10).sq(), BigInt::from(100));
}

#[test]
fn round_trip_decimal() {
    let texts = ["0", "1", "9", "26", "123456789012345678901234567890123456789"];
    for t in texts {
        let x = parse(t);
        let again = parse(&x.to_decimal());
        assert_eq!(again, x);
    }
}

#[test]
fn round_trip_hex() {
    let texts = ["0", "5", "18446744073709551615", "340282366920938463463374607431768211456"];
    for t in texts {
        let x = parse(t);
        let lower = format!("0x{}", x.to_hex_lower());
        let upper = format!("0x{}", x.to_hex_upper());
        assert_eq!(parse(&lower), x);
        assert_eq!(parse(&upper), x);
    }
}

#[test]
fn round_trip_binary() {
    let texts = ["0", "1", "2", "18446744073709551616", "987654321987654321987654321"];
    for t in texts {
        let x = parse(t);
        let b = format!("0b{}", x.to_binary());
        assert_eq!(parse(&b), x);
    }
}

#[test]
fn addition_commutes_and_associates() {
    let a = parse("123456789123456789123456789");
    let b = parse("98765432109876543210");
    let c = parse("18446744073709551616");
    assert_eq!(a.add(&b), b.add(&a));
    assert_eq!(a.add(&b).add(&c), a.add(&b.add(&c)));
}

#[test]
fn multiplication_commutes() {
    let a = parse("123456789123456789123456789");
    let b = parse("98765432109876543210");
    assert_eq!(a.mul(&b), b.mul(&a));
}

#[test]
fn division_remainder_identity() {
    let a = parse("123456789123456789123456789123456789");
    let b = parse("987654321987");
    let q = a.div(&b).unwrap();
    let r = a.rem(&b).unwrap();
    assert_eq!(q.mul(&b).add(&r), a);
    assert!(matches!(r.cmp_mag(&b), core::cmp::Ordering::Less));
}

#[test]
fn shift_round_trip() {
    let a = parse("12345678901234567890123456789");
    for k in [0u32, 1, 7, 63, 64, 65, 130] {
        assert_eq!(a.shl(k).shr(k), a);
    }
}

#[test]
fn shift_left_is_multiplication() {
    let a = BigInt::from(3);
    assert_eq!(a.shl(64).to_hex_lower(), "30000000000000000");
    assert_eq!(a.shl(1), BigInt::from(6));
}

#[test]
fn modpow_matches_pow_then_mod() {
    let a = parse("12345");
    let m = parse("10007");
    for e in [0u32, 1, 2, 5, 16, 31] {
        let exp = BigInt::from(e as u64);
        let direct = a.pow(e).rem(&m).unwrap();
        let modular = a.modpow(&exp, &m).unwrap();
        assert_eq!(modular, direct);
    }
}

#[test]
fn gcd_identities() {
    let a = parse("462");
    let b = parse("1071");
    let g1 = BigInt::gcd(a.clone(), b.clone());
    assert_eq!(g1, BigInt::from(21));
    // gcd(a, 0) == a
    assert_eq!(BigInt::gcd(parse("462"), zero()), parse("462"));
    // gcd(a, b) == gcd(b, a mod b)
    let amodb = a.rem(&b).unwrap();
    assert_eq!(BigInt::gcd(a, b.clone()), BigInt::gcd(b, amodb));
}

#[test]
fn invalid_numerals_are_rejected() {
    assert_eq!(BigInt::try_from("12a4"), Err(BigIntError::InvalidNumeral(Base::Decimal)));
    assert_eq!(BigInt::try_from("0b10201"), Err(BigIntError::InvalidNumeral(Base::Binary)));
    assert_eq!(BigInt::try_from("0xg1"), Err(BigIntError::InvalidNumeral(Base::Hex)));
    assert_eq!(BigInt::try_from("-5"), Err(BigIntError::InvalidNumeral(Base::Decimal)));
}

#[test]
fn division_by_zero_is_an_error() {
    let a = parse("5");
    assert_eq!(a.div(&zero()), Err(BigIntError::DivisionByZero));
    assert_eq!(a.rem(&zero()), Err(BigIntError::DivisionByZero));
    assert_eq!(a.modpow(&two(), &zero()), Err(BigIntError::DivisionByZero));
}

#[test]
fn empty_and_separator_only_runs_denote_zero() {
    assert_eq!(parse(""), zero());
    assert_eq!(parse("_"), zero());
    assert_eq!(parse("0b_"), zero());
    assert_eq!(parse("0x__"), zero());
}

#[test]
fn separators_are_ignored() {
    assert_eq!(parse("1_000_000"), parse("1000000"));
    assert_eq!(parse("0b1010_1010"), parse("0b10101010"));
    assert_eq!(parse("0xdead_beef"), parse("0xdeadbeef"));
}

#[test]
fn leading_zeros_do_not_change_the_value() {
    assert_eq!(parse("000123"), parse("123"));
    assert_eq!(parse("0x000ff"), parse("0xff"));
}

#[test]
fn zero_renders_as_zero_in_every_base() {
    assert_eq!(zero().to_decimal(), "0");
    assert_eq!(zero().to_hex_lower(), "0");
    assert_eq!(zero().to_hex_upper(), "0");
    assert_eq!(zero().to_binary(), "0");
}

#[test]
fn lower_chunks_are_padded_to_the_chunk_width() {
    // 2^64: a one in the second chunk, a full zero chunk below it.
    let x = parse("18446744073709551616");
    assert_eq!(x.to_hex_lower(), "10000000000000000");
    let mut bits = String::from("1");
    for _ in 0..64 {
        bits.push('0');
    }
    assert_eq!(x.to_binary(), bits);
}

#[test]
fn carry_crosses_the_chunk_boundary() {
    let max = BigInt::from(u64::MAX);
    let sum = max.add(&one());
    assert_eq!(sum.to_decimal(), "18446744073709551616");
    assert_eq!(sum.sub(&one()), max);
}

#[test]
fn subtraction_renormalizes() {
    let a = parse("18446744073709551616");
    let d = a.sub(&parse("18446744073709551615"));
    assert_eq!(d, one());
    assert_eq!(a.sub(&a), zero());
}

#[test]
fn parity_follows_the_lowest_bit() {
    assert!(zero().is_even());
    assert!(!one().is_even());
    assert!(parse("18446744073709551616").is_even());
    assert!(parse("18446744073709551617").is_even() == false);
}

#[test]
fn bit_addressing_reads_and_writes() {
    let mut x = zero();
    x.set_bit(130, true);
    assert_eq!(x.bit(130), 1);
    assert_eq!(x.bit(0), 0);
    assert_eq!(x, one().shl(130));
    x.set_bit(130, false);
    x.trim();
    assert_eq!(x, zero());
}

#[test]
fn bit_length_brackets_the_value() {
    assert_eq!(zero().len(), 0);
    assert_eq!(one().len(), 1);
    assert_eq!(BigInt::from(26).len(), 5);
    assert_eq!(parse("18446744073709551616").len(), 65);
}

#[test]
fn digit_extracts_the_lowest_decimal_digit() {
    assert_eq!(parse("12345").digit(), 5);
    assert_eq!(zero().digit(), 0);
}

#[test]
fn constants_have_their_values() {
    assert_eq!(zero(), BigInt::from(0));
    assert_eq!(one(), BigInt::from(1));
    assert_eq!(two(), BigInt::from(2));
    assert_eq!(ten(), BigInt::from(10));
}

#[test]
fn comparison_orders_by_magnitude() {
    let small = parse("999999999999999999");
    let large = parse("18446744073709551616");
    assert!(matches!(small.cmp_mag(&large), Ordering::Less));
    assert!(matches!(large.cmp_mag(&small), Ordering::Greater));
    assert!(matches!(large.cmp_mag(&large), Ordering::Equal));
}

#[test]
fn parse_helpers_pack_chunks() {
    let chunks = BigInt::bin_parse("11010");
    assert_eq!(chunks, vec![26u64]);
    let chunks = BigInt::hex_parse("1a");
    assert_eq!(chunks, vec![26u64]);
    assert_eq!(BigInt::hex_char('f'), 15);
    assert_eq!(BigInt::hex_char('A'), 10);
    assert_eq!(BigInt::hex_char('7'), 7);
    assert_eq!(BigInt::dec_parse("26"), BigInt::from(26));
}

#[test]
fn compound_assignments_match_their_operations() {
    let mut x = parse("1000");
    x.add_assign(&parse("24"));
    assert_eq!(x, parse("1024"));
    x.sub_assign(&parse("24"));
    assert_eq!(x, parse("1000"));
    x.mul_assign(&parse("3"));
    assert_eq!(x, parse("3000"));
    x.shl_assign(70);
    x.shr_assign(70);
    assert_eq!(x, parse("3000"));
}

#[test]
fn prefixes_are_case_sensitive() {
    // An uppercase prefix is not recognized, so the run is read as
    // decimal and its letter rejected.
    assert_eq!(BigInt::try_from("0B1"), Err(BigIntError::InvalidNumeral(Base::Decimal)));
    assert_eq!(BigInt::try_from("0X1"), Err(BigIntError::InvalidNumeral(Base::Decimal)));
}

#[test]
fn padded_digit_runs_parse() {
    assert_eq!(parse("0b0011010"), BigInt::from(26));
    let long = parse("0x0000000000000000000000000000000000001");
    assert_eq!(long, one());
}
