use cbor2::api::dumps;
use cbor2::api::loads;
use cbor2::value::DomainKind;
use cbor2::value::Value;
use num_bigint::BigInt;
use num_bigint::Sign;

fn encoded(value: &Value) -> String {
    let bytes = dumps(value, &vec![], false, false, false, false, false, false, false)
        .expect("encodes");
    let mut out = String::new();
    for b in bytes {
        out.push_str(&format!("{:02x}", b));
    }
    out
}

fn unhex(text: &str) -> Vec<u8> {
    (0..text.len() / 2).map(|i| u8::from_str_radix(&text[2 * i..2 * i + 2], 16).unwrap()).collect()
}

fn through_the_library(n: &BigInt) -> BigInt {
    let (sign, magnitude) = n.to_bytes_be();
    let value = Value::from_sign_magnitude(sign == Sign::Minus, &magnitude);
    let (negative, back) = value.sign_magnitude().expect("an integer");
    BigInt::from_bytes_be(if negative { Sign::Minus } else { Sign::Plus }, &back)
}

#[test]
fn magnitude_of_two_to_the_64_takes_a_positive_bignum() {
    let v = Value::from_sign_magnitude(false, &vec![1, 0, 0, 0, 0, 0, 0, 0, 0]);
    assert_eq!(encoded(&v), "c249010000000000000000");
}

#[test]
fn magnitude_below_two_to_the_64_takes_a_head() {
    let v = Value::from_sign_magnitude(false, &vec![0xff; 8]);
    assert_eq!(encoded(&v), "1bffffffffffffffff");
    assert!(v.equals(&Value::Unsigned(u64::MAX)));
}

#[test]
fn minus_two_to_the_64_takes_a_head() {
    let v = Value::from_sign_magnitude(true, &vec![1, 0, 0, 0, 0, 0, 0, 0, 0]);
    assert_eq!(encoded(&v), "3bffffffffffffffff");
    assert!(v.equals(&Value::Negative(u64::MAX)));
}

#[test]
fn one_below_minus_two_to_the_64_takes_a_negative_bignum() {
    let v = Value::from_sign_magnitude(true, &vec![1, 0, 0, 0, 0, 0, 0, 0, 1]);
    assert_eq!(encoded(&v), "c349010000000000000000");
}

#[test]
fn minus_one_is_the_first_negative_number() {
    let v = Value::from_sign_magnitude(true, &vec![1]);
    assert_eq!(encoded(&v), "20");
    assert!(v.equals(&Value::Negative(0)));
}

#[test]
fn zero_has_no_sign() {
    assert!(Value::from_sign_magnitude(true, &vec![0]).equals(&Value::Unsigned(0)));
    assert!(Value::from_sign_magnitude(true, &vec![]).equals(&Value::Unsigned(0)));
    assert!(Value::from_sign_magnitude(false, &vec![0, 0]).equals(&Value::Unsigned(0)));
    assert_eq!(Value::Unsigned(0).sign_magnitude(), Some((false, vec![])));
}

#[test]
fn leading_zeros_of_a_magnitude_do_not_count() {
    let v = Value::from_sign_magnitude(true, &vec![0, 0, 1, 0]);
    assert!(v.equals(&Value::Negative(255)));
    assert_eq!(encoded(&v), "38ff");
}

#[test]
fn sign_and_magnitude_of_small_integers() {
    assert_eq!(Value::Unsigned(258).sign_magnitude(), Some((false, vec![1, 2])));
    assert_eq!(Value::Negative(0).sign_magnitude(), Some((true, vec![1])));
    assert_eq!(Value::Negative(255).sign_magnitude(), Some((true, vec![1, 0])));
    assert_eq!(
        Value::Negative(u64::MAX).sign_magnitude(),
        Some((true, vec![1, 0, 0, 0, 0, 0, 0, 0, 0]))
    );
}

#[test]
fn sign_and_magnitude_of_decoded_bignums() {
    let positive = loads(unhex("c249010000000000000000"), "strict").unwrap().value;
    assert_eq!(positive.sign_magnitude(), Some((false, vec![1, 0, 0, 0, 0, 0, 0, 0, 0])));
    let negative = loads(unhex("c349010000000000000000"), "strict").unwrap().value;
    assert_eq!(negative.sign_magnitude(), Some((true, vec![1, 0, 0, 0, 0, 0, 0, 0, 1])));
}

#[test]
fn what_is_no_integer_has_no_sign_and_magnitude() {
    assert_eq!(Value::Text("1".to_string()).sign_magnitude(), None);
    assert_eq!(Value::Float(0).sign_magnitude(), None);
    assert_eq!(Value::Bool(true).sign_magnitude(), None);
}

#[test]
fn integers_pass_through_sign_and_magnitude_unchanged() {
    let mut n = BigInt::from(1);
    for step in 0..200u32 {
        for candidate in [n.clone(), -n.clone(), n.clone() - 1, -n.clone() - 1, -n.clone() + 1] {
            assert_eq!(through_the_library(&candidate), candidate, "step {}", step);
        }
        n = n * 3 + 1;
    }
    assert_eq!(through_the_library(&BigInt::from(0)), BigInt::from(0));
}

#[test]
fn decimal_text_is_read_into_exponent_and_digits() {
    // 4([-1, 15])
    assert_eq!(encoded(&Value::decimal("1.5").unwrap()), "c482200f");
    // 4([-3, 1])
    assert_eq!(encoded(&Value::decimal("0.001").unwrap()), "c4822201");
    // 4([3, -1])
    assert_eq!(encoded(&Value::decimal("-1e3").unwrap()), "c4820320");
    // 4([0, 0])
    assert_eq!(encoded(&Value::decimal("0").unwrap()), "c4820000");
    // 4([-2, 27315])
    assert_eq!(encoded(&Value::decimal("273.15").unwrap()), "c48221196ab3");
}

#[test]
fn decimal_with_many_digits_takes_a_bignum() {
    // 4([-1, 18446744073709551616])
    let v = Value::decimal("1844674407370955161.6").unwrap();
    assert_eq!(encoded(&v), "c48220c249010000000000000000");
    let w = Value::decimal("-1844674407370955161.7").unwrap();
    assert_eq!(encoded(&w), "c48220c349010000000000000000");
}

#[test]
fn text_that_is_no_decimal_number_gives_nothing() {
    assert!(Value::decimal("abc").is_none());
    assert!(Value::decimal("").is_none());
    assert!(Value::decimal("1e").is_none());
    assert!(Value::decimal("NaN").is_none());
}

#[test]
fn decimal_of_parts_turns_the_sign_of_the_scale() {
    let v = Value::decimal_of_parts(false, &vec![15], 1);
    let expected = Value::Domain(
        DomainKind::Decimal,
        Box::new(Value::Tuple(vec![Value::Negative(0), Value::Unsigned(15)])),
    );
    assert!(v.equals(&expected));
    let w = Value::decimal_of_parts(true, &vec![2], -4);
    let expected = Value::Domain(
        DomainKind::Decimal,
        Box::new(Value::Tuple(vec![Value::Unsigned(4), Value::Negative(1)])),
    );
    assert!(w.equals(&expected));
    let least = Value::decimal_of_parts(false, &vec![1], i64::MIN);
    let expected = Value::Domain(
        DomainKind::Decimal,
        Box::new(Value::Tuple(vec![Value::Unsigned(1 << 63), Value::Unsigned(1)])),
    );
    assert!(least.equals(&expected));
    let most = Value::decimal_of_parts(false, &vec![1], i64::MAX);
    let expected = Value::Domain(
        DomainKind::Decimal,
        Box::new(Value::Tuple(vec![Value::Negative((1 << 63) - 2), Value::Unsigned(1)])),
    );
    assert!(most.equals(&expected));
}

#[test]
fn decimal_comes_back_from_its_encoding() {
    let v = Value::decimal("273.15").unwrap();
    let bytes = dumps(&v, &vec![], false, false, false, false, false, false, false).unwrap();
    let back = loads(bytes, "strict").unwrap().value;
    assert!(back.equals(&v));
}
