use cbor2::api::dumps;
use cbor2::api::loads;
use cbor2::api::LoadError;
use cbor2::encoder_domain::days_since_epoch;
use cbor2::encoder_domain::strip_zeros;
use cbor2::encoder_domain::whole_seconds_of;
use cbor2::encoder_domain::zulu_text;
use cbor2::errors::DecodeError;
use cbor2::errors::EncodeError;
use cbor2::tags::epoch_ordinal;
use cbor2::tags::resize_bytes;
use cbor2::value::DomainKind;
use cbor2::value::Value;

fn unhex(text: &str) -> Vec<u8> {
    let clean: String = text.chars().filter(|c| !c.is_whitespace()).collect();
    (0..clean.len() / 2).map(|i| u8::from_str_radix(&clean[2 * i..2 * i + 2], 16).unwrap()).collect()
}

fn as_hex(bytes: &[u8]) -> String {
    bytes.iter().map(|b| format!("{:02x}", b)).collect()
}

fn read(text: &str) -> Value {
    loads(unhex(text), "strict").expect("decodes").value
}

fn refused(text: &str) -> DecodeError {
    match loads(unhex(text), "strict") {
        Err(LoadError::Decode(e)) => e,
        other => panic!("expected a decode error, got {:?}", other),
    }
}

fn written(value: &Value) -> String {
    as_hex(&dumps(value, &vec![], false, false, false, false, false, false, false).expect("encodes"))
}

fn written_with(value: &Value, as_timestamp: bool, timezone: bool, date_as_datetime: bool) -> Result<String, EncodeError> {
    dumps(value, &vec![], as_timestamp, timezone, false, false, date_as_datetime, false, false)
        .map(|b| as_hex(&b))
}

fn domain(kind: DomainKind, content: Value) -> Value {
    Value::Domain(kind, Box::new(content))
}

fn string(s: &str) -> Value {
    Value::Text(s.to_string())
}

#[test]
fn datetime_text_is_carried_as_text() {
    let expected = domain(DomainKind::DateTimeText, string("2013-03-21T20:04:00Z"));
    let bytes = "c074323031332d30332d32315432303a30343a30305a";
    assert!(read(bytes).equals(&expected));
    assert_eq!(written(&expected), bytes);
    assert_eq!(refused("c001"), DecodeError::InvalidTagPayload { tag: 0 });
}

#[test]
fn epoch_datetime_takes_integers_and_floats() {
    let expected = domain(DomainKind::EpochDateTime, Value::Unsigned(1363896240));
    assert!(read("c11a514b67b0").equals(&expected));
    assert_eq!(written(&expected), "c11a514b67b0");
    let expected = domain(DomainKind::EpochDateTime, Value::Float(1363896240.5f64.to_bits()));
    assert!(read("c1fb41d452d9ec200000").equals(&expected));
    assert_eq!(refused("c16161"), DecodeError::InvalidTagPayload { tag: 1 });
}

#[test]
fn decimal_fraction_needs_two_integers() {
    // 273.15 = [-2, 27315]
    let expected = domain(
        DomainKind::Decimal,
        Value::Tuple(vec![Value::Negative(1), Value::Unsigned(27315)]),
    );
    assert!(read("c48221196ab3").equals(&expected));
    assert_eq!(written(&expected), "c48221196ab3");
    assert_eq!(refused("c48121"), DecodeError::InvalidTagPayload { tag: 4 });
    assert_eq!(refused("c4822161 61"), DecodeError::InvalidTagPayload { tag: 4 });
    assert_eq!(refused("c401"), DecodeError::InvalidTagPayload { tag: 4 });
}

#[test]
fn special_decimals_are_written_as_floats() {
    let nan = domain(DomainKind::Decimal, Value::Float(f64::NAN.to_bits()));
    assert_eq!(written(&nan), "f97e00");
    let inf = domain(DomainKind::Decimal, Value::Float(f64::INFINITY.to_bits()));
    assert_eq!(written(&inf), "f97c00");
    let neg = domain(DomainKind::Decimal, Value::Float(f64::NEG_INFINITY.to_bits()));
    assert_eq!(written(&neg), "f9fc00");
}

#[test]
fn bigfloat_and_rational() {
    let expected =
        domain(DomainKind::BigFloat, Value::Tuple(vec![Value::Negative(0), Value::Unsigned(3)]));
    assert!(read("c5822003").equals(&expected));
    assert_eq!(written(&expected), "c5822003");
    let expected =
        domain(DomainKind::Rational, Value::Tuple(vec![Value::Unsigned(2), Value::Unsigned(5)]));
    assert!(read("d81e820205").equals(&expected));
    assert_eq!(written(&expected), "d81e820205");
    assert_eq!(refused("d81e820200"), DecodeError::InvalidTagPayload { tag: 30 });
}

#[test]
fn rational_is_not_shared_even_with_value_sharing() {
    let value =
        domain(DomainKind::Rational, Value::Tuple(vec![Value::Unsigned(2), Value::Unsigned(5)]));
    let bytes = dumps(&value, &vec![], false, false, true, false, false, false, false).unwrap();
    assert_eq!(as_hex(&bytes), "d81e820205");
}

#[test]
fn regexp_mime_and_uuid() {
    let expected = domain(DomainKind::Regexp, string("hello (world)"));
    assert!(read("d8236d68656c6c6f2028776f726c6429").equals(&expected));
    assert_eq!(written(&expected), "d8236d68656c6c6f2028776f726c6429");
    let expected = domain(DomainKind::Mime, string("Hi"));
    assert!(read("d824624869").equals(&expected));
    assert_eq!(written(&expected), "d824624869");
    let id = (0u8..16).collect::<Vec<u8>>();
    let expected = domain(DomainKind::Uuid, Value::Bytes(id));
    assert!(read("d82550000102030405060708090a0b0c0d0e0f").equals(&expected));
    assert_eq!(written(&expected), "d82550000102030405060708090a0b0c0d0e0f");
    assert_eq!(refused("d825420001"), DecodeError::InvalidTagPayload { tag: 37 });
}

#[test]
fn ipv4_address_network_and_interface() {
    let address = domain(DomainKind::Ipv4Address, Value::Bytes(vec![192, 168, 0, 100]));
    assert!(read("d83444c0a80064").equals(&address));
    assert_eq!(written(&address), "d83444c0a80064");
    // network 192.168.0.0/24 is [24, h'c0a800']; the address is filled up
    let network = domain(
        DomainKind::Ipv4Network,
        Value::Tuple(vec![Value::Bytes(vec![192, 168, 0, 0]), Value::Unsigned(24)]),
    );
    assert!(read("d83482181843c0a800").equals(&network));
    // and written without the zeros at its end
    assert_eq!(written(&network), "d83482181842c0a8");
    assert!(read("d83482181842c0a8").equals(&network));
    let interface = domain(
        DomainKind::Ipv4Interface,
        Value::Tuple(vec![Value::Bytes(vec![192, 168, 0, 100]), Value::Unsigned(24)]),
    );
    assert!(read("d8348244c0a800641818").equals(&interface));
    assert_eq!(written(&interface), "d8348244c0a800641818");
    assert_eq!(refused("d8344101"), DecodeError::InvalidTagPayload { tag: 52 });
    assert_eq!(refused("d834820102"), DecodeError::InvalidTagPayload { tag: 52 });
    assert_eq!(refused("d83401"), DecodeError::InvalidTagPayload { tag: 52 });
}

#[test]
fn ipv6_takes_a_zone() {
    let mut bytes = vec![0x20, 0x01, 0x0d, 0xb8];
    bytes.extend(vec![0u8; 12]);
    let network = domain(
        DomainKind::Ipv6Network,
        Value::Tuple(vec![Value::Bytes(bytes.clone()), Value::Unsigned(32)]),
    );
    assert!(read("d8368218204420010db8").equals(&network));
    assert_eq!(written(&network), "d8368218204420010db8");
    let interface = domain(
        DomainKind::Ipv6Interface,
        Value::Tuple(vec![Value::Bytes(bytes.clone()), Value::Unsigned(64), Value::Bytes(b"eth0".to_vec())]),
    );
    let wire = format!("d8368350{}18404465746830", as_hex(&bytes));
    assert!(read(&wire).equals(&interface));
    assert_eq!(written(&interface), wire);
    // a zone that is neither bytes nor an integer
    let bad = format!("d8368350{}1840f6", as_hex(&bytes));
    assert_eq!(refused(&bad), DecodeError::InvalidTagPayload { tag: 54 });
    // three members are no IPv4 value
    assert_eq!(refused("d8348344c0a80064181800"), DecodeError::InvalidTagPayload { tag: 52 });
}

#[test]
fn scoped_ipv6_address_is_written_with_null_in_the_middle() {
    let bytes = vec![0xfe, 0x80, 0, 0, 0, 0, 0, 0, 0, 0, 0, 0, 0, 0, 0, 1];
    let scoped = domain(
        DomainKind::Ipv6Address,
        Value::Tuple(vec![Value::Bytes(bytes.clone()), Value::Null, Value::Bytes(b"eth0".to_vec())]),
    );
    assert_eq!(written(&scoped), format!("d8368350{}f64465746830", as_hex(&bytes)));
}

#[test]
fn epoch_date_becomes_an_ordinal_and_back() {
    // 100(0) is 1970-01-01, ordinal 719163
    let first = domain(DomainKind::EpochDate, Value::Unsigned(719163));
    assert!(read("d86400").equals(&first));
    assert_eq!(written(&first), "d86400");
    let before = domain(DomainKind::EpochDate, Value::Unsigned(719162));
    assert!(read("d86420").equals(&before));
    assert_eq!(written(&before), "d86420");
    assert!(epoch_ordinal(&Value::Unsigned(19000)).unwrap().equals(&Value::Unsigned(738163)));
    assert!(epoch_ordinal(&Value::Negative(719162)).unwrap().equals(&Value::Unsigned(0)));
    assert!(epoch_ordinal(&Value::Negative(719163)).unwrap().equals(&Value::Negative(0)));
    assert!(epoch_ordinal(&Value::Unsigned(i32::MAX as u64 - 719163)).is_some());
    assert!(epoch_ordinal(&Value::Unsigned(i32::MAX as u64 - 719162)).is_none());
    assert!(epoch_ordinal(&Value::Negative(0x7fff_ffff)).is_some());
    assert!(epoch_ordinal(&Value::Negative(0x8000_0000)).is_none());
    assert!(epoch_ordinal(&Value::Null).is_none());
    assert_eq!(refused("d8641b0000000100000000"), DecodeError::InvalidTagPayload { tag: 100 });
    assert!(days_since_epoch(&Value::Unsigned(738163)).unwrap().equals(&Value::Unsigned(19000)));
    assert!(days_since_epoch(&Value::Unsigned(0)).unwrap().equals(&Value::Negative(719162)));
    assert!(days_since_epoch(&Value::Negative(0)).unwrap().equals(&Value::Negative(719163)));
    assert!(matches!(days_since_epoch(&Value::Unsigned(1 << 56)), Err(EncodeError::InvalidContent)));
}

#[test]
fn date_text_and_legacy_addresses() {
    let date = domain(DomainKind::DateText, string("2013-03-21"));
    assert!(read("d903ec6a323031332d30332d3231").equals(&date));
    assert_eq!(written(&date), "d903ec6a323031332d30332d3231");
    let address = domain(DomainKind::IpAddress, Value::Bytes(vec![10, 0, 0, 1]));
    assert!(read("d90104440a000001").equals(&address));
    assert_eq!(written(&address), "d90104440a000001");
    // six bytes are a MAC address and stay a tag
    let mac = Value::Tag(260, Box::new(Value::Bytes(vec![1, 2, 3, 4, 5, 6])));
    assert!(read("d9010446010203040506").equals(&mac));
    assert_eq!(refused("d901044101"), DecodeError::InvalidTagPayload { tag: 260 });
    assert_eq!(refused("d9010401"), DecodeError::InvalidTagPayload { tag: 260 });
    let network = domain(
        DomainKind::IpNetwork,
        Value::Tuple(vec![Value::Bytes(vec![192, 168, 0, 0]), Value::Unsigned(24)]),
    );
    assert!(read("d90105a144c0a800001818").equals(&network));
    assert_eq!(written(&network), "d90105a144c0a800001818");
    assert_eq!(refused("d90105a0"), DecodeError::InvalidTagPayload { tag: 261 });
    assert_eq!(refused("d90105a144c0a800006161"), DecodeError::InvalidTagPayload { tag: 261 });
}

#[test]
fn complex_number_takes_two_numbers() {
    let expected = domain(
        DomainKind::Complex,
        Value::Tuple(vec![Value::Float(1.5f64.to_bits()), Value::Float((-2.0f64).to_bits())]),
    );
    assert!(read("d9a7f882f93e00f9c000").equals(&expected));
    assert_eq!(written(&expected), "d9a7f882fb3ff8000000000000fbc000000000000000");
    assert_eq!(refused("d9a7f88101"), DecodeError::InvalidTagPayload { tag: 43000 });
    assert_eq!(refused("d9a7f8826161 01"), DecodeError::InvalidTagPayload { tag: 43000 });
}

#[test]
fn datetime_is_written_as_text_or_as_timestamp() {
    let aware = domain(
        DomainKind::DateTime,
        Value::Tuple(vec![
            Value::Bool(true),
            string("2013-03-21T20:04:00+00:00"),
            Value::Float(1363896240.0f64.to_bits()),
        ]),
    );
    assert_eq!(
        written_with(&aware, false, false, false).unwrap(),
        "c074323031332d30332d32315432303a30343a30305a"
    );
    // whole seconds become an integer
    assert_eq!(written_with(&aware, true, false, false).unwrap(), "c11a514b67b0");
    let fraction = domain(
        DomainKind::DateTime,
        Value::Tuple(vec![
            Value::Bool(true),
            string("2013-03-21T20:04:00.500000+00:00"),
            Value::Float(1363896240.5f64.to_bits()),
        ]),
    );
    assert_eq!(written_with(&fraction, true, false, false).unwrap(), "c1fb41d452d9ec200000");
}

#[test]
fn naive_datetime_needs_a_default_zone() {
    let naive = domain(
        DomainKind::DateTime,
        Value::Tuple(vec![
            Value::Bool(false),
            string("2013-03-21T20:04:00+01:00"),
            Value::Float(1363892640.0f64.to_bits()),
        ]),
    );
    assert_eq!(written_with(&naive, false, false, false), Err(EncodeError::NaiveDateTime));
    assert_eq!(written_with(&naive, true, false, false), Err(EncodeError::NaiveDateTime));
    assert!(written_with(&naive, false, true, false).is_ok());
    assert_eq!(written_with(&naive, true, true, false).unwrap(), "c11a514b59a0");
}

#[test]
fn date_is_written_in_one_of_three_forms() {
    let midnight = Value::Tuple(vec![
        Value::Bool(true),
        string("2013-03-21T00:00:00+00:00"),
        Value::Float(1363824000.0f64.to_bits()),
    ]);
    let date = domain(
        DomainKind::Date,
        Value::Tuple(vec![Value::Unsigned(734948), string("2013-03-21"), midnight]),
    );
    assert_eq!(written_with(&date, false, false, false).unwrap(), "d903ec6a323031332d30332d3231");
    assert_eq!(written_with(&date, true, false, false).unwrap(), "d864193da9");
    assert_eq!(
        written_with(&date, false, false, true).unwrap(),
        "c074323031332d30332d32315430303a30303a30305a"
    );
    assert_eq!(written_with(&date, true, false, true).unwrap(), "c11a514a4d80");
}

#[test]
fn content_of_the_wrong_shape_is_refused_by_the_encoder() {
    let bad = domain(DomainKind::Rational, Value::Unsigned(1));
    assert_eq!(written_with(&bad, false, false, false), Err(EncodeError::InvalidContent));
    let bad = domain(DomainKind::DateTime, Value::Tuple(vec![Value::Bool(true)]));
    assert_eq!(written_with(&bad, false, false, false), Err(EncodeError::InvalidContent));
    let bad = domain(DomainKind::Uuid, Value::Array(vec![]));
    assert_eq!(written_with(&bad, false, false, false), Err(EncodeError::InvalidContent));
    let bad = domain(DomainKind::Ipv4Network, Value::Tuple(vec![Value::Unsigned(1), Value::Unsigned(2)]));
    assert_eq!(written_with(&bad, false, false, false), Err(EncodeError::InvalidContent));
}

#[test]
fn zone_of_zero_offset_becomes_z() {
    assert_eq!(zulu_text("2013-03-21T20:04:00+00:00"), "2013-03-21T20:04:00Z");
    assert_eq!(zulu_text("2013-03-21T20:04:00+01:00"), "2013-03-21T20:04:00+01:00");
    assert_eq!(zulu_text("+00:00+00:00"), "ZZ");
    assert_eq!(zulu_text("+00:0"), "+00:0");
    assert_eq!(zulu_text(""), "");
    assert_eq!(zulu_text("\u{e9}+00:00\u{1f600}"), "\u{e9}Z\u{1f600}");
}

#[test]
fn whole_seconds_are_found_as_the_cast_finds_them() {
    for value in [0.0f64, -0.0, 1.0, 2.0, 3.0, 0.5, 1.5, 4294967295.0, 4294967296.0, 4294967295.5, -1.0, 1e300, f64::NAN, f64::INFINITY, 123456789.0, 5e-324] {
        let expected = if (value as u32) as f64 == value { Some(value as u32 as u64) } else { None };
        assert_eq!(whole_seconds_of(value.to_bits()), expected, "{}", value);
    }
}

#[test]
fn zeros_are_stripped_behind_and_filled_up_behind() {
    assert_eq!(strip_zeros(&vec![192, 168, 0, 0]), vec![192, 168]);
    assert_eq!(strip_zeros(&vec![0, 0, 1, 0]), vec![0, 0, 1]);
    assert_eq!(strip_zeros(&vec![0, 0]), Vec::<u8>::new());
    assert_eq!(strip_zeros(&vec![]), Vec::<u8>::new());
    assert_eq!(resize_bytes(&vec![192, 168], 4), vec![192, 168, 0, 0]);
    assert_eq!(resize_bytes(&vec![1, 2, 3, 4, 5], 4), vec![1, 2, 3, 4]);
    assert_eq!(resize_bytes(&vec![], 2), vec![0, 0]);
}
