use cbor2::api::dump;
use cbor2::api::dumps;
use cbor2::api::loads;
use cbor2::decoder::SharedSlot;
use cbor2::encoder::DefaultHook;
use cbor2::encoder::NoDefault;
use cbor2::errors::EncodeError;
use cbor2::errors::EncodeErrorKind;
use cbor2::value::Value;
use cbor2::writer::VecSink;

#[derive(Clone, Copy, Default)]
struct Options {
    value_sharing: bool,
    canonical: bool,
    string_referencing: bool,
    indefinite_containers: bool,
}

fn encode_with(value: &Value, shared: &Vec<SharedSlot>, o: Options) -> Result<Vec<u8>, EncodeError> {
    dumps(
        value,
        shared,
        false,
        false,
        o.value_sharing,
        o.canonical,
        false,
        o.string_referencing,
        o.indefinite_containers,
    )
}

fn encode(value: &Value) -> Vec<u8> {
    encode_with(value, &vec![], Options::default()).expect("encodes")
}

fn canonical(value: &Value) -> Vec<u8> {
    encode_with(value, &vec![], Options { canonical: true, ..Options::default() }).expect("encodes")
}

fn to_hex(bytes: &[u8]) -> String {
    let mut out = String::new();
    for b in bytes {
        out.push_str(&format!("{:02x}", b));
    }
    out
}

fn text(s: &str) -> Value {
    Value::Text(s.to_string())
}

fn float(f: f64) -> Value {
    Value::Float(f.to_bits())
}

#[test]
fn integer_switches_from_major_type_to_tag_at_two_to_the_64() {
    assert_eq!(to_hex(&encode(&Value::Unsigned(u64::MAX))), "1bffffffffffffffff");
    let two_64 = Value::BigUnsigned(vec![1, 0, 0, 0, 0, 0, 0, 0, 0]);
    assert_eq!(to_hex(&encode(&two_64)), "c249010000000000000000");
    // -2^64 is -1 - (2^64 - 1)
    assert_eq!(to_hex(&encode(&Value::Negative(u64::MAX))), "3bffffffffffffffff");
    // -2^64 - 1 is -1 - 2^64
    let below = Value::BigNegative(vec![1, 0, 0, 0, 0, 0, 0, 0, 0]);
    assert_eq!(to_hex(&encode(&below)), "c349010000000000000000");
}

#[test]
fn big_integer_with_leading_zeros_is_written_in_its_shortest_form() {
    assert_eq!(to_hex(&encode(&Value::BigUnsigned(vec![0, 0, 1, 0]))), "190100");
    assert_eq!(to_hex(&encode(&Value::BigUnsigned(vec![]))), "00");
    assert_eq!(to_hex(&encode(&Value::BigNegative(vec![0, 99]))), "3863");
    let padded = Value::BigUnsigned(vec![0, 0, 1, 0, 0, 0, 0, 0, 0, 0, 0]);
    assert_eq!(to_hex(&encode(&padded)), "c249010000000000000000");
}

#[test]
fn header_grows_at_24_256_65536_and_two_to_the_32() {
    assert_eq!(to_hex(&encode(&Value::Unsigned(23))), "17");
    assert_eq!(to_hex(&encode(&Value::Unsigned(24))), "1818");
    assert_eq!(to_hex(&encode(&Value::Unsigned(255))), "18ff");
    assert_eq!(to_hex(&encode(&Value::Unsigned(256))), "190100");
    assert_eq!(to_hex(&encode(&Value::Unsigned(65535))), "19ffff");
    assert_eq!(to_hex(&encode(&Value::Unsigned(65536))), "1a00010000");
    assert_eq!(to_hex(&encode(&Value::Unsigned(4294967295))), "1affffffff");
    assert_eq!(to_hex(&encode(&Value::Unsigned(4294967296))), "1b0000000100000000");
    assert_eq!(encode(&Value::Bytes(vec![0; 23])).len(), 1 + 23);
    assert_eq!(encode(&Value::Bytes(vec![0; 24])).len(), 2 + 24);
    assert_eq!(encode(&Value::Bytes(vec![0; 255])).len(), 2 + 255);
    assert_eq!(encode(&Value::Bytes(vec![0; 256])).len(), 3 + 256);
    assert_eq!(encode(&Value::Bytes(vec![0; 65535])).len(), 3 + 65535);
    assert_eq!(encode(&Value::Bytes(vec![0; 65536])).len(), 5 + 65536);
}

#[test]
fn encodes_strings_and_byte_strings() {
    assert_eq!(to_hex(&encode(&text("IETF"))), "6449455446");
    assert_eq!(to_hex(&encode(&text("\u{fc}"))), "62c3bc");
    assert_eq!(to_hex(&encode(&Value::Bytes(vec![1, 2, 3, 4]))), "4401020304");
    assert_eq!(to_hex(&encode(&Value::ByteArray(vec![1, 2, 3, 4]))), "4401020304");
}

#[test]
fn encodes_simple_values_and_marks() {
    assert_eq!(to_hex(&encode(&Value::Bool(false))), "f4");
    assert_eq!(to_hex(&encode(&Value::Bool(true))), "f5");
    assert_eq!(to_hex(&encode(&Value::Null)), "f6");
    assert_eq!(to_hex(&encode(&Value::Undefined)), "f7");
    assert_eq!(to_hex(&encode(&Value::Break)), "ff");
    assert_eq!(to_hex(&encode(&Value::Simple(0))), "e0");
    assert_eq!(to_hex(&encode(&Value::Simple(19))), "f3");
    assert_eq!(to_hex(&encode(&Value::Simple(23))), "f7");
    assert_eq!(to_hex(&encode(&Value::Simple(32))), "f820");
    assert_eq!(to_hex(&encode(&Value::Simple(255))), "f8ff");
    let reserved = encode_with(&Value::Simple(24), &vec![], Options::default());
    assert_eq!(reserved, Err(EncodeError::InvalidContent));
}

#[test]
fn float_is_written_in_double_precision_unless_canonical() {
    assert_eq!(to_hex(&encode(&float(1.1))), "fb3ff199999999999a");
    assert_eq!(to_hex(&encode(&float(1.5))), "fb3ff8000000000000");
    assert_eq!(to_hex(&encode(&float(0.0))), "fb0000000000000000");
}

#[test]
fn canonical_float_takes_the_narrowest_exact_width() {
    assert_eq!(to_hex(&canonical(&float(1.5))), "f93e00");
    assert_eq!(to_hex(&canonical(&float(0.0))), "f90000");
    assert_eq!(to_hex(&canonical(&float(-0.0))), "f98000");
    assert_eq!(to_hex(&canonical(&float(65504.0))), "f97bff");
    assert_eq!(to_hex(&canonical(&float(5.960464477539063e-8))), "f90001");
    assert_eq!(to_hex(&canonical(&float(100000.0))), "fa47c35000");
    assert_eq!(to_hex(&canonical(&float(3.4028234663852886e38))), "fa7f7fffff");
    assert_eq!(to_hex(&canonical(&float(1.1))), "fb3ff199999999999a");
    assert_eq!(to_hex(&canonical(&float(1.0e300))), "fb7e37e43c8800759c");
    assert_eq!(canonical(&float(1.5)).len(), 3);
    assert_eq!(canonical(&float(100000.0)).len(), 5);
    assert_eq!(canonical(&float(1.1)).len(), 9);
}

#[test]
fn nan_and_infinities_take_their_fixed_form() {
    assert_eq!(to_hex(&encode(&float(f64::NAN))), "f97e00");
    assert_eq!(to_hex(&encode(&float(f64::INFINITY))), "f97c00");
    assert_eq!(to_hex(&encode(&float(f64::NEG_INFINITY))), "f9fc00");
    assert_eq!(to_hex(&canonical(&float(f64::NAN))), "f97e00");
    assert_eq!(to_hex(&canonical(&float(f64::INFINITY))), "f97c00");
}

#[test]
fn encodes_arrays_and_maps() {
    let array = Value::Array(vec![Value::Unsigned(1), Value::Unsigned(2), Value::Unsigned(3)]);
    assert_eq!(to_hex(&encode(&array)), "83010203");
    let tuple = Value::Tuple(vec![Value::Unsigned(1), Value::Unsigned(2)]);
    assert_eq!(to_hex(&encode(&tuple)), "820102");
    let map = Value::Dict(vec![
        (text("a"), Value::Unsigned(1)),
        (text("b"), Value::Array(vec![Value::Unsigned(2), Value::Unsigned(3)])),
    ]);
    assert_eq!(to_hex(&encode(&map)), "a26161016162820203");
}

#[test]
fn indefinite_containers_end_with_a_break() {
    let o = Options { indefinite_containers: true, ..Options::default() };
    let array = Value::Array(vec![Value::Unsigned(1), Value::Unsigned(2)]);
    assert_eq!(to_hex(&encode_with(&array, &vec![], o).unwrap()), "9f0102ff");
    let map = Value::Dict(vec![(text("a"), Value::Unsigned(1))]);
    assert_eq!(to_hex(&encode_with(&map, &vec![], o).unwrap()), "bf616101ff");
}

#[test]
fn canonical_map_is_sorted_by_length_then_bytes_of_the_keys() {
    let first = Value::Dict(vec![
        (text("bb"), Value::Unsigned(1)),
        (Value::Unsigned(100), Value::Unsigned(2)),
        (text("a"), Value::Unsigned(3)),
        (Value::Unsigned(10), Value::Unsigned(4)),
        (Value::Negative(0), Value::Unsigned(5)),
    ]);
    let second = Value::Dict(vec![
        (Value::Negative(0), Value::Unsigned(5)),
        (text("a"), Value::Unsigned(3)),
        (Value::Unsigned(10), Value::Unsigned(4)),
        (text("bb"), Value::Unsigned(1)),
        (Value::Unsigned(100), Value::Unsigned(2)),
    ]);
    let expected = "a5 0a04 2005 186402 616103 62626201".replace(' ', "");
    assert_eq!(to_hex(&canonical(&first)), expected);
    assert_eq!(canonical(&first), canonical(&second));
    assert_ne!(encode(&first), encode(&second));
}

#[test]
fn canonical_set_is_sorted_too() {
    let set = Value::MutableSet(vec![text("bb"), Value::Unsigned(100), Value::Unsigned(1)]);
    assert_eq!(to_hex(&canonical(&set)), "d9010283011864626262");
    assert_eq!(to_hex(&encode(&set)), "d9010283626262186401");
    let frozen = Value::FrozenSet(vec![Value::Unsigned(2), Value::Unsigned(1)]);
    assert_eq!(to_hex(&canonical(&frozen)), "d90102820102");
}

#[test]
fn tag_is_written_before_its_content() {
    let tagged = Value::Tag(999, Box::new(text("x")));
    assert_eq!(to_hex(&encode(&tagged)), "d903e76178");
    let tagged = Value::Tag(1, Box::new(Value::Unsigned(0)));
    assert_eq!(to_hex(&encode(&tagged)), "c100");
}

#[test]
fn cycle_fails_without_value_sharing() {
    // slot 0 is a list that holds itself
    let shared = vec![SharedSlot::Filled(Value::Array(vec![Value::Shared(0)]))];
    let result = encode_with(&Value::Shared(0), &shared, Options::default());
    assert_eq!(result, Err(EncodeError::CyclicStructure));
    assert_eq!(EncodeError::CyclicStructure.kind(), EncodeErrorKind::Value);
}

#[test]
fn cycle_failure_leaves_nothing_of_the_container_in_the_sink() {
    let shared = vec![SharedSlot::Filled(Value::Array(vec![Value::Shared(0)]))];
    let sink = VecSink::new();
    let (result, sink) = dump::<VecSink, NoDefault>(
        &Value::Array(vec![Value::Unsigned(1), Value::Shared(0)]),
        &shared,
        sink,
        false,
        false,
        false,
        None,
        false,
        false,
        false,
        false,
    );
    assert_eq!(result, Err(EncodeError::CyclicStructure));
    assert!(sink.unwrap().data.is_empty());
}

#[test]
fn cycle_is_written_with_value_sharing() {
    let shared = vec![SharedSlot::Filled(Value::Array(vec![Value::Shared(0)]))];
    let o = Options { value_sharing: true, ..Options::default() };
    let bytes = encode_with(&Value::Shared(0), &shared, o).unwrap();
    assert_eq!(to_hex(&bytes), "d81c81d81d00");
    let back = loads(bytes, "strict").unwrap();
    assert!(back.value.equals(&Value::Shared(0)));
    match &back.shared[0] {
        SharedSlot::Filled(v) => assert!(v.equals(&Value::Array(vec![Value::Shared(0)]))),
        other => panic!("slot not filled: {:?}", other),
    }
}

#[test]
fn shared_value_is_written_once_with_value_sharing_and_twice_without() {
    let shared = vec![SharedSlot::Filled(Value::Array(vec![Value::Unsigned(1), Value::Unsigned(2)]))];
    let pair = Value::Tuple(vec![Value::Shared(0), Value::Shared(0)]);
    let plain = encode_with(&pair, &shared, Options::default()).unwrap();
    assert_eq!(to_hex(&plain), "82820102820102");
    let o = Options { value_sharing: true, ..Options::default() };
    let with_sharing = encode_with(&pair, &shared, o).unwrap();
    // the tuple itself takes index 0, the list index 1
    assert_eq!(to_hex(&with_sharing), "d81c82d81c820102d81d01");
}

#[test]
fn reference_without_a_value_fails() {
    let result = encode_with(&Value::Shared(3), &vec![], Options::default());
    assert_eq!(result, Err(EncodeError::DanglingReference { index: 3 }));
    let shared = vec![SharedSlot::Pending];
    let result = encode_with(&Value::Shared(0), &shared, Options::default());
    assert_eq!(result, Err(EncodeError::DanglingReference { index: 0 }));
}

#[test]
fn string_referencing_writes_a_repeated_string_as_a_reference() {
    let o = Options { string_referencing: true, ..Options::default() };
    let list = Value::Array(vec![text("first"), text("first")]);
    let bytes = encode_with(&list, &vec![], o).unwrap();
    assert_eq!(to_hex(&bytes), "d9010082656669727374d81900");
    let back = loads(bytes, "strict").unwrap();
    assert!(back.value.equals(&list));
}

#[test]
fn short_strings_are_not_referenced() {
    let o = Options { string_referencing: true, ..Options::default() };
    let list = Value::Array(vec![text("ab"), text("ab"), Value::Bytes(vec![1, 2, 3]), Value::Bytes(vec![1, 2, 3])]);
    let bytes = encode_with(&list, &vec![], o).unwrap();
    assert_eq!(to_hex(&bytes), "d90100846261626261624301020 3d81900".replace(' ', ""));
}

#[test]
fn text_and_bytes_of_the_same_content_have_different_indices() {
    let o = Options { string_referencing: true, ..Options::default() };
    let list = Value::Array(vec![text("abc"), Value::Bytes(b"abc".to_vec()), text("abc"), Value::Bytes(b"abc".to_vec())]);
    let bytes = encode_with(&list, &vec![], o).unwrap();
    assert_eq!(to_hex(&bytes), "d90100846361626343616263d81900d81901");
    let back = loads(bytes, "strict").unwrap();
    assert!(back.value.equals(&list));
}

#[test]
fn value_without_encoding_fails_or_goes_to_the_fallback() {
    let foreign = Value::Foreign("Widget".to_string());
    let result = encode_with(&foreign, &vec![], Options::default());
    assert_eq!(result, Err(EncodeError::UnsupportedType { name: "Widget".to_string() }));
    assert_eq!(
        EncodeError::UnsupportedType { name: "Widget".to_string() }.kind(),
        EncodeErrorKind::Unencodable
    );

    struct Fallback;
    impl DefaultHook for Fallback {
        fn call(&mut self, kind: &String) -> Result<Vec<u8>, EncodeError> {
            if kind == "Widget" {
                Ok(vec![0x67, b'w', b'i', b'd', b'g', b'e', b't', b'!'])
            } else {
                Err(EncodeError::UnsupportedType { name: kind.clone() })
            }
        }
    }
    let (result, sink) = dump(
        &Value::Array(vec![foreign]),
        &vec![],
        VecSink::new(),
        false,
        false,
        false,
        Some(Fallback),
        false,
        false,
        false,
        false,
    );
    assert_eq!(result, Ok(()));
    assert_eq!(to_hex(&sink.unwrap().data), "8167776964676574 21".replace(' ', ""));
    let (result, _) = dump(
        &Value::Foreign("Gadget".to_string()),
        &vec![],
        VecSink::new(),
        false,
        false,
        false,
        Some(Fallback),
        false,
        false,
        false,
        false,
    );
    assert_eq!(result, Err(EncodeError::DefaultHookFailed));
}

#[test]
fn round_trip_of_nested_values() {
    let value = Value::Array(vec![
        Value::Unsigned(0),
        Value::Negative(5),
        Value::BigUnsigned(vec![1, 2, 3, 4, 5, 6, 7, 8, 9, 10]),
        Value::BigNegative(vec![255, 2, 3, 4, 5, 6, 7, 8, 9, 10]),
        text("hello"),
        Value::Bytes(vec![0, 255]),
        Value::Dict(vec![
            (text("k"), Value::Array(vec![Value::Null, Value::Undefined, Value::Bool(true)])),
            (Value::Tuple(vec![Value::Unsigned(1)]), Value::Simple(99)),
        ]),
        Value::Tag(1000, Box::new(Value::Tuple(vec![float(2.5)]))),
        Value::MutableSet(vec![Value::Unsigned(1), text("x")]),
        float(-1.0e-5),
    ]);
    for canonical in [false, true] {
        let o = Options { canonical, ..Options::default() };
        let bytes = encode_with(&value, &vec![], o).unwrap();
        let back = loads(bytes, "strict").unwrap();
        assert!(back.value.equals(&value), "canonical: {}", canonical);
        assert!(back.shared.is_empty());
    }
}

#[test]
fn decoding_and_encoding_again_gives_an_encoding_of_the_same_value() {
    let inputs = ["9f0102ff", "bf616101ff", "5f42010243030405ff", "f93e00", "1b0000000000000001", "c2420100"];
    for input in inputs {
        let bytes: Vec<u8> = (0..input.len() / 2)
            .map(|i| u8::from_str_radix(&input[2 * i..2 * i + 2], 16).unwrap())
            .collect();
        let first = loads(bytes, "strict").unwrap();
        let again = encode_with(&first.value, &first.shared, Options::default()).unwrap();
        let second = loads(again, "strict").unwrap();
        assert!(second.value.equals(&first.value), "input {}", input);
    }
}

#[test]
fn list_holding_itself_among_other_members_comes_back() {
    let members = || {
        vec![
            Value::Unsigned(1),
            Value::Shared(0),
            Value::Text("a".to_string()),
            Value::Shared(0),
        ]
    };
    let shared = vec![SharedSlot::Filled(Value::Array(members()))];
    let o = Options { value_sharing: true, ..Options::default() };
    let bytes = encode_with(&Value::Shared(0), &shared, o).unwrap();
    assert_eq!(to_hex(&bytes), "d81c8401d81d006161d81d00");
    let back = loads(bytes, "strict").unwrap();
    assert!(back.value.equals(&Value::Shared(0)));
    assert_eq!(back.shared.len(), 1);
    match &back.shared[0] {
        SharedSlot::Filled(v) => assert!(v.equals(&Value::Array(members()))),
        other => panic!("slot not filled: {:?}", other),
    }
}

#[test]
fn canonical_map_with_tuples_as_keys_does_not_depend_on_insertion_order() {
    let pair = || Value::Tuple(vec![Value::Unsigned(1), text("b")]);
    let single = || Value::Tuple(vec![Value::Unsigned(300)]);
    let tagged = || Value::Tag(4000, Box::new(Value::Tuple(vec![Value::Bool(true)])));
    let first = Value::Dict(vec![
        (pair(), Value::Unsigned(1)),
        (text("zz"), Value::Unsigned(2)),
        (single(), Value::Unsigned(3)),
        (tagged(), Value::Unsigned(4)),
    ]);
    let second = Value::Dict(vec![
        (tagged(), Value::Unsigned(4)),
        (single(), Value::Unsigned(3)),
        (text("zz"), Value::Unsigned(2)),
        (pair(), Value::Unsigned(1)),
    ]);
    let a = canonical(&first);
    let b = canonical(&second);
    assert_eq!(a, b);
    // keys by length, then byte by byte: "zz" (627a7a), [300] (8119012c),
    // [1, "b"] (82016162), 4000([true]) (d90fa081f5)
    assert_eq!(to_hex(&a), "a4627a7a028119012c038201616201d90fa081f504");
}

#[test]
fn canonical_list_comes_back_as_it_was() {
    let list = Value::Array(vec![
        Value::Float(1.5f64.to_bits()),
        Value::Array(vec![text("a"), Value::Unsigned(1)]),
        Value::Tag(4000, Box::new(Value::Tuple(vec![Value::Null]))),
    ]);
    let bytes = canonical(&list);
    assert_eq!(to_hex(&bytes), "83f93e0082616101d90fa081f6");
    let back = loads(bytes, "strict").unwrap();
    assert!(back.value.equals(&list));
}

#[test]
fn lists_that_hold_each_other_come_back_as_they_were() {
    // place 0 holds the list at place 1 and itself; place 1 holds both too,
    // and the list at place 2, which holds the first
    let table = || {
        vec![
            SharedSlot::Filled(Value::Array(vec![
                Value::Unsigned(1),
                Value::Shared(1),
                Value::Shared(0),
            ])),
            SharedSlot::Filled(Value::Array(vec![
                Value::Shared(0),
                text("a"),
                Value::Shared(2),
                Value::Shared(1),
            ])),
            SharedSlot::Filled(Value::Array(vec![Value::Shared(0), Value::Null])),
        ]
    };
    let o = Options { value_sharing: true, ..Options::default() };
    let bytes = encode_with(&Value::Shared(0), &table(), o).unwrap();
    assert_eq!(
        to_hex(&bytes),
        "d81c8301d81c84d81d006161d81c82d81d00f6d81d01d81d00"
    );
    let back = loads(bytes, "strict").unwrap();
    assert!(back.value.equals(&Value::Shared(0)));
    let expected = table();
    assert_eq!(back.shared.len(), expected.len());
    for (got, want) in back.shared.iter().zip(expected.iter()) {
        match (got, want) {
            (SharedSlot::Filled(g), SharedSlot::Filled(w)) => assert!(g.equals(w)),
            other => panic!("slot not filled: {:?}", other),
        }
    }
}

#[test]
fn map_and_list_that_hold_each_other_come_back_as_they_were() {
    let table = || {
        vec![
            SharedSlot::Filled(Value::Dict(vec![
                (Value::Unsigned(1), Value::Shared(0)),
                (text("k"), Value::Shared(1)),
                (Value::Negative(0), Value::Bool(true)),
            ])),
            SharedSlot::Filled(Value::Array(vec![Value::Shared(0), Value::Shared(1)])),
        ]
    };
    let o = Options { value_sharing: true, ..Options::default() };
    let bytes = encode_with(&Value::Shared(0), &table(), o).unwrap();
    assert_eq!(to_hex(&bytes), "d81ca301d81d00616bd81c82d81d00d81d0120f5");
    let back = loads(bytes, "strict").unwrap();
    assert!(back.value.equals(&Value::Shared(0)));
    let expected = table();
    assert_eq!(back.shared.len(), expected.len());
    for (got, want) in back.shared.iter().zip(expected.iter()) {
        match (got, want) {
            (SharedSlot::Filled(g), SharedSlot::Filled(w)) => assert!(g.equals(w)),
            other => panic!("slot not filled: {:?}", other),
        }
    }
}
