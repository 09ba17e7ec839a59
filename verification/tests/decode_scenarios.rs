use cbor2::api::loads;
use cbor2::api::loads_with;
use cbor2::api::Decoded;
use cbor2::api::LoadError;
use cbor2::decoder::NoHook;
use cbor2::decoder::SharedSlot;
use cbor2::errors::DecodeError;
use cbor2::errors::DecodeErrorKind;
use cbor2::value::Value;

fn hex(text: &str) -> Vec<u8> {
    let digits: Vec<u8> = text
        .bytes()
        .filter(|b| !b.is_ascii_whitespace())
        .map(|b| match b {
            b'0'..=b'9' => b - b'0',
            b'a'..=b'f' => b - b'a' + 10,
            b'A'..=b'F' => b - b'A' + 10,
            _ => panic!("not a hex digit"),
        })
        .collect();
    digits.chunks(2).map(|pair| pair[0] * 16 + pair[1]).collect()
}

fn decode(text: &str) -> Decoded {
    loads(hex(text), "strict").expect("decodes")
}

fn failure(text: &str) -> DecodeError {
    match loads(hex(text), "strict") {
        Err(LoadError::Decode(e)) => e,
        other => panic!("expected a decode error, got {:?}", other),
    }
}

fn same(a: &Value, b: &Value) -> bool {
    a.equals(b)
}

fn text(s: &str) -> Value {
    Value::Text(s.to_string())
}

#[test]
fn decodes_unsigned_integers() {
    assert!(same(&decode("00").value, &Value::Unsigned(0)));
    assert!(same(&decode("1815").value, &Value::Unsigned(21)));
    assert!(same(&decode("1902ff").value, &Value::Unsigned(767)));
    assert!(same(&decode("17").value, &Value::Unsigned(23)));
    assert!(same(&decode("1a000f4240").value, &Value::Unsigned(1_000_000)));
    assert!(same(&decode("1bffffffffffffffff").value, &Value::Unsigned(u64::MAX)));
}

#[test]
fn decodes_negative_integers() {
    // -2^63 is -1 - (2^63 - 1)
    assert!(same(&decode("3b7fffffffffffffff").value, &Value::Negative((1u64 << 63) - 1)));
    assert!(same(&decode("20").value, &Value::Negative(0)));
    assert!(same(&decode("3863").value, &Value::Negative(99)));
    // -2^64 needs more than 64 bits of magnitude
    assert!(same(&decode("3bffffffffffffffff").value, &Value::Negative(u64::MAX)));
}

#[test]
fn decodes_arrays_of_definite_and_indefinite_length() {
    let expected = Value::Array(vec![Value::Unsigned(1), Value::Unsigned(2), Value::Unsigned(3)]);
    assert!(same(&decode("83010203").value, &expected));
    let expected = Value::Array(vec![Value::Unsigned(1), Value::Unsigned(2)]);
    assert!(same(&decode("9f0102ff").value, &expected));
    assert!(same(&decode("80").value, &Value::Array(vec![])));
    assert!(same(&decode("9fff").value, &Value::Array(vec![])));
}

#[test]
fn decodes_map_with_nested_array() {
    let expected = Value::Dict(vec![
        (text("a"), Value::Unsigned(1)),
        (text("b"), Value::Array(vec![Value::Unsigned(2), Value::Unsigned(3)])),
    ]);
    assert!(same(&decode("a26161016162820203").value, &expected));
    let indefinite = decode("bf6161016162820203ff");
    assert!(same(&indefinite.value, &expected));
}

#[test]
fn map_keys_are_read_as_immutable_values() {
    // {[1, 2]: 3}: the key is a tuple, not a list
    let decoded = decode("a182010203");
    let expected =
        Value::Dict(vec![(Value::Tuple(vec![Value::Unsigned(1), Value::Unsigned(2)]), Value::Unsigned(3))]);
    assert!(same(&decoded.value, &expected));
    // {{1: 2}: 3}: the key is a frozen map
    let decoded = decode("a1a1010203");
    let expected = Value::Dict(vec![(
        Value::FrozenDict(vec![(Value::Unsigned(1), Value::Unsigned(2))]),
        Value::Unsigned(3),
    )]);
    assert!(same(&decoded.value, &expected));
}

#[test]
fn a_key_that_comes_again_keeps_its_place_and_takes_the_later_value() {
    // {1: 2, 3: 4, 1: 5}
    let decoded = decode("a3010203040105");
    let expected = Value::Dict(vec![
        (Value::Unsigned(1), Value::Unsigned(5)),
        (Value::Unsigned(3), Value::Unsigned(4)),
    ]);
    assert!(same(&decoded.value, &expected));
}

#[test]
fn shared_value_is_referenced_by_index() {
    // [28([1, 2]), 29(0)]
    let decoded = decode("82 d81c820102 d81d00");
    let expected = Value::Array(vec![Value::Shared(0), Value::Shared(0)]);
    assert!(same(&decoded.value, &expected));
    assert_eq!(decoded.shared.len(), 1);
    match &decoded.shared[0] {
        SharedSlot::Filled(v) => {
            assert!(same(v, &Value::Array(vec![Value::Unsigned(1), Value::Unsigned(2)])))
        },
        other => panic!("slot not filled: {:?}", other),
    }
}

#[test]
fn a_list_may_hold_itself() {
    // 28([29(0)])
    let decoded = decode("d81c81d81d00");
    assert!(same(&decoded.value, &Value::Shared(0)));
    match &decoded.shared[0] {
        SharedSlot::Filled(v) => assert!(same(v, &Value::Array(vec![Value::Shared(0)]))),
        other => panic!("slot not filled: {:?}", other),
    }
}

#[test]
fn shared_scalar_is_copied_where_it_is_referenced() {
    // [28("abc"), 29(0)]
    let decoded = decode("82 d81c63616263 d81d00");
    let expected = Value::Array(vec![text("abc"), text("abc")]);
    assert!(same(&decoded.value, &expected));
}

#[test]
fn reference_to_a_pending_or_missing_slot_fails() {
    // 28(29(0)): the slot has no value yet
    assert_eq!(failure("d81cd81d00"), DecodeError::SharedValueNotInitialized { index: 0 });
    assert_eq!(failure("d81d00"), DecodeError::SharedReferenceNotFound { index: 0 });
    assert_eq!(failure("d81d05"), DecodeError::SharedReferenceNotFound { index: 5 });
    assert_eq!(failure("d81d6161"), DecodeError::InvalidReferenceIndex);
    assert_eq!(failure("d81d00").kind(), DecodeErrorKind::Value);
}

#[test]
fn string_reference_expands_within_namespace() {
    // 256(["first", 25(0)])
    let decoded = decode("d90100 82 656669727374 d81900");
    let expected = Value::Array(vec![text("first"), text("first")]);
    assert!(same(&decoded.value, &expected));
}

#[test]
fn string_reference_needs_a_namespace_and_an_entry() {
    assert_eq!(failure("d81900"), DecodeError::StringReferenceOutsideNamespace);
    assert_eq!(failure("d90100d81900"), DecodeError::StringReferenceNotFound { index: 0 });
    // "ab" is too short to get an index
    assert_eq!(
        failure("d90100 82 626162 d81900"),
        DecodeError::StringReferenceNotFound { index: 0 }
    );
    // "abc" is long enough
    let decoded = decode("d90100 82 63616263 d81900");
    assert!(same(&decoded.value, &Value::Array(vec![text("abc"), text("abc")])));
}

#[test]
fn inner_namespace_does_not_leak() {
    // 256([256(["abc"]), 25(0)]): the outer namespace is empty
    assert_eq!(
        failure("d90100 82 d90100 81 63616263 d81900"),
        DecodeError::StringReferenceNotFound { index: 0 }
    );
}

#[test]
fn tag_for_sets_in_place_of_namespace_tag_ends_early() {
    // tag 258 around [24("firs"), <text of 20 bytes, of which 3 are there>]
    assert!(matches!(
        failure("D9010282D818646669727374D81900"),
        DecodeError::PrematureEof { .. }
    ));
}

#[test]
fn decodes_floats_of_all_widths() {
    assert!(same(&decode("fb3ff199999999999a").value, &Value::Float(1.1f64.to_bits())));
    assert!(same(&decode("f93e00").value, &Value::Float(1.5f64.to_bits())));
    assert!(same(&decode("fa47c35000").value, &Value::Float(100000.0f64.to_bits())));
    assert!(same(&decode("f90001").value, &Value::Float(5.960464477539063e-8f64.to_bits())));
    assert!(same(&decode("f97c00").value, &Value::Float(f64::INFINITY.to_bits())));
    assert!(same(&decode("f9fc00").value, &Value::Float(f64::NEG_INFINITY.to_bits())));
    assert!(same(&decode("f98000").value, &Value::Float((-0.0f64).to_bits())));
    match decode("f97e00").value {
        Value::Float(bits) => assert!(f64::from_bits(bits).is_nan()),
        other => panic!("not a float: {:?}", other),
    }
}

#[test]
fn decodes_simple_values_and_marks() {
    assert!(same(&decode("f4").value, &Value::Bool(false)));
    assert!(same(&decode("f5").value, &Value::Bool(true)));
    assert!(same(&decode("f6").value, &Value::Null));
    assert!(same(&decode("f7").value, &Value::Undefined));
    assert!(same(&decode("e0").value, &Value::Simple(0)));
    assert!(same(&decode("f3").value, &Value::Simple(19)));
    assert!(same(&decode("f820").value, &Value::Simple(32)));
    assert!(same(&decode("f8ff").value, &Value::Simple(255)));
    assert!(same(&decode("ff").value, &Value::Break));
    assert_eq!(failure("f818"), DecodeError::ReservedSimpleValue { value: 24 });
    assert_eq!(failure("f81f"), DecodeError::ReservedSimpleValue { value: 31 });
    assert_eq!(failure("fc"), DecodeError::ReservedSpecial { subtype: 28 });
    assert_eq!(failure("fe"), DecodeError::ReservedSpecial { subtype: 30 });
}

#[test]
fn decodes_strings() {
    assert!(same(&decode("6449455446").value, &text("IETF")));
    assert!(same(&decode("62c3bc").value, &text("\u{fc}")));
    assert!(same(&decode("4401020304").value, &Value::Bytes(vec![1, 2, 3, 4])));
    assert!(same(&decode("40").value, &Value::Bytes(vec![])));
    assert!(same(&decode("60").value, &text("")));
}

#[test]
fn decodes_chunked_strings() {
    assert!(same(&decode("5f42010243030405ff").value, &Value::Bytes(vec![1, 2, 3, 4, 5])));
    assert!(same(&decode("7f657374726561646d696e67ff").value, &text("streaming")));
    assert!(same(&decode("5fff").value, &Value::Bytes(vec![])));
}

#[test]
fn chunk_of_another_major_type_is_rejected() {
    assert_eq!(failure("5f6161ff"), DecodeError::WrongChunkType { wanted: 2, found: 3 });
    assert_eq!(failure("7f4161ff"), DecodeError::WrongChunkType { wanted: 3, found: 2 });
    assert_eq!(failure("5f01ff"), DecodeError::WrongChunkType { wanted: 2, found: 0 });
    assert_eq!(failure("5ff6ff"), DecodeError::WrongChunkType { wanted: 2, found: 7 });
}

#[test]
fn chunk_of_indefinite_length_is_rejected() {
    assert_eq!(failure("5f5f4101ffff"), DecodeError::IndefiniteLengthNotAllowed);
    assert_eq!(failure("7f7f6161ffff"), DecodeError::IndefiniteLengthNotAllowed);
}

#[test]
fn invalid_utf8_fails_under_the_strict_policy() {
    assert_eq!(failure("62c328"), DecodeError::InvalidUtf8);
    assert_eq!(failure("7f62c328ff"), DecodeError::InvalidUtf8);
    assert_eq!(failure("62c328").kind(), DecodeErrorKind::Value);
}

#[test]
fn invalid_utf8_is_replaced_or_left_out_under_the_lenient_policies() {
    let replaced = loads(hex("6461ff6263"), "replace").expect("decodes");
    assert!(same(&replaced.value, &text("a\u{fffd}bc")));
    let ignored = loads(hex("6461ff6263"), "ignore").expect("decodes");
    assert!(same(&ignored.value, &text("abc")));
    let truncated = loads(hex("6361e282"), "replace").expect("decodes");
    assert!(same(&truncated.value, &text("a\u{fffd}")));
    let truncated = loads(hex("6361e282"), "ignore").expect("decodes");
    assert!(same(&truncated.value, &text("a")));
}

#[test]
fn unknown_policy_name_is_rejected() {
    assert!(matches!(loads(hex("00"), "lenient"), Err(LoadError::InvalidStrErrors)));
    assert!(matches!(loads(hex("00"), ""), Err(LoadError::InvalidStrErrors)));
}

#[test]
fn early_end_is_reported_as_such() {
    assert!(matches!(failure(""), DecodeError::PrematureEof { .. }));
    assert!(matches!(failure("18"), DecodeError::PrematureEof { .. }));
    assert!(matches!(failure("8301"), DecodeError::PrematureEof { .. }));
    assert!(matches!(failure("6461"), DecodeError::PrematureEof { .. }));
    assert!(matches!(failure("9f01"), DecodeError::PrematureEof { .. }));
    assert_eq!(failure("18").kind(), DecodeErrorKind::EndOfStream);
}

#[test]
fn length_subtypes_28_to_30_are_rejected() {
    assert_eq!(failure("1c"), DecodeError::UnknownLengthSubtype { subtype: 28 });
    assert_eq!(failure("5d"), DecodeError::UnknownLengthSubtype { subtype: 29 });
    assert_eq!(failure("9e"), DecodeError::UnknownLengthSubtype { subtype: 30 });
    assert_eq!(failure("1f"), DecodeError::IndefiniteLengthNotAllowed);
    assert_eq!(failure("3f"), DecodeError::IndefiniteLengthNotAllowed);
    assert_eq!(failure("df"), DecodeError::IndefiniteLengthNotAllowed);
}

#[test]
fn big_integers_come_from_tags_2_and_3() {
    // 2^64
    let decoded = decode("c249010000000000000000");
    assert!(same(&decoded.value, &Value::BigUnsigned(vec![1, 0, 0, 0, 0, 0, 0, 0, 0])));
    // -2^64 - 1
    let decoded = decode("c349010000000000000000");
    assert!(same(&decoded.value, &Value::BigNegative(vec![1, 0, 0, 0, 0, 0, 0, 0, 0])));
    // a small number in bytes is the small number
    let decoded = decode("c2420100");
    assert!(same(&decoded.value, &Value::Unsigned(256)));
    assert_eq!(failure("c201"), DecodeError::InvalidTagPayload { tag: 2 });
}

#[test]
fn unknown_tag_keeps_its_number_and_reads_its_content_as_immutable() {
    let decoded = decode("d903e7820102");
    let expected = Value::Tag(
        999,
        Box::new(Value::Tuple(vec![Value::Unsigned(1), Value::Unsigned(2)])),
    );
    assert!(same(&decoded.value, &expected));
}

#[test]
fn self_describe_tag_stands_for_its_content() {
    assert!(same(&decode("d9d9f700").value, &Value::Unsigned(0)));
}

#[test]
fn set_tag_makes_a_set_without_repetition() {
    let decoded = decode("d9010284010201 03");
    let expected =
        Value::MutableSet(vec![Value::Unsigned(1), Value::Unsigned(2), Value::Unsigned(3)]);
    assert!(same(&decoded.value, &expected));
    // as a map key the set is frozen
    let decoded = decode("a1 d90102820102 00");
    let expected = Value::Dict(vec![(
        Value::FrozenSet(vec![Value::Unsigned(1), Value::Unsigned(2)]),
        Value::Unsigned(0),
    )]);
    assert!(same(&decoded.value, &expected));
    assert_eq!(failure("d9010200"), DecodeError::InvalidTagPayload { tag: 258 });
}

#[test]
fn nesting_up_to_the_limit_succeeds_and_beyond_it_fails() {
    // [[[0]]] nests four items
    let bytes = hex("81818100");
    let ok = loads_with::<NoHook, NoHook>(bytes.clone(), None, None, "strict", 4);
    assert!(ok.is_ok());
    let too_deep = loads_with::<NoHook, NoHook>(bytes, None, None, "strict", 3);
    assert!(matches!(
        too_deep,
        Err(LoadError::Decode(DecodeError::RecursionLimit { max_depth: 3 }))
    ));
    let none = loads_with::<NoHook, NoHook>(hex("00"), None, None, "strict", 0);
    assert!(matches!(
        none,
        Err(LoadError::Decode(DecodeError::RecursionLimit { max_depth: 0 }))
    ));
    let one = loads_with::<NoHook, NoHook>(hex("00"), None, None, "strict", 1);
    assert!(one.is_ok());
}

#[test]
fn mutable_container_cannot_be_a_key() {
    // {28([1]): 0} read as key in immutable context gives a tuple; a reference to a
    // list is no key
    assert_eq!(failure("82 d81c8101 a1 d81d00 00"), DecodeError::UnhashableKey);
}

#[test]
fn only_the_first_item_is_read() {
    let decoded = decode("0102");
    assert!(same(&decoded.value, &Value::Unsigned(1)));
}
