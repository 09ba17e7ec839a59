use cbor2::api::load;
use cbor2::api::loads_with;
use cbor2::api::LoadError;
use cbor2::decoder::CBORDecoder;
use cbor2::decoder::NoHook;
use cbor2::decoder::ObjectHook;
use cbor2::decoder::SharedSlot;
use cbor2::decoder::TagHook;
use cbor2::encoder::CBOREncoder;
use cbor2::encoder::NoDefault;
use cbor2::errors::DecodeError;
use cbor2::errors::EncodeError;
use cbor2::reader::ByteSource;
use cbor2::reader::Reader;
use cbor2::reader::SliceSource;
use cbor2::text::StrErrors;
use cbor2::types::BreakMarkerType;
use cbor2::types::CBORSimpleValue;
use cbor2::types::CBORTag;
use cbor2::types::CompareOp;
use cbor2::types::FrozenDict;
use cbor2::types::UndefinedType;
use cbor2::value::Value;
use cbor2::writer::VecSink;
use cbor2::writer::Writer;
use cbor2::writer::MAX_BUFFER_SIZE;

#[test]
fn simple_value_rejects_reserved_range() {
    assert!(CBORSimpleValue::new(0).is_ok());
    assert!(CBORSimpleValue::new(23).is_ok());
    assert!(CBORSimpleValue::new(24).is_err());
    assert!(CBORSimpleValue::new(31).is_err());
    assert!(CBORSimpleValue::new(32).is_ok());
    assert!(CBORSimpleValue::new(255).is_ok());
    assert!(CBORSimpleValue::new(256).is_err());
    assert!(CBORSimpleValue::new(-1).is_err());
    assert_eq!(CBORSimpleValue::new(99).unwrap().value(), 99);
}

#[test]
fn simple_value_compares_by_number_and_prints_itself() {
    let a = CBORSimpleValue(3);
    let b = CBORSimpleValue(200);
    assert!(a.__richcmp__(&b, CompareOp::Lt));
    assert!(a.__richcmp__(&b, CompareOp::Le));
    assert!(a.__richcmp__(&b, CompareOp::Ne));
    assert!(!a.__richcmp__(&b, CompareOp::Eq));
    assert!(!a.__richcmp__(&b, CompareOp::Gt));
    assert!(b.__richcmp__(&a, CompareOp::Ge));
    assert!(a.__richcmp__(&a, CompareOp::Eq));
    assert_eq!(a.__repr__(), "CBORSimpleValue(3)");
    assert_eq!(b.__repr__(), "CBORSimpleValue(200)");
    assert_eq!(CBORSimpleValue(0).__repr__(), "CBORSimpleValue(0)");
    assert_eq!(a.__hash__(), CBORSimpleValue(3).__hash__());
    assert_ne!(a.__hash__(), b.__hash__());
}

#[test]
fn undefined_and_break_marker() {
    assert_eq!(UndefinedType.__repr__(), "undefined");
    assert!(!UndefinedType.__bool__());
    assert_eq!(BreakMarkerType.__repr__(), "break_marker");
    assert!(BreakMarkerType.__bool__());
}

#[test]
fn tag_number_must_be_a_natural_number_below_two_to_the_64() {
    let tag = CBORTag::new(&Value::Unsigned(5), Value::Null).unwrap();
    assert_eq!(tag.tag, 5);
    assert!(CBORTag::new(&Value::Unsigned(u64::MAX), Value::Null).is_ok());
    assert!(CBORTag::new(&Value::BigUnsigned(vec![0, 7]), Value::Null).is_ok());
    assert!(CBORTag::new(&Value::BigUnsigned(vec![1, 0, 0, 0, 0, 0, 0, 0, 0]), Value::Null).is_err());
    assert!(CBORTag::new(&Value::Negative(0), Value::Null).is_err());
    assert!(CBORTag::new(&Value::Text("5".to_string()), Value::Null).is_err());
    let a = CBORTag::new_internal(1, Value::Unsigned(2));
    let b = CBORTag::new_internal(1, Value::BigUnsigned(vec![2]));
    let c = CBORTag::new_internal(2, Value::Unsigned(2));
    assert!(a.equals(&b));
    assert!(!a.equals(&c));
    assert!(a.is_hashable());
    assert!(!CBORTag::new_internal(1, Value::Array(vec![])).is_hashable());
    assert!(a.into_value().equals(&Value::Tag(1, Box::new(Value::Unsigned(2)))));
}

#[test]
fn frozen_dict_behaves_as_a_mapping() {
    let d = FrozenDict::new(vec![
        (Value::Unsigned(1), Value::Text("a".to_string())),
        (Value::Unsigned(2), Value::Text("b".to_string())),
        (Value::Unsigned(1), Value::Text("c".to_string())),
    ]);
    assert_eq!(d.__len__(), 2);
    assert!(d.get(&Value::Unsigned(1)).unwrap().equals(&Value::Text("c".to_string())));
    assert!(d.get(&Value::Unsigned(3)).is_none());
    assert!(d.__contains__(&Value::Unsigned(2)));
    assert!(!d.__contains__(&Value::Unsigned(3)));
    assert!(d.__getitem__(&Value::Unsigned(2)).is_ok());
    assert!(d.__getitem__(&Value::Unsigned(9)).is_err());
    let keys = d.keys();
    assert_eq!(keys.len(), 2);
    assert!(keys[0].equals(&Value::Unsigned(1)) && keys[1].equals(&Value::Unsigned(2)));
    assert_eq!(d.__iter__().len(), 2);
    let values = d.values();
    assert!(values[0].equals(&Value::Text("c".to_string())));
    assert_eq!(d.items().len(), 2);
    let same = FrozenDict::new(vec![
        (Value::Unsigned(1), Value::Text("c".to_string())),
        (Value::Unsigned(2), Value::Text("b".to_string())),
    ]);
    assert!(d.__eq__(&same));
    let other = FrozenDict::new(vec![(Value::Unsigned(1), Value::Text("c".to_string()))]);
    assert!(!d.__eq__(&other));
    match d.into_value() {
        Value::FrozenDict(entries) => assert_eq!(entries.len(), 2),
        other => panic!("not a frozen map: {:?}", other),
    }
}

#[test]
fn values_compare_integers_by_their_number() {
    assert!(Value::Unsigned(256).equals(&Value::BigUnsigned(vec![1, 0])));
    assert!(Value::Unsigned(0).equals(&Value::BigUnsigned(vec![])));
    assert!(Value::Negative(5).equals(&Value::BigNegative(vec![0, 0, 5])));
    assert!(!Value::Unsigned(5).equals(&Value::Negative(5)));
    assert!(!Value::Array(vec![]).equals(&Value::Tuple(vec![])));
    assert!(!Value::Bytes(vec![97]).equals(&Value::Text("a".to_string())));
    assert!(Value::Float(1.0f64.to_bits()).equals(&Value::Float(1.0f64.to_bits())));
    let nested = Value::Dict(vec![(Value::Tuple(vec![Value::Null]), Value::Array(vec![Value::Bool(true)]))]);
    assert!(nested.equals(&nested.duplicate()));
    assert!(Value::Tuple(vec![Value::Unsigned(1)]).is_hashable());
    assert!(!Value::Tuple(vec![Value::Array(vec![])]).is_hashable());
    assert!(!Value::Shared(0).is_hashable());
    assert!(Value::Array(vec![]).is_mutable());
    assert!(!Value::Tuple(vec![]).is_mutable());
}

#[test]
fn policy_names() {
    assert_eq!(StrErrors::parse("strict"), Some(StrErrors::Strict));
    assert_eq!(StrErrors::parse("ignore"), Some(StrErrors::Ignore));
    assert_eq!(StrErrors::parse("replace"), Some(StrErrors::Replace));
    assert_eq!(StrErrors::parse("Strict"), None);
    let mut decoder: CBORDecoder<SliceSource, NoHook, NoHook> =
        CBORDecoder::new_internal(None, Some(vec![0]), None, None, "replace", 1, 10).unwrap();
    assert_eq!(decoder.str_errors(), "replace");
    assert!(decoder.set_str_errors("ignore").is_ok());
    assert_eq!(decoder.str_errors(), "ignore");
    assert!(decoder.set_str_errors("nothing").is_err());
    assert_eq!(decoder.str_errors(), "ignore");
    let bad: Result<CBORDecoder<SliceSource, NoHook, NoHook>, _> =
        CBORDecoder::new_internal(None, None, None, None, "nothing", 1, 10);
    assert!(bad.is_err());
}

#[test]
fn reader_serves_from_its_window_and_asks_the_source_for_more() {
    let data: Vec<u8> = (0..100).collect();
    let mut reader = Reader::from_source(SliceSource::new(data.clone()), 16);
    assert_eq!(reader.read(4).unwrap(), vec![0, 1, 2, 3]);
    // the source was asked for 16 bytes
    assert_eq!(reader.source.as_ref().unwrap().tell(), 16);
    assert_eq!(reader.available, 12);
    assert_eq!(reader.read(12).unwrap(), (4..16).collect::<Vec<u8>>());
    assert_eq!(reader.read(40).unwrap(), (16..56).collect::<Vec<u8>>());
    assert!(reader.read_position + reader.available <= reader.buffer.len());
    // part from the window, part from the source
    assert_eq!(reader.read(0).unwrap(), Vec::<u8>::new());
    let rest = reader.read(44).unwrap();
    assert_eq!(rest, (56..100).collect::<Vec<u8>>());
    match reader.read(1) {
        Err(DecodeError::PrematureEof { expected, received }) => {
            assert_eq!(expected, 1);
            assert_eq!(received, 0);
        },
        other => panic!("expected an early end, got {:?}", other),
    }
}

#[test]
fn reader_joins_window_and_source() {
    let data: Vec<u8> = (0..40).collect();
    let mut reader = Reader::from_source(SliceSource::new(data), 8);
    assert_eq!(reader.read(3).unwrap(), vec![0, 1, 2]);
    // five bytes are in the window, seven more are needed
    assert_eq!(reader.read(12).unwrap(), (3..15).collect::<Vec<u8>>());
    assert_eq!(reader.read(1).unwrap(), vec![15]);
}

#[test]
fn one_way_source_is_never_read_ahead() {
    let data: Vec<u8> = vec![0x83, 1, 2, 3, 0xff, 0xff];
    let mut decoder: CBORDecoder<SliceSource, NoHook, NoHook> =
        CBORDecoder::new(SliceSource::one_way(data), None, None, "strict", 4096, 10).unwrap();
    let value = decoder.decode().unwrap();
    assert!(value.equals(&Value::Array(vec![Value::Unsigned(1), Value::Unsigned(2), Value::Unsigned(3)])));
    assert_eq!(decoder.reader.source.as_ref().unwrap().tell(), 4);
    assert_eq!(decoder.reader.available, 0);
}

#[test]
fn source_that_can_step_back_is_left_behind_the_item() {
    let data: Vec<u8> = vec![0x83, 1, 2, 3, 0x18, 0x2a, 0xf6];
    let mut decoder: CBORDecoder<SliceSource, NoHook, NoHook> =
        CBORDecoder::new(SliceSource::new(data), None, None, "strict", 4096, 10).unwrap();
    assert!(decoder.decode().is_ok());
    assert_eq!(decoder.reader.source.as_ref().unwrap().tell(), 4);
    assert_eq!(decoder.reader.available, 0);
    assert!(decoder.decode().unwrap().equals(&Value::Unsigned(42)));
    assert_eq!(decoder.reader.source.as_ref().unwrap().tell(), 6);
    assert!(decoder.decode().unwrap().equals(&Value::Null));
    assert!(matches!(decoder.decode(), Err(DecodeError::PrematureEof { .. })));
}

#[test]
fn load_hands_the_source_back() {
    let data: Vec<u8> = vec![0x61, 0x61, 0x01];
    let (decoded, source) =
        load::<SliceSource, NoHook, NoHook>(SliceSource::new(data), None, None, "strict").unwrap();
    assert!(decoded.value.equals(&Value::Text("a".to_string())));
    let mut source = source.unwrap();
    assert_eq!(source.tell(), 2);
    assert_eq!(source.read(5), vec![1]);
    let bad = load::<SliceSource, NoHook, NoHook>(SliceSource::new(vec![0]), None, None, "none");
    assert!(matches!(bad, Err(LoadError::InvalidStrErrors)));
}

#[test]
fn decode_from_bytes_leaves_the_stream_alone() {
    let mut decoder: CBORDecoder<SliceSource, NoHook, NoHook> =
        CBORDecoder::new_internal(None, Some(vec![0x01, 0x02]), None, None, "strict", 1, 10).unwrap();
    assert!(decoder.decode().unwrap().equals(&Value::Unsigned(1)));
    assert!(decoder.decode_from_bytes(vec![0x63, 0x61, 0x62, 0x63]).unwrap().equals(&Value::Text("abc".to_string())));
    assert!(decoder.decode().unwrap().equals(&Value::Unsigned(2)));
    assert_eq!(decoder.read(1).is_err(), true);
}

#[test]
fn set_shareable_fills_the_waiting_slot() {
    let mut decoder: CBORDecoder<SliceSource, NoHook, NoHook> =
        CBORDecoder::new_internal(None, Some(vec![]), None, None, "strict", 1, 10).unwrap();
    decoder.shareables.push(SharedSlot::Pending);
    decoder.share_index = Some(0);
    let back = decoder.set_shareable(Value::Unsigned(7));
    assert!(back.equals(&Value::Unsigned(7)));
    assert!(decoder.share_index.is_none());
    assert!(matches!(&decoder.shareables[0], SharedSlot::Filled(v) if v.equals(&Value::Unsigned(7))));
    let again = decoder.set_shareable(Value::Null);
    assert!(again.equals(&Value::Null));
    assert!(matches!(&decoder.shareables[0], SharedSlot::Filled(v) if v.equals(&Value::Unsigned(7))));
}

struct Doubler;

impl TagHook for Doubler {
    fn call(&mut self, tag: u64, value: Value) -> Result<Value, DecodeError> {
        match value {
            Value::Unsigned(n) if tag == 4000 => Ok(Value::Unsigned(2 * n)),
            _ => Err(DecodeError::TagHookFailed),
        }
    }
}

struct Counter;

impl ObjectHook for Counter {
    fn call(&mut self, entries: Vec<(Value, Value)>) -> Result<Value, DecodeError> {
        if entries.is_empty() {
            Err(DecodeError::InvalidUtf8)
        } else {
            Ok(Value::Unsigned(entries.len() as u64))
        }
    }
}

#[test]
fn tag_hook_replaces_unknown_tags() {
    // [4000(21), 2(h'0100')]: the big integer is no business of the hook
    let data = vec![0x82, 0xd9, 0x0f, 0xa0, 0x15, 0xc2, 0x42, 0x01, 0x00];
    let decoded = loads_with::<Doubler, NoHook>(data, Some(Doubler), None, "strict", 10).unwrap();
    assert!(decoded.value.equals(&Value::Array(vec![Value::Unsigned(42), Value::Unsigned(256)])));
    let failing = loads_with::<Doubler, NoHook>(vec![0xd9, 0x0f, 0xa1, 0x15], Some(Doubler), None, "strict", 10);
    assert!(matches!(failing, Err(LoadError::Decode(DecodeError::TagHookFailed))));
}

#[test]
fn object_hook_replaces_maps() {
    // {1: {2: 3, 4: 5}}
    let data = vec![0xa1, 0x01, 0xa2, 0x02, 0x03, 0x04, 0x05];
    let decoded = loads_with::<NoHook, Counter>(data, None, Some(Counter), "strict", 10).unwrap();
    assert!(decoded.value.equals(&Value::Unsigned(1)));
    let failing = loads_with::<NoHook, Counter>(vec![0xa0], None, Some(Counter), "strict", 10);
    assert!(matches!(failing, Err(LoadError::Decode(DecodeError::ObjectHookFailed))));
}

#[test]
fn writer_hands_the_buffer_over_at_the_high_water_mark() {
    let mut writer = Writer::to_sink(VecSink::new());
    writer.write(&vec![7u8; MAX_BUFFER_SIZE - 1]);
    assert_eq!(writer.sink.as_ref().unwrap().writes(), 0);
    assert_eq!(writer.buffer.len(), MAX_BUFFER_SIZE - 1);
    writer.write_byte(8);
    assert_eq!(writer.sink.as_ref().unwrap().writes(), 1);
    assert_eq!(writer.sink.as_ref().unwrap().data.len(), MAX_BUFFER_SIZE);
    assert!(writer.buffer.is_empty());
    writer.write(&[1, 2, 3]);
    assert_eq!(writer.sink.as_ref().unwrap().writes(), 1);
    writer.flush();
    assert_eq!(writer.sink.as_ref().unwrap().writes(), 2);
    assert_eq!(writer.sink.as_ref().unwrap().data.len(), MAX_BUFFER_SIZE + 3);
    let mut memory: Writer<VecSink> = Writer::to_memory();
    memory.write(&vec![0u8; 2 * MAX_BUFFER_SIZE]);
    memory.flush();
    assert_eq!(memory.buffer.len(), 2 * MAX_BUFFER_SIZE);
}

#[test]
fn encoder_flushes_at_the_end_of_every_document() {
    let mut encoder: CBOREncoder<VecSink, NoDefault> =
        CBOREncoder::new(VecSink::new(), false, false, false, None, false, false, false, false);
    encoder.encode(&vec![], &Value::Unsigned(1)).unwrap();
    assert_eq!(encoder.writer.sink.as_ref().unwrap().data, vec![1]);
    assert!(encoder.writer.buffer.is_empty());
    encoder.encode(&vec![], &Value::Array(vec![Value::Unsigned(2)])).unwrap();
    assert_eq!(encoder.writer.sink.as_ref().unwrap().data, vec![1, 0x81, 2]);
    assert_eq!(encoder.write(&[9, 9]), Ok(()));
    assert_eq!(encoder.writer.sink.as_ref().unwrap().data, vec![1, 0x81, 2, 9, 9]);
    let key = encoder.encode_sortable_key(&vec![], &Value::Text("abc".to_string())).unwrap();
    assert_eq!(key, vec![0x63, b'a', b'b', b'c']);
    let bytes = encoder.encode_to_bytes(&vec![], &Value::Unsigned(300)).unwrap();
    assert_eq!(bytes, vec![0x19, 0x01, 0x2c]);
    assert_eq!(encoder.writer.sink.as_ref().unwrap().data, vec![1, 0x81, 2, 9, 9]);
    let mut memory: CBOREncoder<VecSink, NoDefault> =
        CBOREncoder::new_internal(None, false, false, false, None, false, false, false, false);
    assert_eq!(memory.write(&[1]), Err(EncodeError::WriteFailed));
    memory.encode(&vec![], &Value::Null).unwrap();
    assert_eq!(memory.writer.buffer, vec![0xf6]);
}

#[test]
fn string_references_are_forgotten_between_documents() {
    let mut encoder: CBOREncoder<VecSink, NoDefault> =
        CBOREncoder::new_internal(None, false, false, false, None, false, false, true, false);
    let word = Value::Text("again".to_string());
    encoder.encode(&vec![], &word).unwrap();
    encoder.encode(&vec![], &word).unwrap();
    assert_eq!(encoder.writer.buffer, vec![0x65, b'a', b'g', b'a', b'i', b'n', 0x65, b'a', b'g', b'a', b'i', b'n']);
}

struct Trickle {
    data: Vec<u8>,
    at: usize,
    reads: usize,
}

impl ByteSource for Trickle {
    fn read(&mut self, amount: usize) -> Vec<u8> {
        self.reads += 1;
        let end = (self.at + amount).min(self.data.len());
        let out = self.data[self.at..end].to_vec();
        self.at = end;
        out
    }

    fn seekable(&self) -> bool {
        false
    }

    fn unread(&mut self, count: usize) {
        self.at -= count;
    }
}

struct Tally {
    total: usize,
}

impl cbor2::writer::ByteSink for Tally {
    fn write(&mut self, data: &[u8]) {
        self.total += data.len();
    }
}

#[test]
fn sources_and_sinks_of_the_caller_are_taken() {
    let source = Trickle { data: vec![0x82, 0x01, 0x61, 0x62, 0x00], at: 0, reads: 0 };
    let mut decoder: CBORDecoder<Trickle, NoHook, NoHook> =
        CBORDecoder::new(source, None, None, "strict", 4096, 10).unwrap();
    let value = decoder.decode().unwrap();
    assert!(value.equals(&Value::Array(vec![Value::Unsigned(1), Value::Text("b".to_string())])));
    let source = decoder.reader.source.as_ref().unwrap();
    assert_eq!(source.at, 4);
    assert!(source.reads >= 4);
    let mut encoder: CBOREncoder<Tally, NoDefault> =
        CBOREncoder::new(Tally { total: 0 }, false, false, false, None, false, false, false, false);
    encoder.encode(&vec![], &Value::Bytes(vec![0; 10000])).unwrap();
    assert_eq!(encoder.writer.sink.as_ref().unwrap().total, 10003);
}

struct Never;

impl TagHook for Never {
    fn call(&mut self, tag: u64, _value: Value) -> Result<Value, DecodeError> {
        panic!("tag {} is none of the hook's", tag)
    }
}

impl ObjectHook for Never {
    fn call(&mut self, _entries: Vec<(Value, Value)>) -> Result<Value, DecodeError> {
        panic!("no map was read")
    }
}

impl cbor2::encoder::DefaultHook for Never {
    fn call(&mut self, kind: &String) -> Result<Vec<u8>, EncodeError> {
        panic!("{} has an encoding", kind)
    }
}

#[test]
fn hooks_are_left_alone_where_nothing_is_theirs() {
    // [1, "a", 2(h'0100'), 55799([29])] with both hooks waiting
    let data = vec![0x84, 0x01, 0x61, 0x61, 0xc2, 0x42, 0x01, 0x00, 0xd9, 0xd9, 0xf7, 0x81, 0x18, 0x1d];
    let decoded = loads_with::<Never, Never>(data, Some(Never), Some(Never), "strict", 10).unwrap();
    let expected = Value::Array(vec![
        Value::Unsigned(1),
        Value::Text("a".to_string()),
        Value::Unsigned(256),
        Value::Array(vec![Value::Unsigned(29)]),
    ]);
    assert_eq!(decoded.shared.len(), 0);
    assert!(decoded.value.equals(&expected));
}

#[test]
fn failure_before_a_hook_is_called_is_the_decoders_own() {
    // 4000( and nothing behind it
    let cut_tag = loads_with::<Never, Never>(vec![0xd9, 0x0f, 0xa0], Some(Never), Some(Never), "strict", 10);
    assert!(matches!(cut_tag, Err(LoadError::Decode(DecodeError::PrematureEof { .. }))));
    // {1: and nothing behind it
    let cut_map = loads_with::<Never, Never>(vec![0xa1, 0x01], Some(Never), Some(Never), "strict", 10);
    assert!(matches!(cut_map, Err(LoadError::Decode(DecodeError::PrematureEof { .. }))));
    // {1: 24(...)} with a reserved simple value in it
    let reserved = loads_with::<Never, Never>(vec![0xa1, 0x01, 0xf8, 0x18], Some(Never), Some(Never), "strict", 10);
    assert!(matches!(reserved, Err(LoadError::Decode(DecodeError::ReservedSimpleValue { .. }))));
}

#[test]
fn fallback_is_left_alone_where_every_value_has_an_encoding() {
    let value = Value::Array(vec![
        Value::Unsigned(1),
        Value::Text("a".to_string()),
        Value::Dict(vec![(Value::Negative(0), Value::Null)]),
    ]);
    let (result, sink) = cbor2::api::dump(
        &value,
        &vec![],
        VecSink::new(),
        false,
        false,
        false,
        Some(Never),
        true,
        false,
        false,
        false,
    );
    assert_eq!(result, Ok(()));
    assert_eq!(sink.unwrap().data, vec![0x83, 0x01, 0x61, 0x61, 0xa1, 0x20, 0xf6]);
}
