use cbor2::api::dump;
use cbor2::decoder::CBORDecoder;
use cbor2::decoder::NoHook;
use cbor2::decoder::SharedSlot;
use cbor2::encoder::CBOREncoder;
use cbor2::encoder::NoDefault;
use cbor2::errors::DecodeError;
use cbor2::errors::EncodeError;
use cbor2::reader::SliceSource;
use cbor2::value::Value;
use cbor2::writer::VecSink;

fn decoder_over(data: Vec<u8>, max_depth: usize) -> CBORDecoder<SliceSource, NoHook, NoHook> {
    CBORDecoder::new_internal(None, Some(data), None, None, "strict", 4096, max_depth).unwrap()
}

fn clean(decoder: &CBORDecoder<SliceSource, NoHook, NoHook>) -> bool {
    decoder.decode_depth == 0
        && decoder.shareables.is_empty()
        && decoder.share_index.is_none()
        && decoder.stringref_namespace.is_none()
        && !decoder.immutable
}

#[test]
fn text_chunk_in_a_byte_string_fails_and_leaves_the_decoder_clean() {
    let mut decoder = decoder_over(vec![0x5f, 0x61, 0x61, 0xff], 10);
    let r = decoder.decode();
    assert!(matches!(r, Err(DecodeError::WrongChunkType { wanted: 2, found: 3 })));
    assert!(clean(&decoder));
}

#[test]
fn failed_byte_string_adds_nothing_to_the_namespace() {
    let mut decoder = decoder_over(vec![0x61, 0x61, 0xff], 10);
    decoder.stringref_namespace = Some(vec![Value::Text("kept".to_string())]);
    decoder.decode_depth = 1;
    let r = decoder.decode_bytestring(31);
    assert!(matches!(r, Err(DecodeError::WrongChunkType { .. })));
    let names = decoder.stringref_namespace.as_ref().unwrap();
    assert_eq!(names.len(), 1);
    assert!(names[0].equals(&Value::Text("kept".to_string())));
    assert_eq!(decoder.decode_depth, 1);
}

#[test]
fn invalid_text_fails_and_leaves_the_namespace_alone() {
    let mut decoder = decoder_over(vec![0xc3, 0x28], 10);
    decoder.stringref_namespace = Some(vec![]);
    decoder.decode_depth = 1;
    let r = decoder.decode_string(2);
    assert!(matches!(r, Err(DecodeError::InvalidUtf8)));
    assert_eq!(decoder.stringref_namespace.as_ref().unwrap().len(), 0);
}

#[test]
fn failure_deep_inside_leaves_the_decoder_as_a_new_one() {
    // 256([28([1]), {[2]: _5f 61 ..}]) fails in a key, inside a namespace,
    // behind a shared value
    let data = vec![0xd9, 0x01, 0x00, 0x82, 0xd8, 0x1c, 0x81, 0x01, 0xa1, 0x81, 0x5f, 0x61, 0x61, 0xff];
    let mut decoder = decoder_over(data, 10);
    assert!(decoder.decode().is_err());
    assert!(clean(&decoder));
    // a reference finds nothing of the failed item
    let r = decoder.decode_from_bytes(vec![0xd8, 0x1d, 0x00]);
    assert!(matches!(r, Err(DecodeError::SharedReferenceNotFound { .. })));
    assert!(clean(&decoder));
    // and the depth limit counts from 0 again
    let mut shallow = decoder_over(vec![0x5f, 0x61, 0x61, 0xff], 2);
    assert!(shallow.decode().is_err());
    let nested = shallow.decode_from_bytes(vec![0x81, 0x00]).unwrap();
    assert!(nested.equals(&Value::Array(vec![Value::Unsigned(0)])));
    assert!(shallow.decode_from_bytes(vec![0x81, 0x81, 0x00]).is_err());
}

#[test]
fn failure_at_the_depth_limit_leaves_the_depth_alone() {
    let mut decoder = decoder_over(vec![0x81, 0x81, 0x00], 2);
    assert!(matches!(decoder.decode(), Err(DecodeError::RecursionLimit { .. })));
    assert!(clean(&decoder));
}

#[test]
fn source_is_not_stepped_back_after_a_failure() {
    // 1c is a reserved length; the two bytes behind it were read ahead
    let source = SliceSource::new(vec![0x1c, 0x00, 0x00]);
    let mut decoder: CBORDecoder<SliceSource, NoHook, NoHook> =
        CBORDecoder::new(source, None, None, "strict", 4096, 10).unwrap();
    assert!(decoder.decode().is_err());
    assert_eq!(decoder.reader.source.as_ref().unwrap().tell(), 3);
    // after a success it is
    let source = SliceSource::new(vec![0x01, 0x00, 0x00]);
    let mut decoder: CBORDecoder<SliceSource, NoHook, NoHook> =
        CBORDecoder::new(source, None, None, "strict", 4096, 10).unwrap();
    assert!(decoder.decode().is_ok());
    assert_eq!(decoder.reader.source.as_ref().unwrap().tell(), 1);
}

fn encoder(value_sharing: bool, string_referencing: bool) -> CBOREncoder<VecSink, NoDefault> {
    CBOREncoder::new_internal(
        None,
        false,
        false,
        value_sharing,
        None,
        false,
        false,
        string_referencing,
        false,
    )
}

#[test]
fn value_without_encoding_names_its_type_and_writes_nothing() {
    let mut e = encoder(false, false);
    e.encode_depth = 1;
    let r = e.encode_value(&vec![], &Value::Foreign("Widget".to_string()));
    assert_eq!(r, Err(EncodeError::UnsupportedType { name: "Widget".to_string() }));
    assert!(e.writer.buffer.is_empty());
    let (r, sink) = dump::<VecSink, NoDefault>(
        &Value::Foreign("Gadget".to_string()),
        &vec![],
        VecSink::new(),
        false,
        false,
        false,
        None,
        false,
        false,
        false,
        false,
    );
    assert_eq!(r, Err(EncodeError::UnsupportedType { name: "Gadget".to_string() }));
    let sink = sink.unwrap();
    assert!(sink.data.is_empty());
    assert_eq!(sink.writes(), 0);
}

#[test]
fn cycle_fails_and_the_list_is_no_longer_marked() {
    let heap = vec![SharedSlot::Filled(Value::Array(vec![Value::Shared(0)]))];
    let mut e = encoder(false, false);
    let r = e.encode(&heap, &Value::Shared(0));
    assert_eq!(r, Err(EncodeError::CyclicStructure));
    assert!(e.marks.is_empty());
    assert_eq!(e.encode_depth, 0);
    // what was written before the cycle was found holds neither tag 28 nor tag 29
    assert_eq!(e.writer.buffer, vec![0x81]);
}

#[test]
fn cycle_through_a_second_list_unmarks_both() {
    // slot 0 = [slot 1], slot 1 = [slot 0]
    let heap = vec![
        SharedSlot::Filled(Value::Array(vec![Value::Shared(1)])),
        SharedSlot::Filled(Value::Array(vec![Value::Shared(0)])),
    ];
    let mut e = encoder(false, false);
    e.encode_depth = 1;
    e.marks = vec![cbor2::encoder::ShareMark::Unseen, cbor2::encoder::ShareMark::Unseen];
    let r = e.encode_shared(&heap, 0);
    assert_eq!(r, Err(EncodeError::CyclicStructure));
    assert!(e.marks.iter().all(|m| matches!(m, cbor2::encoder::ShareMark::Unseen)));
}

#[test]
fn failed_document_leaves_clean_registries_for_the_next() {
    let mut e = encoder(true, true);
    let heap = vec![SharedSlot::Filled(Value::Array(vec![Value::Unsigned(1)]))];
    let bad = Value::Tuple(vec![
        Value::Text("abcdef".to_string()),
        Value::Shared(0),
        Value::Foreign("Widget".to_string()),
    ]);
    assert!(e.encode(&heap, &bad).is_err());
    assert!(e.marks.is_empty());
    assert!(e.strings.is_empty());
    assert_eq!(e.next_index, 0);
    assert_eq!(e.encode_depth, 0);
    assert!(e.string_referencing);
    assert!(e.string_namespacing);
    // the next document is written as by a new encoder
    let written = e.writer.buffer.len();
    let good = Value::Tuple(vec![Value::Text("abcdef".to_string()), Value::Shared(0)]);
    assert_eq!(e.encode(&heap, &good), Ok(()));
    let mut fresh = encoder(true, true);
    assert_eq!(fresh.encode(&heap, &good), Ok(()));
    assert_eq!(e.writer.buffer[written..], fresh.writer.buffer[..]);
}
