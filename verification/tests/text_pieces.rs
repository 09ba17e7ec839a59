use cbor2::dispatch::choose_kind;
use cbor2::dispatch::Kind;
use cbor2::iso_text::find_char;
use cbor2::iso_text::find_digits_end;
use cbor2::iso_text::legacy_iso_text;
use cbor2::iso_text::microseconds_text;
use cbor2::iso_text::offset_text;
use cbor2::text::decode_lenient;
use cbor2::text::lenient_piece;

#[test]
fn one_scan_gives_the_valid_front_and_the_mark() {
    let mut out = String::from(">");
    let next = lenient_piece(b"a\xffb", true, 1, Some(1), &mut out);
    assert_eq!(out, ">a\u{FFFD}");
    assert_eq!(next, Some(2));
    let mut out = String::new();
    let next = lenient_piece(b"a\xffb", false, 1, Some(1), &mut out);
    assert_eq!(out, "a");
    assert_eq!(next, Some(2));
}

#[test]
fn scan_of_valid_bytes_gives_all_of_them_and_ends() {
    let mut out = String::new();
    assert_eq!(lenient_piece("h\u{e9}".as_bytes(), true, 3, None, &mut out), None);
    assert_eq!(out, "h\u{e9}");
}

#[test]
fn scan_that_ends_inside_a_character_ends_the_text() {
    let mut out = String::new();
    assert_eq!(lenient_piece(b"ab\xe2\x82", true, 2, None, &mut out), None);
    assert_eq!(out, "ab\u{FFFD}");
    let mut out = String::new();
    assert_eq!(lenient_piece(b"ab\xe2\x82", false, 2, None, &mut out), None);
    assert_eq!(out, "ab");
}

#[test]
fn invalid_sequence_that_leaves_the_input_ends_the_text() {
    let mut out = String::new();
    assert_eq!(lenient_piece(b"ab\xff", true, 2, Some(3), &mut out), None);
    assert_eq!(out, "ab\u{FFFD}");
    let mut out = String::new();
    assert_eq!(lenient_piece(b"ab\xff", true, 2, Some(0), &mut out), None);
    assert_eq!(out, "ab\u{FFFD}");
}

#[test]
fn lenient_decoding_goes_scan_by_scan() {
    assert_eq!(decode_lenient(b"a\xffb\xc3(c\xe2\x82", true), "a\u{FFFD}b\u{FFFD}(c\u{FFFD}");
    assert_eq!(decode_lenient(b"a\xffb\xc3(c\xe2\x82", false), "ab(c");
    assert_eq!(decode_lenient(b"", true), "");
}

#[test]
fn first_z_becomes_an_offset() {
    assert_eq!(offset_text("2013-03-21T20:04:00Z"), "2013-03-21T20:04:00+00:00");
    assert_eq!(offset_text("ZZ"), "+00:00Z");
    assert_eq!(offset_text("2013-03-21T20:04:00+01:00"), "2013-03-21T20:04:00+01:00");
    assert_eq!(offset_text(""), "");
}

#[test]
fn fraction_of_the_second_gets_six_digits() {
    assert_eq!(microseconds_text("20:04:00.38+00:00"), "20:04:00.380000+00:00");
    assert_eq!(microseconds_text("20:04:00.1234567+01:00"), "20:04:00.123456+01:00");
    assert_eq!(microseconds_text("20:04:00.123456-05:00"), "20:04:00.123456-05:00");
    assert_eq!(microseconds_text("20:04:00.+01:00"), "20:04:00.000000+01:00");
}

#[test]
fn fraction_with_nothing_behind_it_stays() {
    assert_eq!(microseconds_text("20:04:00.38"), "20:04:00.38");
    assert_eq!(microseconds_text("20:04:00"), "20:04:00");
    assert_eq!(microseconds_text("20:04:00."), "20:04:00.");
}

#[test]
fn legacy_text_has_offset_and_microseconds() {
    assert_eq!(legacy_iso_text("2013-03-21T20:04:00.38Z"), "2013-03-21T20:04:00.380000+00:00");
    assert_eq!(legacy_iso_text("2013-03-21T20:04:00Z"), "2013-03-21T20:04:00+00:00");
    assert_eq!(legacy_iso_text("2013-03-21T22:04:00.5+02:00"), "2013-03-21T22:04:00.500000+02:00");
    assert_eq!(legacy_iso_text("2013-03-21"), "2013-03-21");
}

#[test]
fn places_in_a_text() {
    assert_eq!(find_char("a.b.c", '.', 0), 1);
    assert_eq!(find_char("a.b.c", '.', 2), 3);
    assert_eq!(find_char("abc", '.', 0), 3);
    assert_eq!(find_digits_end("12ab", 0), 2);
    assert_eq!(find_digits_end("12ab", 2), 2);
    assert_eq!(find_digits_end("12", 0), 2);
}

#[test]
fn first_kind_that_fits_is_chosen() {
    let mut fits = vec![false; 16];
    assert_eq!(choose_kind(&fits), Kind::Other);
    // a truth value is an integer too
    fits[3] = true;
    assert_eq!(choose_kind(&fits), Kind::Integer);
    fits[2] = true;
    assert_eq!(choose_kind(&fits), Kind::Bool);
    // text is a sequence too
    let mut fits = vec![false; 16];
    fits[11] = true;
    assert_eq!(choose_kind(&fits), Kind::Sequence);
    fits[1] = true;
    assert_eq!(choose_kind(&fits), Kind::Text);
    fits[0] = true;
    assert_eq!(choose_kind(&fits), Kind::Bytes);
    assert_eq!(choose_kind(&vec![]), Kind::Other);
    assert_eq!(choose_kind(&vec![false, false]), Kind::Other);
    let mut fits = vec![false; 16];
    fits[15] = true;
    assert_eq!(choose_kind(&fits), Kind::Tag);
}
