use nmea_parse::generated::is_talker_id;
use nmea_parse::generated::NmeaGllMessage;
use nmea_parse::generated::NmeaMessages;
use nmea_parse::get_message_body;
use nmea_parse::hex_chars_to_u8;
use nmea_parse::messages::AddrField;
use nmea_parse::messages::Decimal;
use nmea_parse::messages::FromSlice;
use nmea_parse::messages::MessageFields;
use nmea_parse::messages::MessagesMap;
use nmea_parse::nmea_parser::FieldParseHandler;
use nmea_parse::NmeaError;

fn new_handler() -> FieldParseHandler {
    let mut msgs_map = MessagesMap::new();
    msgs_map.add_all_messages();
    FieldParseHandler::new(msgs_map)
}

#[test]
fn consume_amt_test() {
    let buf = "$GPGLL,3751.65,S,14507.36,E*77".as_bytes();
    let r = get_message_body(buf, &mut new_handler()).unwrap();
    assert_eq!(buf.len(), r.0);
}

#[test]
fn consume_amt_crlf_test() {
    let buf = "$GPGLL,3751.65,S,14507.36,E*77\r\n".as_bytes();
    let r = get_message_body(buf, &mut new_handler()).unwrap();
    assert_eq!(buf.len(), r.0);
}

#[test]
fn consume_amt_lf_test() {
    let buf = "$GPGLL,3751.65,S,14507.36,E*77\n".as_bytes();
    let r = get_message_body(buf, &mut new_handler()).unwrap();
    assert_eq!(buf.len(), r.0);
}

#[test]
fn consume_2_lines_amt_test() {
    let s = format!("$GPGLL,3751.65,S,14507.36,E*77\n$GPRMC,87,E*4B");
    let buf = s.as_bytes();
    let r1 = get_message_body(buf, &mut new_handler()).unwrap();
    let r2 = get_message_body(&buf[r1.0..], &mut new_handler()).unwrap();
    assert_eq!(buf.len(), r1.0 + r2.0);
}

#[test]
fn incorrect_prefix() {
    let mut h = new_handler();
    let r = get_message_body("ups***KJHASDKJHASDLkjkljasd".as_bytes(), &mut h);
    assert_eq!(r.unwrap_err(), NmeaError::FramingError);
    // Rejected before any checksum or dispatch work: nothing was recorded.
    assert!(h.completed.is_empty());
    assert!(h.errors.is_empty());
}

#[test]
fn empty_valid_nmea() {
    let m = get_message_body("$GPRMC,,*4B".as_bytes(), &mut new_handler()).unwrap().1;
    assert_eq!(m.addr_field, "GPRMC".as_bytes());
    assert!(m.crc_ok);
}

#[test]
fn simple_valid_nmea() {
    let m = get_message_body("$GPGLL,3751.65,S,14507.36,E*77".as_bytes(), &mut new_handler())
        .unwrap()
        .1;
    assert_eq!(m.addr_field, "GPGLL".as_bytes());
    assert!(m.crc_ok);
}

#[test]
fn simple_valid_nmea_without_crc() {
    let m = get_message_body("$GPGLL,3751.65,S,14507.36,E*".as_bytes(), &mut new_handler())
        .unwrap()
        .1;
    assert!(!m.crc_ok);
}

#[test]
fn hex_to_char_72() {
    let v = hex_chars_to_u8("72".as_bytes()).unwrap();
    assert_eq!(v, 0x72)
}

#[test]
fn hex_to_char_fa() {
    let v = hex_chars_to_u8("FA".as_bytes()).unwrap();
    assert_eq!(v, 0xFA)
}

#[test]
fn hex_to_char_6c() {
    let v = hex_chars_to_u8("6C".as_bytes()).unwrap();
    assert_eq!(v, 0x6C)
}

#[test]
fn hex_rejects_lowercase_and_garbage() {
    assert_eq!(hex_chars_to_u8("7a".as_bytes()).unwrap_err(), NmeaError::ChecksumFormatError);
    assert_eq!(hex_chars_to_u8("G1".as_bytes()).unwrap_err(), NmeaError::ChecksumFormatError);
}

#[test]
fn too_short_buffer_rejected() {
    let r = get_message_body("$GPGLL,1*".as_bytes(), &mut new_handler());
    assert_eq!(r.unwrap_err(), NmeaError::FramingError);
}

#[test]
fn address_without_comma_rejected() {
    let r = get_message_body("$GPGLLGPGLLGPGLL".as_bytes(), &mut new_handler());
    assert_eq!(r.unwrap_err(), NmeaError::FramingError);
}

#[test]
fn checksum_format_error_on_bad_hex() {
    let r = get_message_body("$GPGLL,1234,N*ZZ".as_bytes(), &mut new_handler());
    assert_eq!(r.unwrap_err(), NmeaError::ChecksumFormatError);
}

#[test]
fn one_checksum_byte_is_no_checksum() {
    let m = get_message_body("$GPGLL,3751.65,S,14507.36,E*7".as_bytes(), &mut new_handler())
        .unwrap()
        .1;
    assert!(!m.crc_ok);
}

#[test]
fn checksum_mismatch_is_flag_not_error() {
    let m = get_message_body("$GPGLL,3751.65,S,14507.36,E*78".as_bytes(), &mut new_handler())
        .unwrap()
        .1;
    assert!(!m.crc_ok);
}

#[test]
fn fields_blob_spans_address_comma_to_break() {
    let m = get_message_body("$GPGLL,3751.65,S,14507.36,E*77".as_bytes(), &mut new_handler())
        .unwrap()
        .1;
    assert_eq!(m.fields, "3751.65,S,14507.36,E".as_bytes());
}

#[test]
fn address_gpgll_splits_to_talker_and_sentence() {
    let a = AddrField::new("GPGLL".as_bytes());
    assert_eq!(a.talker_id, "GP".as_bytes());
    assert_eq!(a.data, "GLL".as_bytes());
}

#[test]
fn unrecognized_prefix_keeps_full_token() {
    let a = AddrField::new("XXGLL".as_bytes());
    assert_eq!(a.talker_id, "".as_bytes());
    assert_eq!(a.data, "XXGLL".as_bytes());
}

#[test]
fn short_token_keeps_full_token() {
    let a = AddrField::new("GLL".as_bytes());
    assert_eq!(a.talker_id, "".as_bytes());
    assert_eq!(a.data, "GLL".as_bytes());
}

#[test]
fn talker_table_membership() {
    assert!(is_talker_id("GP".as_bytes()));
    assert!(is_talker_id("GN".as_bytes()));
    assert!(is_talker_id("WI".as_bytes()));
    assert!(!is_talker_id("XX".as_bytes()));
}

#[test]
fn completion_fires_once_with_fields_applied() {
    let mut h = new_handler();
    let buf = "$GPGLL,3751.65,S,14507.36,E*77".as_bytes();
    get_message_body(buf, &mut h).unwrap();
    assert_eq!(h.completed.len(), 1);
    assert!(h.errors.is_empty());
    let (tag, gll) = h.completed[0];
    assert!(matches!(tag, NmeaMessages::GLL));
    assert_eq!(gll.lat, Some(Decimal { neg: false, mantissa: 375165, scale: 2 }));
    assert_eq!(gll.lat_dir, Some(b'S'));
    assert_eq!(gll.lon, Some(Decimal { neg: false, mantissa: 1450736, scale: 2 }));
    assert_eq!(gll.lon_dir, Some(b'E'));
}

#[test]
fn no_completion_before_last_field() {
    let mut h = new_handler();
    get_message_body("$GPGLL,3751.65,N*".as_bytes(), &mut h).unwrap();
    assert_eq!(h.completed.len(), 0);
    assert!(h.errors.is_empty());
}

#[test]
fn completion_fires_per_sentence() {
    let mut h = new_handler();
    let s = "$GPGLL,1.5,N,2.5,E*\n$GPGLL,3.5,S,4.5,W*\n";
    let buf = s.as_bytes();
    let r1 = get_message_body(buf, &mut h).unwrap();
    get_message_body(&buf[r1.0..], &mut h).unwrap();
    assert_eq!(h.completed.len(), 2);
    assert_eq!(h.completed[1].1.lat, Some(Decimal { neg: false, mantissa: 35, scale: 1 }));
    assert_eq!(h.completed[1].1.lat_dir, Some(b'S'));
}

#[test]
fn registry_clears_previous_occupant() {
    let mut h = new_handler();
    let s = "$GPGLL,1.5,N,2.5,E*\n$GPGLL,,,,*\n";
    let buf = s.as_bytes();
    let r1 = get_message_body(buf, &mut h).unwrap();
    get_message_body(&buf[r1.0..], &mut h).unwrap();
    assert_eq!(h.completed.len(), 2);
    // The second sentence's empty fields did not inherit the first's values.
    assert_eq!(h.completed[1].1.lat, None);
    assert_eq!(h.completed[1].1.lat_dir, None);
    assert_eq!(h.completed[1].1.lon, None);
    assert_eq!(h.completed[1].1.lon_dir, None);
}

#[test]
fn unknown_address_recorded_per_field() {
    let mut h = new_handler();
    get_message_body("$GPRMC,,*4B".as_bytes(), &mut h).unwrap();
    assert_eq!(h.completed.len(), 0);
    assert_eq!(h.errors, vec![NmeaError::UnknownAddress, NmeaError::UnknownAddress]);
}

#[test]
fn field_decode_error_recorded_not_fatal() {
    let mut h = new_handler();
    // Latitude `12x` is not numeric; the rest of the sentence still decodes.
    get_message_body("$GPGLL,12x,N,2.5,E*".as_bytes(), &mut h).unwrap();
    assert_eq!(h.errors, vec![NmeaError::FieldDecodeError]);
    assert_eq!(h.completed.len(), 1);
    assert_eq!(h.completed[0].1.lat, None);
    assert_eq!(h.completed[0].1.lon, Some(Decimal { neg: false, mantissa: 25, scale: 1 }));
}

#[test]
fn registry_lookup_by_stripped_address() {
    let mut msgs_map = MessagesMap::new();
    let gll = AddrField::new("GPGLL".as_bytes());
    assert!(msgs_map.get(&gll).is_none());
    msgs_map.add_all_messages();
    assert!(msgs_map.get(&gll).is_some());
    assert!(msgs_map.get_mut(&gll).is_some());
    let rmc = AddrField::new("GPRMC".as_bytes());
    assert!(msgs_map.get(&rmc).is_none());
    assert!(msgs_map.get_mut(&rmc).is_none());
}

#[test]
fn gll_message_fields_protocol() {
    let mut gll = NmeaGllMessage::new();
    assert_eq!(gll.field_count(), 4);
    assert!(matches!(gll.message_type(), NmeaMessages::GLL));
    let addr = gll.get_addr();
    assert_eq!(addr.data, "GLL".as_bytes());
    assert_eq!(addr.talker_id, "".as_bytes());
    gll.set_field(0, "1.5".as_bytes()).unwrap();
    assert_eq!(gll.lat, Some(Decimal { neg: false, mantissa: 15, scale: 1 }));
    assert_eq!(gll.set_field(4, "1".as_bytes()).unwrap_err(), NmeaError::FieldDecodeError);
    gll.clear();
    assert_eq!(gll.lat, None);
}

#[test]
fn optional_kinds_decode_empty_as_absent() {
    let mut od: Option<Decimal> = Some(Decimal { neg: false, mantissa: 1, scale: 0 });
    od.set_from_slice("".as_bytes()).unwrap();
    assert_eq!(od, None);
    let mut ob: Option<u8> = Some(1);
    ob.set_from_slice("".as_bytes()).unwrap();
    assert_eq!(ob, None);
    let mut os: Option<Vec<u8>> = Some(vec![1]);
    os.set_from_slice("".as_bytes()).unwrap();
    assert_eq!(os, None);
}

#[test]
fn required_kinds_fail_on_empty() {
    let mut d = Decimal { neg: false, mantissa: 0, scale: 0 };
    assert_eq!(d.set_from_slice("".as_bytes()).unwrap_err(), NmeaError::FieldDecodeError);
    let mut b: u8 = 0;
    assert_eq!(b.set_from_slice("".as_bytes()).unwrap_err(), NmeaError::FieldDecodeError);
    let mut s: Vec<u8> = Vec::new();
    assert_eq!(s.set_from_slice("".as_bytes()).unwrap_err(), NmeaError::FieldDecodeError);
}

#[test]
fn scalar_decoders_store_values() {
    let mut d = Decimal { neg: false, mantissa: 0, scale: 0 };
    d.set_from_slice("-37.51".as_bytes()).unwrap();
    assert_eq!(d, Decimal { neg: true, mantissa: 3751, scale: 2 });
    let mut b: u8 = 0;
    b.set_from_slice("E".as_bytes()).unwrap();
    assert_eq!(b, b'E');
    assert_eq!(b.set_from_slice("EF".as_bytes()).unwrap_err(), NmeaError::FieldDecodeError);
    let mut s: Vec<u8> = Vec::new();
    s.set_from_slice("hello".as_bytes()).unwrap();
    assert_eq!(s, "hello".as_bytes());
    let mut ob: Option<u8> = None;
    ob.set_from_slice("N".as_bytes()).unwrap();
    assert_eq!(ob, Some(b'N'));
    assert_eq!(ob.set_from_slice("NS".as_bytes()).unwrap_err(), NmeaError::FieldDecodeError);
}

#[test]
fn decimal_grammar_edges() {
    let mut d: Option<Decimal> = None;
    d.set_from_slice("+3.".as_bytes()).unwrap();
    assert_eq!(d, Some(Decimal { neg: false, mantissa: 3, scale: 0 }));
    d.set_from_slice(".5".as_bytes()).unwrap();
    assert_eq!(d, Some(Decimal { neg: false, mantissa: 5, scale: 1 }));
    d.set_from_slice("000123456789012345".as_bytes()).unwrap();
    assert_eq!(d, Some(Decimal { neg: false, mantissa: 123456789012345, scale: 0 }));
    let mut e: Option<Decimal> = None;
    assert_eq!(e.set_from_slice("1.2.3".as_bytes()).unwrap_err(), NmeaError::FieldDecodeError);
    assert_eq!(e.set_from_slice("12a".as_bytes()).unwrap_err(), NmeaError::FieldDecodeError);
    assert_eq!(e.set_from_slice("-".as_bytes()).unwrap_err(), NmeaError::FieldDecodeError);
    assert_eq!(e.set_from_slice(".".as_bytes()).unwrap_err(), NmeaError::FieldDecodeError);
    assert_eq!(
        e.set_from_slice("1234567890123456789".as_bytes()).unwrap_err(),
        NmeaError::FieldDecodeError
    );
}

#[test]
fn parse_step_recovers_past_malformed_line() {
    let mut h = new_handler();
    let s = "garbage line with no dollar\n$GPGLL,1.5,N,2.5,E*\n";
    let buf = s.as_bytes();
    let (r1, skip) = nmea_parse::nmea_parser::NmeaParser::parse_step(buf, &mut h);
    assert_eq!(r1.unwrap_err(), NmeaError::FramingError);
    assert_eq!(skip, 28);
    let (r2, consumed) = nmea_parse::nmea_parser::NmeaParser::parse_step(&buf[skip..], &mut h);
    assert!(r2.is_ok());
    assert_eq!(skip + consumed, buf.len());
    assert_eq!(h.completed.len(), 1);
}

#[test]
fn parse_step_without_line_feed_skips_whole_window() {
    let mut h = new_handler();
    let (r, skip) = nmea_parse::nmea_parser::NmeaParser::parse_step("no dollar here".as_bytes(), &mut h);
    assert_eq!(r.unwrap_err(), NmeaError::FramingError);
    assert_eq!(skip, 14);
}
