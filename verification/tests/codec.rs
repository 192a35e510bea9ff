use webmetro::ebml::EbmlError;
use webmetro::error::WebmetroError;
use webmetro::stream_parser::{Async, EbmlCursor, EbmlEventSource};
use webmetro::webm::{encode_webm_element, SimpleBlock, WebmElement};

fn parse_all(bytes: Vec<u8>) -> (Vec<WebmElement>, Option<WebmetroError>) {
    let mut cursor = EbmlCursor::new(bytes);
    let mut events = Vec::new();
    loop {
        match cursor.poll_event() {
            Ok(Async::Ready(Some(e))) => events.push(e),
            Ok(Async::Ready(None)) => return (events, None),
            Ok(Async::NotReady) => panic!("cursor sources are always ready"),
            Err(e) => return (events, Some(e)),
        }
    }
}

#[test]
fn each_element_round_trips() {
    let elems = vec![
        WebmElement::EbmlHead,
        WebmElement::Void,
        WebmElement::Segment,
        WebmElement::Info,
        WebmElement::Cluster,
        WebmElement::Timecode(0),
        WebmElement::Timecode(1_000_000_007),
        WebmElement::Timecode(u64::MAX),
        WebmElement::Tracks(vec![]),
        WebmElement::Tracks(vec![0xAA; 300]),
        WebmElement::SimpleBlock(SimpleBlock { flags: 0x80, timecode: -5, data: vec![] }),
        WebmElement::SimpleBlock(SimpleBlock { flags: 0x07, timecode: 32767, data: vec![1, 2] }),
        WebmElement::SimpleBlock(SimpleBlock { flags: 0, timecode: -32768, data: vec![0xFF; 60] }),
    ];
    let mut bytes = Vec::new();
    for e in &elems {
        encode_webm_element(e, &mut bytes);
    }
    let (events, err) = parse_all(bytes);
    assert!(err.is_none());
    assert_eq!(events, elems);
}

#[test]
fn timecode_encoding_is_exact() {
    let mut bytes = Vec::new();
    encode_webm_element(&WebmElement::Timecode(0x0102030405060708), &mut bytes);
    assert_eq!(
        bytes,
        vec![0xE7, 0x88, 0x01, 0x02, 0x03, 0x04, 0x05, 0x06, 0x07, 0x08]
    );
}

#[test]
fn unknown_elements_are_parsed_and_skipped() {
    // a timecode, then an element with an unrecognized id and a small
    // payload, then another timecode
    let mut bytes = Vec::new();
    encode_webm_element(&WebmElement::Timecode(1), &mut bytes);
    bytes.extend_from_slice(&[0xBF, 0x82, 0xAA, 0xBB]); // crc-32 style id, 2 bytes
    encode_webm_element(&WebmElement::Timecode(2), &mut bytes);
    let (events, err) = parse_all(bytes);
    assert!(err.is_none());
    assert_eq!(
        events,
        vec![
            WebmElement::Timecode(1),
            WebmElement::Unknown(0xBF),
            WebmElement::Timecode(2),
        ]
    );
}

#[test]
fn zero_id_byte_is_an_unknown_element_id() {
    let (events, err) = parse_all(vec![0x00, 0x00]);
    assert!(events.is_empty());
    assert_eq!(err, Some(WebmetroError::EbmlError(EbmlError::UnknownElementId)));
}

#[test]
fn truncated_varint_is_corrupt() {
    // a valid one-byte id, then a size varint that claims two bytes but ends
    let (events, err) = parse_all(vec![0xE7, 0x40]);
    assert!(events.is_empty());
    assert_eq!(err, Some(WebmetroError::EbmlError(EbmlError::CorruptVarint)));
}

#[test]
fn truncated_payload_is_corrupt() {
    // a timecode claiming eight payload bytes with only one present
    let (events, err) = parse_all(vec![0xE7, 0x88, 0x01]);
    assert!(events.is_empty());
    assert_eq!(err, Some(WebmetroError::EbmlError(EbmlError::CorruptPayload)));
}

#[test]
fn error_conversion_keeps_the_kind() {
    let e: WebmetroError = EbmlError::CorruptVarint.into();
    assert_eq!(e, WebmetroError::EbmlError(EbmlError::CorruptVarint));
}
