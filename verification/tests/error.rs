use leech::bencoding::{BEncodingParseError, DecodeError, DecodeReason};
use leech::error::Error;
use leech::peer::MessageType;

#[test]
fn a_typed_read_failure_becomes_an_error() {
    assert!(matches!(
        Error::from(BEncodingParseError::NotAList),
        Error::BEncoding(BEncodingParseError::NotAList)
    ));
    let e: Error = BEncodingParseError::MissingKey("k".to_string()).into();
    assert!(matches!(e, Error::BEncoding(BEncodingParseError::MissingKey(ref k)) if k == "k"));
}

#[test]
fn a_decoding_failure_becomes_an_error() {
    let inner = DecodeError { reason: DecodeReason::InvalidKey, offset: 3 };
    assert!(matches!(Error::from(inner), Error::Decode(e) if e == inner));
}

#[test]
fn a_message_id_converts_to_its_kind() {
    assert_eq!(MessageType::from(7u8), MessageType::Piece);
    assert_eq!(MessageType::from(200u8), MessageType::Unknown);
    let kind: MessageType = 1u8.into();
    assert_eq!(kind, MessageType::UnChoke);
}
