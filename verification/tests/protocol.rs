use qrtransfer::protocol::Message;
use qrtransfer::protocol::Metadata;
use qrtransfer::protocol::ParseError;
use qrtransfer::protocol::Payload;

#[test]
fn test_metadata_to_string() {
    let metadata = Metadata::new("test_name".to_string(), 42, "abc123".to_string());
    assert_eq!(metadata.to_string(), "METADATA:test_name,42,abc123");
}

#[test]
fn test_metadata_from_str() {
    let s = "METADATA:test_name,42,abc123";
    let metadata = Metadata::from_str(s).unwrap();
    assert_eq!(metadata.name, "test_name");
    assert_eq!(metadata.length, 42);
    assert_eq!(metadata.hash, "abc123");
}

#[test]
fn test_message_metadata_roundtrip() {
    let msg = Message::Metadata(Metadata::new(
        "filename".to_string(),
        10,
        "hash123".to_string(),
    ));
    let s = msg.to_string();
    let parsed = Message::from_str(&s).unwrap();
    assert_eq!(msg, parsed);
}

#[test]
fn test_message_piece_roundtrip() {
    let msg = Message::Piece {
        index: 5,
        data: "somedata".to_string(),
    };
    let s = msg.to_string();
    let parsed = Message::from_str(&s).unwrap();
    assert_eq!(msg, parsed);
}

#[test]
fn test_payload_creation() {
    let metadata = Metadata::new("testfile".to_string(), 2, "hash123".to_string());
    let pieces = vec![(1, "data1".to_string()), (2, "data2".to_string())];
    let payload = Payload::new(metadata.clone(), pieces.clone());

    assert_eq!(payload.metadata, metadata);
    assert_eq!(payload.pieces, pieces);
    assert_eq!(payload.len(), 3);
    assert!(!payload.is_empty());
}

#[test]
fn test_metadata_bad_prefix() {
    assert_eq!(Metadata::from_str("nope"), Err(ParseError::BadPrefix));
    assert_eq!(Metadata::from_str(""), Err(ParseError::BadPrefix));
    assert_eq!(Metadata::from_str("METADATA"), Err(ParseError::BadPrefix));
}

#[test]
fn test_metadata_wrong_field_count() {
    assert_eq!(
        Metadata::from_str("METADATA:a,12"),
        Err(ParseError::WrongFieldCount)
    );
    assert_eq!(
        Metadata::from_str("METADATA:a,12,b,c"),
        Err(ParseError::WrongFieldCount)
    );
    assert_eq!(
        Metadata::from_str("METADATA:abc"),
        Err(ParseError::WrongFieldCount)
    );
}

#[test]
fn test_metadata_bad_number() {
    assert_eq!(
        Metadata::from_str("METADATA:a,xx,b"),
        Err(ParseError::BadNumber)
    );
    assert_eq!(
        Metadata::from_str("METADATA:a,,b"),
        Err(ParseError::BadNumber)
    );
    assert_eq!(
        Metadata::from_str("METADATA:a,99999999999999999999999999999999,b"),
        Err(ParseError::BadNumber)
    );
}

#[test]
fn test_message_missing_colon() {
    assert_eq!(Message::from_str("justtext"), Err(ParseError::MissingColon));
}

#[test]
fn test_message_bad_index() {
    assert_eq!(Message::from_str("abc:data"), Err(ParseError::BadNumber));
    assert_eq!(Message::from_str(":data"), Err(ParseError::BadNumber));
    assert_eq!(
        Message::from_str("99999999999999999999999999999999:data"),
        Err(ParseError::BadNumber)
    );
}

#[test]
fn test_piece_data_keeps_later_colons() {
    let parsed = Message::from_str("7:ab:cd").unwrap();
    assert_eq!(
        parsed,
        Message::Piece {
            index: 7,
            data: "ab:cd".to_string()
        }
    );
}

#[test]
fn test_piece_leading_zero_index() {
    let parsed = Message::from_str("007:x").unwrap();
    assert_eq!(
        parsed,
        Message::Piece {
            index: 7,
            data: "x".to_string()
        }
    );
}
