use transmitwave_core::service::{choose_operation, payload_base64, request_payload, Operation, OperationError, RequestError};

#[test]
fn base64_payloads() {
    assert_eq!(payload_base64(b""), "");
    assert_eq!(payload_base64(b"f"), "Zg==");
    assert_eq!(payload_base64(b"fo"), "Zm8=");
    assert_eq!(payload_base64(b"foo"), "Zm9v");
    assert_eq!(payload_base64(b"foobar"), "Zm9vYmFy");
    assert_eq!(payload_base64(&[0xFB, 0xFF]), "+/8=");
    assert_eq!(request_payload("Zm9vYmFy").ok().unwrap(), b"foobar".to_vec());
}

#[test]
fn base64_request_errors() {
    assert!(matches!(request_payload("not base64!"), Err(RequestError::InvalidBase64(_))));
    assert!(matches!(request_payload(""), Err(RequestError::Empty)));
    assert!(matches!(request_payload("Zg"), Err(RequestError::InvalidBase64(_))));
}

#[test]
fn base64_roundtrip() {
    let data: Vec<u8> = (0..=255u8).collect();
    let text = payload_base64(&data);
    assert_eq!(request_payload(&text).ok().unwrap(), data);
}

#[test]
fn operation_choice() {
    assert_eq!(choose_operation(Some("encode"), None), Ok(Operation::Encode));
    assert_eq!(choose_operation(Some("enc"), Some("wav")), Ok(Operation::Encode));
    assert_eq!(choose_operation(Some("decode"), None), Ok(Operation::Decode));
    assert_eq!(choose_operation(Some("dec"), None), Ok(Operation::Decode));
    assert_eq!(choose_operation(Some("play"), Some("bin")), Err(OperationError::UnknownMode));
    assert_eq!(choose_operation(None, Some("bin")), Ok(Operation::Encode));
    assert_eq!(choose_operation(None, Some("wav")), Ok(Operation::Decode));
    assert_eq!(choose_operation(None, Some("txt")), Err(OperationError::CannotDetect));
    assert_eq!(choose_operation(None, None), Err(OperationError::CannotDetect));
}
