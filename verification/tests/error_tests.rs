use peachdb::db::file::map_file_handler_error;
use peachdb::error::{eof_error, IoKind, PeachDbError};

fn io(kind: IoKind) -> PeachDbError {
    PeachDbError::Io { kind, message: "boom".to_string() }
}

#[test]
fn error_messages() {
    let cases: Vec<(PeachDbError, &str)> = vec![
        (io(IoKind::Other), "I/O error: boom"),
        (PeachDbError::InvalidMagicBytes, "invalid magic bytes"),
        (PeachDbError::InvalidIndexEntry, "invalid index entry"),
        (PeachDbError::UnknownDtype { byte: 0xff }, "unknown data type byte: 0xff"),
        (PeachDbError::UnknownDtype { byte: 0x5 }, "unknown data type byte: 0x5"),
        (PeachDbError::UnknownDtype { byte: 0 }, "unknown data type byte: 0x0"),
        (PeachDbError::CorruptedRecord { reason: "bad".to_string() }, "corrupted record: bad"),
        (PeachDbError::InvalidFinishCall, "Invalid finish() call, Called on unfinished object"),
        (PeachDbError::BufferTooShort, "buffer too short"),
        (PeachDbError::EmptyBuffer, "Empty Buffer"),
        (PeachDbError::IncompleteEntry { reason: "no commit".to_string() }, "incomplete WAL entry: no commit"),
        (PeachDbError::ReplayFailed { reason: "x".to_string() }, "WAL replay failed: x"),
        (PeachDbError::UnknownCommand { byte: 0x1a }, "unknown command byte: 0x1a"),
        (PeachDbError::InvalidRequestFormat { reason: "r".to_string() }, "invalid request format: r"),
        (
            PeachDbError::PayloadTooLarge { size: 1024, max: 10 },
            "payload too large: 1024 bytes exceeds maximum 10 bytes",
        ),
        (PeachDbError::PayloadTooLarge { size: 0, max: 7 }, "payload too large: 0 bytes exceeds maximum 7 bytes"),
        (PeachDbError::DBNameToLong, "DataBase Name to long; must be less than 64 Bytes"),
        (PeachDbError::KeyNotFound, "key not found"),
        (
            PeachDbError::TypeMismatch { key: "k".to_string(), expected: "int".to_string(), found: "str".to_string() },
            "type mismatch for key 'k': expected int, found str",
        ),
        (PeachDbError::InvalidWalEntry, "invalid WAL entry"),
    ];
    for (e, text) in cases {
        assert_eq!(e.message(), text);
    }
    for byte in [0u8, 9, 10, 15, 16, 0x7f, 0xab, 0xff] {
        assert_eq!(PeachDbError::UnknownCommand { byte }.message(), format!("unknown command byte: {:#x}", byte));
    }
    for n in [1usize, 9, 10, 99, 100, 12345, usize::MAX] {
        assert_eq!(
            PeachDbError::PayloadTooLarge { size: n, max: n / 2 }.message(),
            format!("payload too large: {} bytes exceeds maximum {} bytes", n, n / 2)
        );
    }
}

#[test]
fn retryable_errors() {
    assert!(io(IoKind::Interrupted).is_retryable());
    assert!(io(IoKind::TimedOut).is_retryable());
    assert!(!io(IoKind::Other).is_retryable());
    assert!(!io(IoKind::UnexpectedEof).is_retryable());
    assert!(!io(IoKind::ConnectionReset).is_retryable());
    assert!(!PeachDbError::KeyNotFound.is_retryable());
}

#[test]
fn protocol_errors() {
    assert!(PeachDbError::UnknownCommand { byte: 9 }.is_protocol_error());
    assert!(PeachDbError::InvalidRequestFormat { reason: String::new() }.is_protocol_error());
    assert!(PeachDbError::PayloadTooLarge { size: 2, max: 1 }.is_protocol_error());
    assert!(PeachDbError::UnknownDtype { byte: 9 }.is_protocol_error());
    assert!(!PeachDbError::KeyNotFound.is_protocol_error());
    assert!(!PeachDbError::BufferTooShort.is_protocol_error());
    assert!(!io(IoKind::Other).is_protocol_error());
}

#[test]
fn end_of_input_error() {
    match eof_error() {
        PeachDbError::Io { kind, message } => {
            assert_eq!(kind, IoKind::UnexpectedEof);
            assert_eq!(message, "failed to fill whole buffer");
        }
        e => panic!("expected an I/O error, got {:?}", e),
    }
}

#[test]
fn file_task_error() {
    match map_file_handler_error("channel closed".to_string()) {
        PeachDbError::Io { kind, message } => {
            assert_eq!(kind, IoKind::Other);
            assert_eq!(message, "channel closed");
        }
        e => panic!("expected an I/O error, got {:?}", e),
    }
}
