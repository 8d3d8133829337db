//! The library's error type and the text each error is shown with.

use vstd::prelude::*;
use vstd::string::StringExecFns;

verus! {

/// The kinds of I/O failure that the library tells apart.
#[derive(Clone, Copy, Debug, PartialEq, Eq)]
pub enum IoKind {
    /// The operation was interrupted and may be retried.
    Interrupted,
    /// The operation timed out.
    TimedOut,
    /// The input ended before the expected number of bytes were read.
    UnexpectedEof,
    /// The peer reset the connection.
    ConnectionReset,
    /// Any other I/O failure.
    Other,
}

/// Every error the database, its codecs and its protocol report.
#[derive(Debug)]
pub enum PeachDbError {
    /// A failed I/O operation: its kind and its text.
    Io { kind: IoKind, message: String },
    /// Invalid magic bytes in a file header or a record.
    InvalidMagicBytes,
    /// An index entry that cannot be used (such as one with an empty key).
    InvalidIndexEntry,
    /// A data type byte that names no data type.
    UnknownDtype { byte: u8 },
    /// A record whose checksum or contents are wrong.
    CorruptedRecord { reason: String },
    /// `finish()` called on an object that was never filled.
    InvalidFinishCall,
    /// A buffer too short for the data it should hold.
    BufferTooShort,
    /// An empty buffer.
    EmptyBuffer,
    /// An incomplete write-ahead-log entry.
    IncompleteEntry { reason: String },
    /// Replaying the write-ahead log failed.
    ReplayFailed { reason: String },
    /// A command byte that names no command.
    UnknownCommand { byte: u8 },
    /// A malformed request.
    InvalidRequestFormat { reason: String },
    /// A payload larger than allowed.
    PayloadTooLarge { size: usize, max: usize },
    /// A database name longer than 64 bytes.
    DBNameToLong,
    /// A key that is not in the database.
    KeyNotFound,
    /// A value of another type than the one asked for.
    TypeMismatch { key: String, expected: String, found: String },
    /// A write-ahead-log entry that cannot be used.
    InvalidWalEntry,
}

/// The text with which a failed read of a fixed number of bytes past the end of the input is shown.
pub open spec fn spec_eof_text() -> Seq<char> {
    "failed to fill whole buffer"@
}

/// The error a read past the end of an in-memory input gives.
pub open spec fn spec_eof_error(e: PeachDbError) -> bool {
    e matches PeachDbError::Io { kind, message } && kind == IoKind::UnexpectedEof
        && message@ == spec_eof_text()
}

/// The error for a read past the end of an in-memory input.
pub fn eof_error() -> (e: PeachDbError)
    ensures
        spec_eof_error(e),
{
    PeachDbError::Io { kind: IoKind::UnexpectedEof, message: String::from_str("failed to fill whole buffer") }
}

/// The character for the hexadecimal digit `d` (`0 <= d < 16`), lower case.
pub open spec fn spec_hex_digit(d: int) -> char {
    if d < 10 {
        ('0' as int + d) as char
    } else {
        ('a' as int + (d - 10)) as char
    }
}

/// The character for the decimal digit `d` (`0 <= d < 10`).
pub open spec fn spec_decimal_digit(d: int) -> char {
    ('0' as int + d) as char
}

/// `b` written as `0x` and its lower-case hexadecimal digits, without leading zeros.
pub open spec fn spec_hex_byte(b: u8) -> Seq<char> {
    if b < 16 {
        seq!['0', 'x', spec_hex_digit(b as int)]
    } else {
        seq!['0', 'x', spec_hex_digit(b as int / 16), spec_hex_digit(b as int % 16)]
    }
}

/// `n` written in decimal, without leading zeros.
pub open spec fn spec_decimal(n: nat) -> Seq<char>
    decreases n,
{
    if n < 10 {
        seq![spec_decimal_digit(n as int)]
    } else {
        spec_decimal(n / 10).push(spec_decimal_digit((n % 10) as int))
    }
}

/// The text of the hexadecimal digit `d`, lower case.
fn digit_text(d: u8) -> (s: &'static str)
    requires
        d < 16,
    ensures
        s@ == seq![spec_hex_digit(d as int)],
{
    match d {
        0 => {
            proof {
                reveal_strlit("0");
            }
            "0"
        },
        1 => {
            proof {
                reveal_strlit("1");
            }
            "1"
        },
        2 => {
            proof {
                reveal_strlit("2");
            }
            "2"
        },
        3 => {
            proof {
                reveal_strlit("3");
            }
            "3"
        },
        4 => {
            proof {
                reveal_strlit("4");
            }
            "4"
        },
        5 => {
            proof {
                reveal_strlit("5");
            }
            "5"
        },
        6 => {
            proof {
                reveal_strlit("6");
            }
            "6"
        },
        7 => {
            proof {
                reveal_strlit("7");
            }
            "7"
        },
        8 => {
            proof {
                reveal_strlit("8");
            }
            "8"
        },
        9 => {
            proof {
                reveal_strlit("9");
            }
            "9"
        },
        10 => {
            proof {
                reveal_strlit("a");
            }
            "a"
        },
        11 => {
            proof {
                reveal_strlit("b");
            }
            "b"
        },
        12 => {
            proof {
                reveal_strlit("c");
            }
            "c"
        },
        13 => {
            proof {
                reveal_strlit("d");
            }
            "d"
        },
        14 => {
            proof {
                reveal_strlit("e");
            }
            "e"
        },
        _ => {
            proof {
                reveal_strlit("f");
            }
            "f"
        },
    }
}

/// `b` in std's alternate hexadecimal form (`{:#x}`): `0x` and its lower-case digits, without
/// leading zeros.
fn format_hex_byte(b: u8) -> (s: String)
    ensures
        s@ == spec_hex_byte(b),
{
    proof {
        reveal_strlit("0x");
    }
    let mut s = String::from_str("0x");
    if b < 16 {
        s.append(digit_text(b));
    } else {
        s.append(digit_text(b / 16));
        s.append(digit_text(b % 16));
    }
    assert(s@ =~= spec_hex_byte(b));
    s
}

/// `n` in std's decimal form (`{}`): its digits, without leading zeros.
pub(crate) fn format_decimal(n: usize) -> (s: String)
    ensures
        s@ == spec_decimal(n as nat),
    decreases n,
{
    if n < 10 {
        let s = String::from_str(digit_text(n as u8));
        assert(spec_hex_digit(n as int) == spec_decimal_digit(n as int));
        s
    } else {
        let mut s = format_decimal(n / 10);
        s.append(digit_text((n % 10) as u8));
        assert(spec_hex_digit((n % 10) as int) == spec_decimal_digit((n % 10) as int));
        assert(s@ =~= spec_decimal(n as nat));
        s
    }
}

impl PeachDbError {
    /// The text the error is shown with.
    pub open spec fn spec_message(&self) -> Seq<char> {
        match self {
            PeachDbError::Io { message, .. } => "I/O error: "@ + message@,
            PeachDbError::InvalidMagicBytes => "invalid magic bytes"@,
            PeachDbError::InvalidIndexEntry => "invalid index entry"@,
            PeachDbError::UnknownDtype { byte } => "unknown data type byte: "@ + spec_hex_byte(*byte),
            PeachDbError::CorruptedRecord { reason } => "corrupted record: "@ + reason@,
            PeachDbError::InvalidFinishCall => "Invalid finish() call, Called on unfinished object"@,
            PeachDbError::BufferTooShort => "buffer too short"@,
            PeachDbError::EmptyBuffer => "Empty Buffer"@,
            PeachDbError::IncompleteEntry { reason } => "incomplete WAL entry: "@ + reason@,
            PeachDbError::ReplayFailed { reason } => "WAL replay failed: "@ + reason@,
            PeachDbError::UnknownCommand { byte } => "unknown command byte: "@ + spec_hex_byte(*byte),
            PeachDbError::InvalidRequestFormat { reason } => "invalid request format: "@ + reason@,
            PeachDbError::PayloadTooLarge { size, max } => "payload too large: "@ + spec_decimal(
                *size as nat,
            ) + " bytes exceeds maximum "@ + spec_decimal(*max as nat) + " bytes"@,
            PeachDbError::DBNameToLong => "DataBase Name to long; must be less than 64 Bytes"@,
            PeachDbError::KeyNotFound => "key not found"@,
            PeachDbError::TypeMismatch { key, expected, found } => "type mismatch for key '"@ + key@
                + "': expected "@ + expected@ + ", found "@ + found@,
            PeachDbError::InvalidWalEntry => "invalid WAL entry"@,
        }
    }

    /// The text the error is shown with.
    pub fn message(&self) -> (s: String)
        ensures
            s@ == self.spec_message(),
    {
        match self {
            PeachDbError::Io { message, .. } => {
                let mut s = String::from_str("I/O error: ");
                s.append(message.as_str());
                s
            },
            PeachDbError::InvalidMagicBytes => String::from_str("invalid magic bytes"),
            PeachDbError::InvalidIndexEntry => String::from_str("invalid index entry"),
            PeachDbError::UnknownDtype { byte } => {
                let mut s = String::from_str("unknown data type byte: ");
                let h = format_hex_byte(*byte);
                s.append(h.as_str());
                s
            },
            PeachDbError::CorruptedRecord { reason } => {
                let mut s = String::from_str("corrupted record: ");
                s.append(reason.as_str());
                s
            },
            PeachDbError::InvalidFinishCall => String::from_str(
                "Invalid finish() call, Called on unfinished object",
            ),
            PeachDbError::BufferTooShort => String::from_str("buffer too short"),
            PeachDbError::EmptyBuffer => String::from_str("Empty Buffer"),
            PeachDbError::IncompleteEntry { reason } => {
                let mut s = String::from_str("incomplete WAL entry: ");
                s.append(reason.as_str());
                s
            },
            PeachDbError::ReplayFailed { reason } => {
                let mut s = String::from_str("WAL replay failed: ");
                s.append(reason.as_str());
                s
            },
            PeachDbError::UnknownCommand { byte } => {
                let mut s = String::from_str("unknown command byte: ");
                let h = format_hex_byte(*byte);
                s.append(h.as_str());
                s
            },
            PeachDbError::InvalidRequestFormat { reason } => {
                let mut s = String::from_str("invalid request format: ");
                s.append(reason.as_str());
                s
            },
            PeachDbError::PayloadTooLarge { size, max } => {
                let mut s = String::from_str("payload too large: ");
                let a = format_decimal(*size);
                s.append(a.as_str());
                s.append(" bytes exceeds maximum ");
                let b = format_decimal(*max);
                s.append(b.as_str());
                s.append(" bytes");
                s
            },
            PeachDbError::DBNameToLong => String::from_str(
                "DataBase Name to long; must be less than 64 Bytes",
            ),
            PeachDbError::KeyNotFound => String::from_str("key not found"),
            PeachDbError::TypeMismatch { key, expected, found } => {
                let mut s = String::from_str("type mismatch for key '");
                s.append(key.as_str());
                s.append("': expected ");
                s.append(expected.as_str());
                s.append(", found ");
                s.append(found.as_str());
                s
            },
            PeachDbError::InvalidWalEntry => String::from_str("invalid WAL entry"),
        }
    }

    /// Whether the error is transient, so that a retry might succeed: an I/O error that was
    /// interrupted or timed out.
    pub fn is_retryable(&self) -> (r: bool)
        ensures
            r == (self matches PeachDbError::Io { kind, .. } && (kind == IoKind::Interrupted
                || kind == IoKind::TimedOut)),
    {
        match self {
            PeachDbError::Io { kind, .. } => match kind {
                IoKind::Interrupted | IoKind::TimedOut => true,
                _ => false,
            },
            _ => false,
        }
    }

    /// Whether the error is a protocol violation, the client's fault.
    pub fn is_protocol_error(&self) -> (r: bool)
        ensures
            r == (self is UnknownCommand || self is InvalidRequestFormat || self is PayloadTooLarge
                || self is UnknownDtype),
    {
        match self {
            PeachDbError::UnknownCommand { .. } | PeachDbError::InvalidRequestFormat { .. }
            | PeachDbError::PayloadTooLarge { .. } | PeachDbError::UnknownDtype { .. } => true,
            _ => false,
        }
    }
}

/// The ways the decoders fail, as their contracts state them.
pub enum DecodeFailure {
    /// A buffer ends before a value it announces.
    BufferTooShort,
    /// A byte names no data type.
    UnknownDtype(u8),
    /// A string's bytes are not UTF-8.
    InvalidUtf8,
    /// The input ends before a fixed-size read.
    Eof,
    /// A record or header does not start with the expected magic bytes.
    InvalidMagicBytes,
    /// A record's checksum does not match its contents.
    ChecksumMismatch,
    /// An index entry with an empty key.
    InvalidIndexEntry,
    /// A byte names no command (or no status).
    UnknownCommand(u8),
    /// A request whose version byte is not `1`.
    InvalidVersion,
    /// An error message whose bytes are not UTF-8.
    InvalidUtf8Message,
}

impl PeachDbError {
    /// Whether this error is the one the decoders give for `d`.
    pub open spec fn reports(self, d: DecodeFailure) -> bool {
        match d {
            DecodeFailure::BufferTooShort => self is BufferTooShort,
            DecodeFailure::UnknownDtype(b) => self matches PeachDbError::UnknownDtype { byte } && byte == b,
            DecodeFailure::InvalidUtf8 => self matches PeachDbError::CorruptedRecord { reason }
                && "invalid utf8: "@.is_prefix_of(reason@),
            DecodeFailure::Eof => spec_eof_error(self),
            DecodeFailure::InvalidMagicBytes => self is InvalidMagicBytes,
            DecodeFailure::ChecksumMismatch => self matches PeachDbError::CorruptedRecord { reason }
                && reason@ == "Checksum Mismatch"@,
            DecodeFailure::InvalidIndexEntry => self is InvalidIndexEntry,
            DecodeFailure::UnknownCommand(b) => self matches PeachDbError::UnknownCommand { byte }
                && byte == b,
            DecodeFailure::InvalidVersion => self matches PeachDbError::InvalidRequestFormat {
                reason,
            } && reason@ == "invalid version"@,
            DecodeFailure::InvalidUtf8Message => self matches PeachDbError::InvalidRequestFormat {
                reason,
            } && "invalid utf8 in error message: "@.is_prefix_of(reason@),
        }
    }
}

/// Whether a decoder's result is the one its specification gives: the same value and count of
/// bytes read, or an error that reports the same failure.
pub open spec fn decodes_as<T: View>(
    r: Result<(T, usize), PeachDbError>,
    s: Result<(T::V, nat), DecodeFailure>,
) -> bool {
    match s {
        Ok((v, n)) => r matches Ok((x, m)) && x@ == v && m == n,
        Err(d) => r matches Err(e) && e.reports(d),
    }
}

/// Whether a result is the one a specification gives, for results that are values alone.
pub open spec fn yields<T: View>(r: Result<T, PeachDbError>, s: Result<T::V, DecodeFailure>) -> bool {
    match s {
        Ok(v) => r matches Ok(x) && x@ == v,
        Err(d) => r matches Err(e) && e.reports(d),
    }
}

} // verus!
