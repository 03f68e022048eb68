//! What can be wrong with a byte stream or a payload.

use vstd::prelude::*;
use crate::text::{decimal, hexadecimal, push_decimal, push_hex};

verus! {

/// A protocol violation, with the values that show it.
#[derive(Debug, Clone, PartialEq, Eq, Structural)]
#[allow(inconsistent_fields)]
pub enum ProtocolError {
    /// The first two bytes of a frame are not the magic number.
    BadMagic { expected: u16, got: u16 },
    /// The peer speaks another version of the protocol.
    UnsupportedVersion { got: u8, supported: u8 },
    /// The command byte names no command.
    UnknownCommand { got: u8 },
    /// A variable-length integer did not end within its longest form.
    VarintTooLong { max: usize },
    /// The declared payload length is over the limit.
    FrameTooLarge { got: u64, max: usize },
    /// The checksum computed over the frame is not the one it carries.
    CrcMismatch { expected: u32, got: u32 },
    /// A payload ends before one of its fields does.
    PayloadTooShort { need: usize, got: usize },
    /// A payload string is not UTF-8.
    InvalidUtf8,
    /// Bytes are left over behind the last field of a payload.
    TrailingBytes { extra: usize },
}

/// The message of an error.
pub open spec fn error_text(e: ProtocolError) -> Seq<char> {
    match e {
        ProtocolError::BadMagic { expected, got } => "bad magic: expected 0x"@ + hexadecimal(
            expected as nat,
            4,
        ) + ", got 0x"@ + hexadecimal(got as nat, 4),
        ProtocolError::UnsupportedVersion { got, supported } =>
            "unsupported protocol version: got "@ + decimal(got as nat) + ", supported: "@
            + decimal(supported as nat),
        ProtocolError::UnknownCommand { got } => "unknown command byte: 0x"@ + hexadecimal(
            got as nat,
            2,
        ),
        ProtocolError::VarintTooLong { max } => "varint longer than "@ + decimal(max as nat)
            + " bytes"@,
        ProtocolError::FrameTooLarge { got, max } => "frame too large: "@ + decimal(got as nat)
            + " bytes (max "@ + decimal(max as nat) + ")"@,
        ProtocolError::CrcMismatch { expected, got } => "crc mismatch: expected 0x"@ + hexadecimal(
            expected as nat,
            8,
        ) + ", got 0x"@ + hexadecimal(got as nat, 8),
        ProtocolError::PayloadTooShort { need, got } => "payload truncated: need "@ + decimal(
            need as nat,
        ) + " more bytes, got "@ + decimal(got as nat),
        ProtocolError::InvalidUtf8 => "invalid utf-8 in payload string"@,
        ProtocolError::TrailingBytes { extra } => "payload has "@ + decimal(extra as nat)
            + " trailing bytes"@,
    }
}

impl ProtocolError {
    /// The error as a message.
    #[must_use]
    pub fn to_text(&self) -> (s: String)
        ensures
            s@ == error_text(*self),
    {
        let mut s = String::new();
        match self {
            ProtocolError::BadMagic { expected, got } => {
                s.append("bad magic: expected 0x");
                push_hex(&mut s, *expected as u32, 4);
                s.append(", got 0x");
                push_hex(&mut s, *got as u32, 4);
            },
            ProtocolError::UnsupportedVersion { got, supported } => {
                s.append("unsupported protocol version: got ");
                push_decimal(&mut s, *got as u128);
                s.append(", supported: ");
                push_decimal(&mut s, *supported as u128);
            },
            ProtocolError::UnknownCommand { got } => {
                s.append("unknown command byte: 0x");
                push_hex(&mut s, *got as u32, 2);
            },
            ProtocolError::VarintTooLong { max } => {
                s.append("varint longer than ");
                push_decimal(&mut s, *max as u128);
                s.append(" bytes");
            },
            ProtocolError::FrameTooLarge { got, max } => {
                s.append("frame too large: ");
                push_decimal(&mut s, *got as u128);
                s.append(" bytes (max ");
                push_decimal(&mut s, *max as u128);
                s.append(")");
            },
            ProtocolError::CrcMismatch { expected, got } => {
                s.append("crc mismatch: expected 0x");
                push_hex(&mut s, *expected, 8);
                s.append(", got 0x");
                push_hex(&mut s, *got, 8);
            },
            ProtocolError::PayloadTooShort { need, got } => {
                s.append("payload truncated: need ");
                push_decimal(&mut s, *need as u128);
                s.append(" more bytes, got ");
                push_decimal(&mut s, *got as u128);
            },
            ProtocolError::InvalidUtf8 => {
                s.append("invalid utf-8 in payload string");
            },
            ProtocolError::TrailingBytes { extra } => {
                s.append("payload has ");
                push_decimal(&mut s, *extra as u128);
                s.append(" trailing bytes");
            },
        }
        assert(s@ =~= error_text(*self));
        s
    }
}

} // verus!
