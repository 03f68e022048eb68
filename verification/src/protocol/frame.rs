//! Frames: a fixed header, three variable-length integers, the payload and a
//! checksum over everything before it.

use bytes::Bytes;
use vstd::prelude::*;
use crate::octets::{be32_bytes, bytes_as_slice, bytes_content, bytes_from_vec, put_be32, put_slice};
use crate::protocol::crc32::{Crc32, crc32_of};
use crate::protocol::error::ProtocolError;
use crate::protocol::varint;
use crate::protocol::varint::{encode_u64, varint_bytes};

verus! {

/// What a frame is about.
#[derive(Debug, Clone, Copy, PartialEq, Eq, Hash, Structural)]
pub enum Cmd {
    /// Login request.
    Handshake,
    /// Login answer.
    HandshakeAck,
    /// Heartbeat.
    Ping,
    /// Heartbeat answer.
    Pong,
    /// A chat message.
    Msg,
    /// Confirmation of a chat message.
    MsgAck,
    /// Request for the messages missed while offline.
    SyncReq,
    /// The messages missed while offline.
    SyncResp,
}

/// The byte that stands for a command.
pub open spec fn cmd_byte(cmd: Cmd) -> u8 {
    match cmd {
        Cmd::Handshake => 0x01,
        Cmd::HandshakeAck => 0x02,
        Cmd::Ping => 0x03,
        Cmd::Pong => 0x04,
        Cmd::Msg => 0x05,
        Cmd::MsgAck => 0x06,
        Cmd::SyncReq => 0x07,
        Cmd::SyncResp => 0x08,
    }
}

/// The command that a byte stands for.
pub open spec fn cmd_of_byte(byte: u8) -> Result<Cmd, ProtocolError> {
    if byte == 0x01 {
        Ok(Cmd::Handshake)
    } else if byte == 0x02 {
        Ok(Cmd::HandshakeAck)
    } else if byte == 0x03 {
        Ok(Cmd::Ping)
    } else if byte == 0x04 {
        Ok(Cmd::Pong)
    } else if byte == 0x05 {
        Ok(Cmd::Msg)
    } else if byte == 0x06 {
        Ok(Cmd::MsgAck)
    } else if byte == 0x07 {
        Ok(Cmd::SyncReq)
    } else if byte == 0x08 {
        Ok(Cmd::SyncResp)
    } else {
        Err(ProtocolError::UnknownCommand { got: byte })
    }
}

/// A command survives the way through its byte, and no other byte stands for
/// it.
pub proof fn law_cmd_round_trip(cmd: Cmd, byte: u8)
    ensures
        cmd_of_byte(cmd_byte(cmd)) == Ok::<Cmd, ProtocolError>(cmd),
        cmd_of_byte(byte) == Ok::<Cmd, ProtocolError>(cmd) ==> byte == cmd_byte(cmd),
{
}

impl Cmd {
    /// The byte on the wire.
    #[must_use]
    pub fn to_byte(self) -> (b: u8)
        ensures
            b == cmd_byte(self),
    {
        match self {
            Cmd::Handshake => 0x01,
            Cmd::HandshakeAck => 0x02,
            Cmd::Ping => 0x03,
            Cmd::Pong => 0x04,
            Cmd::Msg => 0x05,
            Cmd::MsgAck => 0x06,
            Cmd::SyncReq => 0x07,
            Cmd::SyncResp => 0x08,
        }
    }
}

impl TryFrom<u8> for Cmd {
    type Error = ProtocolError;

    fn try_from(value: u8) -> (r: Result<Self, ProtocolError>) {
        match value {
            0x01 => Ok(Cmd::Handshake),
            0x02 => Ok(Cmd::HandshakeAck),
            0x03 => Ok(Cmd::Ping),
            0x04 => Ok(Cmd::Pong),
            0x05 => Ok(Cmd::Msg),
            0x06 => Ok(Cmd::MsgAck),
            0x07 => Ok(Cmd::SyncReq),
            0x08 => Ok(Cmd::SyncResp),
            got => Err(ProtocolError::UnknownCommand { got }),
        }
    }
}

impl vstd::std_specs::convert::TryFromSpecImpl<u8> for Cmd {
    open spec fn obeys_try_from_spec() -> bool {
        true
    }

    open spec fn try_from_spec(value: u8) -> Result<Self, ProtocolError> {
        cmd_of_byte(value)
    }
}

/// Length of the fixed header: magic, version, command, flags.
pub const HEADER_LEN: usize = 5;

/// Length of the checksum.
pub const CRC_LEN: usize = 4;

/// One frame.
#[derive(Debug, Clone, PartialEq, Eq)]
pub struct Frame {
    /// The command.
    pub cmd: Cmd,
    /// The flag bits.
    pub flags: u8,
    /// The sender's running number.
    pub seq: u64,
    /// Everything before this number has arrived.
    pub ack: u64,
    /// The payload.
    pub payload: Bytes,
}

/// What a frame says, with the payload as a sequence of bytes.
#[verifier::ext_equal]
pub struct FrameModel {
    pub cmd: Cmd,
    pub flags: u8,
    pub seq: u64,
    pub ack: u64,
    pub payload: Seq<u8>,
}

impl View for Frame {
    type V = FrameModel;

    open spec fn view(&self) -> FrameModel {
        FrameModel {
            cmd: self.cmd,
            flags: self.flags,
            seq: self.seq,
            ack: self.ack,
            payload: bytes_content(self.payload),
        }
    }
}

/// The fixed header of a frame.
pub open spec fn header_bytes(m: FrameModel) -> Seq<u8> {
    seq![0x49u8, 0x4Du8, crate::protocol::VERSION, cmd_byte(m.cmd), m.flags]
}

/// Everything that the checksum covers.
pub open spec fn frame_body(m: FrameModel) -> Seq<u8> {
    header_bytes(m) + varint_bytes(m.seq as nat) + varint_bytes(m.ack as nat) + varint_bytes(
        m.payload.len(),
    ) + m.payload
}

/// The frame on the wire.
pub open spec fn frame_bytes(m: FrameModel) -> Seq<u8> {
    frame_body(m) + be32_bytes(crc32_of(frame_body(m)))
}

/// The layout of a frame: the magic number, the version, the command and the flags,
/// then three numbers and the payload, and at the end the checksum of all that.
pub proof fn law_layout_of_a_frame(m: FrameModel)
    ensures
        ({
            let s = frame_bytes(m);
            let body = s.take(s.len() - 4);
            &&& s.len() == 5 + varint_bytes(m.seq as nat).len() + varint_bytes(m.ack as nat).len()
                + varint_bytes(m.payload.len()).len() + m.payload.len() + 4
            &&& s[0] == 0x49 && s[1] == 0x4D && s[2] == 1 && s[3] == cmd_byte(m.cmd) && s[4]
                == m.flags
            &&& body.skip(5) == varint_bytes(m.seq as nat) + varint_bytes(m.ack as nat)
                + varint_bytes(m.payload.len()) + m.payload
            &&& s.skip(s.len() - 4) == be32_bytes(crc32_of(body))
        }),
{
    let s = frame_bytes(m);
    assert(s.take(s.len() - 4) =~= frame_body(m));
    assert(s.skip(s.len() - 4) =~= be32_bytes(crc32_of(frame_body(m))));
    assert(frame_body(m).skip(5) =~= varint_bytes(m.seq as nat) + varint_bytes(m.ack as nat)
        + varint_bytes(m.payload.len()) + m.payload);
}

impl Frame {
    /// A frame without flags.
    #[must_use]
    pub fn new(cmd: Cmd, seq: u64, ack: u64, payload: Bytes) -> (f: Self)
        ensures
            f@ == (FrameModel { cmd, flags: 0, seq, ack, payload: bytes_content(payload) }),
    {
        Frame { cmd, flags: 0, seq, ack, payload }
    }

    /// The number of bytes on the wire.
    #[must_use]
    pub fn encoded_len(&self) -> (n: usize)
        requires
            frame_bytes(self@).len() <= usize::MAX,
        ensures
            n == frame_bytes(self@).len(),
    {
        let len: usize = bytes_as_slice(&self.payload).len();
        HEADER_LEN + varint::encoded_len(self.seq) + varint::encoded_len(self.ack)
            + varint::encoded_len(len as u64) + len + CRC_LEN
    }

    /// Appends the frame to `dst`.
    pub fn encode_into(&self, dst: &mut Vec<u8>)
        ensures
            final(dst)@ == old(dst)@ + frame_bytes(self@),
    {
        let mut body: Vec<u8> = Vec::new();
        body.push(0x49);
        body.push(0x4D);
        body.push(crate::protocol::VERSION);
        body.push(self.cmd.to_byte());
        body.push(self.flags);
        assert(body@ =~= header_bytes(self@));
        let payload = bytes_as_slice(&self.payload);
        let _ = encode_u64(self.seq, &mut body);
        let _ = encode_u64(self.ack, &mut body);
        let _ = encode_u64(payload.len() as u64, &mut body);
        put_slice(&mut body, payload);
        assert(body@ =~= frame_body(self@));
        let mut crc = Crc32::new();
        crc.update(body.as_slice());
        put_slice(dst, body.as_slice());
        put_be32(dst, crc.finish());
        assert(dst@ =~= old(dst)@ + frame_bytes(self@));
    }

    /// The frame as bytes of its own.
    #[must_use]
    pub fn encode(&self) -> (b: Bytes)
        ensures
            bytes_content(b) == frame_bytes(self@),
    {
        let mut buf: Vec<u8> = Vec::new();
        self.encode_into(&mut buf);
        assert(buf@ =~= frame_bytes(self@));
        bytes_from_vec(buf)
    }
}

} // verus!
