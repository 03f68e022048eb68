//! The typed payloads of the commands and their encodings: integers as
//! variable-length integers, strings and byte runs behind their length.

use bytes::Bytes;
use vstd::prelude::*;
use vstd::utf8::{decode_utf8, encode_utf8, valid_utf8};
use crate::octets::{
    bytes_as_slice, bytes_content, bytes_copy_from_slice, bytes_from_vec, copy_range, put_slice,
};
use crate::protocol::error::ProtocolError;
use crate::protocol::frame::{Cmd, Frame, FrameModel, cmd_byte, frame_bytes};
use crate::protocol::varint;
use crate::protocol::varint::{
    VarintRead, encode_u64, law_varint_round_trip, lemma_read_bounds, lemma_varint_read_stable,
    varint_bytes, varint_read,
};
use crate::text::{utf8_to_string};

verus! {

// ---------------------------------------------------------------------------
// Fields
// ---------------------------------------------------------------------------

/// A byte run behind its length.
pub open spec fn run_bytes(s: Seq<u8>) -> Seq<u8> {
    varint_bytes(s.len()) + s
}

/// A string behind its length in bytes.
pub open spec fn text_bytes(s: Seq<char>) -> Seq<u8> {
    run_bytes(encode_utf8(s))
}

/// Takes an integer off the head of `s`.
pub open spec fn take_varint(s: Seq<u8>) -> Result<(u64, Seq<u8>), ProtocolError> {
    match varint_read(s) {
        VarintRead::Done(v, n) => Ok((v, s.skip(n as int))),
        _ => Err(ProtocolError::PayloadTooShort { need: 1, got: 0 }),
    }
}

/// Takes a byte run off the head of `s`.
pub open spec fn take_run(s: Seq<u8>) -> Result<(Seq<u8>, Seq<u8>), ProtocolError> {
    match take_varint(s) {
        Err(e) => Err(e),
        Ok((len, rest)) => if len > usize::MAX {
            Err(ProtocolError::PayloadTooShort { need: usize::MAX, got: rest.len() as usize })
        } else if rest.len() < len {
            Err(
                ProtocolError::PayloadTooShort {
                    need: (len - rest.len()) as usize,
                    got: rest.len() as usize,
                },
            )
        } else {
            Ok((rest.take(len as int), rest.skip(len as int)))
        },
    }
}

/// Takes a string off the head of `s`.
pub open spec fn take_text(s: Seq<u8>) -> Result<(Seq<char>, Seq<u8>), ProtocolError> {
    match take_run(s) {
        Err(e) => Err(e),
        Ok((run, rest)) => if valid_utf8(run) {
            Ok((decode_utf8(run), rest))
        } else {
            Err(ProtocolError::InvalidUtf8)
        },
    }
}

/// `v`, if nothing is left over.
pub open spec fn take_end<T>(v: T, s: Seq<u8>) -> Result<T, ProtocolError> {
    if s.len() == 0 {
        Ok(v)
    } else {
        Err(ProtocolError::TrailingBytes { extra: s.len() as usize })
    }
}

/// An integer field reads back and leaves what follows it.
pub proof fn lemma_take_varint(v: u64, rest: Seq<u8>)
    ensures
        take_varint(varint_bytes(v as nat) + rest) == Ok::<(u64, Seq<u8>), ProtocolError>(
            (v, rest),
        ),
{
    let e = varint_bytes(v as nat);
    law_varint_round_trip(v, rest);
    assert((e + rest).skip(e.len() as int) =~= rest);
}

/// A byte run reads back and leaves what follows it.
pub proof fn lemma_take_run(s: Seq<u8>, rest: Seq<u8>)
    requires
        s.len() <= usize::MAX,
    ensures
        take_run(run_bytes(s) + rest) == Ok::<(Seq<u8>, Seq<u8>), ProtocolError>((s, rest)),
{
    assert(run_bytes(s) + rest =~= varint_bytes(s.len()) + (s + rest));
    lemma_take_varint(s.len() as u64, s + rest);
    assert((s + rest).take(s.len() as int) =~= s);
    assert((s + rest).skip(s.len() as int) =~= rest);
}

/// A string reads back and leaves what follows it.
pub proof fn lemma_take_text(s: Seq<char>, rest: Seq<u8>)
    requires
        encode_utf8(s).len() <= usize::MAX,
    ensures
        take_text(text_bytes(s) + rest) == Ok::<(Seq<char>, Seq<u8>), ProtocolError>((s, rest)),
{
    lemma_take_run(encode_utf8(s), rest);
    vstd::utf8::encode_utf8_valid_utf8(s);
    vstd::utf8::encode_utf8_decode_utf8(s);
}

/// The bytes end too early.
pub open spec fn too_short<T>(r: Result<T, ProtocolError>) -> bool {
    r matches Err(ProtocolError::PayloadTooShort { .. })
}

/// The first `n` bytes of an integer and what follows it: part of the integer is
/// too short; otherwise it reads back and leaves the rest.
pub proof fn lemma_short_varint(v: u64, tail: Seq<u8>, n: int)
    requires
        0 <= n <= varint_bytes(v as nat).len() + tail.len(),
    ensures
        ({
            let e = varint_bytes(v as nat);
            let s = (e + tail).take(n);
            &&& n < e.len() ==> too_short(take_varint(s))
            &&& n >= e.len() ==> take_varint(s) == Ok::<(u64, Seq<u8>), ProtocolError>(
                (v, tail.take(n - e.len())),
            )
        }),
{
    let e = varint_bytes(v as nat);
    let s = (e + tail).take(n);
    if n < e.len() {
        let rest = e.skip(n);
        assert(s + rest =~= e);
        law_varint_round_trip(v, Seq::empty());
        assert(e + Seq::<u8>::empty() =~= e);
        lemma_varint_read_stable(s, rest);
        lemma_read_bounds(s);
    } else {
        assert(s =~= e + tail.take(n - e.len()));
        lemma_take_varint(v, tail.take(n - e.len()));
    }
}

/// The first `n` bytes of a byte run and what follows it.
pub proof fn lemma_short_run(run: Seq<u8>, tail: Seq<u8>, n: int)
    requires
        run.len() <= usize::MAX,
        0 <= n <= run_bytes(run).len() + tail.len(),
    ensures
        ({
            let e = run_bytes(run);
            let s = (e + tail).take(n);
            &&& n < e.len() ==> too_short(take_run(s))
            &&& n >= e.len() ==> take_run(s) == Ok::<(Seq<u8>, Seq<u8>), ProtocolError>(
                (run, tail.take(n - e.len())),
            )
        }),
{
    let e = run_bytes(run);
    let s = (e + tail).take(n);
    let head = varint_bytes(run.len());
    if n < e.len() {
        assert(e + tail =~= head + (run + tail));
        lemma_short_varint(run.len() as u64, run + tail, n);
    } else {
        assert(s =~= e + tail.take(n - e.len()));
        lemma_take_run(run, tail.take(n - e.len()));
    }
}

/// The first `n` bytes of a string, if they are not all.
pub proof fn lemma_short_text(text: Seq<char>, n: int)
    requires
        encode_utf8(text).len() <= usize::MAX,
        0 <= n < text_bytes(text).len(),
    ensures
        too_short(take_text(text_bytes(text).take(n))),
{
    let none = Seq::<u8>::empty();
    lemma_short_run(encode_utf8(text), none, n);
    assert(text_bytes(text) + none =~= text_bytes(text));
}

/// Appends a byte run behind its length.
pub(crate) fn put_bytes(dst: &mut Vec<u8>, bytes: &[u8])
    ensures
        final(dst)@ == old(dst)@ + run_bytes(bytes@),
{
    let _ = encode_u64(bytes.len() as u64, dst);
    put_slice(dst, bytes);
    assert(dst@ =~= old(dst)@ + run_bytes(bytes@));
}

/// Appends a string behind its length.
pub(crate) fn put_string(dst: &mut Vec<u8>, s: &str)
    ensures
        final(dst)@ == old(dst)@ + text_bytes(s@),
{
    put_bytes(dst, s.as_bytes());
}

/// A place in a payload that is being read.
pub(crate) struct Reader<'a> {
    src: &'a [u8],
    pos: usize,
}

impl<'a> Reader<'a> {
    /// What has not been read.
    pub closed spec fn rest(&self) -> Seq<u8> {
        self.src@.skip(self.pos as int)
    }

    pub closed spec fn wf(&self) -> bool {
        self.pos <= self.src@.len()
    }

    pub(crate) fn new(src: &'a [u8]) -> (r: Self)
        ensures
            r.wf(),
            r.rest() == src@,
    {
        assert(src@.skip(0) =~= src@);
        Reader { src, pos: 0 }
    }

    /// The number of bytes not read.
    pub(crate) fn remaining(&self) -> (n: usize)
        requires
            self.wf(),
        ensures
            n == self.rest().len(),
    {
        self.src.len() - self.pos
    }

    /// Reads an integer.
    pub(crate) fn varint(&mut self) -> (r: Result<u64, ProtocolError>)
        requires
            old(self).wf(),
        ensures
            final(self).wf(),
            match take_varint(old(self).rest()) {
                Ok((v, rest)) => r == Ok::<u64, ProtocolError>(v) && final(self).rest() == rest,
                Err(e) => r == Err::<u64, ProtocolError>(e),
            },
    {
        let tail = vstd::slice::slice_subrange(self.src, self.pos, self.src.len());
        assert(tail@ =~= self.rest());
        match varint::decode_u64(tail) {
            Some((value, used)) => {
                self.pos = self.pos + used;
                assert(self.rest() =~= old(self).rest().skip(used as int));
                Ok(value)
            },
            None => Err(ProtocolError::PayloadTooShort { need: 1, got: 0 }),
        }
    }

    /// Reads a byte run.
    pub(crate) fn byte_run(&mut self) -> (r: Result<&'a [u8], ProtocolError>)
        requires
            old(self).wf(),
        ensures
            final(self).wf(),
            match take_run(old(self).rest()) {
                Ok((run, rest)) => r is Ok && r->Ok_0@ == run && final(self).rest() == rest,
                Err(e) => r == Err::<&'a [u8], ProtocolError>(e),
            },
    {
        let len: u64 = self.varint()?;
        let rest: usize = self.remaining();
        if len > usize::MAX as u64 {
            return Err(ProtocolError::PayloadTooShort { need: usize::MAX, got: rest });
        }
        let len: usize = len as usize;
        if rest < len {
            return Err(ProtocolError::PayloadTooShort { need: len - rest, got: rest });
        }
        let ghost before = self.rest();
        let end: usize = self.src.len() - (rest - len);
        let head = vstd::slice::slice_subrange(self.src, self.pos, end);
        self.pos = end;
        assert(head@ =~= before.take(len as int));
        assert(self.rest() =~= before.skip(len as int));
        Ok(head)
    }

    /// Reads a string.
    pub(crate) fn string(&mut self) -> (r: Result<String, ProtocolError>)
        requires
            old(self).wf(),
        ensures
            final(self).wf(),
            match take_text(old(self).rest()) {
                Ok((s, rest)) => r is Ok && r->Ok_0@ == s && final(self).rest() == rest,
                Err(e) => r == Err::<String, ProtocolError>(e),
            },
    {
        let raw = self.byte_run()?;
        let copy = copy_range(raw, 0, raw.len());
        assert(copy@ =~= raw@);
        match utf8_to_string(copy) {
            Some(s) => Ok(s),
            None => Err(ProtocolError::InvalidUtf8),
        }
    }

    /// The end of the payload: an error if anything is left over.
    pub(crate) fn finish(&self) -> (r: Result<(), ProtocolError>)
        requires
            self.wf(),
        ensures
            r == take_end((), self.rest()),
    {
        let extra: usize = self.remaining();
        if extra == 0 {
            Ok(())
        } else {
            Err(ProtocolError::TrailingBytes { extra })
        }
    }
}

// ---------------------------------------------------------------------------
// Payloads
// ---------------------------------------------------------------------------

/// A message body that fills the payload of a frame. Its view is what it says,
/// with strings and byte runs as sequences.
pub trait Payload: Sized + View {
    /// The command whose frames carry it.
    spec fn command() -> Cmd;

    /// The bytes of a body.
    spec fn wire(v: Self::V) -> Seq<u8>;

    /// The body that bytes stand for, or the first thing wrong with them.
    spec fn parse(s: Seq<u8>) -> Result<Self::V, ProtocolError>;

    /// The lengths in a body fit in memory.
    spec fn fits(v: Self::V) -> bool;

    /// What was encoded decodes to itself.
    proof fn law_round_trip(v: Self::V)
        requires
            Self::fits(v),
        ensures
            Self::parse(Self::wire(v)) == Ok::<Self::V, ProtocolError>(v),
    ;

    /// An encoding that is cut off is refused as too short, wherever it is cut.
    proof fn law_cut_off_is_refused(v: Self::V, n: int)
        requires
            Self::fits(v),
            0 <= n < Self::wire(v).len(),
        ensures
            too_short(Self::parse(Self::wire(v).take(n))),
    ;

    /// Bytes behind an encoding are refused, and counted.
    proof fn law_left_over_is_refused(v: Self::V, extra: Seq<u8>)
        requires
            Self::fits(v),
            0 < extra.len() <= usize::MAX,
        ensures
            Self::parse(Self::wire(v) + extra) == Err::<Self::V, ProtocolError>(
                ProtocolError::TrailingBytes { extra: extra.len() as usize },
            ),
    ;

    /// The command whose frames carry it.
    fn cmd() -> (c: Cmd)
        ensures
            c == Self::command(),
    ;

    /// Appends the encoding to `dst`.
    fn encode_into(&self, dst: &mut Vec<u8>)
        ensures
            final(dst)@ == old(dst)@ + Self::wire(self@),
    ;

    /// Decodes a payload, which must hold the body and nothing else.
    fn decode(src: &[u8]) -> (r: Result<Self, ProtocolError>)
        ensures
            match Self::parse(src@) {
                Ok(v) => r is Ok && r->Ok_0@ == v,
                Err(e) => r == Err::<Self, ProtocolError>(e),
            },
    ;

    /// The encoding as bytes of its own.
    fn encode(&self) -> (b: Bytes)
        ensures
            bytes_content(b) == Self::wire(self@),
    {
        let mut buf: Vec<u8> = Vec::new();
        self.encode_into(&mut buf);
        assert(buf@ =~= Self::wire(self@));
        bytes_from_vec(buf)
    }

    /// A whole frame around the body.
    fn encode_frame(&self, seq: u64, ack: u64) -> (f: Frame)
        ensures
            f@ == (FrameModel {
                cmd: Self::command(),
                flags: 0,
                seq,
                ack,
                payload: Self::wire(self@),
            }),
    {
        Frame::new(Self::cmd(), seq, ack, self.encode())
    }

    /// Decodes the payload of a frame, whose command must be the body's own.
    fn decode_frame(frame: &Frame) -> (r: Result<Self, ProtocolError>)
        ensures
            frame@.cmd != Self::command() ==> r == Err::<Self, ProtocolError>(
                ProtocolError::UnknownCommand { got: cmd_byte(frame@.cmd) },
            ),
            frame@.cmd == Self::command() ==> match Self::parse(frame@.payload) {
                Ok(v) => r is Ok && r->Ok_0@ == v,
                Err(e) => r == Err::<Self, ProtocolError>(e),
            },
    {
        if frame.cmd != Self::cmd() {
            return Err(ProtocolError::UnknownCommand { got: frame.cmd.to_byte() });
        }
        Self::decode(bytes_as_slice(&frame.payload))
    }
}

/// Login credentials, client to server.
#[derive(Debug, Clone, PartialEq, Eq)]
pub struct Handshake {
    /// Who logs in.
    pub user_id: u64,
    /// The credential.
    pub token: String,
}

/// What a [`Handshake`] says.
#[verifier::ext_equal]
pub struct HandshakeModel {
    pub user_id: u64,
    pub token: Seq<char>,
}

impl View for Handshake {
    type V = HandshakeModel;

    open spec fn view(&self) -> HandshakeModel {
        HandshakeModel { user_id: self.user_id, token: self.token@ }
    }
}

impl Payload for Handshake {
    open spec fn command() -> Cmd {
        Cmd::Handshake
    }

    open spec fn wire(v: HandshakeModel) -> Seq<u8> {
        varint_bytes(v.user_id as nat) + text_bytes(v.token)
    }

    open spec fn parse(s: Seq<u8>) -> Result<HandshakeModel, ProtocolError> {
        match take_varint(s) {
            Err(e) => Err(e),
            Ok((user_id, s1)) => match take_text(s1) {
                Err(e) => Err(e),
                Ok((token, s2)) => take_end(HandshakeModel { user_id, token }, s2),
            },
        }
    }

    open spec fn fits(v: HandshakeModel) -> bool {
        encode_utf8(v.token).len() <= usize::MAX
    }

    proof fn law_round_trip(v: HandshakeModel) {
        let none = Seq::<u8>::empty();
        lemma_take_varint(v.user_id, text_bytes(v.token));
        lemma_take_text(v.token, none);
        assert(text_bytes(v.token) + none =~= text_bytes(v.token));
    }

    proof fn law_cut_off_is_refused(v: HandshakeModel, n: int) {
        let e = varint_bytes(v.user_id as nat);
        lemma_short_varint(v.user_id, text_bytes(v.token), n);
        if n >= e.len() {
            lemma_short_text(v.token, n - e.len());
        }
    }

    proof fn law_left_over_is_refused(v: HandshakeModel, extra: Seq<u8>) {
        let t = text_bytes(v.token);
        assert(Self::wire(v) + extra =~= varint_bytes(v.user_id as nat) + (t + extra));
        lemma_take_varint(v.user_id, t + extra);
        lemma_take_text(v.token, extra);
    }

    fn cmd() -> (c: Cmd) {
        Cmd::Handshake
    }

    fn encode_into(&self, dst: &mut Vec<u8>) {
        let _ = encode_u64(self.user_id, dst);
        put_string(dst, self.token.as_str());
        assert(dst@ =~= old(dst)@ + Self::wire(self@));
    }

    fn decode(src: &[u8]) -> (r: Result<Self, ProtocolError>) {
        let mut r = Reader::new(src);
        let user_id: u64 = r.varint()?;
        let token = r.string()?;
        r.finish()?;
        Ok(Handshake { user_id, token })
    }
}

/// The answer to a login, server to client.
#[derive(Debug, Clone, PartialEq, Eq)]
pub struct HandshakeAck {
    /// The session, or zero for a rejection.
    pub session_id: u64,
    /// Why the login was rejected; empty if it was not.
    pub reason: String,
}

/// What a [`HandshakeAck`] says.
#[verifier::ext_equal]
pub struct HandshakeAckModel {
    pub session_id: u64,
    pub reason: Seq<char>,
}

impl View for HandshakeAck {
    type V = HandshakeAckModel;

    open spec fn view(&self) -> HandshakeAckModel {
        HandshakeAckModel { session_id: self.session_id, reason: self.reason@ }
    }
}

impl HandshakeAck {
    /// The answer that opens a session.
    #[must_use]
    pub fn accepted(session_id: u64) -> (r: Self)
        ensures
            r@ == (HandshakeAckModel { session_id, reason: Seq::empty() }),
    {
        HandshakeAck { session_id, reason: String::new() }
    }

    /// The answer that refuses one.
    #[must_use]
    pub fn rejected(reason: &str) -> (r: Self)
        ensures
            r@ == (HandshakeAckModel { session_id: 0, reason: reason@ }),
    {
        HandshakeAck { session_id: 0, reason: reason.to_owned() }
    }

    /// Whether a session was opened.
    #[must_use]
    pub fn is_accepted(&self) -> (r: bool)
        ensures
            r == (self@.session_id != 0),
    {
        self.session_id != 0
    }
}

impl Payload for HandshakeAck {
    open spec fn command() -> Cmd {
        Cmd::HandshakeAck
    }

    open spec fn wire(v: HandshakeAckModel) -> Seq<u8> {
        varint_bytes(v.session_id as nat) + text_bytes(v.reason)
    }

    open spec fn parse(s: Seq<u8>) -> Result<HandshakeAckModel, ProtocolError> {
        match take_varint(s) {
            Err(e) => Err(e),
            Ok((session_id, s1)) => match take_text(s1) {
                Err(e) => Err(e),
                Ok((reason, s2)) => take_end(HandshakeAckModel { session_id, reason }, s2),
            },
        }
    }

    open spec fn fits(v: HandshakeAckModel) -> bool {
        encode_utf8(v.reason).len() <= usize::MAX
    }

    proof fn law_round_trip(v: HandshakeAckModel) {
        let none = Seq::<u8>::empty();
        lemma_take_varint(v.session_id, text_bytes(v.reason));
        lemma_take_text(v.reason, none);
        assert(text_bytes(v.reason) + none =~= text_bytes(v.reason));
    }

    proof fn law_cut_off_is_refused(v: HandshakeAckModel, n: int) {
        let e = varint_bytes(v.session_id as nat);
        lemma_short_varint(v.session_id, text_bytes(v.reason), n);
        if n >= e.len() {
            lemma_short_text(v.reason, n - e.len());
        }
    }

    proof fn law_left_over_is_refused(v: HandshakeAckModel, extra: Seq<u8>) {
        let t = text_bytes(v.reason);
        assert(Self::wire(v) + extra =~= varint_bytes(v.session_id as nat) + (t + extra));
        lemma_take_varint(v.session_id, t + extra);
        lemma_take_text(v.reason, extra);
    }

    fn cmd() -> (c: Cmd) {
        Cmd::HandshakeAck
    }

    fn encode_into(&self, dst: &mut Vec<u8>) {
        let _ = encode_u64(self.session_id, dst);
        put_string(dst, self.reason.as_str());
        assert(dst@ =~= old(dst)@ + Self::wire(self@));
    }

    fn decode(src: &[u8]) -> (r: Result<Self, ProtocolError>) {
        let mut r = Reader::new(src);
        let session_id: u64 = r.varint()?;
        let reason = r.string()?;
        r.finish()?;
        Ok(HandshakeAck { session_id, reason })
    }
}

/// A chat message, in both directions. The server decides `from` and assigns
/// `msg_id`.
#[derive(Debug, Clone, PartialEq, Eq)]
pub struct Msg {
    /// The sender.
    pub from: u64,
    /// The recipient.
    pub to: u64,
    /// The server's number for the message.
    pub msg_id: u64,
    /// What it says.
    pub content: Bytes,
}

/// What a [`Msg`] says.
#[verifier::ext_equal]
pub struct MsgModel {
    pub from: u64,
    pub to: u64,
    pub msg_id: u64,
    pub content: Seq<u8>,
}

impl View for Msg {
    type V = MsgModel;

    open spec fn view(&self) -> MsgModel {
        MsgModel {
            from: self.from,
            to: self.to,
            msg_id: self.msg_id,
            content: bytes_content(self.content),
        }
    }
}

impl Payload for Msg {
    open spec fn command() -> Cmd {
        Cmd::Msg
    }

    open spec fn wire(v: MsgModel) -> Seq<u8> {
        varint_bytes(v.from as nat) + (varint_bytes(v.to as nat) + (varint_bytes(v.msg_id as nat)
            + run_bytes(v.content)))
    }

    open spec fn parse(s: Seq<u8>) -> Result<MsgModel, ProtocolError> {
        match take_varint(s) {
            Err(e) => Err(e),
            Ok((from, s1)) => match take_varint(s1) {
                Err(e) => Err(e),
                Ok((to, s2)) => match take_varint(s2) {
                    Err(e) => Err(e),
                    Ok((msg_id, s3)) => match take_run(s3) {
                        Err(e) => Err(e),
                        Ok((content, s4)) => take_end(MsgModel { from, to, msg_id, content }, s4),
                    },
                },
            },
        }
    }

    open spec fn fits(v: MsgModel) -> bool {
        v.content.len() <= usize::MAX
    }

    proof fn law_round_trip(v: MsgModel) {
        let none = Seq::<u8>::empty();
        let t3 = run_bytes(v.content);
        let t2 = varint_bytes(v.msg_id as nat) + t3;
        let t1 = varint_bytes(v.to as nat) + t2;
        lemma_take_varint(v.from, t1);
        lemma_take_varint(v.to, t2);
        lemma_take_varint(v.msg_id, t3);
        lemma_take_run(v.content, none);
        assert(t3 + none =~= t3);
    }

    proof fn law_cut_off_is_refused(v: MsgModel, n: int) {
        let none = Seq::<u8>::empty();
        let t3 = run_bytes(v.content);
        let t2 = varint_bytes(v.msg_id as nat) + t3;
        let t1 = varint_bytes(v.to as nat) + t2;
        let a = varint_bytes(v.from as nat).len();
        let b = a + varint_bytes(v.to as nat).len();
        let c = b + varint_bytes(v.msg_id as nat).len();
        lemma_short_varint(v.from, t1, n);
        if n >= a {
            lemma_short_varint(v.to, t2, n - a);
        }
        if n >= b {
            lemma_short_varint(v.msg_id, t3, n - b);
        }
        if n >= c {
            lemma_short_run(v.content, none, n - c);
            assert(t3 + none =~= t3);
        }
    }

    proof fn law_left_over_is_refused(v: MsgModel, extra: Seq<u8>) {
        let t3 = run_bytes(v.content) + extra;
        let t2 = varint_bytes(v.msg_id as nat) + t3;
        let t1 = varint_bytes(v.to as nat) + t2;
        assert(Self::wire(v) + extra =~= varint_bytes(v.from as nat) + t1);
        lemma_take_varint(v.from, t1);
        lemma_take_varint(v.to, t2);
        lemma_take_varint(v.msg_id, t3);
        lemma_take_run(v.content, extra);
    }

    fn cmd() -> (c: Cmd) {
        Cmd::Msg
    }

    fn encode_into(&self, dst: &mut Vec<u8>) {
        let _ = encode_u64(self.from, dst);
        let _ = encode_u64(self.to, dst);
        let _ = encode_u64(self.msg_id, dst);
        put_bytes(dst, bytes_as_slice(&self.content));
        assert(dst@ =~= old(dst)@ + Self::wire(self@));
    }

    fn decode(src: &[u8]) -> (r: Result<Self, ProtocolError>) {
        let mut r = Reader::new(src);
        let from: u64 = r.varint()?;
        let to: u64 = r.varint()?;
        let msg_id: u64 = r.varint()?;
        let raw = r.byte_run()?;
        let content = bytes_copy_from_slice(raw);
        r.finish()?;
        Ok(Msg { from, to, msg_id, content })
    }
}

/// The server's confirmation of a chat message.
#[derive(Debug, Clone, PartialEq, Eq, Structural)]
pub struct MsgAck {
    /// The confirmed message.
    pub msg_id: u64,
}

impl View for MsgAck {
    type V = u64;

    open spec fn view(&self) -> u64 {
        self.msg_id
    }
}

impl Payload for MsgAck {
    open spec fn command() -> Cmd {
        Cmd::MsgAck
    }

    open spec fn wire(v: u64) -> Seq<u8> {
        varint_bytes(v as nat)
    }

    open spec fn parse(s: Seq<u8>) -> Result<u64, ProtocolError> {
        match take_varint(s) {
            Err(e) => Err(e),
            Ok((msg_id, s1)) => take_end(msg_id, s1),
        }
    }

    open spec fn fits(v: u64) -> bool {
        true
    }

    proof fn law_round_trip(v: u64) {
        let none = Seq::<u8>::empty();
        lemma_take_varint(v, none);
        assert(varint_bytes(v as nat) + none =~= varint_bytes(v as nat));
    }

    proof fn law_cut_off_is_refused(v: u64, n: int) {
        let none = Seq::<u8>::empty();
        lemma_short_varint(v, none, n);
        assert(varint_bytes(v as nat) + none =~= varint_bytes(v as nat));
    }

    proof fn law_left_over_is_refused(v: u64, extra: Seq<u8>) {
        lemma_take_varint(v, extra);
    }

    fn cmd() -> (c: Cmd) {
        Cmd::MsgAck
    }

    fn encode_into(&self, dst: &mut Vec<u8>) {
        let _ = encode_u64(self.msg_id, dst);
    }

    fn decode(src: &[u8]) -> (r: Result<Self, ProtocolError>) {
        let mut r = Reader::new(src);
        let msg_id: u64 = r.varint()?;
        r.finish()?;
        Ok(MsgAck { msg_id })
    }
}

/// The request for the messages behind a cursor.
#[derive(Debug, Clone, PartialEq, Eq, Structural)]
pub struct SyncReq {
    /// Messages with a larger number are wanted.
    pub since: u64,
}

impl View for SyncReq {
    type V = u64;

    open spec fn view(&self) -> u64 {
        self.since
    }
}

impl Payload for SyncReq {
    open spec fn command() -> Cmd {
        Cmd::SyncReq
    }

    open spec fn wire(v: u64) -> Seq<u8> {
        varint_bytes(v as nat)
    }

    open spec fn parse(s: Seq<u8>) -> Result<u64, ProtocolError> {
        match take_varint(s) {
            Err(e) => Err(e),
            Ok((since, s1)) => take_end(since, s1),
        }
    }

    open spec fn fits(v: u64) -> bool {
        true
    }

    proof fn law_round_trip(v: u64) {
        let none = Seq::<u8>::empty();
        lemma_take_varint(v, none);
        assert(varint_bytes(v as nat) + none =~= varint_bytes(v as nat));
    }

    proof fn law_cut_off_is_refused(v: u64, n: int) {
        let none = Seq::<u8>::empty();
        lemma_short_varint(v, none, n);
        assert(varint_bytes(v as nat) + none =~= varint_bytes(v as nat));
    }

    proof fn law_left_over_is_refused(v: u64, extra: Seq<u8>) {
        lemma_take_varint(v, extra);
    }

    fn cmd() -> (c: Cmd) {
        Cmd::SyncReq
    }

    fn encode_into(&self, dst: &mut Vec<u8>) {
        let _ = encode_u64(self.since, dst);
    }

    fn decode(src: &[u8]) -> (r: Result<Self, ProtocolError>) {
        let mut r = Reader::new(src);
        let since: u64 = r.varint()?;
        r.finish()?;
        Ok(SyncReq { since })
    }
}

/// A batch of bodies, each behind its length.
pub open spec fn batch_bytes<P: Payload>(batch: Seq<P::V>) -> Seq<u8>
    decreases batch.len(),
{
    if batch.len() == 0 {
        Seq::empty()
    } else {
        run_bytes(P::wire(batch[0])) + batch_bytes::<P>(batch.skip(1))
    }
}

/// Takes `n` bodies, each behind its length, off the head of `s`.
pub open spec fn take_batch<P: Payload>(n: nat, s: Seq<u8>) -> Result<
    (Seq<P::V>, Seq<u8>),
    ProtocolError,
>
    decreases n,
{
    if n == 0 {
        Ok((Seq::empty(), s))
    } else {
        match take_run(s) {
            Err(e) => Err(e),
            Ok((run, s1)) => match P::parse(run) {
                Err(e) => Err(e),
                Ok(v) => match take_batch::<P>((n - 1) as nat, s1) {
                    Err(e) => Err(e),
                    Ok((rest, s2)) => Ok((seq![v] + rest, s2)),
                },
            },
        }
    }
}

/// The batch of a whole payload: its size and its bodies, and nothing else.
pub open spec fn parse_batch<P: Payload>(s: Seq<u8>) -> Result<Seq<P::V>, ProtocolError> {
    match take_varint(s) {
        Err(e) => Err(e),
        Ok((count, s1)) => if count > usize::MAX {
            Err(ProtocolError::PayloadTooShort { need: usize::MAX, got: s1.len() as usize })
        } else {
            match take_batch::<P>(count as nat, s1) {
                Err(e) => Err(e),
                Ok((batch, s2)) => take_end(batch, s2),
            }
        },
    }
}

/// Every body of a batch, and its encoding, fits in memory.
pub open spec fn batch_fits<P: Payload>(batch: Seq<P::V>) -> bool {
    &&& batch.len() <= usize::MAX
    &&& forall|i: int|
        0 <= i < batch.len() ==> P::fits(#[trigger] batch[i]) && P::wire(batch[i]).len()
            <= usize::MAX
}

proof fn lemma_take_batch<P: Payload>(batch: Seq<P::V>, rest: Seq<u8>)
    requires
        batch_fits::<P>(batch),
    ensures
        take_batch::<P>(batch.len(), batch_bytes::<P>(batch) + rest) == Ok::<
            (Seq<P::V>, Seq<u8>),
            ProtocolError,
        >((batch, rest)),
    decreases batch.len(),
{
    if batch.len() == 0 {
        assert(batch =~= Seq::<P::V>::empty());
        assert(batch_bytes::<P>(batch) + rest =~= rest);
    } else {
        let v = batch[0];
        let tail = batch.skip(1);
        assert forall|i: int| 0 <= i < tail.len() implies P::fits(#[trigger] tail[i]) && P::wire(
            tail[i],
        ).len() <= usize::MAX by {
            assert(tail[i] == batch[i + 1]);
        }
        lemma_take_batch::<P>(tail, rest);
        P::law_round_trip(v);
        let more = batch_bytes::<P>(tail) + rest;
        assert(batch_bytes::<P>(batch) + rest =~= run_bytes(P::wire(v)) + more);
        lemma_take_run(P::wire(v), more);
        assert(seq![v] + tail =~= batch);
    }
}

/// A batch decodes to itself.
pub proof fn lemma_batch_round_trip<P: Payload>(batch: Seq<P::V>)
    requires
        batch_fits::<P>(batch),
    ensures
        parse_batch::<P>(varint_bytes(batch.len()) + batch_bytes::<P>(batch)) == Ok::<
            Seq<P::V>,
            ProtocolError,
        >(batch),
{
    let none = Seq::<u8>::empty();
    lemma_take_varint(batch.len() as u64, batch_bytes::<P>(batch));
    lemma_take_batch::<P>(batch, none);
    assert(batch_bytes::<P>(batch) + none =~= batch_bytes::<P>(batch));
}

proof fn lemma_short_bodies<P: Payload>(batch: Seq<P::V>, n: int)
    requires
        batch_fits::<P>(batch),
        0 <= n < batch_bytes::<P>(batch).len(),
    ensures
        too_short(take_batch::<P>(batch.len(), batch_bytes::<P>(batch).take(n))),
    decreases batch.len(),
{
    let v = batch[0];
    let tail = batch.skip(1);
    let e = run_bytes(P::wire(v));
    assert forall|i: int| 0 <= i < tail.len() implies P::fits(#[trigger] tail[i]) && P::wire(
        tail[i],
    ).len() <= usize::MAX by {
        assert(tail[i] == batch[i + 1]);
    }
    lemma_short_run(P::wire(v), batch_bytes::<P>(tail), n);
    if n >= e.len() {
        P::law_round_trip(v);
        lemma_short_bodies::<P>(tail, n - e.len());
    }
}

/// A batch that is cut off is refused as too short.
pub proof fn lemma_short_batch<P: Payload>(batch: Seq<P::V>, n: int)
    requires
        batch_fits::<P>(batch),
        0 <= n < varint_bytes(batch.len()).len() + batch_bytes::<P>(batch).len(),
    ensures
        too_short(
            parse_batch::<P>((varint_bytes(batch.len()) + batch_bytes::<P>(batch)).take(n)),
        ),
{
    let e = varint_bytes(batch.len());
    lemma_short_varint(batch.len() as u64, batch_bytes::<P>(batch), n);
    if n >= e.len() {
        lemma_short_bodies::<P>(batch, n - e.len());
    }
}

/// Bytes behind a batch are refused, and counted.
pub proof fn lemma_batch_left_over<P: Payload>(batch: Seq<P::V>, extra: Seq<u8>)
    requires
        batch_fits::<P>(batch),
        0 < extra.len() <= usize::MAX,
    ensures
        parse_batch::<P>(varint_bytes(batch.len()) + batch_bytes::<P>(batch) + extra) == Err::<
            Seq<P::V>,
            ProtocolError,
        >(ProtocolError::TrailingBytes { extra: extra.len() as usize }),
{
    let t = batch_bytes::<P>(batch) + extra;
    assert(varint_bytes(batch.len()) + batch_bytes::<P>(batch) + extra =~= varint_bytes(batch.len())
        + t);
    lemma_take_varint(batch.len() as u64, t);
    lemma_take_batch::<P>(batch, extra);
}

/// What the bodies of a vector say.
pub open spec fn views<P: Payload>(v: Seq<P>) -> Seq<P::V> {
    v.map_values(|p: P| p@)
}

/// Appends a batch: its size, then each body behind its length.
pub(crate) fn put_batch<P: Payload>(dst: &mut Vec<u8>, batch: &Vec<P>)
    ensures
        final(dst)@ == old(dst)@ + (varint_bytes(batch@.len()) + batch_bytes::<P>(views(batch@))),
{
    let _ = encode_u64(batch.len() as u64, dst);
    let ghost all = views(batch@);
    let mut i: usize = 0;
    assert(all.skip(0) =~= all);
    while i < batch.len()
        invariant
            i <= batch@.len(),
            all == views(batch@),
            dst@ + batch_bytes::<P>(all.skip(i as int)) =~= old(dst)@ + (varint_bytes(batch@.len())
                + batch_bytes::<P>(all)),
        decreases batch@.len() - i,
    {
        let mut body: Vec<u8> = Vec::new();
        batch[i].encode_into(&mut body);
        assert(body@ =~= P::wire(all[i as int]));
        put_bytes(dst, body.as_slice());
        proof {
            let t = all.skip(i as int);
            assert(t[0] == all[i as int]);
            assert(t.skip(1) =~= all.skip(i + 1));
        }
        i = i + 1;
    }
    assert(all.skip(batch@.len() as int) =~= Seq::<P::V>::empty());
}

/// Decodes a batch that fills a payload.
pub(crate) fn decode_batch<P: Payload>(src: &[u8]) -> (r: Result<Vec<P>, ProtocolError>)
    ensures
        match parse_batch::<P>(src@) {
            Ok(vs) => r is Ok && views(r->Ok_0@) == vs,
            Err(e) => r == Err::<Vec<P>, ProtocolError>(e),
        },
{
    let mut r = Reader::new(src);
    let count: u64 = r.varint()?;
    if count > usize::MAX as u64 {
        return Err(ProtocolError::PayloadTooShort { need: usize::MAX, got: r.remaining() });
    }
    let n: usize = count as usize;
    let mut out: Vec<P> = Vec::new();
    let mut i: usize = 0;
    let ghost s1 = r.rest();
    let ghost whole = take_batch::<P>(n as nat, s1);
    assert(views(out@) =~= Seq::<P::V>::empty());
    proof {
        if let Ok((vs, rest)) = whole {
            assert(Seq::<P::V>::empty() + vs =~= vs);
        }
    }
    while i < n
        invariant
            i <= n,
            r.wf(),
            whole == match take_batch::<P>((n - i) as nat, r.rest()) {
                Err(e) => Err::<(Seq<P::V>, Seq<u8>), ProtocolError>(e),
                Ok((vs, rest)) => Ok((views(out@) + vs, rest)),
            },
            parse_batch::<P>(src@) == match whole {
                Err(e) => Err::<Seq<P::V>, ProtocolError>(e),
                Ok((batch, s2)) => take_end(batch, s2),
            },
        decreases n - i,
    {
        let ghost had = views(out@);
        let ghost before = r.rest();
        let raw = r.byte_run()?;
        let p = P::decode(raw)?;
        out.push(p);
        proof {
            assert(views(out@) =~= had.push(p@));
            if let Ok((vs, rest)) = take_batch::<P>((n - i - 1) as nat, r.rest()) {
                assert(had + (seq![p@] + vs) =~= views(out@) + vs);
            }
        }
        i = i + 1;
    }
    proof {
        assert(views(out@) + Seq::<P::V>::empty() =~= views(out@));
    }
    r.finish()?;
    Ok(out)
}

/// The messages that were missed, in the order of their numbers. An empty
/// batch says that there are no more.
#[derive(Debug, Clone, PartialEq, Eq)]
pub struct SyncResp {
    /// The batch.
    pub messages: Vec<Msg>,
}

impl View for SyncResp {
    type V = Seq<MsgModel>;

    open spec fn view(&self) -> Seq<MsgModel> {
        views(self.messages@)
    }
}

impl Payload for SyncResp {
    open spec fn command() -> Cmd {
        Cmd::SyncResp
    }

    open spec fn wire(v: Seq<MsgModel>) -> Seq<u8> {
        varint_bytes(v.len()) + batch_bytes::<Msg>(v)
    }

    open spec fn parse(s: Seq<u8>) -> Result<Seq<MsgModel>, ProtocolError> {
        parse_batch::<Msg>(s)
    }

    open spec fn fits(v: Seq<MsgModel>) -> bool {
        batch_fits::<Msg>(v)
    }

    proof fn law_round_trip(v: Seq<MsgModel>) {
        lemma_batch_round_trip::<Msg>(v);
    }

    proof fn law_cut_off_is_refused(v: Seq<MsgModel>, n: int) {
        lemma_short_batch::<Msg>(v, n);
    }

    proof fn law_left_over_is_refused(v: Seq<MsgModel>, extra: Seq<u8>) {
        lemma_batch_left_over::<Msg>(v, extra);
    }

    fn cmd() -> (c: Cmd) {
        Cmd::SyncResp
    }

    fn encode_into(&self, dst: &mut Vec<u8>) {
        put_batch(dst, &self.messages);
    }

    fn decode(src: &[u8]) -> (r: Result<Self, ProtocolError>) {
        let messages: Vec<Msg> = decode_batch::<Msg>(src)?;
        Ok(SyncResp { messages })
    }
}

/// A body survives the way through a frame of its own.
pub proof fn law_body_survives_frame<P: Payload>(v: P::V, seq: u64, ack: u64, flags: u8, max: nat)
    requires
        P::fits(v),
        P::wire(v).len() <= max,
        P::wire(v).len() <= u64::MAX,
    ensures
        ({
            let frame = FrameModel {
                cmd: P::command(),
                flags,
                seq,
                ack,
                payload: P::wire(v),
            };
            let start = crate::protocol::codec::ScanModel::Header(Seq::empty());
            let out = crate::protocol::codec::run(start, frame_bytes(frame), max);
            &&& out.frames == seq![frame]
            &&& out.error is None
            &&& P::parse(out.frames[0].payload) == Ok::<P::V, ProtocolError>(v)
        }),
{
    let frame = FrameModel { cmd: P::command(), flags, seq, ack, payload: P::wire(v) };
    let none = Seq::<u8>::empty();
    crate::protocol::codec::law_frame_round_trip(frame, none, max);
    assert(frame_bytes(frame) + none =~= frame_bytes(frame));
    assert(seq![frame] + Seq::<FrameModel>::empty() =~= seq![frame]);
    P::law_round_trip(v);
}

/// Every body has a command of its own, which a login, its answer, a message, its
/// confirmation, and the request for missed messages and its answer have on the wire.
pub proof fn law_commands_of_bodies()
    ensures
        cmd_byte(Handshake::command()) == 1,
        cmd_byte(HandshakeAck::command()) == 2,
        cmd_byte(Msg::command()) == 5,
        cmd_byte(MsgAck::command()) == 6,
        cmd_byte(SyncReq::command()) == 7,
        cmd_byte(SyncResp::command()) == 8,
{
}

/// A login whose password is no text is refused for that.
pub proof fn law_password_must_be_text(user_id: u64, raw: Seq<u8>)
    requires
        raw.len() <= usize::MAX,
        !valid_utf8(raw),
    ensures
        Handshake::parse(varint_bytes(user_id as nat) + run_bytes(raw)) == Err::<
            HandshakeModel,
            ProtocolError,
        >(ProtocolError::InvalidUtf8),
{
    let none = Seq::<u8>::empty();
    lemma_take_varint(user_id, run_bytes(raw));
    lemma_take_run(raw, none);
    assert(run_bytes(raw) + none =~= run_bytes(raw));
}

} // verus!
