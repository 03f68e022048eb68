//! The bodies that client and server exchange: chat messages that carry, next to
//! the server's number, one that the sender gave them and that stays the same
//! when they are sent again.

use bytes::Bytes;
use vstd::prelude::*;
use crate::octets::{bytes_as_slice, bytes_content, bytes_copy_from_slice};
use crate::protocol::error::ProtocolError;
use crate::protocol::frame::{Cmd, cmd_byte};
use crate::protocol::payload::{
    Payload, Reader, batch_bytes, batch_fits, decode_batch, lemma_batch_left_over,
    lemma_batch_round_trip, lemma_short_batch, lemma_short_run, lemma_short_varint, lemma_take_run,
    lemma_take_varint, parse_batch, put_batch, put_bytes, run_bytes, take_end, take_run,
    take_varint, too_short, views,
};
use crate::protocol::varint::{encode_u64, varint_bytes};

verus! {

/// A chat message, in both directions. The server decides `from` and assigns
/// `msg_id`.
#[derive(Debug, PartialEq, Eq)]
pub struct Msg {
    /// The sender.
    pub from: u64,
    /// The recipient.
    pub to: u64,
    /// The server's number for the message.
    pub msg_id: u64,
    /// The sender's number for the message, the same however often it is sent.
    pub client_msg_id: u64,
    /// What it says.
    pub content: Bytes,
}

/// What a [`Msg`] says.
#[verifier::ext_equal]
pub struct MsgModel {
    pub from: u64,
    pub to: u64,
    pub msg_id: u64,
    pub client_msg_id: u64,
    pub content: Seq<u8>,
}

impl View for Msg {
    type V = MsgModel;

    open spec fn view(&self) -> MsgModel {
        MsgModel {
            from: self.from,
            to: self.to,
            msg_id: self.msg_id,
            client_msg_id: self.client_msg_id,
            content: bytes_content(self.content),
        }
    }
}

impl Clone for Msg {
    fn clone(&self) -> (r: Self)
        ensures
            r@ == self@,
    {
        Msg {
            from: self.from,
            to: self.to,
            msg_id: self.msg_id,
            client_msg_id: self.client_msg_id,
            content: self.content.clone(),
        }
    }
}

/// How long the four numbers of a message are.
spec fn ids_len(ids: (u64, u64, u64, u64)) -> nat {
    varint_bytes(ids.0 as nat).len() + varint_bytes(ids.1 as nat).len() + varint_bytes(
        ids.2 as nat,
    ).len() + varint_bytes(ids.3 as nat).len()
}

/// The four numbers of a message at the head of `s`, and what follows them.
spec fn take_ids(s: Seq<u8>) -> Result<((u64, u64, u64, u64), Seq<u8>), ProtocolError> {
    match take_varint(s) {
        Err(e) => Err(e),
        Ok((a, s1)) => match take_varint(s1) {
            Err(e) => Err(e),
            Ok((b, s2)) => match take_varint(s2) {
                Err(e) => Err(e),
                Ok((c, s3)) => match take_varint(s3) {
                    Err(e) => Err(e),
                    Ok((d, s4)) => Ok(((a, b, c, d), s4)),
                },
            },
        },
    }
}

/// The first `n` bytes of the four numbers of a message and what follows them.
#[verifier::spinoff_prover]
proof fn lemma_short_ids(ids: (u64, u64, u64, u64), tail: Seq<u8>, n: int)
    requires
        0 <= n <= ids_len(ids) + tail.len(),
    ensures
        ({
            let s = (varint_bytes(ids.0 as nat) + (varint_bytes(ids.1 as nat) + (varint_bytes(
                ids.2 as nat,
            ) + (varint_bytes(ids.3 as nat) + tail)))).take(n);
            &&& n < ids_len(ids) ==> too_short(take_ids(s))
            &&& n >= ids_len(ids) ==> take_ids(s) == Ok::<
                ((u64, u64, u64, u64), Seq<u8>),
                ProtocolError,
            >((ids, tail.take(n - ids_len(ids))))
        }),
{
    let t3 = varint_bytes(ids.3 as nat) + tail;
    let t2 = varint_bytes(ids.2 as nat) + t3;
    let t1 = varint_bytes(ids.1 as nat) + t2;
    let a = varint_bytes(ids.0 as nat).len();
    let b = a + varint_bytes(ids.1 as nat).len();
    let c = b + varint_bytes(ids.2 as nat).len();
    lemma_short_varint(ids.0, t1, n);
    if n >= a {
        lemma_short_varint(ids.1, t2, n - a);
        if n >= b {
            lemma_short_varint(ids.2, t3, n - b);
            if n >= c {
                lemma_short_varint(ids.3, tail, n - c);
            }
        }
    }
}

impl Payload for Msg {
    open spec fn command() -> Cmd {
        Cmd::Msg
    }

    open spec fn wire(v: MsgModel) -> Seq<u8> {
        varint_bytes(v.from as nat) + (varint_bytes(v.to as nat) + (varint_bytes(v.msg_id as nat)
            + (varint_bytes(v.client_msg_id as nat) + run_bytes(v.content))))
    }

    open spec fn parse(s: Seq<u8>) -> Result<MsgModel, ProtocolError> {
        match take_varint(s) {
            Err(e) => Err(e),
            Ok((from, s1)) => match take_varint(s1) {
                Err(e) => Err(e),
                Ok((to, s2)) => match take_varint(s2) {
                    Err(e) => Err(e),
                    Ok((msg_id, s3)) => match take_varint(s3) {
                        Err(e) => Err(e),
                        Ok((client_msg_id, s4)) => match take_run(s4) {
                            Err(e) => Err(e),
                            Ok((content, s5)) => take_end(
                                MsgModel { from, to, msg_id, client_msg_id, content },
                                s5,
                            ),
                        },
                    },
                },
            },
        }
    }

    open spec fn fits(v: MsgModel) -> bool {
        v.content.len() <= usize::MAX
    }

    proof fn law_round_trip(v: MsgModel) {
        let none = Seq::<u8>::empty();
        let t4 = run_bytes(v.content);
        let t3 = varint_bytes(v.client_msg_id as nat) + t4;
        let t2 = varint_bytes(v.msg_id as nat) + t3;
        let t1 = varint_bytes(v.to as nat) + t2;
        lemma_take_varint(v.from, t1);
        lemma_take_varint(v.to, t2);
        lemma_take_varint(v.msg_id, t3);
        lemma_take_varint(v.client_msg_id, t4);
        lemma_take_run(v.content, none);
        assert(t4 + none =~= t4);
    }

    proof fn law_cut_off_is_refused(v: MsgModel, n: int) {
        let ids = (v.from, v.to, v.msg_id, v.client_msg_id);
        lemma_short_ids(ids, run_bytes(v.content), n);
        let d = ids_len(ids);
        if n >= d {
            let none = Seq::<u8>::empty();
            lemma_short_run(v.content, none, n - d);
            assert(run_bytes(v.content) + none =~= run_bytes(v.content));
        }
    }

    proof fn law_left_over_is_refused(v: MsgModel, extra: Seq<u8>) {
        let t4 = run_bytes(v.content) + extra;
        let t3 = varint_bytes(v.client_msg_id as nat) + t4;
        let t2 = varint_bytes(v.msg_id as nat) + t3;
        let t1 = varint_bytes(v.to as nat) + t2;
        assert(Self::wire(v) + extra =~= varint_bytes(v.from as nat) + t1);
        lemma_take_varint(v.from, t1);
        lemma_take_varint(v.to, t2);
        lemma_take_varint(v.msg_id, t3);
        lemma_take_varint(v.client_msg_id, t4);
        lemma_take_run(v.content, extra);
    }

    fn cmd() -> (c: Cmd) {
        Cmd::Msg
    }

    fn encode_into(&self, dst: &mut Vec<u8>) {
        let _ = encode_u64(self.from, dst);
        let _ = encode_u64(self.to, dst);
        let _ = encode_u64(self.msg_id, dst);
        let _ = encode_u64(self.client_msg_id, dst);
        put_bytes(dst, bytes_as_slice(&self.content));
        assert(dst@ =~= old(dst)@ + Self::wire(self@));
    }

    fn decode(src: &[u8]) -> (r: Result<Self, ProtocolError>) {
        let mut r = Reader::new(src);
        let from: u64 = r.varint()?;
        let to: u64 = r.varint()?;
        let msg_id: u64 = r.varint()?;
        let client_msg_id: u64 = r.varint()?;
        let raw = r.byte_run()?;
        let content = bytes_copy_from_slice(raw);
        r.finish()?;
        Ok(Msg { from, to, msg_id, client_msg_id, content })
    }
}

/// The server's confirmation of a chat message.
#[derive(Debug, Clone, Copy, PartialEq, Eq, Structural)]
pub struct MsgAck {
    /// The server's number for the message.
    pub msg_id: u64,
    /// The sender's number for the message.
    pub client_msg_id: u64,
}

impl View for MsgAck {
    type V = MsgAck;

    open spec fn view(&self) -> MsgAck {
        *self
    }
}

impl Payload for MsgAck {
    open spec fn command() -> Cmd {
        Cmd::MsgAck
    }

    open spec fn wire(v: MsgAck) -> Seq<u8> {
        varint_bytes(v.msg_id as nat) + varint_bytes(v.client_msg_id as nat)
    }

    open spec fn parse(s: Seq<u8>) -> Result<MsgAck, ProtocolError> {
        match take_varint(s) {
            Err(e) => Err(e),
            Ok((msg_id, s1)) => match take_varint(s1) {
                Err(e) => Err(e),
                Ok((client_msg_id, s2)) => take_end(MsgAck { msg_id, client_msg_id }, s2),
            },
        }
    }

    open spec fn fits(v: MsgAck) -> bool {
        true
    }

    proof fn law_round_trip(v: MsgAck) {
        let none = Seq::<u8>::empty();
        let t1 = varint_bytes(v.client_msg_id as nat);
        lemma_take_varint(v.msg_id, t1);
        lemma_take_varint(v.client_msg_id, none);
        assert(t1 + none =~= t1);
    }

    proof fn law_cut_off_is_refused(v: MsgAck, n: int) {
        let none = Seq::<u8>::empty();
        let t1 = varint_bytes(v.client_msg_id as nat);
        let a = varint_bytes(v.msg_id as nat).len();
        lemma_short_varint(v.msg_id, t1, n);
        if n >= a {
            lemma_short_varint(v.client_msg_id, none, n - a);
            assert(t1 + none =~= t1);
        }
    }

    proof fn law_left_over_is_refused(v: MsgAck, extra: Seq<u8>) {
        let t1 = varint_bytes(v.client_msg_id as nat) + extra;
        assert(Self::wire(v) + extra =~= varint_bytes(v.msg_id as nat) + t1);
        lemma_take_varint(v.msg_id, t1);
        lemma_take_varint(v.client_msg_id, extra);
    }

    fn cmd() -> (c: Cmd) {
        Cmd::MsgAck
    }

    fn encode_into(&self, dst: &mut Vec<u8>) {
        let _ = encode_u64(self.msg_id, dst);
        let _ = encode_u64(self.client_msg_id, dst);
        assert(dst@ =~= old(dst)@ + Self::wire(self@));
    }

    fn decode(src: &[u8]) -> (r: Result<Self, ProtocolError>) {
        let mut r = Reader::new(src);
        let msg_id: u64 = r.varint()?;
        let client_msg_id: u64 = r.varint()?;
        r.finish()?;
        Ok(MsgAck { msg_id, client_msg_id })
    }
}

/// The messages that were missed, in the order of their numbers.
#[derive(Debug, PartialEq, Eq)]
pub struct SyncResp {
    /// The batch.
    pub messages: Vec<Msg>,
}

impl View for SyncResp {
    type V = Seq<MsgModel>;

    open spec fn view(&self) -> Seq<MsgModel> {
        views(self.messages@)
    }
}

impl Payload for SyncResp {
    open spec fn command() -> Cmd {
        Cmd::SyncResp
    }

    open spec fn wire(v: Seq<MsgModel>) -> Seq<u8> {
        varint_bytes(v.len()) + batch_bytes::<Msg>(v)
    }

    open spec fn parse(s: Seq<u8>) -> Result<Seq<MsgModel>, ProtocolError> {
        parse_batch::<Msg>(s)
    }

    open spec fn fits(v: Seq<MsgModel>) -> bool {
        batch_fits::<Msg>(v)
    }

    proof fn law_round_trip(v: Seq<MsgModel>) {
        lemma_batch_round_trip::<Msg>(v);
    }

    proof fn law_cut_off_is_refused(v: Seq<MsgModel>, n: int) {
        lemma_short_batch::<Msg>(v, n);
    }

    proof fn law_left_over_is_refused(v: Seq<MsgModel>, extra: Seq<u8>) {
        lemma_batch_left_over::<Msg>(v, extra);
    }

    fn cmd() -> (c: Cmd) {
        Cmd::SyncResp
    }

    fn encode_into(&self, dst: &mut Vec<u8>) {
        put_batch(dst, &self.messages);
    }

    fn decode(src: &[u8]) -> (r: Result<Self, ProtocolError>) {
        let messages: Vec<Msg> = decode_batch::<Msg>(src)?;
        Ok(SyncResp { messages })
    }
}

/// The commands with which the client's bodies go over the wire.
pub proof fn law_commands_of_messages()
    ensures
        cmd_byte(Msg::command()) == 5,
        cmd_byte(MsgAck::command()) == 6,
        cmd_byte(SyncResp::command()) == 8,
{
}

} // verus!
