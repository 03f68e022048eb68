//! The incremental frame decoder: bytes go in as they arrive, frames come out
//! when they are complete.

use bytes::{Bytes, BytesMut};
use vstd::prelude::*;
use crate::octets::{
    be32_bytes, be32_value, buffer_as_slice, buffer_content, buffer_extend, buffer_freeze,
    buffer_get_u8, buffer_len, buffer_new, buffer_split_to, bytes_content, get_be32,
    law_be32_round_trip, put_slice,
};
use crate::protocol::crc32::{
    Crc32, crc32_of, crc_fold, law_crc_is_incremental, law_single_byte_change_is_detected,
};
use crate::protocol::error::ProtocolError;
use crate::protocol::frame::{
    CRC_LEN, Cmd, Frame, FrameModel, HEADER_LEN, cmd_of_byte, frame_body, frame_bytes,
    header_bytes, law_cmd_round_trip,
};
use crate::protocol::varint::{
    MAX_VARINT_LEN, VarIntDecoder, VarintProgress, VarintRead, all_more, group_value,
    law_varint_round_trip, lemma_push_progress, lemma_read_bounds, progress_of, varint_bytes, varint_push,
    varint_read, varint_start,
};

verus! {

/// The default payload limit: one mebibyte.
pub const DEFAULT_MAX_FRAME_LEN: usize = 1024 * 1024;

/// What a decoder is waiting for behind a frame header.
#[verifier::ext_equal]
pub enum StageModel {
    /// More of the sequence number.
    SeqNo(VarintProgress),
    /// More of the confirmation number.
    Ack(VarintProgress),
    /// More of the payload length.
    Len(VarintProgress),
    /// This many more payload bytes, at least one.
    Payload { payload: Seq<u8>, remaining: nat },
    /// The rest of the checksum.
    Crc { payload: Seq<u8>, carried: Seq<u8> },
}

/// A frame whose header has been read.
#[verifier::ext_equal]
pub struct PartialModel {
    pub cmd: Cmd,
    pub flags: u8,
    pub seq: u64,
    pub ack: u64,
    /// The checksum register over the bytes so far.
    pub crc: u32,
    pub stage: StageModel,
}

/// Where the decoder stands in the stream.
#[verifier::ext_equal]
pub enum ScanModel {
    /// Within a header, of which these bytes were seen.
    Header(Seq<u8>),
    /// Behind a header.
    Body(PartialModel),
}

/// What one more byte brings.
#[verifier::ext_equal]
pub enum Event {
    Nothing,
    Emit(FrameModel),
    Fail(ProtocolError),
}

/// The command of a five-byte header, or the first thing wrong with it.
pub open spec fn header_command(h: Seq<u8>) -> Result<Cmd, ProtocolError> {
    let magic = (h[0] * 0x100 + h[1]) as u16;
    if magic != crate::protocol::MAGIC {
        Err(ProtocolError::BadMagic { expected: crate::protocol::MAGIC, got: magic })
    } else if h[2] != crate::protocol::VERSION {
        Err(ProtocolError::UnsupportedVersion { got: h[2], supported: crate::protocol::VERSION })
    } else {
        cmd_of_byte(h[3])
    }
}

/// The state behind a header byte.
pub open spec fn header_step(h: Seq<u8>, b: u8) -> (ScanModel, Event) {
    let h1 = h.push(b);
    if h1.len() < HEADER_LEN {
        (ScanModel::Header(h1), Event::Nothing)
    } else {
        match header_command(h1) {
            Err(e) => (ScanModel::Header(Seq::empty()), Event::Fail(e)),
            Ok(cmd) => (
                ScanModel::Body(
                    PartialModel {
                        cmd,
                        flags: h1[4],
                        seq: 0,
                        ack: 0,
                        crc: crc_fold(0xFFFF_FFFF, h1),
                        stage: StageModel::SeqNo(varint_start()),
                    },
                ),
                Event::Nothing,
            ),
        }
    }
}

/// The stage that follows a payload length.
pub open spec fn payload_stage(payload: Seq<u8>, remaining: nat) -> StageModel {
    if remaining == 0 {
        StageModel::Crc { payload, carried: Seq::empty() }
    } else {
        StageModel::Payload { payload, remaining }
    }
}

/// A partial frame that was given up: it starts over behind its header.
pub open spec fn given_up(p: PartialModel) -> PartialModel {
    PartialModel { stage: StageModel::SeqNo(varint_start()), ..p }
}

/// What follows when the integer of a stage is complete.
pub open spec fn varint_done(p: PartialModel, v: u64, max: nat) -> (ScanModel, Event) {
    match p.stage {
        StageModel::SeqNo(_) => (
            ScanModel::Body(PartialModel { seq: v, stage: StageModel::Ack(varint_start()), ..p }),
            Event::Nothing,
        ),
        StageModel::Ack(_) => (
            ScanModel::Body(PartialModel { ack: v, stage: StageModel::Len(varint_start()), ..p }),
            Event::Nothing,
        ),
        _ => if v > max {
            (
                ScanModel::Body(given_up(p)),
                Event::Fail(ProtocolError::FrameTooLarge { got: v, max: max as usize }),
            )
        } else {
            (
                ScanModel::Body(
                    PartialModel { stage: payload_stage(Seq::empty(), v as nat), ..p },
                ),
                Event::Nothing,
            )
        },
    }
}

/// The same stage with other progress.
pub open spec fn with_progress(stage: StageModel, v: VarintProgress) -> StageModel {
    match stage {
        StageModel::SeqNo(_) => StageModel::SeqNo(v),
        StageModel::Ack(_) => StageModel::Ack(v),
        StageModel::Len(_) => StageModel::Len(v),
        other => other,
    }
}

/// One byte of an integer stage whose progress is `v`.
pub open spec fn varint_step(p: PartialModel, v: VarintProgress, b: u8, max: nat) -> (
    ScanModel,
    Event,
) {
    let q = PartialModel { crc: crc_fold(p.crc, seq![b]), ..p };
    let (v1, r) = varint_push(v, b);
    match r {
        Err(e) => (ScanModel::Body(given_up(q)), Event::Fail(e)),
        Ok(None) => (
            ScanModel::Body(PartialModel { stage: with_progress(p.stage, v1), ..q }),
            Event::Nothing,
        ),
        Ok(Some(x)) => varint_done(q, x, max),
    }
}

/// One byte of the checksum.
pub open spec fn crc_step(p: PartialModel, payload: Seq<u8>, carried: Seq<u8>, b: u8) -> (
    ScanModel,
    Event,
) {
    let c1 = carried.push(b);
    if c1.len() < CRC_LEN {
        (
            ScanModel::Body(PartialModel { stage: StageModel::Crc { payload, carried: c1 }, ..p }),
            Event::Nothing,
        )
    } else {
        let got = be32_value(c1);
        let expected = p.crc ^ 0xFFFF_FFFF;
        if got != expected {
            (ScanModel::Body(given_up(p)), Event::Fail(ProtocolError::CrcMismatch { expected, got }))
        } else {
            (
                ScanModel::Header(Seq::empty()),
                Event::Emit(
                    FrameModel { cmd: p.cmd, flags: p.flags, seq: p.seq, ack: p.ack, payload },
                ),
            )
        }
    }
}

/// One byte behind the header.
pub open spec fn body_step(p: PartialModel, b: u8, max: nat) -> (ScanModel, Event) {
    match p.stage {
        StageModel::SeqNo(v) => varint_step(p, v, b, max),
        StageModel::Ack(v) => varint_step(p, v, b, max),
        StageModel::Len(v) => varint_step(p, v, b, max),
        StageModel::Payload { payload, remaining } => (
            ScanModel::Body(
                PartialModel {
                    crc: crc_fold(p.crc, seq![b]),
                    stage: payload_stage(payload.push(b), (remaining - 1) as nat),
                    ..p
                },
            ),
            Event::Nothing,
        ),
        StageModel::Crc { payload, carried } => crc_step(p, payload, carried, b),
    }
}

/// One byte of the stream.
pub open spec fn scan(s: ScanModel, b: u8, max: nat) -> (ScanModel, Event) {
    match s {
        ScanModel::Header(h) => header_step(h, b),
        ScanModel::Body(p) => body_step(p, b, max),
    }
}

/// A stretch of the stream up to the first event: the state behind it, the
/// bytes left, and the event.
#[verifier::ext_equal]
pub struct Stretch {
    pub state: ScanModel,
    pub left: Seq<u8>,
    pub event: Event,
}

/// Reads `bytes` from `s` up to the first event.
pub open spec fn run_until(s: ScanModel, bytes: Seq<u8>, max: nat) -> Stretch
    decreases bytes.len(),
{
    if bytes.len() == 0 {
        Stretch { state: s, left: bytes, event: Event::Nothing }
    } else {
        let (s1, e) = scan(s, bytes[0], max);
        if e is Nothing {
            run_until(s1, bytes.skip(1), max)
        } else {
            Stretch { state: s1, left: bytes.skip(1), event: e }
        }
    }
}

/// The outcome of reading a piece of the stream: the frames up to the first
/// error, the error, the state, and the bytes not looked at.
#[verifier::ext_equal]
pub struct RunModel {
    pub frames: Seq<FrameModel>,
    pub error: Option<ProtocolError>,
    pub state: ScanModel,
    pub left: Seq<u8>,
}

/// Reads all of `bytes` from `s`, stopping at the first error.
pub open spec fn run(s: ScanModel, bytes: Seq<u8>, max: nat) -> RunModel
    decreases bytes.len(),
{
    if bytes.len() == 0 {
        RunModel { frames: Seq::empty(), error: None, state: s, left: bytes }
    } else {
        let (s1, e) = scan(s, bytes[0], max);
        match e {
            Event::Nothing => run(s1, bytes.skip(1), max),
            Event::Emit(f) => {
                let rest = run(s1, bytes.skip(1), max);
                RunModel { frames: seq![f] + rest.frames, ..rest }
            },
            Event::Fail(err) => RunModel {
                frames: Seq::empty(),
                error: Some(err),
                state: s1,
                left: bytes.skip(1),
            },
        }
    }
}

/// What a decoder holds between calls: its place in the stream and the bytes
/// that it has not looked at.
#[verifier::ext_equal]
pub struct DecoderModel {
    pub state: ScanModel,
    pub backlog: Seq<u8>,
}

/// A decoder before its first byte.
pub open spec fn fresh_decoder() -> DecoderModel {
    DecoderModel { state: ScanModel::Header(Seq::empty()), backlog: Seq::empty() }
}

/// How a decoder keeps a state: the bytes of an incomplete header wait in the
/// backlog.
pub open spec fn settled(s: ScanModel) -> DecoderModel {
    match s {
        ScanModel::Header(h) => DecoderModel {
            state: ScanModel::Header(Seq::empty()),
            backlog: h,
        },
        ScanModel::Body(p) => DecoderModel { state: s, backlog: Seq::empty() },
    }
}

/// One call of the decoder: what it returns and what it holds afterwards.
pub open spec fn decode_step(d: DecoderModel, chunk: Seq<u8>, max: nat) -> (
    Result<Seq<FrameModel>, ProtocolError>,
    DecoderModel,
) {
    let out = run(d.state, d.backlog + chunk, max);
    match out.error {
        Some(e) => (Err(e), DecoderModel { state: out.state, backlog: out.left }),
        None => (Ok(out.frames), settled(out.state)),
    }
}

/// The payload bytes that a decoder has gathered.
pub open spec fn gathered_payload(s: ScanModel) -> nat {
    match s {
        ScanModel::Header(_) => 0,
        ScanModel::Body(p) => match p.stage {
            StageModel::Payload { payload, .. } => payload.len(),
            StageModel::Crc { payload, .. } => payload.len(),
            _ => 0,
        },
    }
}

/// How many bytes a decoder holds between calls.
pub open spec fn weight(d: DecoderModel) -> nat {
    d.backlog.len() + gathered_payload(d.state)
}

// ---------------------------------------------------------------------------
// How stretches and runs compose
// ---------------------------------------------------------------------------

proof fn lemma_run_from_stretch(s: ScanModel, bytes: Seq<u8>, max: nat)
    ensures
        ({
            let st = run_until(s, bytes, max);
            let out = run(s, bytes, max);
            match st.event {
                Event::Nothing => out == (RunModel {
                    frames: Seq::empty(),
                    error: None,
                    state: st.state,
                    left: Seq::empty(),
                }) && st.left == Seq::<u8>::empty(),
                Event::Emit(f) => {
                    let rest = run(st.state, st.left, max);
                    &&& st.left.len() < bytes.len()
                    &&& out == (RunModel { frames: seq![f] + rest.frames, ..rest })
                },
                Event::Fail(e) => out == (RunModel {
                    frames: Seq::empty(),
                    error: Some(e),
                    state: st.state,
                    left: st.left,
                }),
            }
        }),
    decreases bytes.len(),
{
    if bytes.len() == 0 {
        assert(bytes =~= Seq::<u8>::empty());
    } else {
        let (s1, e) = scan(s, bytes[0], max);
        if e is Nothing {
            lemma_run_from_stretch(s1, bytes.skip(1), max);
        }
    }
}

/// Reading on behind a stretch without an event.
proof fn lemma_run_until_append(s: ScanModel, a: Seq<u8>, b: Seq<u8>, max: nat)
    ensures
        run_until(s, a, max).event is Nothing ==> run_until(s, a + b, max) == run_until(
            run_until(s, a, max).state,
            b,
            max,
        ),
        !(run_until(s, a, max).event is Nothing) ==> run_until(s, a + b, max) == (Stretch {
            left: run_until(s, a, max).left + b,
            ..run_until(s, a, max)
        }),
    decreases a.len(),
{
    if a.len() == 0 {
        assert(a + b =~= b);
    } else {
        let (s1, e) = scan(s, a[0], max);
        assert((a + b)[0] == a[0]);
        assert((a + b).skip(1) =~= a.skip(1) + b);
        if e is Nothing {
            lemma_run_until_append(s1, a.skip(1), b, max);
        }
    }
}

/// Reading two pieces one after the other is reading them as one.
pub proof fn lemma_run_append(s: ScanModel, a: Seq<u8>, b: Seq<u8>, max: nat)
    ensures
        ({
            let first = run(s, a, max);
            let whole = run(s, a + b, max);
            if first.error is None {
                let second = run(first.state, b, max);
                whole == (RunModel { frames: first.frames + second.frames, ..second })
            } else {
                whole == (RunModel { left: first.left + b, ..first })
            }
        }),
    decreases a.len(),
{
    if a.len() == 0 {
        assert(a + b =~= b);
        let second = run(s, b, max);
        assert(Seq::<FrameModel>::empty() + second.frames =~= second.frames);
    } else {
        let (s1, e) = scan(s, a[0], max);
        assert((a + b)[0] == a[0]);
        assert((a + b).skip(1) =~= a.skip(1) + b);
        if !(e is Fail) {
            lemma_run_append(s1, a.skip(1), b, max);
            let first = run(s1, a.skip(1), max);
            if let Event::Emit(f) = e {
                let second = run(first.state, b, max);
                assert((seq![f] + first.frames) + second.frames =~= seq![f] + (first.frames
                    + second.frames));
            }
        }
    }
}

/// A header in the making is shorter than a header.
pub open spec fn scan_wf(s: ScanModel) -> bool {
    s matches ScanModel::Header(h) ==> h.len() < HEADER_LEN
}

proof fn lemma_run_keeps_wf(s: ScanModel, bytes: Seq<u8>, max: nat)
    requires
        scan_wf(s),
    ensures
        scan_wf(run(s, bytes, max).state),
    decreases bytes.len(),
{
    if bytes.len() > 0 {
        let (s1, e) = scan(s, bytes[0], max);
        if !(e is Fail) {
            lemma_run_keeps_wf(s1, bytes.skip(1), max);
        }
    }
}

/// The bytes of an incomplete header only gather.
proof fn lemma_gather_header(h: Seq<u8>, max: nat)
    requires
        h.len() < HEADER_LEN,
    ensures
        run_until(ScanModel::Header(Seq::empty()), h, max) == (Stretch {
            state: ScanModel::Header(h),
            left: Seq::empty(),
            event: Event::Nothing,
        }),
    decreases h.len(),
{
    let start = ScanModel::Header(Seq::<u8>::empty());
    if h.len() == 0 {
        assert(h =~= Seq::<u8>::empty());
    } else {
        let g = h.drop_last();
        let last = seq![h.last()];
        lemma_gather_header(g, max);
        assert(g + last =~= h);
        lemma_run_until_append(start, g, last, max);
        assert(g.push(last[0]) =~= h);
        reveal_with_fuel(run_until, 2);
        assert(last.skip(1) =~= Seq::<u8>::empty());
    }
}

proof fn lemma_run_settled(s: ScanModel, b: Seq<u8>, max: nat)
    requires
        scan_wf(s),
    ensures
        run(settled(s).state, settled(s).backlog + b, max) == run(s, b, max),
{
    match s {
        ScanModel::Header(h) => {
            let start = ScanModel::Header(Seq::<u8>::empty());
            lemma_gather_header(h, max);
            lemma_run_from_stretch(start, h, max);
            lemma_run_append(start, h, b, max);
            assert(Seq::<FrameModel>::empty() + run(s, b, max).frames =~= run(s, b, max).frames);
        },
        ScanModel::Body(_) => {
            assert(Seq::<u8>::empty() + b =~= b);
        },
    }
}

/// How the stream is cut into chunks makes no difference: feeding `a` and then
/// `b` gives the frames of feeding `a + b`, ends in the same error if there is
/// one, and leaves the decoder in the same place.
pub proof fn law_chunks_do_not_matter(d: DecoderModel, a: Seq<u8>, b: Seq<u8>, max: nat)
    requires
        scan_wf(d.state),
    ensures
        ({
            let (ra, da) = decode_step(d, a, max);
            let (rb, db) = decode_step(da, b, max);
            let (rw, dw) = decode_step(d, a + b, max);
            ra matches Ok(fa) ==> {
                &&& dw == db
                &&& rb matches Ok(fb) ==> rw == Ok::<Seq<FrameModel>, ProtocolError>(fa + fb)
                &&& rb matches Err(e) ==> rw == Err::<Seq<FrameModel>, ProtocolError>(e)
            }
        }),
{
    let out = run(d.state, d.backlog + a, max);
    assert(d.backlog + (a + b) =~= (d.backlog + a) + b);
    lemma_run_append(d.state, d.backlog + a, b, max);
    lemma_run_keeps_wf(d.state, d.backlog + a, max);
    if out.error is None {
        lemma_run_settled(out.state, b, max);
    }
}

// ---------------------------------------------------------------------------
// Integers within the stream
// ---------------------------------------------------------------------------

/// What feeding an integer decoder from a run of bytes comes to.
#[verifier::ext_equal]
pub struct Fed {
    pub progress: VarintProgress,
    pub crc: u32,
    pub left: Seq<u8>,
    pub result: Result<Option<u64>, ProtocolError>,
}

/// Feeds an integer decoder and the checksum until the integer ends.
pub open spec fn feed(v: VarintProgress, crc: u32, bytes: Seq<u8>) -> Fed
    decreases bytes.len(),
{
    if bytes.len() == 0 {
        Fed { progress: v, crc, left: bytes, result: Ok(None) }
    } else {
        let crc1 = crc_fold(crc, seq![bytes[0]]);
        let (v1, r) = varint_push(v, bytes[0]);
        if r == Ok::<Option<u64>, ProtocolError>(None) {
            feed(v1, crc1, bytes.skip(1))
        } else {
            Fed { progress: v1, crc: crc1, left: bytes.skip(1), result: r }
        }
    }
}

/// The progress of an integer stage.
pub open spec fn stage_progress(stage: StageModel) -> Option<VarintProgress> {
    match stage {
        StageModel::SeqNo(v) => Some(v),
        StageModel::Ack(v) => Some(v),
        StageModel::Len(v) => Some(v),
        _ => None,
    }
}

proof fn lemma_varint_stage(p: PartialModel, bytes: Seq<u8>, max: nat)
    requires
        stage_progress(p.stage) is Some,
    ensures
        ({
            let fed = feed(stage_progress(p.stage)->0, p.crc, bytes);
            let q = PartialModel { crc: fed.crc, ..p };
            let st = run_until(ScanModel::Body(p), bytes, max);
            match fed.result {
                Err(e) => st == (Stretch {
                    state: ScanModel::Body(given_up(q)),
                    left: fed.left,
                    event: Event::Fail(e),
                }),
                Ok(None) => fed.left == Seq::<u8>::empty() && st == (Stretch {
                    state: ScanModel::Body(
                        PartialModel { stage: with_progress(p.stage, fed.progress), ..q },
                    ),
                    left: Seq::empty(),
                    event: Event::Nothing,
                }),
                Ok(Some(x)) => {
                    let (s1, e) = varint_done(q, x, max);
                    if e is Nothing {
                        st == run_until(s1, fed.left, max)
                    } else {
                        st == (Stretch { state: s1, left: fed.left, event: e })
                    }
                },
            }
        }),
    decreases bytes.len(),
{
    let v = stage_progress(p.stage)->0;
    if bytes.len() == 0 {
        assert(bytes =~= Seq::<u8>::empty());
        assert(with_progress(p.stage, v) == p.stage);
    } else {
        let b = bytes[0];
        let (v1, r) = varint_push(v, b);
        let crc1 = crc_fold(p.crc, seq![b]);
        if r == Ok::<Option<u64>, ProtocolError>(None) {
            let p1 = PartialModel { crc: crc1, stage: with_progress(p.stage, v1), ..p };
            lemma_varint_stage(p1, bytes.skip(1), max);
            let fed = feed(v1, crc1, bytes.skip(1));
            assert(with_progress(p1.stage, fed.progress) == with_progress(p.stage, fed.progress));
            if let Ok(Some(x)) = fed.result {
                let q1 = PartialModel { crc: fed.crc, ..p1 };
                let q = PartialModel { crc: fed.crc, ..p };
                assert(varint_done(q1, x, max) == varint_done(q, x, max));
            }
        }
    }
}

proof fn lemma_feed_reads(done: Seq<u8>, crc: u32, bytes: Seq<u8>)
    requires
        all_more(done),
        done.len() <= MAX_VARINT_LEN,
    ensures
        varint_read(done + bytes) matches VarintRead::Done(v, n) ==> {
            let fed = feed(progress_of(done), crc, bytes);
            &&& n >= done.len()
            &&& n <= done.len() + bytes.len()
            &&& fed.result == Ok::<Option<u64>, ProtocolError>(Some(v))
            &&& fed.left == bytes.skip(n - done.len())
            &&& fed.crc == crc_fold(crc, bytes.take(n - done.len()))
        },
    decreases bytes.len(),
{
    let all = done + bytes;
    lemma_read_bounds(all);
    if let VarintRead::Done(v, n) = varint_read(all) {
        let k = (n - 1) as int;
        if k < done.len() {
            assert(all[k] == done[k]);
        }
        let b = bytes[0];
        assert(all[done.len() as int] == b);
        assert(done.push(b) =~= all.take((done.len() + 1) as int));
        lemma_push_progress(done, b);
        assert(done.push(b) + bytes.skip(1) =~= all);
        if k == done.len() {
            assert(bytes.skip(1) =~= bytes.skip(n - done.len()));
            assert(bytes.take(1) =~= seq![b]);
        } else {
            assert(all[done.len() as int] >= 128);
            let next = done.push(b);
            assert forall|i: int| 0 <= i < next.len() implies next[i] >= 128 by {
                if i < done.len() {
                    assert(next[i] == done[i]);
                }
            }
            let crc1 = crc_fold(crc, seq![b]);
            lemma_feed_reads(next, crc1, bytes.skip(1));
            let m = n - next.len();
            assert(bytes.skip(1).skip(m) =~= bytes.skip(n - done.len()));
            law_crc_is_incremental(crc, seq![b], bytes.skip(1).take(m));
            assert(seq![b] + bytes.skip(1).take(m) =~= bytes.take(n - done.len()));
        }
    }
}

/// An integer in the stream is read back and leaves what follows it.
proof fn lemma_feed_varint(value: u64, crc: u32, rest: Seq<u8>)
    ensures
        ({
            let e = varint_bytes(value as nat);
            let fed = feed(varint_start(), crc, e + rest);
            &&& fed.result == Ok::<Option<u64>, ProtocolError>(Some(value))
            &&& fed.left == rest
            &&& fed.crc == crc_fold(crc, e)
        }),
{
    let e = varint_bytes(value as nat);
    let none = Seq::<u8>::empty();
    law_varint_round_trip(value, rest);
    assert(none + (e + rest) =~= e + rest);
    assert(group_value(none) == 0);
    assert(progress_of(none) == varint_start());
    lemma_feed_reads(none, crc, e + rest);
    assert((e + rest).skip(e.len() as int) =~= rest);
    assert((e + rest).take(e.len() as int) =~= e);
}

/// Payload bytes gather.
proof fn lemma_payload_stage(p: PartialModel, payload: Seq<u8>, chunk: Seq<u8>, after: nat, max: nat)
    requires
        p.stage == payload_stage(payload, chunk.len() + after),
    ensures
        run_until(ScanModel::Body(p), chunk, max) == (Stretch {
            state: ScanModel::Body(
                PartialModel {
                    crc: crc_fold(p.crc, chunk),
                    stage: payload_stage(payload + chunk, after),
                    ..p
                },
            ),
            left: Seq::empty(),
            event: Event::Nothing,
        }),
    decreases chunk.len(),
{
    if chunk.len() == 0 {
        assert(payload + chunk =~= payload);
        assert(chunk =~= Seq::<u8>::empty());
    } else {
        let b = chunk[0];
        let rest = chunk.skip(1);
        let p1 = PartialModel {
            crc: crc_fold(p.crc, seq![b]),
            stage: payload_stage(payload.push(b), rest.len() + after),
            ..p
        };
        lemma_payload_stage(p1, payload.push(b), rest, after, max);
        assert(payload.push(b) + rest =~= payload + chunk);
        law_crc_is_incremental(p.crc, seq![b], rest);
        assert(seq![b] + rest =~= chunk);
    }
}

/// Checksum bytes gather until the fourth.
proof fn lemma_crc_stage(p: PartialModel, payload: Seq<u8>, carried: Seq<u8>, chunk: Seq<u8>, max: nat)
    requires
        p.stage == (StageModel::Crc { payload, carried }),
        carried.len() + chunk.len() < CRC_LEN,
    ensures
        run_until(ScanModel::Body(p), chunk, max) == (Stretch {
            state: ScanModel::Body(
                PartialModel { stage: StageModel::Crc { payload, carried: carried + chunk }, ..p },
            ),
            left: Seq::empty(),
            event: Event::Nothing,
        }),
    decreases chunk.len(),
{
    if chunk.len() == 0 {
        assert(carried + chunk =~= carried);
        assert(chunk =~= Seq::<u8>::empty());
    } else {
        let b = chunk[0];
        let rest = chunk.skip(1);
        let p1 = PartialModel { stage: StageModel::Crc { payload, carried: carried.push(b) }, ..p };
        lemma_crc_stage(p1, payload, carried.push(b), rest, max);
        assert(carried.push(b) + rest =~= carried + chunk);
    }
}

/// The fourth checksum byte decides.
proof fn lemma_crc_stage_end(
    p: PartialModel,
    payload: Seq<u8>,
    carried: Seq<u8>,
    chunk: Seq<u8>,
    rest: Seq<u8>,
    max: nat,
)
    requires
        p.stage == (StageModel::Crc { payload, carried }),
        carried.len() + chunk.len() == CRC_LEN,
        chunk.len() > 0,
    ensures
        ({
            let got = be32_value(carried + chunk);
            let expected = p.crc ^ 0xFFFF_FFFF;
            run_until(ScanModel::Body(p), chunk + rest, max) == if got != expected {
                Stretch {
                    state: ScanModel::Body(given_up(p)),
                    left: rest,
                    event: Event::Fail(ProtocolError::CrcMismatch { expected, got }),
                }
            } else {
                Stretch {
                    state: ScanModel::Header(Seq::empty()),
                    left: rest,
                    event: Event::Emit(
                        FrameModel { cmd: p.cmd, flags: p.flags, seq: p.seq, ack: p.ack, payload },
                    ),
                }
            }
        }),
{
    let head = chunk.drop_last();
    let last = seq![chunk.last()] + rest;
    lemma_crc_stage(p, payload, carried, head, max);
    assert(chunk + rest =~= head + last);
    lemma_run_until_append(ScanModel::Body(p), head, last, max);
    assert((carried + head).push(last[0]) =~= carried + chunk);
    assert(last.skip(1) =~= rest);
}

proof fn lemma_header_stage(h: Seq<u8>, rest: Seq<u8>, max: nat)
    requires
        h.len() == HEADER_LEN,
    ensures
        ({
            let st = run_until(ScanModel::Header(Seq::empty()), h + rest, max);
            match header_command(h) {
                Err(e) => st == (Stretch {
                    state: ScanModel::Header(Seq::empty()),
                    left: rest,
                    event: Event::Fail(e),
                }),
                Ok(cmd) => st == run_until(
                    ScanModel::Body(
                        PartialModel {
                            cmd,
                            flags: h[4],
                            seq: 0,
                            ack: 0,
                            crc: crc_fold(0xFFFF_FFFF, h),
                            stage: StageModel::SeqNo(varint_start()),
                        },
                    ),
                    rest,
                    max,
                ),
            }
        }),
{
    let head = h.drop_last();
    let last = seq![h.last()] + rest;
    lemma_gather_header(head, max);
    assert(h + rest =~= head + last);
    lemma_run_until_append(ScanModel::Header(Seq::empty()), head, last, max);
    assert(head.push(last[0]) =~= h);
    assert(last.skip(1) =~= rest);
}

/// A frame body followed by four checksum bytes: the frame if they are the
/// checksum of the body, the mismatch if they are not.
pub proof fn lemma_read_frame(m: FrameModel, carried: Seq<u8>, rest: Seq<u8>, max: nat)
    requires
        m.payload.len() <= max,
        m.payload.len() <= u64::MAX,
        carried.len() == CRC_LEN,
    ensures
        ({
            let st = run_until(
                ScanModel::Header(Seq::empty()),
                frame_body(m) + carried + rest,
                max,
            );
            let expected = crc32_of(frame_body(m));
            &&& st.left == rest
            &&& be32_value(carried) == expected ==> st.event == Event::Emit(m) && st.state
                == ScanModel::Header(Seq::empty())
            &&& be32_value(carried) != expected ==> st.event == Event::Fail(
                ProtocolError::CrcMismatch { expected, got: be32_value(carried) },
            )
        }),
{
    let h = header_bytes(m);
    let e1 = varint_bytes(m.seq as nat);
    let e2 = varint_bytes(m.ack as nat);
    let e3 = varint_bytes(m.payload.len());
    let init = 0xFFFF_FFFFu32;
    let t4 = carried + rest;
    let t3 = m.payload + t4;
    let t2 = e3 + t3;
    let t1 = e2 + t2;
    let t0 = e1 + t1;
    assert(frame_body(m) + carried + rest =~= h + t0);
    lemma_header_stage(h, t0, max);
    law_cmd_round_trip(m.cmd, 0);
    let c0 = crc_fold(init, h);
    let p0 = PartialModel {
        cmd: m.cmd,
        flags: m.flags,
        seq: 0,
        ack: 0,
        crc: c0,
        stage: StageModel::SeqNo(varint_start()),
    };
    lemma_feed_varint(m.seq, c0, t1);
    lemma_varint_stage(p0, t0, max);
    let c1 = crc_fold(c0, e1);
    let p1 = PartialModel { seq: m.seq, crc: c1, stage: StageModel::Ack(varint_start()), ..p0 };
    lemma_feed_varint(m.ack, c1, t2);
    lemma_varint_stage(p1, t1, max);
    let c2 = crc_fold(c1, e2);
    let p2 = PartialModel { ack: m.ack, crc: c2, stage: StageModel::Len(varint_start()), ..p1 };
    lemma_feed_varint(m.payload.len() as u64, c2, t3);
    lemma_varint_stage(p2, t2, max);
    let c3 = crc_fold(c2, e3);
    let p3 = PartialModel { crc: c3, stage: payload_stage(Seq::empty(), m.payload.len()), ..p2 };
    lemma_payload_stage(p3, Seq::empty(), m.payload, 0, max);
    lemma_run_until_append(ScanModel::Body(p3), m.payload, t4, max);
    assert(Seq::<u8>::empty() + m.payload =~= m.payload);
    let c4 = crc_fold(c3, m.payload);
    let p4 = PartialModel {
        crc: c4,
        stage: StageModel::Crc { payload: m.payload, carried: Seq::empty() },
        ..p3
    };
    lemma_crc_stage_end(p4, m.payload, Seq::empty(), carried, rest, max);
    assert(Seq::<u8>::empty() + carried =~= carried);
    law_crc_is_incremental(init, h, e1);
    law_crc_is_incremental(init, h + e1, e2);
    law_crc_is_incremental(init, h + e1 + e2, e3);
    law_crc_is_incremental(init, h + e1 + e2 + e3, m.payload);
}

/// An encoded frame decodes to itself, and decoding goes on behind it as if
/// the stream began there.
pub proof fn law_frame_round_trip(m: FrameModel, rest: Seq<u8>, max: nat)
    requires
        m.payload.len() <= max,
        m.payload.len() <= u64::MAX,
    ensures
        ({
            let start = ScanModel::Header(Seq::<u8>::empty());
            let after = run(start, rest, max);
            run(start, frame_bytes(m) + rest, max) == (RunModel {
                frames: seq![m] + after.frames,
                ..after
            })
        }),
{
    let crc = crc32_of(frame_body(m));
    law_be32_round_trip(crc);
    lemma_read_frame(m, be32_bytes(crc), rest, max);
    lemma_run_from_stretch(ScanModel::Header(Seq::empty()), frame_bytes(m) + rest, max);
}

/// A header that is wrong is refused for the first thing wrong with it: the magic
/// number, the version, the command. No frame comes of it.
pub proof fn law_wrong_header_is_refused(h: Seq<u8>, rest: Seq<u8>, max: nat)
    requires
        h.len() == 5,
    ensures
        ({
            let out = run(ScanModel::Header(Seq::empty()), h + rest, max);
            let magic = h[0] * 256 + h[1];
            let known = 1 <= h[3] <= 8;
            &&& magic != 0x494D ==> out.error == Some(
                ProtocolError::BadMagic { expected: 0x494D, got: magic as u16 },
            )
            &&& magic == 0x494D && h[2] != 1 ==> out.error == Some(
                ProtocolError::UnsupportedVersion { got: h[2], supported: 1 },
            )
            &&& magic == 0x494D && h[2] == 1 && !known ==> out.error == Some(
                ProtocolError::UnknownCommand { got: h[3] },
            )
            &&& magic != 0x494D || h[2] != 1 || !known ==> out.frames.len() == 0
        }),
{
    lemma_header_stage(h, rest, max);
    lemma_run_from_stretch(ScanModel::Header(Seq::empty()), h + rest, max);
}

/// A frame whose payload is over the limit is refused as soon as its length is known,
/// before any of the payload.
pub proof fn law_large_frame_is_refused(m: FrameModel, rest: Seq<u8>, max: nat)
    requires
        max < m.payload.len() <= u64::MAX,
        max <= usize::MAX,
    ensures
        ({
            let head = header_bytes(m) + varint_bytes(m.seq as nat) + varint_bytes(m.ack as nat)
                + varint_bytes(m.payload.len());
            let out = run(ScanModel::Header(Seq::empty()), head + rest, max);
            &&& out.frames.len() == 0
            &&& out.error == Some(
                ProtocolError::FrameTooLarge { got: m.payload.len() as u64, max: max as usize },
            )
        }),
{
    let h = header_bytes(m);
    let e1 = varint_bytes(m.seq as nat);
    let e2 = varint_bytes(m.ack as nat);
    let e3 = varint_bytes(m.payload.len());
    let t2 = e3 + rest;
    let t1 = e2 + t2;
    let t0 = e1 + t1;
    let all = h + e1 + e2 + e3 + rest;
    assert(all =~= h + t0);
    lemma_header_stage(h, t0, max);
    law_cmd_round_trip(m.cmd, 0);
    let c0 = crc_fold(0xFFFF_FFFF, h);
    let p0 = PartialModel {
        cmd: m.cmd,
        flags: m.flags,
        seq: 0,
        ack: 0,
        crc: c0,
        stage: StageModel::SeqNo(varint_start()),
    };
    lemma_feed_varint(m.seq, c0, t1);
    lemma_varint_stage(p0, t0, max);
    let c1 = crc_fold(c0, e1);
    let p1 = PartialModel { seq: m.seq, crc: c1, stage: StageModel::Ack(varint_start()), ..p0 };
    lemma_feed_varint(m.ack, c1, t2);
    lemma_varint_stage(p1, t1, max);
    let c2 = crc_fold(c1, e2);
    let p2 = PartialModel { ack: m.ack, crc: c2, stage: StageModel::Len(varint_start()), ..p1 };
    lemma_feed_varint(m.payload.len() as u64, c2, rest);
    lemma_varint_stage(p2, t2, max);
    lemma_run_from_stretch(ScanModel::Header(Seq::empty()), all, max);
}

/// A frame with any other checksum than its own is refused, and the two are told.
pub proof fn law_wrong_checksum_is_refused(m: FrameModel, carried: Seq<u8>, rest: Seq<u8>, max: nat)
    requires
        m.payload.len() <= max,
        m.payload.len() <= u64::MAX,
        carried.len() == 4,
        be32_value(carried) != crc32_of(frame_body(m)),
    ensures
        ({
            let out = run(
                ScanModel::Header(Seq::empty()),
                frame_body(m) + carried + rest,
                max,
            );
            &&& out.frames.len() == 0
            &&& out.error == Some(
                ProtocolError::CrcMismatch {
                    expected: crc32_of(frame_body(m)),
                    got: be32_value(carried),
                },
            )
        }),
{
    lemma_read_frame(m, carried, rest, max);
    lemma_run_from_stretch(
        ScanModel::Header(Seq::empty()),
        frame_body(m) + carried + rest,
        max,
    );
}

/// A frame that has not arrived in full yields neither a frame nor an error.
pub proof fn law_truncated_frame_waits(m: FrameModel, n: int, max: nat)
    requires
        m.payload.len() <= max,
        m.payload.len() <= u64::MAX,
        0 <= n < frame_bytes(m).len(),
    ensures
        run(ScanModel::Header(Seq::empty()), frame_bytes(m).take(n), max).frames == Seq::<
            FrameModel,
        >::empty(),
        run(ScanModel::Header(Seq::empty()), frame_bytes(m).take(n), max).error is None,
{
    let start = ScanModel::Header(Seq::<u8>::empty());
    let whole = frame_bytes(m);
    let a = whole.take(n);
    let b = whole.skip(n);
    let crc = crc32_of(frame_body(m));
    law_be32_round_trip(crc);
    let none = Seq::<u8>::empty();
    lemma_read_frame(m, be32_bytes(crc), none, max);
    assert(frame_body(m) + be32_bytes(crc) + none =~= whole);
    assert(a + b =~= whole);
    lemma_run_until_append(start, a, b, max);
    if !(run_until(start, a, max).event is Nothing) {
        let left = run_until(start, a, max).left;
        assert((left + b).len() == left.len() + b.len());
        assert(false);
    }
    lemma_run_from_stretch(start, a, max);
}

/// A changed payload byte is always reported as a checksum mismatch.
pub proof fn law_changed_payload_is_rejected(m: FrameModel, i: int, b: u8, max: nat)
    requires
        m.payload.len() <= max,
        m.payload.len() <= u64::MAX,
        0 <= i < m.payload.len(),
        b != m.payload[i],
    ensures
        ({
            let at = frame_body(m).len() - m.payload.len() + i;
            let damaged = frame_bytes(m).update(at, b);
            let out = run(ScanModel::Header(Seq::empty()), damaged, max);
            &&& out.frames == Seq::<FrameModel>::empty()
            &&& out.error matches Some(ProtocolError::CrcMismatch { .. })
        }),
{
    let start = ScanModel::Header(Seq::<u8>::empty());
    let head = header_bytes(m) + varint_bytes(m.seq as nat) + varint_bytes(m.ack as nat)
        + varint_bytes(m.payload.len());
    let at = head.len() + i;
    let d = FrameModel { payload: m.payload.update(i, b), ..m };
    let crc = crc32_of(frame_body(m));
    law_be32_round_trip(crc);
    assert(frame_body(m) =~= head + m.payload);
    assert(frame_body(d) =~= frame_body(m).update(at, b));
    assert(frame_body(m)[at] == m.payload[i]);
    law_single_byte_change_is_detected(frame_body(m), at, b);
    let none = Seq::<u8>::empty();
    lemma_read_frame(d, be32_bytes(crc), none, max);
    assert(frame_body(d) + be32_bytes(crc) + none =~= frame_bytes(m).update(at, b));
    lemma_run_from_stretch(start, frame_bytes(m).update(at, b), max);
}

// ---------------------------------------------------------------------------
// Whole streams
// ---------------------------------------------------------------------------

/// The bytes of frames, one after the other.
pub open spec fn stream_of(frames: Seq<FrameModel>) -> Seq<u8>
    decreases frames.len(),
{
    if frames.len() == 0 {
        Seq::empty()
    } else {
        frame_bytes(frames[0]) + stream_of(frames.skip(1))
    }
}

/// How many of the frames lie within the first `n` bytes of their stream, to
/// their last byte.
pub open spec fn frames_within(frames: Seq<FrameModel>, n: int) -> nat
    decreases frames.len(),
{
    if frames.len() == 0 || n < frame_bytes(frames[0]).len() {
        0
    } else {
        1 + frames_within(frames.skip(1), n - frame_bytes(frames[0]).len())
    }
}

/// The bytes of chunks, one after the other.
pub open spec fn joined(chunks: Seq<Seq<u8>>) -> Seq<u8>
    decreases chunks.len(),
{
    if chunks.len() == 0 {
        Seq::empty()
    } else {
        joined(chunks.drop_last()) + chunks.last()
    }
}

/// What a new decoder holds when it has taken in chunks.
pub open spec fn decoder_after(chunks: Seq<Seq<u8>>, max: nat) -> DecoderModel
    decreases chunks.len(),
{
    if chunks.len() == 0 {
        fresh_decoder()
    } else {
        decode_step(decoder_after(chunks.drop_last(), max), chunks.last(), max).1
    }
}

/// What a new decoder returns for chunk `k`.
pub open spec fn returned(chunks: Seq<Seq<u8>>, k: int, max: nat) -> Result<
    Seq<FrameModel>,
    ProtocolError,
> {
    decode_step(decoder_after(chunks.take(k), max), chunks[k], max).0
}

/// All the frames that a new decoder returns for chunks.
pub open spec fn gathered(chunks: Seq<Seq<u8>>, max: nat) -> Seq<FrameModel>
    decreases chunks.len(),
{
    if chunks.len() == 0 {
        Seq::empty()
    } else {
        gathered(chunks.drop_last(), max) + returned(
            chunks,
            chunks.len() - 1,
            max,
        )->Ok_0
    }
}

/// The payloads are within the limit.
pub open spec fn payloads_fit(frames: Seq<FrameModel>, max: nat) -> bool {
    forall|i: int|
        0 <= i < frames.len() ==> (#[trigger] frames[i]).payload.len() <= max
            && frames[i].payload.len() <= u64::MAX
}

/// The beginning of a stream reads as the frames that lie within it.
proof fn lemma_stream_head(frames: Seq<FrameModel>, n: int, max: nat)
    requires
        payloads_fit(frames, max),
        0 <= n <= stream_of(frames).len(),
    ensures
        ({
            let out = run(ScanModel::Header(Seq::empty()), stream_of(frames).take(n), max);
            &&& out.error is None
            &&& out.frames == frames.take(frames_within(frames, n) as int)
            &&& frames_within(frames, n) <= frames.len()
            &&& n == stream_of(frames).len() ==> frames_within(frames, n) == frames.len()
        }),
    decreases frames.len(),
{
    let start = ScanModel::Header(Seq::<u8>::empty());
    let s = stream_of(frames);
    if frames.len() == 0 {
        assert(s.take(n) =~= Seq::<u8>::empty());
        assert(frames.take(0) =~= Seq::<FrameModel>::empty());
    } else {
        let m = frames[0];
        let first = frame_bytes(m);
        let rest = frames.skip(1);
        if n < first.len() {
            assert(s.take(n) =~= first.take(n));
            law_truncated_frame_waits(m, n, max);
            assert(frames.take(0) =~= Seq::<FrameModel>::empty());
        } else {
            let left = n - first.len();
            assert forall|i: int| 0 <= i < rest.len() implies (#[trigger] rest[i]).payload.len()
                <= max && rest[i].payload.len() <= u64::MAX by {
                assert(rest[i] == frames[i + 1]);
            }
            lemma_stream_head(rest, left, max);
            assert(s.take(n) =~= first + stream_of(rest).take(left));
            law_frame_round_trip(m, stream_of(rest).take(left), max);
            let w = frames_within(rest, left) as int;
            assert(seq![m] + rest.take(w) =~= frames.take(w + 1));
        }
    }
}

/// How many bytes `k` chunks bring, and what is in them.
proof fn lemma_joined(chunks: Seq<Seq<u8>>, k: int)
    requires
        0 <= k <= chunks.len(),
    ensures
        joined(chunks.take(k)).len() <= joined(chunks).len(),
        joined(chunks.take(k)) == joined(chunks).take(joined(chunks.take(k)).len() as int),
    decreases chunks.len() - k,
{
    if k < chunks.len() {
        lemma_joined(chunks, k + 1);
        assert(chunks.take(k + 1).drop_last() =~= chunks.take(k));
        let a = joined(chunks.take(k));
        let b = joined(chunks.take(k + 1));
        assert(b == a + chunks[k]);
        assert(a =~= b.take(a.len() as int));
        assert(a =~= joined(chunks).take(a.len() as int));
    } else {
        assert(chunks.take(k) =~= chunks);
        assert(joined(chunks) =~= joined(chunks).take(joined(chunks).len() as int));
    }
}

/// Where a decoder stands when it has taken in `k` chunks of a stream.
proof fn lemma_decoder_after(frames: Seq<FrameModel>, chunks: Seq<Seq<u8>>, k: int, max: nat)
    requires
        payloads_fit(frames, max),
        joined(chunks).len() <= stream_of(frames).len(),
        joined(chunks) == stream_of(frames).take(joined(chunks).len() as int),
        0 <= k <= chunks.len(),
    ensures
        decoder_after(chunks.take(k), max) == settled(
            run(ScanModel::Header(Seq::empty()), joined(chunks.take(k)), max).state,
        ),
        k < chunks.len() ==> returned(chunks, k, max) == Ok::<Seq<FrameModel>, ProtocolError>(
            frames.subrange(
                frames_within(frames, joined(chunks.take(k)).len() as int) as int,
                frames_within(frames, joined(chunks.take(k + 1)).len() as int) as int,
            ),
        ),
        k < chunks.len() ==> frames_within(frames, joined(chunks.take(k)).len() as int)
            <= frames_within(frames, joined(chunks.take(k + 1)).len() as int) <= frames.len(),
    decreases k,
{
    let start = ScanModel::Header(Seq::<u8>::empty());
    let s = stream_of(frames);
    let a = joined(chunks.take(k));
    lemma_joined(chunks, k);
    assert(a =~= s.take(a.len() as int));
    lemma_stream_head(frames, a.len() as int, max);
    lemma_run_keeps_wf(start, a, max);
    if k == 0 {
        assert(chunks.take(0) =~= Seq::<Seq<u8>>::empty());
    } else {
        lemma_decoder_after(frames, chunks, k - 1, max);
        let most = chunks.take(k - 1);
        let p = joined(most);
        assert(chunks.take(k).drop_last() =~= most);
        assert(chunks.take(k).last() == chunks[k - 1]);
        lemma_joined(chunks, k - 1);
        assert(p =~= s.take(p.len() as int));
        lemma_stream_head(frames, p.len() as int, max);
        lemma_run_keeps_wf(start, p, max);
        lemma_run_append(start, p, chunks[k - 1], max);
        lemma_run_settled(run(start, p, max).state, chunks[k - 1], max);
    }
    if k < chunks.len() {
        let b = joined(chunks.take(k + 1));
        assert(chunks.take(k + 1).drop_last() =~= chunks.take(k));
        assert(b == a + chunks[k]);
        lemma_joined(chunks, k + 1);
        assert(b =~= s.take(b.len() as int));
        lemma_stream_head(frames, b.len() as int, max);
        lemma_run_append(start, a, chunks[k], max);
        let state = run(start, a, max).state;
        lemma_run_settled(state, chunks[k], max);
        let second = run(state, chunks[k], max);
        let x = frames_within(frames, a.len() as int) as int;
        let y = frames_within(frames, b.len() as int) as int;
        assert(frames.take(y) == frames.take(x) + second.frames);
        assert(second.frames =~= frames.subrange(x, y)) by {
            assert forall|i: int| 0 <= i < second.frames.len() implies second.frames[i]
                == frames[x + i] by {
                assert((frames.take(x) + second.frames)[x + i] == second.frames[i]);
            }
        }
    }
}

/// No more payload is gathered, or expected, than the limit allows.
pub open spec fn scan_within(s: ScanModel, max: nat) -> bool {
    &&& scan_wf(s)
    &&& s matches ScanModel::Body(p) ==> match p.stage {
        StageModel::Payload { payload, remaining } => payload.len() + remaining <= max && remaining
            > 0,
        StageModel::Crc { payload, .. } => payload.len() <= max,
        _ => true,
    }
}

proof fn lemma_run_within(s: ScanModel, bytes: Seq<u8>, max: nat)
    requires
        scan_within(s, max),
    ensures
        scan_within(run(s, bytes, max).state, max),
    decreases bytes.len(),
{
    if bytes.len() > 0 {
        let (s1, e) = scan(s, bytes[0], max);
        assert(scan_within(s1, max));
        if !(e is Fail) {
            lemma_run_within(s1, bytes.skip(1), max);
        }
    }
}

/// A decoder holds less than a header and a payload between calls that went well,
/// however much went through it.
pub proof fn law_decoder_holds_little(d: DecoderModel, chunk: Seq<u8>, max: nat)
    requires
        scan_within(d.state, max),
    ensures
        decode_step(d, chunk, max).0 is Ok ==> {
            let after = decode_step(d, chunk, max).1;
            &&& scan_within(after.state, max)
            &&& weight(after) < HEADER_LEN + max
        },
{
    lemma_run_within(d.state, d.backlog + chunk, max);
}

/// Frames that are cut into chunks anywhere come out whole and in order: no call
/// fails, and each frame is returned by the call that brings its last byte, so
/// that a part of a frame brings nothing. Between the calls the decoder holds less
/// than a header and a payload, so that every call can be made whose chunk leaves
/// room for that.
pub proof fn law_stream_comes_out_whole(
    frames: Seq<FrameModel>,
    chunks: Seq<Seq<u8>>,
    max: nat,
)
    requires
        payloads_fit(frames, max),
        joined(chunks) == stream_of(frames),
    ensures
        forall|k: int|
            0 <= k < chunks.len() ==> #[trigger] returned(chunks, k, max) == Ok::<
                Seq<FrameModel>,
                ProtocolError,
            >(
                frames.subrange(
                    frames_within(frames, joined(chunks.take(k)).len() as int) as int,
                    frames_within(frames, joined(chunks.take(k + 1)).len() as int) as int,
                ),
            ),
        gathered(chunks, max) == frames,
        decoder_after(chunks, max) == fresh_decoder(),
        forall|k: int|
            0 <= k <= chunks.len() ==> weight(#[trigger] decoder_after(chunks.take(k), max))
                < HEADER_LEN + max,
{
    let s = stream_of(frames);
    assert(s =~= s.take(s.len() as int));
    assert forall|k: int| 0 <= k < chunks.len() implies #[trigger] returned(chunks, k, max) == Ok::<
        Seq<FrameModel>,
        ProtocolError,
    >(
        frames.subrange(
            frames_within(frames, joined(chunks.take(k)).len() as int) as int,
            frames_within(frames, joined(chunks.take(k + 1)).len() as int) as int,
        ),
    ) by {
        lemma_decoder_after(frames, chunks, k, max);
    }
    lemma_gathered(frames, chunks, chunks.len() as int, max);
    assert(chunks.take(chunks.len() as int) =~= chunks);
    lemma_stream_head(frames, s.len() as int, max);
    assert(frames.take(frames.len() as int) =~= frames);
    lemma_decoder_after(frames, chunks, chunks.len() as int, max);
    lemma_stream_state(frames, max);
    assert forall|k: int| 0 <= k <= chunks.len() implies weight(
        #[trigger] decoder_after(chunks.take(k), max),
    ) < HEADER_LEN + max by {
        lemma_decoder_after(frames, chunks, k, max);
        let start = ScanModel::Header(Seq::<u8>::empty());
        lemma_run_within(start, joined(chunks.take(k)), max);
    }
}

proof fn lemma_gathered(frames: Seq<FrameModel>, chunks: Seq<Seq<u8>>, k: int, max: nat)
    requires
        payloads_fit(frames, max),
        joined(chunks) == stream_of(frames),
        0 <= k <= chunks.len(),
    ensures
        gathered(chunks.take(k), max) == frames.take(
            frames_within(frames, joined(chunks.take(k)).len() as int) as int,
        ),
    decreases k,
{
    let s = stream_of(frames);
    assert(s =~= s.take(s.len() as int));
    if k == 0 {
        assert(chunks.take(0) =~= Seq::<Seq<u8>>::empty());
        lemma_stream_head(frames, 0, max);
        assert(s.take(0) =~= Seq::<u8>::empty());
        assert(frames.take(frames_within(frames, 0) as int).len() == 0);
        assert(gathered(chunks.take(0), max) =~= frames.take(frames_within(frames, 0) as int));
    } else {
        lemma_gathered(frames, chunks, k - 1, max);
        lemma_decoder_after(frames, chunks, k - 1, max);
        let most = chunks.take(k);
        assert(most.drop_last() =~= chunks.take(k - 1));
        assert(most.take(k - 1) =~= chunks.take(k - 1));
        assert(returned(most, k - 1, max) == returned(chunks, k - 1, max));
        let x = frames_within(frames, joined(chunks.take(k - 1)).len() as int) as int;
        let y = frames_within(frames, joined(chunks.take(k)).len() as int) as int;
        assert(frames.take(x) + frames.subrange(x, y) =~= frames.take(y));
    }
}

/// Behind whole frames a decoder is as good as new.
proof fn lemma_stream_state(frames: Seq<FrameModel>, max: nat)
    requires
        payloads_fit(frames, max),
    ensures
        run(ScanModel::Header(Seq::empty()), stream_of(frames), max).state == ScanModel::Header(
            Seq::<u8>::empty(),
        ),
    decreases frames.len(),
{
    if frames.len() > 0 {
        let rest = frames.skip(1);
        assert forall|i: int| 0 <= i < rest.len() implies (#[trigger] rest[i]).payload.len() <= max
            && rest[i].payload.len() <= u64::MAX by {
            assert(rest[i] == frames[i + 1]);
        }
        lemma_stream_state(rest, max);
        law_frame_round_trip(frames[0], stream_of(rest), max);
    }
}

// ---------------------------------------------------------------------------
// The decoder
// ---------------------------------------------------------------------------

#[allow(inconsistent_fields)]
enum Stage {
    SeqNo(VarIntDecoder),
    Ack(VarIntDecoder),
    Len(VarIntDecoder),
    Payload { payload: BytesMut, remaining: usize },
    Crc { payload: Bytes, carried: Vec<u8> },
}

impl Stage {
    closed spec fn model(&self) -> StageModel {
        match *self {
            Stage::SeqNo(dec) => StageModel::SeqNo(dec@),
            Stage::Ack(dec) => StageModel::Ack(dec@),
            Stage::Len(dec) => StageModel::Len(dec@),
            Stage::Payload { payload, remaining } => payload_stage(
                buffer_content(payload),
                remaining as nat,
            ),
            Stage::Crc { payload, carried } => StageModel::Crc {
                payload: bytes_content(payload),
                carried: carried@,
            },
        }
    }

    closed spec fn wf(&self) -> bool {
        match *self {
            Stage::SeqNo(dec) => dec.wf() && dec@.count <= MAX_VARINT_LEN,
            Stage::Ack(dec) => dec.wf() && dec@.count <= MAX_VARINT_LEN,
            Stage::Len(dec) => dec.wf() && dec@.count <= MAX_VARINT_LEN,
            Stage::Payload { .. } => true,
            Stage::Crc { carried, .. } => carried@.len() < CRC_LEN,
        }
    }

    /// The payload bytes gathered so far.
    closed spec fn load(&self) -> nat {
        match *self {
            Stage::Payload { payload, .. } => buffer_content(payload).len(),
            _ => 0,
        }
    }
}

struct Partial {
    cmd: Cmd,
    flags: u8,
    seq: u64,
    ack: u64,
    crc: Crc32,
    stage: Stage,
}

impl Partial {
    closed spec fn model(&self) -> PartialModel {
        PartialModel {
            cmd: self.cmd,
            flags: self.flags,
            seq: self.seq,
            ack: self.ack,
            crc: self.crc@,
            stage: self.stage.model(),
        }
    }
}

/// Feeds an integer decoder from the head of `buf` until the integer ends or
/// the bytes do. Every byte also goes into the checksum.
fn feed_varint(dec: &mut VarIntDecoder, buf: &mut BytesMut, crc: &mut Crc32) -> (r: Result<
    Option<u64>,
    ProtocolError,
>)
    requires
        old(dec).wf(),
        old(dec)@.count <= MAX_VARINT_LEN,
    ensures
        ({
            let fed = feed(old(dec)@, old(crc)@, buffer_content(*old(buf)));
            &&& r == fed.result
            &&& final(dec)@ == fed.progress
            &&& final(crc)@ == fed.crc
            &&& buffer_content(*final(buf)) == fed.left
        }),
        r == Ok::<Option<u64>, ProtocolError>(None) ==> final(dec).wf() && final(dec)@.count
            <= MAX_VARINT_LEN,
        buffer_content(*final(buf)).len() <= buffer_content(*old(buf)).len(),
{
    while buffer_len(buf) > 0
        invariant
            dec.wf(),
            dec@.count <= MAX_VARINT_LEN,
            feed(old(dec)@, old(crc)@, buffer_content(*old(buf))) == feed(
                dec@,
                crc@,
                buffer_content(*buf),
            ),
            buffer_content(*buf).len() <= buffer_content(*old(buf)).len(),
        decreases buffer_content(*buf).len(),
    {
        let byte: u8 = buffer_get_u8(buf);
        let one: [u8; 1] = [byte];
        assert(one@ =~= seq![byte]);
        crc.update(&one);
        match dec.push(byte) {
            Err(e) => {
                return Err(e);
            },
            Ok(Some(v)) => {
                return Ok(Some(v));
            },
            Ok(None) => {},
        }
    }
    Ok(None)
}

/// Advances a partial frame as far as the bytes go.
fn advance(partial: &mut Partial, buf: &mut BytesMut, max_frame_len: usize) -> (r: Result<
    Option<Frame>,
    ProtocolError,
>)
    requires
        old(partial).stage.wf(),
        old(partial).stage.load() + buffer_content(*old(buf)).len() <= isize::MAX,
    ensures
        ({
            let st = run_until(
                ScanModel::Body(old(partial).model()),
                buffer_content(*old(buf)),
                max_frame_len as nat,
            );
            &&& buffer_content(*final(buf)) == st.left
            &&& match st.event {
                Event::Nothing => {
                    &&& r == Ok::<Option<Frame>, ProtocolError>(None)
                    &&& st.state == ScanModel::Body(final(partial).model())
                },
                Event::Emit(f) => {
                    &&& r is Ok
                    &&& r->Ok_0 is Some
                    &&& r->Ok_0->Some_0@ == f
                    &&& st.state == ScanModel::Header(Seq::empty())
                },
                Event::Fail(e) => {
                    &&& r == Err::<Option<Frame>, ProtocolError>(e)
                    &&& st.state == ScanModel::Body(final(partial).model())
                },
            }
        }),
        !(r matches Ok(Some(_))) ==> final(partial).stage.wf() && final(partial).stage.load()
            + buffer_content(*final(buf)).len() <= old(partial).stage.load() + buffer_content(
            *old(buf),
        ).len(),
{
    let ghost max = max_frame_len as nat;
    let ghost p0 = partial.model();
    let ghost b0 = buffer_content(*buf);
    let ghost budget = partial.stage.load() + b0.len();
    let mut waiting: bool = false;
    while !waiting
        invariant
            max == max_frame_len as nat,
            p0 == old(partial).model(),
            b0 == buffer_content(*old(buf)),
            budget == old(partial).stage.load() + b0.len(),
            partial.stage.wf(),
            partial.stage.load() + buffer_content(*buf).len() <= budget,
            budget <= isize::MAX,
            run_until(ScanModel::Body(p0), b0, max) == run_until(
                ScanModel::Body(partial.model()),
                buffer_content(*buf),
                max,
            ),
            waiting ==> buffer_content(*buf).len() == 0,
        decreases
                (if waiting {
                    0int
                } else {
                    1
                }),
                buffer_content(*buf).len(),
                (match partial.stage {
                    Stage::SeqNo(_) => 5int,
                    Stage::Ack(_) => 4,
                    Stage::Len(_) => 3,
                    Stage::Payload { .. } => 2,
                    Stage::Crc { .. } => 1,
                }),
    {
        let ghost before = partial.model();
        let ghost bytes = buffer_content(*buf);
        let mut stage = Stage::SeqNo(VarIntDecoder::default());
        core::mem::swap(&mut stage, &mut partial.stage);
        match stage {
            Stage::SeqNo(mut dec) => {
                let fed = feed_varint(&mut dec, buf, &mut partial.crc);
                proof {
                    lemma_varint_stage(before, bytes, max);
                }
                match fed {
                    Err(e) => {
                        return Err(e);
                    },
                    Ok(None) => {
                        partial.stage = Stage::SeqNo(dec);
                        waiting = true;
                    },
                    Ok(Some(v)) => {
                        partial.seq = v;
                        partial.stage = Stage::Ack(VarIntDecoder::default());
                    },
                }
            },
            Stage::Ack(mut dec) => {
                let fed = feed_varint(&mut dec, buf, &mut partial.crc);
                proof {
                    lemma_varint_stage(before, bytes, max);
                }
                match fed {
                    Err(e) => {
                        return Err(e);
                    },
                    Ok(None) => {
                        partial.stage = Stage::Ack(dec);
                        waiting = true;
                    },
                    Ok(Some(v)) => {
                        partial.ack = v;
                        partial.stage = Stage::Len(VarIntDecoder::default());
                    },
                }
            },
            Stage::Len(mut dec) => {
                let fed = feed_varint(&mut dec, buf, &mut partial.crc);
                proof {
                    lemma_varint_stage(before, bytes, max);
                }
                match fed {
                    Err(e) => {
                        return Err(e);
                    },
                    Ok(None) => {
                        partial.stage = Stage::Len(dec);
                        waiting = true;
                    },
                    Ok(Some(v)) => {
                        if v > max_frame_len as u64 {
                            return Err(ProtocolError::FrameTooLarge { got: v, max: max_frame_len });
                        }
                        partial.stage =
                        Stage::Payload { payload: buffer_new(), remaining: v as usize };
                    },
                }
            },
            Stage::Payload { mut payload, remaining } => {
                let available: usize = buffer_len(buf);
                if available == 0 {
                    partial.stage = Stage::Payload { payload, remaining };
                    waiting = true;
                } else {
                    let take: usize = if remaining < available {
                        remaining
                    } else {
                        available
                    };
                    let ghost gathered = buffer_content(payload);
                    let chunk = buffer_split_to(buf, take);
                    partial.crc.update(buffer_as_slice(&chunk));
                    buffer_extend(&mut payload, buffer_as_slice(&chunk));
                    proof {
                        let c = buffer_content(chunk);
                        lemma_payload_stage(before, gathered, c, (remaining - take) as nat, max);
                        assert(c + bytes.skip(take as int) =~= bytes);
                        lemma_run_until_append(
                            ScanModel::Body(before),
                            c,
                            bytes.skip(take as int),
                            max,
                        );
                    }
                    if take == remaining {
                        partial.stage =
                        Stage::Crc { payload: buffer_freeze(payload), carried: Vec::new() };
                        assert(partial.stage.model() == payload_stage(gathered + buffer_content(chunk), 0));
                    } else {
                        partial.stage = Stage::Payload { payload, remaining: remaining - take };
                    }
                }
            },
            Stage::Crc { payload, mut carried } => {
                let available: usize = buffer_len(buf);
                if available == 0 {
                    partial.stage = Stage::Crc { payload, carried };
                    waiting = true;
                } else {
                    let missing: usize = CRC_LEN - carried.len();
                    let take: usize = if missing < available {
                        missing
                    } else {
                        available
                    };
                    let ghost had = carried@;
                    let chunk = buffer_split_to(buf, take);
                    put_slice(&mut carried, buffer_as_slice(&chunk));
                    let ghost c = buffer_content(chunk);
                    assert(c + bytes.skip(take as int) =~= bytes);
                    if carried.len() < CRC_LEN {
                        proof {
                            lemma_crc_stage(before, bytes_content(payload), had, c, max);
                            assert(bytes =~= c);
                        }
                        partial.stage = Stage::Crc { payload, carried };
                        waiting = true;
                    } else {
                        let got: u32 = get_be32(carried.as_slice(), 0);
                        let expected: u32 = partial.crc.clone_state().finish();
                        proof {
                            assert(carried@.subrange(0, 4) =~= had + c);
                            lemma_crc_stage_end(
                                before,
                                bytes_content(payload),
                                had,
                                c,
                                bytes.skip(take as int),
                                max,
                            );
                        }
                        if got != expected {
                            return Err(ProtocolError::CrcMismatch { expected, got });
                        }
                        return Ok(
                            Some(
                                Frame {
                                    cmd: partial.cmd,
                                    flags: partial.flags,
                                    seq: partial.seq,
                                    ack: partial.ack,
                                    payload,
                                },
                            ),
                        );
                    }
                }
            },
        }
    }
    Ok(None)
}

/// An incremental frame decoder, one per connection.
pub struct FrameDecoder {
    max_frame_len: usize,
    buf: BytesMut,
    current: Option<Partial>,
}

impl View for FrameDecoder {
    type V = DecoderModel;

    closed spec fn view(&self) -> DecoderModel {
        DecoderModel {
            state: match self.current {
                None => ScanModel::Header(Seq::empty()),
                Some(p) => ScanModel::Body(p.model()),
            },
            backlog: buffer_content(self.buf),
        }
    }
}

impl FrameDecoder {
    /// The decoder's parts fit together.
    pub closed spec fn wf(&self) -> bool {
        self.current matches Some(p) ==> p.stage.wf()
    }

    /// The largest payload that the decoder accepts.
    pub closed spec fn limit(&self) -> nat {
        self.max_frame_len as nat
    }

    /// The number of bytes that the decoder keeps in its buffers.
    closed spec fn held(&self) -> nat {
        buffer_content(self.buf).len() + match self.current {
            None => 0,
            Some(p) => p.stage.load(),
        }
    }

    /// A decoder with the default payload limit.
    #[must_use]
    pub fn new() -> (d: Self)
        ensures
            d.wf(),
            d@ == fresh_decoder(),
            d.limit() == DEFAULT_MAX_FRAME_LEN,
    {
        Self::with_max_frame_len(DEFAULT_MAX_FRAME_LEN)
    }

    /// A decoder with a payload limit of its own.
    #[must_use]
    pub fn with_max_frame_len(max_frame_len: usize) -> (d: Self)
        ensures
            d.wf(),
            d@ == fresh_decoder(),
            d.limit() == max_frame_len,
    {
        FrameDecoder { max_frame_len, buf: buffer_new(), current: None }
    }

    /// Takes in a piece of the stream and returns the frames that it completes.
    ///
    /// After an error the stream is out of step and the connection should be
    /// dropped: the frames that the piece completed before the error are lost,
    /// the bytes behind it wait in the backlog.
    pub fn decode(&mut self, chunk: &[u8]) -> (r: Result<Vec<Frame>, ProtocolError>)
        requires
            old(self).wf(),
            weight(old(self)@) + chunk@.len() <= isize::MAX,
        ensures
            final(self).wf(),
            final(self).limit() == old(self).limit(),
            final(self)@ == decode_step(old(self)@, chunk@, old(self).limit()).1,
            match decode_step(old(self)@, chunk@, old(self).limit()).0 {
                Ok(frames) => r is Ok && r->Ok_0@.map_values(|f: Frame| f@) == frames,
                Err(e) => r == Err::<Vec<Frame>, ProtocolError>(e),
            },
    {
        assert(self.held() <= weight(self@));
        buffer_extend(&mut self.buf, chunk);
        let ghost start = *self;
        let ghost max = self.limit();
        let mut frames: Vec<Frame> = Vec::new();
        let ghost whole = run(start@.state, start@.backlog, max);
        assert(frames@.map_values(|f: Frame| f@) =~= Seq::<FrameModel>::empty());
        assert(Seq::<FrameModel>::empty() + whole.frames =~= whole.frames);
        loop
            invariant
                self.wf(),
                self.limit() == max,
                self.held() <= old(self).held() + chunk@.len(),
                old(self).held() + chunk@.len() <= isize::MAX,
                ({
                    let rest = run(self@.state, self@.backlog, max);
                    whole == (RunModel {
                        frames: frames@.map_values(|f: Frame| f@) + rest.frames,
                        ..rest
                    })
                }),
                max == old(self).limit(),
                start@.state == old(self)@.state,
                start@.backlog == old(self)@.backlog + chunk@,
                whole == run(start@.state, start@.backlog, max),
            decreases self@.backlog.len(),
        {
            proof {
                lemma_run_from_stretch(self@.state, self@.backlog, max);
            }
            let ghost had = frames@;
            match self.next_frame() {
                Err(e) => {
                    return Err(e);
                },
                Ok(None) => {
                    proof {
                        assert(frames@.map_values(|f: Frame| f@) + Seq::<FrameModel>::empty()
                            =~= frames@.map_values(|f: Frame| f@));
                    }
                    return Ok(frames);
                },
                Ok(Some(frame)) => {
                    frames.push(frame);
                    proof {
                        let rest = run(self@.state, self@.backlog, max);
                        assert(frames@.map_values(|f: Frame| f@) =~= had.map_values(
                            |f: Frame| f@,
                        ).push(frame@));
                        assert(had.map_values(|f: Frame| f@) + (seq![frame@] + rest.frames)
                            =~= frames@.map_values(|f: Frame| f@) + rest.frames);
                    }
                },
            }
        }
    }

    /// The next frame of the bytes held, nothing if they end before it does.
    fn next_frame(&mut self) -> (r: Result<Option<Frame>, ProtocolError>)
        requires
            old(self).wf(),
            old(self).held() <= isize::MAX,
        ensures
            final(self).wf(),
            final(self).limit() == old(self).limit(),
            final(self).held() <= old(self).held(),
            ({
                let st = run_until(old(self)@.state, old(self)@.backlog, old(self).limit());
                match st.event {
                    Event::Nothing => {
                        &&& r == Ok::<Option<Frame>, ProtocolError>(None)
                        &&& final(self)@ == settled(st.state)
                    },
                    Event::Emit(f) => {
                        &&& r is Ok
                        &&& r->Ok_0 is Some
                        &&& r->Ok_0->Some_0@ == f
                        &&& final(self)@ == (DecoderModel { state: st.state, backlog: st.left })
                    },
                    Event::Fail(e) => {
                        &&& r == Err::<Option<Frame>, ProtocolError>(e)
                        &&& final(self)@ == (DecoderModel { state: st.state, backlog: st.left })
                    },
                }
            }),
    {
        let ghost max = self.limit();
        let ghost all = buffer_content(self.buf);
        proof {
            lemma_run_from_stretch(self@.state, self@.backlog, max);
        }
        let mut partial: Partial = match self.current.take() {
            Some(p) => p,
            None => {
                if buffer_len(&self.buf) < HEADER_LEN {
                    proof {
                        lemma_gather_header(all, max);
                    }
                    return Ok(None);
                }
                let header = buffer_split_to(&mut self.buf, HEADER_LEN);
                let h = buffer_as_slice(&header);
                proof {
                    assert(h@ + all.skip(HEADER_LEN as int) =~= all);
                    lemma_header_stage(h@, all.skip(HEADER_LEN as int), max);
                }
                let magic: u16 = (h[0] as u16) * 0x100 + (h[1] as u16);
                if magic != crate::protocol::MAGIC {
                    return Err(
                        ProtocolError::BadMagic { expected: crate::protocol::MAGIC, got: magic },
                    );
                }
                if h[2] != crate::protocol::VERSION {
                    return Err(
                        ProtocolError::UnsupportedVersion {
                            got: h[2],
                            supported: crate::protocol::VERSION,
                        },
                    );
                }
                let cmd = match Cmd::try_from(h[3]) {
                    Ok(cmd) => cmd,
                    Err(e) => {
                        return Err(e);
                    },
                };
                let mut crc = Crc32::new();
                crc.update(h);
                Partial {
                    cmd,
                    flags: h[4],
                    seq: 0,
                    ack: 0,
                    crc,
                    stage: Stage::SeqNo(VarIntDecoder::default()),
                }
            },
        };
        match advance(&mut partial, &mut self.buf, self.max_frame_len) {
            Err(e) => {
                self.current = Some(partial);
                Err(e)
            },
            Ok(Some(frame)) => Ok(Some(frame)),
            Ok(None) => {
                self.current = Some(partial);
                Ok(None)
            },
        }
    }
}

impl Default for FrameDecoder {
    fn default() -> (d: Self)
        ensures
            d.wf(),
            d@ == fresh_decoder(),
            d.limit() == DEFAULT_MAX_FRAME_LEN,
    {
        Self::new()
    }
}

} // verus!
