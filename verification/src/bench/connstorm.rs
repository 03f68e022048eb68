//! A storm of connections: where each comes from, what becomes of it, and the
//! books that have to balance.

use bytes::Bytes;
use vstd::prelude::*;
use crate::bench::format::{
    fmt_kib, fmt_mib, fmt_ns, fmt_secs, grouped, kib_text, mib_text, ns_text, span_text,
    thousands,
};
use crate::bench::memstats::MemSnapshot;
use crate::bench::weaklink::line_views;
use crate::client::outbox::Nanos;
use crate::octets::{bytes_content, bytes_from_vec};
use crate::protocol::error::{ProtocolError, error_text};
use crate::protocol::frame::{Cmd, Frame, FrameModel};
use crate::protocol::payload::{Handshake, HandshakeAck, HandshakeModel, Payload};
use crate::text::{decimal, push_decimal};
use crate::textmap::TextMap;

verus! {

/// How often every connection is kept alive: every twenty seconds.
pub const SWEEP_INTERVAL: Nanos = 20_000_000_000;

/// How long the connections may take to go: thirty seconds.
pub const TEARDOWN_LIMIT: Nanos = 30_000_000_000;

/// How many ports of an address are used.
pub const PORTS_PER_IP: u32 = 45_536;

/// The first port that is used.
pub const FIRST_PORT: u32 = 20_000;

/// The settings of a storm.
#[derive(Debug, Clone, Copy, PartialEq, Eq, Structural)]
pub struct ConnStormArgs {
    /// How many connections are made.
    pub connections: usize,
    /// How many are made at once.
    pub wave: usize,
    /// From how many addresses.
    pub source_ips: u32,
    /// How long they are held, in seconds.
    pub hold_secs: u64,
    /// The wait for the answer to a login, in milliseconds.
    pub handshake_timeout_ms: u64,
}

/// What follows from the settings of a storm.
#[derive(Debug, Clone, PartialEq, Eq)]
pub struct StormPlan {
    /// How long the connections are held, in seconds: not as long as the server
    /// takes to give up a silent one.
    pub hold_secs: u64,
    /// From how many addresses so many connections can come.
    pub need_ips: u32,
    /// A hint, if there are fewer.
    pub hint: Option<String>,
}

/// Why a storm cannot be made with these settings.
pub open spec fn storm_error(args: ConnStormArgs) -> Option<Seq<char>> {
    if args.connections < 1 {
        Some("--connections 至少为 1"@)
    } else if args.wave < 1 {
        Some("--wave 至少为 1"@)
    } else if args.source_ips < 1 {
        Some("--source-ips 至少为 1"@)
    } else if args.source_ips > 254 {
        Some("--source-ips 最多 254（127.0.0.x 的 x 段上限）"@)
    } else {
        None
    }
}

/// What follows from the settings of a storm.
pub fn conn_storm(args: &ConnStormArgs) -> (r: Result<StormPlan, &'static str>)
    requires
        args.connections / 45_536 < u32::MAX,
    ensures
        match storm_error(*args) {
            Some(text) => r is Err && r->Err_0@ == text,
            None => {
                let need = args.connections / 45_536 + 1;
                &&& r is Ok
                &&& r->Ok_0.hold_secs == if args.hold_secs < 45 {
                    args.hold_secs
                } else {
                    45
                }
                &&& r->Ok_0.need_ips == need
                &&& if args.source_ips < need {
                    r->Ok_0.hint is Some && r->Ok_0.hint->Some_0@ == "提示: "@ + decimal(
                        need as nat,
                    ) + " 个源 IP 才够显式端口容量（每 IP 45,536 个；当前 "@ + decimal(
                        args.source_ips as nat,
                    ) + "）——不足时连接失败会计入报告"@
                } else {
                    r->Ok_0.hint is None
                }
            },
        },
{
    if args.connections < 1 {
        return Err("--connections 至少为 1");
    }
    if args.wave < 1 {
        return Err("--wave 至少为 1");
    }
    if args.source_ips < 1 {
        return Err("--source-ips 至少为 1");
    }
    if args.source_ips > 254 {
        return Err("--source-ips 最多 254（127.0.0.x 的 x 段上限）");
    }
    let hold_secs: u64 = if args.hold_secs < 45 {
        args.hold_secs
    } else {
        45
    };
    let need_ips: u32 = (args.connections / 45_536 + 1) as u32;
    let hint: Option<String> = if args.source_ips < need_ips {
        let mut s = String::from_str("提示: ");
        push_decimal(&mut s, need_ips as u128);
        s.append(" 个源 IP 才够显式端口容量（每 IP 45,536 个；当前 ");
        push_decimal(&mut s, args.source_ips as u128);
        s.append("）——不足时连接失败会计入报告");
        Some(s)
    } else {
        None
    };
    Ok(StormPlan { hold_secs, need_ips, hint })
}

// ---------------------------------------------------------------------------
// Where connections come from
// ---------------------------------------------------------------------------

/// The last part of the address of a connection: the addresses take turns.
pub open spec fn ip_of(idx: nat, ips: nat) -> nat {
    1 + idx % ips
}

/// The port of a connection: every address has ports of its own.
pub open spec fn port_of(idx: nat, ips: nat) -> nat {
    20_000 + (idx / ips) % 45_536
}

/// The address from which a connection comes.
#[must_use]
pub fn source_ip(idx: usize, ips: u32) -> (r: [u8; 4])
    requires
        1 <= ips <= 254,
        idx <= u32::MAX,
    ensures
        r@ == seq![127u8, 0u8, 0u8, ip_of(idx as nat, ips as nat) as u8],
{
    let last: u32 = 1 + (idx as u32) % ips;
    let r: [u8; 4] = [127, 0, 0, last as u8];
    assert(r@ =~= seq![127u8, 0u8, 0u8, ip_of(idx as nat, ips as nat) as u8]);
    r
}

/// The address and the port from which a connection comes.
#[must_use]
pub fn source_addr(idx: usize, ips: u32) -> (r: ([u8; 4], u16))
    requires
        1 <= ips <= 254,
        idx <= u32::MAX,
    ensures
        r.0@ == seq![127u8, 0u8, 0u8, ip_of(idx as nat, ips as nat) as u8],
        r.1 == port_of(idx as nat, ips as nat),
{
    let ip = source_ip(idx, ips);
    let nth: u32 = (idx / ips as usize) as u32;
    (ip, (20_000 + nth % 45_536) as u16)
}

/// No two connections come from the same address and port, as long as there are
/// ports.
pub proof fn law_sources_are_distinct(i: nat, j: nat, ips: nat)
    requires
        1 <= ips <= 254,
        i < j < ips * 45_536,
    ensures
        ip_of(i, ips) != ip_of(j, ips) || port_of(i, ips) != port_of(j, ips),
{
    if i % ips == j % ips {
        vstd::arithmetic::div_mod::lemma_fundamental_div_mod(i as int, ips as int);
        vstd::arithmetic::div_mod::lemma_fundamental_div_mod(j as int, ips as int);
        let a = i / ips;
        let b = j / ips;
        assert(a < 45_536 && b < 45_536) by (nonlinear_arith)
            requires
                i < ips * 45_536,
                j < ips * 45_536,
                a == i / ips,
                b == j / ips,
                ips >= 1,
        ;
        assert(a != b);
    }
}

// ---------------------------------------------------------------------------
// What becomes of a connection
// ---------------------------------------------------------------------------

/// The login of a connection.
#[must_use]
pub fn handshake_frame(user_id: u64, token: &str) -> (r: Frame)
    ensures
        r@ == (FrameModel {
            cmd: Cmd::Handshake,
            flags: 0,
            seq: 1,
            ack: 0,
            payload: Handshake::wire(HandshakeModel { user_id, token: token@ }),
        }),
{
    let login = Handshake { user_id, token: token.to_owned() };
    login.encode_frame(1, 0)
}

/// What came of a login.
#[derive(Debug)]
pub enum ShakeReply {
    /// It could not be sent, for this reason.
    WriteFailed(String),
    /// No answer came in time.
    TimedOut,
    /// The answer could not be received, for this reason.
    ReadFailed(String),
    /// The connection was closed.
    Closed,
    /// An answer came.
    Reply(Frame),
}

/// Why a login failed, if it did.
pub open spec fn shake_error(reply: ShakeReply) -> Option<Seq<char>> {
    match reply {
        ShakeReply::WriteFailed(e) => Some("写握手帧: "@ + e@),
        ShakeReply::TimedOut => Some("等待握手应答超时"@),
        ShakeReply::ReadFailed(e) => Some("读握手应答: "@ + e@),
        ShakeReply::Closed => Some("连接在应答前关闭"@),
        ShakeReply::Reply(frame) => match answer(frame@) {
            Err(e) => Some("应答解码: "@ + error_text(e)),
            Ok(ack) => if ack.session_id == 0 {
                Some("服务端拒绝: "@ + ack.reason)
            } else {
                None
            },
        },
    }
}

/// The answer that a frame carries.
pub open spec fn answer(frame: FrameModel) -> Result<
    crate::protocol::payload::HandshakeAckModel,
    ProtocolError,
> {
    if frame.cmd != Cmd::HandshakeAck {
        Err(ProtocolError::UnknownCommand { got: crate::protocol::frame::cmd_byte(frame.cmd) })
    } else {
        HandshakeAck::parse(frame.payload)
    }
}

fn joined(a: &str, b: &str) -> (r: String)
    ensures
        r@ == a@ + b@,
{
    let mut s = a.to_owned();
    s.append(b);
    s
}

/// Whether a login was accepted, or why not.
pub fn handshake(reply: &ShakeReply) -> (r: Result<(), String>)
    ensures
        match shake_error(*reply) {
            Some(text) => r is Err && r->Err_0@ == text,
            None => r is Ok,
        },
{
    match reply {
        ShakeReply::WriteFailed(e) => Err(joined("写握手帧: ", e.as_str())),
        ShakeReply::TimedOut => Err("等待握手应答超时".to_owned()),
        ShakeReply::ReadFailed(e) => Err(joined("读握手应答: ", e.as_str())),
        ShakeReply::Closed => Err("连接在应答前关闭".to_owned()),
        ShakeReply::Reply(frame) => match HandshakeAck::decode_frame(frame) {
            Err(e) => Err(joined("应答解码: ", e.to_text().as_str())),
            Ok(ack) => {
                if ack.session_id == 0 {
                    Err(joined("服务端拒绝: ", ack.reason.as_str()))
                } else {
                    Ok(())
                }
            },
        },
    }
}

/// The frame that keeps a connection alive.
#[must_use]
pub fn keepalive_frame() -> (r: Frame)
    ensures
        r@ == (FrameModel { cmd: Cmd::Ping, flags: 0, seq: 0, ack: 0, payload: Seq::empty() }),
{
    let empty: Vec<u8> = Vec::new();
    let payload: Bytes = bytes_from_vec(empty);
    assert(bytes_content(payload) =~= Seq::<u8>::empty());
    Frame::new(Cmd::Ping, 0, 0, payload)
}

// ---------------------------------------------------------------------------
// The storm
// ---------------------------------------------------------------------------

/// What a storm is doing.
#[derive(Debug, Clone, Copy, PartialEq, Eq, Structural)]
pub enum StormPhase {
    /// A wave connects.
    Connecting,
    /// A wave logs in.
    LoggingIn,
    /// Every connection is kept alive.
    Sweeping,
    /// All waves are over.
    Over,
}

/// What happens in a storm.
#[derive(Debug)]
pub enum StormEvent {
    /// A connection was made.
    Connected,
    /// A connection could not be made, for this reason.
    ConnectFailed(String),
    /// A login was accepted.
    LoggedIn,
    /// A login failed, for this reason.
    LoginFailed(String),
    /// Every connection was kept alive.
    Swept,
}

/// What is to be done in a storm.
#[derive(Debug, Clone, Copy, PartialEq, Eq, Structural)]
pub enum StormAction {
    /// Wait for what is under way.
    Wait,
    /// Make these connections at once.
    Connect {
        /// The first.
        from: usize,
        /// Behind the last.
        to: usize,
    },
    /// Log in on the connections that were made, at once.
    Login {
        /// The user of the first; those of the others follow.
        first_user: u64,
        /// How many there are.
        count: usize,
    },
    /// Keep every connection alive.
    Sweep,
    /// Nothing: the storm is over.
    Finish,
}

/// A storm: waves of connections that are made and then log in, and their books.
pub struct Storm {
    args: ConnStormArgs,
    phase: StormPhase,
    end: usize,
    left: usize,
    streams: usize,
    since: Nanos,
    last_sweep: Nanos,
    held: usize,
    next_user_id: u64,
    connect_ns: u128,
    handshake_ns: u128,
    failures: TextMap<usize>,
}

/// What a [`Storm`] holds.
#[verifier::ext_equal]
pub struct StormModel {
    /// The settings.
    pub args: ConnStormArgs,
    /// What it is doing.
    pub phase: StormPhase,
    /// How many connections were begun.
    pub end: usize,
    /// How many of what is under way are not done.
    pub left: usize,
    /// How many connections of this wave were made and have not begun to log in.
    pub streams: usize,
    /// When this phase began.
    pub since: Nanos,
    /// When the connections were last kept alive.
    pub last_sweep: Nanos,
    /// How many connections are held.
    pub held: usize,
    /// The user of the next connection.
    pub next_user_id: u64,
    /// How long connecting took.
    pub connect_ns: u128,
    /// How long the logins took.
    pub handshake_ns: u128,
    /// How often each failure came.
    pub failures: Map<Seq<char>, usize>,
}

/// How often a failure came.
pub open spec fn times(failures: Map<Seq<char>, usize>, reason: Seq<char>) -> usize {
    if failures.contains_key(reason) {
        failures[reason]
    } else {
        0
    }
}

/// The failures after one more.
pub open spec fn counted(failures: Map<Seq<char>, usize>, reason: Seq<char>) -> Map<
    Seq<char>,
    usize,
> {
    failures.insert(reason, (times(failures, reason) + 1) as usize)
}

/// All failures.
pub open spec fn failure_total(listing: Seq<(Seq<char>, usize)>) -> nat
    decreases listing.len(),
{
    if listing.len() == 0 {
        0
    } else {
        failure_total(listing.drop_last()) + listing.last().1 as nat
    }
}

/// A storm before its first wave.
pub open spec fn calm(args: ConnStormArgs, now: Nanos) -> StormModel {
    StormModel {
        args,
        phase: StormPhase::Over,
        end: 0,
        left: 0,
        streams: 0,
        since: now,
        last_sweep: now,
        held: 0,
        next_user_id: 1,
        connect_ns: 0,
        handshake_ns: 0,
        failures: Map::empty(),
    }
}

/// The next wave connects, or the storm is over.
pub open spec fn storm_next(m: StormModel, now: Nanos) -> (StormModel, StormAction) {
    if m.end >= m.args.connections {
        (StormModel { phase: StormPhase::Over, ..m }, StormAction::Finish)
    } else {
        let to: usize = if m.args.connections - m.end <= m.args.wave {
            m.args.connections
        } else {
            (m.end + m.args.wave) as usize
        };
        (
            StormModel {
                phase: StormPhase::Connecting,
                end: to,
                left: (to - m.end) as usize,
                streams: 0,
                since: now,
                ..m
            },
            StormAction::Connect { from: m.end, to },
        )
    }
}

/// A wave has logged in: the connections are kept alive, if it is time, before the
/// next wave.
pub open spec fn storm_logged_in(m: StormModel, now: Nanos) -> (StormModel, StormAction) {
    let m1 = StormModel {
        handshake_ns: (m.handshake_ns + (now - m.since)) as u128,
        since: now,
        ..m
    };
    if now - m.last_sweep >= SWEEP_INTERVAL {
        (StormModel { phase: StormPhase::Sweeping, ..m1 }, StormAction::Sweep)
    } else {
        storm_next(m1, now)
    }
}

/// A wave has connected: the connections that were made log in.
pub open spec fn storm_connected(m: StormModel, now: Nanos) -> (StormModel, StormAction) {
    let m1 = StormModel {
        connect_ns: (m.connect_ns + (now - m.since)) as u128,
        since: now,
        ..m
    };
    if m.streams == 0 {
        storm_logged_in(m1, now)
    } else {
        (
            StormModel {
                phase: StormPhase::LoggingIn,
                left: m.streams,
                streams: 0,
                next_user_id: (m.next_user_id + m.streams) as u64,
                ..m1
            },
            StormAction::Login { first_user: m.next_user_id, count: m.streams },
        )
    }
}

/// What can happen while a storm does what it is doing.
pub open spec fn can_happen(phase: StormPhase, event: StormEvent) -> bool {
    match event {
        StormEvent::Connected | StormEvent::ConnectFailed(_) => phase == StormPhase::Connecting,
        StormEvent::LoggedIn | StormEvent::LoginFailed(_) => phase == StormPhase::LoggingIn,
        StormEvent::Swept => phase == StormPhase::Sweeping,
    }
}

/// The books after something has happened; nothing else has changed.
pub open spec fn storm_booked(m: StormModel, event: StormEvent, now: Nanos) -> StormModel {
    match event {
        StormEvent::Connected => StormModel {
            left: (m.left - 1) as usize,
            streams: (m.streams + 1) as usize,
            ..m
        },
        StormEvent::ConnectFailed(e) => StormModel {
            left: (m.left - 1) as usize,
            failures: counted(m.failures, "connect: "@ + e@),
            ..m
        },
        StormEvent::LoggedIn => StormModel {
            left: (m.left - 1) as usize,
            held: (m.held + 1) as usize,
            ..m
        },
        StormEvent::LoginFailed(e) => StormModel {
            left: (m.left - 1) as usize,
            failures: counted(m.failures, "handshake: "@ + e@),
            ..m
        },
        StormEvent::Swept => StormModel { last_sweep: now, ..m },
    }
}

/// A storm after something has happened, and what is then to be done.
pub open spec fn storm_step(m: StormModel, event: StormEvent, now: Nanos) -> (
    StormModel,
    StormAction,
) {
    let m1 = storm_booked(m, event, now);
    if m1.left > 0 {
        (m1, StormAction::Wait)
    } else {
        match m.phase {
            StormPhase::Connecting => storm_connected(m1, now),
            StormPhase::LoggingIn => storm_logged_in(m1, now),
            _ => storm_next(m1, now),
        }
    }
}

impl View for Storm {
    type V = StormModel;

    closed spec fn view(&self) -> StormModel {
        StormModel {
            args: self.args,
            phase: self.phase,
            end: self.end,
            left: self.left,
            streams: self.streams,
            since: self.since,
            last_sweep: self.last_sweep,
            held: self.held,
            next_user_id: self.next_user_id,
            connect_ns: self.connect_ns,
            handshake_ns: self.handshake_ns,
            failures: self.failures@,
        }
    }
}

proof fn lemma_total_rises(listing: Seq<(Seq<char>, usize)>, n: int)
    requires
        0 <= n <= listing.len(),
    ensures
        failure_total(listing.take(n)) <= failure_total(listing),
    decreases listing.len() - n,
{
    if n < listing.len() {
        lemma_total_rises(listing, n + 1);
        assert(listing.take(n + 1).drop_last() =~= listing.take(n));
    } else {
        assert(listing.take(n) =~= listing);
    }
}

proof fn lemma_total_of_update(listing: Seq<(Seq<char>, usize)>, i: int, e: (Seq<char>, usize))
    requires
        0 <= i < listing.len(),
    ensures
        failure_total(listing.update(i, e)) == failure_total(listing) - listing[i].1 + e.1,
        listing[i].1 <= failure_total(listing),
    decreases listing.len(),
{
    let t = listing.update(i, e);
    if i == listing.len() - 1 {
        assert(t.drop_last() =~= listing.drop_last());
    } else {
        lemma_total_of_update(listing.drop_last(), i, e);
        assert(t.drop_last() =~= listing.drop_last().update(i, e));
    }
}

proof fn lemma_total_of_insert(listing: Seq<(Seq<char>, usize)>, at: int, e: (Seq<char>, usize))
    requires
        0 <= at <= listing.len(),
    ensures
        failure_total(listing.insert(at, e)) == failure_total(listing) + e.1,
    decreases listing.len(),
{
    let t = listing.insert(at, e);
    if at == listing.len() {
        assert(t.drop_last() =~= listing);
    } else {
        lemma_total_of_insert(listing.drop_last(), at, e);
        assert(t.drop_last() =~= listing.drop_last().insert(at, e));
        assert(t.last() == listing.last());
    }
}

/// In a storm that is over, every connection is held or has failed once.
pub proof fn law_every_connection_is_accounted_for(storm: Storm)
    requires
        storm.wf(),
        storm@.phase == StormPhase::Over,
    ensures
        storm@.held + failure_total(storm.listing()) == storm@.args.connections,
{
}

/// Two connections that are made have different users: those of a wave follow each
/// other, and those of a later wave come behind.
pub proof fn law_users_are_distinct(m: StormModel, event: StormEvent, now: Nanos)
    requires
        m.next_user_id + m.streams + 1 <= u64::MAX,
        m.streams < usize::MAX,
    ensures
        match storm_step(m, event, now).1 {
            StormAction::Login { first_user, count } => first_user == m.next_user_id
                && storm_step(m, event, now).0.next_user_id == first_user + count,
            _ => storm_step(m, event, now).0.next_user_id == m.next_user_id,
        },
{
}

/// Every connection is begun once, in order: a wave begins where the one before it
/// ended.
pub proof fn law_waves_follow_each_other(m: StormModel, event: StormEvent, now: Nanos)
    requires
        m.args.wave >= 1,
        m.end <= m.args.connections,
    ensures
        match storm_step(m, event, now).1 {
            StormAction::Connect { from, to } => from == m.end && to == storm_step(
                m,
                event,
                now,
            ).0.end && from < to <= m.args.connections && to - from <= m.args.wave,
            _ => storm_step(m, event, now).0.end == m.end,
        },
{
}

impl Storm {
    /// The failures, in the order of their reasons, and how often each came.
    pub closed spec fn listing(&self) -> Seq<(Seq<char>, usize)> {
        self.failures.listing()
    }

    /// The books balance: of the connections that were begun, each is held, has
    /// failed, or is under way.
    pub open spec fn balanced(&self) -> bool {
        self@.held + failure_total(self.listing()) + self@.left + self@.streams == self@.end
    }

    /// The books balance, nothing is under way that does not belong to the phase,
    /// and the phases follow each other in time.
    pub closed spec fn wf(&self) -> bool {
        &&& self.failures.wf()
        &&& self.balanced()
        &&& storm_error(self.args) is None
        &&& self.args.connections <= 0x1_0000_0000
        &&& self.end <= self.args.connections
        &&& self.next_user_id + self.streams <= self.end + 1
        &&& self.connect_ns + self.handshake_ns <= self.since
        &&& match self.phase {
            StormPhase::Connecting => self.left > 0 && self.last_sweep <= self.since
                && self.next_user_id + self.streams + self.left <= self.end + 1,
            StormPhase::LoggingIn => self.left > 0 && self.streams == 0 && self.last_sweep
                <= self.since,
            StormPhase::Sweeping => self.left == 0 && self.streams == 0,
            StormPhase::Over => self.left == 0 && self.streams == 0 && self.end
                == self.args.connections,
        }
    }

    fn count_failure(&mut self, reason: String)
        requires
            old(self).failures.wf(),
            failure_total(old(self).listing()) < usize::MAX,
        ensures
            final(self).failures.wf(),
            failure_total(final(self).listing()) == failure_total(old(self).listing()) + 1,
            final(self)@ == (StormModel {
                failures: counted(old(self)@.failures, reason@),
                ..old(self)@
            }),
    {
        let ghost before = self.failures.listing();
        let ghost m = self.failures@;
        let (at, found) = self.failures.place(reason.as_str());
        if found {
            proof {
                lemma_total_of_update(before, at as int, before[at as int]);
            }
            let n: usize = *self.failures.value_at(at);
            self.failures.set_at(at, n + 1);
            proof {
                lemma_total_of_update(before, at as int, (reason@, (n + 1) as usize));
            }
        } else {
            self.failures.insert(reason, 1);
            proof {
                let at = choose|at: int|
                    0 <= at <= before.len() && self.failures.listing() == #[trigger] before.insert(
                        at,
                        (reason@, 1usize),
                    );
                lemma_total_of_insert(before, at, (reason@, 1usize));
            }
        }
        assert(self.failures@ =~= counted(m, reason@));
    }

    fn next_wave(&mut self, now: Nanos) -> (r: StormAction)
        requires
            old(self).failures.wf(),
            old(self).balanced(),
            storm_error(old(self).args) is None,
            old(self).args.connections <= 0x1_0000_0000,
            old(self).end <= old(self).args.connections,
            old(self).left == 0,
            old(self).streams == 0,
            old(self).next_user_id <= old(self).end + 1,
            old(self).connect_ns + old(self).handshake_ns <= old(self).since <= now,
            old(self).last_sweep <= now,
        ensures
            final(self).wf(),
            (final(self)@, r) == storm_next(old(self)@, now),
    {
        if self.end >= self.args.connections {
            self.phase = StormPhase::Over;
            return StormAction::Finish;
        }
        let from: usize = self.end;
        let to: usize = if self.args.connections - from <= self.args.wave {
            self.args.connections
        } else {
            from + self.args.wave
        };
        self.phase = StormPhase::Connecting;
        self.end = to;
        self.left = to - from;
        self.streams = 0;
        self.since = now;
        StormAction::Connect { from, to }
    }

    fn logins_done(&mut self, now: Nanos) -> (r: StormAction)
        requires
            old(self).failures.wf(),
            old(self).balanced(),
            storm_error(old(self).args) is None,
            old(self).args.connections <= 0x1_0000_0000,
            old(self).end <= old(self).args.connections,
            old(self).left == 0,
            old(self).streams == 0,
            old(self).next_user_id <= old(self).end + 1,
            old(self).connect_ns + old(self).handshake_ns <= old(self).since <= now,
            old(self).last_sweep <= old(self).since,
        ensures
            final(self).wf(),
            (final(self)@, r) == storm_logged_in(old(self)@, now),
    {
        self.handshake_ns = self.handshake_ns + (now - self.since);
        self.since = now;
        if now - self.last_sweep >= SWEEP_INTERVAL {
            self.phase = StormPhase::Sweeping;
            return StormAction::Sweep;
        }
        self.next_wave(now)
    }

    /// A storm begins.
    pub fn run_storm(args: &ConnStormArgs, now: Nanos) -> (r: (Self, StormAction))
        requires
            storm_error(*args) is None,
            args.connections <= 0x1_0000_0000,
        ensures
            r.0.wf(),
            (r.0@, r.1) == storm_next(calm(*args, now), now),
    {
        let mut storm = Storm {
            args: *args,
            phase: StormPhase::Over,
            end: 0,
            left: 0,
            streams: 0,
            since: now,
            last_sweep: now,
            held: 0,
            next_user_id: 1,
            connect_ns: 0,
            handshake_ns: 0,
            failures: TextMap::new(),
        };
        let action = storm.next_wave(now);
        (storm, action)
    }

    /// Something has happened: what is to be done.
    pub fn run_storm_step(&mut self, event: StormEvent, now: Nanos) -> (r: StormAction)
        requires
            old(self).wf(),
            can_happen(old(self)@.phase, event),
            old(self)@.since <= now,
        ensures
            final(self).wf(),
            final(self).balanced(),
            (final(self)@, r) == storm_step(old(self)@, event, now),
    {
        let ghost was = self@;
        match event {
            StormEvent::Connected => {
                self.left = self.left - 1;
                self.streams = self.streams + 1;
            },
            StormEvent::ConnectFailed(e) => {
                self.left = self.left - 1;
                self.count_failure(joined("connect: ", e.as_str()));
            },
            StormEvent::LoggedIn => {
                self.left = self.left - 1;
                self.held = self.held + 1;
            },
            StormEvent::LoginFailed(e) => {
                self.left = self.left - 1;
                self.count_failure(joined("handshake: ", e.as_str()));
            },
            StormEvent::Swept => {
                self.last_sweep = now;
            },
        }
        assert(self@ == storm_booked(was, event, now));
        if self.left > 0 {
            return StormAction::Wait;
        }
        match self.phase {
            StormPhase::Connecting => {
                self.connect_ns = self.connect_ns + (now - self.since);
                self.since = now;
                if self.streams == 0 {
                    return self.logins_done(now);
                }
                let first_user: u64 = self.next_user_id;
                let count: usize = self.streams;
                self.phase = StormPhase::LoggingIn;
                self.left = count;
                self.streams = 0;
                self.next_user_id = first_user + count as u64;
                StormAction::Login { first_user, count }
            },
            StormPhase::LoggingIn => self.logins_done(now),
            _ => self.next_wave(now),
        }
    }

    /// The books balance with those of the server: as many connections are online
    /// as are held.
    pub fn check_online(&self, online: usize) -> (r: Result<(), String>)
        ensures
            if online == self@.held {
                r is Ok
            } else {
                r is Err && r->Err_0@ == "计数对不上：路由表 "@ + decimal(online as nat)
                    + " vs 保活连接 "@ + decimal(self@.held as nat)
            },
    {
        if online == self.held {
            return Ok(());
        }
        let mut s = String::from_str("计数对不上：路由表 ");
        push_decimal(&mut s, online as u128);
        s.append(" vs 保活连接 ");
        push_decimal(&mut s, self.held as u128);
        Err(s)
    }
}

// ---------------------------------------------------------------------------
// After the storm
// ---------------------------------------------------------------------------

/// What happens while the connections are held.
#[derive(Debug, Clone, Copy, PartialEq, Eq, Structural)]
pub enum HoldEvent {
    /// A second has passed.
    Slept,
    /// Every connection was kept alive.
    Swept,
    /// The memory was sampled: how much is in use, if that is known.
    Sampled(Option<u64>),
}

/// What is to be done while the connections are held.
#[derive(Debug, Clone, Copy, PartialEq, Eq, Structural)]
pub enum HoldAction {
    /// Let a second pass.
    Sleep,
    /// Keep every connection alive.
    Sweep,
    /// Sample the memory.
    Sample,
    /// Close every connection.
    Close,
}

/// The connections are held: a second passes, they are kept alive if it is time,
/// and the memory is sampled, for as many seconds as were asked for.
#[derive(Debug, Clone, Copy)]
pub struct Hold {
    /// How many seconds.
    pub secs: u64,
    /// How many have passed, and were sampled.
    pub done: u64,
    /// When the connections were last kept alive.
    pub last_sweep: Nanos,
    /// The last sample: after how many seconds, and how much was in use.
    pub last_sample: Option<(u64, u64)>,
}

/// The second that is next, or the end.
pub open spec fn hold_next(h: Hold) -> HoldAction {
    if h.done < h.secs {
        HoldAction::Sleep
    } else {
        HoldAction::Close
    }
}

/// What is held after something has happened, and what is then to be done.
pub open spec fn hold_step(h: Hold, event: HoldEvent, now: Nanos) -> (Hold, HoldAction) {
    match event {
        HoldEvent::Slept => if now - h.last_sweep >= SWEEP_INTERVAL {
            (h, HoldAction::Sweep)
        } else {
            (h, HoldAction::Sample)
        },
        HoldEvent::Swept => (Hold { last_sweep: now, ..h }, HoldAction::Sample),
        HoldEvent::Sampled(sample) => {
            let done = (h.done + 1) as u64;
            let h1 = Hold {
                done,
                last_sample: match sample {
                    Some(n) => Some((done, n)),
                    None => h.last_sample,
                },
                ..h
            };
            (h1, hold_next(h1))
        },
    }
}

impl Hold {
    /// The connections are held for so many seconds.
    pub fn start(secs: u64, now: Nanos) -> (r: (Self, HoldAction))
        ensures
            r.0 == (Hold { secs, done: 0, last_sweep: now, last_sample: None }),
            r.1 == hold_next(r.0),
    {
        let hold = Hold { secs, done: 0, last_sweep: now, last_sample: None };
        if secs > 0 {
            (hold, HoldAction::Sleep)
        } else {
            (hold, HoldAction::Close)
        }
    }

    /// Something has happened: what is to be done.
    pub fn step(&mut self, event: HoldEvent, now: Nanos) -> (r: HoldAction)
        requires
            old(self).done < old(self).secs,
            old(self).last_sweep <= now,
        ensures
            (*final(self), r) == hold_step(*old(self), event, now),
    {
        match event {
            HoldEvent::Slept => {
                if now - self.last_sweep >= SWEEP_INTERVAL {
                    HoldAction::Sweep
                } else {
                    HoldAction::Sample
                }
            },
            HoldEvent::Swept => {
                self.last_sweep = now;
                HoldAction::Sample
            },
            HoldEvent::Sampled(sample) => {
                self.done = self.done + 1;
                if let Some(n) = sample {
                    self.last_sample = Some((self.done, n));
                }
                if self.done < self.secs {
                    HoldAction::Sleep
                } else {
                    HoldAction::Close
                }
            },
        }
    }
}

/// Whether the connections are gone: yes, no and they take too long, or not yet.
#[must_use]
pub fn teardown_step(online: usize, since: Nanos) -> (r: Option<bool>)
    ensures
        r == (if online == 0 {
            Some(true)
        } else if since > TEARDOWN_LIMIT {
            Some(false)
        } else {
            None
        }),
{
    if online == 0 {
        Some(true)
    } else if since > TEARDOWN_LIMIT {
        Some(false)
    } else {
        None
    }
}

/// The line of the memory before the storm.
#[must_use]
pub fn baseline_line(baseline: Option<MemSnapshot>) -> (r: String)
    ensures
        r@ == match baseline {
            Some(base) => "内存基线      : "@ + mib_text(base.working_set as nat),
            None => "内存基线      : 本平台未实现采样（报告无内存列）"@,
        },
{
    match baseline {
        Some(base) => joined("内存基线      : ", fmt_mib(base.working_set).as_str()),
        None => "内存基线      : 本平台未实现采样（报告无内存列）".to_owned(),
    }
}

// ---------------------------------------------------------------------------
// The report
// ---------------------------------------------------------------------------

/// What a storm is reported with besides its books.
#[derive(Debug, Clone, Copy)]
pub struct StormRun {
    /// How many processors there are.
    pub cores: usize,
    /// The memory before the storm.
    pub baseline: Option<MemSnapshot>,
    /// The last sample of the memory while the connections were held: after how
    /// many seconds, and how much.
    pub last_sample: Option<(u64, u64)>,
    /// How long the storm took.
    pub storm_wall: Nanos,
    /// How long the connections took to go.
    pub teardown: Nanos,
    /// Whether they went.
    pub cleared: bool,
}

/// How many of something there were in a second.
pub open spec fn per_second(n: nat, ns: nat) -> nat {
    n * 1_000_000_000 / if ns < 1 {
        1
    } else {
        ns
    }
}

fn rate(n: usize, ns: u128) -> (r: u128)
    ensures
        r == per_second(n as nat, ns as nat),
{
    let d: u128 = if ns < 1 {
        1
    } else {
        ns
    };
    n as u128 * 1_000_000_000 / d
}

/// Spaces in front of a short number, to the width of four.
pub open spec fn padded(n: nat) -> Seq<char> {
    if n < 10 {
        "   "@
    } else if n < 100 {
        "  "@
    } else if n < 1000 {
        " "@
    } else {
        ""@
    }
}

fn padding(n: usize) -> (r: &'static str)
    ensures
        r@ == padded(n as nat),
{
    if n < 10 {
        "   "
    } else if n < 100 {
        "  "
    } else if n < 1000 {
        " "
    } else {
        ""
    }
}

/// The first lines of a report.
pub open spec fn storm_head(args: ConnStormArgs, b: StormModel, run: StormRun) -> Seq<Seq<char>> {
    seq![
        "──── im-bench · conn-storm ──────────────────────"@,
        "目标            : "@
            + decimal(args.connections as nat)
            + " 连接（波 "@
            + decimal(args.wave as nat)
            + "，源 IP "@
            + decimal(args.source_ips as nat)
            + "，逻辑核 "@
            + decimal(run.cores as nat)
            + "）"@,
        "建立            : "@
            + decimal(b.held as nat)
            + " 连接，风暴墙钟 "@
            + span_text(run.storm_wall as nat),
    ]
}

/// The lines of the rates.
pub open spec fn storm_rates(b: StormModel) -> Seq<Seq<char>> {
    if b.held > 0 {
        seq![
            "建连相          : "@
                + ns_text(b.connect_ns as nat)
                + "（"@
                + grouped(per_second(b.held as nat, b.connect_ns as nat))
                + " 连接/秒）"@,
            "握手相          : "@
                + ns_text(b.handshake_ns as nat)
                + "（"@
                + grouped(per_second(b.held as nat, b.handshake_ns as nat))
                + " 连接/秒）"@,
        ]
    } else {
        Seq::empty()
    }
}

/// The line of a failure.
pub open spec fn failure_line(entry: (Seq<char>, usize)) -> Seq<char> {
    "  ["@ + padded(entry.1 as nat) + decimal(entry.1 as nat) + "] "@ + entry.0
}

/// The lines of the failures.
pub open spec fn storm_failures(listing: Seq<(Seq<char>, usize)>) -> Seq<Seq<char>> {
    let total = failure_total(listing);
    if total > 0 {
        seq![
            "失败            : "@
                + decimal(total as nat)
                + " 次（按原因分类）："@,
        ] + listing.map_values(|e: (Seq<char>, usize)| failure_line(e))
    } else {
        seq!["失败            : 0"@]
    }
}

/// The lines of the memory.
pub open spec fn storm_memory(b: StormModel, run: StormRun) -> Seq<Seq<char>> {
    match (run.baseline, run.last_sample) {
        (Some(base), Some((t, peak))) => {
            let delta: int = if peak > base.working_set {
                peak - base.working_set
            } else {
                0
            };
            let shared: nat = if b.held < 1 {
                1
            } else {
                b.held as nat
            };
            seq![
                "内存账本        : 基线 "@
                    + mib_text(base.working_set as nat)
                    + " → 稳态 "@
                    + decimal(t as nat)
                    + "s "@
                    + mib_text(peak as nat)
                    + "（Δ "@
                    + mib_text(delta as nat)
                    + "）"@,
                "每连接成本      : "@
                    + kib_text(delta as nat / shared)
                    + "（含客户端半连接 + 服务端全套）"@,
            ]
        },
        _ => Seq::empty(),
    }
}

/// The line of the end.
pub open spec fn storm_teardown(b: StormModel, run: StormRun) -> Seq<char> {
    "拆除            : "@
        + decimal(b.held as nat)
        + " 连接，"@
        + span_text(run.teardown as nat)
        + "，路由表清零: "@
        + (if run.cleared { "true"@ } else { "false"@ })
}

impl Storm {
    fn report_head(&self, args: &ConnStormArgs, run: &StormRun, out: &mut Vec<String>)
        requires
            old(out)@.len() == 0,
        ensures
            line_views(final(out)@) == storm_head(*args, self@, *run) + storm_rates(self@),
    {
        out.push("──── im-bench · conn-storm ──────────────────────".to_owned());
        let mut s = String::from_str("目标            : ");
        push_decimal(&mut s, args.connections as u128);
        s.append(" 连接（波 ");
        push_decimal(&mut s, args.wave as u128);
        s.append("，源 IP ");
        push_decimal(&mut s, args.source_ips as u128);
        s.append("，逻辑核 ");
        push_decimal(&mut s, run.cores as u128);
        s.append("）");
        out.push(s);
        let mut s = String::from_str("建立            : ");
        push_decimal(&mut s, self.held as u128);
        s.append(" 连接，风暴墙钟 ");
        s.append(fmt_secs(run.storm_wall).as_str());
        out.push(s);
        assert(line_views(out@) =~= storm_head(*args, self@, *run));
        if self.held > 0 {
            let mut s = String::from_str("建连相          : ");
            s.append(fmt_ns(self.connect_ns).as_str());
            s.append("（");
            s.append(thousands(rate(self.held, self.connect_ns)).as_str());
            s.append(" 连接/秒）");
            out.push(s);
            let mut s = String::from_str("握手相          : ");
            s.append(fmt_ns(self.handshake_ns).as_str());
            s.append("（");
            s.append(thousands(rate(self.held, self.handshake_ns)).as_str());
            s.append(" 连接/秒）");
            out.push(s);
        }
        assert(line_views(out@) =~= storm_head(*args, self@, *run) + storm_rates(self@));
    }

    fn report_failures(&self, out: &mut Vec<String>)
        requires
            self.wf(),
            failure_total(self.listing()) <= usize::MAX,
        ensures
            line_views(final(out)@) == line_views(old(out)@) + storm_failures(self.listing()),
    {
        let ghost all = self.listing();
        let ghost before = line_views(out@);
        let mut total: usize = 0;
        let mut i: usize = 0;
        assert(all.take(0) =~= Seq::<(Seq<char>, usize)>::empty());
        while i < self.failures.len()
            invariant
                i <= all.len(),
                all == self.failures.listing(),
                failure_total(all) <= usize::MAX,
                total == failure_total(all.take(i as int)),
            decreases all.len() - i,
        {
            proof {
                assert(all.take(i + 1).drop_last() =~= all.take(i as int));
                assert(all.take(i + 1).last() == all[i as int]);
                lemma_total_rises(all, i + 1);
            }
            total = total + *self.failures.value_at(i);
            i = i + 1;
        }
        assert(all.take(i as int) =~= all);
        if total == 0 {
            out.push("失败            : 0".to_owned());
            assert(line_views(out@) =~= before + storm_failures(all));
            return ;
        }
        let mut s = String::from_str("失败            : ");
        push_decimal(&mut s, total as u128);
        s.append(" 次（按原因分类）：");
        out.push(s);
        let ghost first = line_views(out@);
        let ghost lines = all.map_values(|e: (Seq<char>, usize)| failure_line(e));
        assert(lines.take(0) =~= Seq::<Seq<char>>::empty());
        let mut i: usize = 0;
        while i < self.failures.len()
            invariant
                i <= all.len(),
                all == self.failures.listing(),
                lines == all.map_values(|e: (Seq<char>, usize)| failure_line(e)),
                line_views(out@) =~= first + lines.take(i as int),
            decreases all.len() - i,
        {
            let ghost had = line_views(out@);
            let n: usize = *self.failures.value_at(i);
            let mut s = String::from_str("  [");
            s.append(padding(n));
            push_decimal(&mut s, n as u128);
            s.append("] ");
            s.append(self.failures.key_at(i).as_str());
            out.push(s);
            proof {
                assert(s@ == failure_line(all[i as int]));
                assert(line_views(out@) =~= had.push(lines[i as int]));
                assert(lines.take(i + 1) =~= lines.take(i as int).push(lines[i as int]));
            }
            i = i + 1;
        }
        assert(lines.take(i as int) =~= lines);
        assert(line_views(out@) =~= before + storm_failures(all));
    }

    fn report_memory(&self, run: &StormRun, out: &mut Vec<String>)
        ensures
            line_views(final(out)@) == line_views(old(out)@) + storm_memory(self@, *run),
    {
        let ghost before = line_views(out@);
        if let (Some(base), Some((t, peak))) = (run.baseline, run.last_sample) {
            let delta: u64 = if peak > base.working_set {
                peak - base.working_set
            } else {
                0
            };
            let shared: u64 = if self.held < 1 {
                1
            } else {
                self.held as u64
            };
            let mut s = String::from_str("内存账本        : 基线 ");
            s.append(fmt_mib(base.working_set).as_str());
            s.append(" → 稳态 ");
            push_decimal(&mut s, t as u128);
            s.append("s ");
            s.append(fmt_mib(peak).as_str());
            s.append("（Δ ");
            s.append(fmt_mib(delta).as_str());
            s.append("）");
            out.push(s);
            let mut s = String::from_str("每连接成本      : ");
            s.append(fmt_kib(delta / shared).as_str());
            s.append("（含客户端半连接 + 服务端全套）");
            out.push(s);
        }
        assert(line_views(out@) =~= before + storm_memory(self@, *run));
    }

    /// The lines of a report. Connections that did not go are an error, which
    /// comes with the lines before it.
    #[must_use]
    pub fn report(&self, args: &ConnStormArgs, run: &StormRun) -> (r: (
        Vec<String>,
        Result<(), &'static str>,
    ))
        requires
            self.wf(),
        ensures
            ({
                let lines = storm_head(*args, self@, *run) + storm_rates(self@) + storm_failures(
                    self.listing(),
                ) + storm_memory(self@, *run) + seq![storm_teardown(self@, *run)];
                if run.cleared {
                    &&& r.1 is Ok
                    &&& line_views(r.0@) == lines + seq![
                        "口径说明        : 同进程回环（每连接含双端成本）；数据归档 docs/16"@,
                    ]
                } else {
                    &&& r.1 is Err && r.1->Err_0@
                        == "拆除后路由表未清零——连接回收存在泄漏"@
                    &&& line_views(r.0@) == lines
                }
            }),
    {
        let mut out: Vec<String> = Vec::new();
        self.report_head(args, run, &mut out);
        self.report_failures(&mut out);
        self.report_memory(run, &mut out);
        let ghost before = line_views(out@);
        let mut s = String::from_str("拆除            : ");
        push_decimal(&mut s, self.held as u128);
        s.append(" 连接，");
        s.append(fmt_secs(run.teardown).as_str());
        s.append("，路由表清零: ");
        s.append(if run.cleared {
                "true"
            } else {
                "false"
            });
        out.push(s);
        let ghost lines = before + seq![storm_teardown(self@, *run)];
        assert(line_views(out@) =~= lines);
        if !run.cleared {
            return (out, Err("拆除后路由表未清零——连接回收存在泄漏"));
        }
        out.push("口径说明        : 同进程回环（每连接含双端成本）；数据归档 docs/16".to_owned());
        assert(line_views(out@) =~= lines + seq![
            "口径说明        : 同进程回环（每连接含双端成本）；数据归档 docs/16"@,
        ]);
        (out, Ok(()))
    }
}

/// A login was accepted exactly if the answer is one that names a session.
pub proof fn law_login_needs_a_session(reply: ShakeReply)
    ensures
        shake_error(reply) is None <==> (reply matches ShakeReply::Reply(frame) && frame@.cmd
            == Cmd::HandshakeAck && (HandshakeAck::parse(frame@.payload) matches Ok(ack)
            && ack.session_id != 0)),
{
}

/// What the books say after something has happened: a login that was accepted is one
/// connection more that is held, a failure is counted once under its reason, and
/// everything that happens is one thing less that is under way.
pub proof fn law_storm_books_say_what_happened(
    m: StormModel,
    event: StormEvent,
    now: Nanos,
    reason: Seq<char>,
)
    requires
        can_happen(m.phase, event),
        event is Swept || m.left > 0,
        m.held < usize::MAX,
        m.streams < usize::MAX,
        times(m.failures, reason) < usize::MAX,
    ensures
        ({
            let t = storm_step(m, event, now).0;
            &&& t.args == m.args
            &&& t.held - m.held == if event is LoggedIn {
                1int
            } else {
                0
            }
            &&& times(t.failures, reason) - times(m.failures, reason) == match event {
                StormEvent::ConnectFailed(e) => if reason == "connect: "@ + e@ {
                    1int
                } else {
                    0
                },
                StormEvent::LoginFailed(e) => if reason == "handshake: "@ + e@ {
                    1int
                } else {
                    0
                },
                _ => 0,
            }
            &&& m.left > 1 ==> t.left == m.left - 1 && t.phase == m.phase && storm_step(
                m,
                event,
                now,
            ).1 == StormAction::Wait || event is Swept
            &&& event is Connected && m.left > 1 ==> t.streams == m.streams + 1
        }),
{
}

/// How long connecting and the logins took is the time from the beginning of the
/// phase to its end, added up over the waves.
pub proof fn law_storm_times_its_phases(m: StormModel, event: StormEvent, now: Nanos)
    requires
        can_happen(m.phase, event),
        m.phase == StormPhase::Connecting || m.phase == StormPhase::LoggingIn,
        m.left == 1,
        m.since <= now,
        m.streams < usize::MAX,
        m.connect_ns + (now - m.since) <= u128::MAX,
        m.handshake_ns + (now - m.since) <= u128::MAX,
    ensures
        ({
            let t = storm_step(m, event, now).0;
            &&& m.phase == StormPhase::Connecting ==> t.connect_ns == m.connect_ns + (now - m.since)
                && t.handshake_ns == m.handshake_ns
            &&& m.phase == StormPhase::LoggingIn ==> t.handshake_ns == m.handshake_ns + (now
                - m.since) && t.connect_ns == m.connect_ns
            &&& t.since == now
        }),
{
}

/// The connections of a wave that were made log in, all of them, when the last one
/// was made or failed; where none was made nobody logs in.
pub proof fn law_who_was_connected_logs_in(m: StormModel, event: StormEvent, now: Nanos)
    requires
        can_happen(m.phase, event),
        m.phase == StormPhase::Connecting,
        m.left == 1,
        m.streams < usize::MAX,
        m.next_user_id + m.streams + 1 <= u64::MAX,
    ensures
        ({
            let (t, action) = storm_step(m, event, now);
            let made = m.streams + if event is Connected {
                1int
            } else {
                0
            };
            &&& made > 0 ==> t.phase == StormPhase::LoggingIn && t.left == made && (action matches
                StormAction::Login { count, .. } && count == made)
            &&& made == 0 ==> !(action is Login)
        }),
{
}

/// The storm is over when every connection was begun, and not before; the
/// connections are kept alive between two waves when twenty seconds have passed since
/// they last were.
pub proof fn law_storm_goes_on_to_its_end(m: StormModel, event: StormEvent, now: Nanos)
    requires
        can_happen(m.phase, event),
        m.args.wave >= 1,
        m.end <= m.args.connections,
        m.last_sweep <= now,
        m.phase == StormPhase::LoggingIn ==> m.left == 1,
        m.phase == StormPhase::Sweeping ==> m.left == 0,
        m.phase == StormPhase::LoggingIn || m.phase == StormPhase::Sweeping,
    ensures
        ({
            let (t, action) = storm_step(m, event, now);
            let sweeps = m.phase == StormPhase::LoggingIn && now - m.last_sweep >= 20_000_000_000;
            &&& action == StormAction::Sweep <==> sweeps
            &&& action == StormAction::Finish <==> !sweeps && m.end == m.args.connections
            &&& action is Connect <==> !sweeps && m.end < m.args.connections
            &&& m.phase == StormPhase::Sweeping ==> t.last_sweep == now
            &&& action matches StormAction::Connect { from, to } ==> t.left == to - from && (to - from
                == m.args.wave || to == m.args.connections)
        }),
{
}

/// While the connections are held, every second is sampled, as many as were asked for;
/// the last sample that was to be had is kept with the second in which it was taken.
pub proof fn law_every_second_is_sampled(h: Hold, sample: Option<u64>, now: Nanos)
    requires
        h.done < h.secs,
        h.last_sweep <= now,
    ensures
        ({
            let (t, action) = hold_step(h, HoldEvent::Sampled(sample), now);
            &&& t.done == h.done + 1
            &&& action == HoldAction::Close <==> t.done == h.secs
            &&& action == HoldAction::Sleep <==> t.done < h.secs
            &&& sample matches Some(n) ==> t.last_sample == Some(((h.done + 1) as u64, n))
            &&& sample is None ==> t.last_sample == h.last_sample
        }),
        ({
            let (t, action) = hold_step(h, HoldEvent::Slept, now);
            &&& t == h
            &&& action == HoldAction::Sweep <==> now - h.last_sweep >= 20_000_000_000
            &&& action == HoldAction::Sample <==> now - h.last_sweep < 20_000_000_000
        }),
        ({
            let (t, action) = hold_step(h, HoldEvent::Swept, now);
            &&& t.last_sweep == now && t.done == h.done
            &&& action == HoldAction::Sample
        }),
{
}

/// A rate is how many there were in a second, rounded down.
pub proof fn law_rate_is_per_second(n: nat, ns: nat)
    requires
        ns >= 1,
    ensures
        per_second(n, ns) * ns <= n * 1_000_000_000 < (per_second(n, ns) + 1) * ns,
{
    let x = n * 1_000_000_000;
    vstd::arithmetic::div_mod::lemma_fundamental_div_mod(x as int, ns as int);
    assert(per_second(n, ns) * ns <= x < (per_second(n, ns) + 1) * ns) by (nonlinear_arith)
        requires
            x as int == ns as int * (x as int / ns as int) + x as int % ns as int,
            0 <= x as int % (ns as int) < ns,
            per_second(n, ns) == x as int / ns as int,
    ;
}

/// What a report says of the storm: how many connections were held, at which rates
/// they were made and logged in, and what one of them costs: what the memory grew by,
/// shared among those that were held.
pub proof fn law_report_of_a_storm(
    args: ConnStormArgs,
    b: StormModel,
    run: StormRun,
    base: MemSnapshot,
    t: u64,
    peak: u64,
)
    requires
        b.held > 0,
        run.baseline == Some(base),
        run.last_sample == Some((t, peak)),
        peak >= base.working_set,
    ensures
        storm_head(args, b, run)[2] == "建立            : "@ + decimal(b.held as nat)
            + " 连接，风暴墙钟 "@ + span_text(run.storm_wall as nat),
        storm_rates(b)[0] == "建连相          : "@ + ns_text(b.connect_ns as nat) + "（"@ + grouped(
            per_second(b.held as nat, b.connect_ns as nat),
        ) + " 连接/秒）"@,
        storm_rates(b)[1] == "握手相          : "@ + ns_text(b.handshake_ns as nat) + "（"@ + grouped(
            per_second(b.held as nat, b.handshake_ns as nat),
        ) + " 连接/秒）"@,
        storm_memory(b, run)[1] == "每连接成本      : "@ + kib_text(
            (peak - base.working_set) as nat / b.held as nat,
        ) + "（含客户端半连接 + 服务端全套）"@,
{
}

/// The settings with which a storm can be made.
pub proof fn law_settings_of_a_storm(args: ConnStormArgs)
    ensures
        storm_error(args) is None <==> args.connections >= 1 && args.wave >= 1 && 1
            <= args.source_ips <= 254,
{
}

/// Every address and port from which connections come is one that can be used, and
/// the connections are spread evenly over the addresses.
pub proof fn law_sources_are_usable(i: nat, ips: nat)
    requires
        1 <= ips <= 254,
    ensures
        1 <= ip_of(i, ips) <= ips,
        20_000 <= port_of(i, ips) <= 65_535,
        ip_of(i + ips, ips) == ip_of(i, ips),
        i + 1 < ips ==> ip_of(i + 1, ips) == i + 2,
{
    vstd::arithmetic::div_mod::lemma_mod_add_multiples_vanish(i as int, ips as int);
    if i + 1 < ips {
        vstd::arithmetic::div_mod::lemma_small_mod(i + 1, ips);
    }
}

/// A report lists every failure, in order: how often it came, in four places at least,
/// and its reason; and in front of them how many there were.
pub proof fn law_every_failure_is_listed(listing: Seq<(Seq<char>, usize)>, k: int)
    requires
        0 <= k < listing.len(),
        failure_total(listing) > 0,
    ensures
        storm_failures(listing).len() == listing.len() + 1,
        storm_failures(listing)[0] == "失败            : "@ + decimal(failure_total(listing))
            + " 次（按原因分类）："@,
        storm_failures(listing)[k + 1] == "  ["@ + padded(listing[k].1 as nat) + decimal(
            listing[k].1 as nat,
        ) + "] "@ + listing[k].0,
        storm_failures(Seq::empty()) == seq!["失败            : 0"@],
{
}

/// All failures are the sum of how often each came.
pub proof fn law_failures_add_up(listing: Seq<(Seq<char>, usize)>, entry: (Seq<char>, usize))
    ensures
        failure_total(Seq::empty()) == 0,
        failure_total(listing.push(entry)) == failure_total(listing) + entry.1,
{
    assert(listing.push(entry).drop_last() =~= listing);
}

/// The last line says how many connections went, how long that took, and whether none is
/// left.
pub proof fn law_report_of_the_end(b: StormModel, run: StormRun)
    ensures
        storm_teardown(b, run) == "拆除            : "@ + decimal(b.held as nat) + " 连接，"@
            + span_text(run.teardown as nat) + "，路由表清零: "@ + (if run.cleared {
            "true"@
        } else {
            "false"@
        }),
{
}

} // verus!
