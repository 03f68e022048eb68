//! Storms of connections, groups, and the numbers of reports.

use rust_im::bench::connstorm::{
    baseline_line, conn_storm, handshake, handshake_frame, keepalive_frame, source_addr, source_ip,
    teardown_step, ConnStormArgs, Hold, HoldAction, HoldEvent, ShakeReply, Storm, StormAction,
    StormEvent, StormRun,
};
use rust_im::bench::fanout::{
    make_msg, percentile, setup, wait_fanout, Fanout, FanoutAction, FanoutEvent, GroupFanoutArgs,
    GroupStats, Progress, WaitVerdict, GROUP_ID, SENDER_ID,
};
use rust_im::bench::fanout;
use rust_im::bench::format::{fmt_kib, fmt_mib, fmt_ns, fmt_secs, fmt_us, thousands};
use rust_im::bench::memstats::{vm_rss, MemSnapshot};
use rust_im::protocol::frame::Cmd;
use rust_im::protocol::payload::{Handshake, HandshakeAck, Payload};

#[test]
fn thousands_groups_every_three_digits() {
    assert_eq!(thousands(0), "0");
    assert_eq!(thousands(999), "999");
    assert_eq!(thousands(1_000), "1,000");
    assert_eq!(thousands(6_840_000), "6,840,000");
}

#[test]
fn percentile_picks_nearest_rank() {
    let samples: Vec<u128> = (1..=100).collect();
    assert_eq!(percentile(&samples, 1), 1);
    assert_eq!(percentile(&samples, 50), 50);
    assert_eq!(percentile(&samples, 99), 99);
    assert_eq!(percentile(&samples, 100), 100);
}

#[test]
fn percentile_small_sample_clamps() {
    let samples: Vec<u128> = vec![5, 10];
    assert_eq!(percentile(&samples, 50), 5);
    assert_eq!(percentile(&samples, 99), 10);
}

#[test]
fn fmt_mib_two_decimals() {
    assert_eq!(fmt_mib(0), "0.00 MiB");
    assert_eq!(fmt_mib(1024 * 1024), "1.00 MiB");
    assert_eq!(fmt_mib(1024 * 1024 + 512 * 1024), "1.50 MiB");
    assert_eq!(fmt_mib(10 * 1024 * 1024), "10.00 MiB");
}

#[test]
fn source_ip_round_robin() {
    assert_eq!(source_ip(0, 1), [127, 0, 0, 1]);
    assert_eq!(source_ip(0, 3), [127, 0, 0, 1]);
    assert_eq!(source_ip(4, 3), [127, 0, 0, 2]);
    assert_eq!(source_ip(5, 3), [127, 0, 0, 3]);
    assert_eq!(source_ip(6, 3), [127, 0, 0, 1]);
}

#[test]
fn source_addr_assigns_explicit_ports() {
    let v4 = |a: u8, b: u8, c: u8, d: u8| [a, b, c, d];
    assert_eq!(source_addr(0, 3), (v4(127, 0, 0, 1), 20_000));
    assert_eq!(source_addr(1, 3), (v4(127, 0, 0, 2), 20_000));
    assert_eq!(source_addr(2, 3), (v4(127, 0, 0, 3), 20_000));
    assert_eq!(source_addr(3, 3), (v4(127, 0, 0, 1), 20_001));
    let _ = source_addr(136_608, 3);
}

const SECOND: u128 = 1_000_000_000;

#[test]
fn spans_and_sizes() {
    assert_eq!(fmt_us(999), "999µs");
    assert_eq!(fmt_us(1_234), "1.23ms");
    assert_eq!(fmt_secs(999_999), "999µs");
    assert_eq!(fmt_secs(1_234_567), "1.23ms");
    assert_eq!(fmt_secs(61_050_000_000), "61.05s");
    assert_eq!(fmt_ns(999), "999ns");
    assert_eq!(fmt_ns(1_500), "1µs");
    assert_eq!(fmt_kib(1536), "1.50 KiB");
}

#[test]
fn memory_is_read_from_its_line() {
    let lines = vec!["Name:\tx".to_string(), "VmRSS:\t  123456 kB".to_string()];
    assert_eq!(vm_rss(&lines), Some(123_456 * 1024));
    assert_eq!(vm_rss(&vec!["VmRSS:\t many kB".to_string()]), None);
    assert_eq!(vm_rss(&vec!["VmSize: 1 kB".to_string()]), None);
    assert_eq!(vm_rss(&vec![format!("VmRSS: {} kB", u64::MAX)]), None);
}

fn storm_args(connections: usize, wave: usize) -> ConnStormArgs {
    ConnStormArgs { connections, wave, source_ips: 1, hold_secs: 60, handshake_timeout_ms: 1000 }
}

#[test]
fn storm_settings_are_checked() {
    assert_eq!(conn_storm(&storm_args(0, 1)).unwrap_err(), "--connections 至少为 1");
    assert_eq!(conn_storm(&storm_args(1, 0)).unwrap_err(), "--wave 至少为 1");
    let many = ConnStormArgs { source_ips: 255, ..storm_args(1, 1) };
    assert_eq!(
        conn_storm(&many).unwrap_err(),
        "--source-ips 最多 254（127.0.0.x 的 x 段上限）"
    );
    let none = ConnStormArgs { source_ips: 0, ..storm_args(1, 1) };
    assert_eq!(conn_storm(&none).unwrap_err(), "--source-ips 至少为 1");
    let plan = conn_storm(&storm_args(100_000, 250)).unwrap();
    assert_eq!((plan.hold_secs, plan.need_ips), (45, 3));
    assert_eq!(
        plan.hint.unwrap(),
        "提示: 3 个源 IP 才够显式端口容量（每 IP 45,536 个；当前 1）——不足时连接失败会计入报告"
    );
    assert!(conn_storm(&storm_args(10, 250)).unwrap().hint.is_none());
}

/// No two connections come from the same place.
#[test]
fn sources_are_distinct() {
    let mut seen = std::collections::HashSet::new();
    for idx in 0..3 * 1000 {
        assert!(seen.insert(source_addr(idx, 3)));
    }
}

#[test]
fn logins_are_judged() {
    let login = handshake_frame(7, "storm");
    assert_eq!(login.seq, 1);
    assert_eq!(Handshake::decode_frame(&login).unwrap().user_id, 7);
    let yes = HandshakeAck::accepted(1).encode_frame(1, 0);
    assert_eq!(handshake(&ShakeReply::Reply(yes)), Ok(()));
    let no = HandshakeAck::rejected("bad token").encode_frame(1, 0);
    assert_eq!(handshake(&ShakeReply::Reply(no)), Err("服务端拒绝: bad token".to_string()));
    assert_eq!(handshake(&ShakeReply::TimedOut), Err("等待握手应答超时".to_string()));
    assert_eq!(handshake(&ShakeReply::Closed), Err("连接在应答前关闭".to_string()));
    assert_eq!(
        handshake(&ShakeReply::WriteFailed("gone".to_string())),
        Err("写握手帧: gone".to_string())
    );
    assert_eq!(
        handshake(&ShakeReply::ReadFailed("gone".to_string())),
        Err("读握手应答: gone".to_string())
    );
    let ping = keepalive_frame();
    assert_eq!((ping.cmd, ping.seq), (Cmd::Ping, 0));
    match handshake(&ShakeReply::Reply(ping)) {
        Err(text) => assert!(text.starts_with("应答解码: ")),
        Ok(()) => panic!("a heartbeat is no answer"),
    }
}

/// A storm of three connections in two waves, of which one fails.
#[test]
fn storm_from_first_wave_to_report() {
    let args = storm_args(3, 2);
    let (mut storm, action) = Storm::run_storm(&args, 0);
    assert_eq!(action, StormAction::Connect { from: 0, to: 2 });
    let action = storm.run_storm_step(StormEvent::Connected, 10);
    assert_eq!(action, StormAction::Wait);
    let action = storm.run_storm_step(StormEvent::ConnectFailed("no port".to_string()), 20);
    assert_eq!(action, StormAction::Login { first_user: 1, count: 1 });
    let action = storm.run_storm_step(StormEvent::LoggedIn, 21 * SECOND);
    assert_eq!(action, StormAction::Sweep);
    let action = storm.run_storm_step(StormEvent::Swept, 22 * SECOND);
    assert_eq!(action, StormAction::Connect { from: 2, to: 3 });
    let action = storm.run_storm_step(StormEvent::Connected, 22 * SECOND + 5);
    assert_eq!(action, StormAction::Login { first_user: 2, count: 1 });
    let refused = StormEvent::LoginFailed("服务端拒绝: no".to_string());
    let action = storm.run_storm_step(refused, 22 * SECOND + 6);
    assert_eq!(action, StormAction::Finish);
    assert!(storm.check_online(1).is_ok());
    assert_eq!(
        storm.check_online(2),
        Err("计数对不上：路由表 2 vs 保活连接 1".to_string())
    );
    let run = StormRun {
        cores: 8,
        baseline: Some(MemSnapshot { working_set: 1024 * 1024, elapsed: 0 }),
        last_sample: Some((45, 2 * 1024 * 1024)),
        storm_wall: 22 * SECOND,
        teardown: 3_000_000,
        cleared: true,
    };
    let (lines, result) = storm.report(&args, &run);
    assert_eq!(result, Ok(()));
    assert_eq!(lines[1], "目标            : 3 连接（波 2，源 IP 1，逻辑核 8）");
    assert_eq!(lines[2], "建立            : 1 连接，风暴墙钟 22.00s");
    assert_eq!(lines[3], "建连相          : 25ns（40,000,000 连接/秒）");
    assert_eq!(lines[5], "失败            : 2 次（按原因分类）：");
    assert_eq!(lines[6], "  [   1] connect: no port");
    assert_eq!(lines[7], "  [   1] handshake: 服务端拒绝: no");
    assert_eq!(
        lines[8],
        "内存账本        : 基线 1.00 MiB → 稳态 45s 2.00 MiB（Δ 1.00 MiB）"
    );
    assert_eq!(
        lines[9],
        "每连接成本      : 1024.00 KiB（含客户端半连接 + 服务端全套）"
    );
    assert_eq!(lines[10], "拆除            : 1 连接，3.00ms，路由表清零: true");
    let (_, result) = storm.report(&args, &StormRun { cleared: false, ..run });
    assert_eq!(result, Err("拆除后路由表未清零——连接回收存在泄漏"));
}

#[test]
fn connections_are_held_for_their_time() {
    let (mut hold, action) = Hold::start(2, 0);
    assert_eq!(action, HoldAction::Sleep);
    assert_eq!(hold.step(HoldEvent::Slept, 21 * SECOND), HoldAction::Sweep);
    assert_eq!(hold.step(HoldEvent::Swept, 21 * SECOND), HoldAction::Sample);
    assert_eq!(hold.step(HoldEvent::Sampled(Some(5)), 21 * SECOND), HoldAction::Sleep);
    assert_eq!(hold.step(HoldEvent::Slept, 22 * SECOND), HoldAction::Sample);
    assert_eq!(hold.step(HoldEvent::Sampled(None), 22 * SECOND), HoldAction::Close);
    assert_eq!(hold.last_sample, Some((1, 5)));
    assert_eq!(Hold::start(0, 0).1, HoldAction::Close);
    assert_eq!(teardown_step(0, 0), Some(true));
    assert_eq!(teardown_step(1, 30 * SECOND), None);
    assert_eq!(teardown_step(1, 30 * SECOND + 1), Some(false));
    assert_eq!(
        baseline_line(None),
        "内存基线      : 本平台未实现采样（报告无内存列）"
    );
}

fn group_args() -> GroupFanoutArgs {
    GroupFanoutArgs { members: 3, messages: 2, samples: 2, slow: 1, capacity: 64, payload: 4 }
}

#[test]
fn members_are_set_up() {
    let slow = setup(&group_args(), 0);
    assert_eq!((slow.user_id, slow.capacity, slow.reads), (1, 1, false));
    let other = setup(&group_args(), 2);
    assert_eq!((other.session_id, other.capacity, other.reads), (3, 64, true));
    let msg = make_msg(&group_args(), 9);
    assert_eq!((msg.from, msg.to, msg.msg_id, msg.client_msg_id), (SENDER_ID, GROUP_ID, 9, 9));
    assert_eq!(&msg.content[..], b"xxxx");
}

#[test]
fn group_settings_are_checked() {
    let err = |args: GroupFanoutArgs| Fanout::group_fanout(&args).err();
    assert_eq!(
        err(GroupFanoutArgs { slow: 4, ..group_args() }),
        Some("--slow 不能超过 --members")
    );
    assert_eq!(err(GroupFanoutArgs { capacity: 0, ..group_args() }), Some("--capacity 至少为 1"));
    assert_eq!(err(GroupFanoutArgs { payload: 0, ..group_args() }), Some("--payload 至少为 1 字节"));
}

#[test]
fn group_is_waited_for() {
    let at = |fanned, done| Progress { fanned, done };
    assert_eq!(wait_fanout(at(1, 3), 2, 3, at(3, 9), 0, 10), WaitVerdict::Served);
    assert_eq!(wait_fanout(at(1, 3), 2, 3, at(3, 8), 9, 10), WaitVerdict::Again);
    assert_eq!(wait_fanout(at(1, 3), 2, 3, at(2, 9), 10, 10), WaitVerdict::TooLate);
}

/// The measurement of a group from the first message to the report.
#[test]
fn group_measurement() {
    let args = group_args();
    let at = |fanned: u64| FanoutEvent::Seen(Progress { fanned, done: fanned * 3 });
    let (mut f, action) = Fanout::group_fanout(&args).unwrap();
    assert_eq!(action, FanoutAction::Route(0));
    assert_eq!(f.step(FanoutEvent::Routed(true), 0), FanoutAction::Look);
    assert_eq!(f.step(at(0), 1_000), FanoutAction::Look);
    assert_eq!(f.step(at(1), 2_000), FanoutAction::Look);
    assert_eq!(f.step(at(1), 10_000), FanoutAction::Route(1));
    assert_eq!(f.step(FanoutEvent::Routed(true), 11_000), FanoutAction::Look);
    assert_eq!(f.step(at(2), 60_000), FanoutAction::Look);
    assert_eq!(f.step(at(2), 70_000), FanoutAction::Route(2));
    assert_eq!(f.step(FanoutEvent::Routed(true), 71_000), FanoutAction::Look);
    assert_eq!(f.step(at(3), 90_000), FanoutAction::Look);
    assert_eq!(f.step(at(3), 100_000), FanoutAction::Route(3));
    assert_eq!(f.step(FanoutEvent::Routed(true), 101_000), FanoutAction::Route(4));
    assert_eq!(f.step(FanoutEvent::Routed(true), 102_000), FanoutAction::Look);
    assert_eq!(f.step(at(5), 2_100_000), FanoutAction::Report);
    assert_eq!(f.latencies_us(), &vec![20, 50]);
    assert_eq!(f.burst(), Some((2, 2_000_000)));
    let stats = GroupStats { fanned: 5, delivered: 11, skipped: 4, offline: 0 };
    let (lines, result) = fanout::report(&args, 8, 5_000, f.latencies_us(), f.burst(), &stats);
    assert_eq!(result, Ok(()));
    assert_eq!(lines[1], "成员            : 3（慢消费者 1 个：容量 1、永不排空）");
    assert_eq!(lines[7], "  min 20µs   P50 20µs   P90 50µs   P99 50µs   max 50µs");
    assert_eq!(lines[9], "  消息吞吐      : 1,000 条/秒");
    assert_eq!(lines[10], "  成员投递      : 3,000 人次/秒");
    assert_eq!(lines[11], "计数对账        : fanned=5 delivered=11 skipped=4 offline=0");
    let wrong = GroupStats { offline: 1, ..stats };
    let (_, result) = fanout::report(&args, 8, 5_000, f.latencies_us(), f.burst(), &wrong);
    assert_eq!(
        result,
        Err("计数对不上：fanned×成员数=15，delivered+skipped+offline=16".to_string())
    );
}

#[test]
fn group_measurement_fails() {
    let (mut f, _) = Fanout::group_fanout(&group_args()).unwrap();
    assert_eq!(
        f.step(FanoutEvent::Routed(false), 0),
        FanoutAction::Fail("扇出中枢未接管（成员源为空？）")
    );
    let (mut f, _) = Fanout::group_fanout(&group_args()).unwrap();
    f.step(FanoutEvent::Routed(true), 0);
    assert_eq!(
        f.step(FanoutEvent::Seen(Progress { fanned: 0, done: 0 }), 60 * SECOND),
        FanoutAction::Fail("扇出未在 60s 内完成（卡死或计数对不上）")
    );
}
