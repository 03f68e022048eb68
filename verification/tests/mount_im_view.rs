//! Contacts and messages as files.

use rust_im::mount::dir_cache::CachedFs;
use rust_im::mount::error::FsError;
use rust_im::mount::im_view::{build_im_view, ChatMessage, Contact};
use rust_im::mount::layout;
use rust_im::mount::memfs::NodeKind;

fn contacts() -> Vec<Contact> {
    vec![
        Contact { name: "alice".into(), username: "alice_wx".into() },
        Contact { name: "bob".into(), username: "bob_01".into() },
    ]
}

fn messages() -> Vec<ChatMessage> {
    vec![
        ChatMessage {
            peer: "alice".into(),
            from: "alice".into(),
            text: "早上好".into(),
            date: "2026-09-24".into(),
        },
        ChatMessage {
            peer: "alice".into(),
            from: "me".into(),
            text: "早上好！".into(),
            date: "2026-09-24".into(),
        },
        ChatMessage {
            peer: "alice".into(),
            from: "alice".into(),
            text: "昨天的文件收到没？".into(),
            date: "2026-09-23".into(),
        },
        ChatMessage {
            peer: "bob".into(),
            from: "bob".into(),
            text: "在吗".into(),
            date: "2026-09-24".into(),
        },
    ]
}

#[test]
fn view_maps_contacts_and_history() {
    let fs = build_im_view(&contacts(), &messages()).unwrap();

    let card = fs.read(&layout::contact_card("alice")).unwrap();
    let card_text = String::from_utf8(card.to_vec()).unwrap();
    assert_eq!(card_text, "name: alice\nusername: alice_wx\n");

    let root = fs.read_dir("/").unwrap();
    let names: Vec<&str> = root.iter().map(|e| e.name.as_str()).collect();
    assert_eq!(names, vec!["contacts", "files", "history"]);
    assert!(root.iter().all(|e| e.kind == NodeKind::Directory));

    let cards = fs.read_dir(layout::CONTACTS_DIR).unwrap();
    assert_eq!(cards.len(), 2);

    let alice_days = fs.read_dir("/history/alice").unwrap();
    let dates: Vec<&str> = alice_days.iter().map(|e| e.name.as_str()).collect();
    assert_eq!(dates, vec!["2026-09-23.log", "2026-09-24.log"], "字典序且按日归档");
    let bob_days = fs.read_dir("/history/bob").unwrap();
    assert_eq!(bob_days.len(), 1);
}

#[test]
fn same_day_messages_aggregate_into_one_log() {
    let fs = build_im_view(&contacts(), &messages()).unwrap();
    let log = fs.read(&layout::history_log("alice", "2026-09-24")).unwrap();
    let text = String::from_utf8(log.to_vec()).unwrap();
    assert_eq!(text, "alice: 早上好\nme: 早上好！\n", "同日两条聚合且保持时序");
}

#[test]
fn build_is_idempotent() {
    let a = build_im_view(&contacts(), &messages()).unwrap();
    let b = build_im_view(&contacts(), &messages()).unwrap();
    let log = layout::history_log("alice", "2026-09-24");
    assert_eq!(a.read(&log), b.read(&log));
    assert_eq!(a.read_dir("/").unwrap(), b.read_dir("/").unwrap());
}

#[test]
fn slash_in_name_is_rejected_not_silently_renamed() {
    let bad = vec![Contact { name: "a/b".into(), username: "x".into() }];
    let result = build_im_view(&bad, &[]);
    assert!(result.is_err());
}

#[test]
fn view_composes_with_dir_cache() {
    let fs = build_im_view(&contacts(), &messages()).unwrap();
    let mut cached = CachedFs::new(fs, 8);
    cached.read_dir("/history/alice").unwrap();
    cached.read_dir("/history/alice").unwrap();
    let (hits, misses) = cached.cache_stats();
    assert_eq!((hits, misses), (1, 1));
    let log = cached.read(&layout::history_log("alice", "2026-09-24")).unwrap();
    assert!(log.starts_with(b"alice: "));
}

#[test]
fn end_to_end_im_data_to_mountable_view() {
    let contacts = vec![Contact { name: "alice".into(), username: "alice_wx".into() }];
    let messages = vec![ChatMessage {
        peer: "alice".into(),
        from: "alice".into(),
        text: "挂载盘视角：我就是个文本文件".into(),
        date: "2026-09-25".into(),
    }];
    let fs = build_im_view(&contacts, &messages).expect("投影构建不该失败");
    let mut mounted = CachedFs::new(fs, 4);

    let history_dir = format!("{}/alice", layout::HISTORY_DIR);
    let first = mounted.read_dir(&history_dir).expect("列举历史目录");
    assert_eq!(first.len(), 1);
    let _second = mounted.read_dir(&history_dir).unwrap();
    assert_eq!(mounted.cache_stats(), (1, 1), "第二次列举命中缓存");

    let log_path = layout::history_log("alice", "2026-09-25");
    let log = mounted.read(&log_path).expect("读日志文件");
    let text = String::from_utf8(log.to_vec()).unwrap();
    assert_eq!(text, "alice: 挂载盘视角：我就是个文本文件\n");

    let attr = mounted.lookup(&log_path).unwrap();
    assert_eq!(attr.kind, NodeKind::File);
    assert_eq!(attr.size, u64::try_from(text.len()).unwrap());
}

/// A slash in a name is an error even where the name would lead to a directory.
#[test]
fn slash_in_name_is_an_invalid_path() {
    let bad = vec![Contact { name: "/x".into(), username: "x".into() }];
    match build_im_view(&bad, &[]) {
        Err(FsError::InvalidPath { .. }) => {}
        other => panic!("{:?}", other.map(|_| ())),
    }
}

/// The later of two contacts with one name has the card, and nothing but the
/// cards, the logs and their directories is there.
#[test]
fn tree_holds_its_data_and_nothing_else() {
    let mut cs = contacts();
    cs.push(Contact { name: "alice".into(), username: "alice_02".into() });
    let fs = build_im_view(&cs, &messages()).unwrap();
    let names = |path: &str| -> Vec<String> {
        fs.read_dir(path).unwrap().into_iter().map(|e| e.name).collect()
    };
    assert_eq!(names(layout::CONTACTS_DIR), ["alice.txt", "bob.txt"]);
    assert_eq!(names(layout::HISTORY_DIR), ["alice", "bob"]);
    assert_eq!(names("/history/bob"), ["2026-09-24.log"]);
    assert!(names(layout::FILES_DIR).is_empty());
    assert_eq!(
        fs.read(&layout::contact_card("alice")).unwrap(),
        "name: alice\nusername: alice_02\n".as_bytes()
    );
    assert!(fs.lookup("/files/alice.txt").is_err());
    assert!(fs.lookup("/history/carol").is_err());
}

/// The logs of a conversation without a name stand beside the others.
#[test]
fn nameless_conversation_stands_in_history() {
    let ms = vec![ChatMessage {
        peer: String::new(),
        from: "me".into(),
        text: "hi".into(),
        date: "2026-09-24".into(),
    }];
    let fs = build_im_view(&[], &ms).unwrap();
    assert_eq!(fs.read("/history/2026-09-24.log").unwrap(), "me: hi\n".as_bytes());
}
