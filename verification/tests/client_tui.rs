//! What is typed, and what the screen says.

use bytes::Bytes;
use rust_im::client::chat::{ChatMsg, ChatState, SendStatus};
use rust_im::client::event::ClientEvent;
use rust_im::client::input::{parse_input, parse_line, InputAction};
use rust_im::client::message::Msg;
use rust_im::client::tui::{
    cursor_column, degrade, display_text, event_lines, next_peer, render_msg, sidebar_line, Key,
    RichContent, Tone, Ui, UiAction,
};

#[test]
fn parse_send_content() {
    assert_eq!(parse_input("你好"), InputAction::Send { content: "你好".to_string() });
    assert_eq!(
        parse_input("  带空格 的内容  "),
        InputAction::Send { content: "带空格 的内容".to_string() }
    );
}

#[test]
fn parse_commands() {
    assert_eq!(parse_input("/to 42"), InputAction::SwitchTo(42));
    assert_eq!(parse_input("/to abc"), InputAction::Ignored);
    assert_eq!(parse_input("/quit"), InputAction::Quit);
    assert_eq!(parse_input("/unknown x"), InputAction::Ignored);
}

#[test]
fn parse_empty_is_ignored() {
    assert_eq!(parse_input(""), InputAction::Ignored);
    assert_eq!(parse_input("   "), InputAction::Ignored);
}

#[test]
fn display_text_degrades_rich_content() {
    assert_eq!(display_text(b"hello"), "hello");
    assert_eq!(display_text(br#"{"a":1}"#), r#"{"a":1}"#);
    assert_eq!(display_text(r#"{"kind":"text","text":"你好"}"#.as_bytes()), "你好");
    assert_eq!(display_text(r#"{"kind":"emoji","emoji":"👍"}"#.as_bytes()), "👍");
    assert_eq!(
        display_text(br#"{"kind":"file","file_id":"7","filename":"a.pdf","size_bytes":1}"#),
        "[文件] a.pdf"
    );
    assert_eq!(
        display_text(br#"{"kind":"image","file_id":"8","filename":"p.png","size_bytes":2}"#),
        "[图片] p.png"
    );
}

#[test]
fn next_peer_rotates() {
    let mut chat = ChatState::new();
    assert_eq!(next_peer(&chat, None), None);

    for peer in [2, 7] {
        chat.on_event(
            &ClientEvent::MessageQueued { client_msg_id: 1, to: peer, content: Bytes::new() },
            9,
        );
    }
    assert_eq!(next_peer(&chat, None), Some(2));
    assert_eq!(next_peer(&chat, Some(2)), Some(7));
    assert_eq!(next_peer(&chat, Some(7)), Some(2));
    assert_eq!(next_peer(&chat, Some(99)), Some(2));
}

/// Bytes that are not UTF-8 are shown as far as they are.
#[test]
fn broken_text_is_shown() {
    assert_eq!(display_text(b"ab\xFFcd"), "ab\u{FFFD}cd");
}

/// What is made of the fields of a content.
#[test]
fn content_is_degraded_by_its_kind() {
    let rich = |kind: &str| RichContent {
        kind: Some(kind.to_string()),
        text: Some("t".to_string()),
        emoji: None,
        filename: None,
    };
    let plain = || "plain".to_string();
    assert_eq!(degrade(&rich("text"), plain()), "t");
    let none = RichContent { kind: None, text: None, emoji: None, filename: None };
    assert_eq!(degrade(&none, plain()), "plain");
}

fn line(content: &'static [u8], from_me: bool, status: SendStatus) -> ChatMsg {
    ChatMsg {
        peer: 3,
        from_me,
        msg_id: None,
        client_msg_id: 1,
        content: Bytes::from_static(content),
        status,
    }
}

#[test]
fn lines_show_the_status() {
    let sent = render_msg(&line(b"hi", true, SendStatus::Delivered));
    assert_eq!((sent.text.as_str(), sent.tone), ("▶ hi", Tone::Green));
    let sending = render_msg(&line(b"hi", true, SendStatus::Sending));
    assert_eq!((sending.text.as_str(), sending.tone), ("~ hi", Tone::DarkGray));
    let failed = render_msg(&line(b"hi", true, SendStatus::Failed));
    assert_eq!((failed.text.as_str(), failed.tone), ("✗ hi", Tone::Red));
    let got = render_msg(&line(b"hi", false, SendStatus::Delivered));
    assert_eq!((got.text.as_str(), got.tone), ("< hi", Tone::Plain));
}

#[test]
fn sidebar_shows_what_is_unread() {
    assert_eq!(sidebar_line(7, 3, true).text, "▸ 7 [3]");
    assert_eq!(sidebar_line(7, 0, false).text, "  7");
    assert_eq!(sidebar_line(7, 3, true).tone, Tone::Yellow);
}

#[test]
fn cursor_stays_in_the_box() {
    assert_eq!(cursor_column(10, 20, 4), 16);
    assert_eq!(cursor_column(10, 20, 400), 29);
}

/// Typing, selecting and sending.
#[test]
fn typed_message_is_sent() {
    let mut ui = Ui::new();
    for c in "hello".chars() {
        assert_eq!(ui.on_key(Key::Char(c, false)), UiAction::Nothing);
    }
    assert_eq!(ui.on_key(Key::Enter), UiAction::Nothing);
    assert_eq!(ui.view.hint, "先 /to <user_id> 选择会话");
    for _ in 0..5 {
        ui.on_key(Key::Backspace);
    }
    for c in "/to 42".chars() {
        ui.on_key(Key::Char(c, false));
    }
    ui.on_key(Key::Enter);
    assert_eq!(ui.view.selected, Some(42));
    assert_eq!(ui.view.hint, "与 42 对话中 · Enter 发送");
    for c in "你好".chars() {
        ui.on_key(Key::Char(c, false));
    }
    assert_eq!(
        ui.on_key(Key::Enter),
        UiAction::Send { peer: 42, content: Bytes::copy_from_slice("你好".as_bytes()) }
    );
    assert_eq!(ui.view.input, "");
    assert_eq!(ui.on_key(Key::Char('c', true)), UiAction::Quit);
    assert_eq!(ui.on_key(Key::Esc), UiAction::Quit);
}

#[test]
fn scrolling_saturates() {
    let mut ui = Ui::new();
    ui.on_key(Key::PageDown);
    assert_eq!(ui.view.scroll, 0);
    ui.on_key(Key::PageUp);
    assert_eq!(ui.view.scroll, 5);
    ui.on_key(Key::PageDown);
    assert_eq!(ui.view.scroll, 0);
    assert_eq!(ui.on_key(Key::Other), UiAction::Nothing);
}

/// The first message selects its conversation, and its messages are read.
#[test]
fn first_message_selects_its_conversation() {
    let mut ui = Ui::new();
    let msg = Msg { from: 3, to: 9, msg_id: 1, client_msg_id: 1, content: Bytes::new() };
    ui.on_event(&ClientEvent::Message(msg), 9);
    assert_eq!(ui.view.selected, Some(3));
    assert_eq!(ui.chat.conversation(3).unwrap().unread, 0);
    let msg = Msg { from: 5, to: 9, msg_id: 2, client_msg_id: 1, content: Bytes::new() };
    ui.on_event(&ClientEvent::Message(msg), 9);
    assert_eq!(ui.view.selected, Some(3));
    assert_eq!(ui.chat.conversation(5).unwrap().unread, 1);
    ui.on_key(Key::Tab);
    assert_eq!(ui.view.selected, Some(5));
    assert_eq!(ui.chat.conversation(5).unwrap().unread, 0);
}

#[test]
fn plain_client_reads_and_prints_lines() {
    assert_eq!(parse_line("42 hello you"), Some((42, "hello you".to_string())));
    assert_eq!(parse_line("nobody hello"), None);
    assert_eq!(
        event_lines(&ClientEvent::Connected { session_id: 8 }),
        vec!["[已连接 session=8]".to_string()]
    );
    assert_eq!(
        event_lines(&ClientEvent::Disconnected),
        vec!["[连接断开，重连中...]".to_string()]
    );
    let msg = Msg {
        from: 3,
        to: 9,
        msg_id: 1,
        client_msg_id: 1,
        content: Bytes::from_static(b"hi"),
    };
    assert_eq!(event_lines(&ClientEvent::Message(msg)), vec!["[来自 3] hi".to_string()]);
}
