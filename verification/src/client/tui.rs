//! The terminal interface, short of the terminal: what a key does, what an event
//! does, and what a line of the screen says.

use bytes::Bytes;
use vstd::prelude::*;
use vstd::utf8::{decode_utf8, encode_utf8, valid_utf8};
use crate::client::chat::{
    ChatModel, ChatMsg, ChatState, ConversationModel, SendStatus, after_event, can_count,
};
use crate::client::event::{ClientEvent, EventModel};
use crate::client::input::{
    InputAction, InputActionModel, all_white, input_model, is_trim, law_commands,
    law_number_is_one_word, law_number_reads_back, law_text_is_no_number, law_typed_line_is_sent,
    law_white_space_is_taken_off, parse_input,
};
use crate::client::message::MsgModel;
use crate::octets::{bytes_as_slice, bytes_content, bytes_copy_from_slice};
use crate::text::{
    TextOrder, chars_of, decimal, lemma_text_less_strict, push_decimal, string_of, text_order,
};

verus! {

// ---------------------------------------------------------------------------
// Contents as text
// ---------------------------------------------------------------------------

/// The string that stands under a name in a JSON object; nothing if the bytes are
/// not JSON, or the name is not there or has no string.
pub uninterp spec fn json_string(content: Seq<u8>, name: Seq<char>) -> Option<Seq<char>>;

/// The text of bytes, in which what is not UTF-8 is replaced.
pub uninterp spec fn utf8_lossy(content: Seq<u8>) -> Seq<char>;

/// What an optional string says.
pub open spec fn optional_text(s: Option<String>) -> Option<Seq<char>> {
    match s {
        Some(text) => Some(text@),
        None => None,
    }
}

/// `serde_json::from_slice`, then `Value::get` and `Value::as_str`: the string
/// under a name.
#[verifier::external_body]
fn json_field(content: &[u8], name: &str) -> (r: Option<String>)
    ensures
        optional_text(r) == json_string(content@, name@),
{
    let value = serde_json::from_slice::<serde_json::Value>(content).ok()?;
    value.get(name)?.as_str().map(str::to_owned)
}

/// `String::from_utf8_lossy`: bytes that are UTF-8 are the text itself.
#[verifier::external_body]
fn lossy(content: &[u8]) -> (r: String)
    ensures
        r@ == utf8_lossy(content@),
        valid_utf8(content@) ==> r@ == decode_utf8(content@),
{
    String::from_utf8_lossy(content).into_owned()
}

/// A content that says what it is.
#[derive(Debug, Clone, PartialEq, Eq)]
pub struct RichContent {
    /// What it is.
    pub kind: Option<String>,
    /// The text of a text.
    pub text: Option<String>,
    /// The character of an emoji.
    pub emoji: Option<String>,
    /// The name of a file or of an image.
    pub filename: Option<String>,
}

/// What a [`RichContent`] says.
#[verifier::ext_equal]
pub struct RichModel {
    pub kind: Option<Seq<char>>,
    pub text: Option<Seq<char>>,
    pub emoji: Option<Seq<char>>,
    pub filename: Option<Seq<char>>,
}

impl View for RichContent {
    type V = RichModel;

    open spec fn view(&self) -> RichModel {
        RichModel {
            kind: optional_text(self.kind),
            text: optional_text(self.text),
            emoji: optional_text(self.emoji),
            filename: optional_text(self.filename),
        }
    }
}

/// The text, or this one if there is none.
pub open spec fn text_or(s: Option<Seq<char>>, other: Seq<char>) -> Seq<char> {
    match s {
        Some(text) => text,
        None => other,
    }
}

/// A rich content as text; `plain` is what is shown of one that is not known.
pub open spec fn rich_text(rich: RichModel, plain: Seq<char>) -> Seq<char> {
    match rich.kind {
        None => plain,
        Some(kind) => if kind == "text"@ {
            text_or(rich.text, Seq::empty())
        } else if kind == "emoji"@ {
            text_or(rich.emoji, "[表情]"@)
        } else if kind == "image"@ {
            "[图片] "@ + text_or(rich.filename, Seq::empty())
        } else if kind == "file"@ {
            "[文件] "@ + text_or(rich.filename, Seq::empty())
        } else {
            plain
        },
    }
}

/// What the bytes of a content say of themselves.
pub open spec fn rich_of(content: Seq<u8>) -> RichModel {
    RichModel {
        kind: json_string(content, "kind"@),
        text: json_string(content, "text"@),
        emoji: json_string(content, "emoji"@),
        filename: json_string(content, "filename"@),
    }
}

/// Whether a string is this word.
fn same_text(s: &str, word: &str) -> (r: bool)
    ensures
        r == (s@ == word@),
{
    match text_order(s, word) {
        TextOrder::Same => true,
        TextOrder::Less => {
            proof {
                lemma_text_less_strict(s@, word@);
            }
            false
        },
        TextOrder::More => {
            proof {
                lemma_text_less_strict(word@, s@);
            }
            false
        },
    }
}

/// The text of an optional string, or this one if there is none.
fn take_or(s: &Option<String>, other: &str) -> (r: String)
    ensures
        r@ == text_or(optional_text(*s), other@),
{
    match s {
        Some(text) => text.clone(),
        None => other.to_owned(),
    }
}

/// A rich content as text; `plain` is what is shown of one that is not known.
#[must_use]
pub fn degrade(rich: &RichContent, plain: String) -> (r: String)
    ensures
        r@ == rich_text(rich@, plain@),
{
    let kind = match &rich.kind {
        None => return plain,
        Some(kind) => kind,
    };
    proof {
        reveal_strlit("");
        assert(""@ =~= Seq::<char>::empty());
    }
    if same_text(kind.as_str(), "text") {
        take_or(&rich.text, "")
    } else if same_text(kind.as_str(), "emoji") {
        take_or(&rich.emoji, "[表情]")
    } else if same_text(kind.as_str(), "image") {
        let mut s = String::from_str("[图片] ");
        s.append(take_or(&rich.filename, "").as_str());
        s
    } else if same_text(kind.as_str(), "file") {
        let mut s = String::from_str("[文件] ");
        s.append(take_or(&rich.filename, "").as_str());
        s
    } else {
        plain
    }
}

/// The text that is shown of a content: of one that says what it is, its text, or
/// a word for it; of any other, the content itself.
#[must_use]
pub fn display_text(content: &[u8]) -> (r: String)
    ensures
        r@ == rich_text(rich_of(content@), utf8_lossy(content@)),
        json_string(content@, "kind"@) is None && valid_utf8(content@) ==> r@ == decode_utf8(
            content@,
        ),
{
    let rich = RichContent {
        kind: json_field(content, "kind"),
        text: json_field(content, "text"),
        emoji: json_field(content, "emoji"),
        filename: json_field(content, "filename"),
    };
    degrade(&rich, lossy(content))
}

// ---------------------------------------------------------------------------
// Lines of the screen
// ---------------------------------------------------------------------------

/// The colour of a line.
#[derive(Debug, Clone, Copy, PartialEq, Eq, Structural)]
pub enum Tone {
    /// The terminal's own.
    Plain,
    /// Green.
    Green,
    /// Dark grey.
    DarkGray,
    /// Red.
    Red,
    /// Yellow.
    Yellow,
}

/// A line of the screen.
#[derive(Debug, Clone, PartialEq, Eq)]
pub struct ScreenLine {
    /// What it says.
    pub text: String,
    /// Its colour.
    pub tone: Tone,
}

/// What a text with these in front of it says.
fn prefixed(prefix: &str, text: &str) -> (r: String)
    ensures
        r@ == prefix@ + text@,
{
    let mut s = prefix.to_owned();
    s.append(text);
    s
}

/// What stands in front of a message, and its colour.
pub open spec fn msg_mark(from_me: bool, status: SendStatus) -> (Seq<char>, Tone) {
    if !from_me {
        ("< "@, Tone::Plain)
    } else {
        match status {
            SendStatus::Delivered => ("▶ "@, Tone::Green),
            SendStatus::Sending => ("~ "@, Tone::DarkGray),
            SendStatus::Failed => ("✗ "@, Tone::Red),
        }
    }
}

/// The line of a message.
#[must_use]
pub fn render_msg(msg: &ChatMsg) -> (r: ScreenLine)
    ensures
        r.text@ == msg_mark(msg@.from_me, msg@.status).0 + rich_text(
            rich_of(msg@.content),
            utf8_lossy(msg@.content),
        ),
        r.tone == msg_mark(msg@.from_me, msg@.status).1,
{
    let text = display_text(bytes_as_slice(&msg.content));
    if msg.from_me {
        match msg.status {
            SendStatus::Delivered => ScreenLine {
                text: prefixed("▶ ", text.as_str()),
                tone: Tone::Green,
            },
            SendStatus::Sending => ScreenLine {
                text: prefixed("~ ", text.as_str()),
                tone: Tone::DarkGray,
            },
            SendStatus::Failed => ScreenLine {
                text: prefixed("✗ ", text.as_str()),
                tone: Tone::Red,
            },
        }
    } else {
        ScreenLine { text: prefixed("< ", text.as_str()), tone: Tone::Plain }
    }
}

/// The line of a conversation in the list: a mark if it is selected, and how many
/// messages have not been read, if any.
#[must_use]
pub fn sidebar_line(peer: u64, unread: u32, selected: bool) -> (r: ScreenLine)
    ensures
        ({
            let name = (if selected {
                "▸ "@
            } else {
                "  "@
            }) + decimal(peer as nat);
            if unread > 0 {
                r.text@ == name + " ["@ + decimal(unread as nat) + "]"@ && r.tone == Tone::Yellow
            } else {
                r.text@ == name && r.tone == Tone::Plain
            }
        }),
{
    let mut text = String::from_str(
        if selected {
            "▸ "
        } else {
            "  "
        },
    );
    push_decimal(&mut text, peer as u128);
    if unread > 0 {
        text.append(" [");
        push_decimal(&mut text, unread as u128);
        text.append("]");
        ScreenLine { text, tone: Tone::Yellow }
    } else {
        ScreenLine { text, tone: Tone::Plain }
    }
}

/// The column of the cursor behind a line of input.
#[must_use]
pub fn cursor_column(x: u16, width: u16, text_width: u16) -> (r: u16)
    requires
        x + width <= u16::MAX,
        x + 2 <= u16::MAX,
    ensures
        ({
            let room = if width >= 3 {
                width - 3
            } else {
                0
            };
            r == x + 2 + if text_width < room {
                text_width as int
            } else {
                room as int
            }
        }),
{
    let room: u16 = if width >= 3 {
        width - 3
    } else {
        0
    };
    let used: u16 = if text_width < room {
        text_width
    } else {
        room
    };
    x + 2 + used
}

// ---------------------------------------------------------------------------
// Keys and events
// ---------------------------------------------------------------------------

/// What is on the screen besides the conversations.
#[derive(Debug, Clone, PartialEq, Eq)]
pub struct Viewport {
    /// What was typed.
    pub input: String,
    /// The selected conversation.
    pub selected: Option<u64>,
    /// How far the messages are scrolled up.
    pub scroll: u16,
    /// The hint above the input.
    pub hint: String,
}

/// What a [`Viewport`] holds.
#[verifier::ext_equal]
pub struct ViewportModel {
    pub input: Seq<char>,
    pub selected: Option<u64>,
    pub scroll: u16,
    pub hint: Seq<char>,
}

impl View for Viewport {
    type V = ViewportModel;

    open spec fn view(&self) -> ViewportModel {
        ViewportModel {
            input: self.input@,
            selected: self.selected,
            scroll: self.scroll,
            hint: self.hint@,
        }
    }
}

/// The screen after a conversation was selected.
pub open spec fn with_selected(v: ViewportModel, peer: u64) -> ViewportModel {
    ViewportModel {
        selected: Some(peer),
        scroll: 0,
        hint: "与 "@ + decimal(peer as nat) + " 对话中 · Enter 发送"@,
        ..v
    }
}

/// The conversations after those with `peer` were read.
pub open spec fn read(chat: ChatModel, peer: u64) -> ChatModel {
    if chat.conversations.contains_key(peer) {
        ChatModel {
            conversations: chat.conversations.insert(
                peer,
                ConversationModel { unread: 0, ..chat.conversations[peer] },
            ),
            ..chat
        }
    } else {
        chat
    }
}

impl Viewport {
    /// Nothing typed and nothing selected.
    #[must_use]
    pub fn new() -> (r: Self)
        ensures
            r@ == (ViewportModel {
                input: Seq::empty(),
                selected: None,
                scroll: 0,
                hint: "/to <user_id> 新会话 · Tab 切换 · /quit 退出"@,
            }),
    {
        Viewport {
            input: String::new(),
            selected: None,
            scroll: 0,
            hint: "/to <user_id> 新会话 · Tab 切换 · /quit 退出".to_owned(),
        }
    }

    /// Selects a conversation: its messages are read, and the last are shown.
    pub fn select(&mut self, chat: &mut ChatState, peer: u64)
        ensures
            final(self)@ == with_selected(old(self)@, peer),
            final(chat)@ == read(old(chat)@, peer),
    {
        self.selected = Some(peer);
        chat.mark_read(peer);
        self.scroll = 0;
        let mut hint = String::from_str("与 ");
        push_decimal(&mut hint, peer as u128);
        hint.append(" 对话中 · Enter 发送");
        self.hint = hint;
    }
}

/// `p` is the first of the conversations.
pub open spec fn is_first(m: Map<u64, ConversationModel>, p: u64) -> bool {
    m.contains_key(p) && forall|q: u64| #[trigger] m.contains_key(q) ==> p <= q
}

/// `p` is the last of the conversations.
pub open spec fn is_last(m: Map<u64, ConversationModel>, p: u64) -> bool {
    m.contains_key(p) && forall|q: u64| #[trigger] m.contains_key(q) ==> q <= p
}

/// `p` is the conversation that follows `current`: the next larger one, or the
/// first where there is none; the first, too, where `current` is no conversation.
pub open spec fn follows(m: Map<u64, ConversationModel>, current: Option<u64>, p: u64) -> bool {
    match current {
        Some(cur) => if m.contains_key(cur) && !is_last(m, cur) {
            &&& m.contains_key(p)
            &&& cur < p
            &&& forall|q: u64| #[trigger] m.contains_key(q) ==> q <= cur || p <= q
        } else {
            is_first(m, p)
        },
        None => is_first(m, p),
    }
}

/// The conversation that follows `current`, if there are any.
#[must_use]
pub fn next_peer(chat: &ChatState, current: Option<u64>) -> (r: Option<u64>)
    ensures
        match r {
            Some(p) => follows(chat@.conversations, current, p),
            None => forall|q: u64| !#[trigger] chat@.conversations.contains_key(q),
        },
{
    let ghost m = chat@.conversations;
    let peers = chat.peers();
    if peers.len() == 0 {
        proof {
            assert forall|q: u64| !#[trigger] m.contains_key(q) by {
                if m.contains_key(q) {
                    assert(peers@.contains(q));
                }
            }
        }
        return None;
    }
    let first: u64 = peers[0];
    proof {
        assert(peers@.contains(first));
        assert forall|q: u64| #[trigger] m.contains_key(q) implies first <= q by {
            assert(peers@.contains(q));
            let i = choose|i: int| 0 <= i < peers@.len() && peers@[i] == q;
            if i > 0 {
                assert(peers@[0] < peers@[i]);
            }
        }
        assert(is_first(m, first));
    }
    let cur: u64 = match current {
        None => return Some(first),
        Some(cur) => cur,
    };
    let mut i: usize = 0;
    while i < peers.len()
        invariant
            i <= peers@.len(),
            0 < peers@.len(),
            m == chat@.conversations,
            current == Some(cur),
            first == peers@[0],
            is_first(m, first),
            forall|p: u64| m.contains_key(p) <==> #[trigger] peers@.contains(p),
            forall|a: int, b: int| 0 <= a < b < peers@.len() ==> peers@[a] < peers@[b],
            forall|k: int| 0 <= k < i ==> peers@[k] != cur,
        decreases peers@.len() - i,
    {
        if peers[i] == cur {
            let next: u64 = if i + 1 < peers.len() {
                peers[i + 1]
            } else {
                first
            };
            proof {
                assert(peers@.contains(cur));
                if i + 1 < peers@.len() {
                    assert(peers@.contains(next));
                    assert(peers@[i as int] < peers@[i + 1]);
                    assert(!is_last(m, cur)) by {
                        assert(m.contains_key(next));
                    }
                    assert forall|q: u64| #[trigger] m.contains_key(q) implies q <= cur || next
                        <= q by {
                        assert(peers@.contains(q));
                        let k = choose|k: int| 0 <= k < peers@.len() && peers@[k] == q;
                        if k < i {
                            assert(peers@[k] < peers@[i as int]);
                        }
                        if k > i + 1 {
                            assert(peers@[i + 1] < peers@[k]);
                        }
                    }
                } else {
                    assert forall|q: u64| #[trigger] m.contains_key(q) implies q <= cur by {
                        assert(peers@.contains(q));
                        let k = choose|k: int| 0 <= k < peers@.len() && peers@[k] == q;
                        if k < i {
                            assert(peers@[k] < peers@[i as int]);
                        }
                    }
                }
            }
            return Some(next);
        }
        i = i + 1;
    }
    proof {
        assert(!m.contains_key(cur)) by {
            if m.contains_key(cur) {
                assert(peers@.contains(cur));
            }
        }
    }
    Some(first)
}

/// A key.
#[derive(Debug, Clone, Copy, PartialEq, Eq)]
pub enum Key {
    /// Escape.
    Esc,
    /// The tabulator.
    Tab,
    /// Page up.
    PageUp,
    /// Page down.
    PageDown,
    /// Backspace.
    Backspace,
    /// Enter.
    Enter,
    /// A character, and whether the control key, and no other, is held.
    Char(char, bool),
    /// Any other key.
    Other,
}

/// What a key asks the caller to do.
#[derive(Debug, PartialEq, Eq)]
pub enum UiAction {
    /// Nothing.
    Nothing,
    /// Leave.
    Quit,
    /// Send this to a user.
    Send {
        /// The recipient.
        peer: u64,
        /// What to send.
        content: Bytes,
    },
}

/// What a [`UiAction`] says.
pub enum UiActionModel {
    Nothing,
    Quit,
    Send { peer: u64, content: Seq<u8> },
}

impl View for UiAction {
    type V = UiActionModel;

    open spec fn view(&self) -> UiActionModel {
        match *self {
            UiAction::Nothing => UiActionModel::Nothing,
            UiAction::Quit => UiActionModel::Quit,
            UiAction::Send { peer, content } => UiActionModel::Send {
                peer,
                content: bytes_content(content),
            },
        }
    }
}

/// The conversations and the screen after a key, and what it asks for. The
/// tabulator is not among the keys here: see [`tab_pressed`].
pub open spec fn key_model(chat: ChatModel, view: ViewportModel, key: Key) -> (
    ChatModel,
    ViewportModel,
    UiActionModel,
) {
    match key {
        Key::Esc => (chat, view, UiActionModel::Quit),
        Key::PageUp => (
            chat,
            ViewportModel {
                scroll: if view.scroll + 5 <= u16::MAX {
                    (view.scroll + 5) as u16
                } else {
                    u16::MAX
                },
                ..view
            },
            UiActionModel::Nothing,
        ),
        Key::PageDown => (
            chat,
            ViewportModel {
                scroll: if view.scroll >= 5 {
                    (view.scroll - 5) as u16
                } else {
                    0
                },
                ..view
            },
            UiActionModel::Nothing,
        ),
        Key::Backspace => (
            chat,
            ViewportModel {
                input: if view.input.len() > 0 {
                    view.input.drop_last()
                } else {
                    view.input
                },
                ..view
            },
            UiActionModel::Nothing,
        ),
        Key::Enter => match input_model(view.input) {
            InputActionModel::Quit => (chat, view, UiActionModel::Quit),
            InputActionModel::SwitchTo(peer) => (
                read(chat, peer),
                ViewportModel { input: Seq::empty(), ..with_selected(view, peer) },
                UiActionModel::Nothing,
            ),
            InputActionModel::Send { content } => match view.selected {
                Some(peer) => (
                    chat,
                    ViewportModel { input: Seq::empty(), scroll: 0, ..view },
                    UiActionModel::Send { peer, content: encode_utf8(content) },
                ),
                None => (
                    chat,
                    ViewportModel { hint: "先 /to <user_id> 选择会话"@, ..view },
                    UiActionModel::Nothing,
                ),
            },
            InputActionModel::Ignored => (
                chat,
                ViewportModel { input: Seq::empty(), ..view },
                UiActionModel::Nothing,
            ),
        },
        Key::Char(c, control) => if c == 'c' && control {
            (chat, view, UiActionModel::Quit)
        } else {
            (chat, ViewportModel { input: view.input.push(c), ..view }, UiActionModel::Nothing)
        },
        _ => (chat, view, UiActionModel::Nothing),
    }
}

/// The conversations and the screen after the tabulator: the next conversation is
/// selected, if there are any.
pub open spec fn tab_pressed(
    chat: ChatModel,
    view: ViewportModel,
    chat2: ChatModel,
    view2: ViewportModel,
) -> bool {
    ||| (forall|q: u64| !#[trigger] chat.conversations.contains_key(q)) && chat2 == chat && view2
        == view
    ||| exists|p: u64| #[trigger]
        follows(chat.conversations, view.selected, p) && chat2 == read(chat, p) && view2
            == with_selected(view, p)
}

/// The conversations and the screen after the client told something: where no
/// conversation is selected, the last one is; the messages of the selected one are read.
pub open spec fn told_ui(
    chat: ChatModel,
    view: ViewportModel,
    event: EventModel,
    chat2: ChatModel,
    view2: ViewportModel,
) -> bool {
    let m = after_event(chat, event).conversations;
    match view.selected {
        Some(peer) => chat2 == read(after_event(chat, event), peer) && view2 == view,
        None => {
            ||| (forall|q: u64| !#[trigger] m.contains_key(q)) && chat2 == after_event(chat, event)
                && view2 == view
            ||| exists|p: u64| #[trigger]
                is_last(m, p) && chat2 == read(after_event(chat, event), p) && view2
                    == with_selected(view, p)
        },
    }
}

/// The terminal interface.
pub struct Ui {
    /// The conversations.
    pub chat: ChatState,
    /// The rest of the screen.
    pub view: Viewport,
}

impl Ui {
    /// No conversation, and nothing typed.
    #[must_use]
    pub fn new() -> (r: Self)
        ensures
            r.chat@ == (ChatModel { conversations: Map::empty(), connected: false }),
            r.view@.input.len() == 0,
            r.view@.selected is None,
            r.view@.scroll == 0,
            r.view@.hint == "/to <user_id> 新会话 · Tab 切换 · /quit 退出"@,
    {
        Ui { chat: ChatState::new(), view: Viewport::new() }
    }

    /// A key was pressed.
    pub fn on_key(&mut self, key: Key) -> (r: UiAction)
        ensures
            if key is Tab {
                &&& tab_pressed(
                    old(self).chat@,
                    old(self).view@,
                    final(self).chat@,
                    final(self).view@,
                )
                &&& r@ == UiActionModel::Nothing
            } else {
                let t = key_model(old(self).chat@, old(self).view@, key);
                final(self).chat@ == t.0 && final(self).view@ == t.1 && r@ == t.2
            },
    {
        match key {
            Key::Esc => UiAction::Quit,
            Key::Tab => {
                if let Some(next) = next_peer(&self.chat, self.view.selected) {
                    self.view.select(&mut self.chat, next);
                }
                UiAction::Nothing
            },
            Key::PageUp => {
                self.view.scroll = if self.view.scroll <= u16::MAX - 5 {
                    self.view.scroll + 5
                } else {
                    u16::MAX
                };
                UiAction::Nothing
            },
            Key::PageDown => {
                self.view.scroll = if self.view.scroll >= 5 {
                    self.view.scroll - 5
                } else {
                    0
                };
                UiAction::Nothing
            },
            Key::Backspace => {
                let chars = chars_of(self.view.input.as_str());
                if chars.len() > 0 {
                    let input = string_of(&chars, 0, chars.len() - 1);
                    assert(input@ =~= self.view.input@.drop_last());
                    self.view.input = input;
                }
                UiAction::Nothing
            },
            Key::Enter => self.on_enter(),
            Key::Char(c, control) => {
                if c == 'c' && control {
                    return UiAction::Quit;
                }
                self.view.input.push(c);
                UiAction::Nothing
            },
            Key::Other => UiAction::Nothing,
        }
    }

    fn on_enter(&mut self) -> (r: UiAction)
        ensures
            ({
                let t = key_model(old(self).chat@, old(self).view@, Key::Enter);
                final(self).chat@ == t.0 && final(self).view@ == t.1 && r@ == t.2
            }),
    {
        match parse_input(self.view.input.as_str()) {
            InputAction::Quit => UiAction::Quit,
            InputAction::SwitchTo(peer) => {
                self.view.select(&mut self.chat, peer);
                self.view.input = String::new();
                UiAction::Nothing
            },
            InputAction::Send { content } => {
                match self.view.selected {
                    Some(peer) => {
                        let content = bytes_copy_from_slice(content.as_str().as_bytes());
                        self.view.scroll = 0;
                        self.view.input = String::new();
                        UiAction::Send { peer, content }
                    },
                    None => {
                        self.view.hint = "先 /to <user_id> 选择会话".to_owned();
                        UiAction::Nothing
                    },
                }
            },
            InputAction::Ignored => {
                self.view.input = String::new();
                UiAction::Nothing
            },
        }
    }

    /// The client told something. Where no conversation is selected, the last one
    /// is; the messages of the selected one are read.
    pub fn on_event(&mut self, event: &ClientEvent, user_id: u64)
        requires
            can_count(old(self).chat@.conversations, event@),
        ensures
            ({
                let chat = after_event(old(self).chat@, event@);
                let m = chat.conversations;
                match old(self).view@.selected {
                    Some(peer) => final(self).chat@ == read(chat, peer) && final(self).view@
                        == old(self).view@,
                    None => {
                        ||| (forall|q: u64| !#[trigger] m.contains_key(q)) && final(self).chat@
                            == chat && final(self).view@ == old(self).view@
                        ||| exists|p: u64| #[trigger]
                            is_last(m, p) && final(self).chat@ == read(chat, p)
                                && final(self).view@ == with_selected(old(self).view@, p)
                    },
                }
            }),
            told_ui(
                old(self).chat@,
                old(self).view@,
                event@,
                final(self).chat@,
                final(self).view@,
            ),
    {
        self.chat.on_event(event, user_id);
        let ghost chat = self.chat@;
        let ghost m = chat.conversations;
        if self.view.selected.is_none() {
            let peers = self.chat.peers();
            let n: usize = peers.len();
            if n > 0 {
                let last: u64 = peers[n - 1];
                proof {
                    assert(peers@.contains(last));
                    assert forall|q: u64| #[trigger] m.contains_key(q) implies q <= last by {
                        assert(peers@.contains(q));
                        let i = choose|i: int| 0 <= i < peers@.len() && peers@[i] == q;
                        if i < n - 1 {
                            assert(peers@[i] < peers@[n - 1]);
                        }
                    }
                    assert(is_last(m, last));
                }
                self.view.select(&mut self.chat, last);
                assert(read(read(chat, last), last) == read(chat, last)) by {
                    assert(read(read(chat, last), last).conversations =~= read(
                        chat,
                        last,
                    ).conversations);
                }
            } else {
                proof {
                    assert forall|q: u64| !#[trigger] m.contains_key(q) by {
                        if m.contains_key(q) {
                            assert(peers@.contains(q));
                        }
                    }
                }
            }
        }
        if let Some(peer) = self.view.selected {
            self.chat.mark_read(peer);
        }
    }
}

// ---------------------------------------------------------------------------
// The plain client
// ---------------------------------------------------------------------------

/// The lines that the plain client prints for an event.
#[must_use]
pub fn event_lines(event: &ClientEvent) -> (r: Vec<String>)
    ensures
        r@.len() == event_texts(event@).len(),
        forall|i: int| 0 <= i < r@.len() ==> (#[trigger] r@[i])@ == event_texts(event@)[i],
{
    let mut out: Vec<String> = Vec::new();
    match event {
        ClientEvent::Connected { session_id } => {
            let mut s = String::from_str("[已连接 session=");
            push_decimal(&mut s, *session_id as u128);
            s.append("]");
            out.push(s);
        },
        ClientEvent::Disconnected => {
            out.push("[连接断开，重连中...]".to_owned());
        },
        ClientEvent::Message(msg) => {
            let mut s = String::from_str("[来自 ");
            push_decimal(&mut s, msg.from as u128);
            s.append("] ");
            s.append(lossy(bytes_as_slice(&msg.content)).as_str());
            out.push(s);
        },
        ClientEvent::Ack { msg_id, .. } => {
            let mut s = String::from_str("[已送达 msg_id=");
            push_decimal(&mut s, *msg_id as u128);
            s.append("]");
            out.push(s);
        },
        ClientEvent::SyncBatch(batch) => {
            let mut i: usize = 0;
            while i < batch.len()
                invariant
                    i <= batch@.len(),
                    out@.len() == i,
                    forall|k: int|
                        0 <= k < i ==> (#[trigger] out@[k])@ == "[离线补投 来自 "@ + decimal(
                            batch@[k].from as nat,
                        ) + "] "@ + utf8_lossy(bytes_content(batch@[k].content)),
                decreases batch@.len() - i,
            {
                let mut s = String::from_str("[离线补投 来自 ");
                push_decimal(&mut s, batch[i].from as u128);
                s.append("] ");
                s.append(lossy(bytes_as_slice(&batch[i].content)).as_str());
                out.push(s);
                i = i + 1;
            }
        },
        ClientEvent::Rejected { reason } => {
            let mut s = String::from_str("[登录被拒：");
            s.append(reason.as_str());
            s.append("]");
            out.push(s);
        },
        _ => {},
    }
    out
}

/// The texts that the plain client prints for an event.
pub open spec fn event_texts(event: EventModel) -> Seq<Seq<char>> {
    match event {
        EventModel::Connected { session_id } => seq![
            "[已连接 session="@ + decimal(session_id as nat) + "]"@,
        ],
        EventModel::Disconnected => seq!["[连接断开，重连中...]"@],
        EventModel::Message(msg) => seq![
            "[来自 "@ + decimal(msg.from as nat) + "] "@ + utf8_lossy(msg.content),
        ],
        EventModel::Ack { msg_id, .. } => seq!["[已送达 msg_id="@ + decimal(msg_id as nat) + "]"@],
        EventModel::SyncBatch(batch) => Seq::new(
            batch.len(),
            |i: int|
                "[离线补投 来自 "@ + decimal(batch[i].from as nat) + "] "@ + utf8_lossy(
                    batch[i].content,
                ),
        ),
        EventModel::Rejected { reason } => seq!["[登录被拒："@ + reason + "]"@],
        _ => Seq::empty(),
    }
}

// ---------------------------------------------------------------------------
// Laws
// ---------------------------------------------------------------------------

/// A character that is typed stands at the end of the input, and is gone after it is
/// erased; neither changes anything else.
pub proof fn law_typed_and_erased(chat: ChatModel, view: ViewportModel, c: char)
    ensures
        ({
            let (chat1, view1, action1) = key_model(chat, view, Key::Char(c, false));
            let (chat2, view2, action2) = key_model(chat1, view1, Key::Backspace);
            &&& view1.input == view.input.push(c)
            &&& action1 == UiActionModel::Nothing && action2 == UiActionModel::Nothing
            &&& chat2 == chat
            &&& view2 == view
        }),
{
    let view1 = key_model(chat, view, Key::Char(c, false)).1;
    assert(view1.input.drop_last() =~= view.input);
}

/// Enter sends what was typed, without the white space around it, to the selected
/// conversation, and clears the input; where none is selected nothing is sent, and
/// the input stays.
pub proof fn law_enter_sends_what_was_typed(
    chat: ChatModel,
    view: ViewportModel,
    a: Seq<char>,
    s: Seq<char>,
    b: Seq<char>,
)
    requires
        view.input == a + s + b,
        all_white(a),
        all_white(b),
        is_trim(s),
        s.len() > 0,
        s[0] != '/',
    ensures
        ({
            let (chat1, view1, action) = key_model(chat, view, Key::Enter);
            &&& chat1 == chat
            &&& view1.selected == view.selected
            &&& view.selected matches Some(peer) ==> {
                &&& action == UiActionModel::Send { peer, content: encode_utf8(s) }
                &&& view1.input.len() == 0
                &&& view1.scroll == 0
            }
            &&& view.selected is None ==> action == UiActionModel::Nothing && view1.input
                == view.input
        }),
{
    law_typed_line_is_sent(a, s, b);
}

/// The command for it selects the conversation with a user, and clears the input;
/// what was said there is read, and nothing is sent.
pub proof fn law_enter_selects(chat: ChatModel, view: ViewportModel, peer: u64)
    requires
        view.input == "/to "@ + decimal(peer as nat),
    ensures
        ({
            let (chat1, view1, action) = key_model(chat, view, Key::Enter);
            &&& action == UiActionModel::Nothing
            &&& view1.selected == Some(peer)
            &&& view1.input.len() == 0
            &&& chat1 == read(chat, peer)
        }),
{
    reveal_strlit("/to ");
    reveal_strlit("to");
    let d = decimal(peer as nat);
    let none = Seq::<char>::empty();
    law_number_is_one_word(peer as nat);
    law_number_reads_back(peer as nat);
    let line = view.input;
    assert(line[0] == '/');
    assert(d.len() > 0) by {
        if d.len() == 0 {
            law_text_is_no_number(d, 0);
        }
    }
    assert(line.last() == d.last());
    law_white_space_is_taken_off(none, line, none);
    assert(none + line + none =~= line);
    assert(line.skip(1) =~= "to"@ + seq![' '] + d);
    law_commands(peer, none, none);
}

/// The keys that leave.
pub proof fn law_keys_that_leave(chat: ChatModel, view: ViewportModel, key: Key)
    ensures
        key == Key::Esc || key == Key::Char('c', true) ==> key_model(chat, view, key) == (
            chat,
            view,
            UiActionModel::Quit,
        ),
        key != Key::Esc && key != Key::Char('c', true) && key != Key::Enter ==> key_model(
            chat,
            view,
            key,
        ).2 == UiActionModel::Nothing,
{
}

/// The keys that scroll: one goes five lines up, one five lines down, as far as there
/// are lines.
pub proof fn law_scrolling(chat: ChatModel, view: ViewportModel)
    ensures
        ({
            let up = key_model(chat, view, Key::PageUp).1;
            let down = key_model(chat, view, Key::PageDown).1;
            &&& up.scroll == if view.scroll <= u16::MAX - 5 {
                view.scroll + 5
            } else {
                u16::MAX as int
            }
            &&& down.scroll == if view.scroll >= 5 {
                view.scroll - 5
            } else {
                0int
            }
            &&& view.scroll <= u16::MAX - 5 ==> key_model(chat, up, Key::PageDown).1 == view
        }),
{
}

/// To read a conversation sets its count of unread messages to zero; no message and
/// no other conversation changes.
pub proof fn law_reading_clears_the_count(chat: ChatModel, peer: u64, other: u64)
    ensures
        ({
            let t = read(chat, peer);
            &&& t.connected == chat.connected
            &&& t.conversations.contains_key(other) == chat.conversations.contains_key(other)
            &&& chat.conversations.contains_key(peer) ==> t.conversations[peer].unread == 0
                && t.conversations[peer].messages == chat.conversations[peer].messages
            &&& other != peer && chat.conversations.contains_key(other)
                ==> t.conversations[other] == chat.conversations[other]
        }),
{
}

/// The mark of a message tells who wrote it and how far it has come.
pub proof fn law_marks_differ(status: SendStatus, other: SendStatus)
    ensures
        msg_mark(true, status) == msg_mark(true, other) ==> status == other,
        msg_mark(false, status) != msg_mark(true, other),
        msg_mark(false, status) == msg_mark(false, other),
{
    reveal_strlit("< ");
    reveal_strlit("▶ ");
    reveal_strlit("~ ");
    reveal_strlit("✗ ");
}

/// What is shown of a content: of a text its text, of an emoji the emoji, of an image
/// or a file its name behind a word for it, and of any other kind, or without a kind,
/// the content itself.
pub proof fn law_content_is_shown(rich: RichModel, plain: Seq<char>, text: Seq<char>)
    ensures
        rich.kind is None ==> rich_text(rich, plain) == plain,
        rich.kind == Some("text"@) && rich.text == Some(text) ==> rich_text(rich, plain) == text,
        rich.kind == Some("emoji"@) && rich.emoji == Some(text) ==> rich_text(rich, plain) == text,
        rich.kind == Some("image"@) && rich.filename == Some(text) ==> rich_text(rich, plain)
            == "[图片] "@ + text,
        rich.kind == Some("file"@) && rich.filename == Some(text) ==> rich_text(rich, plain)
            == "[文件] "@ + text,
        rich.kind matches Some(kind) ==> (kind != "text"@ && kind != "emoji"@ && kind != "image"@
            && kind != "file"@ ==> rich_text(rich, plain) == plain),
{
    reveal_strlit("text");
    reveal_strlit("emoji");
    reveal_strlit("image");
    reveal_strlit("file");
    assert("text"@[0] != "emoji"@[0] && "text"@[0] != "image"@[0] && "text"@[0] != "file"@[0]);
    assert("emoji"@[0] != "image"@[0] && "emoji"@[0] != "file"@[0] && "image"@[0] != "file"@[0]);
}

/// The plain client prints a line for a message that arrived, and one for each
/// message of a batch, in order: who sent it, and what it says. Of a message that is
/// on its way it prints nothing.
pub proof fn law_messages_are_printed(msg: MsgModel, batch: Seq<MsgModel>, i: int)
    requires
        0 <= i < batch.len(),
    ensures
        event_texts(EventModel::Message(msg)).len() == 1,
        event_texts(EventModel::Message(msg))[0] == "[来自 "@ + decimal(msg.from as nat) + "] "@
            + utf8_lossy(msg.content),
        event_texts(EventModel::SyncBatch(batch)).len() == batch.len(),
        event_texts(EventModel::SyncBatch(batch))[i] == "[离线补投 来自 "@ + decimal(
            batch[i].from as nat,
        ) + "] "@ + utf8_lossy(batch[i].content),
        forall|client_msg_id: u64, to: u64, content: Seq<u8>|
            (#[trigger] event_texts(EventModel::MessageQueued { client_msg_id, to, content })).len()
                == 0,
{
}

/// The tabulator goes round: the conversation that follows is another one if there is
/// another, and there is none in between.
pub proof fn law_tab_goes_on(
    m: Map<u64, ConversationModel>,
    current: u64,
    p: u64,
    other: u64,
)
    requires
        m.contains_key(current),
        m.contains_key(other),
        other != current,
        follows(m, Some(current), p),
    ensures
        m.contains_key(p),
        p != current,
        current < other ==> current < p <= other,
        p < current ==> p <= other <= current,
{
    if is_last(m, current) {
        assert(m.contains_key(other));
    }
}

/// What the client tells is seen: every conversation holds the messages that it has
/// after the event, the one that is shown has none that was not read, and the count of
/// every other is what the event left. The input is not touched, and a selection stays;
/// without one, a conversation that is there is selected.
pub proof fn law_what_is_told_is_seen(
    chat: ChatModel,
    view: ViewportModel,
    event: EventModel,
    chat2: ChatModel,
    view2: ViewportModel,
    peer: u64,
)
    requires
        told_ui(chat, view, event, chat2, view2),
    ensures
        ({
            let m = after_event(chat, event).conversations;
            &&& view2.input == view.input
            &&& view.selected is Some ==> view2.selected == view.selected
            &&& chat2.connected == after_event(chat, event).connected
            &&& chat2.conversations.contains_key(peer) == m.contains_key(peer)
            &&& m.contains_key(peer) ==> {
                &&& view2.selected is Some
                &&& chat2.conversations[peer].messages == m[peer].messages
                &&& chat2.conversations[peer].unread == if view2.selected == Some(peer) {
                    0
                } else {
                    m[peer].unread
                }
            }
        }),
{
}

} // verus!
