//! Contacts and messages as files: one card per contact, one log per
//! conversation and day.

use vstd::prelude::*;
use vstd::utf8::encode_utf8;
use crate::mount::error::{FsError, FsErrorModel};
use crate::mount::layout::{
    CONTACTS_DIR, FILES_DIR, HISTORY_DIR, card_path, contact_card, history_log, log_path,
    peer_dir, peer_path,
};
use crate::mount::memfs::{
    DirEntryModel, FsModel, MemFs, NodeAt, ROOT_INO, WalkFail, at, empty_fs, fs_wf, has_entry,
    law_what_stands_at_a_path_is_read, law_when_a_change_goes_well, lemma_at_mkdir, lemma_at_write,
    lemma_listed_at, lookup_model, mkdir_model, read_dir_model, read_model, walk, write_model,
};
use crate::mount::path::{
    components, law_extra_slashes_do_not_count, law_slash_separates, lemma_single_component, plain,
};
use crate::text::{
    TextOrder, chars_of, lemma_text_less_strict, lemma_text_less_transitive, text_less,
    text_order,
};

verus! {

/// A contact.
#[derive(Clone, Debug, PartialEq, Eq)]
pub struct Contact {
    /// The name, which also names the card.
    pub name: String,
    /// The account.
    pub username: String,
}

/// What a [`Contact`] says.
pub struct ContactModel {
    pub name: Seq<char>,
    pub username: Seq<char>,
}

impl View for Contact {
    type V = ContactModel;

    open spec fn view(&self) -> ContactModel {
        ContactModel { name: self.name@, username: self.username@ }
    }
}

/// A message.
#[derive(Clone, Debug, PartialEq, Eq)]
pub struct ChatMessage {
    /// Whose conversation it belongs to.
    pub peer: String,
    /// Who wrote it.
    pub from: String,
    /// What it says.
    pub text: String,
    /// The day, `YYYY-MM-DD`.
    pub date: String,
}

/// What a [`ChatMessage`] says.
pub struct ChatMessageModel {
    pub peer: Seq<char>,
    pub from: Seq<char>,
    pub text: Seq<char>,
    pub date: Seq<char>,
}

impl View for ChatMessage {
    type V = ChatMessageModel;

    open spec fn view(&self) -> ChatMessageModel {
        ChatMessageModel {
            peer: self.peer@,
            from: self.from@,
            text: self.text@,
            date: self.date@,
        }
    }
}

/// What contacts say.
pub open spec fn contacts_of(s: Seq<Contact>) -> Seq<ContactModel> {
    s.map_values(|c: Contact| c@)
}

/// What messages say.
pub open spec fn messages_of(s: Seq<ChatMessage>) -> Seq<ChatMessageModel> {
    s.map_values(|m: ChatMessage| m@)
}

// ---------------------------------------------------------------------------
// The tree of a set of contacts and messages
// ---------------------------------------------------------------------------

/// The text of a card.
pub open spec fn card_text(c: ContactModel) -> Seq<char> {
    "name: "@ + c.name + "\nusername: "@ + c.username + "\n"@
}

/// The text of a day in a conversation: a line for each of its messages, in
/// the order of the messages.
pub open spec fn day_text(ms: Seq<ChatMessageModel>, peer: Seq<char>, date: Seq<char>) -> Seq<char>
    decreases ms.len(),
{
    if ms.len() == 0 {
        Seq::empty()
    } else {
        let m = ms.last();
        let before = day_text(ms.drop_last(), peer, date);
        if m.peer == peer && m.date == date {
            before + m.from + ": "@ + m.text + "\n"@
        } else {
            before
        }
    }
}

/// A name that cannot name a file.
pub open spec fn has_slash(name: Seq<char>) -> bool {
    exists|i: int| 0 <= i < name.len() && name[i] == '/'
}

/// The tree with one more card. A name with a slash is an error.
pub open spec fn add_card(fs: FsModel, c: ContactModel) -> Result<FsModel, FsErrorModel> {
    let path = card_path(c.name);
    let (r, g) = write_model(fs, path, encode_utf8(card_text(c)));
    match r {
        Err(e) => Err(e),
        Ok(_) => if has_slash(c.name) {
            Err(FsErrorModel::InvalidPath { path })
        } else {
            Ok(g)
        },
    }
}

/// The tree with more cards.
pub open spec fn add_cards(fs: FsModel, cs: Seq<ContactModel>) -> Result<FsModel, FsErrorModel>
    decreases cs.len(),
{
    if cs.len() == 0 {
        Ok(fs)
    } else {
        match add_card(fs, cs[0]) {
            Err(e) => Err(e),
            Ok(g) => add_cards(g, cs.skip(1)),
        }
    }
}

/// The tree with the directory of a conversation.
pub open spec fn with_peer_dir(fs: FsModel, peer: Seq<char>) -> Result<FsModel, FsErrorModel> {
    if lookup_model(fs, peer_path(peer)) is Err {
        let (r, g) = mkdir_model(fs, peer_path(peer));
        match r {
            Err(e) => Err(e),
            Ok(_) => Ok(g),
        }
    } else {
        Ok(fs)
    }
}

/// The tree with one more log. A name with a slash is an error.
pub open spec fn add_day(fs: FsModel, ms: Seq<ChatMessageModel>, day: (Seq<char>, Seq<char>)) -> Result<
    FsModel,
    FsErrorModel,
> {
    match with_peer_dir(fs, day.0) {
        Err(e) => Err(e),
        Ok(g) => {
            let path = log_path(day.0, day.1);
            let (r, h) = write_model(g, path, encode_utf8(day_text(ms, day.0, day.1)));
            match r {
                Err(e) => Err(e),
                Ok(_) => if has_slash(day.0) || has_slash(day.1) {
                    Err(FsErrorModel::InvalidPath { path })
                } else {
                    Ok(h)
                },
            }
        },
    }
}

/// The tree with more logs.
pub open spec fn add_days(
    fs: FsModel,
    ms: Seq<ChatMessageModel>,
    days: Seq<(Seq<char>, Seq<char>)>,
) -> Result<FsModel, FsErrorModel>
    decreases days.len(),
{
    if days.len() == 0 {
        Ok(fs)
    } else {
        match add_day(fs, ms, days[0]) {
            Err(e) => Err(e),
            Ok(g) => add_days(g, ms, days.skip(1)),
        }
    }
}

/// By conversation first, by day second.
pub open spec fn day_less(a: (Seq<char>, Seq<char>), b: (Seq<char>, Seq<char>)) -> bool {
    text_less(a.0, b.0) || (a.0 == b.0 && text_less(a.1, b.1))
}

/// Message `i` belongs to this conversation and day.
pub open spec fn sent_on(ms: Seq<ChatMessageModel>, i: int, d: (Seq<char>, Seq<char>)) -> bool {
    0 <= i < ms.len() && ms[i].peer == d.0 && ms[i].date == d.1
}

/// The conversation has a message on this day.
pub open spec fn has_messages(ms: Seq<ChatMessageModel>, d: (Seq<char>, Seq<char>)) -> bool {
    exists|i: int| sent_on(ms, i, d)
}

/// `days` are the days on which the conversations have messages, each once, in
/// order.
pub open spec fn are_days(days: Seq<(Seq<char>, Seq<char>)>, ms: Seq<ChatMessageModel>) -> bool {
    &&& forall|a: int, b: int|
        0 <= a < b < days.len() ==> day_less(#[trigger] days[a], #[trigger] days[b])
    &&& forall|i: int|
        0 <= i < ms.len() ==> days.contains(((#[trigger] ms[i]).peer, ms[i].date))
    &&& forall|a: int|
        0 <= a < days.len() ==> has_messages(ms, #[trigger] days[a])
}

/// The tree with nothing but the three top directories.
pub open spec fn top_dirs() -> FsModel {
    let f1 = mkdir_model(empty_fs(), CONTACTS_DIR@).1;
    let f2 = mkdir_model(f1, HISTORY_DIR@).1;
    mkdir_model(f2, FILES_DIR@).1
}

/// The tree of contacts and messages.
pub open spec fn view_model(
    cs: Seq<ContactModel>,
    ms: Seq<ChatMessageModel>,
    days: Seq<(Seq<char>, Seq<char>)>,
) -> Result<FsModel, FsErrorModel> {
    match add_cards(top_dirs(), cs) {
        Err(e) => Err(e),
        Ok(g) => add_days(g, ms, days),
    }
}

proof fn lemma_day_less_strict(a: (Seq<char>, Seq<char>), b: (Seq<char>, Seq<char>))
    ensures
        day_less(a, b) ==> a != b && !day_less(b, a),
{
    lemma_text_less_strict(a.0, b.0);
    lemma_text_less_strict(b.0, a.0);
    lemma_text_less_strict(a.1, b.1);
    lemma_text_less_strict(b.1, a.1);
}

proof fn lemma_day_less_transitive(
    a: (Seq<char>, Seq<char>),
    b: (Seq<char>, Seq<char>),
    c: (Seq<char>, Seq<char>),
)
    requires
        day_less(a, b),
        day_less(b, c),
    ensures
        day_less(a, c),
{
    if text_less(a.0, b.0) && text_less(b.0, c.0) {
        lemma_text_less_transitive(a.0, b.0, c.0);
    } else if a.0 == b.0 && b.0 == c.0 {
        lemma_text_less_transitive(a.1, b.1, c.1);
    }
}

/// The first `n` days of one account are those of the other.
proof fn lemma_days_prefix(
    a: Seq<(Seq<char>, Seq<char>)>,
    b: Seq<(Seq<char>, Seq<char>)>,
    ms: Seq<ChatMessageModel>,
    n: nat,
)
    requires
        are_days(a, ms),
        are_days(b, ms),
        n <= a.len(),
    ensures
        n <= b.len(),
        forall|k: int| 0 <= k < n ==> a[k] == b[k],
    decreases n,
{
    if n > 0 {
        lemma_days_prefix(a, b, ms, (n - 1) as nat);
        let m = n - 1;
        let x = a[m];
        assert(has_messages(ms, a[m]));
        let i = choose|i: int| sent_on(ms, i, x);
        assert(b.contains((ms[i].peer, ms[i].date)));
        let q = choose|q: int| 0 <= q < b.len() && b[q] == x;
        if q < m {
            assert(a[q] == b[q]);
            lemma_day_less_strict(a[q], a[m]);
        }
        let y = b[m];
        assert(has_messages(ms, b[m]));
        let j = choose|j: int| sent_on(ms, j, y);
        assert(a.contains((ms[j].peer, ms[j].date)));
        let p = choose|p: int| 0 <= p < a.len() && a[p] == y;
        if p < m {
            assert(a[p] == b[p]);
            lemma_day_less_strict(b[p], b[m]);
        }
        if q > m {
            lemma_day_less_strict(b[m], b[q]);
        }
        if p > m {
            lemma_day_less_strict(a[m], a[p]);
        }
    }
}

/// The same contacts and messages always give the same tree.
pub proof fn law_view_is_determined(
    cs: Seq<ContactModel>,
    ms: Seq<ChatMessageModel>,
    a: Seq<(Seq<char>, Seq<char>)>,
    b: Seq<(Seq<char>, Seq<char>)>,
)
    requires
        are_days(a, ms),
        are_days(b, ms),
    ensures
        a == b,
        view_model(cs, ms, a) == view_model(cs, ms, b),
{
    lemma_days_prefix(a, b, ms, a.len());
    lemma_days_prefix(b, a, ms, b.len());
    assert(a =~= b);
}

// ---------------------------------------------------------------------------
// What the tree holds
// ---------------------------------------------------------------------------

/// The names that lead to a card.
pub open spec fn card_names(name: Seq<char>) -> Seq<Seq<char>> {
    seq!["contacts"@, name + ".txt"@]
}

/// The names that lead to the directory of a conversation. A conversation
/// without a name stands in the directory of all of them.
pub open spec fn peer_names(peer: Seq<char>) -> Seq<Seq<char>> {
    if peer.len() == 0 {
        seq!["history"@]
    } else {
        seq!["history"@, peer]
    }
}

/// The names that lead to a log.
pub open spec fn log_names(day: (Seq<char>, Seq<char>)) -> Seq<Seq<char>> {
    peer_names(day.0).push(day.1 + ".log"@)
}

/// The names lead to the root or to a top directory.
pub open spec fn is_top(names: Seq<Seq<char>>) -> bool {
    names.len() == 0 || names == seq!["contacts"@] || names == seq!["files"@] || names
        == seq!["history"@]
}

/// Something of these contacts and days stands behind the names.
pub open spec fn in_view(
    cs: Seq<ContactModel>,
    days: Seq<(Seq<char>, Seq<char>)>,
    names: Seq<Seq<char>>,
) -> bool {
    ||| is_top(names)
    ||| exists|i: int| 0 <= i < cs.len() && card_names((#[trigger] cs[i]).name) == names
    ||| in_days(days, names)
}

/// A log of these days, or its directory, stands behind the names.
pub open spec fn in_days(days: Seq<(Seq<char>, Seq<char>)>, names: Seq<Seq<char>>) -> bool {
    exists|k: int|
        0 <= k < days.len() && (peer_names((#[trigger] days[k]).0) == names || log_names(days[k])
            == names)
}

/// No later contact has the same name.
pub open spec fn last_of_name(cs: Seq<ContactModel>, i: int) -> bool {
    0 <= i < cs.len() && forall|j: int| i < j < cs.len() ==> (#[trigger] cs[j]).name != cs[i].name
}

proof fn lemma_top_components()
    ensures
        components(CONTACTS_DIR@) == seq!["contacts"@],
        components(HISTORY_DIR@) == seq!["history"@],
        components(FILES_DIR@) == seq!["files"@],
        "contacts"@ != "history"@,
        "contacts"@ != "files"@,
        "history"@ != "files"@,
{
    reveal_strlit("/contacts");
    reveal_strlit("/history");
    reveal_strlit("/files");
    reveal_strlit("contacts");
    reveal_strlit("history");
    reveal_strlit("files");
    assert("/contacts"@ =~= seq!['/'] + "contacts"@);
    lemma_top_name("/contacts"@, "contacts"@);
    assert("/history"@ =~= seq!['/'] + "history"@);
    lemma_top_name("/history"@, "history"@);
    assert("/files"@ =~= seq!['/'] + "files"@);
    lemma_top_name("/files"@, "files"@);
    assert("contacts"@[0] != "history"@[0]);
    assert("contacts"@[0] != "files"@[0]);
    assert("history"@[0] != "files"@[0]);
}

proof fn lemma_card_names(name: Seq<char>)
    requires
        !has_slash(name),
    ensures
        components(card_path(name)) == card_names(name),
{
    lemma_top_components();
    reveal_strlit("/");
    reveal_strlit(".txt");
    let last = name + ".txt"@;
    assert(card_path(name) =~= CONTACTS_DIR@ + seq!['/'] + last);
    law_slash_separates(CONTACTS_DIR@, last);
    assert forall|i: int| 0 <= i < last.len() implies last[i] != '/' by {
        if i < name.len() {
            assert(last[i] == name[i]);
        } else {
            assert(last[i] == ".txt"@[i - name.len()]);
        }
    }
    lemma_single_component(last);
    assert(seq!["contacts"@] + seq![last] =~= card_names(name));
}

proof fn lemma_day_names(peer: Seq<char>, date: Seq<char>)
    requires
        !has_slash(peer),
        !has_slash(date),
    ensures
        components(peer_path(peer)) == peer_names(peer),
        components(log_path(peer, date)) == log_names((peer, date)),
        log_names((peer, date)).drop_last() == peer_names(peer),
{
    lemma_top_components();
    reveal_strlit("/");
    reveal_strlit(".log");
    assert("/"@ =~= seq!['/']);
    law_slash_separates(HISTORY_DIR@, peer);
    if peer.len() == 0 {
        assert(components(peer) =~= Seq::<Seq<char>>::empty());
    } else {
        assert forall|i: int| 0 <= i < peer.len() implies peer[i] != '/' by {}
        lemma_single_component(peer);
    }
    assert(components(peer_path(peer)) =~= peer_names(peer));
    let last = date + ".log"@;
    assert forall|i: int| 0 <= i < last.len() implies last[i] != '/' by {
        if i < date.len() {
            assert(last[i] == date[i]);
        } else {
            assert(last[i] == ".log"@[i - date.len()]);
        }
    }
    assert(log_path(peer, date) =~= peer_path(peer) + seq!['/'] + last);
    law_slash_separates(peer_path(peer), last);
    lemma_single_component(last);
    assert(peer_names(peer) + seq![last] =~= log_names((peer, date)));
    assert(log_names((peer, date)).drop_last() =~= peer_names(peer));
}

/// Two days have two logs.
proof fn lemma_log_names_differ(a: (Seq<char>, Seq<char>), b: (Seq<char>, Seq<char>))
    requires
        log_names(a) == log_names(b),
    ensures
        a == b,
{
    let n = log_names(a);
    assert(n.last() == a.1 + ".log"@);
    assert(n.last() == b.1 + ".log"@);
    assert(n.last().take(n.last().len() - ".log"@.len()) =~= a.1);
    assert(n.last().take(n.last().len() - ".log"@.len()) =~= b.1);
    assert(n.drop_last() =~= peer_names(a.0));
    assert(n.drop_last() =~= peer_names(b.0));
    if a.0.len() == 0 {
        assert(b.0.len() == 0);
        assert(a.0 =~= b.0);
    } else {
        assert(n[1] == a.0 && n[1] == b.0);
    }
}

/// Two names have two cards.
proof fn lemma_card_names_differ(a: Seq<char>, b: Seq<char>)
    requires
        card_names(a) == card_names(b),
    ensures
        a == b,
{
    let x = card_names(a)[1];
    assert(x == b + ".txt"@);
    assert(x.take(x.len() - ".txt"@.len()) =~= a);
    assert(x.take(x.len() - ".txt"@.len()) =~= b);
}

proof fn lemma_cards_at(fs: FsModel, cs: Seq<ContactModel>, names: Seq<Seq<char>>)
    requires
        fs_wf(fs),
        fs.next + cs.len() <= u64::MAX,
        add_cards(fs, cs) is Ok,
    ensures
        ({
            let g = add_cards(fs, cs)->Ok_0;
            &&& fs_wf(g)
            &&& g.next <= fs.next + cs.len()
            &&& forall|i: int| 0 <= i < cs.len() ==> !has_slash((#[trigger] cs[i]).name)
            &&& at(fs, names) is Some ==> at(g, names) is Some
            &&& (forall|i: int| 0 <= i < cs.len() ==> card_names((#[trigger] cs[i]).name) != names)
                ==> at(g, names) == at(fs, names)
            &&& forall|i: int|
                0 <= i < cs.len() && card_names((#[trigger] cs[i]).name) == names ==> at(
                    g,
                    names,
                ) is Some
            &&& forall|i: int|
                #[trigger] last_of_name(cs, i) && card_names(cs[i].name) == names ==> at(g, names)
                    == Some(NodeAt::File(encode_utf8(card_text(cs[i]))))
        }),
    decreases cs.len(),
{
    if cs.len() > 0 {
        let c = cs[0];
        let rest = cs.skip(1);
        let h = add_card(fs, c)->Ok_0;
        let data = encode_utf8(card_text(c));
        lemma_card_names(c.name);
        lemma_next_grows(fs, card_path(c.name), data);
        lemma_at_write(fs, card_path(c.name), data, names);
        lemma_cards_at(h, rest, names);
        let g = add_cards(fs, cs)->Ok_0;
        assert forall|i: int| 0 <= i < cs.len() implies !has_slash((#[trigger] cs[i]).name) by {
            if i > 0 {
                assert(rest[i - 1] == cs[i]);
            }
        }
        assert forall|i: int|
            0 <= i < cs.len() && card_names((#[trigger] cs[i]).name) == names implies at(
            g,
            names,
        ) is Some by {
            if i > 0 {
                assert(rest[i - 1] == cs[i]);
            }
        }
        assert forall|i: int|
            #[trigger] last_of_name(cs, i) && card_names(cs[i].name) == names implies at(g, names)
            == Some(NodeAt::File(encode_utf8(card_text(cs[i])))) by {
            if i > 0 {
                assert(rest[i - 1] == cs[i]);
                assert forall|j: int| i - 1 < j < rest.len() implies (#[trigger] rest[j]).name
                    != rest[i - 1].name by {
                    assert(rest[j] == cs[j + 1]);
                }
                assert(last_of_name(rest, i - 1));
            } else {
                assert forall|j: int| 0 <= j < rest.len() implies card_names(
                    (#[trigger] rest[j]).name,
                ) != names by {
                    assert(rest[j] == cs[j + 1]);
                    if card_names(rest[j].name) == names {
                        lemma_card_names_differ(rest[j].name, cs[i].name);
                    }
                }
            }
        }
    }
}

proof fn lemma_day_at(
    fs: FsModel,
    ms: Seq<ChatMessageModel>,
    day: (Seq<char>, Seq<char>),
    names: Seq<Seq<char>>,
)
    requires
        fs_wf(fs),
        fs.next + 2 <= u64::MAX,
        add_day(fs, ms, day) is Ok,
    ensures
        ({
            let h = add_day(fs, ms, day)->Ok_0;
            &&& fs_wf(h)
            &&& h.next <= fs.next + 2
            &&& !has_slash(day.0)
            &&& !has_slash(day.1)
            &&& at(fs, peer_names(day.0)) !is Some || at(fs, peer_names(day.0))->0 is Directory
            &&& at(fs, log_names(day)) !is Some || at(fs, log_names(day))->0 is File
            &&& at(h, names) == if names == log_names(day) {
                Some(NodeAt::File(encode_utf8(day_text(ms, day.0, day.1))))
            } else if names == peer_names(day.0) {
                Some(NodeAt::Directory)
            } else {
                at(fs, names)
            }
        }),
{
    lemma_day_names(day.0, day.1);
    let up = peer_path(day.0);
    let path = log_path(day.0, day.1);
    let data = encode_utf8(day_text(ms, day.0, day.1));
    let g = with_peer_dir(fs, day.0)->Ok_0;
    if lookup_model(fs, up) is Err {
        lemma_next_grows(fs, up, data);
        lemma_at_mkdir(fs, up, names);
        lemma_at_mkdir(fs, up, peer_names(day.0));
        lemma_at_mkdir(fs, up, log_names(day));
    }
    lemma_next_grows(g, path, data);
    lemma_at_write(g, path, data, names);
}

proof fn lemma_days_at(
    fs: FsModel,
    ms: Seq<ChatMessageModel>,
    days: Seq<(Seq<char>, Seq<char>)>,
    names: Seq<Seq<char>>,
)
    requires
        fs_wf(fs),
        fs.next + 2 * days.len() <= u64::MAX,
        add_days(fs, ms, days) is Ok,
        forall|a: int, b: int| 0 <= a < b < days.len() ==> #[trigger] days[a] != #[trigger] days[b],
    ensures
        ({
            let g = add_days(fs, ms, days)->Ok_0;
            &&& fs_wf(g)
            &&& forall|k: int|
                0 <= k < days.len() ==> !has_slash((#[trigger] days[k]).0) && !has_slash(days[k].1)
            &&& at(fs, names) is Some || in_days(days, names) ==> at(g, names) is Some
            &&& at(fs, names) == Some(NodeAt::Directory) ==> at(g, names) == Some(NodeAt::Directory)
            &&& forall|k: int|
                0 <= k < days.len() && peer_names((#[trigger] days[k]).0) == names ==> at(g, names)
                    == Some(NodeAt::Directory)
            &&& !in_days(days, names) ==> at(g, names) == at(fs, names)
            &&& at(fs, names) is Some && at(fs, names)->0 is File && (forall|k: int|
                0 <= k < days.len() ==> log_names(#[trigger] days[k]) != names) ==> at(g, names)
                == at(fs, names)
            &&& forall|k: int|
                0 <= k < days.len() && log_names(#[trigger] days[k]) == names ==> at(g, names)
                    == Some(NodeAt::File(encode_utf8(day_text(ms, days[k].0, days[k].1))))
        }),
    decreases days.len(),
{
    if days.len() > 0 {
        let d = days[0];
        let rest = days.skip(1);
        let h = add_day(fs, ms, d)->Ok_0;
        lemma_day_at(fs, ms, d, names);
        assert forall|a: int, b: int| 0 <= a < b < rest.len() implies #[trigger] rest[a]
            != #[trigger] rest[b] by {
            assert(rest[a] == days[a + 1] && rest[b] == days[b + 1]);
        }
        lemma_days_at(h, ms, rest, names);
        let g = add_days(fs, ms, days)->Ok_0;
        assert forall|k: int| 0 <= k < days.len() implies !has_slash((#[trigger] days[k]).0)
            && !has_slash(days[k].1) by {
            if k > 0 {
                assert(rest[k - 1] == days[k]);
            }
        }
        if in_days(rest, names) {
            let k = choose|k: int|
                0 <= k < rest.len() && (peer_names((#[trigger] rest[k]).0) == names || log_names(
                    rest[k],
                ) == names);
            assert(days[k + 1] == rest[k]);
        }
        if in_days(days, names) {
            let k = choose|k: int|
                0 <= k < days.len() && (peer_names((#[trigger] days[k]).0) == names || log_names(
                    days[k],
                ) == names);
            if k > 0 {
                assert(rest[k - 1] == days[k]);
                assert(in_days(rest, names));
            }
        }
        if forall|k: int| 0 <= k < days.len() ==> log_names(#[trigger] days[k]) != names {
            assert forall|k: int| 0 <= k < rest.len() implies log_names(#[trigger] rest[k])
                != names by {
                assert(rest[k] == days[k + 1]);
            }
        }
        assert forall|k: int|
            0 <= k < days.len() && peer_names((#[trigger] days[k]).0) == names implies at(g, names)
            == Some(NodeAt::Directory) by {
            if k > 0 {
                assert(rest[k - 1] == days[k]);
            } else {
                assert(names.len() < log_names(d).len());
            }
        }
        assert forall|k: int|
            0 <= k < days.len() && log_names(#[trigger] days[k]) == names implies at(g, names)
            == Some(NodeAt::File(encode_utf8(day_text(ms, days[k].0, days[k].1)))) by {
            if k > 0 {
                assert(rest[k - 1] == days[k]);
            } else {
                assert forall|j: int| 0 <= j < rest.len() implies log_names(#[trigger] rest[j])
                    != names by {
                    assert(rest[j] == days[j + 1]);
                    if log_names(rest[j]) == names {
                        lemma_log_names_differ(rest[j], days[k]);
                    }
                }
            }
        }
    }
}

/// There are no more days than messages.
proof fn lemma_few_days(days: Seq<(Seq<char>, Seq<char>)>, ms: Seq<ChatMessageModel>)
    requires
        are_days(days, ms),
    ensures
        days.len() <= ms.len(),
        forall|a: int, b: int| 0 <= a < b < days.len() ==> #[trigger] days[a] != #[trigger] days[b],
{
    assert forall|a: int, b: int| 0 <= a < b < days.len() implies #[trigger] days[a]
        != #[trigger] days[b] by {
        lemma_day_less_strict(days[a], days[b]);
    }
    let sent = ms.map_values(|m: ChatMessageModel| (m.peer, m.date));
    days.unique_seq_to_set();
    sent.lemma_cardinality_of_set();
    assert forall|d: (Seq<char>, Seq<char>)| days.to_set().contains(d) implies sent.to_set().contains(
        d,
    ) by {
        let k = choose|k: int| 0 <= k < days.len() && days[k] == d;
        assert(has_messages(ms, days[k]));
        let i = choose|i: int| sent_on(ms, i, d);
        assert(sent[i] == d);
    }
    vstd::set_lib::lemma_len_subset(days.to_set(), sent.to_set());
}

/// What stands in the three top directories alone.
proof fn lemma_top_at(names: Seq<Seq<char>>)
    ensures
        fs_wf(top_dirs()),
        top_dirs().next == 5,
        at(top_dirs(), names) == if is_top(names) {
            Some(NodeAt::Directory)
        } else {
            None
        },
{
    lemma_top_dirs();
    lemma_top_components();
    let f0 = empty_fs();
    let f1 = mkdir_model(f0, CONTACTS_DIR@).1;
    let f2 = mkdir_model(f1, HISTORY_DIR@).1;
    assert(fs_wf(f0));
    lemma_at_mkdir(f0, CONTACTS_DIR@, names);
    lemma_at_mkdir(f1, HISTORY_DIR@, names);
    lemma_at_mkdir(f2, FILES_DIR@, names);
    assert(f0.nodes[ROOT_INO].children =~= Map::<Seq<char>, u64>::empty());
}

proof fn lemma_view_at(
    cs: Seq<ContactModel>,
    ms: Seq<ChatMessageModel>,
    days: Seq<(Seq<char>, Seq<char>)>,
    names: Seq<Seq<char>>,
)
    requires
        are_days(days, ms),
        cs.len() + 2 * ms.len() < u64::MAX - 5,
        view_model(cs, ms, days) is Ok,
    ensures
        ({
            let fs = view_model(cs, ms, days)->Ok_0;
            &&& fs_wf(fs)
            &&& forall|i: int| 0 <= i < cs.len() ==> !has_slash((#[trigger] cs[i]).name)
            &&& forall|k: int|
                0 <= k < days.len() ==> !has_slash((#[trigger] days[k]).0) && !has_slash(days[k].1)
            &&& at(fs, names) is Some <==> in_view(cs, days, names)
            &&& forall|i: int|
                #[trigger] last_of_name(cs, i) && card_names(cs[i].name) == names ==> at(fs, names)
                    == Some(NodeAt::File(encode_utf8(card_text(cs[i]))))
            &&& forall|k: int|
                0 <= k < days.len() && log_names(#[trigger] days[k]) == names ==> at(fs, names)
                    == Some(NodeAt::File(encode_utf8(day_text(ms, days[k].0, days[k].1))))
            &&& is_top(names) ==> at(fs, names) == Some(NodeAt::Directory)
            &&& forall|k: int|
                0 <= k < days.len() && peer_names((#[trigger] days[k]).0) == names ==> at(fs, names)
                    == Some(NodeAt::Directory)
        }),
{
    lemma_few_days(days, ms);
    lemma_top_at(names);
    lemma_top_components();
    let g = add_cards(top_dirs(), cs)->Ok_0;
    lemma_cards_at(top_dirs(), cs, names);
    lemma_days_at(g, ms, days, names);
    let fs = view_model(cs, ms, days)->Ok_0;
    assert forall|i: int| #[trigger]
        last_of_name(cs, i) && card_names(cs[i].name) == names implies at(fs, names) == Some(
        NodeAt::File(encode_utf8(card_text(cs[i]))),
    ) by {
        assert(names[0] == "contacts"@);
        assert forall|k: int| 0 <= k < days.len() implies peer_names((#[trigger] days[k]).0)
            != names && log_names(days[k]) != names by {
            assert(peer_names(days[k].0)[0] == "history"@);
            assert(log_names(days[k])[0] == "history"@);
        }
    }
    if is_top(names) {
        assert forall|i: int| 0 <= i < cs.len() implies card_names((#[trigger] cs[i]).name)
            != names by {
            assert(card_names(cs[i].name).len() == 2);
        }
    }
}

/// Nothing stands where a card, a conversation or a log could not be put.
spec fn shelf(fs: FsModel) -> bool {
    &&& at(fs, seq!["contacts"@]) == Some(NodeAt::Directory)
    &&& at(fs, seq!["history"@]) == Some(NodeAt::Directory)
    &&& forall|name: Seq<char>|
        at(fs, #[trigger] card_names(name)) != Some(NodeAt::Directory)
    &&& forall|peer: Seq<char>|
        plain(peer) ==> at(fs, #[trigger] peer_names(peer)) is None || at(fs, peer_names(peer))
            == Some(NodeAt::Directory)
    &&& forall|day: (Seq<char>, Seq<char>)|
        plain(day.0) ==> at(fs, #[trigger] log_names(day)) != Some(NodeAt::Directory)
}

proof fn lemma_names_differ(name: Seq<char>, peer: Seq<char>, day: (Seq<char>, Seq<char>))
    ensures
        card_names(name) != peer_names(peer),
        card_names(name) != log_names(day),
        card_names(name) != seq!["contacts"@],
        card_names(name) != seq!["history"@],
        plain(peer) ==> peer_names(peer) != seq!["contacts"@],
        plain(peer) && plain(day.0) ==> peer_names(peer) != log_names(day),
        plain(peer) ==> peer_names(peer) != seq!["history"@],
        log_names(day) != seq!["contacts"@],
        log_names(day) != seq!["history"@],
{
    lemma_top_components();
    assert(card_names(name)[0] == "contacts"@);
    assert(peer_names(peer)[0] == "history"@);
    assert(log_names(day)[0] == "history"@);
    assert(card_names(name).len() == 2);
    assert(log_names(day).len() >= 2);
    assert(seq!["contacts"@].len() == 1 && seq!["history"@].len() == 1);
    assert(plain(peer) ==> peer_names(peer).len() == 2);
    assert(plain(day.0) ==> log_names(day).len() == 3);
}

proof fn lemma_cards_fit(fs: FsModel, cs: Seq<ContactModel>)
    requires
        fs_wf(fs),
        shelf(fs),
        fs.next + cs.len() <= u64::MAX,
        forall|i: int| 0 <= i < cs.len() ==> !has_slash((#[trigger] cs[i]).name),
    ensures
        add_cards(fs, cs) is Ok,
        ({
            let g = add_cards(fs, cs)->Ok_0;
            fs_wf(g) && shelf(g) && g.next <= fs.next + cs.len()
        }),
    decreases cs.len(),
{
    if cs.len() > 0 {
        let c = cs[0];
        let path = card_path(c.name);
        let data = encode_utf8(card_text(c));
        lemma_card_names(c.name);
        law_when_a_change_goes_well(fs, path, data);
        assert(card_names(c.name).drop_last() =~= seq!["contacts"@]);
        let g = write_model(fs, path, data).1;
        lemma_next_grows(fs, path, data);
        assert forall|names: Seq<Seq<char>>| #[trigger] at(g, names) == if names == card_names(
            c.name,
        ) {
            Some(NodeAt::File(data))
        } else {
            at(fs, names)
        } by {
            lemma_at_write(fs, path, data, names);
        }
        lemma_at_write(fs, path, data, card_names(c.name));
        lemma_names_differ(c.name, Seq::empty(), (Seq::empty(), Seq::empty()));
        assert forall|peer: Seq<char>| plain(peer) implies at(g, #[trigger] peer_names(peer)) is None
            || at(g, peer_names(peer)) == Some(NodeAt::Directory) by {
            lemma_names_differ(c.name, peer, (peer, peer));
        }
        assert forall|day: (Seq<char>, Seq<char>)| plain(day.0) implies at(
            g,
            #[trigger] log_names(day),
        ) != Some(NodeAt::Directory) by {
            lemma_names_differ(c.name, day.0, day);
        }
        let rest = cs.skip(1);
        assert forall|i: int| 0 <= i < rest.len() implies !has_slash((#[trigger] rest[i]).name) by {
            assert(rest[i] == cs[i + 1]);
        }
        lemma_cards_fit(g, rest);
    }
}

proof fn lemma_day_fits(fs: FsModel, ms: Seq<ChatMessageModel>, day: (Seq<char>, Seq<char>))
    requires
        fs_wf(fs),
        shelf(fs),
        fs.next + 2 <= u64::MAX,
        plain(day.0),
        !has_slash(day.0),
        !has_slash(day.1),
    ensures
        add_day(fs, ms, day) is Ok,
        fs_wf(add_day(fs, ms, day)->Ok_0),
        shelf(add_day(fs, ms, day)->Ok_0),
        add_day(fs, ms, day)->Ok_0.next <= fs.next + 2,
{
    let up = peer_path(day.0);
    let path = log_path(day.0, day.1);
    let data = encode_utf8(day_text(ms, day.0, day.1));
    lemma_day_names(day.0, day.1);
    law_when_a_change_goes_well(fs, up, data);
    law_what_stands_at_a_path_is_read(fs, up);
    assert(peer_names(day.0).drop_last() =~= seq!["history"@]);
    assert(at(fs, peer_names(day.0)) is None || at(fs, peer_names(day.0)) == Some(
        NodeAt::Directory,
    ));
    let g = with_peer_dir(fs, day.0)->Ok_0;
    lemma_next_grows(fs, up, data);
    if lookup_model(fs, up) is Err {
        lemma_at_mkdir(fs, up, peer_names(day.0));
        lemma_at_mkdir(fs, up, log_names(day));
    }
    lemma_names_differ(Seq::empty(), day.0, day);
    assert(at(fs, log_names(day)) != Some(NodeAt::Directory));
    law_when_a_change_goes_well(g, path, data);
    lemma_next_grows(g, path, data);
    let h = add_day(fs, ms, day)->Ok_0;
    assert forall|names: Seq<Seq<char>>| #[trigger] at(h, names) == if names == log_names(day) {
        Some(NodeAt::File(data))
    } else if names == peer_names(day.0) {
        Some(NodeAt::Directory)
    } else {
        at(fs, names)
    } by {
        lemma_day_at(fs, ms, day, names);
    }
    lemma_day_at(fs, ms, day, log_names(day));
    assert forall|name: Seq<char>| at(h, #[trigger] card_names(name)) != Some(
        NodeAt::Directory,
    ) by {
        lemma_names_differ(name, day.0, day);
    }
    assert forall|peer: Seq<char>| plain(peer) implies at(h, #[trigger] peer_names(peer)) is None
        || at(h, peer_names(peer)) == Some(NodeAt::Directory) by {
        lemma_names_differ(Seq::empty(), peer, day);
    }
    assert forall|other: (Seq<char>, Seq<char>)| plain(other.0) implies at(
        h,
        #[trigger] log_names(other),
    ) != Some(NodeAt::Directory) by {
        lemma_names_differ(Seq::empty(), day.0, other);
    }
}

proof fn lemma_days_fit(
    fs: FsModel,
    ms: Seq<ChatMessageModel>,
    days: Seq<(Seq<char>, Seq<char>)>,
)
    requires
        fs_wf(fs),
        shelf(fs),
        fs.next + 2 * days.len() <= u64::MAX,
        forall|k: int|
            0 <= k < days.len() ==> plain((#[trigger] days[k]).0) && !has_slash(days[k].1),
    ensures
        add_days(fs, ms, days) is Ok,
    decreases days.len(),
{
    if days.len() > 0 {
        let d = days[0];
        assert(!has_slash(d.0));
        lemma_day_fits(fs, ms, d);
        let rest = days.skip(1);
        assert forall|k: int| 0 <= k < rest.len() implies plain((#[trigger] rest[k]).0)
            && !has_slash(rest[k].1) by {
            assert(rest[k] == days[k + 1]);
        }
        lemma_days_fit(add_day(fs, ms, d)->Ok_0, ms, rest);
    }
}

/// Contacts and messages can be shown as files whenever their names can name files:
/// no name holds a slash, and every conversation has a name. A slash in a name is an
/// error.
pub proof fn law_names_without_slashes_are_shown(
    cs: Seq<ContactModel>,
    ms: Seq<ChatMessageModel>,
    days: Seq<(Seq<char>, Seq<char>)>,
)
    requires
        are_days(days, ms),
        cs.len() + 2 * ms.len() < u64::MAX - 5,
    ensures
        (forall|i: int| 0 <= i < cs.len() ==> !has_slash((#[trigger] cs[i]).name)) && (forall|i: int|
            0 <= i < ms.len() ==> plain((#[trigger] ms[i]).peer) && !has_slash(ms[i].date))
            ==> view_model(cs, ms, days) is Ok,
        (exists|i: int| 0 <= i < cs.len() && has_slash((#[trigger] cs[i]).name)) || (exists|i: int|
            0 <= i < ms.len() && (has_slash((#[trigger] ms[i]).peer) || has_slash(ms[i].date)))
            ==> view_model(cs, ms, days) is Err,
{
    lemma_few_days(days, ms);
    if (forall|i: int| 0 <= i < cs.len() ==> !has_slash((#[trigger] cs[i]).name)) && (forall|i: int|
        0 <= i < ms.len() ==> plain((#[trigger] ms[i]).peer) && !has_slash(ms[i].date)) {
        let top = top_dirs();
        assert forall|names: Seq<Seq<char>>| #[trigger] at(top, names) == if is_top(names) {
            Some(NodeAt::Directory)
        } else {
            None
        } by {
            lemma_top_at(names);
        }
        lemma_top_at(seq!["contacts"@]);
        assert(shelf(top)) by {
            assert forall|name: Seq<char>| at(top, #[trigger] card_names(name)) != Some(
                NodeAt::Directory,
            ) by {
                assert(card_names(name).len() == 2);
            }
            assert forall|day: (Seq<char>, Seq<char>)| plain(day.0) implies at(
                top,
                #[trigger] log_names(day),
            ) != Some(NodeAt::Directory) by {
                assert(log_names(day).len() == 3);
            }
            assert(at(top, seq!["contacts"@]) is Some && at(top, seq!["history"@]) is Some);
        }
        lemma_cards_fit(top, cs);
        assert forall|k: int| 0 <= k < days.len() implies plain((#[trigger] days[k]).0)
            && !has_slash(days[k].1) by {
            assert(has_messages(ms, days[k]));
            let i = choose|i: int| sent_on(ms, i, days[k]);
            assert(plain(ms[i].peer));
        }
        lemma_days_fit(add_cards(top, cs)->Ok_0, ms, days);
    }
    if view_model(cs, ms, days) is Ok {
        lemma_view_at(cs, ms, days, Seq::empty());
        assert forall|i: int| 0 <= i < ms.len() implies !has_slash((#[trigger] ms[i]).peer)
            && !has_slash(ms[i].date) by {
            assert(days.contains((ms[i].peer, ms[i].date)));
            let k = choose|k: int| 0 <= k < days.len() && days[k] == (ms[i].peer, ms[i].date);
            assert(!has_slash(days[k].0) && !has_slash(days[k].1));
        }
    }
}

/// The log of a day grows by the line of each message of that day, whatever came
/// before it, and by nothing else.
pub proof fn law_log_has_a_line_for_each_message(
    ms: Seq<ChatMessageModel>,
    m: ChatMessageModel,
    peer: Seq<char>,
    date: Seq<char>,
)
    ensures
        day_text(Seq::empty(), peer, date) == Seq::<char>::empty(),
        m.peer == peer && m.date == date ==> day_text(ms.push(m), peer, date) == day_text(
            ms,
            peer,
            date,
        ) + (m.from + ": "@ + m.text + "\n"@),
        m.peer != peer || m.date != date ==> day_text(ms.push(m), peer, date) == day_text(
            ms,
            peer,
            date,
        ),
{
    assert(ms.push(m).drop_last() =~= ms);
    assert(ms.push(m).last() == m);
    if m.peer == peer && m.date == date {
        assert(day_text(ms.push(m), peer, date) =~= day_text(ms, peer, date) + (m.from + ": "@
            + m.text + "\n"@));
    }
}

/// The log of messages in two parts is that of the first part and then that of the
/// second.
pub proof fn law_logs_join(
    a: Seq<ChatMessageModel>,
    b: Seq<ChatMessageModel>,
    peer: Seq<char>,
    date: Seq<char>,
)
    ensures
        day_text(a + b, peer, date) == day_text(a, peer, date) + day_text(b, peer, date),
    decreases b.len(),
{
    if b.len() == 0 {
        assert(a + b =~= a);
        assert(day_text(a, peer, date) + day_text(b, peer, date) =~= day_text(a, peer, date));
    } else {
        let c = b.drop_last();
        law_logs_join(a, c, peer, date);
        assert(c.push(b.last()) =~= b);
        assert((a + c).push(b.last()) =~= a + b);
        law_log_has_a_line_for_each_message(c, b.last(), peer, date);
        law_log_has_a_line_for_each_message(a + c, b.last(), peer, date);
        assert(day_text(a + b, peer, date) =~= day_text(a, peer, date) + day_text(b, peer, date));
    }
}

/// A card says who the contact is: two cards are alike only if the names and the
/// accounts are, where no name holds a line break.
pub proof fn law_card_tells_the_contact(a: ContactModel, b: ContactModel)
    requires
        card_text(a) == card_text(b),
        forall|i: int| 0 <= i < a.name.len() ==> a.name[i] != '\n',
        forall|i: int| 0 <= i < b.name.len() ==> b.name[i] != '\n',
    ensures
        a.name == b.name,
        a.username == b.username,
{
    reveal_strlit("name: ");
    reveal_strlit("\nusername: ");
    reveal_strlit("\n");
    let s = card_text(a);
    let n = a.name.len();
    let k = b.name.len();
    assert(s[6 + n as int] == '\n');
    assert(s[6 + k as int] == '\n') by {
        assert(card_text(b)[6 + k as int] == '\n');
    }
    assert forall|i: int| 0 <= i < n implies s[6 + i] == a.name[i] by {}
    assert forall|i: int| 0 <= i < k implies s[6 + i] == b.name[i] by {
        assert(card_text(b)[6 + i] == b.name[i]);
    }
    assert(n == k);
    assert(a.name =~= b.name);
    let from = 6 + n + 11;
    assert(s.len() == from + a.username.len() + 1);
    assert(card_text(b).len() == from + b.username.len() + 1);
    assert(s.subrange(from as int, s.len() - 1) =~= a.username);
    assert(card_text(b).subrange(from as int, s.len() - 1) =~= b.username);
}

/// What the tree of contacts and messages holds, and nothing else: the three
/// top directories, the card of each contact, the directory of each
/// conversation and its logs. Of two contacts with one name, the later one has
/// the card.
pub proof fn law_view_holds_its_data(
    cs: Seq<ContactModel>,
    ms: Seq<ChatMessageModel>,
    days: Seq<(Seq<char>, Seq<char>)>,
)
    requires
        are_days(days, ms),
        cs.len() + 2 * ms.len() < u64::MAX - 5,
        view_model(cs, ms, days) is Ok,
    ensures
        ({
            let fs = view_model(cs, ms, days)->Ok_0;
            &&& forall|path: Seq<char>| #[trigger]
                lookup_model(fs, path) is Ok <==> in_view(cs, days, components(path))
            &&& forall|path: Seq<char>|
                is_top(components(path)) ==> #[trigger] lookup_model(fs, path) is Ok
                    && lookup_model(fs, path)->Ok_0.kind is Directory
            &&& forall|i: int|
                #[trigger] last_of_name(cs, i) ==> read_model(fs, card_path(cs[i].name)) == Ok::<
                    Seq<u8>,
                    FsErrorModel,
                >(encode_utf8(card_text(cs[i])))
            &&& forall|k: int|
                0 <= k < days.len() ==> {
                    let (peer, date) = #[trigger] days[k];
                    &&& lookup_model(fs, peer_path(peer)) is Ok
                    &&& lookup_model(fs, peer_path(peer))->Ok_0.kind is Directory
                    &&& read_model(fs, log_path(peer, date)) == Ok::<Seq<u8>, FsErrorModel>(
                        encode_utf8(day_text(ms, peer, date)),
                    )
                }
        }),
{
    let fs = view_model(cs, ms, days)->Ok_0;
    assert forall|path: Seq<char>| #[trigger]
        lookup_model(fs, path) is Ok <==> in_view(cs, days, components(path)) by {
        lemma_view_at(cs, ms, days, components(path));
    }
    assert forall|path: Seq<char>| is_top(components(path)) implies #[trigger] lookup_model(
        fs,
        path,
    ) is Ok && lookup_model(fs, path)->Ok_0.kind is Directory by {
        lemma_view_at(cs, ms, days, components(path));
    }
    assert forall|i: int| #[trigger] last_of_name(cs, i) implies read_model(
        fs,
        card_path(cs[i].name),
    ) == Ok::<Seq<u8>, FsErrorModel>(encode_utf8(card_text(cs[i]))) by {
        lemma_view_at(cs, ms, days, card_names(cs[i].name));
        lemma_card_names(cs[i].name);
    }
    assert forall|k: int| 0 <= k < days.len() implies {
        let (peer, date) = #[trigger] days[k];
        &&& lookup_model(fs, peer_path(peer)) is Ok
        &&& lookup_model(fs, peer_path(peer))->Ok_0.kind is Directory
        &&& read_model(fs, log_path(peer, date)) == Ok::<Seq<u8>, FsErrorModel>(
            encode_utf8(day_text(ms, peer, date)),
        )
    } by {
        lemma_view_at(cs, ms, days, peer_names(days[k].0));
        lemma_view_at(cs, ms, days, log_names(days[k]));
        lemma_day_names(days[k].0, days[k].1);
    }
}

proof fn lemma_top_entries(
    cs: Seq<ContactModel>,
    days: Seq<(Seq<char>, Seq<char>)>,
    up: Seq<Seq<char>>,
    name: Seq<char>,
)
    requires
        up.len() == 0,
    ensures
        in_view(cs, days, up.push(name)) <==> name == "contacts"@ || name == "files"@ || name
            == "history"@,
{
    let n = up.push(name);
    assert(n =~= seq![name]);
    assert(n[0] == name);
    if in_days(days, n) {
        let k = choose|k: int|
            0 <= k < days.len() && (peer_names((#[trigger] days[k]).0) == n || log_names(days[k])
                == n);
        assert(log_names(days[k]).len() >= 2);
        assert(peer_names(days[k].0)[0] == "history"@);
    }
    assert(seq!["contacts"@][0] == "contacts"@);
    assert(seq!["files"@][0] == "files"@);
    assert(seq!["history"@][0] == "history"@);
}

proof fn lemma_contact_entries(
    cs: Seq<ContactModel>,
    days: Seq<(Seq<char>, Seq<char>)>,
    name: Seq<char>,
)
    ensures
        in_view(cs, days, seq!["contacts"@].push(name)) <==> exists|i: int|
            0 <= i < cs.len() && name == (#[trigger] cs[i]).name + ".txt"@,
{
    lemma_top_components();
    let n = seq!["contacts"@].push(name);
    assert(n[0] == "contacts"@ && n[1] == name);
    assert forall|k: int| 0 <= k < days.len() implies peer_names((#[trigger] days[k]).0) != n
        && log_names(days[k]) != n by {
        assert(peer_names(days[k].0)[0] == "history"@);
        assert(log_names(days[k])[0] == "history"@);
    }
    assert forall|i: int| 0 <= i < cs.len() implies (card_names((#[trigger] cs[i]).name) == n
        <==> name == cs[i].name + ".txt"@) by {
        assert(card_names(cs[i].name)[1] == cs[i].name + ".txt"@);
        if name == cs[i].name + ".txt"@ {
            assert(card_names(cs[i].name) =~= n);
        }
    }
}

proof fn lemma_peer_entries(
    cs: Seq<ContactModel>,
    days: Seq<(Seq<char>, Seq<char>)>,
    peer: Seq<char>,
    name: Seq<char>,
)
    requires
        plain(peer),
    ensures
        in_view(cs, days, peer_names(peer).push(name)) <==> exists|k: int|
            0 <= k < days.len() && (#[trigger] days[k]).0 == peer && name == days[k].1 + ".log"@,
{
    let n = peer_names(peer).push(name);
    assert(n.len() == 3 && n[1] == peer && n[2] == name);
    assert forall|i: int| 0 <= i < cs.len() implies card_names((#[trigger] cs[i]).name) != n by {
        assert(card_names(cs[i].name).len() == 2);
    }
    assert forall|k: int| 0 <= k < days.len() implies ((peer_names((#[trigger] days[k]).0) == n
        || log_names(days[k]) == n) <==> days[k].0 == peer && name == days[k].1 + ".log"@) by {
        assert(peer_names(days[k].0).len() <= 2);
        if log_names(days[k]) == n {
            assert(log_names(days[k])[1] == days[k].0);
            assert(log_names(days[k])[2] == days[k].1 + ".log"@);
        }
    }
}

/// What the directories of the tree list: the root its three directories, the
/// contacts a card for each name, a conversation a log for each of its days,
/// the files nothing.
pub proof fn law_view_lists_its_data(
    cs: Seq<ContactModel>,
    ms: Seq<ChatMessageModel>,
    days: Seq<(Seq<char>, Seq<char>)>,
    path: Seq<char>,
    list: Seq<DirEntryModel>,
)
    requires
        are_days(days, ms),
        cs.len() + 2 * ms.len() < u64::MAX - 5,
        view_model(cs, ms, days) is Ok,
        read_dir_model(view_model(cs, ms, days)->Ok_0, path, Ok(list)),
    ensures
        components(path).len() == 0 ==> forall|name: Seq<char>| #[trigger]
            has_entry(list, name) <==> name == "contacts"@ || name == "files"@ || name
                == "history"@,
        path == CONTACTS_DIR@ ==> forall|name: Seq<char>| #[trigger]
            has_entry(list, name) <==> exists|i: int|
                0 <= i < cs.len() && name == (#[trigger] cs[i]).name + ".txt"@,
        path == FILES_DIR@ ==> list.len() == 0,
        forall|peer: Seq<char>, name: Seq<char>|
            path == #[trigger] peer_path(peer) && plain(peer) ==> (#[trigger] has_entry(list, name)
                <==> exists|k: int|
                0 <= k < days.len() && (#[trigger] days[k]).0 == peer && name == days[k].1
                    + ".log"@),
{
    let fs = view_model(cs, ms, days)->Ok_0;
    let up = components(path);
    assert forall|name: Seq<char>| #[trigger] has_entry(list, name) <==> in_view(
        cs,
        days,
        up.push(name),
    ) by {
        lemma_view_at(cs, ms, days, up.push(name));
        lemma_listed_at(fs, path, list, name);
    }
    lemma_top_components();
    if up.len() == 0 {
        assert forall|name: Seq<char>| #[trigger] has_entry(list, name) <==> name == "contacts"@
            || name == "files"@ || name == "history"@ by {
            lemma_top_entries(cs, days, up, name);
        }
    }
    if path == CONTACTS_DIR@ {
        assert forall|name: Seq<char>| #[trigger] has_entry(list, name) <==> exists|i: int|
            0 <= i < cs.len() && name == (#[trigger] cs[i]).name + ".txt"@ by {
            lemma_contact_entries(cs, days, name);
        }
    }
    if path == FILES_DIR@ {
        if list.len() > 0 {
            let name = list[0].name;
            assert(has_entry(list, name));
            let n = up.push(name);
            assert(n[0] == "files"@);
            assert forall|i: int| 0 <= i < cs.len() implies card_names((#[trigger] cs[i]).name)
                != n by {
                assert(card_names(cs[i].name)[0] == "contacts"@);
            }
            assert forall|k: int| 0 <= k < days.len() implies peer_names((#[trigger] days[k]).0)
                != n && log_names(days[k]) != n by {
                assert(peer_names(days[k].0)[0] == "history"@);
                assert(log_names(days[k])[0] == "history"@);
            }
            assert(n.len() == 2);
        }
    }
    assert forall|peer: Seq<char>, name: Seq<char>|
        path == #[trigger] peer_path(peer) && plain(peer) implies (#[trigger] has_entry(list, name)
        <==> exists|k: int|
        0 <= k < days.len() && (#[trigger] days[k]).0 == peer && name == days[k].1 + ".log"@) by {
        lemma_day_names(peer, Seq::empty());
        lemma_peer_entries(cs, days, peer, name);
    }
}

// ---------------------------------------------------------------------------
// Building it
// ---------------------------------------------------------------------------

/// What pairs of strings say.
spec fn pairs_of(s: Seq<(String, String)>) -> Seq<(Seq<char>, Seq<char>)> {
    s.map_values(|p: (String, String)| (p.0@, p.1@))
}

fn day_order(peer: &str, date: &str, day: &(String, String)) -> (r: TextOrder)
    ensures
        match r {
            TextOrder::Less => day_less((peer@, date@), (day.0@, day.1@)),
            TextOrder::Same => (peer@, date@) == (day.0@, day.1@),
            TextOrder::More => day_less((day.0@, day.1@), (peer@, date@)),
        },
{
    match text_order(peer, day.0.as_str()) {
        TextOrder::Less => TextOrder::Less,
        TextOrder::More => TextOrder::More,
        TextOrder::Same => text_order(date, day.1.as_str()),
    }
}

/// Enters a day, unless it is there.
fn enter_day(days: &mut Vec<(String, String)>, peer: &str, date: &str)
    requires
        forall|a: int, b: int|
            0 <= a < b < pairs_of(old(days)@).len() ==> day_less(
                #[trigger] pairs_of(old(days)@)[a],
                #[trigger] pairs_of(old(days)@)[b],
            ),
    ensures
        forall|a: int, b: int|
            0 <= a < b < pairs_of(final(days)@).len() ==> day_less(
                #[trigger] pairs_of(final(days)@)[a],
                #[trigger] pairs_of(final(days)@)[b],
            ),
        forall|d: (Seq<char>, Seq<char>)|
            #![trigger pairs_of(final(days)@).contains(d)]
            pairs_of(final(days)@).contains(d) <==> pairs_of(old(days)@).contains(d) || d == (
                peer@,
                date@,
            ),
        final(days)@.len() <= old(days)@.len() + 1,
{
    let ghost s = pairs_of(days@);
    let ghost e = (peer@, date@);
    let mut at: usize = 0;
    while at < days.len()
        invariant_except_break
            at <= days@.len(),
        invariant
            days@ == old(days)@,
            s == pairs_of(days@),
            e == (peer@, date@),
            at <= days@.len(),
            forall|a: int, b: int| 0 <= a < b < s.len() ==> day_less(#[trigger] s[a], #[trigger] s[b]),
            forall|a: int| 0 <= a < at ==> day_less(#[trigger] s[a], e),
        ensures
            at < days@.len() ==> day_less(e, s[at as int]),
        decreases days@.len() - at,
    {
        assert(s[at as int] == (days@[at as int].0@, days@[at as int].1@));
        match day_order(peer, date, &days[at]) {
            TextOrder::Same => {
                assert(s.contains(s[at as int]));
                return ;
            },
            TextOrder::Less => {
                break ;
            },
            TextOrder::More => {},
        }
        at = at + 1;
    }
    days.insert(at, (peer.to_owned(), date.to_owned()));
    proof {
        let t = pairs_of(days@);
        assert(t =~= s.insert(at as int, e));
        assert forall|a: int, b: int| 0 <= a < b < t.len() implies day_less(
            #[trigger] t[a],
            #[trigger] t[b],
        ) by {
            let x = if a < at {
                a
            } else {
                a - 1
            };
            let y = if b < at {
                b
            } else {
                b - 1
            };
            if a != at {
                assert(t[a] == s[x]);
            }
            if b != at {
                assert(t[b] == s[y]);
            }
            if a == at && y > at {
                lemma_day_less_transitive(e, s[at as int], s[y]);
            }
        }
        assert forall|d: (Seq<char>, Seq<char>)|
            #![trigger t.contains(d)]
            t.contains(d) <==> s.contains(d) || d == e by {
            if t.contains(d) {
                let a = choose|a: int| 0 <= a < t.len() && t[a] == d;
                if a != at {
                    assert(t[a] == s[if a < at {
                        a
                    } else {
                        a - 1
                    }]);
                }
            }
            if s.contains(d) {
                let a = choose|a: int| 0 <= a < s.len() && s[a] == d;
                assert(t[if a < at {
                    a
                } else {
                    a + 1
                }] == d);
            }
            assert(t[at as int] == e);
        }
    }
}

/// The days on which the conversations have messages.
fn collect_days(messages: &[ChatMessage]) -> (days: Vec<(String, String)>)
    ensures
        are_days(pairs_of(days@), messages_of(messages@)),
        days@.len() <= messages@.len(),
{
    let ghost ms = messages_of(messages@);
    let mut days: Vec<(String, String)> = Vec::new();
    let mut i: usize = 0;
    while i < messages.len()
        invariant
            i <= messages@.len(),
            ms == messages_of(messages@),
            days@.len() <= i,
            forall|a: int, b: int|
                0 <= a < b < pairs_of(days@).len() ==> day_less(
                    #[trigger] pairs_of(days@)[a],
                    #[trigger] pairs_of(days@)[b],
                ),
            forall|k: int|
                0 <= k < i ==> pairs_of(days@).contains(((#[trigger] ms[k]).peer, ms[k].date)),
            forall|d: (Seq<char>, Seq<char>)|
                #![trigger pairs_of(days@).contains(d)]
                pairs_of(days@).contains(d) ==> exists|k: int| k < i && sent_on(ms, k, d),
        decreases messages@.len() - i,
    {
        let m = &messages[i];
        let ghost had = pairs_of(days@);
        enter_day(&mut days, m.peer.as_str(), m.date.as_str());
        proof {
            assert(ms[i as int] == m@);
            let now = pairs_of(days@);
            assert forall|d: (Seq<char>, Seq<char>)|
                #![trigger now.contains(d)]
                now.contains(d) implies exists|k: int| k < i + 1 && sent_on(ms, k, d) by {
                if had.contains(d) {
                    let k = choose|k: int| k < i && sent_on(ms, k, d);
                    assert(k < i + 1 && sent_on(ms, k, d));
                } else {
                    assert(sent_on(ms, i as int, d));
                }
            }
            assert forall|k: int| 0 <= k < i + 1 implies now.contains(
                ((#[trigger] ms[k]).peer, ms[k].date),
            ) by {
                if k < i {
                    assert(had.contains((ms[k].peer, ms[k].date)));
                }
            }
        }
        i = i + 1;
    }
    proof {
        let d = pairs_of(days@);
        assert forall|a: int| 0 <= a < d.len() implies has_messages(ms, #[trigger] d[a]) by {
            assert(d.contains(d[a]));
            let k = choose|k: int| k < i && sent_on(ms, k, d[a]);
            assert(sent_on(ms, k, d[a]));
        }
        assert(are_days(d, ms));
    }
    days
}

/// The text of a day in a conversation.
fn day_log(messages: &[ChatMessage], peer: &String, date: &String) -> (log: String)
    ensures
        log@ == day_text(messages_of(messages@), peer@, date@),
{
    let ghost ms = messages_of(messages@);
    let mut log = String::new();
    let mut i: usize = 0;
    assert(ms.take(0) =~= Seq::<ChatMessageModel>::empty());
    while i < messages.len()
        invariant
            i <= messages@.len(),
            ms == messages_of(messages@),
            log@ == day_text(ms.take(i as int), peer@, date@),
        decreases messages@.len() - i,
    {
        let m = &messages[i];
        proof {
            let t = ms.take(i + 1);
            assert(t.drop_last() =~= ms.take(i as int));
            assert(t.last() == m@);
        }
        if m.peer == *peer && m.date == *date {
            log.append(m.from.as_str());
            log.append(": ");
            log.append(m.text.as_str());
            log.append("\n");
        }
        i = i + 1;
    }
    assert(ms.take(messages@.len() as int) =~= ms);
    log
}

/// Whether a name cannot name a file.
fn slash_in(name: &str) -> (r: bool)
    ensures
        r == has_slash(name@),
{
    let chars = chars_of(name);
    let mut i: usize = 0;
    while i < chars.len()
        invariant
            i <= chars@.len(),
            chars@ == name@,
            forall|k: int| 0 <= k < i ==> chars@[k] != '/',
        decreases chars@.len() - i,
    {
        if chars[i] == '/' {
            assert(name@[i as int] == '/');
            return true;
        }
        i = i + 1;
    }
    false
}

proof fn lemma_next_grows(fs: FsModel, path: Seq<char>, data: Seq<u8>)
    requires
        fs.next < u64::MAX,
    ensures
        mkdir_model(fs, path).1.next <= fs.next + 1,
        write_model(fs, path, data).1.next <= fs.next + 1,
{
}

/// The three top directories can be made, one after the other.
proof fn lemma_top_dirs()
    ensures
        mkdir_model(empty_fs(), CONTACTS_DIR@).0 is Ok,
        ({
            let f1 = mkdir_model(empty_fs(), CONTACTS_DIR@).1;
            let f2 = mkdir_model(f1, HISTORY_DIR@).1;
            &&& mkdir_model(f1, HISTORY_DIR@).0 is Ok
            &&& mkdir_model(f2, FILES_DIR@).0 is Ok
            &&& top_dirs().next == 5
        }),
{
    lemma_top_components();
    assert(seq!["contacts"@].drop_last() =~= Seq::<Seq<char>>::empty());
    assert(seq!["history"@].drop_last() =~= Seq::<Seq<char>>::empty());
    assert(seq!["files"@].drop_last() =~= Seq::<Seq<char>>::empty());
    let none = Seq::<Seq<char>>::empty();
    let f0 = empty_fs();
    assert(f0.nodes[ROOT_INO].kind is Directory);
    assert(walk(f0, ROOT_INO, none) == Ok::<u64, WalkFail>(ROOT_INO));
    let f1 = mkdir_model(f0, CONTACTS_DIR@).1;
    assert(f1.nodes[ROOT_INO].children =~= Map::empty().insert("contacts"@, 2u64));
    assert(walk(f1, ROOT_INO, none) == Ok::<u64, WalkFail>(ROOT_INO));
    let f2 = mkdir_model(f1, HISTORY_DIR@).1;
    assert(walk(f2, ROOT_INO, none) == Ok::<u64, WalkFail>(ROOT_INO));
}

proof fn lemma_top_name(path: Seq<char>, name: Seq<char>)
    requires
        path == seq!['/'] + name,
        name.len() > 0,
        forall|i: int| 0 <= i < name.len() ==> name[i] != '/',
    ensures
        components(path) == seq![name],
{
    law_extra_slashes_do_not_count(name, name);
    lemma_single_component(name);
}

/// Builds the tree of contacts and messages. A name that holds a slash is an
/// error: names are not changed to fit.
pub fn build_im_view(contacts: &[Contact], messages: &[ChatMessage]) -> (r: Result<MemFs, FsError>)
    requires
        contacts@.len() + 2 * messages@.len() < u64::MAX - 5,
    ensures
        r matches Ok(fs) ==> fs.wf(),
        exists|days: Seq<(Seq<char>, Seq<char>)>|
            #![trigger are_days(days, messages_of(messages@))]
            are_days(days, messages_of(messages@)) && match view_model(
                contacts_of(contacts@),
                messages_of(messages@),
                days,
            ) {
                Ok(fs) => r is Ok && r->Ok_0@ == fs,
                Err(e) => r is Err && r->Err_0@ == e,
            },
{
    let ghost cs = contacts_of(contacts@);
    let ghost ms = messages_of(messages@);
    let mut fs = MemFs::new();
    proof {
        lemma_top_dirs();
    }
    let days = collect_days(messages);
    let ghost ds = pairs_of(days@);
    let r1 = fs.mkdir(CONTACTS_DIR);
    let r2 = fs.mkdir(HISTORY_DIR);
    let r3 = fs.mkdir(FILES_DIR);
    let ghost whole = view_model(cs, ms, ds);
    let mut i: usize = 0;
    assert(cs.skip(0) =~= cs);
    while i < contacts.len()
        invariant
            i <= contacts@.len(),
            contacts@.len() + 2 * messages@.len() < u64::MAX - 5,
            fs.wf(),
            fs@.next <= 5 + i,
            cs == contacts_of(contacts@),
            ms == messages_of(messages@),
            are_days(ds, ms),
            whole == view_model(cs, ms, ds),
            add_cards(top_dirs(), cs) == add_cards(fs@, cs.skip(i as int)),
        decreases contacts@.len() - i,
    {
        let c = &contacts[i];
        let mut card = String::from_str("name: ");
        card.append(c.name.as_str());
        card.append("\nusername: ");
        card.append(c.username.as_str());
        card.append("\n");
        let path = contact_card(c.name.as_str());
        proof {
            let rest = cs.skip(i as int);
            assert(rest[0] == c@);
            assert(rest.skip(1) =~= cs.skip(i + 1));
            assert(card@ =~= card_text(c@));
            lemma_next_grows(fs@, path@, encode_utf8(card@));
        }
        let _ = fs.write_file(path.as_str(), card.as_str().as_bytes())?;
        if slash_in(c.name.as_str()) {
            return Err(FsError::InvalidPath { path });
        }
        i = i + 1;
    }
    assert(cs.skip(contacts@.len() as int) =~= Seq::<ContactModel>::empty());
    let mut k: usize = 0;
    assert(ds.skip(0) =~= ds);
    while k < days.len()
        invariant
            k <= days@.len() <= messages@.len(),
            contacts@.len() + 2 * messages@.len() < u64::MAX - 5,
            fs.wf(),
            fs@.next <= 5 + contacts@.len() + 2 * k,
            cs == contacts_of(contacts@),
            ms == messages_of(messages@),
            ds == pairs_of(days@),
            are_days(ds, ms),
            whole == view_model(cs, ms, ds),
            whole == add_days(fs@, ms, ds.skip(k as int)),
        decreases days@.len() - k,
    {
        let (peer, date) = (&days[k].0, &days[k].1);
        let ghost rest = ds.skip(k as int);
        proof {
            assert(rest[0] == (peer@, date@));
            assert(rest.skip(1) =~= ds.skip(k + 1));
        }
        let dir = peer_dir(peer.as_str());
        let ghost fs0 = fs@;
        let missing: bool = match fs.lookup(dir.as_str()) {
            Ok(_) => false,
            Err(_) => true,
        };
        if missing {
            proof {
                lemma_next_grows(fs@, dir@, Seq::empty());
            }
            let _ = fs.mkdir(dir.as_str())?;
        }
        assert(with_peer_dir(fs0, peer@) == Ok::<FsModel, FsErrorModel>(fs@));
        let log = day_log(messages, peer, date);
        let path = history_log(peer.as_str(), date.as_str());
        proof {
            lemma_next_grows(fs@, path@, encode_utf8(log@));
        }
        let _ = fs.write_file(path.as_str(), log.as_str().as_bytes())?;
        if slash_in(peer.as_str()) || slash_in(date.as_str()) {
            return Err(FsError::InvalidPath { path });
        }
        k = k + 1;
    }
    assert(ds.skip(days@.len() as int) =~= Seq::<(Seq<char>, Seq<char>)>::empty());
    Ok(fs)
}

} // verus!
