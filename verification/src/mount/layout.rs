//! Where chat data stands in the tree.

use vstd::prelude::*;

verus! {

/// The directory of the contact cards.
pub const CONTACTS_DIR: &'static str = "/contacts";

/// The directory of the conversations.
pub const HISTORY_DIR: &'static str = "/history";

/// The directory of the shared files.
pub const FILES_DIR: &'static str = "/files";

/// The path of a contact's card.
pub open spec fn card_path(name: Seq<char>) -> Seq<char> {
    CONTACTS_DIR@ + "/"@ + name + ".txt"@
}

/// The path of a conversation's directory.
pub open spec fn peer_path(peer: Seq<char>) -> Seq<char> {
    HISTORY_DIR@ + "/"@ + peer
}

/// The path of a day's log.
pub open spec fn log_path(peer: Seq<char>, date: Seq<char>) -> Seq<char> {
    peer_path(peer) + "/"@ + date + ".log"@
}

/// The path of a contact's card: `/contacts/<name>.txt`.
#[must_use]
pub fn contact_card(name: &str) -> (r: String)
    ensures
        r@ == card_path(name@),
{
    let mut s = String::from_str(CONTACTS_DIR);
    s.append("/");
    s.append(name);
    s.append(".txt");
    s
}

/// The path of a conversation's directory: `/history/<peer>`.
#[must_use]
pub fn peer_dir(peer: &str) -> (r: String)
    ensures
        r@ == peer_path(peer@),
{
    let mut s = String::from_str(HISTORY_DIR);
    s.append("/");
    s.append(peer);
    s
}

/// The path of a day's log: `/history/<peer>/<date>.log`.
#[must_use]
pub fn history_log(peer: &str, date: &str) -> (r: String)
    ensures
        r@ == log_path(peer@, date@),
{
    let mut s = peer_dir(peer);
    s.append("/");
    s.append(date);
    s.append(".log");
    s
}

} // verus!
