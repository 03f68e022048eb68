//! The checks at the border to C.

use vstd::prelude::*;
use vstd::utf8::{decode_utf8, encode_utf8, valid_utf8};
use crate::client::client::ClientConfig;
use crate::octets::copy_range;
use crate::sdk::events::{ImSdkEvent, sdk_config};
use crate::sdk::error::{ERR_INVALID_ARG, ERR_TIMEOUT, OK};
use crate::text::utf8_to_string;

verus! {

/// The text that bytes from C are, if they are there and are UTF-8.
pub open spec fn text_from_c(bytes: Option<Seq<u8>>) -> Option<Seq<char>> {
    match bytes {
        Some(b) => if valid_utf8(b) {
            Some(decode_utf8(b))
        } else {
            None
        },
        None => None,
    }
}

/// What bytes that may be missing hold.
pub open spec fn optional(bytes: Option<&[u8]>) -> Option<Seq<u8>> {
    match bytes {
        Some(b) => Some(b@),
        None => None,
    }
}

/// A copy of the text that bytes from C are, if they are there and are UTF-8.
#[must_use]
pub fn str_from_c(bytes: Option<&[u8]>) -> (r: Option<String>)
    ensures
        match text_from_c(optional(bytes)) {
            Some(text) => r is Some && r->Some_0@ == text,
            None => r is None,
        },
{
    match bytes {
        Some(b) => {
            let copy = copy_range(b, 0, b.len());
            assert(copy@ =~= b@);
            utf8_to_string(copy)
        },
        None => None,
    }
}

/// The set-up of a client: none without a server and a password that are texts. A
/// directory that is no text is none.
#[must_use]
pub fn client_create(
    server_addr: Option<&[u8]>,
    user_id: u64,
    token: Option<&[u8]>,
    data_dir: Option<&[u8]>,
) -> (r: Option<ClientConfig>)
    ensures
        match (text_from_c(optional(server_addr)), text_from_c(optional(token))) {
            (Some(addr), Some(token)) => {
                &&& r is Some
                &&& r->Some_0.server_addr@ == addr
                &&& r->Some_0.user_id == user_id
                &&& r->Some_0.token@ == token
                &&& match text_from_c(optional(data_dir)) {
                    Some(dir) => r->Some_0.data_dir is Some && r->Some_0.data_dir->Some_0@ == dir,
                    None => r->Some_0.data_dir is None,
                }
                &&& r->Some_0.defaults()
            },
            _ => r is None,
        },
{
    match (str_from_c(server_addr), str_from_c(token)) {
        (Some(addr), Some(token)) => {
            let dir = str_from_c(data_dir);
            let dir_str: Option<&str> = match &dir {
                Some(d) => Some(d.as_str()),
                None => None,
            };
            Some(sdk_config(addr.as_str(), user_id, token.as_str(), dir_str))
        },
        _ => None,
    }
}

/// Whether a message can be sent: a client must be there, and content, unless it
/// is empty.
pub fn check_send(client_is_null: bool, data_is_null: bool, len: usize) -> (r: Result<(), i32>)
    ensures
        r == (if client_is_null || (data_is_null && len > 0) {
            Err::<(), i32>(ERR_INVALID_ARG)
        } else {
            Ok(())
        }),
{
    if client_is_null {
        return Err(ERR_INVALID_ARG);
    }
    if data_is_null && len > 0 {
        return Err(ERR_INVALID_ARG);
    }
    Ok(())
}

/// Whether events can be asked for: a client must be there, and a place for the
/// event.
pub fn check_poll(out_is_null: bool, client_is_null: bool) -> (r: Result<(), i32>)
    ensures
        r == (if out_is_null || client_is_null {
            Err::<(), i32>(ERR_INVALID_ARG)
        } else {
            Ok(())
        }),
{
    if out_is_null || client_is_null {
        return Err(ERR_INVALID_ARG);
    }
    Ok(())
}

/// The number that sending returns.
#[must_use]
pub fn send_code(sent: Result<(), i32>) -> (r: i32)
    ensures
        r == (match sent {
            Ok(()) => OK,
            Err(code) => code,
        }),
{
    match sent {
        Ok(()) => OK,
        Err(code) => code,
    }
}

/// The number that asking for an event returns.
#[must_use]
pub fn poll_code(polled: &Result<Option<ImSdkEvent>, i32>) -> (r: i32)
    ensures
        r == (match *polled {
            Ok(Some(_)) => OK,
            Ok(None) => ERR_TIMEOUT,
            Err(code) => code,
        }),
{
    match polled {
        Ok(Some(_)) => OK,
        Ok(None) => ERR_TIMEOUT,
        Err(code) => *code,
    }
}

/// A text that comes from C as UTF-8 is that text; bytes that are no UTF-8, or that are
/// missing, are none.
pub proof fn law_texts_from_c(text: Seq<char>, bytes: Seq<u8>)
    ensures
        text_from_c(Some(encode_utf8(text))) == Some(text),
        !valid_utf8(bytes) ==> text_from_c(Some(bytes)) is None,
        text_from_c(None) is None,
{
    vstd::utf8::encode_utf8_valid_utf8(text);
    vstd::utf8::encode_utf8_decode_utf8(text);
}

} // verus!
