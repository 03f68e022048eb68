//! The checks and the numbers at the border to Java.

use vstd::prelude::*;
use crate::sdk::events::ImSdkEvent;
use crate::sdk::error::{ERR_TIMEOUT, OK, error_string, error_text};
use crate::text::chars_of;

verus! {

/// The largest number of Java's.
pub const JAVA_LONG_MAX: u64 = 0x7FFF_FFFF_FFFF_FFFF;

/// A number as Java has it: one that does not fit is zero.
pub open spec fn to_long(n: u64) -> i64 {
    if n <= JAVA_LONG_MAX {
        n as i64
    } else {
        0
    }
}

/// A number as Java has it.
#[must_use]
pub fn java_long(n: u64) -> (r: i64)
    ensures
        r == to_long(n),
{
    if n <= JAVA_LONG_MAX {
        n as i64
    } else {
        0
    }
}

/// A number of Java's: a negative one is zero.
#[must_use]
pub fn from_java_long(n: i64) -> (r: u64)
    ensures
        r == (if n >= 0 {
            n as u64
        } else {
            0
        }),
{
    if n >= 0 {
        n as u64
    } else {
        0
    }
}

/// A number of milliseconds of Java's: a negative one is zero.
#[must_use]
pub fn from_java_int(n: i32) -> (r: u32)
    ensures
        r == (if n >= 0 {
            n as u32
        } else {
            0
        }),
{
    if n >= 0 {
        n as u32
    } else {
        0
    }
}

/// An event as Java has it.
#[derive(Debug, Clone, PartialEq, Eq)]
pub struct JavaEvent {
    /// What happened.
    pub type_: i32,
    /// The session.
    pub session_id: i64,
    /// The server's number of a message.
    pub msg_id: i64,
    /// The sender's number of a message.
    pub client_msg_id: i64,
    /// The sender.
    pub from: i64,
    /// The recipient.
    pub to: i64,
    /// What a message says, or why a login was refused.
    pub data: Vec<u8>,
}

/// An event as Java has it.
#[must_use]
pub fn build_java_event(event: &ImSdkEvent) -> (r: JavaEvent)
    ensures
        r.type_ == event@.type_,
        r.session_id == to_long(event@.session_id),
        r.msg_id == to_long(event@.msg_id),
        r.client_msg_id == to_long(event@.client_msg_id),
        r.from == to_long(event@.from),
        r.to == to_long(event@.to),
        r.data@ == event@.data,
{
    JavaEvent {
        type_: event.type_,
        session_id: java_long(event.session_id),
        msg_id: java_long(event.msg_id),
        client_msg_id: java_long(event.client_msg_id),
        from: java_long(event.from),
        to: java_long(event.to),
        data: event.data.clone(),
    }
}

/// The text holds the character zero.
pub open spec fn has_nul(s: Seq<char>) -> bool {
    exists|i: int| 0 <= i < s.len() && #[trigger] s[i] == '\0'
}

fn contains_nul(s: &str) -> (r: bool)
    ensures
        r == has_nul(s@),
{
    let chars = chars_of(s);
    let mut i: usize = 0;
    while i < chars.len()
        invariant
            i <= chars@.len(),
            chars@ == s@,
            forall|k: int| 0 <= k < i ==> #[trigger] s@[k] != '\0',
        decreases chars@.len() - i,
    {
        if chars[i] == '\0' {
            assert(s@[i as int] == '\0');
            return true;
        }
        i = i + 1;
    }
    false
}

/// An exception of Java's.
#[derive(Debug, Clone, PartialEq, Eq)]
pub struct Exception {
    /// Its class.
    pub class: &'static str,
    /// What it says.
    pub message: String,
}

/// What an [`Exception`] says.
#[verifier::ext_equal]
pub struct ExceptionModel {
    pub class: Seq<char>,
    pub message: Seq<char>,
}

impl View for Exception {
    type V = ExceptionModel;

    open spec fn view(&self) -> ExceptionModel {
        ExceptionModel { class: self.class@, message: self.message@ }
    }
}

/// An argument is wrong.
pub open spec fn bad_argument(message: Seq<char>) -> ExceptionModel {
    ExceptionModel { class: "java/lang/IllegalArgumentException"@, message }
}

/// Something failed.
pub open spec fn failed(message: Seq<char>) -> ExceptionModel {
    ExceptionModel { class: "java/lang/RuntimeException"@, message }
}

/// The client is closed.
pub open spec fn closed_client() -> ExceptionModel {
    ExceptionModel {
        class: "java/lang/IllegalStateException"@,
        message: "client already closed"@,
    }
}

fn argument_exception(message: &str) -> (r: Exception)
    ensures
        r@ == bad_argument(message@),
{
    Exception { class: "java/lang/IllegalArgumentException", message: message.to_owned() }
}

fn runtime_exception(message: &str) -> (r: Exception)
    ensures
        r@ == failed(message@),
{
    Exception { class: "java/lang/RuntimeException", message: message.to_owned() }
}

fn closed_exception() -> (r: Exception)
    ensures
        r@ == closed_client(),
{
    Exception {
        class: "java/lang/IllegalStateException",
        message: "client already closed".to_owned(),
    }
}

/// A text that may be missing.
#[derive(Debug)]
pub enum JavaText {
    /// It is missing.
    Null,
    /// It is this.
    Text(String),
    /// What is there is no text.
    Invalid,
}

/// A callback that may be missing.
#[derive(Debug, Clone, Copy, PartialEq, Eq, Structural)]
pub enum JavaCallback {
    /// It is missing.
    Null,
    /// The virtual machine is not to be had.
    NoMachine,
    /// No lasting reference to the callback is to be had.
    NoReference,
    /// It can be called.
    Ready,
}

/// What a client is made of.
#[derive(Debug, Clone, PartialEq, Eq)]
pub struct CreateCall {
    /// The server.
    pub addr: String,
    /// The user.
    pub user_id: u64,
    /// The password.
    pub token: String,
    /// Where messages are kept.
    pub data_dir: Option<String>,
    /// Whether the events go to a callback.
    pub callback: bool,
}

/// Why a client cannot be made of these arguments: the first of the reasons that
/// there are.
pub open spec fn create_error(
    addr: Option<String>,
    token: Option<String>,
    data_dir: JavaText,
    callback: JavaCallback,
) -> Option<ExceptionModel> {
    match (addr, token) {
        (Some(addr), Some(token)) => if addr@.len() == 0 || token@.len() == 0 {
            Some(bad_argument("addr/token must not be empty"@))
        } else if data_dir is Invalid {
            Some(bad_argument("dataDir is not a String"@))
        } else if callback == JavaCallback::NoMachine {
            Some(failed("get_java_vm failed"@))
        } else if callback == JavaCallback::NoReference {
            Some(failed("new_global_ref failed"@))
        } else if has_nul(addr@) {
            Some(bad_argument("addr contains NUL"@))
        } else if has_nul(token@) {
            Some(bad_argument("token contains NUL"@))
        } else {
            None
        },
        _ => Some(bad_argument("invalid string argument"@)),
    }
}

/// What a client is made of, or why none can be made. A negative user is none, and
/// a directory with the character zero in its name is none.
pub fn native_create(
    addr: Option<String>,
    user_id: i64,
    token: Option<String>,
    data_dir: JavaText,
    callback: JavaCallback,
) -> (r: Result<CreateCall, Exception>)
    ensures
        match create_error(addr, token, data_dir, callback) {
            Some(e) => r is Err && r->Err_0@ == e,
            None => {
                &&& r is Ok
                &&& r->Ok_0.addr@ == addr->Some_0@
                &&& r->Ok_0.user_id == if user_id >= 0 {
                    user_id as int
                } else {
                    0
                }
                &&& r->Ok_0.token@ == token->Some_0@
                &&& r->Ok_0.callback == (callback == JavaCallback::Ready)
                &&& match data_dir {
                    JavaText::Text(d) => if has_nul(d@) {
                        r->Ok_0.data_dir is None
                    } else {
                        r->Ok_0.data_dir is Some && r->Ok_0.data_dir->Some_0@ == d@
                    },
                    _ => r->Ok_0.data_dir is None,
                }
            },
        },
{
    let (addr, token) = match (addr, token) {
        (Some(addr), Some(token)) => (addr, token),
        _ => return Err(argument_exception("invalid string argument")),
    };
    if chars_of(addr.as_str()).len() == 0 || chars_of(token.as_str()).len() == 0 {
        return Err(argument_exception("addr/token must not be empty"));
    }
    let dir: Option<String> = match data_dir {
        JavaText::Null => None,
        JavaText::Text(d) => Some(d),
        JavaText::Invalid => return Err(argument_exception("dataDir is not a String")),
    };
    match callback {
        JavaCallback::NoMachine => return Err(runtime_exception("get_java_vm failed")),
        JavaCallback::NoReference => return Err(runtime_exception("new_global_ref failed")),
        _ => {},
    }
    if contains_nul(addr.as_str()) {
        return Err(argument_exception("addr contains NUL"));
    }
    if contains_nul(token.as_str()) {
        return Err(argument_exception("token contains NUL"));
    }
    Ok(
        CreateCall {
            addr,
            user_id: from_java_long(user_id),
            token,
            data_dir: usable_dir(dir),
            callback: matches!(callback, JavaCallback::Ready),
        },
    )
}

/// The exception for a client that could not be made; nothing, if it was.
#[must_use]
pub fn created_exception(created: bool) -> (r: Option<Exception>)
    ensures
        if created {
            r is None
        } else {
            r is Some && r->Some_0@ == failed("im_sdk_client_create failed"@)
        },
{
    if created {
        None
    } else {
        Some(runtime_exception("im_sdk_client_create failed"))
    }
}

/// Bytes that may be missing.
#[derive(Debug)]
pub enum JavaBytes {
    /// They are missing.
    Null,
    /// They are these.
    Bytes(Vec<u8>),
    /// They could not be read.
    Invalid,
}

/// What is sent, and to whom, or why nothing can be sent. Missing content is empty,
/// and a negative recipient is none.
pub fn native_send(open: bool, to: i64, data: JavaBytes) -> (r: Result<
    (u64, Vec<u8>),
    Exception,
>)
    ensures
        if !open {
            r is Err && r->Err_0@ == closed_client()
        } else if data is Invalid {
            r is Err && r->Err_0@ == failed("convert_byte_array failed"@)
        } else {
            &&& r is Ok
            &&& r->Ok_0.0 == if to >= 0 {
                to as int
            } else {
                0
            }
            &&& r->Ok_0.1@ == match data {
                JavaBytes::Bytes(v) => v@,
                _ => Seq::empty(),
            }
        },
{
    if !open {
        return Err(closed_exception());
    }
    match data {
        JavaBytes::Null => {
            let none: Vec<u8> = Vec::new();
            Ok((from_java_long(to), none))
        },
        JavaBytes::Bytes(v) => Ok((from_java_long(to), v)),
        JavaBytes::Invalid => Err(runtime_exception("convert_byte_array failed")),
    }
}

/// How many milliseconds an event is waited for, or why none can be. A negative
/// number is none.
pub fn native_poll(open: bool, timeout_ms: i32) -> (r: Result<u32, Exception>)
    ensures
        if open {
            r is Ok && r->Ok_0 == if timeout_ms >= 0 {
                timeout_ms as int
            } else {
                0
            }
        } else {
            r is Err && r->Err_0@ == closed_client()
        },
{
    if open {
        Ok(from_java_int(timeout_ms))
    } else {
        Err(closed_exception())
    }
}

/// The directory that is used: one with the character zero in its name is none.
fn usable_dir(dir: Option<String>) -> (r: Option<String>)
    ensures
        match dir {
            Some(d) => if has_nul(d@) {
                r is None
            } else {
                r is Some && r->Some_0@ == d@
            },
            None => r is None,
        },
{
    match dir {
        Some(d) => {
            if contains_nul(d.as_str()) {
                None
            } else {
                Some(d)
            }
        },
        None => None,
    }
}

/// The exception for an error in sending; nothing, if there was none.
#[must_use]
pub fn send_exception(code: i32) -> (r: Option<Exception>)
    ensures
        if code == OK {
            r is None
        } else {
            r is Some && r->Some_0@ == failed("send failed: "@ + error_text(code))
        },
{
    if code == OK {
        return None;
    }
    let mut s = String::from_str("send failed: ");
    s.append(error_string(code));
    Some(runtime_exception(s.as_str()))
}

/// What Java gets for an error in asking for an event: nothing where none came in
/// time, an exception otherwise.
#[must_use]
pub fn poll_exception(code: i32) -> (r: Option<Exception>)
    ensures
        if code == OK || code == ERR_TIMEOUT {
            r is None
        } else {
            r is Some && r->Some_0@ == failed("poll failed: "@ + error_text(code))
        },
{
    if code == OK || code == ERR_TIMEOUT {
        return None;
    }
    let mut s = String::from_str("poll failed: ");
    s.append(error_string(code));
    Some(runtime_exception(s.as_str()))
}

/// A number that Java has room for is the same there; any other is zero.
pub proof fn law_numbers_in_java(n: u64)
    ensures
        n < 0x8000_0000_0000_0000 ==> to_long(n) as int == n as int,
        n >= 0x8000_0000_0000_0000 ==> to_long(n) == 0,
{
}

/// A client can be made exactly of a server and a password that are texts, are not
/// empty and hold no zero, a directory that is a text or missing, and a callback that
/// can be called or is missing.
pub proof fn law_what_a_client_is_made_of(
    addr: Option<String>,
    token: Option<String>,
    data_dir: JavaText,
    callback: JavaCallback,
)
    ensures
        create_error(addr, token, data_dir, callback) is None <==> {
            &&& addr is Some && token is Some
            &&& addr->Some_0@.len() > 0 && token->Some_0@.len() > 0
            &&& !has_nul(addr->Some_0@) && !has_nul(token->Some_0@)
            &&& !(data_dir is Invalid)
            &&& callback == JavaCallback::Null || callback == JavaCallback::Ready
        },
        create_error(addr, token, data_dir, callback) matches Some(e) ==> {
            ||| e.class == "java/lang/IllegalArgumentException"@
            ||| e.class == "java/lang/RuntimeException"@ && (callback == JavaCallback::NoMachine
                || callback == JavaCallback::NoReference)
        },
{
}

} // verus!
