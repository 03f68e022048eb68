//! The numbers of the errors. A number never changes its meaning.

use vstd::prelude::*;

verus! {

/// No error.
pub const OK: i32 = 0;

/// An argument is not valid.
pub const ERR_INVALID_ARG: i32 = 1;

/// The client has stopped.
pub const ERR_STOPPED: i32 = 2;

/// No event came in time.
pub const ERR_TIMEOUT: i32 = 3;

/// The events go to a callback.
pub const ERR_POLL_WITH_CALLBACK: i32 = 4;

/// A fault inside.
pub const ERR_INTERNAL: i32 = 5;

/// The server refused the login.
pub const ERR_HANDSHAKE_REJECTED: i32 = 6;

/// What an error number says.
pub open spec fn error_text(code: i32) -> Seq<char> {
    if code == OK {
        "ok"@
    } else if code == ERR_INVALID_ARG {
        "invalid argument (null pointer / non-utf8 string / bad length)"@
    } else if code == ERR_STOPPED {
        "client stopped (rejected or destroyed)"@
    } else if code == ERR_TIMEOUT {
        "timed out waiting for event"@
    } else if code == ERR_POLL_WITH_CALLBACK {
        "poll is unavailable when a callback is registered"@
    } else if code == ERR_INTERNAL {
        "internal error"@
    } else if code == ERR_HANDSHAKE_REJECTED {
        "handshake rejected by server"@
    } else {
        "unknown error code"@
    }
}

/// What an error number says; one that is not defined is said to be unknown.
#[must_use]
pub fn error_string(code: i32) -> (r: &'static str)
    ensures
        r@ == error_text(code),
{
    match code {
        0 => "ok",
        1 => "invalid argument (null pointer / non-utf8 string / bad length)",
        2 => "client stopped (rejected or destroyed)",
        3 => "timed out waiting for event",
        4 => "poll is unavailable when a callback is registered",
        5 => "internal error",
        6 => "handshake rejected by server",
        _ => "unknown error code",
    }
}

/// Every error has a text of its own, and a number that is no error is said to be
/// unknown.
pub proof fn law_texts_tell_errors_apart(a: i32, b: i32)
    requires
        0 <= a <= 6,
        a != b,
    ensures
        error_text(a) != error_text(b),
        !(0 <= b <= 6) ==> error_text(b) == "unknown error code"@,
{
    reveal_strlit("ok");
    reveal_strlit("invalid argument (null pointer / non-utf8 string / bad length)");
    reveal_strlit("client stopped (rejected or destroyed)");
    reveal_strlit("timed out waiting for event");
    reveal_strlit("poll is unavailable when a callback is registered");
    reveal_strlit("internal error");
    reveal_strlit("handshake rejected by server");
    reveal_strlit("unknown error code");
    assert("ok"@.len() == 2);
    assert("internal error"@.len() == 14);
    assert("unknown error code"@.len() == 18);
    assert("timed out waiting for event"@.len() == 27);
    assert("handshake rejected by server"@.len() == 28);
    assert("client stopped (rejected or destroyed)"@.len() == 38);
    assert("poll is unavailable when a callback is registered"@.len() == 49);
    assert("invalid argument (null pointer / non-utf8 string / bad length)"@.len() == 62);
}

} // verus!
