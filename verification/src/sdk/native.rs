//! The client for Rust callers: a client that is not connected has no way to
//! send.

use std::marker::PhantomData;
use vstd::prelude::*;
use crate::client::event::EventModel;
use crate::client::outbox::Nanos;
use crate::sdk::events::{EVENT_CONNECTED, EVENT_REJECTED, ImSdkEvent, flat};
use crate::sdk::error::{ERR_HANDSHAKE_REJECTED, ERR_TIMEOUT};

verus! {

/// The login was not accepted yet.
pub struct Disconnected;

/// The login was accepted.
pub struct Connected;

/// A client that is, or is not, connected; `C` is what it is made of.
pub struct TypedSdkClient<C, State> {
    inner: C,
    session_id: u64,
    state: PhantomData<State>,
}

/// What waiting for the login has come to.
pub enum WaitStep<C> {
    /// It was accepted.
    Connected(TypedSdkClient<C, Connected>),
    /// It was not, or not in time: the client is handed back with the error.
    Failed(TypedSdkClient<C, Disconnected>, i32),
    /// Nothing yet.
    Waiting(TypedSdkClient<C, Disconnected>),
}

/// What an event says of the login: the session, an error that ends the wait, or
/// nothing.
pub open spec fn verdict(event: ImSdkEvent) -> Result<u64, Option<i32>> {
    if event.type_ == EVENT_CONNECTED {
        Ok(event.session_id)
    } else if event.type_ == EVENT_REJECTED {
        Err(Some(ERR_HANDSHAKE_REJECTED))
    } else {
        Err(None)
    }
}

/// What an event says of the login.
pub fn classify(event: &ImSdkEvent) -> (r: Result<u64, Option<i32>>)
    ensures
        r == verdict(*event),
{
    if event.type_ == EVENT_CONNECTED {
        Ok(event.session_id)
    } else if event.type_ == EVENT_REJECTED {
        Err(Some(ERR_HANDSHAKE_REJECTED))
    } else {
        Err(None)
    }
}

impl<C, State> TypedSdkClient<C, State> {
    /// What it is made of.
    pub closed spec fn made_of(&self) -> C {
        self.inner
    }

    /// The session; zero before the login was accepted.
    pub closed spec fn session(&self) -> u64 {
        self.session_id
    }

    /// Gives back what it is made of.
    #[must_use]
    pub fn into_inner(self) -> (r: C)
        ensures
            r == self.made_of(),
    {
        self.inner
    }

    /// What it is made of.
    #[must_use]
    pub fn inner(&self) -> (r: &C)
        ensures
            *r == self.made_of(),
    {
        &self.inner
    }
}

impl<C> TypedSdkClient<C, Disconnected> {
    /// A client that has not logged in.
    #[must_use]
    pub fn new(inner: C) -> (r: Self)
        ensures
            r.made_of() == inner,
            r.session() == 0,
    {
        TypedSdkClient { inner, session_id: 0, state: PhantomData }
    }

    /// How long there is to wait; nothing, if the time is up.
    #[must_use]
    pub fn wait_budget(deadline: Nanos, now: Nanos) -> (r: Option<Nanos>)
        ensures
            r == (if now < deadline {
                Some((deadline - now) as u128)
            } else {
                None
            }),
    {
        if now < deadline {
            Some(deadline - now)
        } else {
            None
        }
    }

    /// The time is up: the client is handed back.
    #[must_use]
    pub fn give_up(self) -> (r: (Self, i32))
        ensures
            r.0 == self,
            r.1 == ERR_TIMEOUT,
    {
        (self, ERR_TIMEOUT)
    }

    /// One look at the events while waiting for the login: accepted, the client is
    /// connected; refused, or without events to come, it is handed back with the
    /// error; otherwise the wait goes on.
    #[must_use]
    pub fn wait_connected(self, polled: Result<Option<ImSdkEvent>, i32>) -> (r: WaitStep<C>)
        ensures
            match polled {
                Err(code) => r == WaitStep::Failed(self, code),
                Ok(None) => r == WaitStep::Waiting(self),
                Ok(Some(event)) => match verdict(event) {
                    Ok(session_id) => r matches WaitStep::Connected(client) && client.made_of()
                        == self.made_of() && client.session() == session_id,
                    Err(Some(code)) => r == WaitStep::Failed(self, code),
                    Err(None) => r == WaitStep::Waiting(self),
                },
            },
    {
        match polled {
            Err(code) => WaitStep::Failed(self, code),
            Ok(None) => WaitStep::Waiting(self),
            Ok(Some(event)) => match classify(&event) {
                Ok(session_id) => WaitStep::Connected(
                    TypedSdkClient { inner: self.inner, session_id, state: PhantomData },
                ),
                Err(Some(code)) => WaitStep::Failed(self, code),
                Err(None) => WaitStep::Waiting(self),
            },
        }
    }
}

impl<C> TypedSdkClient<C, Connected> {
    /// The session.
    #[must_use]
    pub fn session_id(&self) -> (r: u64)
        ensures
            r == self.session(),
    {
        self.session_id
    }
}

/// What ends the wait for a login: an accepted login gives its session, a refused one
/// the error for it, and no other event ends it.
pub proof fn law_login_ends_the_wait(event: ImSdkEvent, told: EventModel)
    requires
        event@ == flat(told),
        !(told is SyncBatch),
    ensures
        told matches EventModel::Connected { session_id } ==> verdict(event) == Ok::<
            u64,
            Option<i32>,
        >(session_id),
        told is Rejected ==> verdict(event) == Err::<u64, Option<i32>>(Some(6)),
        !(told is Connected) && !(told is Rejected) ==> verdict(event) == Err::<
            u64,
            Option<i32>,
        >(None),
{
}

} // verus!
