//! The client: what it sends and keeps sending until it is confirmed, what it
//! takes in and takes in only once, and what it shows.

pub mod chat;
pub mod client;
pub mod dedup;
pub mod event;
pub mod input;
pub mod message;
pub mod outbox;
pub mod tui;
