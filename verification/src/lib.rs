//! Building blocks of an instant-messaging system: the frame protocol, the
//! in-memory view of chat data, end-to-end encryption, the client state
//! machine, the embedding kit and the measuring tools.

pub mod bench;
pub mod client;
pub mod crypto;
pub mod mount;
pub mod octets;
pub mod protocol;
pub mod sdk;
pub mod text;
pub mod textmap;
