//! Measuring: latencies in a sketch, weak links that can be replayed, storms of
//! connections, and the books that have to balance.

pub mod connstorm;
pub mod fanout;
pub mod format;
pub mod histogram;
pub mod memstats;
pub mod weaklink;
