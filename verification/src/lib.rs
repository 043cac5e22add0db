//! A peer-to-peer node core: address encodings, a Kademlia routing table,
//! proof-of-work tokens, time-based identifiers and message framing.
pub mod addr;
mod boxed;
pub mod bytes;
pub mod cmd;
pub mod crypt;
pub mod doh;
pub mod expire;
pub mod id;
pub mod kad;
pub mod kad_net;
pub mod key;
pub mod kv;
pub mod leading_zero;
pub mod ping;
pub mod time;
