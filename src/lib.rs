//! Core of a Bitcoin SPV-style peer node: the wire codec and message
//! framing, the catalog of payloads, the header chain with its fork choice,
//! the handshake and the initial header download, and coin selection.
//! Each reader is exact: on the bytes of a value it returns that value, and
//! what it returns has those bytes.
pub mod codec;
pub mod error;
pub mod hash;
pub mod header;
pub mod chain;
pub mod frame;
pub mod headers;
pub mod ihd;
pub mod laws;
pub mod block;
pub mod wallet;
pub mod version;
pub mod handshake;
pub mod serializable;
pub mod config;
pub mod inventory;
pub mod account;
