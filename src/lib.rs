//! A bencoding codec and a UDP tracker client for BitTorrent.
//!
//! `bencode` decodes and encodes bencoded values; `tracker` builds and reads
//! the fixed-layout datagrams of the UDP tracker protocol; `session` decides,
//! event by event, what a client talking to one tracker does next.
use vstd::prelude::*;

pub mod bencode;
pub mod session;
pub mod tracker;
pub mod wire;

verus! {

} // verus!
