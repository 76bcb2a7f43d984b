//! The peer swarm engine of a downloading BitTorrent client.
//!
//! The engine is the part worth proving: the wire codec, the framed
//! reader's carry buffer, the byte-range algebra that tracks what is
//! owned, in flight and available, the per-peer protocol state, the
//! inbound message handler, and the scheduler tick that issues requests
//! and expires stale ones.  Transport, metainfo decoding and the tracker
//! exchange live outside, and hand the engine plain values.

pub mod bt_messages;
pub mod buffered_reader;
pub mod chunk;
pub mod default_handler;
pub mod metadata;
pub mod peer;
pub mod querystring;
pub mod tracker;
