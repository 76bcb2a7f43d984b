//! The framed reader's carry buffer.
//!
//! A session reads raw bytes from its transport and feeds them in here;
//! `next_message` hands back one complete decoded frame at a time, keeping
//! any partial frame as carry for the next read.  The blocking read loop
//! itself lives with the transport, outside the engine.

use vstd::prelude::*;

use crate::bt_messages::decode_need_more;
use crate::bt_messages::frame_ok;
use crate::bt_messages::msg_matches;
use crate::bt_messages::spec_len;
use crate::bt_messages::try_decode;
use crate::bt_messages::Message;
use crate::bt_messages::ProtocolError;

verus! {

/// A transport handle paired with the carry buffer of undecoded bytes.
pub struct BufferedReader<T> {
    readable: T,
    buffer: Vec<u8>,
}

impl<T> BufferedReader<T> {
    /// The undecoded bytes carried between reads.
    pub closed spec fn carry(&self) -> Seq<u8> {
        self.buffer@
    }

    /// The transport handle.
    pub closed spec fn transport(&self) -> T {
        self.readable
    }

    pub fn new(readable: T, buffer: Vec<u8>) -> (r: BufferedReader<T>)
        ensures
            r.carry() == buffer@,
            r.transport() == readable,
    {
        BufferedReader { readable, buffer }
    }

    /// Borrow the transport to perform a read; the carry is untouched.
    pub fn reader_mut(&mut self) -> (r: &mut T)
        ensures
            *r == old(self).transport(),
            final(self).transport() == *final(r),
            final(self).carry() == old(self).carry(),
    {
        &mut self.readable
    }

    /// Append freshly read bytes to the carry.
    pub fn feed(&mut self, chunk: &[u8])
        ensures
            final(self).carry() == old(self).carry() + chunk@,
            final(self).transport() == old(self).transport(),
    {
        let mut i: usize = 0;
        while i < chunk.len()
            invariant
                i <= chunk@.len(),
                self.buffer@ == old(self).buffer@ + chunk@.subrange(0, i as int),
                self.readable == old(self).readable,
            decreases chunk@.len() - i,
        {
            self.buffer.push(chunk[i]);
            proof {
                assert(self.buffer@ =~= old(self).buffer@ + chunk@.subrange(0, i + 1));
            }
            i += 1;
        }
        proof {
            assert(chunk@.subrange(0, chunk@.len() as int) =~= chunk@);
        }
    }

    /// Decode one message from the front of the carry, if a complete frame
    /// is present: the consumed bytes leave the carry, and nothing is
    /// consumed otherwise.  A malformed complete frame is a protocol error.
    pub fn next_message(&mut self) -> (r: Result<Option<Message>, ProtocolError>)
        ensures
            final(self).transport() == old(self).transport(),
            match r {
                Ok(Some(m)) => {
                    &&& old(self).carry().len() >= 4
                    &&& frame_ok(old(self).carry())
                    &&& msg_matches(old(self).carry(), m)
                    &&& final(self).carry() == old(self).carry().skip(
                        4 + spec_len(old(self).carry()),
                    )
                },
                Ok(None) => {
                    &&& final(self).carry() == old(self).carry()
                    &&& (old(self).carry().len() < 4 || decode_need_more(old(self).carry()))
                },
                Err(_) => {
                    &&& final(self).carry() == old(self).carry()
                    &&& old(self).carry().len() >= 4
                    &&& !frame_ok(old(self).carry())
                    &&& !decode_need_more(old(self).carry())
                },
            },
    {
        if self.buffer.len() < 4 {
            return Ok(None);
        }
        match try_decode(self.buffer.as_slice()) {
            Ok(Some((message, consumed))) => {
                let mut rest: Vec<u8> = Vec::new();
                let mut i: usize = consumed;
                while i < self.buffer.len()
                    invariant
                        consumed <= i <= self.buffer@.len(),
                        self.buffer@ == old(self).buffer@,
                        self.readable == old(self).readable,
                        rest@ == self.buffer@.subrange(consumed as int, i as int),
                    decreases self.buffer@.len() - i,
                {
                    let b: u8 = self.buffer[i];
                    rest.push(b);
                    proof {
                        assert(rest@ =~= self.buffer@.subrange(consumed as int, i + 1));
                    }
                    i += 1;
                }
                proof {
                    assert(rest@ =~= old(self).buffer@.skip(consumed as int));
                }
                self.buffer = rest;
                Ok(Some(message))
            },
            Ok(None) => Ok(None),
            Err(e) => Err(e),
        }
    }
}

} // verus!
