//! The peer wire codec: length-prefixed messages, encoded and decoded
//! bit-exactly.
//!
//! A frame is a 4-byte big-endian length `L` followed by `L` payload bytes;
//! `L == 0` is a keep-alive, otherwise the first payload byte names the
//! message type.  `try_decode` consumes exactly one complete frame or
//! reports that more bytes are needed; malformed complete frames are
//! protocol errors that fail the connection.

use vstd::prelude::*;

verus! {

/// A peer wire message, plus two markers used internally by sessions.
#[derive(Debug)]
pub enum Message {
    KeepAlive,
    Choke,
    Unchoke,
    Interested,
    NotInterested,
    Have { piece_index: u32 },
    Bitfield(Vec<u8>),
    Request { index: u32, begin: u32, length: u32 },
    Piece { index: u32, begin: u32, block: Vec<u8> },
    Cancel { index: u32, begin: u32, length: u32 },
    Port(u16),
    // internally used markers, never sent on the wire
    Handshake,
    Unhandled,
}

/// A malformed frame: unknown type id, or a payload of the wrong shape.
#[derive(Debug, Clone, Copy, PartialEq, Eq, Structural)]
pub struct ProtocolError;

/// The big-endian 32-bit value of four bytes.
pub open spec fn be32_val(b0: u8, b1: u8, b2: u8, b3: u8) -> u32 {
    (b3 as u32) | ((b2 as u32) << 8u32) | ((b1 as u32) << 16u32) | ((b0 as u32) << 24u32)
}

/// The big-endian 16-bit value of two bytes.
pub open spec fn be16_val(b0: u8, b1: u8) -> u16 {
    (b1 as u16) | ((b0 as u16) << 8u16)
}

/// The four big-endian bytes of a 32-bit value.
pub open spec fn be32_bytes(x: u32) -> Seq<u8> {
    seq![(x >> 24u32) as u8, (x >> 16u32) as u8, (x >> 8u32) as u8, x as u8]
}

/// The two big-endian bytes of a 16-bit value.
pub open spec fn be16_bytes(x: u16) -> Seq<u8> {
    seq![(x >> 8u16) as u8, x as u8]
}

pub proof fn lemma_be32_round_trip(x: u32)
    ensures
        be32_val((x >> 24u32) as u8, (x >> 16u32) as u8, (x >> 8u32) as u8, x as u8) == x,
{
    assert(((x as u8) as u32) | ((((x >> 8u32) as u8) as u32) << 8u32) | ((((x
        >> 16u32) as u8) as u32) << 16u32) | ((((x >> 24u32) as u8) as u32) << 24u32) == x)
        by (bit_vector);
}

pub proof fn lemma_be16_round_trip(x: u16)
    ensures
        be16_val((x >> 8u16) as u8, x as u8) == x,
{
    assert(((x as u8) as u16) | ((((x >> 8u16) as u8) as u16) << 8u16) == x) by (bit_vector);
}

/// A message that exists on the wire (not an internal marker).
pub open spec fn wire_variant(m: Message) -> bool {
    !(m is Handshake) && !(m is Unhandled)
}

/// The variable-length payloads fit in the 32-bit length prefix.
pub open spec fn encodable(m: Message) -> bool {
    match m {
        Message::Bitfield(b) => b@.len() + 1 <= u32::MAX,
        Message::Piece { index, begin, block } => block@.len() + 9 <= u32::MAX,
        _ => true,
    }
}

/// The exact wire encoding of a message; the internal markers encode to
/// nothing.
pub open spec fn spec_encode(m: Message) -> Seq<u8> {
    match m {
        Message::KeepAlive => seq![0u8, 0u8, 0u8, 0u8],
        Message::Choke => seq![0u8, 0u8, 0u8, 1u8, 0u8],
        Message::Unchoke => seq![0u8, 0u8, 0u8, 1u8, 1u8],
        Message::Interested => seq![0u8, 0u8, 0u8, 1u8, 2u8],
        Message::NotInterested => seq![0u8, 0u8, 0u8, 1u8, 3u8],
        Message::Have { piece_index } => seq![0u8, 0u8, 0u8, 5u8, 4u8] + be32_bytes(piece_index),
        Message::Bitfield(b) => be32_bytes((1 + b@.len()) as u32) + seq![5u8] + b@,
        Message::Request { index, begin, length } => seq![0u8, 0u8, 0u8, 13u8, 6u8] + be32_bytes(
            index,
        ) + be32_bytes(begin) + be32_bytes(length),
        Message::Piece { index, begin, block } => be32_bytes((9 + block@.len()) as u32)
            + seq![7u8] + be32_bytes(index) + be32_bytes(begin) + block@,
        Message::Cancel { index, begin, length } => seq![0u8, 0u8, 0u8, 13u8, 8u8] + be32_bytes(
            index,
        ) + be32_bytes(begin) + be32_bytes(length),
        Message::Port(p) => seq![0u8, 0u8, 0u8, 3u8, 9u8] + be16_bytes(p),
        Message::Handshake => Seq::<u8>::empty(),
        Message::Unhandled => Seq::<u8>::empty(),
    }
}

/// The declared payload length of the frame at the front of `bytes`.
pub open spec fn spec_len(bytes: Seq<u8>) -> int
    recommends
        bytes.len() >= 4,
{
    be32_val(bytes[0], bytes[1], bytes[2], bytes[3]) as int
}

/// Fewer bytes are present than the declared frame needs.
pub open spec fn decode_need_more(bytes: Seq<u8>) -> bool
    recommends
        bytes.len() >= 4,
{
    spec_len(bytes) >= 1 && bytes.len() < 4 + spec_len(bytes)
}

/// A complete, well-formed frame sits at the front of `bytes`.
pub open spec fn frame_ok(bytes: Seq<u8>) -> bool
    recommends
        bytes.len() >= 4,
{
    let l = spec_len(bytes);
    if l == 0 {
        true
    } else if bytes.len() < 4 + l {
        false
    } else {
        let id = bytes[4];
        if id == 0 || id == 1 || id == 2 || id == 3 {
            l == 1
        } else if id == 4 {
            l == 5
        } else if id == 5 {
            true
        } else if id == 6 || id == 8 {
            l == 13
        } else if id == 7 {
            l >= 9
        } else if id == 9 {
            l == 3
        } else {
            false
        }
    }
}

/// `m` is the message carried by the well-formed frame at the front of
/// `bytes` (vectors compared by contents).
pub open spec fn msg_matches(bytes: Seq<u8>, m: Message) -> bool
    recommends
        bytes.len() >= 4,
        frame_ok(bytes),
{
    let l = spec_len(bytes);
    if l == 0 {
        m is KeepAlive
    } else {
        let id = bytes[4];
        if id == 0 {
            m is Choke
        } else if id == 1 {
            m is Unchoke
        } else if id == 2 {
            m is Interested
        } else if id == 3 {
            m is NotInterested
        } else if id == 4 {
            m matches Message::Have { piece_index } && piece_index == be32_val(
                bytes[5],
                bytes[6],
                bytes[7],
                bytes[8],
            )
        } else if id == 5 {
            m matches Message::Bitfield(b) && b@ == bytes.subrange(5, 4 + l)
        } else if id == 6 {
            m matches Message::Request { index, begin, length } && index == be32_val(
                bytes[5],
                bytes[6],
                bytes[7],
                bytes[8],
            ) && begin == be32_val(bytes[9], bytes[10], bytes[11], bytes[12]) && length == be32_val(
                bytes[13],
                bytes[14],
                bytes[15],
                bytes[16],
            )
        } else if id == 7 {
            m matches Message::Piece { index, begin, block } && index == be32_val(
                bytes[5],
                bytes[6],
                bytes[7],
                bytes[8],
            ) && begin == be32_val(bytes[9], bytes[10], bytes[11], bytes[12]) && block@
                == bytes.subrange(13, 4 + l)
        } else if id == 8 {
            m matches Message::Cancel { index, begin, length } && index == be32_val(
                bytes[5],
                bytes[6],
                bytes[7],
                bytes[8],
            ) && begin == be32_val(bytes[9], bytes[10], bytes[11], bytes[12]) && length == be32_val(
                bytes[13],
                bytes[14],
                bytes[15],
                bytes[16],
            )
        } else {
            id == 9 && (m matches Message::Port(p) && p == be16_val(bytes[5], bytes[6]))
        }
    }
}

/// Big-endian read of four bytes.
pub fn u8_4_to_u32(bytes: &[u8]) -> (r: u32)
    requires
        bytes@.len() >= 4,
    ensures
        r == be32_val(bytes@[0], bytes@[1], bytes@[2], bytes@[3]),
{
    (bytes[3] as u32) | ((bytes[2] as u32) << 8u32) | ((bytes[1] as u32) << 16u32) | ((
    bytes[0] as u32) << 24u32)
}

/// Big-endian read of two bytes.
pub fn u8_2_to_u16(bytes: &[u8]) -> (r: u16)
    requires
        bytes@.len() >= 2,
    ensures
        r == be16_val(bytes@[0], bytes@[1]),
{
    (bytes[1] as u16) | ((bytes[0] as u16) << 8u16)
}

/// Append the four big-endian bytes of `x`.
fn push_be32(v: &mut Vec<u8>, x: u32)
    ensures
        final(v)@ == old(v)@ + be32_bytes(x),
{
    v.push((x >> 24u32) as u8);
    v.push((x >> 16u32) as u8);
    v.push((x >> 8u32) as u8);
    v.push(x as u8);
    proof {
        assert(v@ =~= old(v)@ + be32_bytes(x));
    }
}

/// Copy a byte slice onto the end of `v`.
fn push_bytes(v: &mut Vec<u8>, s: &[u8])
    ensures
        final(v)@ == old(v)@ + s@,
{
    let mut i: usize = 0;
    while i < s.len()
        invariant
            i <= s@.len(),
            v@ == old(v)@ + s@.subrange(0, i as int),
        decreases s@.len() - i,
    {
        v.push(s[i]);
        proof {
            assert(v@ =~= old(v)@ + s@.subrange(0, i + 1));
        }
        i += 1;
    }
    proof {
        assert(s@.subrange(0, s@.len() as int) =~= s@);
    }
}

impl Message {
    /// Encode this message for the wire; the internal markers encode to an
    /// empty buffer.
    pub fn to_byte_array(&self) -> (r: Vec<u8>)
        requires
            encodable(*self),
        ensures
            r@ == spec_encode(*self),
    {
        let mut v: Vec<u8> = Vec::new();
        match self {
            Message::KeepAlive => {
                v.push(0);
                v.push(0);
                v.push(0);
                v.push(0);
                proof {
                    assert(v@ =~= spec_encode(*self));
                }
            },
            Message::Choke => {
                v.push(0);
                v.push(0);
                v.push(0);
                v.push(1);
                v.push(0);
                proof {
                    assert(v@ =~= spec_encode(*self));
                }
            },
            Message::Unchoke => {
                v.push(0);
                v.push(0);
                v.push(0);
                v.push(1);
                v.push(1);
                proof {
                    assert(v@ =~= spec_encode(*self));
                }
            },
            Message::Interested => {
                v.push(0);
                v.push(0);
                v.push(0);
                v.push(1);
                v.push(2);
                proof {
                    assert(v@ =~= spec_encode(*self));
                }
            },
            Message::NotInterested => {
                v.push(0);
                v.push(0);
                v.push(0);
                v.push(1);
                v.push(3);
                proof {
                    assert(v@ =~= spec_encode(*self));
                }
            },
            Message::Have { piece_index } => {
                v.push(0);
                v.push(0);
                v.push(0);
                v.push(5);
                v.push(4);
                push_be32(&mut v, *piece_index);
                proof {
                    assert(v@ =~= spec_encode(*self));
                }
            },
            Message::Bitfield(b) => {
                let l: u32 = (b.len() as u32) + 1;
                push_be32(&mut v, l);
                v.push(5);
                push_bytes(&mut v, b.as_slice());
                proof {
                    assert(v@ =~= spec_encode(*self));
                }
            },
            Message::Request { index, begin, length } => {
                v.push(0);
                v.push(0);
                v.push(0);
                v.push(13);
                v.push(6);
                push_be32(&mut v, *index);
                push_be32(&mut v, *begin);
                push_be32(&mut v, *length);
                proof {
                    assert(v@ =~= spec_encode(*self));
                }
            },
            Message::Piece { index, begin, block } => {
                let l: u32 = (block.len() as u32) + 9;
                push_be32(&mut v, l);
                v.push(7);
                push_be32(&mut v, *index);
                push_be32(&mut v, *begin);
                push_bytes(&mut v, block.as_slice());
                proof {
                    assert(v@ =~= spec_encode(*self));
                }
            },
            Message::Cancel { index, begin, length } => {
                v.push(0);
                v.push(0);
                v.push(0);
                v.push(13);
                v.push(8);
                push_be32(&mut v, *index);
                push_be32(&mut v, *begin);
                push_be32(&mut v, *length);
                proof {
                    assert(v@ =~= spec_encode(*self));
                }
            },
            Message::Port(p) => {
                v.push(0);
                v.push(0);
                v.push(0);
                v.push(3);
                v.push(9);
                v.push((*p >> 8u16) as u8);
                v.push(*p as u8);
                proof {
                    assert(v@ =~= spec_encode(*self));
                }
            },
            Message::Handshake => {
                proof {
                    assert(v@ =~= spec_encode(*self));
                }
            },
            Message::Unhandled => {
                proof {
                    assert(v@ =~= spec_encode(*self));
                }
            },
        }
        v
    }
}

/// Decode the frame at the front of `bytes`.
///
/// Returns the message and the number of bytes consumed for a complete,
/// well-formed frame; `Ok(None)` when the frame's declared length exceeds
/// the bytes present; and a protocol error for a complete frame with an
/// unknown type id or a payload of the wrong shape.  Never consumes
/// partially.
pub fn try_decode(bytes: &[u8]) -> (r: Result<Option<(Message, usize)>, ProtocolError>)
    requires
        bytes@.len() >= 4,
    ensures
        match r {
            Ok(Some((m, n))) => frame_ok(bytes@) && msg_matches(bytes@, m) && n == 4 + spec_len(
                bytes@,
            ),
            Ok(None) => decode_need_more(bytes@),
            Err(_) => !frame_ok(bytes@) && !decode_need_more(bytes@),
        },
{
    let len_u32: u32 = u8_4_to_u32(bytes);
    if len_u32 == 0 {
        return Ok(Some((Message::KeepAlive, 4)));
    }
    let len: usize = len_u32 as usize;
    if bytes.len() - 4 < len {
        return Ok(None);
    }
    let id: u8 = bytes[4];
    match id {
        0 => {
            if len == 1 {
                Ok(Some((Message::Choke, 5)))
            } else {
                Err(ProtocolError)
            }
        },
        1 => {
            if len == 1 {
                Ok(Some((Message::Unchoke, 5)))
            } else {
                Err(ProtocolError)
            }
        },
        2 => {
            if len == 1 {
                Ok(Some((Message::Interested, 5)))
            } else {
                Err(ProtocolError)
            }
        },
        3 => {
            if len == 1 {
                Ok(Some((Message::NotInterested, 5)))
            } else {
                Err(ProtocolError)
            }
        },
        4 => {
            if len == 5 {
                let piece_index = u8_4_to_u32(&bytes[5..9]);
                Ok(Some((Message::Have { piece_index }, 9)))
            } else {
                Err(ProtocolError)
            }
        },
        5 => {
            let payload = vstd::slice::slice_to_vec(&bytes[5..4 + len]);
            Ok(Some((Message::Bitfield(payload), 4 + len)))
        },
        6 => {
            if len == 13 {
                let index = u8_4_to_u32(&bytes[5..9]);
                let begin = u8_4_to_u32(&bytes[9..13]);
                let length = u8_4_to_u32(&bytes[13..17]);
                Ok(Some((Message::Request { index, begin, length }, 17)))
            } else {
                Err(ProtocolError)
            }
        },
        7 => {
            if len >= 9 {
                let index = u8_4_to_u32(&bytes[5..9]);
                let begin = u8_4_to_u32(&bytes[9..13]);
                let block = vstd::slice::slice_to_vec(&bytes[13..4 + len]);
                Ok(Some((Message::Piece { index, begin, block }, 4 + len)))
            } else {
                Err(ProtocolError)
            }
        },
        8 => {
            if len == 13 {
                let index = u8_4_to_u32(&bytes[5..9]);
                let begin = u8_4_to_u32(&bytes[9..13]);
                let length = u8_4_to_u32(&bytes[13..17]);
                Ok(Some((Message::Cancel { index, begin, length }, 17)))
            } else {
                Err(ProtocolError)
            }
        },
        9 => {
            if len == 3 {
                let port = u8_2_to_u16(&bytes[5..7]);
                Ok(Some((Message::Port(port), 7)))
            } else {
                Err(ProtocolError)
            }
        },
        _ => Err(ProtocolError),
    }
}

/// Encoding any wire message and decoding the result yields that message
/// back, consuming exactly the encoded length: the decoder is the exact
/// inverse of the encoder on every producible variant.
pub proof fn lemma_codec_round_trip(m: Message)
    requires
        wire_variant(m),
        encodable(m),
    ensures
        spec_encode(m).len() >= 4,
        frame_ok(spec_encode(m)),
        !decode_need_more(spec_encode(m)),
        msg_matches(spec_encode(m), m),
        4 + spec_len(spec_encode(m)) == spec_encode(m).len(),
{
    let e = spec_encode(m);
    match m {
        Message::KeepAlive => {
            assert(be32_val(0u8, 0u8, 0u8, 0u8) == 0u32) by (bit_vector);
        },
        Message::Choke => {
            assert(be32_val(0u8, 0u8, 0u8, 1u8) == 1u32) by (bit_vector);
        },
        Message::Unchoke => {
            assert(be32_val(0u8, 0u8, 0u8, 1u8) == 1u32) by (bit_vector);
        },
        Message::Interested => {
            assert(be32_val(0u8, 0u8, 0u8, 1u8) == 1u32) by (bit_vector);
        },
        Message::NotInterested => {
            assert(be32_val(0u8, 0u8, 0u8, 1u8) == 1u32) by (bit_vector);
        },
        Message::Have { piece_index } => {
            assert(be32_val(0u8, 0u8, 0u8, 5u8) == 5u32) by (bit_vector);
            lemma_be32_round_trip(piece_index);
        },
        Message::Bitfield(b) => {
            let l: u32 = (1 + b@.len()) as u32;
            lemma_be32_round_trip(l);
            assert(l as int == 1 + b@.len());
            assert(e[4] == 5u8);
            assert(e.subrange(5, 4 + spec_len(e)) =~= b@);
        },
        Message::Request { index, begin, length } => {
            assert(be32_val(0u8, 0u8, 0u8, 13u8) == 13u32) by (bit_vector);
            lemma_be32_round_trip(index);
            lemma_be32_round_trip(begin);
            lemma_be32_round_trip(length);
        },
        Message::Piece { index, begin, block } => {
            let l: u32 = (9 + block@.len()) as u32;
            lemma_be32_round_trip(l);
            assert(l as int == 9 + block@.len());
            assert(e[4] == 7u8);
            lemma_be32_round_trip(index);
            lemma_be32_round_trip(begin);
            assert(e.subrange(13, 4 + spec_len(e)) =~= block@);
        },
        Message::Cancel { index, begin, length } => {
            assert(be32_val(0u8, 0u8, 0u8, 13u8) == 13u32) by (bit_vector);
            lemma_be32_round_trip(index);
            lemma_be32_round_trip(begin);
            lemma_be32_round_trip(length);
        },
        Message::Port(p) => {
            assert(be32_val(0u8, 0u8, 0u8, 3u8) == 3u32) by (bit_vector);
            lemma_be16_round_trip(p);
        },
        Message::Handshake => {
            assert(false);
        },
        Message::Unhandled => {
            assert(false);
        },
    }
}

} // verus!
