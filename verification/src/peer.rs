//! Per-peer connection state and the handshake codec.
//!
//! A `Peer` pairs the remote peer id with the connection's protocol
//! `State`: the four choke/interest flags, the peer's advertised pieces as a
//! bitfield and as a canonical range list, and whether any wire message has
//! been applied yet (a bitfield is legal only as the first message).

use vstd::prelude::*;

use crate::chunk::bitfield_bit;
use crate::chunk::canonical;
use crate::chunk::covers;
use crate::chunk::set_bit_effect;
use crate::chunk::whole_pieces;
use crate::chunk::Piece;
use crate::chunk::Position;
use crate::tracker::PEER_ID_LENGTH;
use rand::distr::Distribution;
use vstd::string::StringSliceAdditionalSpecFns;

verus! {

/// A connected remote peer: its id and protocol state.
#[derive(Debug, Clone)]
pub struct Peer {
    pub id: String,
    pub state: State,
}

impl Peer {
    pub fn new(id: String) -> (p: Peer)
        ensures
            p.id == id,
            state_initial(p.state),
            state_wf(p.state),
    {
        Peer { id, state: State::new() }
    }
}

/// Protocol state of one connection.
#[derive(Debug, Clone)]
pub struct State {
    /// are we choked by them?
    pub us_choked: bool,
    /// are we interested in them?
    pub us_interested: bool,
    /// are they choked by us?
    pub is_choked: bool,
    /// are they interested in us?
    pub is_interested: bool,
    /// the peer's advertised pieces, as a packed bitfield
    pub bitfield: Vec<u8>,
    /// the peer's advertised pieces, as a canonical range list
    pub pieces: Vec<Piece>,
    /// has any wire message been applied to this state yet?
    pub seen_message: bool,
}

/// The range list of advertised pieces stays canonical and piece-aligned.
pub open spec fn state_wf(s: State) -> bool {
    &&& canonical(s.pieces@)
    &&& whole_pieces(s.pieces@)
}

/// The state of a fresh connection: choked both ways, interested neither
/// way, nothing advertised, no message applied yet.
pub open spec fn state_initial(s: State) -> bool {
    &&& s.us_choked == true
    &&& s.us_interested == false
    &&& s.is_choked == true
    &&& s.is_interested == false
    &&& s.bitfield@ == Seq::<u8>::empty()
    &&& s.pieces@ == Seq::<Piece>::empty()
    &&& s.seen_message == false
}

impl State {
    pub fn new() -> (s: State)
        ensures
            state_initial(s),
            state_wf(s),
    {
        State {
            us_choked: true,
            us_interested: false,
            is_choked: true,
            is_interested: false,
            bitfield: Vec::new(),
            pieces: Vec::new(),
            seen_message: false,
        }
    }

    pub fn set_us_interested(&mut self, us_interested: bool)
        ensures
            *final(self) == (State { us_interested, ..*old(self) }),
    {
        self.us_interested = us_interested;
    }

    pub fn set_bitfield(&mut self, bitfield: Vec<u8>)
        ensures
            *final(self) == (State { bitfield, ..*old(self) }),
    {
        self.bitfield = bitfield;
    }

    /// Replace the advertised range list by the decoded form of `bitfield`.
    pub fn set_pieces_from_bitfield(&mut self, bitfield: &[u8])
        requires
            8 * bitfield@.len() <= usize::MAX,
        ensures
            final(self).us_choked == old(self).us_choked,
            final(self).us_interested == old(self).us_interested,
            final(self).is_choked == old(self).is_choked,
            final(self).is_interested == old(self).is_interested,
            final(self).bitfield == old(self).bitfield,
            final(self).seen_message == old(self).seen_message,
            canonical(final(self).pieces@),
            whole_pieces(final(self).pieces@),
            forall|p: Position|
                #![trigger covers(final(self).pieces@, p)]
                covers(final(self).pieces@, p) <==> (p.index < 8 * bitfield@.len() && bitfield_bit(
                    bitfield@,
                    p.index as int,
                )),
    {
        self.pieces = Piece::convert_bitfield_to_piece_vec(bitfield);
    }

    /// Mark piece `index` as advertised in the packed bitfield, growing it
    /// as needed.
    pub fn set_have(&mut self, index: usize)
        ensures
            final(self).us_choked == old(self).us_choked,
            final(self).us_interested == old(self).us_interested,
            final(self).is_choked == old(self).is_choked,
            final(self).is_interested == old(self).is_interested,
            final(self).pieces == old(self).pieces,
            final(self).seen_message == old(self).seen_message,
            final(self).bitfield@.len() == if old(self).bitfield@.len() >= index / 8 + 1 {
                old(self).bitfield@.len() as int
            } else {
                index / 8 + 1
            },
            bitfield_bit(final(self).bitfield@, index as int),
            forall|k: int|
                0 <= k < 8 * final(self).bitfield@.len() && k != index ==> bitfield_bit(
                    final(self).bitfield@,
                    k,
                ) == (k < 8 * old(self).bitfield@.len() && bitfield_bit(old(self).bitfield@, k)),
    {
        set_have_bitfield(&mut self.bitfield, index);
    }

    pub fn set_us_choked(&mut self, us_choked: bool)
        ensures
            *final(self) == (State { us_choked, ..*old(self) }),
    {
        self.us_choked = us_choked;
    }
}

/// Set bit `index` (MSB-first) of a growable packed bitfield, extending it
/// with zero bytes when the bit lies past the end.
pub fn set_have_bitfield(bitfield: &mut Vec<u8>, index: usize)
    ensures
        final(bitfield)@.len() == if old(bitfield)@.len() >= index / 8 + 1 {
            old(bitfield)@.len() as int
        } else {
            index / 8 + 1
        },
        bitfield_bit(final(bitfield)@, index as int),
        forall|k: int|
            0 <= k < 8 * final(bitfield)@.len() && k != index ==> bitfield_bit(
                final(bitfield)@,
                k,
            ) == (k < 8 * old(bitfield)@.len() && bitfield_bit(old(bitfield)@, k)),
{
    proof {
        assert(index / 8 < usize::MAX) by (nonlinear_arith)
            requires
                index <= usize::MAX,
                usize::MAX >= 8,
        ;
        assert(index / 8 * 8 + index % 8 == index) by (nonlinear_arith);
        assert(0 <= index % 8 < 8);
    }
    let chunk_index: usize = index / 8;
    let chunk_posit: usize = index % 8;
    let needed: usize = chunk_index + 1;
    while bitfield.len() < needed
        invariant
            bitfield@.len() >= old(bitfield)@.len(),
            bitfield@.len() <= needed || bitfield@.len() == old(bitfield)@.len(),
            forall|k: int|
                0 <= k < old(bitfield)@.len() ==> #[trigger] bitfield@[k] == old(bitfield)@[k],
            forall|k: int| old(bitfield)@.len() <= k < bitfield@.len() ==> #[trigger] bitfield@[k]
                == 0u8,
        decreases needed - bitfield@.len(),
    {
        bitfield.push(0u8);
    }
    let ghost padded = bitfield@;
    proof {
        assert(padded.len() == if old(bitfield)@.len() >= index / 8 + 1 {
            old(bitfield)@.len() as int
        } else {
            index / 8 + 1
        });
        // bits of the zero padding are clear; bits of the copied prefix agree
        let oldlen = old(bitfield)@.len() as int;
        assert forall|k: int| 0 <= k < 8 * padded.len() implies #[trigger] bitfield_bit(padded, k)
            == (k < 8 * oldlen && bitfield_bit(old(bitfield)@, k)) by {
            assert(0 <= k % 8 < 8) by (nonlinear_arith)
                requires
                    k >= 0,
            ;
            assert(0 <= k / 8 < padded.len()) by (nonlinear_arith)
                requires
                    0 <= k < 8 * padded.len(),
            ;
            if k / 8 < oldlen {
                assert(k < 8 * oldlen) by (nonlinear_arith)
                    requires
                        k / 8 < oldlen,
                        k >= 0,
                ;
                assert(padded[k / 8] == old(bitfield)@[k / 8]);
            } else {
                assert(k >= 8 * oldlen) by (nonlinear_arith)
                    requires
                        k / 8 >= oldlen,
                        k >= 0,
                ;
                assert(padded[k / 8] == 0u8);
                let sh8: u8 = (7 - (k % 8)) as u8;
                assert((0u8 >> sh8) & 1u8 == 0u8) by (bit_vector);
            }
        }
    }
    let old_byte: u8 = bitfield[chunk_index];
    let elem = vstd::std_specs::vec::vec_index_mut(bitfield, chunk_index);
    *elem = old_byte | (128u8 >> (chunk_posit as u8));
    proof {
        set_bit_effect(padded, bitfield@, chunk_index as int, index as int);
    }
}

/// Split a received handshake into its five parts: protocol string,
/// reserved bytes, info hash, peer id, and whatever bytes followed the
/// 49 + pstrlen handshake proper (they belong to the message stream).
pub fn decode_handshake(resp: &[u8]) -> (r: (&[u8], &[u8], &[u8], &[u8], &[u8]))
    requires
        resp@.len() >= 1,
        resp@.len() >= 49 + resp@[0],
    ensures
        ({
            let pl = resp@[0] as int;
            &&& r.0@ == resp@.subrange(1, 1 + pl)
            &&& r.1@ == resp@.subrange(1 + pl, 9 + pl)
            &&& r.2@ == resp@.subrange(9 + pl, 29 + pl)
            &&& r.3@ == resp@.subrange(29 + pl, 49 + pl)
            &&& r.4@ == resp@.subrange(49 + pl, resp@.len() as int)
        }),
{
    let (pstrlen_part, a0) = resp.split_at(1);
    let pstrlen: u8 = pstrlen_part[0];
    let (protocol, a1) = a0.split_at(pstrlen as usize);
    let (reserved, a2) = a1.split_at(8);
    let (info_hash, a3) = a2.split_at(20);
    let (peer_id, remainder) = a3.split_at(20);
    proof {
        let pl = resp@[0] as int;
        assert(protocol@ =~= resp@.subrange(1, 1 + pl));
        assert(reserved@ =~= resp@.subrange(1 + pl, 9 + pl));
        assert(info_hash@ =~= resp@.subrange(9 + pl, 29 + pl));
        assert(peer_id@ =~= resp@.subrange(29 + pl, 49 + pl));
        assert(remainder@ =~= resp@.subrange(49 + pl, resp@.len() as int));
    }
    (protocol, reserved, info_hash, peer_id, remainder)
}

/// The 68-byte (for the standard protocol string) handshake: one length
/// byte, the protocol string, eight reserved zero bytes, the info hash, and
/// our peer id.
pub fn to_handshake(pstr: &str, info_hash: &[u8; 20], peer_id: &String) -> (r: Vec<u8>)
    requires
        pstr.spec_bytes().len() <= 255,
    ensures
        r@ == seq![pstr.spec_bytes().len() as u8] + pstr.spec_bytes() + seq![
            0u8,
            0u8,
            0u8,
            0u8,
            0u8,
            0u8,
            0u8,
            0u8,
        ] + info_hash@ + vstd::utf8::encode_utf8(peer_id@),
{
    let pstr_bytes: &[u8] = pstr.as_bytes();
    let mut v: Vec<u8> = Vec::new();
    v.push(pstr_bytes.len() as u8);
    let mut i: usize = 0;
    while i < pstr_bytes.len()
        invariant
            i <= pstr_bytes@.len(),
            v@ == seq![pstr_bytes@.len() as u8] + pstr_bytes@.subrange(0, i as int),
        decreases pstr_bytes@.len() - i,
    {
        v.push(pstr_bytes[i]);
        proof {
            assert(v@ =~= seq![pstr_bytes@.len() as u8] + pstr_bytes@.subrange(0, i + 1));
        }
        i += 1;
    }
    proof {
        assert(pstr_bytes@.subrange(0, pstr_bytes@.len() as int) =~= pstr_bytes@);
    }
    let mut k: usize = 0;
    while k < 8
        invariant
            k <= 8,
            v@ == seq![pstr_bytes@.len() as u8] + pstr_bytes@ + Seq::<u8>::new(
                k as nat,
                |m: int| 0u8,
            ),
        decreases 8 - k,
    {
        v.push(0u8);
        proof {
            assert(v@ =~= seq![pstr_bytes@.len() as u8] + pstr_bytes@ + Seq::<u8>::new(
                (k + 1) as nat,
                |m: int| 0u8,
            ));
        }
        k += 1;
    }
    let mut i2: usize = 0;
    while i2 < 20
        invariant
            i2 <= 20,
            info_hash@.len() == 20,
            v@ == seq![pstr_bytes@.len() as u8] + pstr_bytes@ + Seq::<u8>::new(8, |m: int| 0u8)
                + info_hash@.subrange(0, i2 as int),
        decreases 20 - i2,
    {
        v.push(info_hash[i2]);
        proof {
            assert(v@ =~= seq![pstr_bytes@.len() as u8] + pstr_bytes@ + Seq::<u8>::new(
                8,
                |m: int| 0u8,
            ) + info_hash@.subrange(0, i2 + 1));
        }
        i2 += 1;
    }
    proof {
        assert(info_hash@.subrange(0, 20) =~= info_hash@);
    }
    let id_bytes: &[u8] = peer_id.as_str().as_bytes();
    let mut i3: usize = 0;
    while i3 < id_bytes.len()
        invariant
            i3 <= id_bytes@.len(),
            v@ == seq![pstr_bytes@.len() as u8] + pstr_bytes@ + Seq::<u8>::new(8, |m: int| 0u8)
                + info_hash@ + id_bytes@.subrange(0, i3 as int),
        decreases id_bytes@.len() - i3,
    {
        v.push(id_bytes[i3]);
        proof {
            assert(v@ =~= seq![pstr_bytes@.len() as u8] + pstr_bytes@ + Seq::<u8>::new(
                8,
                |m: int| 0u8,
            ) + info_hash@ + id_bytes@.subrange(0, i3 + 1));
        }
        i3 += 1;
    }
    proof {
        assert(id_bytes@.subrange(0, id_bytes@.len() as int) =~= id_bytes@);
        assert(Seq::<u8>::new(8, |m: int| 0u8) =~= seq![0u8, 0u8, 0u8, 0u8, 0u8, 0u8, 0u8, 0u8]);
    }
    v
}

/// One ASCII letter or digit.
pub open spec fn is_alphanumeric_char(c: char) -> bool {
    ||| 'A' <= c <= 'Z'
    ||| 'a' <= c <= 'z'
    ||| '0' <= c <= '9'
}

/// The handshake acceptance check: the protocol string must read exactly
/// as expected and the peer's info hash must equal ours.
pub fn validate_handshake(
    protocol: &[u8],
    expected_protocol: &[u8],
    info_hash: &[u8],
    expected_hash: &[u8],
) -> (r: bool)
    ensures
        r == (protocol@ == expected_protocol@ && info_hash@ == expected_hash@),
{
    slices_eq(protocol, expected_protocol) && slices_eq(info_hash, expected_hash)
}

/// Byte-for-byte equality of two slices.
fn slices_eq(a: &[u8], b: &[u8]) -> (r: bool)
    ensures
        r == (a@ == b@),
{
    if a.len() != b.len() {
        proof {
            assert(a@ != b@);
        }
        return false;
    }
    let mut i: usize = 0;
    while i < a.len()
        invariant
            a@.len() == b@.len(),
            i <= a@.len(),
            forall|k: int| 0 <= k < i ==> a@[k] == b@[k],
        decreases a@.len() - i,
    {
        if a[i] != b[i] {
            proof {
                assert(a@ != b@);
            }
            return false;
        }
        i += 1;
    }
    proof {
        assert(a@ =~= b@);
    }
    true
}

/// Relies on rand's `Alphanumeric` distribution: each sample is one ASCII
/// letter or digit, so `n` samples give a string of `n` one-byte
/// characters.
#[verifier::external_body]
fn rand_alphanumeric(n: usize) -> (r: String)
    ensures
        r@.len() == n,
        vstd::utf8::is_ascii_chars(r@),
        forall|i: int| 0 <= i < r@.len() ==> is_alphanumeric_char(#[trigger] r@[i]),
{
    rand::distr::Alphanumeric
        .sample_iter(&mut rand::rng())
        .take(n)
        .map(char::from)
        .collect()
}

/// A fresh peer id: the client prefix followed by random alphanumeric
/// characters, twenty one-byte characters in all.
pub fn gen_rand_peer_id(prefix: &str) -> (r: String)
    requires
        prefix.is_ascii(),
        prefix@.len() <= PEER_ID_LENGTH,
    ensures
        r@.len() == PEER_ID_LENGTH,
        vstd::utf8::is_ascii_chars(r@),
        r@.subrange(0, prefix@.len() as int) == prefix@,
{
    let rand_length: usize = PEER_ID_LENGTH - prefix.len();
    let rand = rand_alphanumeric(rand_length);
    let mut out: String = prefix.to_owned();
    out.append(rand.as_str());
    proof {
        broadcast use vstd::string::is_ascii_spec_bytes;

        assert(prefix@.len() == prefix.spec_bytes().len());
        assert(out@.subrange(0, prefix@.len() as int) =~= prefix@);
        assert(vstd::utf8::is_ascii_chars(out@)) by {
            vstd::utf8::is_ascii_chars_concat(out@, prefix@, rand@);
        }
    }
    out
}

} // verus!
