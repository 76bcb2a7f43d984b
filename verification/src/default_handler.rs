//! Swarm-wide bookkeeping, the inbound message handler, and the scheduler
//! tick.
//!
//! `GlobalState` holds what the whole swarm shares: the ranges already
//! owned, the requests in flight with their issue times, the per-piece
//! availability counters, and the registry of connected peers.  The
//! handler applies one inbound message to a peer and to this state; the
//! tick issues `Request`s and keep-alives and expires stale requests.
//! Throughout, every in-flight range stays disjoint from the owned ranges
//! and from every other in-flight range.

use vstd::prelude::*;

use crate::bt_messages::Message;
use crate::chunk::abs_pos;
use crate::chunk::canonical;
use crate::chunk::compactable_at;
use crate::chunk::covers;
use crate::chunk::covers_witness;
use crate::chunk::in_range;
use crate::chunk::is_high_boundary;
use crate::chunk::is_low_boundary;
use crate::chunk::lemma_covers_insert;
use crate::chunk::pos_le;
use crate::chunk::pos_lt;
use crate::chunk::ranges_overlap;
use crate::chunk::valid_range;
use crate::chunk::wf_sorted;
use crate::chunk::whole_pieces;
use crate::chunk::Piece;
use crate::chunk::Position;
use crate::chunk::byte_bit;
use crate::chunk::bitfield_bit;
use crate::metadata::Metadata;
use crate::peer::state_wf;
use crate::peer::Peer;
use rand::seq::SliceRandom;

verus! {

/// Block length in bytes: the unit of a single `Request`.
pub const BLOCK_LENGTH: usize = 16384;

/// Cap on concurrently in-flight requests.
pub const WANT_LIMIT: usize = 1500;

/// At most `WANT_LIMIT / EXPIRE_FACTOR` stale requests are expired per tick.
pub const EXPIRE_FACTOR: usize = 2;

/// The element of `s` at `i`, or `d` past the end: byte slices of unequal
/// length are compared as if the shorter were padded with `d`.
pub open spec fn padded_at<T>(s: Seq<T>, d: T, i: int) -> T {
    if 0 <= i < s.len() {
        s[i]
    } else {
        d
    }
}

/// Zip-maps `func` over two equally long slices.
pub fn bitwise_byte_slice<F, T: Copy>(lhs: &[T], rhs: &[T], func: F) -> (r: Vec<T>) where
    F: Fn((T, T)) -> T,

    requires
        lhs@.len() == rhs@.len(),
        forall|i: int| 0 <= i < lhs@.len() ==> call_requires(func, ((lhs@[i], rhs@[i]),)),
    ensures
        r@.len() == lhs@.len(),
        forall|i: int|
            0 <= i < r@.len() ==> call_ensures(func, ((lhs@[i], rhs@[i]),), #[trigger] r@[i]),
{
    let mut r: Vec<T> = Vec::new();
    let mut i: usize = 0;
    while i < lhs.len()
        invariant
            lhs@.len() == rhs@.len(),
            i <= lhs@.len(),
            r@.len() == i,
            forall|k: int| 0 <= k < lhs@.len() ==> call_requires(func, ((lhs@[k], rhs@[k]),)),
            forall|k: int|
                0 <= k < i ==> call_ensures(func, ((lhs@[k], rhs@[k]),), #[trigger] r@[k]),
        decreases lhs@.len() - i,
    {
        let v: T = func((lhs[i], rhs[i]));
        r.push(v);
        i += 1;
    }
    r
}

/// Zip-maps `func` over two byte slices of possibly different lengths,
/// padding the shorter one with `default`.
pub fn apply_bitwise_slice_vbr_len<F, T: Copy>(lhs: &[T], rhs: &[T], default: T, func: F) -> (r:
    Vec<T>) where F: Fn((T, T)) -> T
    requires
        forall|i: int|
            0 <= i < vstd::math::max(lhs@.len() as int, rhs@.len() as int) ==> call_requires(
                func,
                ((padded_at(lhs@, default, i), padded_at(rhs@, default, i)),),
            ),
    ensures
        r@.len() == vstd::math::max(lhs@.len() as int, rhs@.len() as int),
        forall|i: int|
            0 <= i < r@.len() ==> call_ensures(
                func,
                ((padded_at(lhs@, default, i), padded_at(rhs@, default, i)),),
                #[trigger] r@[i],
            ),
{
    let llen: usize = lhs.len();
    let rlen: usize = rhs.len();
    if llen == rlen {
        proof {
            assert forall|i: int| 0 <= i < lhs@.len() implies call_requires(
                func,
                ((lhs@[i], rhs@[i]),),
            ) by {
                assert(call_requires(
                    func,
                    ((padded_at(lhs@, default, i), padded_at(rhs@, default, i)),),
                ));
            }
        }
        let r = bitwise_byte_slice(lhs, rhs, func);
        proof {
            assert forall|i: int| 0 <= i < r@.len() implies call_ensures(
                func,
                ((padded_at(lhs@, default, i), padded_at(rhs@, default, i)),),
                #[trigger] r@[i],
            ) by {
                assert(call_ensures(func, ((lhs@[i], rhs@[i]),), r@[i]));
            }
        }
        r
    } else if llen < rlen {
        let mut a: Vec<T> = Vec::new();
        let mut i: usize = 0;
        while i < llen
            invariant
                i <= llen,
                llen == lhs@.len(),
                a@.len() == i,
                forall|k: int| 0 <= k < i ==> #[trigger] a@[k] == lhs@[k],
            decreases llen - i,
        {
            a.push(lhs[i]);
            i += 1;
        }
        while i < rlen
            invariant
                llen <= i <= rlen,
                llen == lhs@.len(),
                rlen == rhs@.len(),
                a@.len() == i,
                forall|k: int| 0 <= k < llen ==> #[trigger] a@[k] == lhs@[k],
                forall|k: int| llen <= k < i ==> #[trigger] a@[k] == default,
            decreases rlen - i,
        {
            a.push(default);
            i += 1;
        }
        proof {
            assert(forall|k: int|
                0 <= k < rhs@.len() ==> #[trigger] a@[k] == padded_at(lhs@, default, k));
            assert forall|k: int| 0 <= k < a@.len() implies call_requires(
                func,
                ((a@[k], rhs@[k]),),
            ) by {
                assert(call_requires(
                    func,
                    ((padded_at(lhs@, default, k), padded_at(rhs@, default, k)),),
                ));
            }
        }
        let r = bitwise_byte_slice(a.as_slice(), rhs, func);
        proof {
            assert forall|k: int| 0 <= k < r@.len() implies call_ensures(
                func,
                ((padded_at(lhs@, default, k), padded_at(rhs@, default, k)),),
                #[trigger] r@[k],
            ) by {
                assert(call_ensures(func, ((a@[k], rhs@[k]),), r@[k]));
            }
        }
        r
    } else {
        let mut b: Vec<T> = Vec::new();
        let mut i: usize = 0;
        while i < rlen
            invariant
                i <= rlen,
                rlen == rhs@.len(),
                b@.len() == i,
                forall|k: int| 0 <= k < i ==> #[trigger] b@[k] == rhs@[k],
            decreases rlen - i,
        {
            b.push(rhs[i]);
            i += 1;
        }
        while i < llen
            invariant
                rlen <= i <= llen,
                llen == lhs@.len(),
                rlen == rhs@.len(),
                b@.len() == i,
                forall|k: int| 0 <= k < rlen ==> #[trigger] b@[k] == rhs@[k],
                forall|k: int| rlen <= k < i ==> #[trigger] b@[k] == default,
            decreases llen - i,
        {
            b.push(default);
            i += 1;
        }
        proof {
            assert(forall|k: int|
                0 <= k < lhs@.len() ==> #[trigger] b@[k] == padded_at(rhs@, default, k));
            assert forall|k: int| 0 <= k < b@.len() implies call_requires(
                func,
                ((lhs@[k], b@[k]),),
            ) by {
                assert(call_requires(
                    func,
                    ((padded_at(lhs@, default, k), padded_at(rhs@, default, k)),),
                ));
            }
        }
        let r = bitwise_byte_slice(lhs, b.as_slice(), func);
        proof {
            assert forall|k: int| 0 <= k < r@.len() implies call_ensures(
                func,
                ((padded_at(lhs@, default, k), padded_at(rhs@, default, k)),),
                #[trigger] r@[k],
            ) by {
                assert(call_ensures(func, ((lhs@[k], b@[k]),), r@[k]));
            }
        }
        r
    }
}

/// Byte-wise not-and of two bytes.
pub open spec fn byte_nand(a: u8, b: u8) -> u8 {
    !a & !b
}

/// Byte-wise and of two bytes.
pub open spec fn byte_and(a: u8, b: u8) -> u8 {
    a & b
}

/// `byte_nand` over a pair.
pub open spec fn byte_nand_pair(t: (u8, u8)) -> u8 {
    let (x, y) = t;
    byte_nand(x, y)
}

/// `byte_and` over a pair.
pub open spec fn byte_and_pair(t: (u8, u8)) -> u8 {
    let (x, y) = t;
    byte_and(x, y)
}

/// Byte-wise `!a & !b` of two bitfields, the shorter padded with zeros: a
/// set bit means neither input had it set.
pub fn nand_slice_vbr_len(lhs: &[u8], rhs: &[u8]) -> (r: Vec<u8>)
    ensures
        r@.len() == vstd::math::max(lhs@.len() as int, rhs@.len() as int),
        forall|i: int|
            0 <= i < r@.len() ==> #[trigger] r@[i] == byte_nand(
                padded_at(lhs@, 0u8, i),
                padded_at(rhs@, 0u8, i),
            ),
{
    let r = apply_bitwise_slice_vbr_len(
        lhs,
        rhs,
        0u8,
        (|t: (u8, u8)| -> (o: u8)
            ensures
                o == byte_nand_pair(t),
            {
                let (x, y) = t;
                !x & !y
            }),
    );
    r
}

/// Byte-wise `a & b` of two bitfields, the shorter padded with ones.
pub fn and_slice_vbr_len(lhs: &[u8], rhs: &[u8]) -> (r: Vec<u8>)
    ensures
        r@.len() == vstd::math::max(lhs@.len() as int, rhs@.len() as int),
        forall|i: int|
            0 <= i < r@.len() ==> #[trigger] r@[i] == byte_and(
                padded_at(lhs@, 255u8, i),
                padded_at(rhs@, 255u8, i),
            ),
{
    let r = apply_bitwise_slice_vbr_len(
        lhs,
        rhs,
        255u8,
        (|t: (u8, u8)| -> (o: u8)
            ensures
                o == byte_and_pair(t),
            {
                let (x, y) = t;
                x & y
            }),
    );
    r
}

/// Order on positions agrees with absolute byte offsets, as long as both
/// offsets are within a piece.
pub proof fn lemma_abs_order(p: Position, q: Position, plen: int)
    requires
        plen > 0,
        p.offset < plen,
        q.offset < plen,
    ensures
        pos_lt(p, q) ==> abs_pos(p, plen) < abs_pos(q, plen),
        pos_le(p, q) ==> abs_pos(p, plen) <= abs_pos(q, plen),
{
    if p.index < q.index {
        assert((q.index - p.index) * plen >= plen) by (nonlinear_arith)
            requires
                q.index - p.index >= 1,
                plen > 0,
        ;
        assert(q.index * plen - p.index * plen == (q.index - p.index) * plen) by (nonlinear_arith);
    } else if q.index < p.index {
        assert((p.index - q.index) * plen >= plen) by (nonlinear_arith)
            requires
                p.index - q.index >= 1,
                plen > 0,
        ;
        assert(p.index * plen - q.index * plen == (p.index - q.index) * plen) by (nonlinear_arith);
    }
}

/// Two overlapping ranges share a concrete position: the larger of the two
/// starts.
pub proof fn lemma_overlap_witness(r1: Piece, r2: Piece) -> (p: Position)
    requires
        ranges_overlap(r1, r2),
        valid_range(r1),
        valid_range(r2),
    ensures
        in_range(r1, p),
        in_range(r2, p),
{
    if pos_le(r1.start, r2.start) {
        r2.start
    } else {
        r1.start
    }
}

/// The first block-sized range at the head of a non-empty range list: it
/// begins at the list's first position, never crosses a piece boundary,
/// and never exceeds the first range.
pub fn slice_piece(pieces: &[Piece], piece_length: &usize, block_size: &usize) -> (r: Piece)
    requires
        pieces@.len() > 0,
        *piece_length > 0,
        *block_size > 0,
        valid_range(pieces@[0]),
        pieces@[0].start.offset < *piece_length,
        pieces@[0].end.offset < *piece_length,
        abs_pos(pieces@[0].end, *piece_length as int) <= usize::MAX,
    ensures
        r.start == pieces@[0].start,
        r.end.offset < *piece_length,
        valid_range(r),
        pos_le(r.end, pieces@[0].end),
        abs_pos(r.end, *piece_length as int) - abs_pos(r.start, *piece_length as int)
            == vstd::math::min(
            *block_size as int,
            vstd::math::min(
                *piece_length - pieces@[0].start.offset,
                abs_pos(pieces@[0].end, *piece_length as int) - abs_pos(
                    pieces@[0].start,
                    *piece_length as int,
                ),
            ),
        ),
{
    let start: Position = pieces[0].start;
    let end: Position = pieces[0].end;
    proof {
        lemma_abs_order(start, end, *piece_length as int);
        assert(start.index * (*piece_length as int) <= abs_pos(start, *piece_length as int));
    }
    let abs_start: usize = start.index * *piece_length + start.offset;
    let abs_end: usize = end.index * *piece_length + end.offset;
    let avail_piece: usize = *piece_length - start.offset;
    let avail_range: usize = abs_end - abs_start;
    let mut take: usize = *block_size;
    if avail_piece < take {
        take = avail_piece;
    }
    if avail_range < take {
        take = avail_range;
    }
    let end_off: usize = start.offset + take;
    let r_end: Position = if end_off == *piece_length {
        proof {
            assert((start.index + 1) * (*piece_length as int) == start.index * (
            *piece_length as int) + (*piece_length as int)) by (nonlinear_arith);
        }
        Position { index: start.index + 1, offset: 0 }
    } else {
        Position { index: start.index, offset: end_off }
    };
    proof {
        lemma_abs_order(r_end, end, *piece_length as int);
        lemma_abs_order(end, r_end, *piece_length as int);
        assert(abs_pos(r_end, *piece_length as int) <= abs_pos(end, *piece_length as int));
        if pos_lt(end, r_end) {
            assert(abs_pos(end, *piece_length as int) < abs_pos(r_end, *piece_length as int));
            assert(false);
        }
    }
    Piece { start, end: r_end }
}

/// One registered peer: its protocol state, the time an outbound message
/// was last sent to it, and its wire peer id.
pub struct PeerEntry {
    pub peer: Peer,
    pub last_send: i64,
    pub peer_id: Vec<u8>,
}

/// Shared swarm state.
pub struct GlobalState {
    /// per-piece count of connected peers advertising that piece
    pub gpc: Vec<u16>,
    /// owned pieces as a packed bitfield (kept for rarity queries)
    pub owned: Vec<u8>,
    /// owned pieces as a canonical whole-piece range list
    pub owned_pieces: Vec<Piece>,
    /// requested pieces as a packed bitfield (kept for rarity queries)
    pub request_map: Vec<u8>,
    /// in-flight requests, each with the time it was issued
    pub requests: Vec<(Piece, i64)>,
    pub piece_length: usize,
    pub pieces_hash: Vec<u8>,
    pub peer_list: Vec<PeerEntry>,
}

impl GlobalState {
    /// The availability counters.
    pub open spec fn spec_gpc(&self) -> Seq<u16> {
        self.gpc@
    }

    /// Bytes of each piece.
    pub open spec fn spec_piece_length(&self) -> int {
        self.piece_length as int
    }

    /// Concatenated SHA-1 digests, twenty bytes per piece.
    pub open spec fn spec_pieces_hash(&self) -> Seq<u8> {
        self.pieces_hash@
    }

    /// Number of pieces in the torrent.
    pub open spec fn total_pieces(&self) -> int {
        self.spec_pieces_hash().len() as int / 20
    }

    /// The registered peers.
    pub open spec fn spec_peers(&self) -> Seq<PeerEntry> {
        self.peer_list@
    }

    pub fn piece_length(&self) -> (r: usize)
        ensures
            r == self.spec_piece_length(),
    {
        self.piece_length
    }

    pub fn num_peers(&self) -> (r: usize)
        ensures
            r == self.spec_peers().len(),
    {
        self.peer_list.len()
    }
}

/// The availability count for piece `k`; pieces past the end of the
/// counter vector count zero.
pub open spec fn gpc_at(g: Seq<u16>, k: int) -> u16 {
    if 0 <= k < g.len() {
        g[k]
    } else {
        0u16
    }
}

/// An in-flight or owned range is shaped for this torrent: non-empty, its
/// offsets inside a piece, and within the torrent's pieces.
pub open spec fn range_in_torrent(r: Piece, g: GlobalState) -> bool {
    &&& valid_range(r)
    &&& r.start.offset < g.spec_piece_length()
    &&& r.end.offset < g.spec_piece_length()
    &&& r.end.index <= g.total_pieces() + 7
}

/// The swarm invariant.
///
/// The owned list is canonical and piece-aligned; every in-flight request
/// is a well-shaped range disjoint from the owned ranges and from every
/// other in-flight range; every registered peer's advertised list is
/// canonical and piece-aligned and lies within the torrent.
///
/// The owned bitfield (`owned`, read by the rarity queries) is kept in
/// step with the owned range list by `piece_verified`, which marks both;
/// their agreement is not itself a clause here, so the rarity queries'
/// contracts speak of the bitfields alone.
pub open spec fn swarm_wf(g: GlobalState) -> bool {
    &&& g.spec_piece_length() > 0
    &&& g.spec_piece_length() <= u32::MAX
    &&& g.total_pieces() + 8 <= u32::MAX
    &&& (g.total_pieces() + 8) * g.spec_piece_length() <= usize::MAX
    &&& canonical(g.owned_pieces@)
    &&& whole_pieces(g.owned_pieces@)
    &&& forall|m: int|
        0 <= m < g.owned_pieces@.len() ==> (#[trigger] g.owned_pieces@[m]).end.index
            <= g.total_pieces()
    &&& forall|k: int|
        0 <= k < g.requests@.len() ==> range_in_torrent((#[trigger] g.requests@[k]).0, g)
    &&& forall|k: int, m: int|
        0 <= k < g.requests@.len() && 0 <= m < g.owned_pieces@.len() ==> !ranges_overlap(
            (#[trigger] g.requests@[k]).0,
            #[trigger] g.owned_pieces@[m],
        )
    &&& forall|k1: int, k2: int|
        0 <= k1 < g.requests@.len() && 0 <= k2 < g.requests@.len() && k1 != k2 ==> !ranges_overlap(
            (#[trigger] g.requests@[k1]).0,
            (#[trigger] g.requests@[k2]).0,
        )
    &&& forall|e: int|
        0 <= e < g.spec_peers().len() ==> state_wf((#[trigger] g.spec_peers()[e]).peer.state)
    &&& forall|e: int, m: int|
        0 <= e < g.spec_peers().len() && 0 <= m
            < g.spec_peers()[e].peer.state.pieces@.len() ==> ((
        #[trigger] g.spec_peers()[e].peer.state.pieces@[m]).end.index <= g.total_pieces() + 7)
}

/// Every in-flight range is disjoint from every owned range: requested
/// bytes are never bytes already held.
pub proof fn lemma_in_flight_disjoint_from_owned(g: GlobalState)
    requires
        swarm_wf(g),
    ensures
        forall|k: int, m: int|
            0 <= k < g.requests@.len() && 0 <= m < g.owned_pieces@.len() ==> !ranges_overlap(
                (#[trigger] g.requests@[k]).0,
                #[trigger] g.owned_pieces@[m],
            ),
{
}


/// Relies on time's `OffsetDateTime::now_utc` and `unix_timestamp`: the
/// wall clock, in whole seconds.
#[verifier::external_body]
fn now_seconds() -> i64 {
    time::OffsetDateTime::now_utc().unix_timestamp()
}

/// Relies on rand's `SliceRandom::shuffle`: the slice is permuted in
/// place, so the entries afterwards are exactly the entries before.
#[verifier::external_body]
fn shuffle_entries<T>(v: &mut Vec<T>)
    ensures
        final(v)@.to_multiset() == old(v)@.to_multiset(),
{
    v.as_mut_slice().shuffle(&mut rand::rng());
}

/// Length of the claim bitfields: the longer of the owned map and the
/// request map.
pub open spec fn claim_maps_len(g: GlobalState) -> int {
    vstd::math::max(g.owned@.len() as int, g.request_map@.len() as int)
}

/// Bit `k` of the owned bitfield; bits past the end are clear.
pub open spec fn owned_map_bit(g: GlobalState, k: int) -> bool {
    byte_bit(padded_at(g.owned@, 0u8, k / 8), k % 8)
}

/// Bit `k` of the request bitfield; bits past the end are clear.
pub open spec fn request_map_bit(g: GlobalState, k: int) -> bool {
    byte_bit(padded_at(g.request_map@, 0u8, k / 8), k % 8)
}

/// Piece `k` is neither owned nor requested, per the claim bitfields.
pub open spec fn unclaimed_map_bit(g: GlobalState, k: int) -> bool {
    !owned_map_bit(g, k) && !request_map_bit(g, k)
}

/// A nand of two bytes has exactly the bits that both inputs have clear.
proof fn lemma_nand_bit(x: u8, y: u8, kk: u8)
    requires
        kk < 8,
    ensures
        byte_bit(byte_nand(x, y), kk as int) == (!byte_bit(x, kk as int) && !byte_bit(
            y,
            kk as int,
        )),
{
    assert(kk < 8 ==> ((((!x & !y) >> ((7 - kk) as u8)) & 1u8 == 1u8) == (!((x >> ((7
        - kk) as u8)) & 1u8 == 1u8) && !((y >> ((7 - kk) as u8)) & 1u8 == 1u8)))) by (bit_vector);
    assert(((7 - (kk as int)) as u8) == (7 - kk) as u8);
}

/// An and of two bytes has exactly the bits both inputs have set.
proof fn lemma_and_bit(x: u8, y: u8, kk: u8)
    requires
        kk < 8,
    ensures
        byte_bit(byte_and(x, y), kk as int) == (byte_bit(x, kk as int) && byte_bit(y, kk as int)),
{
    assert(kk < 8 ==> ((((x & y) >> ((7 - kk) as u8)) & 1u8 == 1u8) == (((x >> ((7 - kk) as u8))
        & 1u8 == 1u8) && ((y >> ((7 - kk) as u8)) & 1u8 == 1u8)))) by (bit_vector);
    assert(((7 - (kk as int)) as u8) == (7 - kk) as u8);
}

/// First index attaining the minimal availability among the set bits of
/// `eligible` — `None` when every set bit's piece is at the counter's
/// ceiling (or there is none).
fn rarest_in(eligible: &[u8], gpc: &[u16]) -> (r: Option<usize>)
    requires
        8 * eligible@.len() <= usize::MAX,
    ensures
        match r {
            Some(k0) => {
                &&& k0 < 8 * eligible@.len()
                &&& bitfield_bit(eligible@, k0 as int)
                &&& gpc_at(gpc@, k0 as int) < 65535
                &&& forall|k: int|
                    0 <= k < 8 * eligible@.len() && bitfield_bit(eligible@, k) ==> gpc_at(gpc@, k)
                        >= gpc_at(gpc@, k0 as int)
                &&& forall|k: int|
                    0 <= k < k0 && bitfield_bit(eligible@, k) ==> gpc_at(gpc@, k) > gpc_at(
                        gpc@,
                        k0 as int,
                    )
            },
            None => forall|k: int|
                0 <= k < 8 * eligible@.len() && bitfield_bit(eligible@, k) ==> gpc_at(gpc@, k)
                    == 65535,
        },
{
    let total: usize = 8 * eligible.len();
    let mut k: usize = 0;
    let mut have_best: bool = false;
    let mut best: usize = 0;
    let mut best_pop: u16 = 65535;
    while k < total
        invariant
            total == 8 * eligible@.len(),
            k <= total,
            !have_best ==> best_pop == 65535,
            !have_best ==> (forall|m: int|
                0 <= m < k && bitfield_bit(eligible@, m) ==> gpc_at(gpc@, m) == 65535),
            have_best ==> {
                &&& best < k
                &&& bitfield_bit(eligible@, best as int)
                &&& gpc_at(gpc@, best as int) == best_pop
                &&& best_pop < 65535
                &&& forall|m: int|
                    0 <= m < k && bitfield_bit(eligible@, m) ==> gpc_at(gpc@, m) >= best_pop
                &&& forall|m: int|
                    0 <= m < best && bitfield_bit(eligible@, m) ==> gpc_at(gpc@, m) > best_pop
            },
        decreases total - k,
    {
        proof {
            assert(k / 8 < eligible@.len()) by (nonlinear_arith)
                requires
                    k < 8 * eligible@.len(),
                    k >= 0,
            ;
            assert(0 <= k % 8 < 8);
        }
        let byte: u8 = eligible[k / 8];
        let sh: u8 = (7 - (k % 8)) as u8;
        let bit: bool = (byte >> sh) & 1u8 == 1u8;
        proof {
            assert(bit == bitfield_bit(eligible@, k as int));
        }
        if bit {
            let population: u16 = if k < gpc.len() {
                gpc[k]
            } else {
                0
            };
            if population < best_pop {
                have_best = true;
                best = k;
                best_pop = population;
            }
        }
        k += 1;
    }
    if have_best {
        Some(best)
    } else {
        None
    }
}

impl GlobalState {
    pub fn new(metadata: &Metadata) -> (g: GlobalState)
        requires
            metadata.piece_length > 0,
            metadata.piece_length <= u32::MAX,
            metadata.pieces@.len() as int / 20 + 8 <= u32::MAX,
            (metadata.pieces@.len() as int / 20 + 8) * metadata.piece_length <= usize::MAX,
        ensures
            swarm_wf(g),
            g.spec_piece_length() == metadata.piece_length,
            g.spec_pieces_hash() == metadata.pieces@,
            g.gpc@.len() == 0,
            g.owned@.len() == 0,
            g.owned_pieces@.len() == 0,
            g.request_map@.len() == 0,
            g.requests@.len() == 0,
            g.spec_peers().len() == 0,
    {
        let mut hash_copy: Vec<u8> = Vec::new();
        let mut i: usize = 0;
        let n: usize = metadata.pieces.len();
        while i < n
            invariant
                n == metadata.pieces@.len(),
                i <= n,
                hash_copy@ == metadata.pieces@.take(i as int),
            decreases n - i,
        {
            hash_copy.push(metadata.pieces[i]);
            proof {
                assert(hash_copy@ =~= metadata.pieces@.take(i + 1));
            }
            i += 1;
        }
        proof {
            assert(metadata.pieces@.take(n as int) =~= metadata.pieces@);
        }
        GlobalState {
            gpc: Vec::new(),
            owned: Vec::new(),
            owned_pieces: Vec::new(),
            request_map: Vec::new(),
            requests: Vec::new(),
            piece_length: metadata.piece_length as usize,
            pieces_hash: hash_copy,
            peer_list: Vec::new(),
        }
    }

    /// Register a connected peer, stamping it with the current time as its
    /// last outbound activity.
    pub fn add_new_peer(&mut self, peer: Peer, peer_id: Vec<u8>)
        requires
            swarm_wf(*old(self)),
            state_wf(peer.state),
            forall|m: int|
                0 <= m < peer.state.pieces@.len() ==> (#[trigger] peer.state.pieces@[m]).end.index
                    <= old(self).total_pieces() + 7,
        ensures
            swarm_wf(*final(self)),
            final(self).spec_peers().len() == old(self).spec_peers().len() + 1,
            forall|e: int|
                0 <= e < old(self).spec_peers().len() ==> #[trigger] final(self).spec_peers()[e]
                    == old(self).spec_peers()[e],
            final(self).spec_peers().last().peer == peer,
            final(self).spec_peers().last().peer_id == peer_id,
            final(self).gpc == old(self).gpc,
            final(self).owned == old(self).owned,
            final(self).owned_pieces == old(self).owned_pieces,
            final(self).request_map == old(self).request_map,
            final(self).requests == old(self).requests,
            final(self).piece_length == old(self).piece_length,
            final(self).pieces_hash == old(self).pieces_hash,
    {
        let last_checkin: i64 = now_seconds();
        self.peer_list.push(PeerEntry { peer, last_send: last_checkin, peer_id });
    }

    /// Drop every registered peer whose wire id equals `id`; all others
    /// stay registered.  The contract pins the surviving entries by
    /// membership in both directions; it does not promise their order or
    /// multiplicity, so callers should not lean on either.
    pub fn remove_peer(&mut self, id: &[u8])
        requires
            swarm_wf(*old(self)),
        ensures
            swarm_wf(*final(self)),
            forall|k: int|
                0 <= k < final(self).spec_peers().len()
                    ==> (#[trigger] final(self).spec_peers()[k]).peer_id@ != id@,
            forall|k: int|
                0 <= k < final(self).spec_peers().len() ==> old(self).spec_peers().contains(
                    #[trigger] final(self).spec_peers()[k],
                ),
            forall|w: int|
                0 <= w < old(self).spec_peers().len()
                    && (#[trigger] old(self).spec_peers()[w]).peer_id@ != id@
                    ==> final(self).spec_peers().contains(old(self).spec_peers()[w]),
            final(self).gpc == old(self).gpc,
            final(self).owned == old(self).owned,
            final(self).owned_pieces == old(self).owned_pieces,
            final(self).request_map == old(self).request_map,
            final(self).requests == old(self).requests,
            final(self).piece_length == old(self).piece_length,
            final(self).pieces_hash == old(self).pieces_hash,
    {
        let mut i: usize = 0;
        while i < self.peer_list.len()
            invariant
                i <= self.peer_list@.len(),
                forall|w: int|
                    0 <= w < i ==> (#[trigger] self.peer_list@[w]).peer_id@ != id@,
                forall|k: int|
                    0 <= k < self.peer_list@.len() ==> old(self).peer_list@.contains(
                        #[trigger] self.peer_list@[k],
                    ),
                forall|w: int|
                    0 <= w < old(self).peer_list@.len()
                        && (#[trigger] old(self).peer_list@[w]).peer_id@ != id@
                        ==> self.peer_list@.contains(old(self).peer_list@[w]),
                self.gpc == old(self).gpc,
                self.owned == old(self).owned,
                self.owned_pieces == old(self).owned_pieces,
                self.request_map == old(self).request_map,
                self.requests == old(self).requests,
                self.piece_length == old(self).piece_length,
                self.pieces_hash == old(self).pieces_hash,
            decreases self.peer_list@.len() - i,
        {
            let matches: bool = bytes_eq(self.peer_list[i].peer_id.as_slice(), id);
            if matches {
                let ghost prev = self.peer_list@;
                let ghost ii = i as int;
                let _removed = self.peer_list.remove(i);
                proof {
                    assert forall|k: int| 0 <= k < self.peer_list@.len() implies old(
                        self,
                    ).peer_list@.contains(#[trigger] self.peer_list@[k]) by {
                        if k < ii {
                            assert(self.peer_list@[k] == prev[k]);
                        } else {
                            assert(self.peer_list@[k] == prev[k + 1]);
                        }
                    }
                    assert forall|w: int|
                        0 <= w < old(self).peer_list@.len() && (#[trigger] old(
                            self,
                        ).peer_list@[w]).peer_id@ != id@ implies self.peer_list@.contains(
                        old(self).peer_list@[w],
                    ) by {
                        let x = old(self).peer_list@[w];
                        assert(prev.contains(x));
                        let widx = choose|widx: int| 0 <= widx < prev.len() && prev[widx] == x;
                        assert(widx != ii);
                        if widx < ii {
                            assert(self.peer_list@[widx] == x);
                        } else {
                            assert(self.peer_list@[widx - 1] == x);
                        }
                    }
                }
            } else {
                i += 1;
            }
        }
        proof {
            assert forall|k: int| 0 <= k < final(self).spec_peers().len() implies state_wf(
                (#[trigger] final(self).spec_peers()[k]).peer.state,
            ) && (forall|m: int|
                0 <= m < final(self).spec_peers()[k].peer.state.pieces@.len() ==> ((
                #[trigger] final(self).spec_peers()[k].peer.state.pieces@[m]).end.index <= old(
                    self,
                ).total_pieces() + 7)) by {
                let e = final(self).spec_peers()[k];
                assert(old(self).spec_peers().contains(e));
                let w = choose|w: int|
                    0 <= w < old(self).spec_peers().len() && old(self).spec_peers()[w] == e;
                assert(state_wf(old(self).spec_peers()[w].peer.state));
            }
        }
    }

    /// Raise the availability count of piece `piece_index` by `n`, growing
    /// the counter vector as needed; the count saturates at its ceiling.
    pub fn gpc_incr(&mut self, piece_index: usize, n: u16)
        requires
            piece_index < usize::MAX,
        ensures
            final(self).gpc@.len() == vstd::math::max(
                old(self).gpc@.len() as int,
                piece_index + 1,
            ),
            final(self).gpc@[piece_index as int] == (if gpc_at(old(self).gpc@, piece_index as int)
                + n > 65535 {
                65535
            } else {
                (gpc_at(old(self).gpc@, piece_index as int) + n) as u16
            }),
            forall|k: int|
                0 <= k < final(self).gpc@.len() && k != piece_index
                    ==> #[trigger] final(self).gpc@[k] == gpc_at(old(self).gpc@, k),
            final(self).owned == old(self).owned,
            final(self).owned_pieces == old(self).owned_pieces,
            final(self).request_map == old(self).request_map,
            final(self).requests == old(self).requests,
            final(self).piece_length == old(self).piece_length,
            final(self).pieces_hash == old(self).pieces_hash,
            final(self).peer_list == old(self).peer_list,
    {
        let needed: usize = piece_index + 1;
        while self.gpc.len() < needed
            invariant
                self.gpc@.len() >= old(self).gpc@.len(),
                self.gpc@.len() <= needed || self.gpc@.len() == old(self).gpc@.len(),
                forall|k: int| 0 <= k < old(self).gpc@.len() ==> #[trigger] self.gpc@[k] == old(
                    self,
                ).gpc@[k],
                forall|k: int| old(self).gpc@.len() <= k < self.gpc@.len() ==> #[trigger] self.gpc@[k]
                    == 0u16,
                self.owned == old(self).owned,
                self.owned_pieces == old(self).owned_pieces,
                self.request_map == old(self).request_map,
                self.requests == old(self).requests,
                self.piece_length == old(self).piece_length,
                self.pieces_hash == old(self).pieces_hash,
                self.peer_list == old(self).peer_list,
            decreases needed - self.gpc@.len(),
        {
            self.gpc.push(0u16);
        }
        let cur: u16 = self.gpc[piece_index];
        let elem = vstd::std_specs::vec::vec_index_mut(&mut self.gpc, piece_index);
        *elem = cur.saturating_add(n);
    }

    /// The bitfield of pieces neither owned nor currently requested.
    pub fn unclaimed_fields(&self) -> (r: Vec<u8>)
        ensures
            r@.len() == claim_maps_len(*self),
            forall|i: int|
                0 <= i < r@.len() ==> #[trigger] r@[i] == byte_nand(
                    padded_at(self.owned@, 0u8, i),
                    padded_at(self.request_map@, 0u8, i),
                ),
    {
        nand_slice_vbr_len(self.owned.as_slice(), self.request_map.as_slice())
    }

    /// The first piece index attaining the minimal availability among
    /// pieces that are neither owned nor requested — per the claim
    /// bitfields, which `piece_verified` keeps in step with the range
    /// lists; `None` when every such piece sits at the counter's ceiling
    /// (or there is none).
    pub fn rarest(&self) -> (r: Option<usize>)
        requires
            8 * claim_maps_len(*self) <= usize::MAX,
        ensures
            match r {
                Some(k0) => {
                    &&& k0 < 8 * claim_maps_len(*self)
                    &&& unclaimed_map_bit(*self, k0 as int)
                    &&& gpc_at(self.gpc@, k0 as int) < 65535
                    &&& forall|k: int|
                        0 <= k < 8 * claim_maps_len(*self) && unclaimed_map_bit(*self, k)
                            ==> gpc_at(self.gpc@, k) >= gpc_at(self.gpc@, k0 as int)
                    &&& forall|k: int|
                        0 <= k < k0 && unclaimed_map_bit(*self, k) ==> gpc_at(self.gpc@, k)
                            > gpc_at(self.gpc@, k0 as int)
                },
                None => forall|k: int|
                    0 <= k < 8 * claim_maps_len(*self) && unclaimed_map_bit(*self, k) ==> gpc_at(
                        self.gpc@,
                        k,
                    ) == 65535,
            },
    {
        let uf = self.unclaimed_fields();
        proof {
            lemma_unclaimed_bits(*self, uf@);
        }
        let r = rarest_in(uf.as_slice(), self.gpc.as_slice());
        proof {
            match r {
                Some(k0) => {
                    assert(bitfield_bit(uf@, k0 as int));
                    assert(unclaimed_map_bit(*self, k0 as int));
                    assert forall|k: int|
                        0 <= k < 8 * claim_maps_len(*self) && unclaimed_map_bit(
                            *self,
                            k,
                        ) implies gpc_at(self.gpc@, k) >= gpc_at(self.gpc@, k0 as int) by {
                        assert(bitfield_bit(uf@, k));
                    }
                    assert forall|k: int|
                        0 <= k < k0 && unclaimed_map_bit(*self, k) implies gpc_at(self.gpc@, k)
                            > gpc_at(self.gpc@, k0 as int) by {
                        assert(bitfield_bit(uf@, k));
                    }
                },
                None => {
                    assert forall|k: int|
                        0 <= k < 8 * claim_maps_len(*self) && unclaimed_map_bit(
                            *self,
                            k,
                        ) implies gpc_at(self.gpc@, k) == 65535 by {
                        assert(bitfield_bit(uf@, k));
                    }
                },
            }
        }
        r
    }
}


impl GlobalState {
    /// The first piece index attaining the minimal availability among
    /// pieces the peer advertises that are neither owned nor requested;
    /// `None` when every such piece sits at the counter's ceiling (or
    /// there is none).  Bits past either bitfield's end count as
    /// advertised and unclaimed, as the padded `and` has them.
    pub fn rarest_wrt_peer(&self, peer_bitfield: &Vec<u8>) -> (r: Option<usize>)
        requires
            8 * vstd::math::max(claim_maps_len(*self), peer_bitfield@.len() as int)
                <= usize::MAX,
        ensures
            match r {
                Some(k0) => {
                    &&& k0 < 8 * vstd::math::max(
                        claim_maps_len(*self),
                        peer_bitfield@.len() as int,
                    )
                    &&& wrt_eligible(*self, peer_bitfield@, k0 as int)
                    &&& gpc_at(self.gpc@, k0 as int) < 65535
                    &&& forall|k: int|
                        0 <= k < 8 * vstd::math::max(
                            claim_maps_len(*self),
                            peer_bitfield@.len() as int,
                        ) && wrt_eligible(*self, peer_bitfield@, k) ==> gpc_at(self.gpc@, k)
                            >= gpc_at(self.gpc@, k0 as int)
                    &&& forall|k: int|
                        0 <= k < k0 && wrt_eligible(*self, peer_bitfield@, k) ==> gpc_at(
                            self.gpc@,
                            k,
                        ) > gpc_at(self.gpc@, k0 as int)
                },
                None => forall|k: int|
                    0 <= k < 8 * vstd::math::max(
                        claim_maps_len(*self),
                        peer_bitfield@.len() as int,
                    ) && wrt_eligible(*self, peer_bitfield@, k) ==> gpc_at(self.gpc@, k) == 65535,
            },
    {
        let uf = self.unclaimed_fields();
        let eligible = and_slice_vbr_len(uf.as_slice(), peer_bitfield.as_slice());
        proof {
            lemma_unclaimed_bits(*self, uf@);
            lemma_wrt_bits(*self, uf@, peer_bitfield@, eligible@);
        }
        let r = rarest_in(eligible.as_slice(), self.gpc.as_slice());
        proof {
            let bound = 8 * vstd::math::max(claim_maps_len(*self), peer_bitfield@.len() as int);
            match r {
                Some(k0) => {
                    assert(bitfield_bit(eligible@, k0 as int));
                    assert(wrt_eligible(*self, peer_bitfield@, k0 as int));
                    assert forall|k: int|
                        0 <= k < bound && wrt_eligible(*self, peer_bitfield@, k) implies gpc_at(
                        self.gpc@,
                        k,
                    ) >= gpc_at(self.gpc@, k0 as int) by {
                        assert(bitfield_bit(eligible@, k));
                    }
                    assert forall|k: int|
                        0 <= k < k0 && wrt_eligible(*self, peer_bitfield@, k) implies gpc_at(
                        self.gpc@,
                        k,
                    ) > gpc_at(self.gpc@, k0 as int) by {
                        assert(bitfield_bit(eligible@, k));
                    }
                },
                None => {
                    assert forall|k: int|
                        0 <= k < bound && wrt_eligible(*self, peer_bitfield@, k) implies gpc_at(
                        self.gpc@,
                        k,
                    ) == 65535 by {
                        assert(bitfield_bit(eligible@, k));
                    }
                },
            }
        }
        r
    }
}

/// Piece `k` is eligible for a request to this peer: not claimed by the
/// claim maps and advertised in the peer's bitfield, with bits past
/// either end counting in favour.
pub open spec fn wrt_eligible(g: GlobalState, pb: Seq<u8>, k: int) -> bool {
    &&& (k < 8 * claim_maps_len(g) ==> unclaimed_map_bit(g, k))
    &&& (k < 8 * pb.len() ==> bitfield_bit(pb, k))
}

/// Bits of the padded `and` of the unclaimed bitfield and the peer's
/// bitfield agree with the eligibility predicate.
proof fn lemma_wrt_bits(g: GlobalState, uf: Seq<u8>, pb: Seq<u8>, eligible: Seq<u8>)
    requires
        uf.len() == claim_maps_len(g),
        forall|i: int|
            0 <= i < uf.len() ==> #[trigger] uf[i] == byte_nand(
                padded_at(g.owned@, 0u8, i),
                padded_at(g.request_map@, 0u8, i),
            ),
        forall|k: int|
            0 <= k < 8 * uf.len() ==> (#[trigger] bitfield_bit(uf, k) == unclaimed_map_bit(g, k)),
        eligible.len() == vstd::math::max(uf.len() as int, pb.len() as int),
        forall|i: int|
            0 <= i < eligible.len() ==> #[trigger] eligible[i] == byte_and(
                padded_at(uf, 255u8, i),
                padded_at(pb, 255u8, i),
            ),
    ensures
        forall|k: int|
            0 <= k < 8 * eligible.len() ==> (#[trigger] bitfield_bit(eligible, k) == wrt_eligible(
                g,
                pb,
                k,
            )),
{
    assert forall|k: int| 0 <= k < 8 * eligible.len() implies (#[trigger] bitfield_bit(eligible, k)
        == wrt_eligible(g, pb, k)) by {
        assert(0 <= k % 8 < 8) by (nonlinear_arith)
            requires
                k >= 0,
        ;
        assert(0 <= k / 8 < eligible.len()) by (nonlinear_arith)
            requires
                0 <= k < 8 * eligible.len(),
        ;
        let kk = (k % 8) as u8;
        lemma_and_bit(padded_at(uf, 255u8, k / 8), padded_at(pb, 255u8, k / 8), kk);
        assert(byte_bit(255u8, kk as int)) by {
            assert(kk < 8 ==> (255u8 >> ((7 - kk) as u8)) & 1u8 == 1u8) by (bit_vector);
            assert(((7 - (k % 8)) as u8) == (7 - kk) as u8);
        }
        if k / 8 < uf.len() {
            assert(k < 8 * uf.len()) by (nonlinear_arith)
                requires
                    k / 8 < uf.len(),
                    k >= 0,
            ;
            assert(bitfield_bit(uf, k) == unclaimed_map_bit(g, k));
        } else {
            assert(k >= 8 * uf.len()) by (nonlinear_arith)
                requires
                    k / 8 >= uf.len(),
                    k >= 0,
            ;
        }
        if k / 8 < pb.len() {
            assert(k < 8 * pb.len()) by (nonlinear_arith)
                requires
                    k / 8 < pb.len(),
                    k >= 0,
            ;
        } else {
            assert(k >= 8 * pb.len()) by (nonlinear_arith)
                requires
                    k / 8 >= pb.len(),
                    k >= 0,
            ;
        }
    }
}

/// Bits of the unclaimed bitfield agree with the unclaimed predicate.
proof fn lemma_unclaimed_bits(g: GlobalState, uf: Seq<u8>)
    requires
        uf.len() == claim_maps_len(g),
        forall|i: int|
            0 <= i < uf.len() ==> #[trigger] uf[i] == byte_nand(
                padded_at(g.owned@, 0u8, i),
                padded_at(g.request_map@, 0u8, i),
            ),
    ensures
        forall|k: int|
            0 <= k < 8 * uf.len() ==> (#[trigger] bitfield_bit(uf, k) == unclaimed_map_bit(g, k)),
{
    assert forall|k: int| 0 <= k < 8 * uf.len() implies (#[trigger] bitfield_bit(uf, k)
        == unclaimed_map_bit(g, k)) by {
        assert(0 <= k % 8 < 8) by (nonlinear_arith)
            requires
                k >= 0,
        ;
        assert(0 <= k / 8 < uf.len()) by (nonlinear_arith)
            requires
                0 <= k < 8 * uf.len(),
        ;
        lemma_nand_bit(
            padded_at(g.owned@, 0u8, k / 8),
            padded_at(g.request_map@, 0u8, k / 8),
            (k % 8) as u8,
        );
    }
}

/// Byte-for-byte equality of two slices.
fn bytes_eq(a: &[u8], b: &[u8]) -> (r: bool)
    ensures
        r == (a@ == b@),
{
    if a.len() != b.len() {
        proof {
            assert(a@ != b@);
        }
        return false;
    }
    let mut i: usize = 0;
    while i < a.len()
        invariant
            a@.len() == b@.len(),
            i <= a@.len(),
            forall|k: int| 0 <= k < i ==> a@[k] == b@[k],
        decreases a@.len() - i,
    {
        if a[i] != b[i] {
            proof {
                assert(a@ != b@);
            }
            return false;
        }
        i += 1;
    }
    proof {
        assert(a@ =~= b@);
    }
    true
}

/// An owned copy of a byte vector.
fn clone_bytes(v: &Vec<u8>) -> (r: Vec<u8>)
    ensures
        r@ == v@,
{
    let mut r: Vec<u8> = Vec::new();
    let mut i: usize = 0;
    while i < v.len()
        invariant
            i <= v@.len(),
            r@ == v@.take(i as int),
        decreases v@.len() - i,
    {
        r.push(v[i]);
        proof {
            assert(r@ =~= v@.take(i + 1));
        }
        i += 1;
    }
    proof {
        assert(v@.take(v@.len() as int) =~= v@);
    }
    r
}


/// A block delivered by a `Piece` message, handed onward to the piece
/// store.
pub struct BlockReceipt {
    pub index: u32,
    pub begin: u32,
    pub block: Vec<u8>,
}

/// The in-flight entry `req` is the one answered by a `Piece` message with
/// this index, begin and block length.
pub open spec fn req_matches(req: (Piece, i64), index: u32, begin: u32, blen: int, plen: int) -> bool {
    &&& req.0.start.index == index
    &&& req.0.start.offset == begin
    &&& abs_pos(req.0.end, plen) - abs_pos(req.0.start, plen) == blen
}

/// The ceiling of `total / 8`: the exact byte length of a wire bitfield.
pub open spec fn bitfield_len(total: int) -> int {
    (total + 7) / 8
}

/// Handles messages. This is a cheap way to force reactive style: a
/// handler applies one inbound message to the addressed peer and the
/// swarm, and must preserve the swarm invariant.  Callers that need the
/// exact per-message effect should call `DefaultHandler::apply_message`,
/// whose contract states it; through the trait only invariant
/// preservation is promised.
pub trait Handler {
    type MessageType;

    fn handle(
        &mut self,
        message: &Self::MessageType,
        peer_index: usize,
        global: &mut GlobalState,
    ) -> (r: Result<Option<BlockReceipt>, crate::bt_messages::ProtocolError>)
        requires
            swarm_wf(*old(global)),
            peer_index < old(global).spec_peers().len(),
        ensures
            swarm_wf(*final(global)),
    ;
}

/// The default algorithm.
pub struct DefaultHandler;

/// The frame common to every handler outcome: the peer registry keeps its
/// shape, other peers are untouched, and the torrent's fixed data stays
/// fixed.
pub open spec fn handle_frame(og: GlobalState, ng: GlobalState, e: int) -> bool {
    &&& ng.spec_peers().len() == og.spec_peers().len()
    &&& forall|k: int|
        0 <= k < og.spec_peers().len() && k != e ==> #[trigger] ng.spec_peers()[k]
            == og.spec_peers()[k]
    &&& ng.spec_peers()[e].last_send == og.spec_peers()[e].last_send
    &&& ng.spec_peers()[e].peer_id == og.spec_peers()[e].peer_id
    &&& ng.spec_peers()[e].peer.id == og.spec_peers()[e].peer.id
    &&& ng.piece_length == og.piece_length
    &&& ng.pieces_hash == og.pieces_hash
    &&& ng.owned == og.owned
    &&& ng.owned_pieces == og.owned_pieces
    &&& ng.request_map == og.request_map
}

/// Nothing at all changed.
pub open spec fn handle_noop(og: GlobalState, ng: GlobalState) -> bool {
    &&& ng.spec_peers() == og.spec_peers()
    &&& ng.gpc == og.gpc
    &&& ng.requests == og.requests
    &&& ng.piece_length == og.piece_length
    &&& ng.pieces_hash == og.pieces_hash
    &&& ng.owned == og.owned
    &&& ng.owned_pieces == og.owned_pieces
    &&& ng.request_map == og.request_map
}

/// Only a flag of the addressed peer's state changed (plus the
/// seen-a-message mark); counters and requests are untouched.
pub open spec fn handle_flags_only(og: GlobalState, ng: GlobalState, e: int, ns: crate::peer::State) -> bool {
    &&& handle_frame(og, ng, e)
    &&& ng.spec_peers()[e].peer.state == ns
    &&& ng.gpc == og.gpc
    &&& ng.requests == og.requests
}

/// What `DefaultHandler` does with each message, as a relation between the
/// states before and after.
pub open spec fn handle_effect(
    m: Message,
    og: GlobalState,
    ng: GlobalState,
    e: int,
    r: Result<Option<BlockReceipt>, crate::bt_messages::ProtocolError>,
) -> bool {
    let os = og.spec_peers()[e].peer.state;
    match m {
        Message::Choke => r == Result::<
            Option<BlockReceipt>,
            crate::bt_messages::ProtocolError,
        >::Ok(None) && handle_flags_only(
            og,
            ng,
            e,
            crate::peer::State { us_choked: true, seen_message: true, ..os },
        ),
        Message::Unchoke => r == Result::<
            Option<BlockReceipt>,
            crate::bt_messages::ProtocolError,
        >::Ok(None) && handle_flags_only(
            og,
            ng,
            e,
            crate::peer::State { us_choked: false, seen_message: true, ..os },
        ),
        Message::Interested => r == Result::<
            Option<BlockReceipt>,
            crate::bt_messages::ProtocolError,
        >::Ok(None) && handle_flags_only(
            og,
            ng,
            e,
            crate::peer::State { is_interested: true, seen_message: true, ..os },
        ),
        Message::NotInterested => r == Result::<
            Option<BlockReceipt>,
            crate::bt_messages::ProtocolError,
        >::Ok(None) && handle_flags_only(
            og,
            ng,
            e,
            crate::peer::State { is_interested: false, seen_message: true, ..os },
        ),
        Message::Have { piece_index } => {
            if piece_index >= og.total_pieces() {
                r is Err && handle_noop(og, ng)
            } else {
                let ns = ng.spec_peers()[e].peer.state;
                &&& r == Result::<
                    Option<BlockReceipt>,
                    crate::bt_messages::ProtocolError,
                >::Ok(None)
                &&& handle_frame(og, ng, e)
                &&& ng.requests == og.requests
                // availability of this piece rises by one (saturating)
                &&& ng.gpc@.len() == vstd::math::max(og.gpc@.len() as int, piece_index + 1)
                &&& ng.gpc@[piece_index as int] == (if gpc_at(og.gpc@, piece_index as int) + 1
                    > 65535 {
                    65535u16
                } else {
                    (gpc_at(og.gpc@, piece_index as int) + 1) as u16
                })
                &&& forall|k: int|
                    0 <= k < ng.gpc@.len() && k != piece_index ==> #[trigger] ng.gpc@[k] == gpc_at(
                        og.gpc@,
                        k,
                    )
                // the whole piece joins the peer's advertised ranges
                &&& canonical(ns.pieces@)
                &&& whole_pieces(ns.pieces@)
                &&& forall|p: Position|
                    #![trigger covers(ns.pieces@, p)]
                    covers(ns.pieces@, p) <==> (covers(os.pieces@, p) || p.index == piece_index)
                &&& ns.us_choked == os.us_choked
                &&& ns.us_interested == os.us_interested
                &&& ns.is_choked == os.is_choked
                &&& ns.is_interested == os.is_interested
                &&& ns.bitfield == os.bitfield
                &&& ns.seen_message == true
            }
        },
        Message::Bitfield(b) => {
            if os.seen_message || b@.len() > bitfield_len(og.total_pieces()) || (exists|k: int|
                og.total_pieces() <= k < 8 * b@.len() && #[trigger] bitfield_bit(b@, k)) {
                r is Err && handle_noop(og, ng)
            } else {
                let ns = ng.spec_peers()[e].peer.state;
                &&& r == Result::<
                    Option<BlockReceipt>,
                    crate::bt_messages::ProtocolError,
                >::Ok(None)
                &&& handle_frame(og, ng, e)
                &&& ng.requests == og.requests
                // one increment per advertised piece
                &&& ng.gpc@.len() == vstd::math::max(og.gpc@.len() as int, 8 * b@.len() as int)
                &&& forall|k: int|
                    0 <= k < ng.gpc@.len() ==> #[trigger] ng.gpc@[k] == (if 0 <= k < 8 * b@.len()
                        && bitfield_bit(b@, k) {
                        if gpc_at(og.gpc@, k) + 1 > 65535 {
                            65535u16
                        } else {
                            (gpc_at(og.gpc@, k) + 1) as u16
                        }
                    } else {
                        gpc_at(og.gpc@, k)
                    })
                // the advertised ranges become the decoded bitfield
                &&& canonical(ns.pieces@)
                &&& whole_pieces(ns.pieces@)
                &&& forall|p: Position|
                    #![trigger covers(ns.pieces@, p)]
                    covers(ns.pieces@, p) <==> (p.index < 8 * b@.len() && bitfield_bit(
                        b@,
                        p.index as int,
                    ))
                &&& ns.us_choked == os.us_choked
                &&& ns.us_interested == os.us_interested
                &&& ns.is_choked == os.is_choked
                &&& ns.is_interested == os.is_interested
                &&& ns.bitfield == os.bitfield
                &&& ns.seen_message == true
            }
        },
        Message::Piece { index, begin, block } => {
            let ns = ng.spec_peers()[e].peer.state;
            &&& handle_frame(og, ng, e)
            &&& ng.gpc == og.gpc
            &&& ns == (crate::peer::State { seen_message: true, ..os })
            &&& match r {
                Ok(Some(rec)) => {
                    &&& rec.index == index
                    &&& rec.begin == begin
                    &&& rec.block@ == block@
                    &&& exists|j: int|
                        {
                            &&& 0 <= j < og.requests@.len()
                            &&& req_matches(
                                #[trigger] og.requests@[j],
                                index,
                                begin,
                                block@.len() as int,
                                og.spec_piece_length(),
                            )
                            &&& (forall|jj: int|
                                0 <= jj < j ==> !req_matches(
                                    #[trigger] og.requests@[jj],
                                    index,
                                    begin,
                                    block@.len() as int,
                                    og.spec_piece_length(),
                                ))
                            &&& ng.requests@ == og.requests@.remove(j)
                        }
                },
                Ok(None) => {
                    &&& ng.requests == og.requests
                    &&& forall|j: int|
                        0 <= j < og.requests@.len() ==> !req_matches(
                            #[trigger] og.requests@[j],
                            index,
                            begin,
                            block@.len() as int,
                            og.spec_piece_length(),
                        )
                },
                Err(_) => false,
            }
        },
        Message::KeepAlive => r == Result::<
            Option<BlockReceipt>,
            crate::bt_messages::ProtocolError,
        >::Ok(None) && handle_flags_only(
            og,
            ng,
            e,
            crate::peer::State { seen_message: true, ..og.spec_peers()[e].peer.state },
        ),
        Message::Request { index, begin, length } => r == Result::<
            Option<BlockReceipt>,
            crate::bt_messages::ProtocolError,
        >::Ok(None) && handle_flags_only(
            og,
            ng,
            e,
            crate::peer::State { seen_message: true, ..og.spec_peers()[e].peer.state },
        ),
        Message::Cancel { index, begin, length } => r == Result::<
            Option<BlockReceipt>,
            crate::bt_messages::ProtocolError,
        >::Ok(None) && handle_flags_only(
            og,
            ng,
            e,
            crate::peer::State { seen_message: true, ..og.spec_peers()[e].peer.state },
        ),
        Message::Port(p) => r == Result::<
            Option<BlockReceipt>,
            crate::bt_messages::ProtocolError,
        >::Ok(None) && handle_flags_only(
            og,
            ng,
            e,
            crate::peer::State { seen_message: true, ..og.spec_peers()[e].peer.state },
        ),
        Message::Handshake => r == Result::<
            Option<BlockReceipt>,
            crate::bt_messages::ProtocolError,
        >::Ok(None) && handle_noop(og, ng),
        Message::Unhandled => r == Result::<
            Option<BlockReceipt>,
            crate::bt_messages::ProtocolError,
        >::Ok(None) && handle_noop(og, ng),
    }
}


/// Replacing one peer's state with another well-formed state preserves the
/// swarm invariant, as long as everything else stands still.
proof fn lemma_swarm_wf_update_peer(og: GlobalState, ng: GlobalState, e: int)
    requires
        swarm_wf(og),
        0 <= e < og.spec_peers().len(),
        ng.spec_peers().len() == og.spec_peers().len(),
        forall|k: int|
            0 <= k < og.spec_peers().len() && k != e ==> #[trigger] ng.spec_peers()[k]
                == og.spec_peers()[k],
        ng.owned_pieces == og.owned_pieces,
        ng.requests == og.requests,
        ng.piece_length == og.piece_length,
        ng.pieces_hash == og.pieces_hash,
        state_wf(ng.spec_peers()[e].peer.state),
        forall|m: int|
            0 <= m < ng.spec_peers()[e].peer.state.pieces@.len() ==> (
            #[trigger] ng.spec_peers()[e].peer.state.pieces@[m]).end.index <= ng.total_pieces()
                + 7,
    ensures
        swarm_wf(ng),
{
    assert forall|k: int| 0 <= k < ng.spec_peers().len() implies state_wf(
        (#[trigger] ng.spec_peers()[k]).peer.state,
    ) by {
        if k != e {
            assert(ng.spec_peers()[k] == og.spec_peers()[k]);
        }
    }
    assert forall|k: int, m: int|
        0 <= k < ng.spec_peers().len() && 0 <= m
            < ng.spec_peers()[k].peer.state.pieces@.len() implies ((
    #[trigger] ng.spec_peers()[k].peer.state.pieces@[m]).end.index <= ng.total_pieces() + 7) by {
        if k != e {
            assert(ng.spec_peers()[k] == og.spec_peers()[k]);
        }
    }
}

/// The swarm invariant does not depend on the availability counters.
proof fn lemma_swarm_wf_gpc_irrelevant(g1: GlobalState, g2: GlobalState)
    requires
        swarm_wf(g1),
        g2.owned_pieces == g1.owned_pieces,
        g2.requests == g1.requests,
        g2.piece_length == g1.piece_length,
        g2.pieces_hash == g1.pieces_hash,
        g2.spec_peers() == g1.spec_peers(),
    ensures
        swarm_wf(g2),
{
    assert(g2.spec_piece_length() == g1.spec_piece_length());
    assert(g2.total_pieces() == g1.total_pieces());
    assert forall|k: int|
        0 <= k < g2.requests@.len() implies range_in_torrent(
        (#[trigger] g2.requests@[k]).0,
        g2,
    ) by {
        assert(range_in_torrent(g1.requests@[k].0, g1));
    }
}

/// Removing one in-flight request preserves the swarm invariant.
proof fn lemma_swarm_wf_remove_request(og: GlobalState, ng: GlobalState, j: int)
    requires
        swarm_wf(og),
        0 <= j < og.requests@.len(),
        ng.requests@ == og.requests@.remove(j),
        ng.owned_pieces == og.owned_pieces,
        ng.piece_length == og.piece_length,
        ng.pieces_hash == og.pieces_hash,
        ng.spec_peers() == og.spec_peers(),
    ensures
        swarm_wf(ng),
{
    assert(forall|k: int|
        0 <= k < ng.requests@.len() ==> #[trigger] ng.requests@[k] == (if k < j {
            og.requests@[k]
        } else {
            og.requests@[k + 1]
        }));
}

impl DefaultHandler {
    /// Apply one inbound message from the peer at `peer_index` to that
    /// peer's state and to the swarm.  This is the contract-bearing entry
    /// point: `handle_effect` pins the whole effect of every message;
    /// the `Handler` trait view promises only that the swarm invariant is
    /// preserved.  Errors exactly on the protocol violations: a `Bitfield`
    /// that is not this peer's first message, is longer than the torrent's
    /// bitfield, or has a trailing bit set; and — deliberately stricter
    /// than the wire protocol's letter — a `Have` naming a piece the
    /// torrent does not contain, since such a piece has no digest and its
    /// range would fall outside every position bound the invariant rests
    /// on.
    pub fn apply_message(
        message: &Message,
        peer_index: usize,
        global: &mut GlobalState,
    ) -> (r: Result<Option<BlockReceipt>, crate::bt_messages::ProtocolError>)
        requires
            swarm_wf(*old(global)),
            peer_index < old(global).spec_peers().len(),
        ensures
            swarm_wf(*final(global)),
            handle_effect(*message, *old(global), *final(global), peer_index as int, r),
    {
        let ghost og = *global;
        let ghost e = peer_index as int;
        match message {
            Message::Choke => {
                let entry = vstd::std_specs::vec::vec_index_mut(
                    &mut global.peer_list,
                    peer_index,
                );
                entry.peer.state.set_us_choked(true);
                entry.peer.state.seen_message = true;
                proof {
                    lemma_swarm_wf_update_peer(og, *global, e);
                }
                Ok(None)
            },
            Message::Unchoke => {
                let entry = vstd::std_specs::vec::vec_index_mut(
                    &mut global.peer_list,
                    peer_index,
                );
                entry.peer.state.set_us_choked(false);
                entry.peer.state.seen_message = true;
                proof {
                    lemma_swarm_wf_update_peer(og, *global, e);
                }
                Ok(None)
            },
            Message::Interested => {
                let entry = vstd::std_specs::vec::vec_index_mut(
                    &mut global.peer_list,
                    peer_index,
                );
                entry.peer.state.is_interested = true;
                entry.peer.state.seen_message = true;
                proof {
                    lemma_swarm_wf_update_peer(og, *global, e);
                }
                Ok(None)
            },
            Message::NotInterested => {
                let entry = vstd::std_specs::vec::vec_index_mut(
                    &mut global.peer_list,
                    peer_index,
                );
                entry.peer.state.is_interested = false;
                entry.peer.state.seen_message = true;
                proof {
                    lemma_swarm_wf_update_peer(og, *global, e);
                }
                Ok(None)
            },
            Message::KeepAlive | Message::Request { .. } | Message::Cancel { .. }
            | Message::Port(..) => {
                let entry = vstd::std_specs::vec::vec_index_mut(
                    &mut global.peer_list,
                    peer_index,
                );
                entry.peer.state.seen_message = true;
                proof {
                    lemma_swarm_wf_update_peer(og, *global, e);
                }
                Ok(None)
            },
            Message::Handshake | Message::Unhandled => Ok(None),
            Message::Have { piece_index } => apply_have(*piece_index, peer_index, global),
            Message::Bitfield(b) => apply_bitfield(b, peer_index, global),
            Message::Piece { index, begin, block } => apply_piece(
                index,
                begin,
                block,
                peer_index,
                global,
            ),
        }
    }
}

/// The `Have` step: raise the piece's availability and add the whole
/// piece to the peer's advertised ranges.
#[verifier::spinoff_prover]
#[verifier::rlimit(60)]
fn apply_have(piece_index: u32, peer_index: usize, global: &mut GlobalState) -> (r: Result<
    Option<BlockReceipt>,
    crate::bt_messages::ProtocolError,
>)
    requires
        swarm_wf(*old(global)),
        peer_index < old(global).spec_peers().len(),
    ensures
        swarm_wf(*final(global)),
        handle_effect(
            Message::Have { piece_index },
            *old(global),
            *final(global),
            peer_index as int,
            r,
        ),
{
    let ghost og = *global;
    let ghost e = peer_index as int;
    let piece_index = &piece_index;

                let total: usize = global.pieces_hash.len() / 20;
                if *piece_index as usize >= total {
                    return Err(crate::bt_messages::ProtocolError);
                }
                let pi: usize = *piece_index as usize;
                global.gpc_incr(pi, 1);
                let plen: usize = global.piece_length;
                proof {
                    assert((pi + 1) * plen <= (og.total_pieces() + 8) * plen) by (nonlinear_arith)
                        requires
                            pi + 1 <= og.total_pieces() + 8,
                            plen >= 0,
                    ;
                    assert(pi * plen + plen == (pi + 1) * plen) by (nonlinear_arith);
                }
                let piece: Piece = Piece::from(plen, pi, 0, plen);
                proof {
                    // the produced range is exactly the whole piece
                    let p = plen as int;
                    assert(pi * p + p == (pi + 1) * p) by (nonlinear_arith);
                    assert(piece.end.index * p + piece.end.offset == (pi + 1) * p);
                    assert(piece.end.index == pi + 1 && piece.end.offset == 0) by (nonlinear_arith)
                        requires
                            piece.end.index * p + piece.end.offset == (pi + 1) * p,
                            0 <= piece.end.offset < p,
                            piece.end.index >= 0,
                            p > 0,
                    ;
                }
                let entry = vstd::std_specs::vec::vec_index_mut(
                    &mut global.peer_list,
                    peer_index,
                );
                let ghost os_pieces = entry.peer.state.pieces@;
                proof {
                    crate::chunk::lemma_canonical_is_wf_sorted(os_pieces);
                }
                match Piece::add_to_boundary_vec(&mut entry.peer.state.pieces, piece) {
                    Ok(at) => {
                        proof {
                            have_insert_compactable(os_pieces, entry.peer.state.pieces@, piece, at as int);
                        }
                        Piece::compact_if_possible(&mut entry.peer.state.pieces, at);
                        proof {
                            have_pieces_shape(os_pieces, entry.peer.state.pieces@, piece, pi, at as int);
                        }
                    },
                    Err(_) => {
                        proof {
                            have_duplicate_covered(os_pieces, piece, pi);
                        }
                    },
                }
                entry.peer.state.seen_message = true;
                proof {
                    assert forall|m: int|
                        0 <= m < global.spec_peers()[e].peer.state.pieces@.len() implies ((
                    #[trigger] global.spec_peers()[e].peer.state.pieces@[m]).end.index
                        <= global.total_pieces() + 7) by {
                        pieces_bound_from_covers(
                            global.spec_peers()[e].peer.state.pieces@,
                            og,
                            os_pieces,
                            pi,
                            m,
                        );
                    }
                    lemma_swarm_wf_update_peer(og, *global, e);
                }
                Ok(None)
            
}

/// The `Bitfield` step: check it is this peer's first message and shaped
/// for this torrent, count one advertisement per set bit, and decode it
/// into the peer's advertised ranges.
#[verifier::spinoff_prover]
#[verifier::rlimit(60)]
fn apply_bitfield(b: &Vec<u8>, peer_index: usize, global: &mut GlobalState) -> (r: Result<
    Option<BlockReceipt>,
    crate::bt_messages::ProtocolError,
>)
    requires
        swarm_wf(*old(global)),
        peer_index < old(global).spec_peers().len(),
    ensures
        swarm_wf(*final(global)),
        handle_effect(
            Message::Bitfield(*b),
            *old(global),
            *final(global),
            peer_index as int,
            r,
        ),
{
    let ghost og = *global;
    let ghost e = peer_index as int;

                let already: bool = {
                    let st = &global.peer_list[peer_index].peer.state;
                    st.seen_message
                };
                if already {
                    return Err(crate::bt_messages::ProtocolError);
                }
                let total: usize = global.pieces_hash.len() / 20;
                let max_len: usize = (total + 7) / 8;
                if b.len() > max_len {
                    return Err(crate::bt_messages::ProtocolError);
                }
                let bl: usize = b.len();
                proof {
                    vstd::arithmetic::div_mod::lemma_fundamental_div_mod(total as int + 7, 8);
                    vstd::arithmetic::div_mod::lemma_mod_bound(total as int + 7, 8);
                    assert(8 * max_len <= total + 7);
                    assert(8 * bl <= total + 7) by (nonlinear_arith)
                        requires
                            bl <= max_len,
                            8 * max_len <= total + 7,
                    ;
                }
                // a set bit past the torrent's last piece is a protocol error
                let mut k: usize = if total < 8 * bl {
                    total
                } else {
                    8 * bl
                };
                while k < 8 * bl
                    invariant
                        8 * bl <= usize::MAX,
                        bl == b@.len(),
                        k <= 8 * bl,
                        total <= k || k == 8 * bl,
                        total == og.total_pieces(),
                        *global == og,
                        swarm_wf(og),
                        forall|m: int| total <= m < k ==> !bitfield_bit(b@, m),
                    decreases 8 * bl - k,
                {
                    proof {
                        assert(k / 8 < bl) by (nonlinear_arith)
                            requires
                                k < 8 * bl,
                                k >= 0,
                        ;
                        assert(0 <= k % 8 < 8);
                    }
                    let byte: u8 = b[k / 8];
                    let sh: u8 = (7 - (k % 8)) as u8;
                    if (byte >> sh) & 1u8 == 1u8 {
                        proof {
                            assert(bitfield_bit(b@, k as int));
                            assert(og.total_pieces() <= k < 8 * b@.len() && bitfield_bit(
                                b@,
                                k as int,
                            ));
                        }
                        return Err(crate::bt_messages::ProtocolError);
                    }
                    k += 1;
                }
                // count one advertisement per set bit
                let ghost gpc0 = global.gpc@;
                let mut pos: usize = 0;
                while pos < 8 * bl
                    invariant
                        swarm_wf(*global),
                        bl == b@.len(),
                        8 * bl <= total + 7,
                        8 * bl <= usize::MAX,
                        total == og.total_pieces(),
                        pos <= 8 * bl,
                        global.gpc@.len() == (if pos == 0 {
                            gpc0.len() as int
                        } else {
                            vstd::math::max(gpc0.len() as int, pos as int)
                        }),
                        forall|m: int|
                            0 <= m < global.gpc@.len() ==> #[trigger] global.gpc@[m] == (if 0 <= m
                                < pos && bitfield_bit(b@, m) {
                                if gpc_at(gpc0, m) + 1 > 65535 {
                                    65535u16
                                } else {
                                    (gpc_at(gpc0, m) + 1) as u16
                                }
                            } else {
                                gpc_at(gpc0, m)
                            }),
                        global.owned == og.owned,
                        global.owned_pieces == og.owned_pieces,
                        global.request_map == og.request_map,
                        global.requests == og.requests,
                        global.piece_length == og.piece_length,
                        global.pieces_hash == og.pieces_hash,
                        global.peer_list == og.peer_list,
                    decreases 8 * bl - pos,
                {
                    proof {
                        assert(pos / 8 < bl) by (nonlinear_arith)
                            requires
                                pos < 8 * bl,
                                pos >= 0,
                        ;
                        assert(0 <= pos % 8 < 8);
                    }
                    let byte: u8 = b[pos / 8];
                    let sh: u8 = (7 - (pos % 8)) as u8;
                    let n: u16 = if (byte >> sh) & 1u8 == 1u8 {
                        1
                    } else {
                        0
                    };
                    proof {
                        assert((n == 1) == bitfield_bit(b@, pos as int));
                    }
                    let ghost before = *global;
                    global.gpc_incr(pos, n);
                    proof {
                        lemma_swarm_wf_gpc_irrelevant(before, *global);
                    }
                    pos += 1;
                }
                proof {
                    if bl > 0 {
                        assert(8 * bl > 0) by (nonlinear_arith)
                            requires
                                bl > 0,
                        ;
                    }
                }
                let entry = vstd::std_specs::vec::vec_index_mut(
                    &mut global.peer_list,
                    peer_index,
                );
                entry.peer.state.set_pieces_from_bitfield(b.as_slice());
                entry.peer.state.seen_message = true;
                proof {
                    let ns = global.spec_peers()[e].peer.state;
                    assert forall|m: int| 0 <= m < ns.pieces@.len() implies ((
                    #[trigger] ns.pieces@[m]).end.index <= global.total_pieces() + 7) by {
                        let rngm = ns.pieces@[m];
                        assert(valid_range(rngm) && rngm.start.offset == 0 && rngm.end.offset
                            == 0);
                        let q = Position { index: (rngm.end.index - 1) as usize, offset: 0 };
                        assert(in_range(rngm, q));
                        assert(covers(ns.pieces@, q));
                        assert(q.index < 8 * bl);
                    }
                    lemma_swarm_wf_update_peer(og, *global, e);
                }
                Ok(None)
            
}

/// The `Piece` step: remove the answered in-flight entry, if any, and
/// hand the block onward.
#[verifier::spinoff_prover]
#[verifier::rlimit(60)]
fn apply_piece(
    index: &u32,
    begin: &u32,
    block: &Vec<u8>,
    peer_index: usize,
    global: &mut GlobalState,
) -> (r: Result<Option<BlockReceipt>, crate::bt_messages::ProtocolError>)
    requires
        swarm_wf(*old(global)),
        peer_index < old(global).spec_peers().len(),
    ensures
        swarm_wf(*final(global)),
        handle_effect(
            Message::Piece { index: *index, begin: *begin, block: *block },
            *old(global),
            *final(global),
            peer_index as int,
            r,
        ),
{
    let ghost og = *global;
    let ghost e = peer_index as int;

                let entry = vstd::std_specs::vec::vec_index_mut(
                    &mut global.peer_list,
                    peer_index,
                );
                entry.peer.state.seen_message = true;
                proof {
                    lemma_swarm_wf_update_peer(og, *global, e);
                }
                let ghost g1 = *global;
                let plen: usize = global.piece_length;
                let blen: usize = block.len();
                let n: usize = global.requests.len();
                let mut j: usize = 0;
                let mut found: bool = false;
                while j < n && !found
                    invariant
                        swarm_wf(*global),
                        *global == g1,
                        n == global.requests@.len(),
                        j <= n,
                        plen == global.spec_piece_length(),
                        blen == block@.len(),
                        forall|jj: int|
                            0 <= jj < j ==> !req_matches(
                                #[trigger] global.requests@[jj],
                                *index,
                                *begin,
                                blen as int,
                                plen as int,
                            ),
                        found ==> (j < n && req_matches(
                            global.requests@[j as int],
                            *index,
                            *begin,
                            blen as int,
                            plen as int,
                        )),
                    decreases n - j + (if found { 0int } else { 1int }),
                {
                    let (rng, _issued) = global.requests[j];
                    proof {
                        assert(range_in_torrent(rng, *global));
                        assert(rng.end.index * plen + rng.end.offset <= (global.total_pieces()
                            + 8) * plen) by (nonlinear_arith)
                            requires
                                rng.end.index <= global.total_pieces() + 7,
                                0 <= rng.end.offset < plen,
                                plen > 0,
                                rng.end.index >= 0,
                        ;
                        lemma_abs_order(rng.start, rng.end, plen as int);
                    }
                    let mut matches: bool = rng.start.index == (*index as usize)
                        && rng.start.offset == (*begin as usize);
                    if matches {
                        let span: usize = rng.num_bytes(&plen);
                        if span != blen {
                            matches = false;
                        }
                    }
                    if matches {
                        found = true;
                    } else {
                        proof {
                            assert(!req_matches(
                                global.requests@[j as int],
                                *index,
                                *begin,
                                blen as int,
                                plen as int,
                            ));
                        }
                        j += 1;
                    }
                }
                if found {
                    let ghost g2 = *global;
                    let _removed = self_remove_request(global, j);
                    proof {
                        lemma_swarm_wf_remove_request(g2, *global, j as int);
                    }
                    let receipt = BlockReceipt {
                        index: *index,
                        begin: *begin,
                        block: clone_bytes(block),
                    };
                    Ok(Some(receipt))
                } else {
                    Ok(None)
                }
            
}

/// Remove the in-flight entry at `j`.
fn self_remove_request(global: &mut GlobalState, j: usize) -> (r: (Piece, i64))
    requires
        j < old(global).requests@.len(),
    ensures
        r == old(global).requests@[j as int],
        final(global).requests@ == old(global).requests@.remove(j as int),
        final(global).gpc == old(global).gpc,
        final(global).owned == old(global).owned,
        final(global).owned_pieces == old(global).owned_pieces,
        final(global).request_map == old(global).request_map,
        final(global).piece_length == old(global).piece_length,
        final(global).pieces_hash == old(global).pieces_hash,
        final(global).peer_list == old(global).peer_list,
{
    global.requests.remove(j)
}

/// After inserting the whole-piece range for a `Have`, only the seams
/// around the insertion point may touch.
proof fn have_insert_compactable(os: Seq<Piece>, ns: Seq<Piece>, piece: Piece, at: int)
    requires
        canonical(os),
        0 <= at <= os.len(),
        ns == os.insert(at, piece),
    ensures
        compactable_at(ns, at),
{
    assert forall|i: int|
        0 <= i < ns.len() - 1 && i != at - 1 && i != at implies pos_lt(
        (#[trigger] ns[i]).end,
        ns[i + 1].start,
    ) by {
        if i + 1 < at {
            assert(ns[i] == os[i] && ns[i + 1] == os[i + 1]);
        } else {
            assert(i > at);
            assert(ns[i] == os[i - 1] && ns[i + 1] == os[i]);
        }
    }
}

/// After insert and compact, the peer's ranges are canonical whole pieces
/// covering the old positions plus the new piece.
proof fn have_pieces_shape(os: Seq<Piece>, ns: Seq<Piece>, piece: Piece, pi: usize, at: int)
    requires
        canonical(os),
        whole_pieces(os),
        piece.start == (Position { index: pi, offset: 0 }),
        piece.end == (Position { index: (pi + 1) as usize, offset: 0 }),
        pi < usize::MAX,
        canonical(ns),
        forall|p: Position| #![trigger covers(ns, p)] #![trigger covers(os.insert(at, piece), p)]
            covers(ns, p) <==> covers(os.insert(at, piece), p),
        crate::chunk::endpoints_of(ns, os.insert(at, piece)),
        0 <= at <= os.len(),
    ensures
        whole_pieces(ns),
        forall|p: Position|
            #![trigger covers(ns, p)]
            covers(ns, p) <==> (covers(os, p) || p.index == pi),
{
    let t = os.insert(at, piece);
    assert forall|m: int| 0 <= m < ns.len() implies (#[trigger] ns[m]).start.offset == 0
        && ns[m].end.offset == 0 by {
        let i1 = choose|i1: int| 0 <= i1 < t.len() && #[trigger] ns[m].start == (#[trigger] t[i1]).start;
        let i2 = choose|i2: int| 0 <= i2 < t.len() && ns[m].end == t[i2].end;
        assert(forall|w: int|
            0 <= w < t.len() ==> #[trigger] t[w] == (if w < at {
                os[w]
            } else if w == at {
                piece
            } else {
                os[w - 1]
            }));
    }
    assert forall|p: Position|
        #![trigger covers(ns, p)]
        covers(ns, p) <==> (covers(os, p) || p.index == pi) by {
        lemma_covers_insert(os, piece, at, p);
        assert(in_range(piece, p) <==> p.index == pi);
    }
}

/// A duplicate `Have` advertises a piece already covered: adding it
/// changes nothing.
proof fn have_duplicate_covered(os: Seq<Piece>, piece: Piece, pi: usize)
    requires
        canonical(os),
        whole_pieces(os),
        piece.start == (Position { index: pi, offset: 0 }),
        piece.end == (Position { index: (pi + 1) as usize, offset: 0 }),
        pi < usize::MAX,
        exists|k: int| 0 <= k < os.len() && ranges_overlap(piece, #[trigger] os[k]),
    ensures
        forall|p: Position|
            #![trigger covers(os, p)]
            covers(os, p) <==> (covers(os, p) || p.index == pi),
{
    let k = choose|k: int| 0 <= k < os.len() && ranges_overlap(piece, #[trigger] os[k]);
    let rng = os[k];
    assert(rng.start.offset == 0 && rng.end.offset == 0);
    // overlap of whole-piece ranges puts the whole of piece `pi` inside rng
    assert(rng.start.index <= pi && pi < rng.end.index);
    assert forall|p: Position| p.index == pi implies covers(os, p) by {
        assert(in_range(rng, p));
    }
}

/// How the peer's range bound survives a `Have`: every range end stays
/// within the torrent.
proof fn pieces_bound_from_covers(
    ns: Seq<Piece>,
    og: GlobalState,
    os: Seq<Piece>,
    pi: usize,
    m: int,
)
    requires
        swarm_wf(og),
        canonical(ns),
        whole_pieces(ns),
        0 <= m < ns.len(),
        pi < og.total_pieces(),
        forall|p: Position|
            #![trigger covers(ns, p)]
            covers(ns, p) <==> (covers(os, p) || p.index == pi),
        canonical(os),
        whole_pieces(os),
        forall|w: int| 0 <= w < os.len() ==> (#[trigger] os[w]).end.index <= og.total_pieces() + 7,
    ensures
        ns[m].end.index <= og.total_pieces() + 7,
{
    let rng = ns[m];
    assert(valid_range(rng) && rng.start.offset == 0 && rng.end.offset == 0);
    assert(rng.start.index < rng.end.index);
    let q = Position { index: (rng.end.index - 1) as usize, offset: 0 };
    assert(in_range(rng, q));
    assert(covers(ns, q));
    if q.index == pi {
        assert(rng.end.index <= pi + 1);
    } else {
        assert(covers(os, q));
        let w = covers_witness(os, q);
        assert(q.index < os[w].end.index);
    }
}

impl Handler for DefaultHandler {
    type MessageType = Message;

    fn handle(
        &mut self,
        message: &Message,
        peer_index: usize,
        global: &mut GlobalState,
    ) -> Result<Option<BlockReceipt>, crate::bt_messages::ProtocolError> {
        DefaultHandler::apply_message(message, peer_index, global)
    }
}


impl GlobalState {
    /// The piece store confirmed piece `piece_index` against its digest:
    /// record it as owned, drop any in-flight request for bytes of that
    /// piece, and return the `Have` to broadcast to every connected peer.
    /// A piece the torrent does not contain is refused.  The surviving
    /// in-flight entries are pinned by membership in both directions, not
    /// by order or multiplicity.
    #[verifier::spinoff_prover]
    #[verifier::rlimit(60)]
    pub fn piece_verified(&mut self, piece_index: u32) -> (r: Option<Message>)
        requires
            swarm_wf(*old(self)),
        ensures
            swarm_wf(*final(self)),
            match r {
                Some(msg) => {
                    &&& piece_index < old(self).total_pieces()
                    &&& msg == (Message::Have { piece_index })
                    &&& canonical(final(self).owned_pieces@)
                    &&& whole_pieces(final(self).owned_pieces@)
                    &&& forall|p: Position|
                        #![trigger covers(final(self).owned_pieces@, p)]
                        covers(final(self).owned_pieces@, p) <==> (covers(
                            old(self).owned_pieces@,
                            p,
                        ) || p.index == piece_index)
                    &&& forall|k: int|
                        0 <= k < final(self).requests@.len() ==> old(self).requests@.contains(
                            #[trigger] final(self).requests@[k],
                        ) && !ranges_overlap(
                            final(self).requests@[k].0,
                            Piece {
                                start: Position { index: piece_index as usize, offset: 0 },
                                end: Position { index: (piece_index + 1) as usize, offset: 0 },
                            },
                        )
                    &&& forall|w: int|
                        0 <= w < old(self).requests@.len() && !ranges_overlap(
                            (#[trigger] old(self).requests@[w]).0,
                            Piece {
                                start: Position { index: piece_index as usize, offset: 0 },
                                end: Position { index: (piece_index + 1) as usize, offset: 0 },
                            },
                        ) ==> final(self).requests@.contains(old(self).requests@[w])
                    &&& final(self).spec_peers() == old(self).spec_peers()
                    &&& final(self).gpc == old(self).gpc
                    &&& final(self).piece_length == old(self).piece_length
                    &&& final(self).pieces_hash == old(self).pieces_hash
                },
                None => {
                    &&& piece_index >= old(self).total_pieces()
                    &&& *final(self) == *old(self)
                },
            },
    {
        let ghost og = *self;
        let total: usize = self.pieces_hash.len() / 20;
        if piece_index as usize >= total {
            return None;
        }
        let pi: usize = piece_index as usize;
        let plen: usize = self.piece_length;
        proof {
            assert((pi + 1) * plen <= (og.total_pieces() + 8) * plen) by (nonlinear_arith)
                requires
                    pi + 1 <= og.total_pieces() + 8,
                    plen >= 0,
            ;
            assert(pi * plen + plen == (pi + 1) * plen) by (nonlinear_arith);
        }
        let piece: Piece = Piece::from(plen, pi, 0, plen);
        proof {
            let p = plen as int;
            assert(pi * p + p == (pi + 1) * p) by (nonlinear_arith);
            assert(piece.end.index * p + piece.end.offset == (pi + 1) * p);
            assert(piece.end.index == pi + 1 && piece.end.offset == 0) by (nonlinear_arith)
                requires
                    piece.end.index * p + piece.end.offset == (pi + 1) * p,
                    0 <= piece.end.offset < p,
                    piece.end.index >= 0,
                    p > 0,
            ;
        }
        // drop in-flight requests for bytes of this piece: they are moot now
        proof {
            assert forall|a: int, b: int|
                0 <= a < b < self.requests@.len() implies #[trigger] self.requests@[a]
                    != #[trigger] self.requests@[b] by {
                if self.requests@[a] == self.requests@[b] {
                    assert(range_in_torrent(og.requests@[a].0, og));
                    assert(ranges_overlap(og.requests@[a].0, og.requests@[b].0));
                }
            }
        }
        let mut i: usize = 0;
        while i < self.requests.len()
            invariant
                i <= self.requests@.len(),
                valid_range(piece),
                forall|w: int|
                    0 <= w < i ==> !ranges_overlap((#[trigger] self.requests@[w]).0, piece),
                forall|k: int|
                    0 <= k < self.requests@.len() ==> og.requests@.contains(
                        #[trigger] self.requests@[k],
                    ),
                forall|a: int, b: int|
                    0 <= a < b < self.requests@.len() ==> #[trigger] self.requests@[a]
                        != #[trigger] self.requests@[b],
                forall|w: int|
                    0 <= w < og.requests@.len() && !ranges_overlap(
                        (#[trigger] og.requests@[w]).0,
                        piece,
                    ) ==> self.requests@.contains(og.requests@[w]),
                self.gpc == og.gpc,
                self.owned == og.owned,
                self.owned_pieces == og.owned_pieces,
                self.request_map == og.request_map,
                self.piece_length == og.piece_length,
                self.pieces_hash == og.pieces_hash,
                self.peer_list == og.peer_list,
            decreases self.requests@.len() - i,
        {
            let (rng, _t) = self.requests[i];
            let overlaps: bool = rng.start.lt(&piece.end) && piece.start.lt(&rng.end);
            if overlaps {
                let ghost prev = self.requests@;
                let ghost ii = i as int;
                let _dropped = self_remove_request(self, i);
                proof {
                    assert forall|k: int| 0 <= k < self.requests@.len() implies og.requests@.contains(
                        #[trigger] self.requests@[k],
                    ) by {
                        if k < ii {
                            assert(self.requests@[k] == prev[k]);
                        } else {
                            assert(self.requests@[k] == prev[k + 1]);
                        }
                    }
                    assert forall|w: int|
                        0 <= w < og.requests@.len() && !ranges_overlap(
                            (#[trigger] og.requests@[w]).0,
                            piece,
                        ) implies self.requests@.contains(og.requests@[w]) by {
                        let x = og.requests@[w];
                        assert(prev.contains(x));
                        let widx = choose|widx: int| 0 <= widx < prev.len() && prev[widx] == x;
                        assert(widx != ii);
                        if widx < ii {
                            assert(self.requests@[widx] == x);
                        } else {
                            assert(self.requests@[widx - 1] == x);
                        }
                    }
                    assert forall|w: int|
                        0 <= w < ii implies !ranges_overlap(
                        (#[trigger] self.requests@[w]).0,
                        piece,
                    ) by {
                        assert(self.requests@[w] == prev[w]);
                    }
                    assert forall|a: int, b: int|
                        0 <= a < b < self.requests@.len() implies #[trigger] self.requests@[a]
                            != #[trigger] self.requests@[b] by {
                        let a2: int = if a < ii {
                            a
                        } else {
                            a + 1
                        };
                        let b2: int = if b < ii {
                            b
                        } else {
                            b + 1
                        };
                        assert(self.requests@[a] == prev[a2]);
                        assert(self.requests@[b] == prev[b2]);
                    }
                }
            } else {
                i += 1;
            }
        }
        // record ownership, in both representations
        crate::peer::set_have_bitfield(&mut self.owned, pi);
        let ghost owned0 = self.owned_pieces@;
        proof {
            crate::chunk::lemma_canonical_is_wf_sorted(owned0);
        }
        match Piece::add_to_boundary_vec(&mut self.owned_pieces, piece) {
            Ok(at) => {
                proof {
                    have_insert_compactable(owned0, self.owned_pieces@, piece, at as int);
                }
                Piece::compact_if_possible(&mut self.owned_pieces, at);
                proof {
                    have_pieces_shape(owned0, self.owned_pieces@, piece, pi, at as int);
                }
            },
            Err(_) => {
                proof {
                    have_duplicate_covered(owned0, piece, pi);
                }
            },
        }
        proof {
            // the owned list stays within the torrent
            assert forall|m: int| 0 <= m < self.owned_pieces@.len() implies (
            #[trigger] self.owned_pieces@[m]).end.index <= og.total_pieces() by {
                let rng = self.owned_pieces@[m];
                assert(valid_range(rng) && rng.start.offset == 0 && rng.end.offset == 0);
                let q = Position { index: (rng.end.index - 1) as usize, offset: 0 };
                assert(in_range(rng, q));
                assert(covers(self.owned_pieces@, q));
                if q.index == pi {
                } else {
                    assert(covers(owned0, q));
                    let w = covers_witness(owned0, q);
                    assert(q.index < owned0[w].end.index);
                }
            }
            // remaining requests avoid every owned range
            assert forall|k: int, m: int|
                0 <= k < self.requests@.len() && 0 <= m
                    < self.owned_pieces@.len() implies !ranges_overlap(
                (#[trigger] self.requests@[k]).0,
                #[trigger] self.owned_pieces@[m],
            ) by {
                if ranges_overlap(self.requests@[k].0, self.owned_pieces@[m]) {
                    assert(og.requests@.contains(self.requests@[k]));
                    let w = choose|w: int|
                        0 <= w < og.requests@.len() && og.requests@[w] == self.requests@[k];
                    assert(range_in_torrent(og.requests@[w].0, og));
                    let p = lemma_overlap_witness(
                        self.requests@[k].0,
                        self.owned_pieces@[m],
                    );
                    assert(covers(self.owned_pieces@, p)) by {
                        assert(in_range(self.owned_pieces@[m], p));
                    }
                    if covers(og.owned_pieces@, p) {
                        let mo = covers_witness(og.owned_pieces@, p);
                        assert(ranges_overlap(og.requests@[w].0, og.owned_pieces@[mo])) by {
                            assert(in_range(self.requests@[k].0, p));
                        }
                        assert(false);
                    } else {
                        assert(p.index == pi);
                        assert(in_range(piece, p));
                        assert(ranges_overlap(self.requests@[k].0, piece)) by {
                            assert(in_range(self.requests@[k].0, p));
                        }
                        let kk = choose|kk: int|
                            0 <= kk < self.requests@.len() && #[trigger] self.requests@[kk]
                                == self.requests@[k];
                        assert(false);
                    }
                }
            }
            // pairwise disjointness and shape carry over from the old list
            assert forall|k: int|
                0 <= k < self.requests@.len() implies range_in_torrent(
                (#[trigger] self.requests@[k]).0,
                *self,
            ) by {
                assert(og.requests@.contains(self.requests@[k]));
                let w = choose|w: int|
                    0 <= w < og.requests@.len() && og.requests@[w] == self.requests@[k];
                assert(range_in_torrent(og.requests@[w].0, og));
            }
            assert forall|k1: int, k2: int|
                0 <= k1 < self.requests@.len() && 0 <= k2 < self.requests@.len() && k1
                    != k2 implies !ranges_overlap(
                (#[trigger] self.requests@[k1]).0,
                (#[trigger] self.requests@[k2]).0,
            ) by {
                if ranges_overlap(self.requests@[k1].0, self.requests@[k2].0) {
                    assert(self.requests@[k1] != self.requests@[k2]);
                    assert(og.requests@.contains(self.requests@[k1]));
                    assert(og.requests@.contains(self.requests@[k2]));
                    let w1 = choose|w1: int|
                        0 <= w1 < og.requests@.len() && og.requests@[w1] == self.requests@[k1];
                    let w2 = choose|w2: int|
                        0 <= w2 < og.requests@.len() && og.requests@[w2] == self.requests@[k2];
                    assert(w1 != w2);
                    assert(!ranges_overlap(og.requests@[w1].0, og.requests@[w2].0));
                    assert(false);
                }
            }
        }
        proof {
            assert(self.peer_list == og.peer_list);
            assert forall|ee: int| 0 <= ee < self.spec_peers().len() implies state_wf(
                (#[trigger] self.spec_peers()[ee]).peer.state,
            ) && (forall|m: int|
                0 <= m < self.spec_peers()[ee].peer.state.pieces@.len() ==> ((
                #[trigger] self.spec_peers()[ee].peer.state.pieces@[m]).end.index
                    <= self.total_pieces() + 7)) by {
                assert(self.spec_peers()[ee] == og.spec_peers()[ee]);
                assert(state_wf(og.spec_peers()[ee].peer.state));
            }
        }
        Some(Message::Have { piece_index })
    }
}


/// Something the scheduler can drive, tick by tick.
pub trait Spin {
    /// The state the driver must keep the implementor in between ticks.
    spec fn tick_wf(&self) -> bool;

    /// One scheduler tick: decide what to send to whom, and return those
    /// sends as pairs of peer index and message.
    fn spin(&mut self) -> (sends: Vec<(usize, Message)>)
        requires
            old(self).tick_wf(),
        ensures
            final(self).tick_wf(),
    ;
}

/// The positions excluded from new requests: everything owned and
/// everything in flight, over the first `upto` in-flight entries.
pub open spec fn exclude_covers(g: GlobalState, upto: int, p: Position) -> bool {
    covers(g.owned_pieces@, p) || exists|w: int|
        0 <= w < upto && in_range((#[trigger] g.requests@[w]).0, p)
}

/// The cursor list `exclude` is a sound over-approximation guard: ranges
/// are well shaped and it covers every owned or in-flight position.
pub open spec fn exclude_inv(g: GlobalState, exclude: Seq<Piece>) -> bool {
    &&& wf_sorted(exclude)
    &&& forall|k: int| 0 <= k < exclude.len() ==> range_in_torrent(#[trigger] exclude[k], g)
    &&& forall|p: Position|
        exclude_covers(g, g.requests@.len() as int, p) ==> #[trigger] covers(exclude, p)
}

/// The peer at `i` has been quiet on the outbound side for two minutes.
pub open spec fn quiet_peer(g0: GlobalState, i: int, now: i64) -> bool {
    g0.spec_peers()[i].last_send < now - 120
}

/// How many of this tick's issued requests went to peers before `i`.
pub open spec fn count_issued_before(appended: Seq<(int, Piece)>, i: int) -> int
    decreases appended.len(),
{
    if appended.len() == 0 {
        0
    } else {
        count_issued_before(appended.drop_last(), i) + (if appended.last().0 < i {
            1int
        } else {
            0int
        })
    }
}

/// This tick issued a request to the peer at `i`.
pub open spec fn peer_has_issue(appended: Seq<(int, Piece)>, i: int) -> bool {
    exists|k: int| 0 <= k < appended.len() && (#[trigger] appended[k]).0 == i
}

/// `p` was excluded when the peer at `i` was considered: owned, in flight
/// before the tick, or issued earlier in this tick.
pub open spec fn tick_excluded(
    g0: GlobalState,
    appended: Seq<(int, Piece)>,
    i: int,
    p: Position,
) -> bool {
    ||| covers(g0.owned_pieces@, p)
    ||| exists|w: int| 0 <= w < g0.requests@.len() && in_range((#[trigger] g0.requests@[w]).0, p)
    ||| exists|k: int|
        0 <= k < appended.len() && (#[trigger] appended[k]).0 < i && in_range(appended[k].1, p)
}

/// `p` is excluded by the owned ranges, the pre-tick in-flight ranges, or
/// any of this tick's issues.
pub open spec fn tick_excluded_all(g0: GlobalState, appended: Seq<(int, Piece)>, p: Position) -> bool {
    ||| covers(g0.owned_pieces@, p)
    ||| exists|w: int| 0 <= w < g0.requests@.len() && in_range((#[trigger] g0.requests@[w]).0, p)
    ||| exists|k: int| 0 <= k < appended.len() && in_range((#[trigger] appended[k]).1, p)
}

/// The peer at `i` still wants `p`: it advertises the position and nothing
/// excludes it at the peer's turn.
pub open spec fn peer_wants(g0: GlobalState, appended: Seq<(int, Piece)>, i: int, p: Position) -> bool {
    covers(g0.spec_peers()[i].peer.state.pieces@, p) && !tick_excluded(g0, appended, i, p)
}

/// `r` is the head block of what the peer at `i` still wants: the first
/// block-sized range of the canonical complement, capped at the piece
/// boundary and at the first wanted range's end.  The canonical list
/// covering the wanted positions is unique, so `r` is determined.
pub open spec fn head_block_of(g0: GlobalState, appended: Seq<(int, Piece)>, i: int, r: Piece) -> bool {
    exists|cand: Seq<Piece>|
        {
            &&& #[trigger] canonical(cand)
            &&& (forall|p: Position|
                #[trigger] covers(cand, p) <==> peer_wants(g0, appended, i, p))
            &&& cand.len() > 0
            &&& r.start == cand[0].start
            &&& r.end.offset < g0.spec_piece_length()
            &&& abs_pos(r.end, g0.spec_piece_length()) - abs_pos(r.start, g0.spec_piece_length())
                == vstd::math::min(
                BLOCK_LENGTH as int,
                vstd::math::min(
                    g0.spec_piece_length() - cand[0].start.offset,
                    abs_pos(cand[0].end, g0.spec_piece_length()) - abs_pos(
                        cand[0].start,
                        g0.spec_piece_length(),
                    ),
                ),
            )
        }
}

/// The tick's decision for the peer at `i` was right: below the in-flight
/// cap, a peer that still wants something got exactly the head block of
/// what it wants, and a peer that wants nothing (or a tick already at the
/// cap) got nothing.
pub open spec fn issue_ok(g0: GlobalState, appended: Seq<(int, Piece)>, i: int) -> bool {
    let prior = g0.requests@.len() + count_issued_before(appended, i);
    if prior >= WANT_LIMIT {
        !peer_has_issue(appended, i)
    } else if exists|p: Position| peer_wants(g0, appended, i, p) {
        peer_has_issue(appended, i) && (forall|k: int|
            0 <= k < appended.len() && (#[trigger] appended[k]).0 == i ==> head_block_of(
                g0,
                appended,
                i,
                appended[k].1,
            ))
    } else {
        !peer_has_issue(appended, i)
    }
}

/// The trace of this tick's issues is coherent: one per peer at most, in
/// peer order, each decision right, each range shaped for the torrent and
/// disjoint from the owned ranges, from everything in flight before the
/// tick, and from the other issues.
pub open spec fn appended_wf(g0: GlobalState, appended: Seq<(int, Piece)>) -> bool {
    &&& forall|k: int|
        0 <= k < appended.len() ==> 0 <= (#[trigger] appended[k]).0 < g0.spec_peers().len()
    &&& forall|k1: int, k2: int|
        0 <= k1 < k2 < appended.len() ==> (#[trigger] appended[k1]).0 < (#[trigger] appended[k2]).0
    &&& forall|k: int| 0 <= k < appended.len() ==> range_in_torrent((#[trigger] appended[k]).1, g0)
    &&& forall|k: int, w: int|
        0 <= k < appended.len() && 0 <= w < g0.requests@.len() ==> !ranges_overlap(
            (#[trigger] appended[k]).1,
            (#[trigger] g0.requests@[w]).0,
        )
    &&& forall|k: int, m: int|
        0 <= k < appended.len() && 0 <= m < g0.owned_pieces@.len() ==> !ranges_overlap(
            (#[trigger] appended[k]).1,
            #[trigger] g0.owned_pieces@[m],
        )
    &&& forall|k1: int, k2: int|
        0 <= k1 < appended.len() && 0 <= k2 < appended.len() && k1 != k2 ==> !ranges_overlap(
            (#[trigger] appended[k1]).1,
            (#[trigger] appended[k2]).1,
        )
    &&& forall|i: int| 0 <= i < g0.spec_peers().len() ==> issue_ok(g0, appended, i)
}

/// The expiry sweep, exactly: walk the list from the front, drop each
/// entry issued more than eighteen seconds ago while the budget lasts,
/// keep everything else.
pub open spec fn expire_from(s: Seq<(Piece, i64)>, now: i64, budget: int) -> Seq<(Piece, i64)>
    decreases s.len(),
{
    if s.len() == 0 {
        s
    } else if s.first().1 < now - 18 && budget > 0 {
        expire_from(s.drop_first(), now, budget - 1)
    } else {
        seq![s.first()] + expire_from(s.drop_first(), now, budget)
    }
}

/// This tick's issues as in-flight entries, stamped with the tick's time.
pub open spec fn appended_requests(appended: Seq<(int, Piece)>, now: i64) -> Seq<(Piece, i64)> {
    appended.map_values(|e: (int, Piece)| (e.1, now))
}

/// Every issued range of the trace is announced by a `Request` send to
/// its peer.
pub open spec fn sends_cover_issues(
    og: GlobalState,
    sends: Seq<(usize, Message)>,
    appended: Seq<(int, Piece)>,
) -> bool {
    forall|k: int|
        0 <= k < appended.len() ==> exists|s: int|
            0 <= s < sends.len() && (#[trigger] sends[s]).0 == (#[trigger] appended[k]).0
                && request_send_matches(sends[s].1, appended[k].1, og.spec_piece_length())
}

/// `m` is the `Request` that announces the issued range `r`.
pub open spec fn request_send_matches(m: Message, r: Piece, plen: int) -> bool {
    m matches Message::Request { index, begin, length } && index as int == r.start.index as int
        && begin as int == r.start.offset as int && length as int == abs_pos(r.end, plen)
        - abs_pos(r.start, plen)
}

/// What one tick does, witnessed by the trace `appended` of this tick's
/// issued requests:
/// - the in-flight list afterwards is the old list plus the issues, each
///   stamped `now`; when that reaches the cap, the expiry sweep is applied
///   to it, exactly as `expire_from` says — so entries leave only at the
///   cap, only when stale, oldest-scanned first, at most half the cap, and
///   every other entry is retained;
/// - each issue was the right decision for its peer (`issue_ok`), and its
///   range meets nothing owned, nothing previously in flight, and no other
///   issue;
/// - a peer quiet for two minutes gets exactly one keep-alive and its
///   last-send time is set to `now`; other peers' times are untouched;
/// - each issued range is announced by a `Request` send to its peer, and
///   every send is one of these keep-alives or announcements.
pub open spec fn tick_post(
    g0: GlobalState,
    g1: GlobalState,
    sends: Seq<(usize, Message)>,
    appended: Seq<(int, Piece)>,
    now: i64,
) -> bool {
    let mid = g0.requests@ + appended_requests(appended, now);
    &&& appended_wf(g0, appended)
    &&& (mid.len() < WANT_LIMIT ==> g1.requests@ == mid)
    &&& (mid.len() >= WANT_LIMIT ==> g1.requests@ == expire_from(
        mid,
        now,
        WANT_LIMIT as int / EXPIRE_FACTOR as int,
    ))
    &&& g1.spec_peers().len() == g0.spec_peers().len()
    &&& forall|i: int|
        0 <= i < g0.spec_peers().len() ==> (#[trigger] g1.spec_peers()[i]).last_send == (if quiet_peer(
            g0,
            i,
            now,
        ) {
            now
        } else {
            g0.spec_peers()[i].last_send
        })
    &&& forall|i: int|
        0 <= i < g0.spec_peers().len() && quiet_peer(g0, i, now) ==> exists|s: int|
            0 <= s < sends.len() && (#[trigger] sends[s]).0 == i && sends[s].1 is KeepAlive
    &&& sends_cover_issues(g0, sends, appended)
    &&& forall|s: int|
        0 <= s < sends.len() ==> match (#[trigger] sends[s]).1 {
            Message::KeepAlive => 0 <= (sends[s].0 as int) < g0.spec_peers().len() && quiet_peer(
                g0,
                sends[s].0 as int,
                now,
            ),
            Message::Request { index, begin, length } => exists|k: int|
                0 <= k < appended.len() && (#[trigger] appended[k]).0 == sends[s].0
                    && request_send_matches(sends[s].1, appended[k].1, g0.spec_piece_length()),
            _ => false,
        }
    &&& forall|s1: int, s2: int|
        0 <= s1 < sends.len() && 0 <= s2 < sends.len() && (#[trigger] sends[s1]).1 is KeepAlive && (
        #[trigger] sends[s2]).1 is KeepAlive && sends[s1].0 == sends[s2].0 ==> s1 == s2
    &&& forall|s1: int, s2: int|
        0 <= s1 < sends.len() && 0 <= s2 < sends.len() && (#[trigger] sends[s1]).1 is Request && (
        #[trigger] sends[s2]).1 is Request && sends[s1].0 == sends[s2].0 ==> s1 == s2
}

/// When every issue so far went to a peer before `i`, they are all counted
/// before `i`.
proof fn lemma_count_all_below(appended: Seq<(int, Piece)>, i: int)
    requires
        forall|k: int| 0 <= k < appended.len() ==> (#[trigger] appended[k]).0 < i,
    ensures
        count_issued_before(appended, i) == appended.len(),
    decreases appended.len(),
{
    if appended.len() > 0 {
        lemma_count_all_below(appended.drop_last(), i);
    }
}

/// An issue to a peer at or past `ii` does not change the count before `ii`.
proof fn lemma_count_push_ge(appended: Seq<(int, Piece)>, e: (int, Piece), ii: int)
    requires
        e.0 >= ii,
    ensures
        count_issued_before(appended.push(e), ii) == count_issued_before(appended, ii),
{
    assert(appended.push(e).drop_last() =~= appended);
    assert(appended.push(e).last() == e);
}

/// While every issue so far targets peers before `i`, the exclusion seen
/// at peer `i` is the exclusion by everything issued so far.
proof fn lemma_tick_excluded_below(
    g0: GlobalState,
    appended: Seq<(int, Piece)>,
    i: int,
    p: Position,
)
    requires
        forall|k: int| 0 <= k < appended.len() ==> (#[trigger] appended[k]).0 < i,
    ensures
        tick_excluded(g0, appended, i, p) == tick_excluded_all(g0, appended, p),
{
}

/// The exclusion seen at peer `i` ignores the issue made for peer `i`
/// itself.
proof fn lemma_tick_excluded_push(
    g0: GlobalState,
    appended: Seq<(int, Piece)>,
    e: (int, Piece),
    i: int,
    p: Position,
)
    requires
        e.0 == i,
        forall|k: int| 0 <= k < appended.len() ==> (#[trigger] appended[k]).0 < i,
    ensures
        tick_excluded(g0, appended.push(e), i, p) == tick_excluded_all(g0, appended, p),
{
    let post = appended.push(e);
    if exists|k: int| 0 <= k < post.len() && (#[trigger] post[k]).0 < i && in_range(post[k].1, p) {
        let k = choose|k: int|
            0 <= k < post.len() && (#[trigger] post[k]).0 < i && in_range(post[k].1, p);
        assert(k < appended.len());
        assert(post[k] == appended[k]);
        assert(tick_excluded_all(g0, appended, p));
    }
    if exists|k: int| 0 <= k < appended.len() && in_range((#[trigger] appended[k]).1, p) {
        let k = choose|k: int| 0 <= k < appended.len() && in_range((#[trigger] appended[k]).1, p);
        assert(post[k] == appended[k]);
        assert(post[k].0 < i && in_range(post[k].1, p));
        assert(tick_excluded(g0, post, i, p));
    }
}

/// A later issue does not disturb the rightness of an earlier peer's
/// decision.
proof fn lemma_issue_ok_push(g0: GlobalState, appended: Seq<(int, Piece)>, e: (int, Piece), ii: int)
    requires
        issue_ok(g0, appended, ii),
        e.0 > ii,
    ensures
        issue_ok(g0, appended.push(e), ii),
{
    let post = appended.push(e);
    lemma_count_push_ge(appended, e, ii);
    // the exclusion and the wish of peer `ii` are unchanged
    assert forall|p: Position|
        tick_excluded(g0, post, ii, p) == tick_excluded(g0, appended, ii, p) by {
        if exists|k: int| 0 <= k < post.len() && (#[trigger] post[k]).0 < ii && in_range(
            post[k].1,
            p,
        ) {
            let k = choose|k: int|
                0 <= k < post.len() && (#[trigger] post[k]).0 < ii && in_range(post[k].1, p);
            assert(k < appended.len());
            assert(post[k] == appended[k]);
        }
        if exists|k: int| 0 <= k < appended.len() && (#[trigger] appended[k]).0 < ii && in_range(
            appended[k].1,
            p,
        ) {
            let k = choose|k: int|
                0 <= k < appended.len() && (#[trigger] appended[k]).0 < ii && in_range(
                    appended[k].1,
                    p,
                );
            assert(post[k] == appended[k]);
        }
    }
    assert forall|p: Position| peer_wants(g0, post, ii, p) == peer_wants(g0, appended, ii, p) by {}
    assert(peer_has_issue(post, ii) == peer_has_issue(appended, ii)) by {
        if peer_has_issue(post, ii) {
            let k = choose|k: int| 0 <= k < post.len() && (#[trigger] post[k]).0 == ii;
            assert(k < appended.len());
            assert(post[k] == appended[k]);
        }
        if peer_has_issue(appended, ii) {
            let k = choose|k: int| 0 <= k < appended.len() && (#[trigger] appended[k]).0 == ii;
            assert(post[k] == appended[k]);
        }
    }
    let prior = g0.requests@.len() + count_issued_before(post, ii);
    if prior >= WANT_LIMIT {
    } else if exists|p: Position| peer_wants(g0, post, ii, p) {
        assert(exists|p: Position| peer_wants(g0, appended, ii, p)) by {
            let p = choose|p: Position| peer_wants(g0, post, ii, p);
            assert(peer_wants(g0, appended, ii, p));
        }
        assert forall|k: int|
            0 <= k < post.len() && (#[trigger] post[k]).0 == ii implies head_block_of(
            g0,
            post,
            ii,
            post[k].1,
        ) by {
            assert(k < appended.len());
            assert(post[k] == appended[k]);
            assert(head_block_of(g0, appended, ii, appended[k].1));
            let cand = choose|cand: Seq<Piece>|
                {
                    &&& #[trigger] canonical(cand)
                    &&& (forall|p: Position|
                        #[trigger] covers(cand, p) <==> peer_wants(g0, appended, ii, p))
                    &&& cand.len() > 0
                    &&& appended[k].1.start == cand[0].start
                    &&& appended[k].1.end.offset < g0.spec_piece_length()
                    &&& abs_pos(appended[k].1.end, g0.spec_piece_length()) - abs_pos(
                        appended[k].1.start,
                        g0.spec_piece_length(),
                    ) == vstd::math::min(
                        BLOCK_LENGTH as int,
                        vstd::math::min(
                            g0.spec_piece_length() - cand[0].start.offset,
                            abs_pos(cand[0].end, g0.spec_piece_length()) - abs_pos(
                                cand[0].start,
                                g0.spec_piece_length(),
                            ),
                        ),
                    )
                };
            assert(forall|p: Position|
                #[trigger] covers(cand, p) <==> peer_wants(g0, post, ii, p));
            assert(head_block_of(g0, post, ii, post[k].1));
        }
    } else {
        assert(!(exists|p: Position| peer_wants(g0, appended, ii, p))) by {
            if exists|p: Position| peer_wants(g0, appended, ii, p) {
                let p = choose|p: Position| peer_wants(g0, appended, ii, p);
                assert(peer_wants(g0, post, ii, p));
            }
        }
    }
}

/// One peer's turn extends the outbound sends soundly: the keep-alive (if
/// the peer was quiet) and the announcement of its issued request (if any)
/// keep every send accounted for, at most one of each kind per peer.
#[verifier::spinoff_prover]
proof fn sends_step_ok(
    og: GlobalState,
    now: i64,
    i: usize,
    quiet: bool,
    sends0: Seq<(usize, Message)>,
    sends_cur: Seq<(usize, Message)>,
    appended0: Seq<(int, Piece)>,
    appended: Seq<(int, Piece)>,
)
    requires
        (i as int) < og.spec_peers().len(),
        quiet == quiet_peer(og, i as int, now),
        forall|s: int| 0 <= s < sends0.len() ==> (#[trigger] sends0[s]).0 < i,
        forall|s: int|
            0 <= s < sends0.len() ==> match (#[trigger] sends0[s]).1 {
                Message::KeepAlive => quiet_peer(og, sends0[s].0 as int, now),
                Message::Request { index, begin, length } => exists|k: int|
                    0 <= k < appended0.len() && (#[trigger] appended0[k]).0 == sends0[s].0
                        && request_send_matches(
                        sends0[s].1,
                        appended0[k].1,
                        og.spec_piece_length(),
                    ),
                _ => false,
            },
        forall|ii: int|
            0 <= ii < i && quiet_peer(og, ii, now) ==> exists|s: int|
                0 <= s < sends0.len() && (#[trigger] sends0[s]).0 == ii
                    && sends0[s].1 is KeepAlive,
        sends_cover_issues(og, sends0, appended0),
        forall|s1: int, s2: int|
            0 <= s1 < sends0.len() && 0 <= s2 < sends0.len() && (
            #[trigger] sends0[s1]).1 is KeepAlive && (#[trigger] sends0[s2]).1 is KeepAlive
                && sends0[s1].0 == sends0[s2].0 ==> s1 == s2,
        forall|s1: int, s2: int|
            0 <= s1 < sends0.len() && 0 <= s2 < sends0.len() && (
            #[trigger] sends0[s1]).1 is Request && (#[trigger] sends0[s2]).1 is Request
                && sends0[s1].0 == sends0[s2].0 ==> s1 == s2,
        forall|k: int| 0 <= k < appended0.len() ==> 0 <= (#[trigger] appended0[k]).0 < i,
        ({
            let sends_ka: Seq<(usize, Message)> = if quiet {
                sends0.push((i, Message::KeepAlive))
            } else {
                sends0
            };
            if appended == appended0 {
                sends_cur == sends_ka
            } else {
                &&& appended.len() == appended0.len() + 1
                &&& appended == appended0.push(appended.last())
                &&& appended.last().0 == i as int
                &&& sends_cur.len() == sends_ka.len() + 1
                &&& sends_cur == sends_ka.push(sends_cur.last())
                &&& sends_cur.last().0 == i
                &&& sends_cur.last().1 is Request
                &&& request_send_matches(
                    sends_cur.last().1,
                    appended.last().1,
                    og.spec_piece_length(),
                )
            }
        }),
    ensures
        forall|s: int| 0 <= s < sends_cur.len() ==> (#[trigger] sends_cur[s]).0 < i + 1,
        forall|s: int|
            0 <= s < sends_cur.len() ==> match (#[trigger] sends_cur[s]).1 {
                Message::KeepAlive => quiet_peer(og, sends_cur[s].0 as int, now),
                Message::Request { index, begin, length } => exists|k: int|
                    0 <= k < appended.len() && (#[trigger] appended[k]).0 == sends_cur[s].0
                        && request_send_matches(
                        sends_cur[s].1,
                        appended[k].1,
                        og.spec_piece_length(),
                    ),
                _ => false,
            },
        forall|ii: int|
            0 <= ii < i + 1 && quiet_peer(og, ii, now) ==> exists|s: int|
                0 <= s < sends_cur.len() && (#[trigger] sends_cur[s]).0 == ii
                    && sends_cur[s].1 is KeepAlive,
        sends_cover_issues(og, sends_cur, appended),
        forall|s1: int, s2: int|
            0 <= s1 < sends_cur.len() && 0 <= s2 < sends_cur.len() && (
            #[trigger] sends_cur[s1]).1 is KeepAlive && (#[trigger] sends_cur[s2]).1 is KeepAlive
                && sends_cur[s1].0 == sends_cur[s2].0 ==> s1 == s2,
        forall|s1: int, s2: int|
            0 <= s1 < sends_cur.len() && 0 <= s2 < sends_cur.len() && (
            #[trigger] sends_cur[s1]).1 is Request && (#[trigger] sends_cur[s2]).1 is Request
                && sends_cur[s1].0 == sends_cur[s2].0 ==> s1 == s2,
{
    let sends_ka: Seq<(usize, Message)> = if quiet {
        sends0.push((i, Message::KeepAlive))
    } else {
        sends0
    };
    let issued = appended != appended0;
    assert(forall|s: int| 0 <= s < sends0.len() ==> #[trigger] sends_cur[s] == sends0[s]);
    assert(forall|k: int| 0 <= k < appended0.len() ==> #[trigger] appended[k] == appended0[k]);
    assert forall|s: int|
        0 <= s < sends_cur.len() implies match (#[trigger] sends_cur[s]).1 {
        Message::KeepAlive => quiet_peer(og, sends_cur[s].0 as int, now),
        Message::Request { index, begin, length } => exists|k: int|
            0 <= k < appended.len() && (#[trigger] appended[k]).0 == sends_cur[s].0
                && request_send_matches(sends_cur[s].1, appended[k].1, og.spec_piece_length()),
        _ => false,
    } by {
        if s < sends0.len() {
            assert(sends_cur[s] == sends0[s]);
            match sends0[s].1 {
                Message::Request { index, begin, length } => {
                    let k = choose|k: int|
                        0 <= k < appended0.len() && (#[trigger] appended0[k]).0 == sends0[s].0
                            && request_send_matches(
                            sends0[s].1,
                            appended0[k].1,
                            og.spec_piece_length(),
                        );
                    assert(appended[k] == appended0[k]);
                },
                _ => {},
            }
        } else if s < sends_ka.len() {
            assert(quiet);
            assert(sends_cur[s] == (i, Message::KeepAlive));
        } else {
            assert(issued);
            assert(s == sends_cur.len() - 1);
            assert(sends_cur[s] == sends_cur.last());
            assert((#[trigger] appended[appended.len() - 1]) == appended.last());
        }
    }
    assert forall|ii: int|
        0 <= ii < i + 1 && quiet_peer(og, ii, now) implies exists|s: int|
            0 <= s < sends_cur.len() && (#[trigger] sends_cur[s]).0 == ii
                && sends_cur[s].1 is KeepAlive by {
        if ii < i {
            let s = choose|s: int|
                0 <= s < sends0.len() && (#[trigger] sends0[s]).0 == ii
                    && sends0[s].1 is KeepAlive;
            assert(sends_cur[s] == sends0[s]);
        } else {
            assert(quiet);
            assert(sends_cur[sends0.len() as int] == (i, Message::KeepAlive));
        }
    }
    assert(sends_cover_issues(og, sends_cur, appended)) by {
        assert forall|k: int|
            0 <= k < appended.len() implies exists|s: int|
                0 <= s < sends_cur.len() && (#[trigger] sends_cur[s]).0 == (
                #[trigger] appended[k]).0 && request_send_matches(
                    sends_cur[s].1,
                    appended[k].1,
                    og.spec_piece_length(),
                ) by {
            if k < appended0.len() {
                assert(appended[k] == appended0[k]);
                let s = choose|s: int|
                    0 <= s < sends0.len() && (#[trigger] sends0[s]).0 == appended0[k].0
                        && request_send_matches(
                        sends0[s].1,
                        appended0[k].1,
                        og.spec_piece_length(),
                    );
                assert(sends_cur[s] == sends0[s]);
            } else {
                assert(issued);
                assert(k == appended.len() - 1);
                assert(appended[k] == appended.last());
                assert(sends_cur[sends_cur.len() - 1] == sends_cur.last());
            }
        }
    }
    assert forall|s1: int, s2: int|
        0 <= s1 < sends_cur.len() && 0 <= s2 < sends_cur.len() && (
        #[trigger] sends_cur[s1]).1 is KeepAlive && (#[trigger] sends_cur[s2]).1 is KeepAlive
            && sends_cur[s1].0 == sends_cur[s2].0 implies s1 == s2 by {
        if s1 < sends0.len() && s2 >= sends0.len() {
            assert(sends_cur[s1] == sends0[s1]);
            assert(sends0[s1].0 < i);
            assert(sends_cur[s2].0 == i);
        }
        if s2 < sends0.len() && s1 >= sends0.len() {
            assert(sends_cur[s2] == sends0[s2]);
            assert(sends0[s2].0 < i);
            assert(sends_cur[s1].0 == i);
        }
        if s1 >= sends0.len() && s2 >= sends0.len() && s1 != s2 {
            assert(s1 >= sends_ka.len() || s2 >= sends_ka.len());
            assert(sends_cur[s1].1 is Request || sends_cur[s2].1 is Request);
        }
    }
    assert forall|s1: int, s2: int|
        0 <= s1 < sends_cur.len() && 0 <= s2 < sends_cur.len() && (
        #[trigger] sends_cur[s1]).1 is Request && (#[trigger] sends_cur[s2]).1 is Request
            && sends_cur[s1].0 == sends_cur[s2].0 implies s1 == s2 by {
        if s1 < sends0.len() && s2 >= sends0.len() {
            assert(sends_cur[s1] == sends0[s1]);
            assert(sends0[s1].0 < i);
            assert(sends_cur[s2].0 == i);
        }
        if s2 < sends0.len() && s1 >= sends0.len() {
            assert(sends_cur[s2] == sends0[s2]);
            assert(sends0[s2].0 < i);
            assert(sends_cur[s1].0 == i);
        }
        if s1 >= sends0.len() && s2 >= sends0.len() && s1 != s2 {
            if quiet {
                assert(sends_cur[sends0.len() as int].1 is KeepAlive);
                assert(s1 == sends0.len() || s2 == sends0.len());
                assert(false);
            }
        }
    }
}


impl GlobalState {
    /// One scheduler pass at time `now`: send a keep-alive to every peer
    /// quiet for two minutes, issue at most one block-sized `Request` per
    /// peer for bytes neither owned nor in flight (stopping at the
    /// in-flight cap), and, at the cap, expire up to half the cap of
    /// requests older than eighteen seconds.  `tick_post` pins all of it,
    /// witnessed by the trace of this tick's issued requests.
    #[verifier::spinoff_prover]
    #[verifier::rlimit(100)]
    pub fn spin_at(&mut self, now: i64) -> (sends: Vec<(usize, Message)>)
        requires
            swarm_wf(*old(self)),
            now >= i64::MIN + 120,
        ensures
            swarm_wf(*final(self)),
            exists|appended: Seq<(int, Piece)>|
                tick_post(*old(self), *final(self), sends@, appended, now),
            final(self).gpc == old(self).gpc,
            final(self).owned == old(self).owned,
            final(self).owned_pieces == old(self).owned_pieces,
            final(self).request_map == old(self).request_map,
            final(self).piece_length == old(self).piece_length,
            final(self).pieces_hash == old(self).pieces_hash,
            final(self).spec_peers().len() == old(self).spec_peers().len(),
            forall|k: int|
                0 <= k < old(self).spec_peers().len()
                    ==> (#[trigger] final(self).spec_peers()[k]).peer
                    == old(self).spec_peers()[k].peer && final(self).spec_peers()[k].peer_id
                    == old(self).spec_peers()[k].peer_id,
            forall|k: int|
                0 <= k < final(self).requests@.len()
                    ==> ((#[trigger] final(self).requests@[k]).1 == now
                    || old(self).requests@.contains(final(self).requests@[k])),
            forall|s: int|
                0 <= s < sends@.len() ==> (#[trigger] sends@[s]).0 < old(self).spec_peers().len(),
    {
        let ghost og = *self;
        let mut sends: Vec<(usize, Message)> = Vec::new();
        let plen: usize = self.piece_length;
        // the exclusion cursor: everything owned or already in flight
        let mut exclude: Vec<Piece> = Vec::new();
        let mut oi: usize = 0;
        let on: usize = self.owned_pieces.len();
        while oi < on
            invariant
                on == self.owned_pieces@.len(),
                oi <= on,
                exclude@ == self.owned_pieces@.take(oi as int),
            decreases on - oi,
        {
            exclude.push(self.owned_pieces[oi]);
            proof {
                assert(exclude@ =~= self.owned_pieces@.take(oi + 1));
            }
            oi += 1;
        }
        proof {
            assert(exclude@ =~= self.owned_pieces@);
            assert forall|p: Position| #[trigger] covers(exclude@, p) <==> exclude_covers(
                *self,
                0,
                p,
            ) by {
                if covers(self.owned_pieces@, p) {
                    let w = covers_witness(self.owned_pieces@, p);
                    assert(in_range(exclude@[w], p));
                    assert(covers(exclude@, p));
                }
                if covers(exclude@, p) {
                    let w = covers_witness(exclude@, p);
                    assert(in_range(self.owned_pieces@[w], p));
                    assert(covers(self.owned_pieces@, p));
                }
            }
            assert forall|k: int| 0 <= k < exclude@.len() implies range_in_torrent(
                #[trigger] exclude@[k],
                *self,
            ) by {
                assert(exclude@[k] == self.owned_pieces@[k]);
                assert(whole_pieces(self.owned_pieces@));
            }
        }
        let mut ri: usize = 0;
        let rn: usize = self.requests.len();
        while ri < rn
            invariant
                *self == og,
                swarm_wf(og),
                rn == self.requests@.len(),
                ri <= rn,
                plen == self.piece_length,
                wf_sorted(exclude@),
                forall|k: int| 0 <= k < exclude@.len() ==> range_in_torrent(
                    #[trigger] exclude@[k],
                    *self,
                ),
                forall|p: Position|
                    #[trigger] covers(exclude@, p) <==> exclude_covers(*self, ri as int, p),
            decreases rn - ri,
        {
            let (rng, _t) = self.requests[ri];
            let ghost before = exclude@;
            proof {
                assert(range_in_torrent(rng, og));
                assert forall|k: int| 0 <= k < exclude@.len() implies !ranges_overlap(
                    rng,
                    #[trigger] exclude@[k],
                ) by {
                    if ranges_overlap(rng, exclude@[k]) {
                        let p = lemma_overlap_witness(rng, exclude@[k]);
                        assert(covers(exclude@, p)) by {
                            assert(in_range(exclude@[k], p));
                        }
                        assert(exclude_covers(*self, ri as int, p));
                        if covers(self.owned_pieces@, p) {
                            let m = covers_witness(self.owned_pieces@, p);
                            assert(ranges_overlap(rng, self.owned_pieces@[m])) by {
                                assert(in_range(rng, p));
                            }
                            assert(false);
                        } else {
                            let w = choose|w: int|
                                0 <= w < ri && in_range((#[trigger] self.requests@[w]).0, p);
                            assert(ranges_overlap(rng, self.requests@[w].0)) by {
                                assert(in_range(rng, p));
                            }
                            assert(false);
                        }
                    }
                }
            }
            match Piece::add_to_boundary_vec(&mut exclude, rng) {
                Ok(_at) => {
                    proof {
                        assert forall|p: Position|
                            #[trigger] covers(exclude@, p) <==> exclude_covers(
                            *self,
                            ri + 1,
                            p,
                        ) by {
                            lemma_covers_insert(before, rng, _at as int, p);
                            if exclude_covers(*self, ri + 1, p) {
                                if covers(self.owned_pieces@, p) {
                                    assert(covers(before, p));
                                } else {
                                    let w = choose|w: int|
                                        0 <= w < ri + 1 && in_range(
                                            (#[trigger] self.requests@[w]).0,
                                            p,
                                        );
                                    if w < ri {
                                        assert(covers(before, p)) by {
                                            assert(exclude_covers(*self, ri as int, p));
                                        }
                                    } else {
                                        assert(in_range(rng, p));
                                    }
                                }
                                assert(covers(exclude@, p));
                            }
                            if covers(exclude@, p) {
                                if in_range(rng, p) {
                                    assert(exclude_covers(*self, ri + 1, p)) by {
                                        assert(in_range(self.requests@[ri as int].0, p));
                                    }
                                } else {
                                    assert(covers(before, p));
                                    assert(exclude_covers(*self, ri as int, p));
                                    if covers(self.owned_pieces@, p) {
                                    } else {
                                        let w = choose|w: int|
                                            0 <= w < ri && in_range(
                                                (#[trigger] self.requests@[w]).0,
                                                p,
                                            );
                                        assert(in_range(self.requests@[w].0, p));
                                    }
                                    assert(exclude_covers(*self, ri + 1, p));
                                }
                            }
                        }
                        assert forall|k: int| 0 <= k < exclude@.len() implies range_in_torrent(
                            #[trigger] exclude@[k],
                            *self,
                        ) by {
                            assert(exclude@ == before.insert(_at as int, rng));
                            if k < _at {
                                assert(exclude@[k] == before[k]);
                            } else if k == _at {
                                assert(exclude@[k] == rng);
                            } else {
                                assert(exclude@[k] == before[k - 1]);
                            }
                        }
                    }
                },
                Err(_) => {
                    proof {
                        assert(false);
                    }
                },
            }
            ri += 1;
        }
        let ghost mut appended: Seq<(int, Piece)> = Seq::empty();
        proof {
            assert(appended_requests(appended, now) =~= Seq::<(Piece, i64)>::empty());
            assert(self.requests@ =~= og.requests@ + appended_requests(appended, now));
            assert forall|p: Position|
                #[trigger] covers(exclude@, p) <==> tick_excluded_all(og, appended, p) by {
                assert(covers(exclude@, p) <==> exclude_covers(*self, rn as int, p));
            }
        }
        // one pass over the peers
        let mut i: usize = 0;
        let pn: usize = self.peer_list.len();
        while i < pn
            invariant
                swarm_wf(*self),
                swarm_wf(og),
                now >= i64::MIN + 120,
                pn == self.peer_list@.len(),
                i <= pn,
                plen == self.piece_length,
                plen == og.piece_length,
                self.gpc == og.gpc,
                self.owned == og.owned,
                self.owned_pieces == og.owned_pieces,
                self.request_map == og.request_map,
                self.piece_length == og.piece_length,
                self.pieces_hash == og.pieces_hash,
                self.peer_list@.len() == og.peer_list@.len(),
                forall|k: int|
                    0 <= k < og.peer_list@.len() ==> (#[trigger] self.peer_list@[k]).peer
                        == og.peer_list@[k].peer && self.peer_list@[k].peer_id
                        == og.peer_list@[k].peer_id,
                forall|ii: int|
                    0 <= ii < og.spec_peers().len()
                        ==> (#[trigger] self.spec_peers()[ii]).last_send == (if ii < i
                        && quiet_peer(og, ii, now) {
                        now
                    } else {
                        og.spec_peers()[ii].last_send
                    }),
                self.requests@ == og.requests@ + appended_requests(appended, now),
                forall|k: int|
                    0 <= k < self.requests@.len() ==> ((#[trigger] self.requests@[k]).1 == now
                        || og.requests@.contains(self.requests@[k])),
                forall|k: int| 0 <= k < appended.len() ==> 0 <= (#[trigger] appended[k]).0 < i,
                forall|k1: int, k2: int|
                    0 <= k1 < k2 < appended.len() ==> (#[trigger] appended[k1]).0 < (
                    #[trigger] appended[k2]).0,
                forall|ii: int| 0 <= ii < i ==> issue_ok(og, appended, ii),
                exclude_inv(*self, exclude@),
                forall|p: Position|
                    #[trigger] covers(exclude@, p) <==> tick_excluded_all(og, appended, p),
                forall|s: int| 0 <= s < sends@.len() ==> (#[trigger] sends@[s]).0 < i,
                forall|s: int|
                    0 <= s < sends@.len() ==> match (#[trigger] sends@[s]).1 {
                        Message::KeepAlive => quiet_peer(og, sends@[s].0 as int, now),
                        Message::Request { index, begin, length } => exists|k: int|
                            0 <= k < appended.len() && (#[trigger] appended[k]).0 == sends@[s].0
                                && request_send_matches(
                                sends@[s].1,
                                appended[k].1,
                                og.spec_piece_length(),
                            ),
                        _ => false,
                    },
                forall|ii: int|
                    0 <= ii < i && quiet_peer(og, ii, now) ==> exists|s: int|
                        0 <= s < sends@.len() && (#[trigger] sends@[s]).0 == ii
                            && sends@[s].1 is KeepAlive,
                sends_cover_issues(og, sends@, appended),
                forall|s1: int, s2: int|
                    0 <= s1 < sends@.len() && 0 <= s2 < sends@.len() && (
                    #[trigger] sends@[s1]).1 is KeepAlive && (#[trigger] sends@[s2]).1 is KeepAlive
                        && sends@[s1].0 == sends@[s2].0 ==> s1 == s2,
                forall|s1: int, s2: int|
                    0 <= s1 < sends@.len() && 0 <= s2 < sends@.len() && (
                    #[trigger] sends@[s1]).1 is Request && (#[trigger] sends@[s2]).1 is Request
                        && sends@[s1].0 == sends@[s2].0 ==> s1 == s2,
            decreases pn - i,
        {
            let ghost appended0 = appended;
            let ghost sends0 = sends@;
            proof {
                assert(self.spec_peers()[i as int].last_send == og.spec_peers()[i as int].last_send);
            }
            let quiet: bool = self.peer_list[i].last_send < now - 120;
            if quiet {
                sends.push((i, Message::KeepAlive));
                let ghost g_before = *self;
                let entry = vstd::std_specs::vec::vec_index_mut(&mut self.peer_list, i);
                entry.last_send = now;
                proof {
                    lemma_swarm_wf_update_peer(g_before, *self, i as int);
                }
            }
            let ghost sends_ka = sends@;
            proof {
                assert(forall|s: int| 0 <= s < sends0.len() ==> #[trigger] sends_ka[s] == sends0[s]);
                assert forall|s: int|
                    sends0.len() <= s < sends_ka.len() implies (#[trigger] sends_ka[s]) == (
                i,
                Message::KeepAlive,
                ) && quiet_peer(og, i as int, now) by {
                    assert(quiet);
                }
            }
            if self.requests.len() < WANT_LIMIT {
                proof {
                    assert(state_wf(self.spec_peers()[i as int].peer.state));
                    assert(self.spec_peers()[i as int] == self.peer_list@[i as int]);
                    crate::chunk::lemma_canonical_is_wf_sorted(
                        self.peer_list@[i as int].peer.state.pieces@,
                    );
                }
                let candidate = Piece::complement(
                    self.peer_list[i].peer.state.pieces.as_slice(),
                    exclude.as_slice(),
                );
                if candidate.len() > 0 {
                    proof {
                        candidate_head_shape(
                            *self,
                            self.peer_list@[i as int].peer.state.pieces@,
                            exclude@,
                            candidate@,
                            i as int,
                        );
                        assert(candidate@[0].end.index * plen + candidate@[0].end.offset <= (
                        self.total_pieces() + 8) * plen) by (nonlinear_arith)
                            requires
                                candidate@[0].end.index <= self.total_pieces() + 7,
                                0 <= candidate@[0].end.offset < plen,
                                plen > 0,
                                candidate@[0].end.index >= 0,
                        ;
                    }
                    let req: Piece = slice_piece(candidate.as_slice(), &plen, &BLOCK_LENGTH);
                    let ghost g_before = *self;
                    let ghost excl_before = exclude@;
                    proof {
                        new_request_ok(*self, exclude@, candidate@, req, i as int);
                        lemma_count_all_below(appended0, i as int);
                        assert(og.requests@.len() + count_issued_before(appended0, i as int)
                            < WANT_LIMIT);
                    }
                    self.requests.push((req, now));
                    proof {
                        request_push_wf(g_before, *self, exclude@, candidate@, req, now);
                        appended = appended0.push((i as int, req));
                        lemma_count_push_ge(appended0, (i as int, req), i as int);
                        assert(appended_requests(appended, now) =~= appended_requests(
                            appended0,
                            now,
                        ).push((req, now)));
                        assert(self.requests@ =~= og.requests@ + appended_requests(appended, now));
                        // the issue is the right decision for this peer
                        assert forall|p: Position|
                            #[trigger] covers(candidate@, p) <==> peer_wants(
                            og,
                            appended,
                            i as int,
                            p,
                        ) by {
                            lemma_tick_excluded_push(og, appended0, (i as int, req), i as int, p);
                            assert(covers(excl_before, p) <==> tick_excluded_all(og, appended0, p));
                            assert(self.peer_list@[i as int].peer == og.peer_list@[i as int].peer);
                        }
                        assert(head_block_of(og, appended, i as int, req)) by {
                            assert(canonical(candidate@));
                            assert(og.spec_piece_length() == plen as int);
                        }
                        assert(peer_has_issue(appended, i as int)) by {
                            assert(appended[appended.len() - 1].0 == i as int);
                        }
                        assert(exists|p: Position| peer_wants(og, appended, i as int, p)) by {
                            assert(valid_range(candidate@[0]));
                            assert(in_range(candidate@[0], candidate@[0].start));
                            assert(covers(candidate@, candidate@[0].start));
                            assert(peer_wants(og, appended, i as int, candidate@[0].start));
                        }
                        assert forall|k: int|
                            0 <= k < appended.len() && (#[trigger] appended[k]).0
                                == i as int implies head_block_of(
                            og,
                            appended,
                            i as int,
                            appended[k].1,
                        ) by {
                            if k < appended0.len() {
                                assert(appended[k] == appended0[k]);
                                assert(appended0[k].0 < i as int);
                                assert(false);
                            } else {
                                assert(appended[k] == (i as int, req));
                            }
                        }
                        assert(issue_ok(og, appended, i as int));
                        assert forall|ii: int| 0 <= ii < i implies issue_ok(og, appended, ii) by {
                            lemma_issue_ok_push(og, appended0, (i as int, req), ii);
                        }
                    }
                    match Piece::add_to_boundary_vec(&mut exclude, req) {
                        Ok(_at) => {
                            proof {
                                assert forall|p: Position|
                                    #[trigger] covers(exclude@, p) <==> tick_excluded_all(
                                    og,
                                    appended,
                                    p,
                                ) by {
                                    lemma_covers_insert(excl_before, req, _at as int, p);
                                    assert(covers(excl_before, p) <==> tick_excluded_all(
                                        og,
                                        appended0,
                                        p,
                                    ));
                                    if in_range(req, p) {
                                        assert((#[trigger] appended[appended.len() - 1]).1 == req);
                                        assert(tick_excluded_all(og, appended, p));
                                    }
                                    if tick_excluded_all(og, appended0, p) {
                                        if exists|kk: int|
                                            0 <= kk < appended0.len() && in_range(
                                                (#[trigger] appended0[kk]).1,
                                                p,
                                            ) {
                                            let kk = choose|kk: int|
                                                0 <= kk < appended0.len() && in_range(
                                                    (#[trigger] appended0[kk]).1,
                                                    p,
                                                );
                                            assert(appended[kk] == appended0[kk]);
                                            assert(tick_excluded_all(og, appended, p));
                                        } else {
                                            assert(tick_excluded_all(og, appended, p));
                                        }
                                    }
                                    if tick_excluded_all(og, appended, p) && !tick_excluded_all(
                                        og,
                                        appended0,
                                        p,
                                    ) {
                                        let k = choose|k: int|
                                            0 <= k < appended.len() && in_range(
                                                (#[trigger] appended[k]).1,
                                                p,
                                            );
                                        if k < appended0.len() {
                                            assert(appended[k] == appended0[k]);
                                            assert(tick_excluded_all(og, appended0, p));
                                            assert(false);
                                        } else {
                                            assert(in_range(req, p));
                                            assert(covers(exclude@, p));
                                        }
                                    }
                                }
                                assert forall|p: Position|
                                    exclude_covers(
                                        *self,
                                        self.requests@.len() as int,
                                        p,
                                    ) implies #[trigger] covers(exclude@, p) by {
                                    if covers(self.owned_pieces@, p) {
                                        assert(tick_excluded_all(og, appended, p));
                                    } else {
                                        let w = choose|w: int|
                                            0 <= w < self.requests@.len() && in_range(
                                                (#[trigger] self.requests@[w]).0,
                                                p,
                                            );
                                        if w < og.requests@.len() {
                                            assert(self.requests@[w] == og.requests@[w]);
                                            assert(tick_excluded_all(og, appended, p));
                                        } else {
                                            let k = w - og.requests@.len();
                                            assert(self.requests@[w] == appended_requests(
                                                appended,
                                                now,
                                            )[k]);
                                            assert(appended_requests(appended, now)[k] == (
                                            (#[trigger] appended[k]).1, now));
                                            assert(in_range(appended[k].1, p));
                                            assert(tick_excluded_all(og, appended, p));
                                        }
                                    }
                                }
                                assert forall|k: int|
                                    0 <= k < exclude@.len() implies range_in_torrent(
                                    #[trigger] exclude@[k],
                                    *self,
                                ) by {
                                    assert(exclude@ == excl_before.insert(_at as int, req));
                                    if k < _at {
                                        assert(exclude@[k] == excl_before[k]);
                                        assert(range_in_torrent(excl_before[k], g_before));
                                    } else if k == _at {
                                        assert(exclude@[k] == req);
                                    } else {
                                        assert(exclude@[k] == excl_before[k - 1]);
                                        assert(range_in_torrent(excl_before[k - 1], g_before));
                                    }
                                }
                            }
                        },
                        Err(_) => {
                            proof {
                                assert(false);
                            }
                        },
                    }
                    proof {
                        lemma_abs_order(req.start, req.end, plen as int);
                        assert(req.end.index * plen + req.end.offset <= (self.total_pieces() + 8)
                            * plen) by (nonlinear_arith)
                            requires
                                req.end.index <= self.total_pieces() + 7,
                                0 <= req.end.offset < plen,
                                plen > 0,
                                req.end.index >= 0,
                        ;
                    }
                    let length_bytes: usize = req.num_bytes(&plen);
                    let message = Message::Request {
                        index: req.start.index as u32,
                        begin: req.start.offset as u32,
                        length: length_bytes as u32,
                    };
                    sends.push((i, message));
                    proof {
                        assert(request_send_matches(message, req, og.spec_piece_length())) by {
                            assert(req.start.index <= self.total_pieces() + 7);
                            assert(req.start.offset < plen);
                        }
                        assert(sends@[sends@.len() - 1] == (i, message));
                        assert((#[trigger] appended[appended.len() - 1]) == (i as int, req));
                    }
                } else {
                    proof {
                        assert(appended == appended0);
                        assert(sends@ == sends_ka);
                        // this peer wants nothing: the complement is empty
                        lemma_count_all_below(appended, i as int);
                        assert forall|p: Position| !peer_wants(og, appended, i as int, p) by {
                            if peer_wants(og, appended, i as int, p) {
                                lemma_tick_excluded_below(og, appended, i as int, p);
                                assert(!covers(exclude@, p));
                                assert(self.peer_list@[i as int].peer
                                    == og.peer_list@[i as int].peer);
                                assert(covers(candidate@, p));
                                let w = covers_witness(candidate@, p);
                                assert(false);
                            }
                        }
                        assert(!peer_has_issue(appended, i as int)) by {
                            if peer_has_issue(appended, i as int) {
                                let k = choose|k: int|
                                    0 <= k < appended.len() && (#[trigger] appended[k]).0
                                        == i as int;
                                assert(appended[k].0 < i as int);
                            }
                        }
                        assert(!(exists|p: Position| peer_wants(og, appended, i as int, p))) by {
                            if exists|p: Position| peer_wants(og, appended, i as int, p) {
                                let p = choose|p: Position| peer_wants(og, appended, i as int, p);
                                assert(!peer_wants(og, appended, i as int, p));
                            }
                        }
                        assert(issue_ok(og, appended, i as int));
                    }
                }
            } else {
                proof {
                    assert(appended == appended0);
                    assert(sends@ == sends_ka);
                    // at the cap: nothing is issued to this peer
                    lemma_count_all_below(appended, i as int);
                    assert(og.requests@.len() + count_issued_before(appended, i as int)
                        >= WANT_LIMIT);
                    assert(!peer_has_issue(appended, i as int)) by {
                        if peer_has_issue(appended, i as int) {
                            let k = choose|k: int|
                                0 <= k < appended.len() && (#[trigger] appended[k]).0 == i as int;
                            assert(appended[k].0 < i as int);
                        }
                    }
                    assert(issue_ok(og, appended, i as int));
                }
            }
            proof {
                let sends_ka2: Seq<(usize, Message)> = if quiet {
                    sends0.push((i, Message::KeepAlive))
                } else {
                    sends0
                };
                assert(sends_ka == sends_ka2);
                if appended != appended0 {
                    assert(appended == appended0.push(appended.last()));
                    assert(sends@ == sends_ka.push(sends@.last()));
                }
                sends_step_ok(og, now, i, quiet, sends0, sends@, appended0, appended);
            }
            i += 1;
        }
        let ghost mid = self.requests@;
        let ghost g_after_peers = *self;
        proof {
            assert(forall|ii: int|
                0 <= ii < og.spec_peers().len()
                    ==> (#[trigger] g_after_peers.spec_peers()[ii]).last_send == (if quiet_peer(
                    og,
                    ii,
                    now,
                ) {
                    now
                } else {
                    og.spec_peers()[ii].last_send
                }));
            // the trace is coherent: each issued range sits in the final
            // in-flight list, whose invariant gives shape and disjointness
            assert(mid == og.requests@ + appended_requests(appended, now));
            assert(appended_requests(appended, now).len() == appended.len());
            assert forall|k: int| 0 <= k < appended.len() implies range_in_torrent(
                (#[trigger] appended[k]).1,
                og,
            ) && (forall|w: int|
                0 <= w < og.requests@.len() ==> !ranges_overlap(
                    appended[k].1,
                    (#[trigger] og.requests@[w]).0,
                )) && (forall|m: int|
                0 <= m < og.owned_pieces@.len() ==> !ranges_overlap(
                    appended[k].1,
                    #[trigger] og.owned_pieces@[m],
                )) by {
                let idx = og.requests@.len() + k;
                assert(mid[idx] == appended_requests(appended, now)[k]);
                assert(mid[idx].0 == appended[k].1);
                assert(range_in_torrent(mid[idx].0, *self));
                assert forall|w: int|
                    0 <= w < og.requests@.len() implies !ranges_overlap(
                    appended[k].1,
                    (#[trigger] og.requests@[w]).0,
                ) by {
                    assert(mid[w] == og.requests@[w]);
                    assert(!ranges_overlap(mid[idx].0, mid[w].0));
                }
            }
            assert forall|k1: int, k2: int|
                0 <= k1 < appended.len() && 0 <= k2 < appended.len() && k1
                    != k2 implies !ranges_overlap(
                (#[trigger] appended[k1]).1,
                (#[trigger] appended[k2]).1,
            ) by {
                let idx1 = og.requests@.len() + k1;
                let idx2 = og.requests@.len() + k2;
                assert(mid[idx1].0 == appended[k1].1);
                assert(mid[idx2].0 == appended[k2].1);
                assert(!ranges_overlap(mid[idx1].0, mid[idx2].0));
            }
            assert(appended_wf(og, appended));
        }
        // at the cap, expire the oldest stale requests, up to half the cap
        if self.requests.len() >= WANT_LIMIT {
            let ghost g_mid = *self;
            proof {
                assert(g_mid == g_after_peers);
            }
            let mut num_to_expire: usize = WANT_LIMIT / EXPIRE_FACTOR;
            let mut idx: usize = 0;
            proof {
                assert(self.requests@.take(0) =~= Seq::<(Piece, i64)>::empty());
                assert(self.requests@.skip(0) =~= self.requests@);
                assert(expire_from(g_mid.requests@, now, WANT_LIMIT as int / EXPIRE_FACTOR as int)
                    == self.requests@.take(0) + expire_from(
                    self.requests@.skip(0),
                    now,
                    num_to_expire as int,
                )) by {
                    assert(self.requests@.take(0) + expire_from(
                        self.requests@.skip(0),
                        now,
                        num_to_expire as int,
                    ) =~= expire_from(g_mid.requests@, now, num_to_expire as int));
                }
            }
            while idx < self.requests.len()
                invariant
                    swarm_wf(*self),
                    now >= i64::MIN + 120,
                    idx <= self.requests@.len(),
                    self.gpc == g_mid.gpc,
                    self.owned == g_mid.owned,
                    self.owned_pieces == g_mid.owned_pieces,
                    self.request_map == g_mid.request_map,
                    self.piece_length == g_mid.piece_length,
                    self.pieces_hash == g_mid.pieces_hash,
                    self.peer_list == g_mid.peer_list,
                    forall|k: int|
                        0 <= k < self.requests@.len() ==> g_mid.requests@.contains(
                            #[trigger] self.requests@[k],
                        ),
                    expire_from(g_mid.requests@, now, WANT_LIMIT as int / EXPIRE_FACTOR as int)
                        == self.requests@.take(idx as int) + expire_from(
                        self.requests@.skip(idx as int),
                        now,
                        num_to_expire as int,
                    ),
                decreases self.requests@.len() - idx,
            {
                let stale: bool = {
                    let (_rng, t) = self.requests[idx];
                    t < now - 18
                };
                if stale && num_to_expire > 0 {
                    let ghost g_prev = *self;
                    let ghost ii = idx as int;
                    let _dropped = self_remove_request(self, idx);
                    num_to_expire -= 1;
                    proof {
                        lemma_swarm_wf_remove_request(g_prev, *self, ii);
                        assert forall|k: int|
                            0 <= k < self.requests@.len() implies g_mid.requests@.contains(
                            #[trigger] self.requests@[k],
                        ) by {
                            if k < ii {
                                assert(self.requests@[k] == g_prev.requests@[k]);
                            } else {
                                assert(self.requests@[k] == g_prev.requests@[k + 1]);
                            }
                        }
                        assert(self.requests@.take(ii) =~= g_prev.requests@.take(ii));
                        assert(self.requests@.skip(ii) =~= g_prev.requests@.skip(ii).drop_first());
                        assert(g_prev.requests@.skip(ii).first() == g_prev.requests@[ii]);
                        assert(expire_from(g_prev.requests@.skip(ii), now, num_to_expire as int + 1)
                            == expire_from(self.requests@.skip(ii), now, num_to_expire as int));
                    }
                } else {
                    let ghost g_prev = *self;
                    let ghost ii = idx as int;
                    idx += 1;
                    proof {
                        assert(g_prev.requests@.skip(ii).first() == g_prev.requests@[ii]);
                        assert(expire_from(g_prev.requests@.skip(ii), now, num_to_expire as int)
                            == seq![g_prev.requests@[ii]] + expire_from(
                            g_prev.requests@.skip(ii).drop_first(),
                            now,
                            num_to_expire as int,
                        ));
                        assert(g_prev.requests@.skip(ii).drop_first() =~= g_prev.requests@.skip(
                            ii + 1,
                        ));
                        assert(self.requests@.take(ii + 1) =~= self.requests@.take(ii) + seq![
                            self.requests@[ii],
                        ]);
                        assert(self.requests@.take(ii) + expire_from(
                            self.requests@.skip(ii),
                            now,
                            num_to_expire as int,
                        ) =~= self.requests@.take(ii + 1) + expire_from(
                            self.requests@.skip(ii + 1),
                            now,
                            num_to_expire as int,
                        ));
                    }
                }
            }
            proof {
                assert(self.requests@.skip(self.requests@.len() as int)
                    =~= Seq::<(Piece, i64)>::empty());
                assert(self.requests@.take(self.requests@.len() as int) =~= self.requests@);
                assert(self.requests@ =~= expire_from(
                    mid,
                    now,
                    WANT_LIMIT as int / EXPIRE_FACTOR as int,
                ));
            }
        }
        proof {
            assert(self.peer_list == g_after_peers.peer_list);
            assert forall|ii: int|
                0 <= ii < og.spec_peers().len() implies (
            #[trigger] self.spec_peers()[ii]).last_send == (if quiet_peer(og, ii, now) {
                now
            } else {
                og.spec_peers()[ii].last_send
            }) by {
                assert(self.spec_peers()[ii] == g_after_peers.spec_peers()[ii]);
            }
            assert(tick_post(og, *self, sends@, appended, now));
        }
        sends
    }
}

/// The head of the complement of a peer's ranges and the exclusion cursor
/// is shaped for this torrent.
#[verifier::spinoff_prover]
proof fn candidate_head_shape(
    g: GlobalState,
    pieces: Seq<Piece>,
    exclude: Seq<Piece>,
    cand: Seq<Piece>,
    i: int,
)
    requires
        swarm_wf(g),
        0 <= i < g.spec_peers().len(),
        pieces == g.spec_peers()[i].peer.state.pieces@,
        exclude_inv(g, exclude),
        crate::chunk::comp_post(pieces, exclude, cand),
        cand.len() > 0,
    ensures
        valid_range(cand[0]),
        cand[0].start.offset < g.spec_piece_length(),
        cand[0].end.offset < g.spec_piece_length(),
        cand[0].end.index <= g.total_pieces() + 7,
{
    assert(state_wf(g.spec_peers()[i].peer.state));
    assert(is_low_boundary(cand[0].start, pieces, exclude) && is_high_boundary(
        cand[0].end,
        pieces,
        exclude,
    ));
    if exists|i1: int| 0 <= i1 < pieces.len() && #[trigger] pieces[i1].start == cand[0].start {
        let i1 = choose|i1: int|
            0 <= i1 < pieces.len() && #[trigger] pieces[i1].start == cand[0].start;
        assert(pieces[i1].start.offset == 0);
    } else {
        let j1 = choose|j1: int|
            0 <= j1 < exclude.len() && #[trigger] exclude[j1].end == cand[0].start;
        assert(range_in_torrent(exclude[j1], g));
    }
    if exists|i2: int| 0 <= i2 < pieces.len() && #[trigger] pieces[i2].end == cand[0].end {
        let i2 = choose|i2: int|
            0 <= i2 < pieces.len() && #[trigger] pieces[i2].end == cand[0].end;
        assert(pieces[i2].end.offset == 0);
        assert(pieces[i2].end.index <= g.total_pieces() + 7);
    } else {
        let j2 = choose|j2: int|
            0 <= j2 < exclude.len() && #[trigger] exclude[j2].start == cand[0].end;
        assert(range_in_torrent(exclude[j2], g));
        assert(exclude[j2].start.index <= exclude[j2].end.index);
    }
}

/// A freshly sliced request meets nothing: not the exclusion cursor, not
/// the owned ranges, not any in-flight range.
#[verifier::spinoff_prover]
proof fn new_request_ok(g: GlobalState, exclude: Seq<Piece>, cand: Seq<Piece>, req: Piece, i: int)
    requires
        swarm_wf(g),
        0 <= i < g.spec_peers().len(),
        exclude_inv(g, exclude),
        crate::chunk::comp_post(g.spec_peers()[i].peer.state.pieces@, exclude, cand),
        cand.len() > 0,
        valid_range(req),
        req.start == cand[0].start,
        pos_le(req.end, cand[0].end),
    ensures
        forall|k: int| 0 <= k < exclude.len() ==> !ranges_overlap(req, #[trigger] exclude[k]),
        forall|m: int|
            0 <= m < g.owned_pieces@.len() ==> !ranges_overlap(req, #[trigger] g.owned_pieces@[m]),
        forall|w: int|
            0 <= w < g.requests@.len() ==> !ranges_overlap(req, (#[trigger] g.requests@[w]).0),
{
    assert forall|p: Position| in_range(req, p) implies covers(cand, p) && !covers(
        exclude,
        p,
    ) by {
        assert(in_range(cand[0], p));
        assert(covers(cand, p));
    }
    assert forall|k: int| 0 <= k < exclude.len() implies !ranges_overlap(
        req,
        #[trigger] exclude[k],
    ) by {
        if ranges_overlap(req, exclude[k]) {
            assert(valid_range(exclude[k]));
            let p = lemma_overlap_witness(req, exclude[k]);
            assert(covers(exclude, p)) by {
                assert(in_range(exclude[k], p));
            }
        }
    }
    assert forall|m: int| 0 <= m < g.owned_pieces@.len() implies !ranges_overlap(
        req,
        #[trigger] g.owned_pieces@[m],
    ) by {
        if ranges_overlap(req, g.owned_pieces@[m]) {
            assert(valid_range(g.owned_pieces@[m]));
            let p = lemma_overlap_witness(req, g.owned_pieces@[m]);
            assert(covers(g.owned_pieces@, p)) by {
                assert(in_range(g.owned_pieces@[m], p));
            }
            assert(exclude_covers(g, g.requests@.len() as int, p));
            assert(covers(exclude, p));
        }
    }
    assert forall|w: int| 0 <= w < g.requests@.len() implies !ranges_overlap(
        req,
        (#[trigger] g.requests@[w]).0,
    ) by {
        if ranges_overlap(req, g.requests@[w].0) {
            assert(range_in_torrent(g.requests@[w].0, g));
            let p = lemma_overlap_witness(req, g.requests@[w].0);
            assert(exclude_covers(g, g.requests@.len() as int, p)) by {
                assert(in_range(g.requests@[w].0, p));
            }
            assert(covers(exclude, p));
        }
    }
}

/// Pushing the new request keeps the swarm invariant.
#[verifier::spinoff_prover]
proof fn request_push_wf(
    og: GlobalState,
    ng: GlobalState,
    exclude: Seq<Piece>,
    cand: Seq<Piece>,
    req: Piece,
    now: i64,
)
    requires
        swarm_wf(og),
        ng.requests@ == og.requests@.push((req, now)),
        ng.owned_pieces == og.owned_pieces,
        ng.piece_length == og.piece_length,
        ng.pieces_hash == og.pieces_hash,
        ng.spec_peers() == og.spec_peers(),
        range_in_torrent(req, og),
        forall|m: int|
            0 <= m < og.owned_pieces@.len() ==> !ranges_overlap(req, #[trigger] og.owned_pieces@[m]),
        forall|w: int|
            0 <= w < og.requests@.len() ==> !ranges_overlap(req, (#[trigger] og.requests@[w]).0),
    ensures
        swarm_wf(ng),
{
    let n = og.requests@.len() as int;
    assert(forall|k: int|
        0 <= k < ng.requests@.len() ==> #[trigger] ng.requests@[k] == (if k < n {
            og.requests@[k]
        } else {
            (req, now)
        }));
    assert(ng.spec_piece_length() == og.spec_piece_length());
    assert(ng.total_pieces() == og.total_pieces());
    assert forall|k: int| 0 <= k < ng.requests@.len() implies range_in_torrent(
        (#[trigger] ng.requests@[k]).0,
        ng,
    ) by {
        if k < n {
            assert(range_in_torrent(og.requests@[k].0, og));
        }
    }
}


impl Spin for GlobalState {
    open spec fn tick_wf(&self) -> bool {
        swarm_wf(*self)
    }

    fn spin(&mut self) -> (sends: Vec<(usize, Message)>) {
        let ghost before = *self;
        shuffle_entries(&mut self.peer_list);
        proof {
            self.peer_list@.to_multiset_ensures();
            before.peer_list@.to_multiset_ensures();
            assert forall|e: int| 0 <= e < self.spec_peers().len() implies state_wf(
                (#[trigger] self.spec_peers()[e]).peer.state,
            ) && (forall|m: int|
                0 <= m < self.spec_peers()[e].peer.state.pieces@.len() ==> ((
                #[trigger] self.spec_peers()[e].peer.state.pieces@[m]).end.index
                    <= self.total_pieces() + 7)) by {
                let x = self.peer_list@[e as int];
                assert(self.peer_list@.contains(x));
                assert(self.peer_list@.to_multiset().count(x) > 0);
                assert(before.peer_list@.to_multiset().count(x) > 0);
                assert(before.peer_list@.contains(x));
                let w = choose|w: int|
                    0 <= w < before.peer_list@.len() && before.peer_list@[w] == x;
                assert(state_wf(before.spec_peers()[w].peer.state));
            }
        }
        let now: i64 = now_seconds();
        if now >= i64::MIN + 120 {
            self.spin_at(now)
        } else {
            // a clock this far before the epoch never occurs; change nothing
            Vec::new()
        }
    }
}


/// Sum of the first `n` availability counters (counters past the end of
/// the vector count zero).
pub open spec fn gpc_sum_upto(g: Seq<u16>, n: int) -> int
    decreases n,
{
    if n <= 0 {
        0
    } else {
        gpc_sum_upto(g, n - 1) + gpc_at(g, n - 1)
    }
}

/// Number of set bits among the first `n` bits of a packed bitfield.
pub open spec fn popcount_upto(bytes: Seq<u8>, n: int) -> int
    decreases n,
{
    if n <= 0 {
        0
    } else {
        popcount_upto(bytes, n - 1) + (if bitfield_bit(bytes, n - 1) {
            1int
        } else {
            0int
        })
    }
}

/// The counter relation a handled `Bitfield` leaves behind, summed up to
/// `n`, grows by the popcount of the bits below `n`.
proof fn lemma_bitfield_sum_step(old_gpc: Seq<u16>, new_gpc: Seq<u16>, b: Seq<u8>, n: int)
    requires
        new_gpc.len() == vstd::math::max(old_gpc.len() as int, 8 * b.len() as int),
        forall|k: int|
            0 <= k < new_gpc.len() ==> #[trigger] new_gpc[k] == (if 0 <= k < 8 * b.len()
                && bitfield_bit(b, k) {
                if gpc_at(old_gpc, k) + 1 > 65535 {
                    65535u16
                } else {
                    (gpc_at(old_gpc, k) + 1) as u16
                }
            } else {
                gpc_at(old_gpc, k)
            }),
        forall|k: int| 0 <= k < 8 * b.len() ==> gpc_at(old_gpc, k) < 65535,
        0 <= n,
    ensures
        gpc_sum_upto(new_gpc, n) == gpc_sum_upto(old_gpc, n) + popcount_upto(
            b,
            vstd::math::min(n, 8 * b.len() as int),
        ),
    decreases n,
{
    if n > 0 {
        lemma_bitfield_sum_step(old_gpc, new_gpc, b, n - 1);
        let k = n - 1;
        if k < 8 * b.len() {
            assert(gpc_at(new_gpc, k) == (if bitfield_bit(b, k) {
                (gpc_at(old_gpc, k) + 1) as u16
            } else {
                gpc_at(old_gpc, k)
            }));
        } else {
            if k < new_gpc.len() {
                assert(gpc_at(new_gpc, k) == gpc_at(old_gpc, k));
            } else {
                assert(gpc_at(new_gpc, k) == 0u16 && gpc_at(old_gpc, k) == 0u16);
            }
        }
    }
}

/// After a handler applies a `Bitfield` to a fresh peer, the total of the
/// availability counters rises by exactly the number of set bits in the
/// bitfield: one increment per advertised piece, nothing else.  The
/// hypotheses are the counter relation from the handler's contract,
/// together with headroom below the counters' ceiling.
pub proof fn lemma_bitfield_increments_sum(old_gpc: Seq<u16>, new_gpc: Seq<u16>, b: Seq<u8>)
    requires
        new_gpc.len() == vstd::math::max(old_gpc.len() as int, 8 * b.len() as int),
        forall|k: int|
            0 <= k < new_gpc.len() ==> #[trigger] new_gpc[k] == (if 0 <= k < 8 * b.len()
                && bitfield_bit(b, k) {
                if gpc_at(old_gpc, k) + 1 > 65535 {
                    65535u16
                } else {
                    (gpc_at(old_gpc, k) + 1) as u16
                }
            } else {
                gpc_at(old_gpc, k)
            }),
        forall|k: int| 0 <= k < 8 * b.len() ==> gpc_at(old_gpc, k) < 65535,
    ensures
        gpc_sum_upto(new_gpc, new_gpc.len() as int) == gpc_sum_upto(
            old_gpc,
            new_gpc.len() as int,
        ) + popcount_upto(b, 8 * b.len() as int),
{
    lemma_bitfield_sum_step(old_gpc, new_gpc, b, new_gpc.len() as int);
}

} // verus!
