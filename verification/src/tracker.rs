//! Tracker-side values: the peer id conventions and the compact peer list.
//!
//! The HTTP transport itself is not part of the engine; this module holds
//! what the engine defines about tracker data: the 6-bytes-per-peer compact
//! address encoding (four IPv4 octets, then a big-endian port).

use vstd::prelude::*;

use crate::bt_messages::be16_val;

verus! {

pub const PEER_ID_LENGTH: usize = 20;

pub const PEER_ID_PREFIX: &'static str = "-TR1000-";

/// A peer address from the compact tracker reply: four IPv4 octets and a
/// port.
#[derive(Debug, Clone, Copy, PartialEq, Eq)]
pub struct CompactPeer {
    pub octets: [u8; 4],
    pub port: u16,
}

/// Decode the compact `peers` value: each group of six bytes is one peer,
/// four address octets then a big-endian port; a trailing fragment shorter
/// than six bytes is ignored.
pub fn parse_compact_peers(peers: &[u8]) -> (r: Vec<CompactPeer>)
    ensures
        r@.len() == peers@.len() / 6,
        forall|k: int|
            0 <= k < r@.len() ==> {
                let b: int = 6 * k;
                &&& (#[trigger] r@[k]).octets@ == seq![
                    peers@[b],
                    peers@[b + 1],
                    peers@[b + 2],
                    peers@[b + 3],
                ]
                &&& r@[k].port == be16_val(peers@[b + 4], peers@[b + 5])
            },
{
    let plen: usize = peers.len();
    let n: usize = plen / 6;
    let mut r: Vec<CompactPeer> = Vec::new();
    let mut x: usize = 0;
    proof {
        assert(6 * (plen as int / 6) <= plen as int) by (nonlinear_arith);
    }
    while x < n
        invariant
            plen == peers@.len(),
            n == plen as int / 6,
            6 * n <= plen,
            x <= n,
            r@.len() == x,
            forall|k: int|
                0 <= k < x ==> {
                    let b: int = 6 * k;
                    &&& (#[trigger] r@[k]).octets@ == seq![
                        peers@[b],
                        peers@[b + 1],
                        peers@[b + 2],
                        peers@[b + 3],
                    ]
                    &&& r@[k].port == be16_val(peers@[b + 4], peers@[b + 5])
                },
        decreases n - x,
    {
        proof {
            assert(6 * x + 6 <= 6 * n) by (nonlinear_arith)
                requires
                    x < n,
            ;
        }
        let base: usize = 6 * x;
        let octets: [u8; 4] = [peers[base], peers[base + 1], peers[base + 2], peers[base + 3]];
        let port: u16 = (peers[base + 5] as u16) | ((peers[base + 4] as u16) << 8u16);
        let peer = CompactPeer { octets, port };
        r.push(peer);
        proof {
            assert(peer.octets@ =~= seq![
                peers@[6 * x],
                peers@[6 * x + 1],
                peers@[6 * x + 2],
                peers@[6 * x + 3],
            ]);
        }
        x += 1;
    }
    r
}

} // verus!
