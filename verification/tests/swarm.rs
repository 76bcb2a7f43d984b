use bittorrent::bt_messages::Message;
use bittorrent::chunk::Piece;
use bittorrent::default_handler::and_slice_vbr_len;
use bittorrent::default_handler::nand_slice_vbr_len;
use bittorrent::default_handler::slice_piece;
use bittorrent::default_handler::DefaultHandler;
use bittorrent::default_handler::GlobalState;
use bittorrent::metadata::FileMode;
use bittorrent::metadata::Metadata;
use bittorrent::metadata::SingleFileInfo;
use bittorrent::peer::Peer;

fn test_metadata(piece_length: i64, total_pieces: usize) -> Metadata {
    Metadata {
        announce: String::from("http://tracker.example/announce"),
        info_hash: [0x01; 20],
        name: String::from("sample"),
        piece_length,
        pieces: vec![0u8; 20 * total_pieces],
        mode_info: FileMode::SingleFile(
            SingleFileInfo { length: piece_length * total_pieces as i64, md5sum: None },
        ),
    }
}

#[test]
fn test_nand_slice() {
    let a = vec![0, 0];
    let b = vec![0, 1];
    let c = nand_slice_vbr_len(&a, &b);

    assert_eq!(c, vec![255, 254]);
}

// The shorter side of an `and` is padded with ones, of a `nand` with
// zeros.
#[test]
fn test_bitwise_padding() {
    assert_eq!(and_slice_vbr_len(&[0xF0], &[0xFF, 0x0F]), vec![0xF0, 0x0F]);
    assert_eq!(nand_slice_vbr_len(&[0x0F], &[0x30, 0x40]), vec![0xC0, 0xBF]);
}

// A block never crosses a piece boundary and never exceeds the range.
#[test]
fn test_slice_piece() {
    let pieces = vec![Piece::create((0, 0), (4, 0))];
    let block = slice_piece(&pieces, &32768, &16384);
    assert_eq!(block, Piece::create((0, 0), (0, 16384)));

    let tail = vec![Piece::create((1, 30000), (4, 0))];
    let capped = slice_piece(&tail, &32768, &16384);
    assert_eq!(capped, Piece::create((1, 30000), (2, 0)));

    let tiny = vec![Piece::create((2, 0), (2, 100))];
    let small = slice_piece(&tiny, &32768, &16384);
    assert_eq!(small, Piece::create((2, 0), (2, 100)));
}

// The scheduler scenario: one peer advertising four pieces, nothing owned
// or in flight; one tick issues exactly one block-sized request.
#[test]
fn test_tick_issues_one_block() {
    let metadata = test_metadata(32768, 4);
    let mut global = GlobalState::new(&metadata);
    let mut peer = Peer::new(String::from("peerA"));
    peer.state.set_pieces_from_bitfield(&[0xF0]);
    global.add_new_peer(peer, vec![1, 2, 3, 4]);

    let now: i64 = 2_000_000_000_000;
    let sends = global.spin_at(now);

    assert_eq!(global.requests.len(), 1);
    assert_eq!(global.requests[0].0, Piece::create((0, 0), (0, 16384)));
    assert_eq!(global.requests[0].1, now);

    let mut request_count = 0;
    for (peer_index, message) in &sends {
        match message {
            Message::Request { index, begin, length } => {
                assert_eq!(*peer_index, 0);
                assert_eq!((*index, *begin, *length), (0, 0, 16384));
                request_count += 1;
            },
            Message::KeepAlive => assert_eq!(*peer_index, 0),
            other => panic!("unexpected outbound message: {:?}", other),
        }
    }
    assert_eq!(request_count, 1);
}

// The expiry scenario: at the in-flight cap with every entry stale, one
// tick expires exactly half the cap.
#[test]
fn test_tick_expires_stale_requests() {
    let metadata = test_metadata(16384, 1500);
    let mut global = GlobalState::new(&metadata);
    for k in 0..1500usize {
        global.requests.push((Piece::create((k, 0), (k + 1, 0)), 980));
    }

    let now: i64 = 1000;
    let _sends = global.spin_at(now);

    assert_eq!(global.requests.len(), 750);
    // the oldest-scanned entries went first: the second half remains
    assert_eq!(global.requests[0].0, Piece::create((750, 0), (751, 0)));
    assert_eq!(global.requests[749].0, Piece::create((1499, 0), (1500, 0)));
}

// Choke and unchoke flip only the our-side choke flag.
#[test]
fn test_handler_choke_unchoke() {
    let metadata = test_metadata(16384, 4);
    let mut global = GlobalState::new(&metadata);
    global.add_new_peer(Peer::new(String::from("p")), vec![9]);

    assert!(DefaultHandler::apply_message(&Message::Unchoke, 0, &mut global).is_ok());
    assert!(!global.peer_list[0].peer.state.us_choked);
    assert!(DefaultHandler::apply_message(&Message::Choke, 0, &mut global).is_ok());
    assert!(global.peer_list[0].peer.state.us_choked);
}

// A first bitfield counts one advertisement per set bit and fills the
// peer's ranges; the increments total the popcount.
#[test]
fn test_handler_bitfield_counts() {
    let metadata = test_metadata(16384, 8);
    let mut global = GlobalState::new(&metadata);
    global.add_new_peer(Peer::new(String::from("p")), vec![9]);

    let r = DefaultHandler::apply_message(&Message::Bitfield(vec![0xA0]), 0, &mut global);
    assert!(r.is_ok());
    assert_eq!(global.gpc, vec![1, 0, 1, 0, 0, 0, 0, 0]);
    assert_eq!(
        global.peer_list[0].peer.state.pieces,
        vec![Piece::create((0, 0), (1, 0)), Piece::create((2, 0), (3, 0))]
    );
    let total: u32 = global.gpc.iter().map(|x| *x as u32).sum();
    assert_eq!(total, 2);
}

// A bitfield after any other message is a protocol error.
#[test]
fn test_handler_bitfield_after_message() {
    let metadata = test_metadata(16384, 8);
    let mut global = GlobalState::new(&metadata);
    global.add_new_peer(Peer::new(String::from("p")), vec![9]);

    assert!(DefaultHandler::apply_message(&Message::Choke, 0, &mut global).is_ok());
    let r = DefaultHandler::apply_message(&Message::Bitfield(vec![0xA0]), 0, &mut global);
    assert!(r.is_err());
}

// A bitfield with a set bit past the torrent's last piece is a protocol
// error.
#[test]
fn test_handler_bitfield_trailing_bit() {
    let metadata = test_metadata(16384, 4);
    let mut global = GlobalState::new(&metadata);
    global.add_new_peer(Peer::new(String::from("p")), vec![9]);

    let r = DefaultHandler::apply_message(&Message::Bitfield(vec![0xF1]), 0, &mut global);
    assert!(r.is_err());
}

// A `Have` for a piece the torrent does not contain is a protocol error;
// one in range joins the peer's ranges and its counter.
#[test]
fn test_handler_have() {
    let metadata = test_metadata(16384, 4);
    let mut global = GlobalState::new(&metadata);
    global.add_new_peer(Peer::new(String::from("p")), vec![9]);

    assert!(
        DefaultHandler::apply_message(&Message::Have { piece_index: 9 }, 0, &mut global).is_err()
    );
    assert!(
        DefaultHandler::apply_message(&Message::Have { piece_index: 2 }, 0, &mut global).is_ok()
    );
    assert_eq!(global.gpc, vec![0, 0, 1]);
    assert_eq!(global.peer_list[0].peer.state.pieces, vec![Piece::create((2, 0), (3, 0))]);
}

// A `Piece` reply removes exactly its in-flight entry and hands the block
// out; an unmatched one is discarded.
#[test]
fn test_handler_piece_reply() {
    let metadata = test_metadata(32768, 4);
    let mut global = GlobalState::new(&metadata);
    global.add_new_peer(Peer::new(String::from("p")), vec![9]);
    global.requests.push((Piece::create((1, 0), (1, 3)), 50));

    let message = Message::Piece { index: 1, begin: 0, block: vec![5, 6, 7] };
    match DefaultHandler::apply_message(&message, 0, &mut global) {
        Ok(Some(receipt)) => {
            assert_eq!(receipt.index, 1);
            assert_eq!(receipt.begin, 0);
            assert_eq!(receipt.block, vec![5, 6, 7]);
        },
        other => panic!("expected the block receipt: {:?}", other.is_ok()),
    }
    assert_eq!(global.requests.len(), 0);

    let unmatched = Message::Piece { index: 3, begin: 0, block: vec![1] };
    match DefaultHandler::apply_message(&unmatched, 0, &mut global) {
        Ok(None) => {},
        _ => panic!("an unmatched block is discarded"),
    }
}

// A verified piece joins the owned ranges, clears in-flight requests for
// its bytes, and yields the `Have` to broadcast.
#[test]
fn test_piece_verified() {
    let metadata = test_metadata(32768, 4);
    let mut global = GlobalState::new(&metadata);
    global.requests.push((Piece::create((2, 0), (2, 16384)), 50));

    match global.piece_verified(2) {
        Some(Message::Have { piece_index }) => assert_eq!(piece_index, 2),
        other => panic!("expected a Have broadcast: {:?}", other),
    }
    assert_eq!(global.owned_pieces, vec![Piece::create((2, 0), (3, 0))]);
    assert_eq!(global.requests.len(), 0);
    assert!(global.piece_verified(9).is_none());
}

// The rarest unclaimed piece is the first one with the lowest counter.
#[test]
fn test_rarest() {
    let metadata = test_metadata(16384, 8);
    let mut global = GlobalState::new(&metadata);
    assert_eq!(global.rarest(), None);

    global.owned = vec![0x80];
    global.request_map = vec![0x40];
    global.gpc = vec![9, 9, 3, 5, 3, 9, 9, 9];
    // pieces 0 and 1 are claimed; the lowest counter among the rest is 3,
    // first reached at piece 2
    assert_eq!(global.rarest(), Some(2));
}

#[test]
fn test_get_total_length() {
    let metadata = test_metadata(16384, 4);
    assert_eq!(metadata.get_total_length(), 65536);
}

// The per-peer variant only considers pieces the peer advertises.
#[test]
fn test_rarest_wrt_peer() {
    let metadata = test_metadata(16384, 8);
    let mut global = GlobalState::new(&metadata);
    global.owned = vec![0x80];
    global.request_map = vec![0x00];
    global.gpc = vec![9, 9, 3, 5, 3, 9, 9, 9];
    // the peer only has pieces 3 and 4; the rarest of those is piece 4
    assert_eq!(global.rarest_wrt_peer(&vec![0x18]), Some(4));
}
