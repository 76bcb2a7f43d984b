use bittorrent::buffered_reader::BufferedReader;
use bittorrent::bt_messages::Message;
use bittorrent::peer::decode_handshake;
use bittorrent::peer::gen_rand_peer_id;
use bittorrent::peer::to_handshake;
use bittorrent::peer::State;
use bittorrent::tracker::parse_compact_peers;
use bittorrent::tracker::PEER_ID_PREFIX;

#[test]
fn test_set_have_singleton_bitfield() {
    let mut state = State::new();

    state.set_bitfield(vec![0]);
    state.set_have(2);

    assert_eq!(state.bitfield[0], 32);
}

#[test]
fn test_set_have_longer_bitfield() {
    let mut state = State::new();

    state.set_bitfield(vec![0, 0, 0, 0]);
    state.set_have(23);

    assert_eq!(state.bitfield[0], 0);
    assert_eq!(state.bitfield[1], 0);
    assert_eq!(state.bitfield[2], 1);
    assert_eq!(state.bitfield[3], 0);
}

#[test]
fn test_set_have_out_of_bounds() {
    let mut state = State::new();

    state.set_bitfield(vec![0, 1]);
    state.set_have(31);

    assert_eq!(state.bitfield[0], 0);
    assert_eq!(state.bitfield[1], 1);
    assert_eq!(state.bitfield[2], 0);
    assert_eq!(state.bitfield[3], 1);
}

// The handshake scenario: length byte, protocol string, eight reserved
// zeros, the info hash, and the peer id, sixty-eight bytes in all.
#[test]
fn test_handshake_encode() {
    let info_hash = [0x01u8; 20];
    let peer_id = String::from("-TR1000-aaaaaaaaaaaa");
    let hs = to_handshake("BitTorrent protocol", &info_hash, &peer_id);

    assert_eq!(hs.len(), 68);
    assert_eq!(hs[0], 0x13);
    assert_eq!(&hs[1..20], b"BitTorrent protocol");
    assert_eq!(&hs[20..28], &[0u8; 8]);
    assert_eq!(&hs[28..48], &[0x01u8; 20]);
    assert_eq!(&hs[48..68], peer_id.as_bytes());
}

// Splitting a received handshake recovers the five parts and the carry.
#[test]
fn test_handshake_decode() {
    let info_hash = [0x02u8; 20];
    let peer_id = String::from("-TR1000-bbbbbbbbbbbb");
    let mut hs = to_handshake("BitTorrent protocol", &info_hash, &peer_id);
    hs.push(0xEE);
    let (protocol, reserved, hash, id, rest) = decode_handshake(&hs);
    assert_eq!(protocol, b"BitTorrent protocol");
    assert_eq!(reserved, &[0u8; 8]);
    assert_eq!(hash, &[0x02u8; 20]);
    assert_eq!(id, peer_id.as_bytes());
    assert_eq!(rest, &[0xEE]);
}

// A generated peer id is twenty bytes and keeps the client prefix.
#[test]
fn test_gen_rand_peer_id() {
    let id = gen_rand_peer_id(PEER_ID_PREFIX);
    assert_eq!(id.len(), 20);
    assert!(id.starts_with(PEER_ID_PREFIX));
}

// Six bytes per peer: four address octets, then the port big-endian.
#[test]
fn test_parse_compact_peers() {
    let raw = vec![127, 0, 0, 1, 0x1A, 0xE1, 10, 0, 0, 2, 0, 80, 9, 9];
    let peers = parse_compact_peers(&raw);
    assert_eq!(peers.len(), 2);
    assert_eq!(peers[0].octets, [127, 0, 0, 1]);
    assert_eq!(peers[0].port, 6881);
    assert_eq!(peers[1].octets, [10, 0, 0, 2]);
    assert_eq!(peers[1].port, 80);
}

// The framed reader hands out one message per complete frame and carries
// partial frames to the next feed.
#[test]
fn test_buffered_reader_framing() {
    let mut reader: BufferedReader<()> = BufferedReader::new((), Vec::new());

    // a Have frame split across two reads, followed by a keep-alive
    reader.feed(&[0, 0, 0, 5, 4, 0]);
    match reader.next_message() {
        Ok(None) => {},
        other => panic!("expected to wait for more bytes: {:?}", other),
    }
    reader.feed(&[0, 1, 0x90, 0, 0, 0, 0]);
    match reader.next_message() {
        Ok(Some(Message::Have { piece_index })) => assert_eq!(piece_index, 400),
        other => panic!("expected the Have: {:?}", other),
    }
    match reader.next_message() {
        Ok(Some(Message::KeepAlive)) => {},
        other => panic!("expected the keep-alive: {:?}", other),
    }
    match reader.next_message() {
        Ok(None) => {},
        other => panic!("expected an empty carry: {:?}", other),
    }
}

// A malformed frame surfaces as a protocol error from the reader.
#[test]
fn test_buffered_reader_protocol_error() {
    let mut reader: BufferedReader<()> = BufferedReader::new((), Vec::new());
    reader.feed(&[0, 0, 0, 1, 99]);
    assert!(reader.next_message().is_err());
}
