use bittorrent::bt_messages::try_decode;
use bittorrent::bt_messages::Message;
use bittorrent::chunk::Piece;
use bittorrent::chunk::Position;

#[test]
fn test_have_message() {
    let a_message = Message::Have { piece_index: 400 };

    let a = a_message.to_byte_array();

    assert_eq!(a, vec![0, 0, 0, 5, 4, 0, 0, 1, 0x90]);
}

// Decoding the nine bytes of a `Have` yields the message and consumes all
// nine.
#[test]
fn test_have_round_trip() {
    let buf = vec![0u8, 0, 0, 5, 4, 0, 0, 1, 0x90];
    match try_decode(&buf) {
        Ok(Some((Message::Have { piece_index }, consumed))) => {
            assert_eq!(piece_index, 400);
            assert_eq!(consumed, 9);
        },
        other => panic!("unexpected decode outcome: {:?}", other),
    }
}

// The bitfield scenario: a three-byte frame decodes to the raw bitfield
// bytes, and those bytes decode to the first and last of sixteen pieces.
#[test]
fn test_bitfield_decode() {
    let buf = vec![0u8, 0, 0, 3, 5, 0x80, 0x01];
    match try_decode(&buf) {
        Ok(Some((Message::Bitfield(bytes), consumed))) => {
            assert_eq!(bytes, vec![0x80, 0x01]);
            assert_eq!(consumed, 7);
            let pieces = Piece::convert_bitfield_to_piece_vec(&bytes);
            assert_eq!(
                pieces,
                vec![
                    Piece::new(Position::new(0, 0), Position::new(1, 0)),
                    Piece::new(Position::new(15, 0), Position::new(16, 0))
                ]
            );
        },
        other => panic!("unexpected decode outcome: {:?}", other),
    }
}

// Every wire variant comes back intact from its own encoding.
#[test]
fn test_codec_round_trip_all_variants() {
    let cases: Vec<Message> = vec![
        Message::KeepAlive,
        Message::Choke,
        Message::Unchoke,
        Message::Interested,
        Message::NotInterested,
        Message::Have { piece_index: 7 },
        Message::Bitfield(vec![0xA5, 0x0F]),
        Message::Request { index: 1, begin: 16384, length: 16384 },
        Message::Piece { index: 2, begin: 32768, block: vec![9, 8, 7] },
        Message::Cancel { index: 3, begin: 0, length: 16384 },
        Message::Port(6881),
    ];
    for m in cases {
        let encoded = m.to_byte_array();
        let decoded = try_decode(&encoded);
        match (m, decoded) {
            (Message::KeepAlive, Ok(Some((Message::KeepAlive, n)))) => assert_eq!(n, 4),
            (Message::Choke, Ok(Some((Message::Choke, n)))) => assert_eq!(n, 5),
            (Message::Unchoke, Ok(Some((Message::Unchoke, n)))) => assert_eq!(n, 5),
            (Message::Interested, Ok(Some((Message::Interested, n)))) => assert_eq!(n, 5),
            (Message::NotInterested, Ok(Some((Message::NotInterested, n)))) => assert_eq!(n, 5),
            (
                Message::Have { piece_index },
                Ok(Some((Message::Have { piece_index: p2 }, n))),
            ) => {
                assert_eq!(piece_index, p2);
                assert_eq!(n, 9);
            },
            (Message::Bitfield(b), Ok(Some((Message::Bitfield(b2), n)))) => {
                assert_eq!(n, 4 + 1 + b.len());
                assert_eq!(b, b2);
            },
            (
                Message::Request { index, begin, length },
                Ok(Some((Message::Request { index: i2, begin: b2, length: l2 }, n))),
            ) => {
                assert_eq!((index, begin, length), (i2, b2, l2));
                assert_eq!(n, 17);
            },
            (
                Message::Piece { index, begin, block },
                Ok(Some((Message::Piece { index: i2, begin: b2, block: blk2 }, n))),
            ) => {
                assert_eq!((index, begin), (i2, b2));
                assert_eq!(block, blk2);
                assert_eq!(n, 4 + 9 + block.len());
            },
            (
                Message::Cancel { index, begin, length },
                Ok(Some((Message::Cancel { index: i2, begin: b2, length: l2 }, n))),
            ) => {
                assert_eq!((index, begin, length), (i2, b2, l2));
                assert_eq!(n, 17);
            },
            (Message::Port(p), Ok(Some((Message::Port(p2), n)))) => {
                assert_eq!(p, p2);
                assert_eq!(n, 7);
            },
            (m, d) => panic!("round trip failed for {:?}: {:?}", m, d),
        }
    }
}

// An unknown type id in a complete frame is a protocol error, not a wait
// for more bytes.
#[test]
fn test_unknown_id_is_error() {
    let buf = vec![0u8, 0, 0, 1, 42];
    assert!(try_decode(&buf).is_err());
}

// A `Have` whose declared length cannot hold its payload is a protocol
// error.
#[test]
fn test_short_have_is_error() {
    let buf = vec![0u8, 0, 0, 4, 4, 0, 0, 1, 0x90];
    assert!(try_decode(&buf).is_err());
}

// A frame whose declared length exceeds the bytes at hand asks for more.
#[test]
fn test_incomplete_frame_needs_more() {
    let buf = vec![0u8, 0, 0, 9, 4, 0, 0];
    match try_decode(&buf) {
        Ok(None) => {},
        other => panic!("expected a need-more outcome: {:?}", other),
    }
}
