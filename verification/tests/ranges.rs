use bittorrent::chunk::Piece;
use bittorrent::chunk::Position;

#[test]
fn test_get_block_boundaries_1() {
    let piece_length = 300;
    let index = 0;
    let offset = 50;
    let bytes = 1000;
    let block = Piece::from(piece_length, index, offset, bytes);

    assert_eq!(block, Piece::new(Position::new(0, 50), Position::new(3, 150)));
}

#[test]
fn test_get_block_boundaries_2() {
    let piece_length = 5;
    let index = 0;
    let offset = 0;
    let bytes = 5;
    let block = Piece::from(piece_length, index, offset, bytes);

    assert_eq!(block, Piece::new(Position::new(0, 0), Position::new(1, 0)));
}

#[test]
fn test_get_block_boundaries_3() {
    let piece_length = 5;
    let index = 0;
    let offset = 0;
    let bytes = 6;
    let block = Piece::from(piece_length, index, offset, bytes);

    assert_eq!(block, Piece::new(Position::new(0, 0), Position::new(1, 1)));
}

#[test]
fn test_request_block() {
    let mut vec = vec![];
    let piece_length = 5;

    let a = {
        let index = 0;
        let offset = 0;
        let bytes = 5;

        let expect = Piece::new(Position::new(index, offset), Position::new(index + 1, 0));
        let block = Piece::from(piece_length, index, offset, bytes);
        let _ = Piece::add_to_boundary_vec(&mut vec, block);
        assert_eq!(vec[0], expect.clone());

        expect
    };

    let b = {
        let index = 5;
        let offset = 0;
        let bytes = 5;

        let expect = Piece::new(Position::new(index, offset), Position::new(index + 1, 0));
        let block = Piece::from(piece_length, index, offset, bytes);
        let _ = Piece::add_to_boundary_vec(&mut vec, block);
        assert_eq!(vec, vec![a.clone(), expect.clone()]);

        expect
    };

    let c = {
        let index = 3;
        let offset = 0;
        let bytes = 5;

        let expect = Piece::new(Position::new(index, offset), Position::new(index + 1, 0));
        let block = Piece::from(piece_length, index, offset, bytes);
        let _ = Piece::add_to_boundary_vec(&mut vec, block);
        assert_eq!(vec, vec![a.clone(), expect.clone(), b.clone()]);

        expect
    };

    let _d = {
        let index = 4;
        let offset = 0;
        let bytes = 5;

        let expect = Piece::new(Position::new(index, offset), Position::new(index + 1, 0));
        let block = Piece::from(piece_length, index, offset, bytes);
        let _ = Piece::add_to_boundary_vec(&mut vec, block);
        assert_eq!(vec, vec![a.clone(), c.clone(), expect.clone(), b.clone()]);

        expect
    };
}

#[test]
fn test_request_block_with_compaction() {
    let mut vec = vec![];
    let piece_length = 5;

    let _ = {
        let index = 0;
        let offset = 0;
        let bytes = 5;

        let block = Piece::from(piece_length, index, offset, bytes);
        Piece::add_to_boundary_vec(&mut vec, block)
    };

    let index = {
        let index = 1;
        let offset = 0;
        let bytes = 5;

        let block = Piece::from(piece_length, index, offset, bytes);
        Piece::add_to_boundary_vec(&mut vec, block)
    };

    Piece::compact_if_possible(&mut vec, index.unwrap());

    assert_eq!(vec, vec![Piece::new(Position::new(0, 0), Position::new(2, 0))]);
}

#[test]
pub fn test_convert_bitfield_to_piece_vec() {
    let p = Piece::convert_bitfield_to_piece_vec(&vec![1, 1]);
    assert_eq!(
        p,
        vec![
            Piece::new(Position::new(7, 0), Position::new(8, 0)),
            Piece::new(Position::new(15, 0), Position::new(16, 0))
        ]
    );

    let a = Piece::convert_bitfield_to_piece_vec(&vec![128]);
    assert_eq!(a, vec![Piece::new(Position::new(0, 0), Position::new(1, 0))]);
}

#[test]
pub fn test_trivial_complement() {
    let a = vec![Piece::new(Position::new(0, 0), Position::new(3, 0))];

    let b = vec![Piece::new(Position::new(0, 0), Position::new(1, 0))];

    let c = Piece::complement(&a, &b);

    assert_eq!(c, vec![Piece::new(Position::new(1, 0), Position::new(3, 0))]);
}

#[test]
pub fn test_complement_2() {
    let a = vec![Piece::create((1, 0), (5, 0))];
    let b = vec![Piece::create((3, 0), (10, 0))];
    let c = Piece::complement(&a, &b);
    assert_eq!(c, vec![Piece::create((1, 0), (3, 0))]);
}

// The range algebra on the scenario pair: complement and intersection of
// [0,3) against [0,1).
#[test]
fn test_complement_and_intersection_pair() {
    let a = vec![Piece::create((0, 0), (3, 0))];
    let b = vec![Piece::create((0, 0), (1, 0))];

    assert_eq!(Piece::complement(&a, &b), vec![Piece::create((1, 0), (3, 0))]);
    assert_eq!(Piece::intersection(&a, &b), vec![Piece::create((0, 0), (1, 0))]);
}

// Complementing and then intersecting with the subtrahend leaves nothing.
#[test]
fn test_complement_intersection_empty() {
    let a = vec![Piece::create((0, 0), (4, 0)), Piece::create((6, 0), (9, 0))];
    let b = vec![Piece::create((2, 0), (7, 0))];
    let c = Piece::complement(&a, &b);
    let r = Piece::intersection(&c, &b);
    assert_eq!(r, Vec::<Piece>::new());
}

// Intersection does not depend on argument order.
#[test]
fn test_intersection_commutes() {
    let a = vec![Piece::create((0, 0), (4, 0)), Piece::create((6, 0), (9, 0))];
    let b = vec![Piece::create((2, 0), (7, 0))];
    assert_eq!(Piece::intersection(&a, &b), Piece::intersection(&b, &a));
}

// A canonical whole-piece list survives the trip through its wire bitfield.
#[test]
fn test_bitfield_round_trip() {
    let list = vec![
        Piece::create((0, 0), (2, 0)),
        Piece::create((5, 0), (6, 0)),
        Piece::create((9, 0), (12, 0)),
    ];
    let bytes = Piece::to_bitfield(&list, 14);
    assert_eq!(bytes.len(), 2);
    let back = Piece::convert_bitfield_to_piece_vec(&bytes);
    assert_eq!(back, list);
}

// An empty bitfield decodes to no ranges at all.
#[test]
fn test_convert_empty_bitfield() {
    let p = Piece::convert_bitfield_to_piece_vec(&Vec::new());
    assert_eq!(p, Vec::<Piece>::new());
}

// Inserting a range that overlaps an existing one is refused and changes
// nothing.
#[test]
fn test_insert_overlap_refused() {
    let mut vec = vec![Piece::create((0, 0), (2, 0))];
    let r = Piece::add_to_boundary_vec(&mut vec, Piece::create((1, 0), (3, 0)));
    assert!(r.is_err());
    assert_eq!(vec, vec![Piece::create((0, 0), (2, 0))]);
}

#[test]
fn test_num_bytes() {
    let p = Piece::create((1, 100), (2, 50));
    assert_eq!(p.num_bytes(&1000), 950);
}
