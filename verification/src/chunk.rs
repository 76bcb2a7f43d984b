//! Byte-range algebra over torrent positions.
//!
//! A `Position` names a byte inside the torrent as a pair of piece index and
//! offset within the piece; positions are ordered lexicographically.  A
//! `Piece` is a half-open interval of positions, and sorted, disjoint,
//! compacted vectors of `Piece` (canonical range lists) are the currency of
//! all scheduling decisions: what is owned, what is in flight, and what a
//! peer advertises.

use vstd::prelude::*;

verus! {

/// A byte location: piece `index`, byte `offset` within that piece.
#[derive(PartialEq, Eq, Structural, Debug, Clone, Copy)]
pub struct Position {
    pub index: usize,
    pub offset: usize,
}

/// Strict lexicographic order on positions.
pub open spec fn pos_lt(p: Position, q: Position) -> bool {
    p.index < q.index || (p.index == q.index && p.offset < q.offset)
}

/// Non-strict lexicographic order on positions.
pub open spec fn pos_le(p: Position, q: Position) -> bool {
    p.index < q.index || (p.index == q.index && p.offset <= q.offset)
}

/// The absolute byte offset of `p` in a torrent whose pieces hold `plen`
/// bytes each.
pub open spec fn abs_pos(p: Position, plen: int) -> int {
    p.index * plen + p.offset
}

impl Position {
    pub fn new(index: usize, offset: usize) -> (r: Position)
        ensures
            r == (Position { index, offset }),
    {
        Position { index, offset }
    }

    /// Executable strict order; mirrors `pos_lt`.
    pub fn lt(&self, rhs: &Position) -> (r: bool)
        ensures
            r == pos_lt(*self, *rhs),
    {
        self.index < rhs.index || (self.index == rhs.index && self.offset < rhs.offset)
    }

    /// Executable non-strict order; mirrors `pos_le`.
    pub fn le(&self, rhs: &Position) -> (r: bool)
        ensures
            r == pos_le(*self, *rhs),
    {
        self.index < rhs.index || (self.index == rhs.index && self.offset <= rhs.offset)
    }
}

/// A half-open interval `[start, end)` of positions.
#[derive(PartialEq, Eq, Structural, Debug, Clone, Copy)]
pub struct Piece {
    pub start: Position,
    pub end: Position,
}

/// A range is non-empty.
pub open spec fn valid_range(r: Piece) -> bool {
    pos_lt(r.start, r.end)
}

/// `p` lies inside the half-open interval `r`.
pub open spec fn in_range(r: Piece, p: Position) -> bool {
    pos_le(r.start, p) && pos_lt(p, r.end)
}

/// Some range of `s` contains `p`.
pub open spec fn covers(s: Seq<Piece>, p: Position) -> bool {
    exists|i: int| 0 <= i < s.len() && in_range(#[trigger] s[i], p)
}

/// Two ranges share at least one position.
pub open spec fn ranges_overlap(r1: Piece, r2: Piece) -> bool {
    pos_lt(r1.start, r2.end) && pos_lt(r2.start, r1.end)
}

/// Sorted and disjoint, with adjacent ranges allowed to touch at a common
/// endpoint; every range non-empty.
pub open spec fn wf_sorted(s: Seq<Piece>) -> bool {
    &&& forall|i: int| 0 <= i < s.len() ==> valid_range(#[trigger] s[i])
    &&& forall|i: int, j: int|
        0 <= i < j < s.len() ==> pos_le(#[trigger] s[i].end, #[trigger] s[j].start)
}

/// Canonical form: sorted, disjoint, and compacted, so that no two adjacent
/// ranges touch at a common endpoint.
pub open spec fn canonical(s: Seq<Piece>) -> bool {
    &&& forall|i: int| 0 <= i < s.len() ==> valid_range(#[trigger] s[i])
    &&& forall|i: int, j: int|
        0 <= i < j < s.len() ==> pos_lt(#[trigger] s[i].end, #[trigger] s[j].start)
}

/// `p` is the start of some range of `a` or the end of some range of `b`.
pub open spec fn is_low_boundary(p: Position, a: Seq<Piece>, b: Seq<Piece>) -> bool {
    ||| exists|i: int| 0 <= i < a.len() && #[trigger] a[i].start == p
    ||| exists|j: int| 0 <= j < b.len() && #[trigger] b[j].end == p
}

/// `p` is the end of some range of `a` or the start of some range of `b`.
pub open spec fn is_high_boundary(p: Position, a: Seq<Piece>, b: Seq<Piece>) -> bool {
    ||| exists|i: int| 0 <= i < a.len() && #[trigger] a[i].end == p
    ||| exists|j: int| 0 <= j < b.len() && #[trigger] b[j].start == p
}

/// Every range of `r` begins at a low boundary of `(a, b)` and ends at a high
/// boundary; this records that a set operation invents no new cut points.
pub open spec fn endpoints_from(r: Seq<Piece>, a: Seq<Piece>, b: Seq<Piece>) -> bool {
    forall|k: int|
        0 <= k < r.len() ==> is_low_boundary(#[trigger] r[k].start, a, b) && is_high_boundary(
            r[k].end,
            a,
            b,
        )
}

pub proof fn lemma_canonical_is_wf_sorted(s: Seq<Piece>)
    requires
        canonical(s),
    ensures
        wf_sorted(s),
{
}

/// Fetch a witness index for a covered position.
pub proof fn covers_witness(s: Seq<Piece>, p: Position) -> (i: int)
    requires
        covers(s, p),
    ensures
        0 <= i < s.len() && in_range(s[i], p),
{
    choose|i: int| 0 <= i < s.len() && in_range(#[trigger] s[i], p)
}

/// In a sorted list every covered position sits between the first start and
/// the last end.
pub proof fn lemma_covers_bounds(s: Seq<Piece>, p: Position)
    requires
        wf_sorted(s),
        covers(s, p),
    ensures
        s.len() > 0,
        pos_le(s[0].start, p),
        pos_lt(p, s[s.len() - 1].end),
{
    let i = covers_witness(s, p);
    if i > 0 {
        assert(pos_le(s[0].end, s[i].start));
    }
    if i < s.len() - 1 {
        assert(pos_le(s[i].end, s[s.len() - 1].start));
    }
}

/// Appending a range to a sequence covers the union of both.
pub proof fn lemma_covers_push(s: Seq<Piece>, r: Piece, p: Position)
    ensures
        covers(s.push(r), p) <==> (covers(s, p) || in_range(r, p)),
{
    let t = s.push(r);
    if covers(t, p) {
        let i = covers_witness(t, p);
        if i < s.len() {
            assert(t[i] == s[i]);
            assert(covers(s, p));
        } else {
            assert(t[i] == r);
        }
    }
    if covers(s, p) {
        let i = covers_witness(s, p);
        assert(t[i] == s[i]);
        assert(covers(t, p));
    }
    if in_range(r, p) {
        assert(t[s.len() as int] == r);
        assert(covers(t, p));
    }
}

/// Two canonical lists covering the same positions are the same list.
pub proof fn lemma_canonical_unique(s1: Seq<Piece>, s2: Seq<Piece>)
    requires
        canonical(s1),
        canonical(s2),
        forall|p: Position| covers(s1, p) <==> covers(s2, p),
    ensures
        s1 == s2,
    decreases s1.len(),
{
    if s1.len() == 0 {
        if s2.len() > 0 {
            assert(in_range(s2[0], s2[0].start));
            assert(covers(s2, s2[0].start));
            let i = covers_witness(s1, s2[0].start);
            assert(false);
        }
        assert(s1 =~= s2);
    } else if s2.len() == 0 {
        assert(in_range(s1[0], s1[0].start));
        assert(covers(s1, s1[0].start));
        let i = covers_witness(s2, s1[0].start);
        assert(false);
    } else {
        let a = s1[0];
        let b = s2[0];
        // The first start of each list is its least covered position.
        assert(in_range(a, a.start));
        assert(covers(s1, a.start));
        let ia = covers_witness(s2, a.start);
        if ia > 0 {
            assert(pos_lt(s2[0].end, s2[ia].start));
        }
        assert(pos_le(b.start, a.start));
        assert(in_range(b, b.start));
        assert(covers(s2, b.start));
        let ib = covers_witness(s1, b.start);
        if ib > 0 {
            assert(pos_lt(s1[0].end, s1[ib].start));
        }
        assert(pos_le(a.start, b.start));
        assert(a.start == b.start);
        // The first ends agree: a shorter first range would leave its own end
        // uncovered while the other list covers it.
        if pos_lt(a.end, b.end) {
            assert(in_range(b, a.end));
            assert(covers(s2, a.end));
            let k = covers_witness(s1, a.end);
            if k > 0 {
                assert(pos_lt(s1[0].end, s1[k].start));
            }
            assert(false);
        }
        if pos_lt(b.end, a.end) {
            assert(in_range(a, b.end));
            assert(covers(s1, b.end));
            let k = covers_witness(s2, b.end);
            if k > 0 {
                assert(pos_lt(s2[0].end, s2[k].start));
            }
            assert(false);
        }
        assert(a.end == b.end);
        assert(a == b);
        let t1 = s1.skip(1);
        let t2 = s2.skip(1);
        assert forall|i: int| 0 <= i < t1.len() implies valid_range(#[trigger] t1[i]) by {
            assert(t1[i] == s1[i + 1]);
        }
        assert forall|i: int, j: int| 0 <= i < j < t1.len() implies pos_lt(
            #[trigger] t1[i].end,
            #[trigger] t1[j].start,
        ) by {
            assert(t1[i] == s1[i + 1]);
            assert(t1[j] == s1[j + 1]);
        }
        assert forall|i: int| 0 <= i < t2.len() implies valid_range(#[trigger] t2[i]) by {
            assert(t2[i] == s2[i + 1]);
        }
        assert forall|i: int, j: int| 0 <= i < j < t2.len() implies pos_lt(
            #[trigger] t2[i].end,
            #[trigger] t2[j].start,
        ) by {
            assert(t2[i] == s2[i + 1]);
            assert(t2[j] == s2[j + 1]);
        }
        assert forall|p: Position| covers(t1, p) <==> covers(t2, p) by {
            lemma_skip_covers(s1, p);
            lemma_skip_covers(s2, p);
            assert(s1[0] == s2[0]);
        }
        lemma_canonical_unique(t1, t2);
        assert(s1.len() == s2.len());
        assert forall|i: int| 0 <= i < s1.len() implies s1[i] == s2[i] by {
            if i > 0 {
                assert(t1[i - 1] == s1[i]);
                assert(t2[i - 1] == s2[i]);
            }
        }
        assert(s1 =~= s2);
    }
}

/// For a canonical list, dropping the first range removes exactly the
/// positions of that range from the covered set.
proof fn lemma_skip_covers(s: Seq<Piece>, p: Position)
    requires
        canonical(s),
        s.len() > 0,
    ensures
        covers(s.skip(1), p) <==> (covers(s, p) && !in_range(s[0], p)),
{
    let t = s.skip(1);
    assert(forall|i: int| 0 <= i < t.len() ==> #[trigger] t[i] == s[i + 1]);
    if covers(t, p) {
        let i = covers_witness(t, p);
        assert(t[i] == s[i + 1]);
        assert(covers(s, p));
        // p >= s[1].start > s[0].end, so p is not in s[0]
        assert(pos_lt(s[0].end, s[i + 1].start));
        assert(!in_range(s[0], p));
    }
    if covers(s, p) && !in_range(s[0], p) {
        let i = covers_witness(s, p);
        assert(i != 0);
        assert(t[i - 1] == s[i]);
        assert(covers(t, p));
    }
}

impl Piece {
    pub fn new(start: Position, end: Position) -> (r: Piece)
        ensures
            r == (Piece { start, end }),
    {
        Piece { start, end }
    }

    /// Convenience constructor taking bare tuples.
    pub fn create(start: (usize, usize), end: (usize, usize)) -> (r: Piece)
        ensures
            r == (Piece {
                start: Position { index: start.0, offset: start.1 },
                end: Position { index: end.0, offset: end.1 },
            }),
    {
        let (a, b) = start;
        let (c, d) = end;
        Self::new(Position::new(a, b), Position::new(c, d))
    }

    /// Number of bytes spanned by this range, when each piece holds
    /// `block_size` bytes.
    pub fn num_bytes(&self, block_size: &usize) -> (r: usize)
        requires
            self.end.index * *block_size + self.end.offset <= usize::MAX,
            abs_pos(self.start, *block_size as int) <= abs_pos(self.end, *block_size as int),
        ensures
            r == abs_pos(self.end, *block_size as int) - abs_pos(self.start, *block_size as int),
    {
        (self.end.index * *block_size + self.end.offset) - (self.start.index * *block_size
            + self.start.offset)
    }

    /// The range that begins at `(index, offset)` and spans `bytes` bytes, in
    /// canonical piece-boundary form (the end offset is always less than
    /// `piece_length`).
    pub fn from(piece_length: usize, index: usize, offset: usize, bytes: usize) -> (r: Piece)
        requires
            piece_length > 0,
            offset < piece_length,
            bytes > 0,
            index * piece_length + offset + bytes <= usize::MAX,
        ensures
            r.start == (Position { index, offset }),
            r.end.offset < piece_length,
            abs_pos(r.end, piece_length as int) == index * piece_length + offset + bytes,
            valid_range(r),
    {
        let bytes_to_fill = piece_length - offset;
        if bytes < bytes_to_fill {
            Piece {
                start: Position { index, offset },
                end: Position { index, offset: offset + bytes },
            }
        } else {
            let rem_bytes = bytes - bytes_to_fill;
            proof {
                vstd::arithmetic::div_mod::lemma_fundamental_div_mod(
                    rem_bytes as int,
                    piece_length as int,
                );
                vstd::arithmetic::div_mod::lemma_mod_bound(rem_bytes as int, piece_length as int);
            }
            let index_o = rem_bytes / piece_length;
            let overflow = rem_bytes % piece_length;
            proof {
                let p = piece_length as int;
                let q = index_o as int;
                let m = overflow as int;
                assert(rem_bytes as int == p * q + m);
                assert(q >= 0) by (nonlinear_arith)
                    requires
                        rem_bytes as int >= 0,
                        p > 0,
                        rem_bytes as int == p * q + m,
                        m < p,
                ;
                assert((index + 1 + q) * p == index * p + p + q * p) by (nonlinear_arith);
                assert(q * p == p * q) by (nonlinear_arith);
                assert((index + 1 + q) * p + m == index * p + offset + bytes);
                assert(index + 1 + q <= (index + 1 + q) * p) by (nonlinear_arith)
                    requires
                        p >= 1,
                        index + 1 + q >= 1,
                ;
                assert(index + 1 + q <= usize::MAX);
            }
            let end_index = index + 1 + index_o;
            Piece {
                start: Position { index, offset },
                end: Position { index: end_index, offset: overflow },
            }
        }
    }
}



/// Loop state of `complement` while ranges of `a` remain: `out` holds the
/// finished part of the answer, every position below the cursor `cur` is
/// decided, and the cursor sits inside `a[i]`.
pub open spec fn comp_inv(
    a: Seq<Piece>,
    b: Seq<Piece>,
    out: Seq<Piece>,
    i: int,
    j: int,
    cur: Position,
) -> bool {
    &&& canonical(a)
    &&& wf_sorted(b)
    &&& canonical(out)
    &&& endpoints_from(out, a, b)
    &&& 0 <= i < a.len()
    &&& 0 <= j <= b.len()
    &&& pos_le(a[i].start, cur)
    &&& pos_lt(cur, a[i].end)
    &&& forall|jj: int| 0 <= jj < j ==> pos_le(#[trigger] b[jj].end, cur)
    &&& (out.len() > 0 ==> pos_lt(out[out.len() - 1].end, cur))
    &&& is_low_boundary(cur, a, b)
    &&& forall|p: Position|
        #![trigger covers(out, p)]
        #![trigger covers(a, p)]
        covers(out, p) <==> (covers(a, p) && !covers(b, p) && pos_lt(p, cur))
}

/// What `complement` promises of its finished answer.
pub open spec fn comp_post(a: Seq<Piece>, b: Seq<Piece>, out: Seq<Piece>) -> bool {
    &&& canonical(out)
    &&& endpoints_from(out, a, b)
    &&& forall|p: Position|
        #![trigger covers(out, p)]
        #![trigger covers(a, p)]
        covers(out, p) <==> (covers(a, p) && !covers(b, p))
}

/// The loop state holds initially, with the cursor on the first start of `a`.
proof fn comp_init(a: Seq<Piece>, b: Seq<Piece>)
    requires
        canonical(a),
        wf_sorted(b),
        a.len() > 0,
    ensures
        comp_inv(a, b, Seq::<Piece>::empty(), 0, 0, a[0].start),
{
    let out = Seq::<Piece>::empty();
    let cur = a[0].start;
    assert forall|p: Position|
        #![trigger covers(out, p)]
        #![trigger covers(a, p)]
        covers(out, p) <==> (covers(a, p) && !covers(b, p) && pos_lt(p, cur)) by {
        if covers(out, p) {
            let k = covers_witness(out, p);
        }
        if covers(a, p) && pos_lt(p, cur) {
            let k = covers_witness(a, p);
            if k > 0 {
                assert(pos_lt(a[0].end, a[k].start));
            }
            assert(false);
        }
    }
}

/// Step: `b[j]` ends at or before the cursor and is skipped.
proof fn comp_step_skip(a: Seq<Piece>, b: Seq<Piece>, out: Seq<Piece>, i: int, j: int, cur: Position)
    requires
        comp_inv(a, b, out, i, j, cur),
        j < b.len(),
        pos_le(b[j].end, cur),
    ensures
        comp_inv(a, b, out, i, j + 1, cur),
{
}

/// Step: `b[j]` covers the cursor and ends inside `a[i]`; the cursor jumps to
/// its end.
#[verifier::spinoff_prover]
proof fn comp_step_cover_within(
    a: Seq<Piece>,
    b: Seq<Piece>,
    out: Seq<Piece>,
    i: int,
    j: int,
    cur: Position,
)
    requires
        comp_inv(a, b, out, i, j, cur),
        j < b.len(),
        pos_lt(cur, b[j].end),
        pos_le(b[j].start, cur),
        pos_lt(b[j].end, a[i].end),
    ensures
        comp_inv(a, b, out, i, j + 1, b[j].end),
{
    let cur2 = b[j].end;
    assert forall|p: Position|
        #![trigger covers(out, p)]
        #![trigger covers(a, p)]
        covers(out, p) <==> (covers(a, p) && !covers(b, p) && pos_lt(p, cur2)) by {
        if covers(a, p) && !covers(b, p) && pos_lt(p, cur2) && !pos_lt(p, cur) {
            assert(in_range(b[j], p));
            assert(covers(b, p));
            assert(false);
        }
    }
}

/// The positions between the end of `a[i]` and the next decision point hold
/// nothing of `a`: everything at or past `a[i].end` and below `a[i+1].start`
/// (or everything at all, for the last range) is uncovered.
proof fn comp_a_gap(a: Seq<Piece>, i: int, p: Position)
    requires
        canonical(a),
        0 <= i < a.len(),
        pos_le(a[i].end, p),
        i + 1 < a.len() ==> pos_lt(p, a[i + 1].start),
    ensures
        !covers(a, p),
{
    if covers(a, p) {
        let k = covers_witness(a, p);
        if k < i {
            assert(pos_lt(a[k].end, a[i].start));
            assert(pos_lt(a[i].start, a[i].end));
            assert(false);
        } else if k == i {
            assert(false);
        } else {
            if k > i + 1 {
                assert(pos_lt(a[i + 1].end, a[k].start));
                assert(pos_lt(a[i + 1].start, a[i + 1].end));
            }
            assert(false);
        }
    }
}

/// Step: `b[j]` covers the cursor and reaches the end of `a[i]`; the rest of
/// `a[i]` is excluded and the loop moves to the next range of `a`.
#[verifier::spinoff_prover]
proof fn comp_step_cover_advance(
    a: Seq<Piece>,
    b: Seq<Piece>,
    out: Seq<Piece>,
    i: int,
    j: int,
    cur: Position,
)
    requires
        comp_inv(a, b, out, i, j, cur),
        j < b.len(),
        pos_lt(cur, b[j].end),
        pos_le(b[j].start, cur),
        pos_le(a[i].end, b[j].end),
    ensures
        i + 1 < a.len() ==> comp_inv(a, b, out, i + 1, j, a[i + 1].start),
        i + 1 == a.len() ==> comp_post(a, b, out),
{
    let cur2: Position = if i + 1 < a.len() {
        a[i + 1].start
    } else {
        a[i].end
    };
    if i + 1 < a.len() {
        assert(pos_lt(a[i].end, a[i + 1].start));
    }
    assert forall|p: Position|
        #![trigger covers(out, p)]
        #![trigger covers(a, p)]
        covers(out, p) <==> (covers(a, p) && !covers(b, p) && pos_lt(p, cur2)) by {
        if covers(a, p) && !covers(b, p) && pos_lt(p, cur2) && !pos_lt(p, cur) {
            if pos_lt(p, a[i].end) {
                assert(in_range(b[j], p));
                assert(covers(b, p));
                assert(false);
            } else {
                comp_a_gap(a, i, p);
                assert(false);
            }
        }
    }
    if i + 1 == a.len() {
        assert forall|p: Position|
            #![trigger covers(out, p)]
            #![trigger covers(a, p)]
            covers(out, p) <==> (covers(a, p) && !covers(b, p)) by {
            if covers(a, p) && !covers(b, p) {
                lemma_covers_bounds(a, p);
                assert(pos_lt(p, a[i].end));
            }
        }
    }
}

/// Pushing `piece = [cur, hi)` onto `out` is sound when `[cur, hi)` lies
/// inside `a[i]` and meets no range of `b`; afterwards every position below
/// `hi` is decided.
#[verifier::spinoff_prover]
proof fn comp_push(
    a: Seq<Piece>,
    b: Seq<Piece>,
    out: Seq<Piece>,
    i: int,
    j: int,
    cur: Position,
    hi: Position,
)
    requires
        comp_inv(a, b, out, i, j, cur),
        pos_lt(cur, hi),
        pos_le(hi, a[i].end),
        j < b.len() ==> pos_le(hi, b[j].start),
        is_high_boundary(hi, a, b),
    ensures
        canonical(out.push(Piece { start: cur, end: hi })),
        endpoints_from(out.push(Piece { start: cur, end: hi }), a, b),
        forall|p: Position|
            #![trigger covers(out.push(Piece { start: cur, end: hi }), p)]
            #![trigger covers(a, p)]
            covers(out.push(Piece { start: cur, end: hi }), p) <==> (covers(a, p) && !covers(b, p)
                && pos_lt(p, hi)),
{
    let piece = Piece { start: cur, end: hi };
    let t = out.push(piece);
    assert forall|k: int| 0 <= k < t.len() implies valid_range(#[trigger] t[k]) by {
        if k < out.len() {
            assert(t[k] == out[k]);
        } else {
            assert(t[k] == piece);
        }
    }
    assert forall|k1: int, k2: int| 0 <= k1 < k2 < t.len() implies pos_lt(
        #[trigger] t[k1].end,
        #[trigger] t[k2].start,
    ) by {
        if k2 < out.len() {
            assert(t[k1] == out[k1] && t[k2] == out[k2]);
        } else {
            assert(t[k2] == piece);
            assert(t[k1] == out[k1]);
            if k1 < out.len() - 1 {
                assert(pos_lt(out[k1].end, out[out.len() - 1].start));
                assert(pos_lt(out[out.len() - 1].start, out[out.len() - 1].end));
            }
        }
    }
    assert forall|k: int| 0 <= k < t.len() implies is_low_boundary(#[trigger] t[k].start, a, b)
        && is_high_boundary(t[k].end, a, b) by {
        if k < out.len() {
            assert(t[k] == out[k]);
            assert(is_low_boundary(out[k].start, a, b) && is_high_boundary(out[k].end, a, b));
        } else {
            assert(t[k] == piece);
        }
    }
    assert forall|p: Position|
        #![trigger covers(t, p)]
        #![trigger covers(a, p)]
        covers(t, p) <==> (covers(a, p) && !covers(b, p) && pos_lt(p, hi)) by {
        lemma_covers_push(out, piece, p);
        if in_range(piece, p) {
            assert(in_range(a[i], p));
            assert(covers(a, p));
            if covers(b, p) {
                let k = covers_witness(b, p);
                if k < j {
                    assert(pos_le(b[k].end, cur));
                    assert(false);
                } else {
                    assert(j < b.len());
                    if k > j {
                        assert(pos_le(b[j].end, b[k].start));
                        assert(pos_lt(b[j].start, b[j].end));
                    }
                    assert(pos_le(hi, b[k].start));
                    assert(false);
                }
            }
        }
        if covers(a, p) && !covers(b, p) && pos_lt(p, hi) && !pos_lt(p, cur) {
            assert(in_range(piece, p));
        }
    }
}

/// Step: the span `[cur, b[j].start)` is free of `b` and is emitted; the
/// cursor jumps over `b[j]`, which ends inside `a[i]`.
#[verifier::spinoff_prover]
proof fn comp_step_emit_within(
    a: Seq<Piece>,
    b: Seq<Piece>,
    out: Seq<Piece>,
    i: int,
    j: int,
    cur: Position,
)
    requires
        comp_inv(a, b, out, i, j, cur),
        j < b.len(),
        pos_lt(cur, b[j].start),
        pos_lt(b[j].start, a[i].end),
        pos_lt(b[j].end, a[i].end),
    ensures
        comp_inv(a, b, out.push(Piece { start: cur, end: b[j].start }), i, j + 1, b[j].end),
{
    let hi = b[j].start;
    comp_push(a, b, out, i, j, cur, hi);
    let t = out.push(Piece { start: cur, end: hi });
    let cur2 = b[j].end;
    assert(pos_lt(t[t.len() - 1].end, cur2));
    assert forall|p: Position|
        #![trigger covers(t, p)]
        #![trigger covers(a, p)]
        covers(t, p) <==> (covers(a, p) && !covers(b, p) && pos_lt(p, cur2)) by {
        if covers(a, p) && !covers(b, p) && pos_lt(p, cur2) && !pos_lt(p, hi) {
            assert(in_range(b[j], p));
            assert(covers(b, p));
            assert(false);
        }
    }
}

/// Step: the span `[cur, b[j].start)` is emitted and `b[j]` reaches the end
/// of `a[i]`; the loop moves to the next range of `a`.
#[verifier::spinoff_prover]
proof fn comp_step_emit_advance(
    a: Seq<Piece>,
    b: Seq<Piece>,
    out: Seq<Piece>,
    i: int,
    j: int,
    cur: Position,
)
    requires
        comp_inv(a, b, out, i, j, cur),
        j < b.len(),
        pos_lt(cur, b[j].start),
        pos_lt(b[j].start, a[i].end),
        pos_le(a[i].end, b[j].end),
    ensures
        i + 1 < a.len() ==> comp_inv(
            a,
            b,
            out.push(Piece { start: cur, end: b[j].start }),
            i + 1,
            j,
            a[i + 1].start,
        ),
        i + 1 == a.len() ==> comp_post(a, b, out.push(Piece { start: cur, end: b[j].start })),
{
    let hi = b[j].start;
    comp_push(a, b, out, i, j, cur, hi);
    let t = out.push(Piece { start: cur, end: hi });
    let cur2: Position = if i + 1 < a.len() {
        a[i + 1].start
    } else {
        a[i].end
    };
    if i + 1 < a.len() {
        assert(pos_lt(a[i].end, a[i + 1].start));
    }
    assert forall|p: Position|
        #![trigger covers(t, p)]
        #![trigger covers(a, p)]
        covers(t, p) <==> (covers(a, p) && !covers(b, p) && pos_lt(p, cur2)) by {
        if covers(a, p) && !covers(b, p) && pos_lt(p, cur2) && !pos_lt(p, hi) {
            if pos_lt(p, a[i].end) {
                assert(in_range(b[j], p));
                assert(covers(b, p));
                assert(false);
            } else {
                comp_a_gap(a, i, p);
                assert(false);
            }
        }
    }
    if i + 1 == a.len() {
        assert forall|p: Position|
            #![trigger covers(t, p)]
            #![trigger covers(a, p)]
            covers(t, p) <==> (covers(a, p) && !covers(b, p)) by {
            if covers(a, p) && !covers(b, p) {
                lemma_covers_bounds(a, p);
                assert(pos_lt(p, a[i].end));
            }
        }
    }
}

/// Step: no range of `b` meets `[cur, a[i].end)`; the rest of `a[i]` is
/// emitted and the loop moves on.
#[verifier::spinoff_prover]
proof fn comp_step_emit_rest(
    a: Seq<Piece>,
    b: Seq<Piece>,
    out: Seq<Piece>,
    i: int,
    j: int,
    cur: Position,
)
    requires
        comp_inv(a, b, out, i, j, cur),
        j < b.len() ==> pos_le(a[i].end, b[j].start),
    ensures
        i + 1 < a.len() ==> comp_inv(
            a,
            b,
            out.push(Piece { start: cur, end: a[i].end }),
            i + 1,
            j,
            a[i + 1].start,
        ),
        i + 1 == a.len() ==> comp_post(a, b, out.push(Piece { start: cur, end: a[i].end })),
{
    let hi = a[i].end;
    comp_push(a, b, out, i, j, cur, hi);
    let t = out.push(Piece { start: cur, end: hi });
    let cur2: Position = if i + 1 < a.len() {
        a[i + 1].start
    } else {
        a[i].end
    };
    if i + 1 < a.len() {
        assert(pos_lt(a[i].end, a[i + 1].start));
        assert forall|p: Position|
            #![trigger covers(t, p)]
            #![trigger covers(a, p)]
            covers(t, p) <==> (covers(a, p) && !covers(b, p) && pos_lt(p, cur2)) by {
            if covers(a, p) && !covers(b, p) && pos_lt(p, cur2) && !pos_lt(p, hi) {
                comp_a_gap(a, i, p);
                assert(false);
            }
        }
    } else {
        assert forall|p: Position|
            #![trigger covers(t, p)]
            #![trigger covers(a, p)]
            covers(t, p) <==> (covers(a, p) && !covers(b, p)) by {
            if covers(a, p) && !covers(b, p) {
                lemma_covers_bounds(a, p);
            }
        }
    }
}

impl Piece {
    /// Relative set complement of the positions of `b` within those of `a`.
    ///
    /// The result is canonical, covers exactly the positions of `a` not
    /// covered by `b`, and introduces no cut points beyond the endpoints of
    /// the inputs.
    pub fn complement(a: &[Piece], b: &[Piece]) -> (r: Vec<Piece>)
    requires
        canonical(a@),
        wf_sorted(b@),
    ensures
        comp_post(a@, b@, r@),
{
    let mut out: Vec<Piece> = Vec::new();
    let alen: usize = a.len();
    let blen: usize = b.len();
    if alen == 0 {
        proof {
            assert forall|p: Position| !covers(a@, p) by {
                if covers(a@, p) {
                    let k = covers_witness(a@, p);
                }
            }
            assert forall|p: Position| !covers(out@, p) by {
                if covers(out@, p) {
                    let k = covers_witness(out@, p);
                }
            }
        }
        return out;
    }
    let mut i: usize = 0;
    let mut j: usize = 0;
    let mut cur: Position = a[0].start;
    proof {
        comp_init(a@, b@);
        assert(out@ =~= Seq::<Piece>::empty());
    }
    while i < alen
        invariant
            alen == a@.len(),
            blen == b@.len(),
            alen > 0,
            i <= alen,
            j <= blen,
            i < alen ==> comp_inv(a@, b@, out@, i as int, j as int, cur),
            i == alen ==> comp_post(a@, b@, out@),
        decreases alen - i + blen - j,
    {
        let ai: Piece = a[i];
        if j < blen && b[j].end.le(&cur) {
            proof {
                comp_step_skip(a@, b@, out@, i as int, j as int, cur);
            }
            j += 1;
        } else if j < blen && b[j].start.le(&cur) {
            let bj: Piece = b[j];
            if bj.end.lt(&ai.end) {
                proof {
                    comp_step_cover_within(a@, b@, out@, i as int, j as int, cur);
                }
                cur = bj.end;
                j += 1;
            } else {
                proof {
                    comp_step_cover_advance(a@, b@, out@, i as int, j as int, cur);
                }
                i += 1;
                if i < alen {
                    cur = a[i].start;
                }
            }
        } else if j < blen && b[j].start.lt(&ai.end) {
            let bj: Piece = b[j];
            if bj.end.lt(&ai.end) {
                proof {
                    comp_step_emit_within(a@, b@, out@, i as int, j as int, cur);
                }
                out.push(Piece { start: cur, end: bj.start });
                cur = bj.end;
                j += 1;
            } else {
                proof {
                    comp_step_emit_advance(a@, b@, out@, i as int, j as int, cur);
                }
                out.push(Piece { start: cur, end: bj.start });
                i += 1;
                if i < alen {
                    cur = a[i].start;
                }
            }
        } else {
            proof {
                comp_step_emit_rest(a@, b@, out@, i as int, j as int, cur);
            }
            out.push(Piece { start: cur, end: ai.end });
            i += 1;
            if i < alen {
                cur = a[i].start;
            }
        }
    }
    out
}
}

/// Error value returned when an inserted range would overlap an existing one.
#[derive(Debug, Clone, Copy, PartialEq, Eq, Structural)]
pub struct RangeOverlap;

/// Every start of `r` is the start of some range of `s`, and every end of
/// `r` the end of some range of `s`.
pub open spec fn endpoints_of(r: Seq<Piece>, s: Seq<Piece>) -> bool {
    forall|k: int|
        0 <= k < r.len() ==> (exists|i: int| 0 <= i < s.len() && #[trigger] r[k].start == (
        #[trigger] s[i]).start) && (exists|i: int| 0 <= i < s.len() && r[k].end == s[i].end)
}

/// Inserting a range into a sequence covers the union of both.
pub proof fn lemma_covers_insert(s: Seq<Piece>, r: Piece, pos: int, p: Position)
    requires
        0 <= pos <= s.len(),
    ensures
        covers(s.insert(pos, r), p) <==> (covers(s, p) || in_range(r, p)),
{
    let t = s.insert(pos, r);
    if covers(t, p) {
        let i = covers_witness(t, p);
        if i < pos {
            assert(t[i] == s[i]);
            assert(covers(s, p));
        } else if i == pos {
            assert(t[i] == r);
        } else {
            assert(t[i] == s[i - 1]);
            assert(covers(s, p));
        }
    }
    if covers(s, p) {
        let i = covers_witness(s, p);
        if i < pos {
            assert(t[i] == s[i]);
        } else {
            assert(t[i + 1] == s[i]);
        }
        assert(covers(t, p));
    }
    if in_range(r, p) {
        assert(t[pos] == r);
        assert(covers(t, p));
    }
}

/// A list whose adjacent ranges are strictly apart is canonical, provided it
/// is sorted and its ranges are non-empty.
pub proof fn lemma_adjacent_strict(s: Seq<Piece>)
    requires
        wf_sorted(s),
        forall|i: int| 0 <= i < s.len() - 1 ==> pos_lt(#[trigger] s[i].end, s[i + 1].start),
    ensures
        canonical(s),
{
    assert forall|i: int, j: int| 0 <= i < j < s.len() implies pos_lt(
        #[trigger] s[i].end,
        #[trigger] s[j].start,
    ) by {
        if j == i + 1 {
        } else {
            assert(pos_lt(s[i].end, s[i + 1].start));
            assert(valid_range(s[i + 1]));
            assert(pos_le(s[i + 1].end, s[j].start));
        }
    }
}

/// Adjacent ranges may touch only immediately around `index`; everywhere
/// else the list is strictly compacted.
pub open spec fn compactable_at(s: Seq<Piece>, index: int) -> bool {
    forall|i: int|
        0 <= i < s.len() - 1 && i != index - 1 && i != index ==> pos_lt(
            #[trigger] s[i].end,
            s[i + 1].start,
        )
}

impl Piece {
    /// Place `new_block` into the sorted, disjoint vector `arr`, preserving
    /// sortedness and disjointness, and return the index it now occupies.
    /// Fails, leaving the vector unchanged, exactly when `new_block` overlaps
    /// an existing range.
    pub fn add_to_boundary_vec(arr: &mut Vec<Piece>, new_block: Piece) -> (r: Result<
        usize,
        RangeOverlap,
    >)
        requires
            wf_sorted(old(arr)@),
            valid_range(new_block),
        ensures
            match r {
                Ok(pos) => {
                    &&& 0 <= pos <= old(arr)@.len()
                    &&& final(arr)@ == old(arr)@.insert(pos as int, new_block)
                    &&& wf_sorted(final(arr)@)
                    &&& pos > 0 ==> pos_le(old(arr)@[pos as int - 1].end, new_block.start)
                    &&& pos < old(arr)@.len() ==> pos_le(new_block.end, old(arr)@[pos as int].start)
                    &&& forall|k: int|
                        0 <= k < old(arr)@.len() ==> !ranges_overlap(new_block, #[trigger] old(
                            arr,
                        )@[k])
                },
                Err(_) => {
                    &&& final(arr)@ == old(arr)@
                    &&& exists|k: int|
                        0 <= k < old(arr)@.len() && ranges_overlap(new_block, #[trigger] old(
                            arr,
                        )@[k])
                },
            },
    {
        let len: usize = arr.len();
        let mut pos: usize = 0;
        while pos < len && arr[pos].end.le(&new_block.start)
            invariant
                len == arr@.len(),
                wf_sorted(arr@),
                pos <= len,
                forall|k: int| 0 <= k < pos ==> pos_le(#[trigger] arr@[k].end, new_block.start),
            decreases len - pos,
        {
            pos += 1;
        }
        if pos < len && arr[pos].start.lt(&new_block.end) {
            proof {
                assert(ranges_overlap(new_block, arr@[pos as int]));
            }
            return Err(RangeOverlap);
        }
        proof {
            let s = arr@;
            let t = s.insert(pos as int, new_block);
            assert forall|k: int|
                0 <= k < s.len() implies !ranges_overlap(new_block, #[trigger] s[k]) by {
                if k < pos {
                } else if k == pos {
                } else {
                    assert(pos < s.len());
                    assert(pos_le(s[pos as int].end, s[k].start));
                    assert(valid_range(s[pos as int]));
                }
            }
            assert forall|k: int| 0 <= k < t.len() implies valid_range(#[trigger] t[k]) by {
                if k < pos {
                    assert(t[k] == s[k]);
                } else if k == pos {
                    assert(t[k] == new_block);
                } else {
                    assert(t[k] == s[k - 1]);
                }
            }
            assert forall|k1: int, k2: int| 0 <= k1 < k2 < t.len() implies pos_le(
                #[trigger] t[k1].end,
                #[trigger] t[k2].start,
            ) by {
                if k2 < pos {
                    assert(t[k1] == s[k1] && t[k2] == s[k2]);
                } else if k1 > pos {
                    assert(t[k1] == s[k1 - 1] && t[k2] == s[k2 - 1]);
                } else if k1 < pos && k2 == pos {
                    assert(t[k1] == s[k1] && t[k2] == new_block);
                    assert(pos_le(s[k1].end, new_block.start));
                } else if k1 < pos && k2 > pos {
                    assert(t[k1] == s[k1] && t[k2] == s[k2 - 1]);
                } else {
                    assert(k1 == pos && k2 > pos);
                    assert(t[k1] == new_block && t[k2] == s[k2 - 1]);
                    assert(pos_le(new_block.end, s[pos as int].start));
                    if k2 - 1 > pos {
                        assert(pos_le(s[pos as int].end, s[k2 - 1].start));
                        assert(valid_range(s[pos as int]));
                    }
                }
            }
        }
        arr.insert(pos, new_block);
        Ok(pos)
    }

    /// Merge the range at `index` with its neighbours wherever they touch it
    /// at a shared endpoint, leaving the list canonical; the covered
    /// positions do not change.
    #[verifier::rlimit(60)]
    pub fn compact_if_possible(arr: &mut Vec<Piece>, index: usize)
        requires
            wf_sorted(old(arr)@),
            index < old(arr)@.len(),
            compactable_at(old(arr)@, index as int),
        ensures
            canonical(final(arr)@),
            forall|p: Position| #![trigger covers(final(arr)@, p)] #![trigger covers(old(arr)@, p)]
                covers(final(arr)@, p) <==> covers(old(arr)@, p),
            endpoints_of(final(arr)@, old(arr)@),
    {
        let ghost s = arr@;
        let el: Piece = arr[index];
        let left: bool = index > 0 && arr[index - 1].end == el.start;
        let right: bool = index < arr.len() - 1 && el.end == arr[index + 1].start;
        let lo: usize = if left { index - 1 } else { index };
        let hi: usize = if right { index + 2 } else { index + 1 };
        if !left && !right {
            proof {
                assert forall|i: int| 0 <= i < s.len() - 1 implies pos_lt(
                    #[trigger] s[i].end,
                    s[i + 1].start,
                ) by {
                    if i == index - 1 {
                        assert(s[i].end != s[index as int].start);
                    } else if i == index {
                        assert(s[index as int].end != s[i + 1].start);
                    }
                }
                lemma_adjacent_strict(s);
                assert(endpoints_of(s, s));
            }
            return ;
        }
        let merged = Piece { start: arr[lo].start, end: arr[hi - 1].end };
        proof {
            lemma_compact_window(s, lo as int, hi as int, merged, index as int);
        }
        // replace the window [lo, hi) by the single merged range
        if right {
            arr.remove(index + 1);
        }
        arr.remove(index);
        if left {
            arr.remove(index - 1);
        }
        arr.insert(lo, merged);
        proof {
            assert(arr@ =~= s.take(lo as int) + seq![merged] + s.skip(hi as int));
        }
    }
}

/// Replacing the touching window `[lo, hi)` of `s` by the single range that
/// spans it yields a canonical list covering the same positions.
#[verifier::spinoff_prover]
#[verifier::rlimit(80)]
proof fn lemma_compact_window(s: Seq<Piece>, lo: int, hi: int, merged: Piece, index: int)
    requires
        wf_sorted(s),
        compactable_at(s, index),
        0 <= lo <= index < hi <= s.len(),
        2 <= hi - lo <= 3,
        lo == index - 1 || lo == index,
        hi == index + 1 || hi == index + 2,
        lo == index - 1 ==> s[index - 1].end == s[index].start,
        lo == index ==> (index == 0 || pos_lt(s[index - 1].end, s[index].start)),
        hi == index + 2 ==> s[index].end == s[index + 1].start,
        hi == index + 1 ==> (hi == s.len() || pos_lt(s[index].end, s[index + 1].start)),
        merged.start == s[lo].start,
        merged.end == s[hi - 1].end,
    ensures
        canonical(s.take(lo) + seq![merged] + s.skip(hi)),
        forall|p: Position|
            #![trigger covers(s.take(lo) + seq![merged] + s.skip(hi), p)]
            #![trigger covers(s, p)]
            covers(s.take(lo) + seq![merged] + s.skip(hi), p) <==> covers(s, p),
        endpoints_of(s.take(lo) + seq![merged] + s.skip(hi), s),
{
    let t = s.take(lo) + seq![merged] + s.skip(hi);
    assert(t.len() == s.len() - (hi - lo) + 1);
    assert(forall|k: int| 0 <= k < lo ==> #[trigger] t[k] == s[k]);
    assert(t[lo] == merged);
    assert(forall|k: int| lo < k < t.len() ==> #[trigger] t[k] == s[k + (hi - lo) - 1]);
    // merged is non-empty and spans exactly the window
    assert(valid_range(merged)) by {
        assert(valid_range(s[lo]));
        if hi - lo == 2 {
            assert(pos_le(s[lo].end, s[lo + 1].start));
        } else if hi - lo == 3 {
            assert(pos_le(s[lo].end, s[lo + 1].start));
            assert(valid_range(s[lo + 1]));
            assert(pos_le(s[lo + 1].end, s[lo + 2].start));
        }
    }
    assert forall|k: int| 0 <= k < t.len() implies valid_range(#[trigger] t[k]) by {
        if k < lo {
        } else if k == lo {
        } else {
            assert(t[k] == s[k + (hi - lo) - 1]);
        }
    }
    assert forall|k1: int, k2: int| 0 <= k1 < k2 < t.len() implies pos_le(
        #[trigger] t[k1].end,
        #[trigger] t[k2].start,
    ) by {
        if k2 < lo {
        } else if k2 == lo {
            assert(t[k1] == s[k1]);
            assert(pos_le(s[k1].end, s[lo].start));
        } else if k1 == lo {
            assert(t[k2] == s[k2 + (hi - lo) - 1]);
            assert(pos_le(s[hi - 1].end, s[k2 + (hi - lo) - 1].start));
        } else if k1 < lo {
            assert(t[k1] == s[k1] && t[k2] == s[k2 + (hi - lo) - 1]);
        } else {
            assert(t[k1] == s[k1 + (hi - lo) - 1] && t[k2] == s[k2 + (hi - lo) - 1]);
        }
    }
    assert forall|i: int| 0 <= i < t.len() - 1 implies pos_lt(#[trigger] t[i].end, t[i + 1].start) by {
        if i + 1 < lo {
            assert(t[i] == s[i] && t[i + 1] == s[i + 1]);
            assert(i != index - 1 && i != index);
        } else if i + 1 == lo {
            assert(t[i] == s[lo - 1] && t[i + 1] == merged);
            if lo == index {
                assert(pos_lt(s[index - 1].end, s[index].start));
            } else {
                assert(lo - 1 != index - 1 && lo - 1 != index);
                assert(pos_lt(s[lo - 1].end, s[lo].start));
            }
        } else if i == lo {
            assert(t[i + 1] == s[hi]);
            if hi == index + 1 {
                assert(pos_lt(s[index].end, s[index + 1].start));
            } else {
                assert(hi == index + 2);
                assert(hi - 1 != index - 1 && hi - 1 != index);
                assert(pos_lt(s[hi - 1].end, s[hi].start));
            }
        } else {
            let k = i + (hi - lo) - 1;
            assert(t[i] == s[k] && t[i + 1] == s[k + 1]);
            assert(k >= hi - 1);
            assert(k != index - 1 && k != index);
        }
    }
    lemma_adjacent_strict(t);
    assert forall|p: Position|
        #![trigger covers(t, p)]
        #![trigger covers(s, p)]
        covers(t, p) <==> covers(s, p) by {
        if covers(t, p) {
            let k = covers_witness(t, p);
            if k < lo {
                assert(t[k] == s[k]);
                assert(covers(s, p));
            } else if k == lo {
                // split the merged window back into its parts
                assert(s[lo].end == s[lo + 1].start);
                if pos_lt(p, s[lo].end) {
                    assert(in_range(s[lo], p));
                    assert(covers(s, p));
                } else if pos_lt(p, s[lo + 1].end) {
                    assert(in_range(s[lo + 1], p));
                    assert(covers(s, p));
                } else {
                    assert(hi - lo == 3 && pos_lt(p, s[lo + 2].end));
                    assert(s[lo + 1].end == s[lo + 2].start);
                    assert(in_range(s[lo + 2], p));
                    assert(covers(s, p));
                }
            } else {
                assert(t[k] == s[k + (hi - lo) - 1]);
                assert(covers(s, p));
            }
        }
        if covers(s, p) {
            let k = covers_witness(s, p);
            if k < lo {
                assert(t[k] == s[k]);
                assert(covers(t, p));
            } else if k >= hi {
                assert(t[k - (hi - lo) + 1] == s[k]);
                assert(covers(t, p));
            } else {
                assert(pos_le(merged.start, s[k].start)) by {
                    if k > lo {
                        assert(pos_le(s[lo].end, s[k].start));
                        assert(valid_range(s[lo]));
                    }
                }
                assert(pos_le(s[k].end, merged.end)) by {
                    if k < hi - 1 {
                        assert(pos_le(s[k].end, s[hi - 1].start));
                        assert(valid_range(s[hi - 1]));
                    }
                }
                assert(in_range(merged, p));
                assert(covers(t, p));
            }
        }
    }
    assert forall|k: int|
        0 <= k < t.len() implies (exists|i: int|
        0 <= i < s.len() && #[trigger] t[k].start == (#[trigger] s[i]).start) && (exists|i: int|
        0 <= i < s.len() && t[k].end == s[i].end) by {
        if k < lo {
            assert(t[k].start == s[k].start && t[k].end == s[k].end);
        } else if k == lo {
            assert(t[k].start == s[lo].start && t[k].end == s[hi - 1].end);
        } else {
            let m = k + (hi - lo) - 1;
            assert(t[k].start == s[m].start && t[k].end == s[m].end);
        }
    }
}

/// What `intersection` promises: a canonical list covering exactly the
/// positions common to both inputs.
pub open spec fn inter_post(a: Seq<Piece>, b: Seq<Piece>, r: Seq<Piece>) -> bool {
    &&& canonical(r)
    &&& forall|p: Position|
        #![trigger covers(r, p)]
        #![trigger covers(a, p)]
        covers(r, p) <==> (covers(a, p) && covers(b, p))
}

impl Piece {
    /// Intersection of the positions of `a` and `b`, computed as the
    /// complement of the complement of `b` within a range spanning both.
    pub fn intersection(a: &[Piece], b: &[Piece]) -> (r: Vec<Piece>)
        requires
            canonical(a@),
            wf_sorted(b@),
        ensures
            inter_post(a@, b@, r@),
    {
        if a.len() == 0 || b.len() == 0 {
            let r: Vec<Piece> = Vec::new();
            proof {
                assert forall|p: Position| !(covers(a@, p) && covers(b@, p)) by {
                    if covers(a@, p) && covers(b@, p) {
                        let i = covers_witness(a@, p);
                        let j = covers_witness(b@, p);
                    }
                }
                assert forall|p: Position| !covers(r@, p) by {
                    if covers(r@, p) {
                        let i = covers_witness(r@, p);
                    }
                }
            }
            return r;
        }
        let a_last: Piece = a[a.len() - 1];
        let b_last: Piece = b[b.len() - 1];
        let max_end: Position = if a_last.end.le(&b_last.end) {
            b_last.end
        } else {
            a_last.end
        };
        let mut universe: Vec<Piece> = Vec::new();
        universe.push(
            Piece { start: Position { index: 0, offset: 0 }, end: max_end },
        );
        proof {
            assert(valid_range(a_last));
            assert(canonical(universe@));
        }
        let b_inverse = Self::complement(universe.as_slice(), b);
        let r = Self::complement(a, b_inverse.as_slice());
        proof {
            assert forall|p: Position|
                #![trigger covers(r@, p)]
                #![trigger covers(a@, p)]
                covers(r@, p) <==> (covers(a@, p) && covers(b@, p)) by {
                if covers(a@, p) {
                    lemma_covers_bounds(a@, p);
                    assert(in_range(universe@[0], p));
                    assert(covers(universe@, p));
                }
            }
        }
        r
    }
}

/// The complement of `b` in `a`, intersected with `b`, covers nothing: it is
/// the empty list.
pub proof fn lemma_complement_intersection_empty(
    a: Seq<Piece>,
    b: Seq<Piece>,
    c: Seq<Piece>,
    r: Seq<Piece>,
)
    requires
        comp_post(a, b, c),
        inter_post(c, b, r),
    ensures
        r == Seq::<Piece>::empty(),
{
    if r.len() > 0 {
        assert(valid_range(r[0]));
        assert(in_range(r[0], r[0].start));
        assert(covers(r, r[0].start));
        assert(covers(c, r[0].start) && covers(b, r[0].start));
        assert(false);
    }
    assert(r =~= Seq::<Piece>::empty());
}

/// Intersection is commutative: the two orders of arguments yield the same
/// canonical list.
pub proof fn lemma_intersection_commutes(a: Seq<Piece>, b: Seq<Piece>, r1: Seq<Piece>, r2: Seq<Piece>)
    requires
        inter_post(a, b, r1),
        inter_post(b, a, r2),
    ensures
        r1 == r2,
{
    assert forall|p: Position| covers(r1, p) <==> covers(r2, p) by {
        assert(covers(r1, p) <==> (covers(a, p) && covers(b, p)));
        assert(covers(r2, p) <==> (covers(b, p) && covers(a, p)));
    }
    lemma_canonical_unique(r1, r2);
}


/// Bit `k` (most-significant first) of byte `b`.
pub open spec fn byte_bit(b: u8, k: int) -> bool
    recommends
        0 <= k < 8,
{
    (b >> ((7 - k) as u8)) & 1u8 == 1u8
}

/// Bit `k` of a packed bitfield: bit `k % 8` (MSB first) of byte `k / 8`.
pub open spec fn bitfield_bit(bytes: Seq<u8>, k: int) -> bool
    recommends
        0 <= k < 8 * bytes.len(),
{
    byte_bit(bytes[k / 8], k % 8)
}

/// Every range runs from piece boundary to piece boundary.
pub open spec fn whole_pieces(s: Seq<Piece>) -> bool {
    forall|k: int|
        0 <= k < s.len() ==> (#[trigger] s[k]).start.offset == 0 && s[k].end.offset == 0
}

/// A whole-piece list covers a position exactly when it covers the start of
/// that position's piece.
pub proof fn lemma_whole_covers(s: Seq<Piece>, p: Position)
    requires
        whole_pieces(s),
    ensures
        covers(s, p) <==> covers(s, Position { index: p.index, offset: 0 }),
{
    let q = Position { index: p.index, offset: 0 };
    if covers(s, p) {
        let i = covers_witness(s, p);
        assert(in_range(s[i], q));
        assert(covers(s, q));
    }
    if covers(s, q) {
        let i = covers_witness(s, q);
        assert(in_range(s[i], p));
        assert(covers(s, p));
    }
}

impl Piece {
    /// Decode a packed bitfield into the canonical list of whole-piece
    /// ranges whose pieces have their bit set (MSB-first within each byte).
    pub fn convert_bitfield_to_piece_vec(bitfield: &[u8]) -> (r: Vec<Piece>)
        requires
            8 * bitfield@.len() <= usize::MAX,
        ensures
            canonical(r@),
            whole_pieces(r@),
            forall|p: Position|
                #![trigger covers(r@, p)]
                covers(r@, p) <==> (p.index < 8 * bitfield@.len() && bitfield_bit(
                    bitfield@,
                    p.index as int,
                )),
    {
        let mut vec: Vec<Piece> = Vec::new();
        let n: usize = bitfield.len();
        let total: usize = 8 * n;
        let mut k: usize = 0;
        let mut have_run: bool = false;
        let mut run_start: usize = 0;
        proof {
            assert forall|p: Position| !covers(vec@, p) by {
                if covers(vec@, p) {
                    let w = covers_witness(vec@, p);
                }
            }
        }
        while k < total
            invariant
                n == bitfield@.len(),
                total == 8 * n,
                total <= usize::MAX,
                k <= total,
                canonical(vec@),
                whole_pieces(vec@),
                have_run ==> run_start < k,
                have_run ==> (forall|m: int|
                    run_start <= m < k ==> bitfield_bit(bitfield@, m)),
                have_run ==> (run_start == 0 || !bitfield_bit(bitfield@, run_start - 1)),
                !have_run ==> (k == 0 || !bitfield_bit(bitfield@, k - 1)),
                vec@.len() > 0 ==> vec@[vec@.len() - 1].end.index <= (if have_run {
                    run_start
                } else {
                    k
                }),
                forall|p: Position|
                    #![trigger covers(vec@, p)]
                    covers(vec@, p) <==> (p.index < (if have_run {
                        run_start
                    } else {
                        k
                    }) && bitfield_bit(bitfield@, p.index as int)),
            decreases total - k,
        {
            proof {
                assert(k / 8 < n) by (nonlinear_arith)
                    requires
                        k < 8 * n,
                        k >= 0,
                ;
                assert(k % 8 < 8);
                assert(k / 8 * 8 + k % 8 == k) by (nonlinear_arith);
            }
            let byte: u8 = bitfield[k / 8];
            let sh: u8 = (7 - (k % 8)) as u8;
            let bit: bool = (byte >> sh) & 1u8 == 1u8;
            proof {
                assert(bit == bitfield_bit(bitfield@, k as int));
            }
            if bit {
                if !have_run {
                    have_run = true;
                    run_start = k;
                }
            } else {
                if have_run {
                    let piece = Piece {
                        start: Position { index: run_start, offset: 0 },
                        end: Position { index: k, offset: 0 },
                    };
                    proof {
                        run_push_ok(bitfield@, vec@, run_start, k);
                    }
                    vec.push(piece);
                    have_run = false;
                }
            }
            k += 1;
        }
        if have_run {
            let piece = Piece {
                start: Position { index: run_start, offset: 0 },
                end: Position { index: total, offset: 0 },
            };
            proof {
                run_push_ok(bitfield@, vec@, run_start, total);
            }
            vec.push(piece);
        }
        vec
    }
}

/// Closing a run of set bits `[run_start, k)` extends the decoded list
/// soundly: the new list is canonical, whole-piece, and covers exactly the
/// pieces with a set bit below `k`.
#[verifier::spinoff_prover]
proof fn run_push_ok(bytes: Seq<u8>, vec: Seq<Piece>, run_start: usize, k: usize)
    requires
        canonical(vec),
        whole_pieces(vec),
        run_start < k,
        k <= 8 * bytes.len(),
        forall|m: int| run_start <= m < k ==> bitfield_bit(bytes, m),
        run_start == 0 || !bitfield_bit(bytes, run_start - 1),
        vec.len() > 0 ==> vec[vec.len() - 1].end.index <= run_start,
        forall|p: Position|
            #![trigger covers(vec, p)]
            covers(vec, p) <==> (p.index < run_start && bitfield_bit(bytes, p.index as int)),
    ensures
        canonical(
            vec.push(
                Piece {
                    start: Position { index: run_start, offset: 0 },
                    end: Position { index: k, offset: 0 },
                },
            ),
        ),
        whole_pieces(
            vec.push(
                Piece {
                    start: Position { index: run_start, offset: 0 },
                    end: Position { index: k, offset: 0 },
                },
            ),
        ),
        forall|p: Position|
            #![trigger covers(
                vec.push(
                    Piece {
                        start: Position { index: run_start, offset: 0 },
                        end: Position { index: k, offset: 0 },
                    },
                ),
                p,
            )]
            covers(
                vec.push(
                    Piece {
                        start: Position { index: run_start, offset: 0 },
                        end: Position { index: k, offset: 0 },
                    },
                ),
                p,
            ) <==> (p.index < k && bitfield_bit(bytes, p.index as int)),
{
    let piece = Piece {
        start: Position { index: run_start, offset: 0 },
        end: Position { index: k, offset: 0 },
    };
    let t = vec.push(piece);
    if vec.len() > 0 {
        // the previous range ends strictly before the new run begins
        let last = vec[vec.len() - 1];
        let e = last.end.index;
        assert(valid_range(last));
        assert(last.start.index < e);
        if e == run_start {
            let q = Position { index: (run_start - 1) as usize, offset: 0 };
            assert(in_range(last, q));
            assert(covers(vec, q));
            assert(bitfield_bit(bytes, run_start - 1));
            assert(false);
        }
        assert(e < run_start);
    }
    assert forall|k1: int, k2: int| 0 <= k1 < k2 < t.len() implies pos_lt(
        #[trigger] t[k1].end,
        #[trigger] t[k2].start,
    ) by {
        if k2 < vec.len() {
            assert(t[k1] == vec[k1] && t[k2] == vec[k2]);
        } else {
            assert(t[k2] == piece);
            assert(t[k1] == vec[k1]);
            if k1 < vec.len() - 1 {
                assert(pos_lt(vec[k1].end, vec[vec.len() - 1].start));
                assert(valid_range(vec[vec.len() - 1]));
            }
        }
    }
    assert forall|m: int| 0 <= m < t.len() implies valid_range(#[trigger] t[m]) && t[m].start.offset
        == 0 && t[m].end.offset == 0 by {
        if m < vec.len() {
            assert(t[m] == vec[m]);
        } else {
            assert(t[m] == piece);
        }
    }
    assert forall|p: Position|
        #![trigger covers(t, p)]
        covers(t, p) <==> (p.index < k && bitfield_bit(bytes, p.index as int)) by {
        lemma_covers_push(vec, piece, p);
        if in_range(piece, p) {
            assert(run_start <= p.index < k);
        }
        if p.index < k && bitfield_bit(bytes, p.index as int) && !(p.index < run_start) {
            assert(in_range(piece, p));
        }
    }
}

/// Converting a canonical whole-piece list to its wire bitfield and decoding
/// that bitfield yields the original list, whenever the list fits within
/// `total_pieces` pieces.  The hypotheses are exactly the contracts of
/// `Piece::to_bitfield` and `Piece::convert_bitfield_to_piece_vec`.
pub proof fn lemma_bitfield_round_trip(
    list: Seq<Piece>,
    bytes: Seq<u8>,
    out: Seq<Piece>,
    total_pieces: int,
)
    requires
        canonical(list),
        whole_pieces(list),
        forall|m: int| 0 <= m < list.len() ==> (#[trigger] list[m]).end.index <= total_pieces,
        0 <= total_pieces,
        bytes.len() == (total_pieces + 7) / 8,
        forall|m: int|
            0 <= m < 8 * bytes.len() ==> (#[trigger] bitfield_bit(bytes, m) <==> covers(
                list,
                Position { index: m as usize, offset: 0 },
            )),
        canonical(out),
        whole_pieces(out),
        forall|p: Position|
            #![trigger covers(out, p)]
            covers(out, p) <==> (p.index < 8 * bytes.len() && bitfield_bit(bytes, p.index as int)),
    ensures
        out == list,
{
    vstd::arithmetic::div_mod::lemma_fundamental_div_mod(total_pieces + 7, 8);
    vstd::arithmetic::div_mod::lemma_mod_bound(total_pieces + 7, 8);
    assert(8 * bytes.len() >= total_pieces);
    assert forall|p: Position| covers(out, p) <==> covers(list, p) by {
        lemma_whole_covers(list, p);
        if covers(list, p) {
            let i = covers_witness(list, p);
            assert(p.index < total_pieces);
        }
        if covers(out, p) {
            assert(bitfield_bit(bytes, p.index as int));
            assert(covers(list, Position { index: p.index, offset: 0 }));
        }
        if covers(list, p) {
            assert(covers(list, Position { index: p.index, offset: 0 }));
            assert(bitfield_bit(bytes, p.index as int));
            assert(covers(out, p));
        }
    }
    lemma_canonical_unique(out, list);
}

impl Piece {
    /// Derive the wire bitfield of a canonical whole-piece range list, for a
    /// torrent of `total_pieces` pieces: bit `k` (MSB first) is set exactly
    /// when piece `k` is covered; trailing pad bits are zero.
    pub fn to_bitfield(pieces: &[Piece], total_pieces: usize) -> (r: Vec<u8>)
        requires
            wf_sorted(pieces@),
            whole_pieces(pieces@),
            forall|m: int| 0 <= m < pieces@.len() ==> (#[trigger] pieces@[m]).end.index
                <= total_pieces,
            total_pieces + 7 <= usize::MAX,
        ensures
            r@.len() == (total_pieces + 7) / 8,
            forall|m: int|
                0 <= m < 8 * r@.len() ==> (#[trigger] bitfield_bit(r@, m) <==> covers(
                    pieces@,
                    Position { index: m as usize, offset: 0 },
                )),
    {
        let nbytes: usize = (total_pieces + 7) / 8;
        let mut r: Vec<u8> = vec![0u8; nbytes];
        proof {
            assert forall|m: int| 0 <= m < 8 * r@.len() implies !bitfield_bit(r@, m) by {
                assert(0 <= m % 8 < 8) by (nonlinear_arith)
                    requires
                        m >= 0,
                ;
                assert(0 <= m / 8 < r@.len()) by (nonlinear_arith)
                    requires
                        0 <= m < 8 * r@.len(),
                ;
                assert(r@[m / 8] == 0u8);
                let sh8: u8 = (7 - (m % 8)) as u8;
                assert((0u8 >> sh8) & 1u8 == 0u8) by (bit_vector);
            }
        }
        let mut ri: usize = 0;
        while ri < pieces.len()
            invariant
                wf_sorted(pieces@),
                whole_pieces(pieces@),
                forall|m: int| 0 <= m < pieces@.len() ==> (#[trigger] pieces@[m]).end.index
                    <= total_pieces,
                total_pieces + 7 <= usize::MAX,
                nbytes == (total_pieces + 7) / 8,
                r@.len() == nbytes,
                ri <= pieces@.len(),
                forall|m: int|
                    0 <= m < 8 * r@.len() ==> (#[trigger] bitfield_bit(r@, m) <==> covers(
                        pieces@.take(ri as int),
                        Position { index: m as usize, offset: 0 },
                    )),
            decreases pieces@.len() - ri,
        {
            let range: Piece = pieces[ri];
            let mut idx: usize = range.start.index;
            proof {
                assert(valid_range(pieces@[ri as int]));
                assert(8 * nbytes >= total_pieces) by {
                    vstd::arithmetic::div_mod::lemma_fundamental_div_mod(
                        total_pieces as int + 7,
                        8,
                    );
                    vstd::arithmetic::div_mod::lemma_mod_bound(total_pieces as int + 7, 8);
                }
            }
            while idx < range.end.index
                invariant
                    wf_sorted(pieces@),
                    whole_pieces(pieces@),
                    forall|m: int| 0 <= m < pieces@.len() ==> (#[trigger] pieces@[m]).end.index
                        <= total_pieces,
                    ri < pieces@.len(),
                    range == pieces@[ri as int],
                    range.start.index <= idx <= range.end.index,
                    range.end.index <= total_pieces,
                    8 * r@.len() >= total_pieces,
                    r@.len() == nbytes,
                    forall|m: int|
                        0 <= m < 8 * r@.len() ==> (#[trigger] bitfield_bit(r@, m) <==> (covers(
                            pieces@.take(ri as int),
                            Position { index: m as usize, offset: 0 },
                        ) || (range.start.index <= m < idx))),
                decreases range.end.index - idx,
            {
                let ghost old_r = r@;
                proof {
                    assert(idx / 8 < nbytes) by (nonlinear_arith)
                        requires
                            idx < total_pieces,
                            8 * nbytes >= total_pieces,
                            idx >= 0,
                    ;
                    assert(idx / 8 * 8 + idx % 8 == idx) by (nonlinear_arith);
                    assert(0 <= idx % 8 < 8);
                }
                let byte_i: usize = idx / 8;
                let sh: u8 = (idx % 8) as u8;
                let old_byte: u8 = r[byte_i];
                let elem = vstd::std_specs::vec::vec_index_mut(&mut r, byte_i);
                *elem = old_byte | (128u8 >> sh);
                proof {
                    set_bit_effect(old_r, r@, byte_i as int, idx as int);
                    assert forall|m: int|
                        0 <= m < 8 * r@.len() implies (#[trigger] bitfield_bit(r@, m) <==> (
                    covers(
                        pieces@.take(ri as int),
                        Position { index: m as usize, offset: 0 },
                    ) || (range.start.index <= m < idx + 1))) by {
                        if m != idx {
                            assert(bitfield_bit(r@, m) == bitfield_bit(old_r, m));
                        }
                    }
                }
                idx += 1;
            }
            proof {
                assert forall|m: int|
                    0 <= m < 8 * r@.len() implies (#[trigger] bitfield_bit(r@, m) <==> covers(
                    pieces@.take(ri as int + 1),
                    Position { index: m as usize, offset: 0 },
                )) by {
                    let q = Position { index: m as usize, offset: 0 };
                    let tk = pieces@.take(ri as int);
                    let tk1 = pieces@.take(ri as int + 1);
                    assert(forall|w: int| 0 <= w < tk.len() ==> #[trigger] tk[w] == pieces@[w]);
                    assert(forall|w: int| 0 <= w < tk1.len() ==> #[trigger] tk1[w] == pieces@[w]);
                    if covers(tk, q) {
                        let w = covers_witness(tk, q);
                        assert(in_range(tk1[w], q));
                        assert(covers(tk1, q));
                    }
                    if range.start.index <= m < idx {
                        assert(in_range(tk1[ri as int], q));
                        assert(covers(tk1, q));
                    }
                    if covers(tk1, q) {
                        let w = covers_witness(tk1, q);
                        if w < ri {
                            assert(in_range(tk[w], q));
                            assert(covers(tk, q));
                        } else {
                            assert(tk1[w] == pieces@[ri as int]);
                            assert(range.start.index <= m < idx);
                        }
                    }
                }
            }
            ri += 1;
        }
        proof {
            assert(pieces@.take(pieces@.len() as int) =~= pieces@);
        }
        r
    }
}

/// Or-ing `128 >> (idx % 8)` into byte `idx / 8` sets bit `idx` of the
/// bitfield and leaves every other bit unchanged.
#[verifier::spinoff_prover]
pub(crate) proof fn set_bit_effect(old_r: Seq<u8>, new_r: Seq<u8>, byte_i: int, idx: int)
    requires
        old_r.len() == new_r.len(),
        0 <= idx,
        byte_i == idx / 8,
        0 <= byte_i < old_r.len(),
        new_r == old_r.update(byte_i, old_r[byte_i] | (128u8 >> ((idx % 8) as u8))),
    ensures
        bitfield_bit(new_r, idx),
        forall|m: int|
            0 <= m < 8 * new_r.len() && m != idx ==> (#[trigger] bitfield_bit(new_r, m)
                == bitfield_bit(old_r, m)),
{
    vstd::arithmetic::div_mod::lemma_mod_bound(idx, 8);
    let m8: u8 = (idx % 8) as u8;
    let b: u8 = old_r[byte_i];
    assert(bitfield_bit(new_r, idx)) by {
        assert(new_r[idx / 8] == b | (128u8 >> m8));
        assert(m8 < 8 ==> ((b | (128u8 >> m8)) >> ((7 - m8) as u8)) & 1u8 == 1u8)
            by (bit_vector);
        assert(((7 - (idx % 8)) as u8) == (7 - m8) as u8);
    }
    assert forall|m: int|
        0 <= m < 8 * new_r.len() && m != idx implies (#[trigger] bitfield_bit(new_r, m)
            == bitfield_bit(old_r, m)) by {
        assert(0 <= m % 8 < 8) by (nonlinear_arith)
            requires
                m >= 0,
        ;
        assert(0 <= m / 8 < new_r.len()) by (nonlinear_arith)
            requires
                0 <= m < 8 * new_r.len(),
        ;
        if m / 8 == byte_i {
            assert(m % 8 != idx % 8) by (nonlinear_arith)
                requires
                    m != idx,
                    m / 8 == idx / 8,
                    m >= 0,
                    idx >= 0,
            ;
            let km: u8 = (m % 8) as u8;
            assert(km != m8);
            assert(km < 8 && m8 < 8 && km != m8 ==> (((b | (128u8 >> m8)) >> ((7 - km) as u8))
                & 1u8) == ((b >> ((7 - km) as u8)) & 1u8)) by (bit_vector);
            assert(((7 - (m % 8)) as u8) == (7 - km) as u8);
            assert(new_r[m / 8] == b | (128u8 >> m8));
        } else {
            assert(new_r[m / 8] == old_r[m / 8]);
        }
    }
}

} // verus!
