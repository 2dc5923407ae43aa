//! HalfKP feature set: (our king square, piece square, piece type, piece
//! colour), 64 * 64 * 5 * 2 = 40960 features, kings excluded.
use vstd::prelude::*;
use crate::chess::{Color, Piece, Position};
use crate::accumulator::{minus};

verus! {

/// 64 * 10 * 64 with padding; 40960 are used.
pub const FEATURE_SIZE: usize = 41024;
pub const INPUT_SIZE: usize = 40960;
pub const KING_BUCKETS: usize = 64;
/// Pawn, knight, bishop, rook, queen (the king is not encoded).
pub const PIECE_TYPES: usize = 5;
pub const COLORS: usize = 2;

/// Index of a non-king piece type: pawn 0 .. queen 4.
pub open spec fn piece_type_index(p: Piece) -> int {
    match p {
        Piece::Pawn => 0,
        Piece::Knight => 1,
        Piece::Bishop => 2,
        Piece::Rook => 3,
        Piece::Queen => 4,
        Piece::King => 5,
    }
}

/// White 0, black 1.
pub open spec fn color_index(c: Color) -> int {
    match c {
        Color::White => 0,
        Color::Black => 1,
    }
}

/// HalfKP index: `piece_square + (piece_type * 2 + piece_color + king_square * 10) * 64`.
pub open spec fn halfkp(king_sq: int, piece_sq: int, piece: Piece, color: Color) -> int {
    piece_sq + (piece_type_index(piece) * 2 + color_index(color) + king_sq * 10) * 64
}

/// HalfKP feature index of a piece seen from a king square.
pub fn halfkp_index(king_sq: u8, piece_sq: u8, piece: Piece, color: Color) -> (r: usize)
    requires
        king_sq < 64,
        piece_sq < 64,
        piece != Piece::King,
    ensures
        r == halfkp(king_sq as int, piece_sq as int, piece, color),
        r < 40960,
{
    let p_type: usize = match piece {
        Piece::Pawn => 0,
        Piece::Knight => 1,
        Piece::Bishop => 2,
        Piece::Rook => 3,
        Piece::Queen => 4,
        Piece::King => 5,
    };
    let p_color: usize = match color {
        Color::White => 0,
        Color::Black => 1,
    };
    let p_idx = p_type * 2 + p_color;
    let ks = king_sq as usize;
    let ps = piece_sq as usize;
    ps + (p_idx + ks * 10) * 64
}

/// A HalfKP index can be read back: the piece's square is the index modulo
/// 64; then come, in steps of 64, the piece code (pawn, knight, bishop, rook,
/// queen times two, plus one for black) modulo 10; the king square is the
/// index divided by 640. Distinct inputs give distinct indices below 40960.
pub proof fn lemma_halfkp_decode(king_sq: int, piece_sq: int, piece: Piece, color: Color)
    requires
        0 <= king_sq < 64,
        0 <= piece_sq < 64,
        piece != Piece::King,
    ensures
        ({
            let x = halfkp(king_sq, piece_sq, piece, color);
            let code: int = (match piece {
                Piece::Pawn => 0int,
                Piece::Knight => 2,
                Piece::Bishop => 4,
                Piece::Rook => 6,
                _ => 8,
            }) + (if color == Color::White { 0int } else { 1 });
            &&& 0 <= x < 40960
            &&& x % 64 == piece_sq
            &&& (x / 64) % 10 == code
            &&& x / 640 == king_sq
        }),
{
    let code = piece_type_index(piece) * 2 + color_index(color);
    let x = halfkp(king_sq, piece_sq, piece, color);
    assert(x == piece_sq + code * 64 + king_sq * 640);
    assert(x % 64 == piece_sq && x / 64 == code + king_sq * 10) by (nonlinear_arith)
        requires
            x == piece_sq + code * 64 + king_sq * 640,
            0 <= piece_sq < 64,
            0 <= code < 10,
            0 <= king_sq < 64,
    ;
    assert((code + king_sq * 10) % 10 == code && (code + king_sq * 10) / 10 == king_sq) by (nonlinear_arith)
        requires
            0 <= code < 10,
            0 <= king_sq,
    ;
    assert(x / 640 == king_sq) by (nonlinear_arith)
        requires
            x == piece_sq + code * 64 + king_sq * 640,
            0 <= piece_sq < 64,
            0 <= code < 10,
            0 <= king_sq < 64,
    ;
}

/// Mirroring a square's rank keeps its file, maps rank `r` to `7 - r`, and
/// done twice gives the square back.
pub proof fn lemma_flip_rank(sq: int)
    requires
        0 <= sq < 64,
    ensures
        0 <= flip_rank(sq) < 64,
        flip_rank(sq) % 8 == sq % 8,
        flip_rank(sq) / 8 == 7 - sq / 8,
        flip_rank(flip_rank(sq)) == sq,
{
}

/// The square with its rank mirrored.
pub open spec fn flip_rank(sq: int) -> int {
    (7 - sq / 8) * 8 + sq % 8
}

/// A square as seen from a perspective: black sees the board rank-mirrored.
pub open spec fn oriented(sq: int, perspective: Color) -> int {
    match perspective {
        Color::White => sq,
        Color::Black => flip_rank(sq),
    }
}

/// A square as seen from a perspective.
pub fn orient_square(sq: u8, perspective: Color) -> (r: u8)
    requires
        sq < 64,
    ensures
        r == oriented(sq as int, perspective),
        r < 64,
{
    match perspective {
        Color::White => sq,
        Color::Black => (7 - sq / 8) * 8 + sq % 8,
    }
}

/// The colour a piece is encoded with: from black's perspective colours swap.
pub open spec fn feature_color(c: Color, perspective: Color) -> Color {
    match perspective {
        Color::White => c,
        Color::Black => c.opp(),
    }
}

/// Colour of feature group `g` (0..10): white for the first five groups.
pub open spec fn group_color(g: int) -> Color {
    if g < 5 {
        Color::White
    } else {
        Color::Black
    }
}

/// Piece of feature group `g` (0..10): pawn, knight, bishop, rook, queen.
pub open spec fn group_piece(g: int) -> Piece {
    Piece::of_index(g % 5)
}

/// Features of group `g` from the squares below `n`, in square order.
pub open spec fn group_features(p: Position, perspective: Color, g: int, n: int) -> Seq<usize>
    decreases n,
{
    if n <= 0 {
        Seq::empty()
    } else {
        let rest = group_features(p, perspective, g, n - 1);
        if p.board@[n - 1] == Some((group_piece(g), group_color(g))) {
            rest.push(
                halfkp(
                    oriented(p.king_square(perspective), perspective),
                    oriented(n - 1, perspective),
                    group_piece(g),
                    feature_color(group_color(g), perspective),
                ) as usize,
            )
        } else {
            rest
        }
    }
}

/// Features of the first `g` groups, one after the other.
pub open spec fn groups_upto(p: Position, perspective: Color, g: int) -> Seq<usize>
    decreases g,
{
    if g <= 0 {
        Seq::empty()
    } else {
        groups_upto(p, perspective, g - 1) + group_features(p, perspective, g - 1, 64)
    }
}

/// The active features of a position from one perspective: for white then
/// black, for pawn, knight, bishop, rook, queen, the occupied squares in
/// ascending order, each as its HalfKP index relative to the perspective's
/// (oriented) king.
pub open spec fn active(p: Position, perspective: Color) -> Seq<usize> {
    groups_upto(p, perspective, 10)
}

/// Extract active feature indices for a given perspective.
pub fn active_features(board: &Position, perspective: Color) -> (r: Vec<usize>)
    requires
        board.has_king(perspective),
    ensures
        r@ == active(*board, perspective),
        forall|i: int| 0 <= i < r@.len() ==> #[trigger] r@[i] < INPUT_SIZE,
{
    let mut features: Vec<usize> = Vec::new();
    let king_sq_raw = board.king(perspective);
    let king_sq = orient_square(king_sq_raw, perspective);
    let mut g: usize = 0;
    while g < 10
        invariant
            g <= 10,
            king_sq == oriented(board.king_square(perspective), perspective),
            king_sq < 64,
            features@ == groups_upto(*board, perspective, g as int),
            forall|i: int| 0 <= i < features@.len() ==> #[trigger] features@[i] < INPUT_SIZE,
        decreases 10 - g,
    {
        let color = if g < 5 { Color::White } else { Color::Black };
        let piece = Piece::from_index(g % 5);
        let feat_color = match perspective {
            Color::White => color,
            Color::Black => color.flip(),
        };
        let ghost before = features@;
        let mut sq: usize = 0;
        while sq < 64
            invariant
                sq <= 64,
                g < 10,
                color == group_color(g as int),
                piece == group_piece(g as int),
                piece != Piece::King,
                feat_color == feature_color(color, perspective),
                king_sq == oriented(board.king_square(perspective), perspective),
                king_sq < 64,
                features@ == before + group_features(*board, perspective, g as int, sq as int),
                forall|i: int| 0 <= i < features@.len() ==> #[trigger] features@[i] < INPUT_SIZE,
            decreases 64 - sq,
        {
            let here = board.board[sq];
            if let Some((pc, c)) = here {
                if pc == piece && c == color {
                    let osq = orient_square(sq as u8, perspective);
                    let idx = halfkp_index(king_sq, osq, piece, feat_color);
                    features.push(idx);
                }
            }
            proof {
                let gf = group_features(*board, perspective, g as int, sq as int);
                assert(before + gf.push(halfkp(king_sq as int, oriented(sq as int, perspective), piece, feat_color) as usize) =~= (before + gf).push(halfkp(king_sq as int, oriented(sq as int, perspective), piece, feat_color) as usize));
            }
            sq = sq + 1;
        }
        g = g + 1;
    }
    features
}

/// For incremental update: the features added and removed between two
/// positions, each in the order of the position it comes from.
pub fn diff_features(old_board: &Position, new_board: &Position, perspective: Color) -> (r: (Vec<usize>, Vec<usize>))
    requires
        old_board.has_king(perspective),
        new_board.has_king(perspective),
    ensures
        r.0@ == minus(active(*new_board, perspective), active(*old_board, perspective)),
        r.1@ == minus(active(*old_board, perspective), active(*new_board, perspective)),
{
    let old = active_features(old_board, perspective);
    let new = active_features(new_board, perspective);
    let added = only_in(&new, &old);
    let removed = only_in(&old, &new);
    (added, removed)
}

/// Whether `v` holds `x`.
fn holds(v: &Vec<usize>, x: usize) -> (r: bool)
    ensures
        r == v@.contains(x),
{
    let mut i: usize = 0;
    while i < v.len()
        invariant
            i <= v@.len(),
            forall|k: int| 0 <= k < i ==> v@[k] != x,
        decreases v@.len() - i,
    {
        if v[i] == x {
            return true;
        }
        i = i + 1;
    }
    false
}

/// The elements of `s` that `t` does not hold, in the order of `s`.
fn only_in(s: &Vec<usize>, t: &Vec<usize>) -> (r: Vec<usize>)
    ensures
        r@ == minus(s@, t@),
{
    let mut out: Vec<usize> = Vec::new();
    let mut i: usize = 0;
    while i < s.len()
        invariant
            i <= s@.len(),
            out@ == minus(s@.subrange(0, i as int), t@),
        decreases s@.len() - i,
    {
        let f = s[i];
        let present = holds(t, f);
        assert(s@.subrange(0, i + 1).drop_last() =~= s@.subrange(0, i as int));
        if !present {
            out.push(f);
        }
        i = i + 1;
    }
    assert(s@.subrange(0, s@.len() as int) =~= s@);
    out
}


proof fn lemma_group_same_board(p: Position, q: Position, perspective: Color, g: int, n: int)
    requires
        p.board@ == q.board@,
    ensures
        group_features(p, perspective, g, n) == group_features(q, perspective, g, n),
    decreases n,
{
    if n > 0 {
        lemma_group_same_board(p, q, perspective, g, n - 1);
    }
}

proof fn lemma_groups_same_board(p: Position, q: Position, perspective: Color, g: int)
    requires
        p.board@ == q.board@,
    ensures
        groups_upto(p, perspective, g) == groups_upto(q, perspective, g),
    decreases g,
{
    if g > 0 {
        lemma_groups_same_board(p, q, perspective, g - 1);
        lemma_group_same_board(p, q, perspective, g - 1, 64);
    }
}

/// The active features depend on the pieces alone.
pub proof fn lemma_active_same_board(p: Position, q: Position, perspective: Color)
    requires
        p.board@ == q.board@,
    ensures
        active(p, perspective) == active(q, perspective),
{
    lemma_groups_same_board(p, q, perspective, 10);
}

/// The position of a feature in the order `active` lists features: group
/// times 64 plus the (unoriented) square, read back from the index.
pub open spec fn feature_key(x: int, perspective: Color) -> int {
    let pidx = (x / 64) % 10;
    let fcol = pidx % 2;
    let col = match perspective {
        Color::White => fcol,
        Color::Black => 1 - fcol,
    };
    (col * 5 + pidx / 2) * 64 + oriented(x % 64, perspective)
}

proof fn lemma_decode(osq: int, pidx: int, k: int)
    requires
        0 <= osq < 64,
        0 <= pidx < 10,
        0 <= k < 64,
    ensures
        (osq + (pidx + k * 10) * 64) % 64 == osq,
        ((osq + (pidx + k * 10) * 64) / 64) % 10 == pidx,
{
    let q = pidx + k * 10;
    vstd::arithmetic::div_mod::lemma_fundamental_div_mod_converse(osq + q * 64, 64, q, osq);
    vstd::arithmetic::div_mod::lemma_fundamental_div_mod_converse(q, 10, k, pidx);
}

proof fn lemma_oriented_involution(sq: int, perspective: Color)
    requires
        0 <= sq < 64,
    ensures
        0 <= oriented(sq, perspective) < 64,
        oriented(oriented(sq, perspective), perspective) == sq,
{
}

proof fn lemma_key_of_feature(p: Position, perspective: Color, g: int, sq: int)
    requires
        0 <= g < 10,
        0 <= sq < 64,
        p.has_king(perspective),
    ensures
        ({
            let x = halfkp(
                oriented(p.king_square(perspective), perspective),
                oriented(sq, perspective),
                group_piece(g),
                feature_color(group_color(g), perspective),
            );
            &&& 0 <= x < 40960
            &&& feature_key(x, perspective) == g * 64 + sq
            &&& (x as usize) as int == x
        }),
{
    let w = choose|w: int| 0 <= w < 64 && p.board@[w] == Some((Piece::King, perspective));
    crate::chess::lemma_lowest_from_found(p.board@, Some((Piece::King, perspective)), 0, w);
    let k = oriented(p.king_square(perspective), perspective);
    let osq = oriented(sq, perspective);
    lemma_oriented_involution(sq, perspective);
    lemma_oriented_involution(p.king_square(perspective), perspective);
    let pidx = piece_type_index(group_piece(g)) * 2 + color_index(feature_color(group_color(g), perspective));
    lemma_decode(osq, pidx, k);
}

proof fn lemma_group_sorted(p: Position, perspective: Color, g: int, n: int)
    requires
        0 <= g < 10,
        0 <= n <= 64,
        p.has_king(perspective),
    ensures
        forall|i: int| 0 <= i < group_features(p, perspective, g, n).len() ==> {
            &&& g * 64 <= #[trigger] feature_key(group_features(p, perspective, g, n)[i] as int, perspective) < g * 64 + n
        },
        forall|i: int, j: int| 0 <= i < j < group_features(p, perspective, g, n).len() ==>
            feature_key(#[trigger] group_features(p, perspective, g, n)[i] as int, perspective)
                < feature_key(#[trigger] group_features(p, perspective, g, n)[j] as int, perspective),
    decreases n,
{
    if n > 0 {
        lemma_group_sorted(p, perspective, g, n - 1);
        lemma_key_of_feature(p, perspective, g, n - 1);
        let rest = group_features(p, perspective, g, n - 1);
        let s = group_features(p, perspective, g, n);
        if p.board@[n - 1] == Some((group_piece(g), group_color(g))) {
            let x = halfkp(
                oriented(p.king_square(perspective), perspective),
                oriented(n - 1, perspective),
                group_piece(g),
                feature_color(group_color(g), perspective),
            );
            assert(s == rest.push(x as usize));
            assert forall|i: int| 0 <= i < s.len() implies g * 64 <= #[trigger] feature_key(s[i] as int, perspective) < g * 64 + n by {
                if i < rest.len() {
                    assert(s[i] == rest[i]);
                }
            }
            assert forall|i: int, j: int| 0 <= i < j < s.len() implies
                feature_key(#[trigger] s[i] as int, perspective) < feature_key(#[trigger] s[j] as int, perspective) by {
                assert(s[i] == rest[i]);
                if j < rest.len() {
                    assert(s[j] == rest[j]);
                }
            }
        } else {
            assert(s == rest);
        }
    }
}

proof fn lemma_groups_sorted(p: Position, perspective: Color, g: int)
    requires
        0 <= g <= 10,
        p.has_king(perspective),
    ensures
        forall|i: int| 0 <= i < groups_upto(p, perspective, g).len() ==>
            0 <= #[trigger] feature_key(groups_upto(p, perspective, g)[i] as int, perspective) < g * 64,
        forall|i: int, j: int| 0 <= i < j < groups_upto(p, perspective, g).len() ==>
            feature_key(#[trigger] groups_upto(p, perspective, g)[i] as int, perspective)
                < feature_key(#[trigger] groups_upto(p, perspective, g)[j] as int, perspective),
    decreases g,
{
    if g > 0 {
        lemma_groups_sorted(p, perspective, g - 1);
        lemma_group_sorted(p, perspective, g - 1, 64);
        let a = groups_upto(p, perspective, g - 1);
        let b = group_features(p, perspective, g - 1, 64);
        let s = groups_upto(p, perspective, g);
        assert(s == a + b);
        assert forall|i: int| 0 <= i < s.len() implies 0 <= #[trigger] feature_key(s[i] as int, perspective) < g * 64 by {
            if i >= a.len() {
                assert(s[i] == b[i - a.len()]);
            }
        }
        assert forall|i: int, j: int| 0 <= i < j < s.len() implies
            feature_key(#[trigger] s[i] as int, perspective) < feature_key(#[trigger] s[j] as int, perspective) by {
            if j < a.len() {
            } else if i < a.len() {
                assert(s[j] == b[j - a.len()]);
                assert(g * 64 - 64 <= feature_key(b[j - a.len()] as int, perspective));
            } else {
                assert(s[i] == b[i - a.len()]);
                assert(s[j] == b[j - a.len()]);
            }
        }
    }
}

/// No feature is listed twice: the active features of a position are all
/// different.
pub proof fn lemma_active_no_duplicates(p: Position, perspective: Color)
    requires
        p.has_king(perspective),
    ensures
        active(p, perspective).no_duplicates(),
{
    lemma_groups_sorted(p, perspective, 10);
    let s = active(p, perspective);
    assert forall|i: int, j: int| 0 <= i < s.len() && 0 <= j < s.len() && i != j implies s[i] != s[j] by {
        if i < j {
            assert(feature_key(s[i] as int, perspective) < feature_key(s[j] as int, perspective));
        } else {
            assert(feature_key(s[j] as int, perspective) < feature_key(s[i] as int, perspective));
        }
    }
}

} // verus!
