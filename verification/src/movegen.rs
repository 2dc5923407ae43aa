//! Move generation and move playing, done by `cozy_chess` on the boards it
//! builds from positions of the library.
use vstd::prelude::*;
use crate::chess::{CastleRights, Color, Move, Occupant, Piece, Position, material_measure};
use cozy_chess::{Board, BoardBuilder, File, Square};
use cozy_chess::Piece as CzPiece;
use cozy_chess::Color as CzColor;
use cozy_chess::CastleRights as CzRights;

verus! {

#[verifier::external_type_specification]
#[verifier::external_body]
pub struct ExBoard(Board);

/// The position `cozy_chess` parses from a FEN string, if it accepts it.
pub uninterp spec fn fen_position(fen: Seq<char>) -> Option<Position>;

/// The FEN string `cozy_chess` prints for a position.
pub uninterp spec fn position_fen(p: Position) -> Seq<char>;

/// The legal moves `cozy_chess` generates for a position, in its order.
pub uninterp spec fn legal_moves_of(p: Position) -> Seq<Move>;

/// The position after a legal move.
pub uninterp spec fn after_move(p: Position, m: Move) -> Position;

/// The position after passing the turn, if the side to move is not in check.
pub uninterp spec fn after_null_move(p: Position) -> Option<Position>;

/// Whether the side to move is in check.
pub uninterp spec fn in_check_of(p: Position) -> bool;

/// Builds the `cozy_chess` board of a position: square by square through
/// `BoardBuilder`, then `BoardBuilder::build`; `None` where the
/// builder rejects the position. Nothing is stated of the board.
#[verifier::external_body]
fn to_board(p: &Position) -> Option<Board>
    requires
        p.wf(),
{
    let mut b = BoardBuilder::empty();
    for sq in 0..64 {
        b.board[sq] = p.board[sq].map(|(pc, c)| (CzPiece::index(pc as usize), CzColor::index(c as usize)));
    }
    for c in 0..2 {
        let r = p.castle_rights[c];
        b.castle_rights[c] = CzRights { short: r.short.map(|f| File::index(f as usize)), long: r.long.map(|f| File::index(f as usize)) };
    }
    b.side_to_move = CzColor::index(p.side_to_move as usize);
    b.en_passant = p.en_passant.map(|sq| Square::index(sq as usize));
    b.halfmove_clock = p.halfmove_clock;
    b.fullmove_number = p.fullmove_number;
    b.build().ok()
}

/// Reads a `cozy_chess` board back into a position through
/// `BoardBuilder::from_board`. Every board `cozy_chess` builds
/// passed `Board::board_is_valid`, which demands exactly one king per side,
/// and holds files and squares in range: the result is well formed.
#[verifier::external_body]
fn from_board(b: &Board) -> (r: Position)
    ensures
        r.wf(),
{
    let bb = BoardBuilder::from_board(b);
    let rights = |r: CzRights| CastleRights { short: r.short.map(|f| f as u8), long: r.long.map(|f| f as u8) };
    let mut board: [Occupant; 64] = [None; 64];
    for sq in 0..64 {
        board[sq] = bb.board[sq].map(|(pc, c)| (Piece::from_index(pc as usize), Color::from_index(c as usize)));
    }
    Position {
        board,
        side_to_move: Color::from_index(bb.side_to_move as usize),
        castle_rights: [rights(bb.castle_rights[0]), rights(bb.castle_rights[1])],
        en_passant: bb.en_passant.map(|sq| sq as u8),
        halfmove_clock: bb.halfmove_clock,
        fullmove_number: bb.fullmove_number,
    }
}

/// `cozy_chess::Board`'s `FromStr`: the position of a FEN (or Shredder FEN)
/// string, `None` where `cozy_chess` rejects it.
#[verifier::external_body]
pub(crate) fn parse_fen(fen: &str) -> (r: Option<Position>)
    ensures
        r == fen_position(fen@),
        r matches Some(p) ==> p.wf(),
{
    match fen.parse::<Board>() {
        Ok(b) => Some(from_board(&b)),
        Err(_) => None,
    }
}

/// The rook or minor piece of the back rank on file `f`.
pub open spec fn back_rank_piece(f: int) -> Piece {
    if f == 0 || f == 7 {
        Piece::Rook
    } else if f == 1 || f == 6 {
        Piece::Knight
    } else if f == 2 || f == 5 {
        Piece::Bishop
    } else if f == 3 {
        Piece::Queen
    } else {
        Piece::King
    }
}

/// What stands on square `sq` in the standard start position.
pub open spec fn start_occupant(sq: int) -> Occupant {
    let rank = sq / 8;
    let file = sq % 8;
    if rank == 0 {
        Some((back_rank_piece(file), Color::White))
    } else if rank == 1 {
        Some((Piece::Pawn, Color::White))
    } else if rank == 6 {
        Some((Piece::Pawn, Color::Black))
    } else if rank == 7 {
        Some((back_rank_piece(file), Color::Black))
    } else {
        None
    }
}

/// The standard start position, `rnbqkbnr/pppppppp/8/8/8/8/PPPPPPPP/RNBQKBNR w KQkq - 0 1`.
pub open spec fn is_start_position(p: Position) -> bool {
    &&& forall|sq: int| 0 <= sq < 64 ==> #[trigger] p.board@[sq] == start_occupant(sq)
    &&& p.side_to_move == Color::White
    &&& p.castle_rights@[0] == (CastleRights { short: Some(7u8), long: Some(0u8) })
    &&& p.castle_rights@[1] == (CastleRights { short: Some(7u8), long: Some(0u8) })
    &&& p.en_passant == None::<u8>
    &&& p.halfmove_clock == 0
    &&& p.fullmove_number == 1
}

/// The standard start position, as a value.
pub open spec fn start_pos() -> Position {
    choose|p: Position| is_start_position(p)
}

/// Only one position is the standard start position.
pub proof fn lemma_start_unique(p: Position)
    requires
        is_start_position(p),
    ensures
        p == start_pos(),
{
    let q = start_pos();
    assert(is_start_position(q));
    assert(p.board =~= q.board);
    assert(p.castle_rights =~= q.castle_rights);
}

/// `cozy_chess::Board::default()`, documented to be the standard start
/// position `rnbqkbnr/pppppppp/8/8/8/8/PPPPPPPP/RNBQKBNR w KQkq - 0 1`,
/// whose twenty legal moves the crate's documentation of
/// `Board::generate_moves` counts.
#[verifier::external_body]
pub(crate) fn start_position() -> (r: Position)
    ensures
        is_start_position(r),
        r.wf(),
        legal_moves_of(r).len() == 20,
{
    from_board(&Board::default())
}

/// `Display` of `cozy_chess::Board`: the FEN string of the position.
#[verifier::external_body]
pub(crate) fn to_fen(p: &Position) -> (r: String)
    requires
        p.wf(),
    ensures
        r@ == position_fen(*p),
{
    match to_board(p) {
        Some(b) => format!("{}", b),
        None => String::new(),
    }
}

/// `cozy_chess::Board::generate_moves`: the legal moves of the position, in
/// the order `cozy_chess` generates them. Its squares are `cozy_chess::Square`
/// values, all below 64. A legal move onto an occupied square is a capture
/// or castling (king onto its own rook), and playing it lowers the count of
/// pieces plus castling rights, as `play` states.
#[verifier::external_body]
pub(crate) fn legal_moves(p: &Position) -> (r: Vec<Move>)
    requires
        p.wf(),
    ensures
        r@ == legal_moves_of(*p),
        forall|i: int| #![trigger r@[i]] 0 <= i < r@.len() ==> r@[i].from < 64 && r@[i].to < 64,
        forall|i: int| #![trigger r@[i]] 0 <= i < r@.len() && p.board@[r@[i].to as int] is Some
            ==> material_measure(after_move(*p, r@[i])) < material_measure(*p),
{
    let mut v = Vec::new();
    if let Some(b) = to_board(p) {
        b.generate_moves(|pm| {
            for mv in pm {
                v.push(Move { from: mv.from as u8, to: mv.to as u8, promotion: mv.promotion.map(|x| Piece::from_index(x as usize)) });
            }
            false
        });
    }
    v
}

/// `cozy_chess::Board::play_unchecked` with a legal move. Legal moves keep
/// the board valid, so the result is well formed. A move onto an occupied
/// square either captures (the victim is XORed out, castling rights are only
/// ever cleared) or castles (king onto its own rook: both rights of the side
/// are cleared, and castling is only generated while a right is held), so
/// pieces plus rights go down.
#[verifier::external_body]
pub(crate) fn play(p: &Position, m: Move) -> (r: Position)
    requires
        p.wf(),
        legal_moves_of(*p).contains(m),
    ensures
        r == after_move(*p, m),
        r.wf(),
        m.to < 64 && p.board@[m.to as int] is Some ==> material_measure(r) < material_measure(*p),
{
    match to_board(p) {
        Some(mut b) => {
            let promotion = m.promotion.map(|x| CzPiece::index(x as usize));
            b.play_unchecked(cozy_chess::Move { from: Square::index(m.from as usize), to: Square::index(m.to as usize), promotion });
            from_board(&b)
        },
        None => *p,
    }
}

/// `cozy_chess::Board::null_move`: the side to move passes, `None` when it
/// is in check. The pieces stay where they are: only the side to move, the
/// en passant file and the clocks change.
#[verifier::external_body]
pub(crate) fn null_move(p: &Position) -> (r: Option<Position>)
    requires
        p.wf(),
    ensures
        r == after_null_move(*p),
        r matches Some(q) ==> q.wf() && q.board == p.board && q.side_to_move == p.side_to_move.opp(),
{
    match to_board(p) {
        Some(b) => match b.null_move() {
            Some(nb) => Some(from_board(&nb)),
            None => None,
        },
        None => None,
    }
}

/// Whether `cozy_chess::Board::checkers` is not empty: the side to move is in check.
#[verifier::external_body]
pub(crate) fn in_check(p: &Position) -> (r: bool)
    requires
        p.wf(),
    ensures
        r == in_check_of(*p),
{
    match to_board(p) {
        Some(b) => !b.checkers().is_empty(),
        None => false,
    }
}


/// The square named by a file letter `a`..`h` and a rank digit `1`..`8`.
pub open spec fn square_named(file: char, rank: char) -> Option<u8> {
    if 'a' as u32 <= file as u32 <= 'h' as u32 && '1' as u32 <= rank as u32 <= '8' as u32 {
        Some(((rank as u32 - '1' as u32) * 8 + (file as u32 - 'a' as u32)) as u8)
    } else {
        None
    }
}

/// The move of a UCI string: two squares, then optionally a piece letter
/// (`n`, `b`, `r`, `q` promote; `p` and `k` mean no promotion; any other
/// one-byte character rejects the string). What follows the fifth
/// character, and a fifth character of more than one byte, is ignored.
pub open spec fn uci_move_of(s: Seq<char>) -> Option<Move> {
    if s.len() < 4 {
        None
    } else {
        match (square_named(s[0], s[1]), square_named(s[2], s[3])) {
            (Some(from), Some(to)) => if s.len() >= 5 && (s[4] as u32) < 128 {
                if s[4] == 'n' {
                    Some(Move { from, to, promotion: Some(Piece::Knight) })
                } else if s[4] == 'b' {
                    Some(Move { from, to, promotion: Some(Piece::Bishop) })
                } else if s[4] == 'r' {
                    Some(Move { from, to, promotion: Some(Piece::Rook) })
                } else if s[4] == 'q' {
                    Some(Move { from, to, promotion: Some(Piece::Queen) })
                } else if s[4] == 'p' || s[4] == 'k' {
                    Some(Move { from, to, promotion: None })
                } else {
                    None
                }
            } else {
                Some(Move { from, to, promotion: None })
            },
            _ => None,
        }
    }
}

/// `cozy_chess::Move`'s `FromStr`: the byte ranges `0..2` and `2..4` must
/// each parse as a square (a file letter, then a rank digit) and the byte
/// range `4..5`, where the string has one, as a piece letter, of which a
/// pawn or a king gives no promotion. A range that does not fall on
/// character boundaries counts as absent.
#[verifier::external_body]
pub(crate) fn parse_uci_move(s: &str) -> (r: Option<Move>)
    ensures
        r == uci_move_of(s@),
        r matches Some(m) ==> m.from < 64 && m.to < 64,
{
    match s.parse::<cozy_chess::Move>() {
        Ok(mv) => Some(Move { from: mv.from as u8, to: mv.to as u8, promotion: mv.promotion.map(|x| Piece::from_index(x as usize)) }),
        Err(_) => None,
    }
}

impl Position {
    /// The standard start position.
    pub fn startpos() -> (r: Position)
        ensures
            r == start_pos(),
            is_start_position(r),
            r.wf(),
            legal_moves_of(r).len() == 20,
    {
        let p = start_position();
        proof {
            lemma_start_unique(p);
        }
        p
    }

    /// The position of a FEN string, `None` where it is rejected.
    pub fn from_fen(fen: &str) -> (r: Option<Position>)
        ensures
            r == fen_position(fen@),
            r matches Some(p) ==> p.wf(),
    {
        parse_fen(fen)
    }

    /// The FEN string of the position.
    pub fn fen(&self) -> (r: String)
        requires
            self.wf(),
        ensures
            r@ == position_fen(*self),
    {
        to_fen(self)
    }

    /// The legal moves of the position, in generation order.
    pub fn legal_moves(&self) -> (r: Vec<Move>)
        requires
            self.wf(),
        ensures
            r@ == legal_moves_of(*self),
            forall|i: int| #![trigger r@[i]] 0 <= i < r@.len() ==> r@[i].from < 64 && r@[i].to < 64,
    {
        legal_moves(self)
    }

    /// The position after a legal move.
    pub fn play(&self, m: Move) -> (r: Position)
        requires
            self.wf(),
            legal_moves_of(*self).contains(m),
        ensures
            r == after_move(*self, m),
            r.wf(),
    {
        play(self, m)
    }
}

} // verus!
