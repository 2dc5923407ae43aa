//! The chess model the library works on, and the bridge to `cozy_chess`,
//! which generates and plays moves.
use vstd::prelude::*;

verus! {

/// A side.
#[derive(Clone, Copy, Debug, PartialEq, Eq, Structural)]
pub enum Color {
    White,
    Black,
}

/// A kind of piece.
#[derive(Clone, Copy, Debug, PartialEq, Eq, Structural)]
pub enum Piece {
    Pawn,
    Knight,
    Bishop,
    Rook,
    Queen,
    King,
}

/// What stands on a square: nothing, or a piece of some side.
pub type Occupant = Option<(Piece, Color)>;

/// The rook files a side may still castle with.
#[derive(Clone, Copy, Debug, PartialEq, Eq, Structural)]
pub struct CastleRights {
    pub short: Option<u8>,
    pub long: Option<u8>,
}

/// A chess position: as much state as a FEN string holds.
/// Squares are numbered `rank * 8 + file`, a1 = 0, h8 = 63.
#[derive(Clone, Copy, Debug)]
pub struct Position {
    pub board: [Occupant; 64],
    pub side_to_move: Color,
    pub castle_rights: [CastleRights; 2],
    pub en_passant: Option<u8>,
    pub halfmove_clock: u8,
    pub fullmove_number: u16,
}

/// A move from one square to another, with the piece a pawn promotes to.
/// Castling is a king move onto its own rook.
#[derive(Clone, Copy, Debug, PartialEq, Eq, Structural)]
pub struct Move {
    pub from: u8,
    pub to: u8,
    pub promotion: Option<Piece>,
}

impl Color {
    /// The other side.
    pub open spec fn opp(self) -> Color {
        match self {
            Color::White => Color::Black,
            Color::Black => Color::White,
        }
    }

    /// The other side.
    pub fn flip(self) -> (r: Color)
        ensures
            r == self.opp(),
    {
        match self {
            Color::White => Color::Black,
            Color::Black => Color::White,
        }
    }
}

/// Number of occupied squares below `n`.
pub open spec fn occupied_count(board: Seq<Occupant>, n: int) -> nat
    decreases n,
{
    if n <= 0 {
        0
    } else {
        occupied_count(board, n - 1) + if board[n - 1] is Some { 1nat } else { 0nat }
    }
}

/// Number of castling rights still held, by both sides.
pub open spec fn rights_count(p: Position) -> nat {
    (if p.castle_rights@[0].short is Some { 1nat } else { 0nat }) + (if p.castle_rights@[0].long is Some { 1nat } else { 0nat })
        + (if p.castle_rights@[1].short is Some { 1nat } else { 0nat }) + (if p.castle_rights@[1].long is Some { 1nat } else { 0nat })
}

/// Pieces on the board plus castling rights: a measure that no move onto an
/// occupied square (a capture, or castling as king-takes-own-rook) can keep.
pub open spec fn material_measure(p: Position) -> nat {
    occupied_count(p.board@, 64) + rights_count(p)
}

/// The lowest square at or above `k` holding `target`, or 64 if none does.
pub open spec fn lowest_from(board: Seq<Occupant>, target: Occupant, k: int) -> int
    decreases 64 - k,
{
    if k >= 64 {
        64
    } else if board[k] == target {
        k
    } else {
        lowest_from(board, target, k + 1)
    }
}

impl Piece {
    /// The piece with index `i` in the order pawn, knight, bishop, rook, queen, king.
    pub open spec fn of_index(i: int) -> Piece {
        if i == 0 {
            Piece::Pawn
        } else if i == 1 {
            Piece::Knight
        } else if i == 2 {
            Piece::Bishop
        } else if i == 3 {
            Piece::Rook
        } else if i == 4 {
            Piece::Queen
        } else {
            Piece::King
        }
    }

    /// The piece with index `i` in the order pawn, knight, bishop, rook, queen, king.
    pub fn from_index(i: usize) -> (r: Piece)
        requires
            i < 6,
        ensures
            r == Piece::of_index(i as int),
    {
        if i == 0 {
            Piece::Pawn
        } else if i == 1 {
            Piece::Knight
        } else if i == 2 {
            Piece::Bishop
        } else if i == 3 {
            Piece::Rook
        } else if i == 4 {
            Piece::Queen
        } else {
            Piece::King
        }
    }
}

impl Color {
    /// White for 0, black otherwise.
    pub open spec fn of_index(i: int) -> Color {
        if i == 0 {
            Color::White
        } else {
            Color::Black
        }
    }

    /// White for 0, black for 1.
    pub fn from_index(i: usize) -> (r: Color)
        requires
            i < 2,
        ensures
            r == Color::of_index(i as int),
    {
        if i == 0 {
            Color::White
        } else {
            Color::Black
        }
    }
}

impl Position {
    /// The side has a king on the board.
    pub open spec fn has_king(&self, c: Color) -> bool {
        exists|sq: int| 0 <= sq < 64 && #[trigger] self.board@[sq] == Some((Piece::King, c))
    }

    /// The square of the side's king (the lowest one, should there be several).
    pub open spec fn king_square(&self, c: Color) -> int {
        lowest_from(self.board@, Some((Piece::King, c)), 0)
    }

    /// Fields in range and a king for each side, as every board `cozy_chess`
    /// builds has.
    pub open spec fn wf(&self) -> bool {
        &&& self.has_king(Color::White)
        &&& self.has_king(Color::Black)
        &&& forall|c: int| 0 <= c < 2 ==> {
            &&& (#[trigger] self.castle_rights@[c]).short matches Some(f) ==> f < 8
            &&& self.castle_rights@[c].long matches Some(f) ==> f < 8
        }
        &&& self.en_passant matches Some(sq) ==> sq < 64
    }

    /// The piece on `sq`, if any.
    pub fn piece_on(&self, sq: u8) -> (r: Option<Piece>)
        requires
            sq < 64,
        ensures
            r == (match self.board@[sq as int] {
                Some((p, _)) => Some(p),
                None => None,
            }),
    {
        match self.board[sq as usize] {
            Some((p, _)) => Some(p),
            None => None,
        }
    }

    /// The square of the side's king.
    pub fn king(&self, c: Color) -> (r: u8)
        requires
            self.has_king(c),
        ensures
            r as int == self.king_square(c),
            r < 64,
            self.board@[r as int] == Some((Piece::King, c)),
    {
        let ghost target = Some((Piece::King, c));
        let mut sq: usize = 0;
        proof {
            let w = choose|w: int| 0 <= w < 64 && self.board@[w] == Some((Piece::King, c));
            lemma_lowest_from_found(self.board@, target, 0, w);
        }
        while sq < 64
            invariant
                sq <= 64,
                target == Some((Piece::King, c)),
                lowest_from(self.board@, target, sq as int) == lowest_from(self.board@, target, 0),
                lowest_from(self.board@, target, 0) < 64,
            decreases 64 - sq,
        {
            if let Some((Piece::King, col)) = self.board[sq] {
                if col == c {
                    return sq as u8;
                }
            }
            sq = sq + 1;
        }
        sq as u8
    }
}

/// A square holding `target` at or above `k` bounds the lowest one.
pub proof fn lemma_lowest_from_found(board: Seq<Occupant>, target: Occupant, k: int, w: int)
    requires
        0 <= k <= w < 64,
        board[w] == target,
    ensures
        k <= lowest_from(board, target, k) <= w,
        board[lowest_from(board, target, k)] == target,
    decreases w - k,
{
    if board[k] != target {
        lemma_lowest_from_found(board, target, k + 1, w);
    }
}

} // verus!
