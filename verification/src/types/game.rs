//! Pieces, colours and positions held as one bitboard per (colour, kind).
use vstd::prelude::*;

verus! {

/// A square index: `rank * 8 + file`, with rank 1 and file a as 0.
pub type Square = u8;

/// Whether bit `square` of the bitboard `board` is set.
pub open spec fn has_square(board: u64, square: int) -> bool {
    board & (1u64 << (square as u64)) != 0
}

#[derive(Clone, Copy, Debug, PartialEq, Eq, Structural)]
pub enum Color {
    White,
    Black,
}

impl Color {
    /// The colour's position in the tables: White is 0, Black is 1.
    pub open spec fn idx(self) -> int {
        match self {
            Color::White => 0,
            Color::Black => 1,
        }
    }

    pub(crate) fn index(self) -> (r: usize)
        ensures
            r == self.idx(),
    {
        match self {
            Color::White => 0,
            Color::Black => 1,
        }
    }
}

/// The colour at table position `i` (0 is White, 1 is Black).
pub open spec fn color_at(i: int) -> Color {
    if i == 0 {
        Color::White
    } else {
        Color::Black
    }
}

pub(crate) fn color_from_index(i: usize) -> (c: Color)
    requires
        i < 2,
    ensures
        c == color_at(i as int),
        c.idx() == i,
{
    if i == 0 {
        Color::White
    } else {
        Color::Black
    }
}

#[derive(Clone, Copy, Debug, PartialEq, Eq, Structural)]
pub enum PieceKind {
    Pawn,
    Knight,
    Bishop,
    Rook,
    Queen,
    King,
}

impl PieceKind {
    /// The kind's position in the tables: Pawn 0, Knight 1, Bishop 2, Rook 3, Queen 4, King 5.
    pub open spec fn idx(self) -> int {
        match self {
            PieceKind::Pawn => 0,
            PieceKind::Knight => 1,
            PieceKind::Bishop => 2,
            PieceKind::Rook => 3,
            PieceKind::Queen => 4,
            PieceKind::King => 5,
        }
    }

    pub(crate) fn index(self) -> (r: usize)
        ensures
            r == self.idx(),
    {
        match self {
            PieceKind::Pawn => 0,
            PieceKind::Knight => 1,
            PieceKind::Bishop => 2,
            PieceKind::Rook => 3,
            PieceKind::Queen => 4,
            PieceKind::King => 5,
        }
    }
}

/// The kind at table position `i`, in the order Pawn, Knight, Bishop, Rook, Queen, King.
pub open spec fn kind_at(i: int) -> PieceKind {
    if i == 0 {
        PieceKind::Pawn
    } else if i == 1 {
        PieceKind::Knight
    } else if i == 2 {
        PieceKind::Bishop
    } else if i == 3 {
        PieceKind::Rook
    } else if i == 4 {
        PieceKind::Queen
    } else {
        PieceKind::King
    }
}

pub(crate) fn kind_from_index(i: usize) -> (k: PieceKind)
    requires
        i < 6,
    ensures
        k == kind_at(i as int),
        k.idx() == i,
{
    if i == 0 {
        PieceKind::Pawn
    } else if i == 1 {
        PieceKind::Knight
    } else if i == 2 {
        PieceKind::Bishop
    } else if i == 3 {
        PieceKind::Rook
    } else if i == 4 {
        PieceKind::Queen
    } else {
        PieceKind::King
    }
}

#[derive(Clone, Copy, Debug, PartialEq, Eq, Structural)]
pub struct Piece {
    pub color: Color,
    pub kind: PieceKind,
}

pub struct Position {
    /// `pieces[colour][kind]` is the bitboard of that colour's pieces of that kind.
    pub pieces: [[u64; 6]; 2],
    pub king_squares: [Square; 2],
    pub side_to_move: Color,
}

impl Position {
    /// The bitboard of the pieces at table position (`c`, `k`).
    pub open spec fn board(&self, c: int, k: int) -> u64 {
        self.pieces[c][k]
    }

    /// Whether a piece of table position (`c`, `k`) stands on `square`.
    pub open spec fn occupied_by(&self, c: int, k: int, square: int) -> bool {
        has_square(self.board(c, k), square)
    }

    /// The union of the six bitboards of colour table position `c`.
    pub open spec fn spec_occupancy(&self, c: int) -> u64 {
        let p = self.pieces[c];
        p[0] | p[1] | p[2] | p[3] | p[4] | p[5]
    }

    pub fn pieces(&self, color: Color, kind: PieceKind) -> (r: u64)
        ensures
            r == self.board(color.idx(), kind.idx()),
    {
        self.pieces[color.index()][kind.index()]
    }

    pub fn occupancy(&self, color: Color) -> (r: u64)
        ensures
            r == self.spec_occupancy(color.idx()),
    {
        let p = self.pieces[color.index()];
        p[0] | p[1] | p[2] | p[3] | p[4] | p[5]
    }

    /// The first piece found on `square`, looking at White before Black and,
    /// within a colour, at Pawn, Knight, Bishop, Rook, Queen, King in turn.
    pub fn piece_at(&self, square: Square) -> (r: Option<Piece>)
        ensures
            square >= 64 ==> r is None,
            square < 64 ==> match r {
                Some(p) => {
                    &&& self.occupied_by(p.color.idx(), p.kind.idx(), square as int)
                    &&& forall|c: int, k: int|
                        0 <= c < 2 && 0 <= k < 6 && c * 6 + k < p.color.idx() * 6 + p.kind.idx()
                            ==> !#[trigger] self.occupied_by(c, k, square as int)
                },
                None => forall|c: int, k: int|
                    0 <= c < 2 && 0 <= k < 6 ==> !#[trigger] self.occupied_by(c, k, square as int),
            },
    {
        if square >= 64 {
            return None;
        }
        let square_bit = 1u64 << square;
        let mut ci: usize = 0;
        while ci < 2
            invariant
                ci <= 2,
                square < 64,
                square_bit == 1u64 << square,
                forall|c: int, k: int|
                    0 <= c < ci && 0 <= k < 6 ==> !#[trigger] self.occupied_by(c, k, square as int),
            decreases 2 - ci,
        {
            let color = color_from_index(ci);
            let mut ki: usize = 0;
            while ki < 6
                invariant
                    ci < 2,
                    ki <= 6,
                    square < 64,
                    color.idx() == ci,
                    square_bit == 1u64 << square,
                    forall|c: int, k: int|
                        0 <= c < ci && 0 <= k < 6 ==> !#[trigger] self.occupied_by(c, k, square as int),
                    forall|k: int| 0 <= k < ki ==> !#[trigger] self.occupied_by(ci as int, k, square as int),
                decreases 6 - ki,
            {
                let kind = kind_from_index(ki);
                if self.pieces(color, kind) & square_bit != 0 {
                    return Some(Piece { color, kind });
                }
                ki += 1;
            }
            ci += 1;
        }
        None
    }

    pub fn king_square(&self, color: Color) -> (r: Square)
        ensures
            r == self.king_squares[color.idx()],
    {
        self.king_squares[color.index()]
    }
}

/// A colour's occupancy holds a square exactly when one of that colour's six
/// piece bitboards holds it.
pub proof fn lemma_occupancy_is_union(position: Position, color: Color, square: int)
    requires
        0 <= square < 64,
    ensures
        has_square(position.spec_occupancy(color.idx()), square) <==> exists|k: int|
            0 <= k < 6 && #[trigger] position.occupied_by(color.idx(), k, square),
{
    let p = position.pieces[color.idx()];
    let m = 1u64 << (square as u64);
    let (a, b, c, d, e, f) = (p[0], p[1], p[2], p[3], p[4], p[5]);
    assert((a | b | c | d | e | f) & m != 0 <==> (a & m != 0 || b & m != 0 || c & m != 0 || d & m
        != 0 || e & m != 0 || f & m != 0)) by (bit_vector);
    if a & m != 0 {
        assert(position.occupied_by(color.idx(), 0, square));
    }
    if b & m != 0 {
        assert(position.occupied_by(color.idx(), 1, square));
    }
    if c & m != 0 {
        assert(position.occupied_by(color.idx(), 2, square));
    }
    if d & m != 0 {
        assert(position.occupied_by(color.idx(), 3, square));
    }
    if e & m != 0 {
        assert(position.occupied_by(color.idx(), 4, square));
    }
    if f & m != 0 {
        assert(position.occupied_by(color.idx(), 5, square));
    }
}

/// `piece_at` finds a piece on a square exactly when the square is in the
/// occupancy of White or of Black.
pub proof fn lemma_piece_at_agrees_with_occupancy(position: Position, square: int)
    requires
        0 <= square < 64,
    ensures
        (exists|c: int, k: int| 0 <= c < 2 && 0 <= k < 6 && #[trigger] position.occupied_by(c, k, square))
            <==> (has_square(position.spec_occupancy(0), square) || has_square(
            position.spec_occupancy(1),
            square,
        )),
{
    lemma_occupancy_is_union(position, Color::White, square);
    lemma_occupancy_is_union(position, Color::Black, square);
    if exists|c: int, k: int| 0 <= c < 2 && 0 <= k < 6 && #[trigger] position.occupied_by(c, k, square) {
        let (c, k) = choose|c: int, k: int|
            0 <= c < 2 && 0 <= k < 6 && #[trigger] position.occupied_by(c, k, square);
        if c == 0 {
            assert(position.occupied_by(Color::White.idx(), k, square));
        } else {
            assert(position.occupied_by(Color::Black.idx(), k, square));
        }
    }
}

} // verus!
