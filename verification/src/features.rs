//! HalfKA feature indices: which input of the feature transformer a piece on a
//! square activates, seen from one side, in the bucket of that side's king.
//!
//! The board is seen from the perspective's side: for Black it is mirrored
//! vertically (rank 1 and rank 8 swap). It is then mirrored horizontally
//! whenever the perspective's king stands on files a to d, so that the king
//! is always on files e to h. The king's square, seen the same way, picks one
//! of 32 buckets, which run from 0 on rank 8 to 31 on rank 1 and are
//! symmetric between the two halves of each rank:
//!
//! ```text
//!  rank 8:   0  1  2  3  3  2  1  0
//!  rank 7:   4  5  6  7  7  6  5  4
//!  ...
//!  rank 1:  28 29 30 31 31 30 29 28
//! ```
use vstd::prelude::*;
use vstd::arithmetic::div_mod::lemma_fundamental_div_mod_converse;

use crate::types::game::{Color, Piece, PieceKind, Square};

verus! {

pub const SQUARES: usize = 64;

/// Ten categories of (kind, own or opposing colour) for the pieces other than kings, and one for both kings.
pub const PIECE_CATEGORIES: usize = 11;

pub const KING_BUCKET_SIZE: usize = SQUARES * PIECE_CATEGORIES;

/// The number of inputs of a HalfKA feature transformer: 32 king buckets.
pub const HALF_KA_INPUT_DIMS: usize = 32 * KING_BUCKET_SIZE;

/// The square mirrored vertically: rank `r` becomes rank `7 - r` (the bits `0b111000` flipped).
pub open spec fn flip_rank(s: int) -> int {
    (s / 64) * 64 + (7 - (s / 8) % 8) * 8 + s % 8
}

/// The square mirrored horizontally: file `f` becomes file `7 - f` (the bits `0b111` flipped).
pub open spec fn flip_file(s: int) -> int {
    (s / 8) * 8 + (7 - s % 8)
}

/// The square as seen from `perspective`: mirrored vertically for Black.
pub open spec fn relative_square(perspective: Color, s: int) -> int {
    if perspective == Color::Black {
        flip_rank(s)
    } else {
        s
    }
}

/// Whether the king on `king_square` stands on files a to d, which mirrors the board horizontally.
pub open spec fn king_on_queen_side(king_square: int) -> bool {
    king_square % 8 < 4
}

/// The square of a piece after both mirrors.
pub open spec fn oriented_square(perspective: Color, square: int, king_square: int) -> int {
    let s = relative_square(perspective, square);
    if king_on_queen_side(king_square) {
        flip_file(s)
    } else {
        s
    }
}

/// The bucket of a king square as seen from `perspective`: four per rank, counted
/// from rank 8, by distance from the edge file.
pub open spec fn king_bucket(perspective: Color, king_square: int) -> int {
    let k = relative_square(perspective, king_square);
    let file = k % 8;
    (7 - k / 8) * 4 + if file < 4 {
        file
    } else {
        7 - file
    }
}

/// The first input of a piece's category within a bucket: kings share the last
/// category; any other piece has one for its kind and whether it is of the
/// perspective's colour.
pub open spec fn piece_offset(perspective: Color, piece: Piece) -> int {
    if piece.kind == PieceKind::King {
        10 * SQUARES
    } else {
        (piece.kind.idx() * 2 + if piece.color == perspective {
            0int
        } else {
            1int
        }) * SQUARES
    }
}

/// The input of the feature transformer that `piece` on `square` activates for `perspective`.
pub open spec fn feature_index(perspective: Color, square: int, piece: Piece, king_square: int) -> int {
    king_bucket(perspective, king_square) * KING_BUCKET_SIZE + piece_offset(perspective, piece)
        + oriented_square(perspective, square, king_square)
}

/// The other colour.
pub open spec fn opposite(c: Color) -> Color {
    match c {
        Color::White => Color::Black,
        Color::Black => Color::White,
    }
}

/// The horizontal mirror of the board to apply for a king square: 7 for files a to d, else 0.
fn orientation(king_square: usize) -> (r: usize)
    ensures
        r == if king_on_queen_side(king_square as int) {
            7usize
        } else {
            0usize
        },
{
    if king_square % 8 < 4 {
        7
    } else {
        0
    }
}

/// The bucket of a king square already seen from the perspective's side.
fn bucket_of(k: usize) -> (r: usize)
    requires
        k < 64,
    ensures
        r == king_bucket(Color::White, k as int),
        r < 32,
{
    let file = k % 8;
    let distance = if file < 4 {
        file
    } else {
        7 - file
    };
    (7 - k / 8) * 4 + distance
}

/// A square `s` is `hi * 64 + rank * 8 + file`; the mirrors change only the rank or the file.
proof fn lemma_square_parts(s: int)
    requires
        s >= 0,
    ensures
        ({
            let hi = s / 64;
            let rank = (s / 8) % 8;
            let file = s % 8;
            &&& 0 <= rank < 8
            &&& 0 <= file < 8
            &&& hi >= 0
            &&& s == hi * 64 + rank * 8 + file
            &&& s / 8 == hi * 8 + rank
            &&& flip_rank(s) == hi * 64 + (7 - rank) * 8 + file
            &&& flip_file(s) == hi * 64 + rank * 8 + (7 - file)
        }),
{
    let hi = s / 64;
    let rank = (s / 8) % 8;
    let file = s % 8;
    let q = s / 8;
    lemma_fundamental_div_mod_converse(s, 8, q, file);
    assert(s == q * 8 + file && 0 <= file < 8) by {
        vstd::arithmetic::div_mod::lemma_fundamental_div_mod(s, 8);
    }
    assert(q == (q / 8) * 8 + rank && 0 <= rank < 8) by {
        vstd::arithmetic::div_mod::lemma_fundamental_div_mod(q, 8);
    }
    assert(s == (q / 8) * 64 + (rank * 8 + file));
    lemma_fundamental_div_mod_converse(s, 64, q / 8, rank * 8 + file);
}

/// The parts of a square determine it: a square with parts `hi`, `rank`, `file` has those parts.
proof fn lemma_parts_of(s: int, hi: int, rank: int, file: int)
    requires
        hi >= 0,
        0 <= rank < 8,
        0 <= file < 8,
        s == hi * 64 + rank * 8 + file,
    ensures
        s / 64 == hi,
        (s / 8) % 8 == rank,
        s % 8 == file,
        s / 8 == hi * 8 + rank,
{
    lemma_fundamental_div_mod_converse(s, 8, hi * 8 + rank, file);
    lemma_fundamental_div_mod_converse(s / 8, 8, hi, rank);
    lemma_fundamental_div_mod_converse(s, 64, hi, rank * 8 + file);
}

/// XOR with 56 and with 7 mirror a square vertically and horizontally.
proof fn lemma_xor_mirrors(s: usize)
    requires
        s < 256,
    ensures
        s ^ 56 == flip_rank(s as int),
        s ^ 7 == flip_file(s as int),
        (s ^ 7) ^ 56 == flip_file(flip_rank(s as int)),
        s ^ 0 == s,
{
    assert(s ^ 56 == (s / 64) * 64 + (7 - (s / 8) % 8) * 8 + s % 8) by (bit_vector)
        requires
            s < 256,
    ;
    assert(s ^ 7 == (s / 8) * 8 + (7 - s % 8)) by (bit_vector)
        requires
            s < 256,
    ;
    assert((s ^ 7) ^ 56 == (s ^ 56) ^ 7) by (bit_vector);
    assert(s ^ 0 == s) by (bit_vector);
    let r = s ^ 56;
    assert(r < 256) by (bit_vector)
        requires
            s < 256,
            r == s ^ 56,
    ;
    assert(r ^ 7 == (r / 8) * 8 + (7 - r % 8)) by (bit_vector)
        requires
            r < 256,
    ;
}

/// Returns the feature index of `piece` on `square`, seen from `perspective`
/// with that side's king on `king_square`.
pub fn make_index(perspective: Color, square: Square, piece: Piece, king_square: Square) -> (r: usize)
    requires
        king_square < 64,
    ensures
        r == feature_index(perspective, square as int, piece, king_square as int),
{
    let perspective = perspective.index();
    let flip = 56 * perspective;
    let king_square = king_square as usize;

    let oriented_square = square as usize ^ orientation(king_square) ^ flip;
    let relative_king = king_square ^ flip;
    proof {
        lemma_xor_mirrors(square as usize);
        lemma_xor_mirrors(king_square);
        lemma_square_parts(square as int);
        lemma_square_parts(king_square as int);
        let s = square as int;
        lemma_parts_of(flip_rank(s), s / 64, 7 - (s / 8) % 8, s % 8);
        let k = king_square as int;
        lemma_parts_of(flip_rank(k), 0, 7 - (k / 8) % 8, k % 8);
        let sq = square as usize;
        assert((sq ^ 7) ^ 0 == sq ^ 7) by (bit_vector);
        assert((sq ^ 0) ^ 0 == sq) by (bit_vector);
        assert((sq ^ 0) ^ 56 == sq ^ 56) by (bit_vector);
        lemma_parts_of(flip_file(s), s / 64, (s / 8) % 8, 7 - s % 8);
        lemma_parts_of(flip_file(flip_rank(s)), s / 64, 7 - (s / 8) % 8, 7 - s % 8);
    }
    let king_bucket = bucket_of(relative_king) * KING_BUCKET_SIZE;

    king_bucket + piece_square_index(perspective, piece) + oriented_square
}

/// The first input of the piece's category, for the perspective at colour position `perspective`.
fn piece_square_index(perspective: usize, piece: Piece) -> (r: usize)
    requires
        perspective < 2,
    ensures
        r == piece_offset(if perspective == 0 { Color::White } else { Color::Black }, piece),
        r <= 10 * SQUARES,
{
    if piece.kind == PieceKind::King {
        return 10 * SQUARES;
    }
    let color = piece.color.index();
    let relative_color = color ^ perspective;
    assert(relative_color == if color == perspective { 0usize } else { 1usize }) by (bit_vector)
        requires
            color < 2,
            perspective < 2,
            relative_color == color ^ perspective,
    ;
    (piece.kind.index() * 2 + relative_color) * SQUARES
}

// ---------------------------------------------------------------------------
// Laws.
// ---------------------------------------------------------------------------

/// Every feature index of a piece on the board, with the king on the board,
/// is an input of the feature transformer.
pub proof fn lemma_feature_index_in_range(perspective: Color, square: int, piece: Piece, king_square: int)
    requires
        0 <= square < 64,
        0 <= king_square < 64,
    ensures
        0 <= feature_index(perspective, square, piece, king_square) < HALF_KA_INPUT_DIMS,
{
    lemma_square_parts(square);
    lemma_square_parts(king_square);
    lemma_parts_of(flip_rank(square), 0, 7 - (square / 8) % 8, square % 8);
    lemma_parts_of(flip_rank(king_square), 0, 7 - (king_square / 8) % 8, king_square % 8);
    let s = relative_square(perspective, square);
    lemma_parts_of(flip_file(s), 0, (s / 8) % 8, 7 - s % 8);
}

/// Both kings use the same category: the king's colour does not change its index.
pub proof fn lemma_kings_share_category(perspective: Color, square: int, c1: Color, c2: Color, king_square: int)
    ensures
        feature_index(perspective, square, Piece { color: c1, kind: PieceKind::King }, king_square)
            == feature_index(perspective, square, Piece { color: c2, kind: PieceKind::King }, king_square),
{
}

/// Seeing the vertically mirrored board, with every piece's colour swapped,
/// from the other side gives the same index.
pub proof fn lemma_colour_mirror(perspective: Color, square: int, piece: Piece, king_square: int)
    requires
        0 <= square < 256,
        0 <= king_square < 64,
    ensures
        feature_index(
            opposite(perspective),
            flip_rank(square),
            Piece { color: opposite(piece.color), kind: piece.kind },
            flip_rank(king_square),
        ) == feature_index(perspective, square, piece, king_square),
{
    let hi = square / 64;
    let rank = (square / 8) % 8;
    let file = square % 8;
    lemma_square_parts(square);
    lemma_square_parts(king_square);
    let fs = flip_rank(square);
    lemma_parts_of(fs, hi, 7 - rank, file);
    // Mirroring twice gives the square back.
    lemma_parts_of(flip_rank(fs), hi, rank, file);
    let fk = flip_rank(king_square);
    let krank = (king_square / 8) % 8;
    let kfile = king_square % 8;
    lemma_parts_of(fk, 0, 7 - krank, kfile);
    lemma_parts_of(flip_rank(fk), 0, krank, kfile);
    // The horizontal mirror of the square seen from either side.
    let s = relative_square(perspective, square);
    lemma_square_parts(s);
    lemma_parts_of(flip_file(s), s / 64, (s / 8) % 8, 7 - s % 8);
}

/// Mirroring the board horizontally, king included, does not change any index.
pub proof fn lemma_file_mirror(perspective: Color, square: int, piece: Piece, king_square: int)
    requires
        0 <= square < 256,
        0 <= king_square < 64,
    ensures
        feature_index(perspective, flip_file(square), piece, flip_file(king_square))
            == feature_index(perspective, square, piece, king_square),
{
    let hi = square / 64;
    let rank = (square / 8) % 8;
    let file = square % 8;
    lemma_square_parts(square);
    lemma_square_parts(king_square);
    let ms = flip_file(square);
    lemma_parts_of(ms, hi, rank, 7 - file);
    let mk = flip_file(king_square);
    let krank = (king_square / 8) % 8;
    let kfile = king_square % 8;
    lemma_parts_of(mk, 0, krank, 7 - kfile);
    // Seen from Black.
    lemma_parts_of(flip_rank(square), hi, 7 - rank, file);
    lemma_parts_of(flip_rank(ms), hi, 7 - rank, 7 - file);
    lemma_parts_of(flip_rank(king_square), 0, 7 - krank, kfile);
    lemma_parts_of(flip_rank(mk), 0, 7 - krank, 7 - kfile);
    // After the horizontal mirror that the king's file calls for.
    lemma_parts_of(flip_file(flip_rank(square)), hi, 7 - rank, 7 - file);
    lemma_parts_of(flip_file(flip_rank(ms)), hi, 7 - rank, file);
    lemma_parts_of(flip_file(ms), hi, rank, file);
}

} // verus!
