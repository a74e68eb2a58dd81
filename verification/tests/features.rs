use nnue::features::{make_index, HALF_KA_INPUT_DIMS, KING_BUCKET_SIZE, PIECE_CATEGORIES, SQUARES};
use nnue::types::game::{Color, Piece, PieceKind};

const WHITE_PAWN: Piece = Piece {
    color: Color::White,
    kind: PieceKind::Pawn,
};
const BLACK_PAWN: Piece = Piece {
    color: Color::Black,
    kind: PieceKind::Pawn,
};

#[test]
fn white_perspective_preserves_right_side_king_positions() {
    assert_eq!(make_index(Color::White, 12, WHITE_PAWN, 4), 21_836);
}

#[test]
fn white_perspective_horizontally_mirrors_left_side_king_positions() {
    assert_eq!(make_index(Color::White, 15, WHITE_PAWN, 3), 21_832);
}

#[test]
fn black_perspective_vertically_mirrors_the_board() {
    assert_eq!(make_index(Color::Black, 52, BLACK_PAWN, 60), 21_836);
}

#[test]
fn black_perspective_can_apply_both_mirrors() {
    assert_eq!(make_index(Color::Black, 55, BLACK_PAWN, 59), 21_832);
}

#[test]
fn both_kings_use_the_shared_king_category() {
    let white_king = Piece {
        color: Color::White,
        kind: PieceKind::King,
    };
    let black_king = Piece {
        color: Color::Black,
        kind: PieceKind::King,
    };

    assert_eq!(
        make_index(Color::White, 4, white_king, 4),
        make_index(Color::White, 4, black_king, 4)
    );
}

#[test]
fn indices_stay_within_the_feature_transformer() {
    for perspective in [Color::White, Color::Black] {
        for king_square in 0..64 {
            for square in 0..64 {
                for piece in [WHITE_PAWN, BLACK_PAWN] {
                    assert!(make_index(perspective, square, piece, king_square) < HALF_KA_INPUT_DIMS);
                }
            }
        }
    }
}

const KINDS: [PieceKind; 6] = [
    PieceKind::Pawn,
    PieceKind::Knight,
    PieceKind::Bishop,
    PieceKind::Rook,
    PieceKind::Queen,
    PieceKind::King,
];

// The orientation and king-bucket tables the HalfKAv2 inputs are defined by.
const ORIENT_TBL: [usize; 64] = [
    7, 7, 7, 7, 0, 0, 0, 0, 7, 7, 7, 7, 0, 0, 0, 0, 7, 7, 7, 7, 0, 0, 0, 0, 7, 7, 7, 7, 0, 0, 0, 0,
    7, 7, 7, 7, 0, 0, 0, 0, 7, 7, 7, 7, 0, 0, 0, 0, 7, 7, 7, 7, 0, 0, 0, 0, 7, 7, 7, 7, 0, 0, 0, 0,
];
const KING_BUCKETS: [usize; 64] = [
    28, 29, 30, 31, 31, 30, 29, 28, 24, 25, 26, 27, 27, 26, 25, 24, 20, 21, 22, 23, 23, 22, 21, 20,
    16, 17, 18, 19, 19, 18, 17, 16, 12, 13, 14, 15, 15, 14, 13, 12, 8, 9, 10, 11, 11, 10, 9, 8, 4,
    5, 6, 7, 7, 6, 5, 4, 0, 1, 2, 3, 3, 2, 1, 0,
];

fn table_index(perspective: Color, square: u8, piece: Piece, king_square: u8) -> usize {
    let p = perspective as usize;
    let flip = 56 * p;
    let k = king_square as usize;
    let oriented = square as usize ^ ORIENT_TBL[k] ^ flip;
    let bucket = KING_BUCKETS[k ^ flip] * KING_BUCKET_SIZE;
    let category = if piece.kind == PieceKind::King {
        10 * SQUARES
    } else {
        (piece.kind as usize * 2 + (piece.color as usize ^ p)) * SQUARES
    };
    bucket + category + oriented
}

#[test]
fn indices_follow_orientation_and_bucket_tables() {
    for perspective in [Color::White, Color::Black] {
        for king_square in 0..64u8 {
            for square in 0..64u8 {
                for color in [Color::White, Color::Black] {
                    for kind in KINDS {
                        let piece = Piece { color, kind };
                        assert_eq!(
                            make_index(perspective, square, piece, king_square),
                            table_index(perspective, square, piece, king_square)
                        );
                    }
                }
            }
        }
    }
}

#[test]
fn constants_describe_halfka_dimensions() {
    assert_eq!(SQUARES, 64);
    assert_eq!(PIECE_CATEGORIES, 11);
    assert_eq!(KING_BUCKET_SIZE, 704);
    assert_eq!(HALF_KA_INPUT_DIMS, 22_528);
}

#[test]
fn swapping_sides_and_colours_keeps_the_index() {
    for king_square in 0..64u8 {
        for square in 0..64u8 {
            for kind in KINDS {
                let white = Piece { color: Color::White, kind };
                let black = Piece { color: Color::Black, kind };
                assert_eq!(
                    make_index(Color::White, square, white, king_square),
                    make_index(Color::Black, square ^ 56, black, king_square ^ 56)
                );
            }
        }
    }
}

#[test]
fn mirroring_files_keeps_the_index() {
    for perspective in [Color::White, Color::Black] {
        for king_square in 0..64u8 {
            for square in 0..64u8 {
                assert_eq!(
                    make_index(perspective, square, BLACK_PAWN, king_square),
                    make_index(perspective, square ^ 7, BLACK_PAWN, king_square ^ 7)
                );
            }
        }
    }
}

#[test]
fn king_in_corner_uses_expected_bucket() {
    // The white king on a1 is in bucket 28, and the board is mirrored horizontally.
    let white_king = Piece { color: Color::White, kind: PieceKind::King };
    assert_eq!(make_index(Color::White, 0, white_king, 0), 28 * 704 + 640 + 7);
    // A black knight on g8 seen from Black with its king on e8 (bucket 31, as e1 from White).
    let black_knight = Piece { color: Color::Black, kind: PieceKind::Knight };
    assert_eq!(make_index(Color::Black, 62, black_knight, 60), 31 * 704 + 2 * 64 + 6);
    // A white queen seen from Black is an opposing queen.
    let white_queen = Piece { color: Color::White, kind: PieceKind::Queen };
    assert_eq!(make_index(Color::Black, 3, white_queen, 60), 31 * 704 + 9 * 64 + 59);
}
