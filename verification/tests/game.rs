use nnue::types::game::{Color, Piece, PieceKind, Position};

fn position() -> Position {
    Position {
        pieces: [[1 << 8, 0, 0, 0, 0, 1 << 4], [0, 1 << 57, 0, 0, 0, 1 << 60]],
        king_squares: [4, 60],
        side_to_move: Color::White,
    }
}

#[test]
fn accesses_piece_bitboards() {
    let position = position();
    assert_eq!(position.pieces(Color::White, PieceKind::Pawn), 1 << 8);
    assert_eq!(position.pieces(Color::Black, PieceKind::Knight), 1 << 57);
}

#[test]
fn combines_color_occupancy() {
    let position = position();
    assert_eq!(position.occupancy(Color::White), (1 << 4) | (1 << 8));
    assert_eq!(position.occupancy(Color::Black), (1 << 57) | (1 << 60));
}

#[test]
fn finds_piece_at_square() {
    let position = position();
    assert_eq!(
        position.piece_at(57),
        Some(Piece {
            color: Color::Black,
            kind: PieceKind::Knight,
        })
    );
    assert_eq!(position.piece_at(9), None);
    assert_eq!(position.piece_at(64), None);
}

#[test]
fn accesses_king_squares() {
    let position = position();
    assert_eq!(position.king_square(Color::White), 4);
    assert_eq!(position.king_square(Color::Black), 60);
}

#[test]
fn piece_at_prefers_white_and_lower_kinds_on_shared_squares() {
    let position = Position {
        pieces: [[0, 0, 1 << 20, 1 << 20, 0, 0], [1 << 20, 0, 0, 0, 1 << 33, 0]],
        king_squares: [0, 63],
        side_to_move: Color::Black,
    };
    assert_eq!(
        position.piece_at(20),
        Some(Piece { color: Color::White, kind: PieceKind::Bishop })
    );
    assert_eq!(
        position.piece_at(33),
        Some(Piece { color: Color::Black, kind: PieceKind::Queen })
    );
    assert_eq!(position.piece_at(255), None);
}

#[test]
fn piece_at_agrees_with_occupancy_on_every_square() {
    let position = position();
    let all = position.occupancy(Color::White) | position.occupancy(Color::Black);
    for square in 0..64u8 {
        assert_eq!(position.piece_at(square).is_some(), all & (1u64 << square) != 0);
    }
}
