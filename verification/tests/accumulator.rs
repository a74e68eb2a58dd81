use nnue::accumulator::Accumulator;
use nnue::features::make_index;
use nnue::types::game::{Color, Piece, PieceKind, Position};
use nnue::types::network::FeatureTransformer;

#[test]
fn creates_small_accumulator() {
    let accumulator = Accumulator::new(128);

    assert_eq!(accumulator.values.len(), 128);
    assert_eq!(accumulator.psqt_values, [0; 8]);
}

#[test]
fn creates_big_accumulator() {
    let accumulator = Accumulator::new(1_024);

    assert_eq!(accumulator.values.len(), 1_024);
    assert_eq!(accumulator.psqt_values, [0; 8]);
}

#[test]
fn refreshes_from_biases_and_active_features() {
    let mut accumulator = Accumulator::new(2);
    let position = Position {
        pieces: [[0, 0, 0, 0, 0, 1 << 4], [0, 0, 0, 0, 0, 1 << 60]],
        king_squares: [4, 60],
        side_to_move: Color::White,
    };
    let white_king = Piece {
        color: Color::White,
        kind: PieceKind::King,
    };
    let black_king = Piece {
        color: Color::Black,
        kind: PieceKind::King,
    };
    let white_index = make_index(Color::White, 4, white_king, 4);
    let black_index = make_index(Color::White, 60, black_king, 4);
    let mut weights = vec![0; 22_528 * 2];
    let mut psqt_weights = vec![0; 22_528 * 8];

    weights[white_index * 2..white_index * 2 + 2].copy_from_slice(&[1, 2]);
    weights[black_index * 2..black_index * 2 + 2].copy_from_slice(&[3, 4]);
    psqt_weights[white_index * 8..white_index * 8 + 8].fill(1);
    psqt_weights[black_index * 8..black_index * 8 + 8].fill(2);

    let ft = FeatureTransformer {
        biases: vec![5, 6],
        weights,
        psqt_weights,
        threat_weights: None,
        threat_psqt_weights: None,
    };

    accumulator.refresh(&ft, &position, Color::White);

    assert_eq!(accumulator.values, [9, 12]);
    assert_eq!(accumulator.psqt_values, [3; 8]);
}

#[test]
fn new_accumulator_of_no_values_is_empty() {
    let accumulator = Accumulator::new(0);
    assert!(accumulator.values.is_empty());
    assert_eq!(accumulator.psqt_values, [0; 8]);
}

#[test]
fn refresh_discards_previous_values() {
    let mut accumulator = Accumulator::new(1);
    accumulator.values[0] = 100;
    accumulator.psqt_values = [7; 8];
    let position = Position {
        pieces: [[0; 6], [0; 6]],
        king_squares: [4, 60],
        side_to_move: Color::White,
    };
    let ft = FeatureTransformer {
        biases: vec![-3],
        weights: vec![1; 22_528],
        psqt_weights: vec![1; 22_528 * 8],
        threat_weights: None,
        threat_psqt_weights: None,
    };
    accumulator.refresh(&ft, &position, Color::Black);
    assert_eq!(accumulator.values, [-3]);
    assert_eq!(accumulator.psqt_values, [0; 8]);
}

#[test]
fn refresh_adds_every_piece_of_both_colours_from_black_side() {
    let half_dims = 1;
    let mut accumulator = Accumulator::new(half_dims);
    let position = Position {
        pieces: [
            [(1 << 8) | (1 << 9), 0, 0, 0, 0, 1 << 4],
            [0, 1 << 57, 0, 0, 0, 1 << 60],
        ],
        king_squares: [4, 60],
        side_to_move: Color::Black,
    };
    let perspective = Color::Black;
    let king = 60;
    let mut weights = vec![0i16; 22_528];
    let mut psqt_weights = vec![0i32; 22_528 * 8];
    let pieces = [
        (8, Piece { color: Color::White, kind: PieceKind::Pawn }, 1i16),
        (9, Piece { color: Color::White, kind: PieceKind::Pawn }, 10),
        (4, Piece { color: Color::White, kind: PieceKind::King }, 100),
        (57, Piece { color: Color::Black, kind: PieceKind::Knight }, 1000),
        (60, Piece { color: Color::Black, kind: PieceKind::King }, 10000),
    ];
    for (square, piece, w) in pieces {
        let index = make_index(perspective, square, piece, king);
        weights[index] += w;
        psqt_weights[index * 8 + 3] += w as i32 * 2;
    }
    let ft = FeatureTransformer {
        biases: vec![-1],
        weights,
        psqt_weights,
        threat_weights: None,
        threat_psqt_weights: None,
    };
    accumulator.refresh(&ft, &position, perspective);
    assert_eq!(accumulator.values, [11_110]);
    assert_eq!(accumulator.psqt_values, [0, 0, 0, 22_222, 0, 0, 0, 0]);
}
