use nnue::types::bitboard::Bboard;

#[test]
fn set_bits_sets_requested_squares() {
    let mut board = Bboard::new();
    board.set_bits("a2,a4,b4").unwrap();

    assert_eq!(board.bits(), (1u64 << 8) | (1u64 << 24) | (1u64 << 25));
}

#[test]
fn set_bits_rejects_invalid_squares() {
    let mut board = Bboard::new();

    assert_eq!(board.set_bits("z9").unwrap_err(), "invalid square: z9");
}

#[test]
fn visual_prints_board() {
    let mut board = Bboard::new();
    board.set_bits("a1,h8,d5").unwrap();
    println!("{}", board.to_string());
}

#[test]
fn set_bits_trims_fields_and_skips_empty_ones() {
    let mut board = Bboard::new();
    board.set_bits(" e4 ,, \tH8\n, ,").unwrap();
    board.set_bits("").unwrap();
    assert_eq!(board.bits(), (1u64 << 28) | (1u64 << 63));
}

#[test]
fn set_bits_keeps_squares_before_the_first_bad_field() {
    let mut board = Bboard::new();
    assert_eq!(board.set_bits("a1, b2 ,x, c3").unwrap_err(), "invalid square: x");
    assert_eq!(board.set_bits(" a10 ").unwrap_err(), "invalid square: a10");
    assert_eq!(board.bits(), (1u64 << 0) | (1u64 << 9));
}

#[test]
fn set_bits_only_adds_squares() {
    let mut board = Bboard::new();
    board.set_bits("h1").unwrap();
    board.set_bits("a8,h1").unwrap();
    assert_eq!(board.bits(), (1u64 << 7) | (1u64 << 56));
}

#[test]
fn set_bits_trims_unicode_whitespace() {
    let mut board = Bboard::new();
    board.set_bits("\u{3000}c2\u{a0}").unwrap();
    assert_eq!(board.bits(), 1u64 << 10);
}

#[test]
fn default_board_is_empty() {
    assert_eq!(Bboard::default().bits(), 0);
    assert_eq!(Bboard::new().bits(), 0);
}

#[test]
fn renders_board_as_text() {
    let mut board = Bboard::new();
    board.set_bits("a1,h8,d5").unwrap();
    const RESET: &str = "\x1b[0m";
    const MUTED: &str = "\x1b[38;5;244m";
    const POP: &str = "\x1b[1;38;5;220m";
    let mut expected = String::from("\n");
    for rank in (0..8).rev() {
        expected.push_str(&format!(" {MUTED}{}{RESET}   ", rank + 1));
        for file in 0..8 {
            let set = (rank == 0 && file == 0) || (rank == 7 && file == 7) || (rank == 4 && file == 3);
            if set {
                expected.push_str(&format!("{POP}1{RESET}  "));
            } else {
                expected.push_str(&format!("{MUTED}.{RESET}  "));
            }
        }
        expected.push_str(&format!(" {MUTED}{}{RESET}\n", rank + 1));
    }
    expected.push_str(&format!("     {MUTED}a  b  c  d  e  f  g  h{RESET}\n"));
    assert_eq!(board.to_string(), expected);
}
