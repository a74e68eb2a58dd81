use nnue::types::utils::notation_to_index;

#[test]
fn notation_to_index_maps_board_positions() {
    assert_eq!(notation_to_index("a1"), Some(0));
    assert_eq!(notation_to_index("h1"), Some(7));
    assert_eq!(notation_to_index("a8"), Some(56));
    assert_eq!(notation_to_index("h8"), Some(63));
    assert_eq!(notation_to_index("a2"), Some(8));
}

#[test]
fn notation_to_index_rejects_invalid_input() {
    assert_eq!(notation_to_index("i4"), None);
    assert_eq!(notation_to_index("a9"), None);
    assert_eq!(notation_to_index("aa1"), None);
}

#[test]
fn notation_accepts_upper_case_files_only() {
    assert_eq!(notation_to_index("E4"), Some(28));
    assert_eq!(notation_to_index("H8"), Some(63));
    assert_eq!(notation_to_index("e4"), Some(28));
    assert_eq!(notation_to_index("4e"), None);
    assert_eq!(notation_to_index(""), None);
    assert_eq!(notation_to_index("a"), None);
    assert_eq!(notation_to_index("a0"), None);
    assert_eq!(notation_to_index("é"), None);
}

#[test]
fn every_square_name_maps_to_its_index() {
    let files = "abcdefgh";
    let ranks = "12345678";
    for (r, rank) in ranks.chars().enumerate() {
        for (f, file) in files.chars().enumerate() {
            let name = format!("{file}{rank}");
            assert_eq!(notation_to_index(&name), Some((r * 8 + f) as u8));
        }
    }
}
