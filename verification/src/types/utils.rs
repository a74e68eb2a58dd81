//! Algebraic square notation ("e4") to square index.
use vstd::prelude::*;
use vstd::string::is_ascii_spec_bytes;

verus! {

/// The file (column) a letter names: `a`..`h` or `A`..`H` give 0..7.
pub open spec fn file_of(c: char) -> Option<int> {
    if 'a' <= c <= 'h' {
        Some(c as int - 'a' as int)
    } else if 'A' <= c <= 'H' {
        Some(c as int - 'A' as int)
    } else {
        None
    }
}

/// The rank (row) a digit names: `1`..`8` give 0..7.
pub open spec fn rank_of(c: char) -> Option<int> {
    if '1' <= c <= '8' {
        Some(c as int - '1' as int)
    } else {
        None
    }
}

/// The square that a text in algebraic notation names: exactly a file letter
/// followed by a rank digit, giving `rank * 8 + file`.
pub open spec fn square_of(s: Seq<char>) -> Option<u8> {
    if s.len() == 2 && file_of(s[0]) is Some && rank_of(s[1]) is Some {
        Some((rank_of(s[1])->0 * 8 + file_of(s[0])->0) as u8)
    } else {
        None
    }
}

/// The ASCII letter `b` in lower case; other bytes unchanged.
fn ascii_lowercase(b: u8) -> (r: u8)
    ensures
        r == if 65 <= b <= 90 { (b + 32) as u8 } else { b },
{
    if 65 <= b && b <= 90 {  // 'A'..='Z'
        b + 32
    } else {
        b
    }
}

/// Converts a square in algebraic notation (`"a1"` is 0, `"h8"` is 63) to its index.
pub fn notation_to_index(square: &str) -> (r: Option<u8>)
    ensures
        r == square_of(square@),
        r matches Some(i) ==> i < 64,
{
    broadcast use is_ascii_spec_bytes;

    if !square.is_ascii() {
        // A valid square is two ASCII characters.
        assert(square_of(square@) is None) by {
            if square_of(square@) is Some {
                assert forall|i| 0 <= i < square@.len() implies '\0' <= #[trigger] square@[i]
                    <= '\u{7f}' by {
                    if i == 0 {
                    } else {
                        assert(i == 1);
                    }
                }
            }
        }
        return None;
    }
    if square.len() != 2 {
        return None;
    }
    let bytes = square.as_bytes();
    assert(bytes@[0] == square@[0] as u8);
    assert(bytes@[1] == square@[1] as u8);
    let file = ascii_lowercase(bytes[0]);
    let rank = bytes[1];

    // 'a'..='h' and '1'..='8'
    if !(97 <= file && file <= 104) || !(49 <= rank && rank <= 56) {
        return None;
    }
    Some((rank - 49) * 8 + (file - 97))
}

} // verus!
