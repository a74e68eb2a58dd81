//! A set of squares as the 64 bits of a `u64`, square `i` being bit `i`.
use vstd::prelude::*;
use vstd::string::StrSliceExecFns;
use vstd::string::StringExecFns;

use crate::types::game::has_square;
use crate::types::utils::{notation_to_index, square_of};

verus! {

/// The White_Space characters of Unicode, which `char::is_whitespace` accepts.
pub open spec fn is_white_space(c: char) -> bool {
    ||| '\u{9}' <= c <= '\u{d}'
    ||| c == ' '
    ||| c == '\u{85}'
    ||| c == '\u{a0}'
    ||| c == '\u{1680}'
    ||| '\u{2000}' <= c <= '\u{200a}'
    ||| c == '\u{2028}'
    ||| c == '\u{2029}'
    ||| c == '\u{202f}'
    ||| c == '\u{205f}'
    ||| c == '\u{3000}'
}

/// Calls `char::is_whitespace`, which the standard library documents as the
/// Unicode White_Space property: the characters `is_white_space` lists.
#[verifier::external_body]
fn char_is_whitespace(c: char) -> (b: bool)
    ensures
        b == is_white_space(c),
{
    c.is_whitespace()
}

/// `s` without its leading white space.
pub open spec fn trim_start(s: Seq<char>) -> Seq<char>
    decreases s.len(),
{
    if s.len() > 0 && is_white_space(s[0]) {
        trim_start(s.drop_first())
    } else {
        s
    }
}

/// `s` without its trailing white space.
pub open spec fn trim_end(s: Seq<char>) -> Seq<char>
    decreases s.len(),
{
    if s.len() > 0 && is_white_space(s.last()) {
        trim_end(s.drop_last())
    } else {
        s
    }
}

/// `s` without its leading and trailing white space.
pub open spec fn trim(s: Seq<char>) -> Seq<char> {
    trim_end(trim_start(s))
}

/// The comma-separated fields of `s[p..]`, the first of which starts with `current`.
pub open spec fn fields_from(s: Seq<char>, p: int, current: Seq<char>) -> Seq<Seq<char>>
    decreases s.len() - p,
{
    if p >= s.len() {
        seq![current]
    } else if s[p] == ',' {
        seq![current] + fields_from(s, p + 1, seq![])
    } else {
        fields_from(s, p + 1, current.push(s[p]))
    }
}

/// The fields of `s` between commas (one field when there is no comma).
pub open spec fn fields(s: Seq<char>) -> Seq<Seq<char>> {
    fields_from(s, 0, seq![])
}

/// Sets, in `bits`, the square each field names once trimmed, skipping empty
/// fields and stopping at the first field that names no square. Gives the
/// bits and that field, if any.
pub open spec fn set_squares(bits: u64, fields: Seq<Seq<char>>) -> (u64, Option<Seq<char>>)
    decreases fields.len(),
{
    if fields.len() == 0 {
        (bits, None)
    } else {
        let t = trim(fields[0]);
        if t.len() == 0 {
            set_squares(bits, fields.drop_first())
        } else {
            match square_of(t) {
                Some(i) => set_squares(bits | (1u64 << (i as u64)), fields.drop_first()),
                None => (bits, Some(t)),
            }
        }
    }
}

/// The message for a field that names no square.
pub open spec fn invalid_square_message(field: Seq<char>) -> Seq<char> {
    "invalid square: "@ + field
}

/// Resets the terminal colour.
pub const RESET: &'static str = "\x1b[0m";

/// The grey of empty squares and labels.
pub const MUTED: &'static str = "\x1b[38;5;244m";

/// The bold yellow of set squares.
pub const POP: &'static str = "\x1b[1;38;5;220m";

/// The digit naming rank index `rank` (0 is rank 1).
pub open spec fn rank_text(rank: int) -> Seq<char> {
    if rank == 0 {
        "1"@
    } else if rank == 1 {
        "2"@
    } else if rank == 2 {
        "3"@
    } else if rank == 3 {
        "4"@
    } else if rank == 4 {
        "5"@
    } else if rank == 5 {
        "6"@
    } else if rank == 6 {
        "7"@
    } else {
        "8"@
    }
}

/// A square: a bold `1` when set, a grey `.` when not.
pub open spec fn cell_text(bits: u64, square: int) -> Seq<char> {
    if has_square(bits, square) {
        POP@ + "1"@ + RESET@ + "  "@
    } else {
        MUTED@ + "."@ + RESET@ + "  "@
    }
}

/// The first `n` squares of rank index `rank`, from file a.
pub open spec fn cells_text(bits: u64, rank: int, n: nat) -> Seq<char>
    decreases n,
{
    if n == 0 {
        seq![]
    } else {
        cells_text(bits, rank, (n - 1) as nat) + cell_text(bits, rank * 8 + n - 1)
    }
}

/// One line of the board: the rank's digit, its eight squares, the digit again.
pub open spec fn rank_line(bits: u64, rank: int) -> Seq<char> {
    " "@ + MUTED@ + rank_text(rank) + RESET@ + "   "@ + cells_text(bits, rank, 8) + " "@ + MUTED@
        + rank_text(rank) + RESET@ + "\n"@
}

/// The lines of the top `n` ranks, from rank 8 down.
pub open spec fn rank_lines(bits: u64, n: nat) -> Seq<char>
    decreases n,
{
    if n == 0 {
        seq![]
    } else {
        rank_lines(bits, (n - 1) as nat) + rank_line(bits, 8 - n)
    }
}

/// The board as text: an empty line, ranks 8 down to 1, then the file letters.
pub open spec fn board_text(bits: u64) -> Seq<char> {
    "\n"@ + rank_lines(bits, 8) + "     "@ + MUTED@ + "a  b  c  d  e  f  g  h"@ + RESET@ + "\n"@
}

fn rank_digit(rank: usize) -> (r: &'static str)
    requires
        rank < 8,
    ensures
        r@ == rank_text(rank as int),
{
    if rank == 0 {
        "1"
    } else if rank == 1 {
        "2"
    } else if rank == 2 {
        "3"
    } else if rank == 3 {
        "4"
    } else if rank == 4 {
        "5"
    } else if rank == 5 {
        "6"
    } else if rank == 6 {
        "7"
    } else {
        "8"
    }
}

/// Appends the line of rank index `rank`.
fn push_rank_line(out: &mut String, bits: u64, rank: usize)
    requires
        rank < 8,
    ensures
        final(out)@ == old(out)@ + rank_line(bits, rank as int),
{
    let digit = rank_digit(rank);
    out.append(" ");
    out.append(MUTED);
    out.append(digit);
    out.append(RESET);
    out.append("   ");
    let ghost head = " "@ + MUTED@ + rank_text(rank as int) + RESET@ + "   "@;
    assert(out@ =~= old(out)@ + head + cells_text(bits, rank as int, 0));
    let mut file: usize = 0;
    while file < 8
        invariant
            file <= 8,
            rank < 8,
            head == " "@ + MUTED@ + rank_text(rank as int) + RESET@ + "   "@,
            out@ == old(out)@ + head + cells_text(bits, rank as int, file as nat),
        decreases 8 - file,
    {
        let index = rank * 8 + file;
        let ghost before = out@;
        if bits & (1u64 << (index as u64)) != 0 {
            out.append(POP);
            out.append("1");
            out.append(RESET);
            out.append("  ");
        } else {
            out.append(MUTED);
            out.append(".");
            out.append(RESET);
            out.append("  ");
        }
        assert(out@ =~= before + cell_text(bits, index as int));
        assert(cells_text(bits, rank as int, (file + 1) as nat) == cells_text(
            bits,
            rank as int,
            file as nat,
        ) + cell_text(bits, index as int));
        file += 1;
    }
    out.append(" ");
    out.append(MUTED);
    out.append(digit);
    out.append(RESET);
    out.append("\n");
    assert(out@ =~= old(out)@ + rank_line(bits, rank as int));
}

#[derive(Default)]
pub struct Bboard(u64);

impl View for Bboard {
    type V = u64;

    closed spec fn view(&self) -> u64 {
        self.0
    }
}

impl Bboard {
    /// The empty board.
    pub fn new() -> (r: Self)
        ensures
            r@ == 0,
    {
        Self(0)
    }

    pub fn bits(self) -> (r: u64)
        ensures
            r == self@,
    {
        self.0
    }

    /// The board as text for a terminal: ranks 8 down to 1 with their digits on
    /// both sides, set squares as a bold `1`, others as a grey `.`, and the
    /// file letters below.
    pub fn to_string(&self) -> (r: String)
        ensures
            r@ == board_text(self@),
    {
        let mut out = String::new();
        out.append("\n");
        let mut printed: usize = 0;
        while printed < 8
            invariant
                printed <= 8,
                out@ == "\n"@ + rank_lines(self@, printed as nat),
            decreases 8 - printed,
        {
            let ghost before = out@;
            push_rank_line(&mut out, self.0, 7 - printed);
            assert(out@ =~= "\n"@ + rank_lines(self@, (printed + 1) as nat));
            printed += 1;
        }
        out.append("     ");
        out.append(MUTED);
        out.append("a  b  c  d  e  f  g  h");
        out.append(RESET);
        out.append("\n");
        assert(out@ =~= board_text(self@));
        out
    }

    /// Sets the squares listed, separated by commas, in algebraic notation (`"a2, e4"`).
    /// Fields are trimmed, empty ones skipped; the first field that is not a
    /// square is an error, and the squares listed before it stay set.
    pub fn set_bits(&mut self, squares: &str) -> (r: Result<(), String>)
        ensures
            ({
                let (bits, bad) = set_squares(old(self)@, fields(squares@));
                &&& final(self)@ == bits
                &&& match r {
                    Ok(_) => bad is None,
                    Err(message) => (bad matches Some(field) && message@
                        == invalid_square_message(field)),
                }
            }),
            old(self)@ | final(self)@ == final(self)@,
    {
        let ghost s = squares@;
        let ghost start_bits = self@;
        let n = squares.unicode_len();
        let mut start: usize = 0;
        let mut p: usize = 0;
        proof {
            assert(s.subrange(0, 0) =~= seq![]);
            lemma_set_squares_grows(start_bits, fields(s));
            assert(start_bits | start_bits == start_bits) by (bit_vector);
        }
        while p <= n
            invariant
                start <= p <= n,
                n == s.len(),
                s == squares@,
                start_bits == old(self)@,
                set_squares(start_bits, fields(s)) == set_squares(
                    self@,
                    fields_from(s, p as int, s.subrange(start as int, p as int)),
                ),
                start_bits | self@ == self@,
                start_bits | set_squares(start_bits, fields(s)).0 == set_squares(start_bits, fields(s)).0,
            decreases n - p,
        {
            if p == n || squares.get_char(p) == ',' {
                let ghost field = s.subrange(start as int, p as int);
                let ghost rest = if p == n {
                    Seq::<Seq<char>>::empty()
                } else {
                    fields_from(s, p + 1, seq![])
                };
                assert(fields_from(s, p as int, field) == seq![field] + rest);
                assert((seq![field] + rest)[0] == field);
                assert((seq![field] + rest).drop_first() =~= rest);
                let ghost before = self@;
                match self.set_field(squares, start, p) {
                    Ok(_) => {},
                    Err(message) => return Err(message),
                }
                proof {
                    let b = before;
                    let i = square_of(trim(field));
                    if i is Some {
                        let x = 1u64 << (i->0 as u64);
                        assert((start_bits | b) == b ==> start_bits | (b | x) == (b | x)) by (bit_vector);
                    }
                }
                proof {
                    let t = trim(field);
                    if t.len() == 0 {
                        assert(set_squares(before, seq![field] + rest) == set_squares(before, rest));
                    } else {
                        let i = square_of(t)->0;
                        assert(set_squares(before, seq![field] + rest) == set_squares(
                            before | (1u64 << (i as u64)),
                            rest,
                        ));
                    }
                    assert(set_squares(start_bits, fields(s)) == set_squares(self@, rest));
                }
                if p == n {
                    assert(set_squares(self@, rest) == (self@, None::<Seq<char>>));
                    return Ok(());
                }
                start = p + 1;
                assert(s.subrange(start as int, (p + 1) as int) =~= seq![]);
            } else {
                assert(s.subrange(start as int, p as int).push(s[p as int]) =~= s.subrange(
                    start as int,
                    (p + 1) as int,
                ));
            }
            p += 1;
        }
        Ok(())
    }

    /// Trims `squares[start..end]` and, unless it is empty, sets the square it names.
    fn set_field(&mut self, squares: &str, start: usize, end: usize) -> (r: Result<(), String>)
        requires
            start <= end <= squares@.len(),
        ensures
            ({
                let t = trim(squares@.subrange(start as int, end as int));
                if t.len() == 0 {
                    r is Ok && final(self)@ == old(self)@
                } else {
                    match square_of(t) {
                        Some(i) => r is Ok && final(self)@ == old(self)@ | (1u64 << (i as u64)),
                        None => final(self)@ == old(self)@ && (r matches Err(message) && message@
                            == invalid_square_message(t)),
                    }
                }
            }),
    {
        let ghost s = squares@;
        let mut a = start;
        while a < end && char_is_whitespace(squares.get_char(a))
            invariant
                start <= a <= end <= s.len(),
                s == squares@,
                trim_start(s.subrange(start as int, end as int)) == trim_start(
                    s.subrange(a as int, end as int),
                ),
            decreases end - a,
        {
            assert(s.subrange(a as int, end as int).drop_first() =~= s.subrange(
                (a + 1) as int,
                end as int,
            ));
            a += 1;
        }
        let mut b = end;
        while b > a && char_is_whitespace(squares.get_char(b - 1))
            invariant
                start <= a <= b <= end <= s.len(),
                s == squares@,
                trim_start(s.subrange(start as int, end as int)) == s.subrange(a as int, end as int),
                trim(s.subrange(start as int, end as int)) == trim_end(
                    s.subrange(a as int, b as int),
                ),
            decreases b - a,
        {
            assert(s.subrange(a as int, b as int).drop_last() =~= s.subrange(
                a as int,
                (b - 1) as int,
            ));
            b -= 1;
        }
        let ghost t = s.subrange(a as int, b as int);
        assert(trim(s.subrange(start as int, end as int)) == t);
        if a == b {
            return Ok(());
        }
        let field = squares.substring_char(a, b);
        match notation_to_index(field) {
            Some(index) => {
                self.0 = self.0 | (1u64 << index);
                Ok(())
            },
            None => {
                let mut message = String::from_str("invalid square: ");
                message.append(field);
                Err(message)
            },
        }
    }
}

/// Setting squares only adds bits.
proof fn lemma_set_squares_grows(bits: u64, fields: Seq<Seq<char>>)
    ensures
        bits | set_squares(bits, fields).0 == set_squares(bits, fields).0,
    decreases fields.len(),
{
    if fields.len() == 0 {
        assert(bits | bits == bits) by (bit_vector);
    } else {
        let t = trim(fields[0]);
        if t.len() == 0 {
            lemma_set_squares_grows(bits, fields.drop_first());
        } else {
            match square_of(t) {
                Some(i) => {
                    let x = 1u64 << (i as u64);
                    let b2 = bits | x;
                    lemma_set_squares_grows(b2, fields.drop_first());
                    let r = set_squares(b2, fields.drop_first()).0;
                    assert(b2 | r == r ==> bits | r == r) by (bit_vector)
                        requires
                            b2 == bits | x,
                    ;
                },
                None => {
                    assert(bits | bits == bits) by (bit_vector);
                },
            }
        }
    }
}


/// `trim_start(s)` is `s` from its first character that is not white space.
proof fn lemma_trim_start_drops_leading(s: Seq<char>) -> (k: int)
    ensures
        0 <= k <= s.len(),
        trim_start(s) == s.subrange(k, s.len() as int),
        forall|i: int| 0 <= i < k ==> is_white_space(#[trigger] s[i]),
        k < s.len() ==> !is_white_space(s[k]),
    decreases s.len(),
{
    if s.len() > 0 && is_white_space(s[0]) {
        let k0 = lemma_trim_start_drops_leading(s.drop_first());
        assert(s.drop_first().subrange(k0, s.drop_first().len() as int) =~= s.subrange(
            k0 + 1,
            s.len() as int,
        ));
        assert forall|i: int| 0 <= i < k0 + 1 implies is_white_space(#[trigger] s[i]) by {
            if i > 0 {
                assert(s[i] == s.drop_first()[i - 1]);
            }
        }
        k0 + 1
    } else {
        assert(s.subrange(0, s.len() as int) =~= s);
        0
    }
}

/// `trim_end(s)` is `s` up to its last character that is not white space.
proof fn lemma_trim_end_drops_trailing(s: Seq<char>) -> (m: int)
    ensures
        0 <= m <= s.len(),
        trim_end(s) == s.subrange(0, m),
        forall|i: int| m <= i < s.len() ==> is_white_space(#[trigger] s[i]),
        m > 0 ==> !is_white_space(s[m - 1]),
    decreases s.len(),
{
    if s.len() > 0 && is_white_space(s.last()) {
        let m0 = lemma_trim_end_drops_trailing(s.drop_last());
        assert(s.drop_last().subrange(0, m0) =~= s.subrange(0, m0));
        assert forall|i: int| m0 <= i < s.len() implies is_white_space(#[trigger] s[i]) by {
            if i < s.len() - 1 {
                assert(s[i] == s.drop_last()[i]);
            }
        }
        m0
    } else {
        assert(s.subrange(0, s.len() as int) =~= s);
        s.len() as int
    }
}

/// Trimming removes all the white space around a text and nothing else: what is
/// left neither starts nor ends with white space, and the text is what is left
/// with only white space before and after it.
pub proof fn lemma_trim_removes_surrounding_white_space(s: Seq<char>)
    ensures
        trim(s).len() > 0 ==> !is_white_space(trim(s)[0]) && !is_white_space(trim(s).last()),
        exists|a: int, b: int|
            0 <= a <= b <= s.len() && trim(s) == s.subrange(a, b) && (forall|i: int|
                0 <= i < a ==> is_white_space(#[trigger] s[i])) && (forall|i: int|
                b <= i < s.len() ==> is_white_space(#[trigger] s[i])),
{
    let k = lemma_trim_start_drops_leading(s);
    let t = trim_start(s);
    let m = lemma_trim_end_drops_trailing(t);
    assert(trim(s) == t.subrange(0, m));
    assert(t.subrange(0, m) =~= s.subrange(k, k + m));
    assert forall|i: int| k + m <= i < s.len() implies is_white_space(#[trigger] s[i]) by {
        assert(s[i] == t[i - k]);
    }
    if m > 0 {
        assert(trim(s)[0] == s[k]);
        assert(trim(s).last() == t[m - 1]);
    }
    assert(0 <= k <= k + m <= s.len() && trim(s) == s.subrange(k, k + m));
}

} // verus!
