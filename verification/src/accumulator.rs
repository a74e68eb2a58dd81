//! The accumulator: the first layer of the network, the sum of the feature
//! transformer's biases and of its weight rows for every active feature.
use vstd::prelude::*;
use vstd::std_specs::bits::axiom_u64_trailing_zeros;

use crate::features::{feature_index, make_index};
use crate::types::game::{
    Color,
    Piece,
    Position,
    Square,
    has_square,
    color_at,
    color_from_index,
    kind_at,
    kind_from_index,
};
use crate::types::network::FeatureTransformer;

verus! {

/// The number of PSQT buckets.
pub const PSQT_BUCKETS: usize = 8;

pub struct Accumulator {
    pub values: Vec<i16>,
    pub psqt_values: [i32; 8],
}

pub struct Accumulators {
    pub white: Accumulator,
    pub black: Accumulator,
}

/// The piece at table position (`c`, `k`).
pub open spec fn board_piece(c: int, k: int) -> Piece {
    Piece { color: color_at(c), kind: kind_at(k) }
}

/// The feature indices of the pieces of `position` seen from `perspective`, in
/// the order a refresh adds them: White's pieces and then Black's, by kind from
/// Pawn to King, and by square from a1 to h8; `active_upto(.., c, k, s)` holds those
/// before square `s` of the bitboard at table position (`c`, `k`).
pub open spec fn active_upto(position: Position, perspective: Color, c: nat, k: nat, s: nat) -> Seq<int>
    decreases c, k, s,
{
    if s > 0 {
        let prev = active_upto(position, perspective, c, k, (s - 1) as nat);
        if c < 2 && k < 6 && position.occupied_by(c as int, k as int, s - 1) {
            prev.push(
                feature_index(
                    perspective,
                    s - 1,
                    board_piece(c as int, k as int),
                    position.king_squares[perspective.idx()] as int,
                ),
            )
        } else {
            prev
        }
    } else if k > 0 {
        active_upto(position, perspective, c, (k - 1) as nat, 64)
    } else if c > 0 {
        active_upto(position, perspective, (c - 1) as nat, 6, 0)
    } else {
        seq![]
    }
}

/// All the feature indices of `position` seen from `perspective`, in the order a refresh adds them.
pub open spec fn active_features(position: Position, perspective: Color) -> Seq<int> {
    active_upto(position, perspective, 2, 0, 0)
}

/// Column `j` of the rows `features` of `w`, rows being `width` wide, summed.
pub open spec fn row_sum_i16(w: Seq<i16>, features: Seq<int>, width: int, j: int) -> int
    decreases features.len(),
{
    if features.len() == 0 {
        0
    } else {
        row_sum_i16(w, features.drop_last(), width, j) + w[features.last() * width + j]
    }
}

/// Column `j` of the rows `features` of `w`, rows being `width` wide, summed.
pub open spec fn row_sum_i32(w: Seq<i32>, features: Seq<int>, width: int, j: int) -> int
    decreases features.len(),
{
    if features.len() == 0 {
        0
    } else {
        row_sum_i32(w, features.drop_last(), width, j) + w[features.last() * width + j]
    }
}

/// What a refresh needs: biases of the accumulator's width, the perspective's
/// king on the board, a weight row for every active feature, and every partial
/// sum, in the order the features are added, within the range of its type.
pub open spec fn can_refresh(
    half_dims: int,
    ft: FeatureTransformer,
    position: Position,
    perspective: Color,
) -> bool {
    let king_square = position.king_squares[perspective.idx()] as int;
    &&& ft.biases@.len() == half_dims
    &&& king_square < 64
    &&& forall|c: int, k: int, s: int|
        0 <= c < 2 && 0 <= k < 6 && 0 <= s < 64 && #[trigger] position.occupied_by(c, k, s) ==> {
            let f = feature_index(perspective, s, board_piece(c, k), king_square);
            &&& f * half_dims + half_dims <= ft.weights@.len()
            &&& f * 8 + 8 <= ft.psqt_weights@.len()
        }
    &&& forall|c: nat, k: nat, s: nat, j: int|
        c < 2 && k < 6 && s <= 64 && 0 <= j < half_dims ==> i16::MIN <= ft.biases@[j] + #[trigger] row_sum_i16(
            ft.weights@,
            active_upto(position, perspective, c, k, s),
            half_dims,
            j,
        ) <= i16::MAX
    &&& forall|c: nat, k: nat, s: nat, j: int|
        c < 2 && k < 6 && s <= 64 && 0 <= j < 8 ==> i32::MIN <= #[trigger] row_sum_i32(
            ft.psqt_weights@,
            active_upto(position, perspective, c, k, s),
            8,
            j,
        ) <= i32::MAX
}

impl Accumulator {
    /// An accumulator of `half_dims` values, all zero.
    pub fn new(half_dims: usize) -> (r: Self)
        ensures
            r.values@.len() == half_dims,
            forall|j: int| 0 <= j < half_dims ==> r.values@[j] == 0,
            forall|j: int| 0 <= j < 8 ==> r.psqt_values@[j] == 0,
    {
        let mut values: Vec<i16> = Vec::with_capacity(half_dims);
        let mut i: usize = 0;
        while i < half_dims
            invariant
                i <= half_dims,
                values@.len() == i,
                forall|j: int| 0 <= j < i ==> values@[j] == 0,
            decreases half_dims - i,
        {
            values.push(0);
            i += 1;
        }
        Self { values, psqt_values: [0, 0, 0, 0, 0, 0, 0, 0] }
    }

    /// Sets the accumulator to the biases plus the weight rows of every piece of
    /// `position` seen from `perspective`, and the PSQT values to the sum of the
    /// PSQT rows of those pieces.
    pub fn refresh(&mut self, ft: &FeatureTransformer, position: &Position, perspective: Color)
        requires
            can_refresh(old(self).values@.len() as int, *ft, *position, perspective),
        ensures
            final(self).values@.len() == old(self).values@.len(),
            forall|j: int|
                0 <= j < final(self).values@.len() ==> final(self).values@[j] == ft.biases@[j]
                    + row_sum_i16(
                    ft.weights@,
                    active_features(*position, perspective),
                    old(self).values@.len() as int,
                    j,
                ),
            forall|j: int|
                0 <= j < 8 ==> final(self).psqt_values@[j] == row_sum_i32(
                    ft.psqt_weights@,
                    active_features(*position, perspective),
                    8,
                    j,
                ),
    {
        let half_dims = self.values.len();
        let ghost hd = half_dims as int;
        let mut b: usize = 0;
        while b < PSQT_BUCKETS
            invariant
                b <= PSQT_BUCKETS,
                half_dims == self.values@.len(),
                forall|i: int| 0 <= i < b ==> self.psqt_values@[i] == 0,
            decreases PSQT_BUCKETS - b,
        {
            self.psqt_values[b] = 0;
            b += 1;
        }
        let mut j: usize = 0;
        while j < half_dims
            invariant
                j <= half_dims,
                half_dims == self.values@.len(),
                ft.biases@.len() == half_dims,
                forall|i: int| 0 <= i < 8 ==> self.psqt_values@[i] == 0,
                forall|i: int| 0 <= i < j ==> self.values@[i] == ft.biases@[i],
            decreases half_dims - j,
        {
            self.values.set(j, ft.biases[j]);
            j += 1;
        }
        assert(forall|i: int|
            0 <= i < half_dims ==> self.values@[i] == ft.biases@[i] + row_sum_i16(
                ft.weights@,
                active_upto(*position, perspective, 0, 0, 0),
                hd,
                i,
            ));
        assert(forall|i: int|
            0 <= i < 8 ==> self.psqt_values@[i] == row_sum_i32(
                ft.psqt_weights@,
                active_upto(*position, perspective, 0, 0, 0),
                8,
                i,
            ));

        let king_square = position.king_square(perspective);
        let mut ci: usize = 0;
        while ci < 2
            invariant
                ci <= 2,
                half_dims == self.values@.len(),
                hd == half_dims,
                king_square == position.king_squares[perspective.idx()],
                can_refresh(hd, *ft, *position, perspective),
                forall|i: int|
                    0 <= i < half_dims ==> self.values@[i] == ft.biases@[i] + row_sum_i16(
                        ft.weights@,
                        active_upto(*position, perspective, ci as nat, 0, 0),
                        hd,
                        i,
                    ),
                forall|i: int|
                    0 <= i < 8 ==> self.psqt_values@[i] == row_sum_i32(
                        ft.psqt_weights@,
                        active_upto(*position, perspective, ci as nat, 0, 0),
                        8,
                        i,
                    ),
            decreases 2 - ci,
        {
            let color = color_from_index(ci);
            let mut ki: usize = 0;
            while ki < 6
                invariant
                    ci < 2,
                    ki <= 6,
                    color.idx() == ci,
                    color == color_at(ci as int),
                    half_dims == self.values@.len(),
                    hd == half_dims,
                    king_square == position.king_squares[perspective.idx()],
                    can_refresh(hd, *ft, *position, perspective),
                    forall|i: int|
                        0 <= i < half_dims ==> self.values@[i] == ft.biases@[i] + row_sum_i16(
                            ft.weights@,
                            active_upto(*position, perspective, ci as nat, ki as nat, 0),
                            hd,
                            i,
                        ),
                    forall|i: int|
                        0 <= i < 8 ==> self.psqt_values@[i] == row_sum_i32(
                            ft.psqt_weights@,
                            active_upto(*position, perspective, ci as nat, ki as nat, 0),
                            8,
                            i,
                        ),
                decreases 6 - ki,
            {
                let kind = kind_from_index(ki);
                let piece = Piece { color, kind };
                let mut bitboard = position.pieces(color, kind);
                let ghost board = bitboard;
                // The squares below `next` have been added; `bitboard` holds the others.
                let ghost mut next: u64 = 0;
                while bitboard != 0
                    invariant
                        ci < 2,
                        ki < 6,
                        next <= 64,
                        forall|j: int|
                            0 <= j < 64 ==> (#[trigger] has_square(bitboard, j) <==> (next <= j
                                && has_square(board, j))),
                        piece == board_piece(ci as int, ki as int),
                        board == position.board(ci as int, ki as int),
                        half_dims == self.values@.len(),
                        hd == half_dims,
                        king_square == position.king_squares[perspective.idx()],
                        can_refresh(hd, *ft, *position, perspective),
                        forall|i: int|
                            0 <= i < half_dims ==> self.values@[i] == ft.biases@[i] + row_sum_i16(
                                ft.weights@,
                                active_upto(*position, perspective, ci as nat, ki as nat, next as nat),
                                hd,
                                i,
                            ),
                        forall|i: int|
                            0 <= i < 8 ==> self.psqt_values@[i] == row_sum_i32(
                                ft.psqt_weights@,
                                active_upto(*position, perspective, ci as nat, ki as nat, next as nat),
                                8,
                                i,
                            ),
                    decreases 64 - next,
                {
                    let zeros = bitboard.trailing_zeros();
                    let ghost t = zeros as u64;
                    let ghost bits = bitboard;
                    proof {
                        axiom_u64_trailing_zeros(bitboard);
                        lemma_bit_is_square(bits, t);
                        assert(has_square(bits, t as int));
                        assert forall|j: int| next <= j < t implies !#[trigger] position.occupied_by(
                            ci as int,
                            ki as int,
                            j,
                        ) by {
                            lemma_bit_is_square(bits, j as u64);
                            assert(!has_square(bits, j));
                        }
                        lemma_skip_empty(*position, perspective, ci as nat, ki as nat, next as nat, t as nat);
                        lemma_low_bits_clear(bits, t);
                    }
                    let square = zeros as Square;
                    bitboard &= bitboard - 1;
                    let ghost before = active_upto(*position, perspective, ci as nat, ki as nat, t as nat);
                    let ghost after = active_upto(*position, perspective, ci as nat, ki as nat, (t + 1) as nat);
                    let index = make_index(perspective, square, piece, king_square);
                    assert(after == before.push(index as int));
                    assert(after.drop_last() =~= before);
                    assert(position.occupied_by(ci as int, ki as int, t as int));
                    assert(index * hd + hd <= ft.weights@.len());
                    assert(index * 8 + 8 <= ft.psqt_weights@.len());
                    // Both lengths fit in a `usize`, and so do the row offsets below them.
                    let weights_len = ft.weights.len();
                    let psqt_len = ft.psqt_weights.len();
                    assert(index * hd + hd <= weights_len && index * 8 + 8 <= psqt_len);
                    let weight_offset = index * half_dims;
                    let psqt_offset = index * PSQT_BUCKETS;
                    proof {
                        assert forall|i: int| 0 <= i < half_dims implies i16::MIN <= #[trigger] self.values@[i]
                            + ft.weights@[weight_offset + i] <= i16::MAX by {
                            assert(row_sum_i16(ft.weights@, after, hd, i) == row_sum_i16(
                                ft.weights@,
                                before,
                                hd,
                                i,
                            ) + ft.weights@[index * hd + i]);
                        }
                        assert forall|i: int| 0 <= i < 8 implies i32::MIN <= #[trigger] self.psqt_values@[i]
                            + ft.psqt_weights@[psqt_offset + i] <= i32::MAX by {
                            assert(row_sum_i32(ft.psqt_weights@, after, 8, i) == row_sum_i32(
                                ft.psqt_weights@,
                                before,
                                8,
                                i,
                            ) + ft.psqt_weights@[index * 8 + i]);
                        }
                    }
                    add_row_i16(&mut self.values, ft.weights.as_slice(), weight_offset);
                    add_row_i32(&mut self.psqt_values, ft.psqt_weights.as_slice(), psqt_offset);
                    proof {
                        assert forall|i: int| 0 <= i < half_dims implies self.values@[i] == ft.biases@[i]
                            + row_sum_i16(ft.weights@, after, hd, i) by {
                            assert(row_sum_i16(ft.weights@, after, hd, i) == row_sum_i16(
                                ft.weights@,
                                before,
                                hd,
                                i,
                            ) + ft.weights@[index * hd + i]);
                        }
                        assert forall|i: int| 0 <= i < 8 implies self.psqt_values@[i] == row_sum_i32(
                            ft.psqt_weights@,
                            after,
                            8,
                            i,
                        ) by {
                            assert(row_sum_i32(ft.psqt_weights@, after, 8, i) == row_sum_i32(
                                ft.psqt_weights@,
                                before,
                                8,
                                i,
                            ) + ft.psqt_weights@[index * 8 + i]);
                        }
                        assert forall|j: int| 0 <= j < 64 implies (#[trigger] has_square(bitboard, j) <==> (t
                            + 1 <= j && has_square(board, j))) by {
                            lemma_clear_lowest(bits, (bits - 1) as u64, t, j as u64);
                            lemma_bit_is_square(bits, j as u64);
                            assert(has_square(bits, j) == (next <= j && has_square(board, j)));
                        }
                        next = (t + 1) as u64;
                    }
                }
                proof {
                    assert forall|j: int| next <= j < 64 implies !#[trigger] position.occupied_by(
                        ci as int,
                        ki as int,
                        j,
                    ) by {
                        lemma_bit_is_square(bitboard, j as u64);
                        assert(!has_square(bitboard, j));
                    }
                    lemma_skip_empty(*position, perspective, ci as nat, ki as nat, next as nat, 64);
                }
                ki += 1;
            }
            ci += 1;
        }
    }
}

/// Adding the squares of a bitboard from `from` to `to` adds nothing when none of them is occupied.
proof fn lemma_skip_empty(position: Position, perspective: Color, c: nat, k: nat, from: nat, to: nat)
    requires
        from <= to <= 64,
        forall|j: int| from <= j < to ==> !#[trigger] position.occupied_by(c as int, k as int, j),
    ensures
        active_upto(position, perspective, c, k, to) == active_upto(position, perspective, c, k, from),
    decreases to - from,
{
    if to > from {
        lemma_skip_empty(position, perspective, c, k, from, (to - 1) as nat);
    }
}

/// Bit `j` of `x` is its square `j`; the empty bitboard has no square.
proof fn lemma_bit_is_square(x: u64, j: u64)
    by (bit_vector)
    requires
        j < 64,
    ensures
        ((x >> j) & 1 == 1) == (x & (1u64 << j) != 0),
        ((x >> j) & 1 == 0) == (x & (1u64 << j) == 0),
        0u64 & (1u64 << j) == 0,
{
}

/// Clearing the low bits of `x` one more: valid when that bit is already clear.
proof fn lemma_clear_one_more(x: u64, n: u64, m: u64)
    by (bit_vector)
    requires
        n < 63,
        m == n + 1,
        (x >> n) << n == x,
        (x >> n) & 1 == 0,
    ensures
        (x >> m) << m == x,
{
}

/// The bits of `x` below `n` are clear when each of them is.
proof fn lemma_low_bits_clear(x: u64, n: u64)
    requires
        n < 64,
        forall|j: u64| 0 <= j < n ==> #[trigger] (x >> j) & 1u64 == 0u64,
    ensures
        (x >> n) << n == x,
    decreases n,
{
    if n == 0 {
        assert((x >> 0u64) << 0u64 == x) by (bit_vector);
    } else {
        let p = (n - 1) as u64;
        lemma_low_bits_clear(x, p);
        assert((x >> p) & 1u64 == 0u64);
        lemma_clear_one_more(x, p, n);
    }
}

/// `bits & (bits - 1)` is `bits` without its lowest square `t`.
proof fn lemma_clear_lowest(bits: u64, less: u64, t: u64, j: u64)
    by (bit_vector)
    requires
        t < 64,
        j < 64,
        (bits >> t) << t == bits,
        (bits >> t) & 1 == 1,
        less == bits - 1,
    ensures
        ((bits & less) & (1u64 << j) != 0) == (bits & (1u64 << j) != 0 && j != t),
{
}

/// Adds the `values.len()` weights from `offset` to the values, one by one.
fn add_row_i16(values: &mut Vec<i16>, weights: &[i16], offset: usize)
    requires
        offset + old(values)@.len() <= weights@.len(),
        forall|i: int|
            0 <= i < old(values)@.len() ==> i16::MIN <= #[trigger] old(values)@[i] + weights@[offset + i]
                <= i16::MAX,
    ensures
        final(values)@.len() == old(values)@.len(),
        forall|i: int|
            0 <= i < old(values)@.len() ==> #[trigger] final(values)@[i] == old(values)@[i] + weights@[offset
                + i],
{
    let n = values.len();
    let weights_len = weights.len();
    let mut j: usize = 0;
    while j < n
        invariant
            j <= n,
            weights_len == weights@.len(),
            n == old(values)@.len(),
            values@.len() == n,
            offset + n <= weights@.len(),
            forall|i: int|
                0 <= i < n ==> i16::MIN <= #[trigger] old(values)@[i] + weights@[offset + i] <= i16::MAX,
            forall|i: int| 0 <= i < j ==> #[trigger] values@[i] == old(values)@[i] + weights@[offset + i],
            forall|i: int| j <= i < n ==> #[trigger] values@[i] == old(values)@[i],
        decreases n - j,
    {
        let v = values[j] + weights[offset + j];
        values.set(j, v);
        j += 1;
    }
}

/// Adds the eight weights from `offset` to the PSQT values, one by one.
fn add_row_i32(values: &mut [i32; 8], weights: &[i32], offset: usize)
    requires
        offset + 8 <= weights@.len(),
        forall|i: int| 0 <= i < 8 ==> i32::MIN <= #[trigger] old(values)@[i] + weights@[offset + i] <= i32::MAX,
    ensures
        forall|i: int| 0 <= i < 8 ==> #[trigger] final(values)@[i] == old(values)@[i] + weights@[offset + i],
{
    let weights_len = weights.len();
    let mut j: usize = 0;
    while j < 8
        invariant
            j <= 8,
            weights_len == weights@.len(),
            offset + 8 <= weights@.len(),
            forall|i: int| 0 <= i < 8 ==> i32::MIN <= #[trigger] old(values)@[i] + weights@[offset + i] <= i32::MAX,
            forall|i: int| 0 <= i < j ==> #[trigger] values@[i] == old(values)@[i] + weights@[offset + i],
            forall|i: int| j <= i < 8 ==> #[trigger] values@[i] == old(values)@[i],
        decreases 8 - j,
    {
        let v = values[j] + weights[offset + j];
        values[j] = v;
        j += 1;
    }
}

} // verus!
