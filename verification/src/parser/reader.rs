//! A cursor over the bytes of an NNUE file: little-endian integers, raw arrays
//! and blocks of signed LEB128 values.
//!
//! Every read is described by a spec function of the bytes and the current
//! offset that gives the outcome and the offset afterwards. A read that fails
//! leaves the offset where the failing step left it, as the spec functions say.
use vstd::prelude::*;

verus! {

/// Why a read failed.
#[derive(Clone, Copy, Debug, PartialEq, Eq, Structural)]
pub enum ReadError {
    /// `offset + length` does not fit in a `usize`.
    LengthOverflow,
    /// Fewer bytes remain than the read asks for.
    UnexpectedEof,
    /// A compressed block does not start with `COMPRESSED_LEB128`.
    InvalidLeb128Magic,
    /// The payload ends inside a signed LEB128 value.
    TruncatedLeb128,
    /// A signed LEB128 value whose decoded value does not fit in an `i32`.
    MalformedLeb128,
    /// A signed LEB128 value that continues past its fifth byte.
    OverlongLeb128,
    /// A value read for an `i16` array lies outside the `i16` range.
    OutOfI16Range,
    /// This many payload bytes follow the last value the block was read for.
    LeftoverPayload(usize),
    /// This many bytes were left unread.
    TrailingBytes(usize),
}

/// A result whose success value is taken by its view.
pub open spec fn viewed<T: View, E>(r: Result<T, E>) -> Result<T::V, E> {
    match r {
        Ok(t) => Ok(t@),
        Err(e) => Err(e),
    }
}

// ---------------------------------------------------------------------------
// The format, as spec functions of the bytes `d` and the offset `pos`.
// Each gives the outcome and the offset after the read.
// ---------------------------------------------------------------------------

/// Takes `len` bytes at `pos`.
pub open spec fn spec_read_bytes(d: Seq<u8>, pos: int, len: int) -> (Result<Seq<u8>, ReadError>, int) {
    if pos + len > usize::MAX {
        (Err(ReadError::LengthOverflow), pos)
    } else if pos + len > d.len() {
        (Err(ReadError::UnexpectedEof), pos)
    } else {
        (Ok(d.subrange(pos, pos + len)), pos + len)
    }
}

/// The unsigned integer whose little-endian bytes are `b[0..4]`.
pub open spec fn u32_le(b: Seq<u8>) -> u32 {
    (b[0] + b[1] * 0x100 + b[2] * 0x1_0000 + b[3] * 0x100_0000) as u32
}

/// The two's-complement integer whose little-endian bytes are `b[0..4]`.
pub open spec fn i32_le(b: Seq<u8>) -> i32 {
    let u = u32_le(b);
    if u < 0x8000_0000 {
        u as i32
    } else {
        (u - 0x1_0000_0000) as i32
    }
}

/// The two's-complement reading of the byte `b`.
pub open spec fn i8_of(b: u8) -> i8 {
    if b < 0x80 {
        b as i8
    } else {
        (b - 0x100) as i8
    }
}

pub open spec fn spec_read_u32(d: Seq<u8>, pos: int) -> (Result<u32, ReadError>, int) {
    match spec_read_bytes(d, pos, 4) {
        (Ok(b), p) => (Ok(u32_le(b)), p),
        (Err(e), p) => (Err(e), p),
    }
}

pub open spec fn spec_read_i32(d: Seq<u8>, pos: int) -> (Result<i32, ReadError>, int) {
    match spec_read_bytes(d, pos, 4) {
        (Ok(b), p) => (Ok(i32_le(b)), p),
        (Err(e), p) => (Err(e), p),
    }
}

pub open spec fn spec_read_i8(d: Seq<u8>, pos: int) -> (Result<i8, ReadError>, int) {
    match spec_read_bytes(d, pos, 1) {
        (Ok(b), p) => (Ok(i8_of(b[0])), p),
        (Err(e), p) => (Err(e), p),
    }
}

/// `count` bytes read one by one as `i8`, stopping at the first failure.
pub open spec fn spec_read_i8s(d: Seq<u8>, pos: int, count: nat) -> (Result<Seq<i8>, ReadError>, int)
    decreases count,
{
    if count == 0 {
        (Ok(seq![]), pos)
    } else {
        match spec_read_i8s(d, pos, (count - 1) as nat) {
            (Err(e), p) => (Err(e), p),
            (Ok(vs), p) => match spec_read_i8(d, p) {
                (Err(e), p2) => (Err(e), p2),
                (Ok(v), p2) => (Ok(vs.push(v)), p2),
            },
        }
    }
}

/// `count` little-endian `i32` values read one by one, stopping at the first failure.
pub open spec fn spec_read_i32s(d: Seq<u8>, pos: int, count: nat) -> (Result<Seq<i32>, ReadError>, int)
    decreases count,
{
    if count == 0 {
        (Ok(seq![]), pos)
    } else {
        match spec_read_i32s(d, pos, (count - 1) as nat) {
            (Err(e), p) => (Err(e), p),
            (Ok(vs), p) => match spec_read_i32(d, p) {
                (Err(e), p2) => (Err(e), p2),
                (Ok(v), p2) => (Ok(vs.push(v)), p2),
            },
        }
    }
}

/// `128` to the power `k`.
pub open spec fn pow128(k: nat) -> int
    decreases k,
{
    if k == 0 {
        1
    } else {
        128 * pow128((k - 1) as nat)
    }
}

/// The rest of a signed LEB128 value at `off` in the payload `p`, of which `k`
/// bytes, worth `acc`, were read already. A byte below 0x80 ends the value;
/// its bit 0x40 is the sign, worth `-128^(k+1)`. The value must fit in an
/// `i32` and take at most five bytes.
pub open spec fn sleb_from(p: Seq<u8>, off: int, k: nat, acc: int) -> (Result<i32, ReadError>, int)
    decreases 5 - k,
{
    if k >= 5 {
        (Err(ReadError::OverlongLeb128), off)
    } else if off < 0 || off >= p.len() {
        (Err(ReadError::TruncatedLeb128), off)
    } else {
        let b = p[off];
        let acc2 = acc + (b % 128) * pow128(k);
        if b < 128 {
            let v = if b % 128 >= 64 {
                acc2 - pow128(k + 1)
            } else {
                acc2
            };
            if i32::MIN <= v <= i32::MAX {
                (Ok(v as i32), off + 1)
            } else {
                (Err(ReadError::MalformedLeb128), off + 1)
            }
        } else {
            sleb_from(p, off + 1, k + 1, acc2)
        }
    }
}

/// The signed LEB128 value at `off` in the payload `p`.
pub open spec fn spec_sleb(p: Seq<u8>, off: int) -> (Result<i32, ReadError>, int) {
    sleb_from(p, off, 0, 0)
}

/// `count` consecutive signed LEB128 values from `off`, stopping at the first failure.
pub open spec fn sleb_values(p: Seq<u8>, off: int, count: nat) -> (Result<Seq<i32>, ReadError>, int)
    decreases count,
{
    if count == 0 {
        (Ok(seq![]), off)
    } else {
        match sleb_values(p, off, (count - 1) as nat) {
            (Err(e), o) => (Err(e), o),
            (Ok(vs), o) => match spec_sleb(p, o) {
                (Err(e), o2) => (Err(e), o2),
                (Ok(v), o2) => (Ok(vs.push(v)), o2),
            },
        }
    }
}

/// As `sleb_values`, but each value must fit in an `i16`.
pub open spec fn sleb_values_i16(p: Seq<u8>, off: int, count: nat) -> (Result<Seq<i16>, ReadError>, int)
    decreases count,
{
    if count == 0 {
        (Ok(seq![]), off)
    } else {
        match sleb_values_i16(p, off, (count - 1) as nat) {
            (Err(e), o) => (Err(e), o),
            (Ok(vs), o) => match spec_sleb(p, o) {
                (Err(e), o2) => (Err(e), o2),
                (Ok(v), o2) => if i16::MIN <= v <= i16::MAX {
                    (Ok(vs.push(v as i16)), o2)
                } else {
                    (Err(ReadError::OutOfI16Range), o2)
                },
            },
        }
    }
}

/// The bytes `COMPRESSED_LEB128`, which open a compressed block.
pub open spec fn leb128_magic() -> Seq<u8> {
    seq![67u8, 79, 77, 80, 82, 69, 83, 83, 69, 68, 95, 76, 69, 66, 49, 50, 56]
}

/// A compressed block: the magic, the payload length as a little-endian `u32`, the payload.
pub open spec fn spec_leb128_payload(d: Seq<u8>, pos: int) -> (Result<Seq<u8>, ReadError>, int) {
    match spec_read_bytes(d, pos, 17) {
        (Err(e), p) => (Err(e), p),
        (Ok(m), p) => if m != leb128_magic() {
            (Err(ReadError::InvalidLeb128Magic), p)
        } else {
            match spec_read_u32(d, p) {
                (Err(e), p2) => (Err(e), p2),
                (Ok(n), p2) => spec_read_bytes(d, p2, n as int),
            }
        },
    }
}

/// What is left of a payload of length `len` once the values end at `off`.
pub open spec fn spec_payload_consumed(len: int, off: int) -> Result<(), ReadError> {
    if off == len {
        Ok(())
    } else {
        Err(ReadError::LeftoverPayload((len - off) as usize))
    }
}

/// A compressed block holding exactly `count` `i32` values.
pub open spec fn spec_read_leb128_i32(d: Seq<u8>, pos: int, count: nat) -> (Result<Seq<i32>, ReadError>, int) {
    match spec_leb128_payload(d, pos) {
        (Err(e), p) => (Err(e), p),
        (Ok(payload), p) => match sleb_values(payload, 0, count) {
            (Err(e), _) => (Err(e), p),
            (Ok(vs), o) => match spec_payload_consumed(payload.len() as int, o) {
                Ok(_) => (Ok(vs), p),
                Err(e) => (Err(e), p),
            },
        },
    }
}

/// A compressed block holding exactly `count` `i16` values.
pub open spec fn spec_read_leb128_i16(d: Seq<u8>, pos: int, count: nat) -> (Result<Seq<i16>, ReadError>, int) {
    match spec_leb128_payload(d, pos) {
        (Err(e), p) => (Err(e), p),
        (Ok(payload), p) => match sleb_values_i16(payload, 0, count) {
            (Err(e), _) => (Err(e), p),
            (Ok(vs), o) => match spec_payload_consumed(payload.len() as int, o) {
                Ok(_) => (Ok(vs), p),
                Err(e) => (Err(e), p),
            },
        },
    }
}

/// One compressed block holding `first` and then `second` `i32` values, exactly.
pub open spec fn spec_read_shared_leb128_i32(d: Seq<u8>, pos: int, first: nat, second: nat) -> (
    Result<(Seq<i32>, Seq<i32>), ReadError>,
    int,
) {
    match spec_leb128_payload(d, pos) {
        (Err(e), p) => (Err(e), p),
        (Ok(payload), p) => match sleb_values(payload, 0, first) {
            (Err(e), _) => (Err(e), p),
            (Ok(xs), o) => match sleb_values(payload, o, second) {
                (Err(e), _) => (Err(e), p),
                (Ok(ys), o2) => match spec_payload_consumed(payload.len() as int, o2) {
                    Ok(_) => (Ok((xs, ys)), p),
                    Err(e) => (Err(e), p),
                },
            },
        },
    }
}

/// Whether all of `d` has been read at `pos`.
pub open spec fn spec_finish(d: Seq<u8>, pos: int) -> Result<(), ReadError> {
    if pos == d.len() {
        Ok(())
    } else {
        Err(ReadError::TrailingBytes((d.len() - pos) as usize))
    }
}

// ---------------------------------------------------------------------------
// The reader.
// ---------------------------------------------------------------------------

pub struct NNUEReader<'a> {
    bytes: &'a [u8],
    offset: usize,
}

impl<'a> NNUEReader<'a> {
    #[verifier::type_invariant]
    spec fn offset_in_bounds(self) -> bool {
        self.offset <= self.bytes@.len()
    }

    /// The bytes being read.
    pub closed spec fn data(&self) -> Seq<u8> {
        self.bytes@
    }

    /// The offset of the next byte to read.
    pub closed spec fn pos(&self) -> int {
        self.offset as int
    }

    pub fn new(bytes: &'a [u8]) -> (r: Self)
        ensures
            r.data() == bytes@,
            r.pos() == 0,
    {
        NNUEReader { bytes, offset: 0 }
    }

    /// Succeeds when every byte has been read.
    pub fn finish(&self) -> (r: Result<(), ReadError>)
        ensures
            r == spec_finish(self.data(), self.pos()),
    {
        proof {
            use_type_invariant(self);
        }
        if self.offset == self.bytes.len() {
            Ok(())
        } else {
            Err(ReadError::TrailingBytes(self.bytes.len() - self.offset))
        }
    }

    pub fn read_u32(&mut self) -> (r: Result<u32, ReadError>)
        ensures
            final(self).data() == old(self).data(),
            final(self).pos() <= final(self).data().len(),
            (r, final(self).pos()) == spec_read_u32(old(self).data(), old(self).pos()),
    {
        let bytes = match self.read_bytes(4) {
            Ok(b) => b,
            Err(e) => return Err(e),
        };
        Ok(bytes[0] as u32 + bytes[1] as u32 * 0x100 + bytes[2] as u32 * 0x1_0000 + bytes[3] as u32
            * 0x100_0000)
    }

    /// The next `len` bytes.
    pub fn read_bytes(&mut self, len: usize) -> (r: Result<&'a [u8], ReadError>)
        ensures
            final(self).data() == old(self).data(),
            final(self).pos() <= final(self).data().len(),
            (viewed(r), final(self).pos()) == spec_read_bytes(
                old(self).data(),
                old(self).pos(),
                len as int,
            ),
    {
        proof {
            use_type_invariant(&*self);
        }
        let start = self.offset;
        let end = match start.checked_add(len) {
            Some(end) => end,
            None => return Err(ReadError::LengthOverflow),
        };
        let bytes: &'a [u8] = self.bytes;
        if end > bytes.len() {
            return Err(ReadError::UnexpectedEof);
        }
        let slice = &bytes[start..end];
        self.offset = end;
        Ok(slice)
    }

    /// A compressed block holding exactly `count` values, each of which must fit in an `i16`.
    #[verifier::loop_isolation(false)]
    pub fn read_leb128_i16(&mut self, count: usize) -> (r: Result<Vec<i16>, ReadError>)
        ensures
            final(self).data() == old(self).data(),
            final(self).pos() <= final(self).data().len(),
            (viewed(r), final(self).pos()) == spec_read_leb128_i16(
                old(self).data(),
                old(self).pos(),
                count as nat,
            ),
    {
        let payload = match self.read_leb128_payload() {
            Ok(p) => p,
            Err(e) => return Err(e),
        };
        let ghost after_payload = *self;
        let mut offset: usize = 0;
        let mut values: Vec<i16> = Vec::with_capacity(count);
        let mut i: usize = 0;
        while i < count
            invariant
                i <= count,
                *self == after_payload,
                offset <= payload@.len(),
                sleb_values_i16(payload@, 0, i as nat) == (
                    Ok::<Seq<i16>, ReadError>(values@),
                    offset as int,
                ),
            decreases count - i,
        {
            let v = match read_signed_leb128(payload, &mut offset) {
                Ok(v) => v,
                Err(e) => {
                    proof {
                        lemma_sleb_values_i16_fails_on(payload@, 0, (i + 1) as nat, count as nat);
                    }
                    return Err(e);
                },
            };
            if v < -32768 || v > 32767 {
                proof {
                    lemma_sleb_values_i16_fails_on(payload@, 0, (i + 1) as nat, count as nat);
                }
                return Err(ReadError::OutOfI16Range);
            }
            values.push(v as i16);
            i += 1;
        }
        match ensure_payload_consumed(payload, offset) {
            Ok(_) => Ok(values),
            Err(e) => Err(e),
        }
    }

    /// A compressed block holding exactly `count` `i32` values.
    pub fn read_leb128_i32(&mut self, count: usize) -> (r: Result<Vec<i32>, ReadError>)
        ensures
            final(self).data() == old(self).data(),
            final(self).pos() <= final(self).data().len(),
            (viewed(r), final(self).pos()) == spec_read_leb128_i32(
                old(self).data(),
                old(self).pos(),
                count as nat,
            ),
    {
        let payload = match self.read_leb128_payload() {
            Ok(p) => p,
            Err(e) => return Err(e),
        };
        let mut offset: usize = 0;
        let values = match read_sleb_values(payload, &mut offset, count) {
            Ok(v) => v,
            Err(e) => return Err(e),
        };
        match ensure_payload_consumed(payload, offset) {
            Ok(_) => Ok(values),
            Err(e) => Err(e),
        }
    }

    /// Reads one shared LEB128 block and splits it into two i32 arrays.
    pub fn read_shared_leb128_i32(&mut self, first_count: usize, second_count: usize) -> (r: Result<
        (Vec<i32>, Vec<i32>),
        ReadError,
    >)
        ensures
            final(self).data() == old(self).data(),
            final(self).pos() <= final(self).data().len(),
            (viewed(r), final(self).pos()) == spec_read_shared_leb128_i32(
                old(self).data(),
                old(self).pos(),
                first_count as nat,
                second_count as nat,
            ),
    {
        let payload = match self.read_leb128_payload() {
            Ok(p) => p,
            Err(e) => return Err(e),
        };
        let mut offset: usize = 0;
        let first = match read_sleb_values(payload, &mut offset, first_count) {
            Ok(v) => v,
            Err(e) => return Err(e),
        };
        let second = match read_sleb_values(payload, &mut offset, second_count) {
            Ok(v) => v,
            Err(e) => return Err(e),
        };
        match ensure_payload_consumed(payload, offset) {
            Ok(_) => Ok((first, second)),
            Err(e) => Err(e),
        }
    }

    /// The payload of the compressed block at the current offset.
    #[verifier::loop_isolation(false)]
    fn read_leb128_payload(&mut self) -> (r: Result<&'a [u8], ReadError>)
        ensures
            final(self).data() == old(self).data(),
            final(self).pos() <= final(self).data().len(),
            (viewed(r), final(self).pos()) == spec_leb128_payload(old(self).data(), old(self).pos()),
    {
        // COMPRESSED_LEB128
        let magic: [u8; 17] = [67, 79, 77, 80, 82, 69, 83, 83, 69, 68, 95, 76, 69, 66, 49, 50, 56];
        let actual_magic = match self.read_bytes(17) {
            Ok(m) => m,
            Err(e) => return Err(e),
        };
        assert(magic@ == leb128_magic());
        let ghost after_magic = *self;
        let mut i: usize = 0;
        while i < 17
            invariant
                i <= 17,
                *self == after_magic,
                actual_magic@.len() == 17,
                magic@ == leb128_magic(),
                forall|j: int| 0 <= j < i ==> actual_magic@[j] == magic@[j],
            decreases 17 - i,
        {
            if actual_magic[i] != magic[i] {
                assert(actual_magic@ != leb128_magic());
                return Err(ReadError::InvalidLeb128Magic);
            }
            i += 1;
        }
        assert(actual_magic@ =~= leb128_magic());
        let byte_count = match self.read_u32() {
            Ok(n) => n as usize,
            Err(e) => return Err(e),
        };
        self.read_bytes(byte_count)
    }

    pub fn read_i8(&mut self) -> (r: Result<i8, ReadError>)
        ensures
            final(self).data() == old(self).data(),
            final(self).pos() <= final(self).data().len(),
            (r, final(self).pos()) == spec_read_i8(old(self).data(), old(self).pos()),
    {
        let bytes = match self.read_bytes(1) {
            Ok(b) => b,
            Err(e) => return Err(e),
        };
        let b = bytes[0];
        assert((b as i8) as int == if b < 0x80 { b as int } else { b - 0x100 }) by (bit_vector);
        Ok(b as i8)
    }

    pub fn read_i32(&mut self) -> (r: Result<i32, ReadError>)
        ensures
            final(self).data() == old(self).data(),
            final(self).pos() <= final(self).data().len(),
            (r, final(self).pos()) == spec_read_i32(old(self).data(), old(self).pos()),
    {
        let bytes = match self.read_bytes(4) {
            Ok(b) => b,
            Err(e) => return Err(e),
        };
        let u: u32 = bytes[0] as u32 + bytes[1] as u32 * 0x100 + bytes[2] as u32 * 0x1_0000
            + bytes[3] as u32 * 0x100_0000;
        assert((u as i32) as int == if u < 0x8000_0000 { u as int } else { u - 0x1_0000_0000 })
            by (bit_vector);
        Ok(u as i32)
    }

    /// `count` bytes, each read as an `i8`.
    pub fn read_i8_vec(&mut self, count: usize) -> (r: Result<Vec<i8>, ReadError>)
        ensures
            final(self).data() == old(self).data(),
            final(self).pos() <= final(self).data().len(),
            (viewed(r), final(self).pos()) == spec_read_i8s(
                old(self).data(),
                old(self).pos(),
                count as nat,
            ),
    {
        proof {
            use_type_invariant(&*self);
        }
        let mut values: Vec<i8> = Vec::new();
        let mut i: usize = 0;
        while i < count
            invariant
                i <= count,
                self.data() == old(self).data(),
                self.pos() <= self.data().len(),
                spec_read_i8s(old(self).data(), old(self).pos(), i as nat) == (
                    Ok::<Seq<i8>, ReadError>(values@),
                    self.pos(),
                ),
            decreases count - i,
        {
            match self.read_i8() {
                Ok(v) => values.push(v),
                Err(e) => {
                    proof {
                        lemma_read_i8s_fails_on(old(self).data(), old(self).pos(), (i + 1) as nat, count as nat);
                    }
                    return Err(e);
                },
            }
            i += 1;
        }
        Ok(values)
    }

    /// `count` little-endian `i32` values.
    pub fn read_i32_vec(&mut self, count: usize) -> (r: Result<Vec<i32>, ReadError>)
        ensures
            final(self).data() == old(self).data(),
            final(self).pos() <= final(self).data().len(),
            (viewed(r), final(self).pos()) == spec_read_i32s(
                old(self).data(),
                old(self).pos(),
                count as nat,
            ),
    {
        proof {
            use_type_invariant(&*self);
        }
        let mut values: Vec<i32> = Vec::new();
        let mut i: usize = 0;
        while i < count
            invariant
                i <= count,
                self.data() == old(self).data(),
                self.pos() <= self.data().len(),
                spec_read_i32s(old(self).data(), old(self).pos(), i as nat) == (
                    Ok::<Seq<i32>, ReadError>(values@),
                    self.pos(),
                ),
            decreases count - i,
        {
            match self.read_i32() {
                Ok(v) => values.push(v),
                Err(e) => {
                    proof {
                        lemma_read_i32s_fails_on(old(self).data(), old(self).pos(), (i + 1) as nat, count as nat);
                    }
                    return Err(e);
                },
            }
            i += 1;
        }
        Ok(values)
    }
}

/// Succeeds when the values used the whole payload.
fn ensure_payload_consumed(payload: &[u8], offset: usize) -> (r: Result<(), ReadError>)
    requires
        offset <= payload@.len(),
    ensures
        r == spec_payload_consumed(payload@.len() as int, offset as int),
{
    if offset == payload.len() {
        Ok(())
    } else {
        Err(ReadError::LeftoverPayload(payload.len() - offset))
    }
}

/// `count` signed LEB128 values from `*offset` in `payload`.
#[verifier::loop_isolation(false)]
fn read_sleb_values(payload: &[u8], offset: &mut usize, count: usize) -> (r: Result<Vec<i32>, ReadError>)
    requires
        *old(offset) <= payload@.len(),
    ensures
        *final(offset) <= payload@.len(),
        (viewed(r), *final(offset) as int) == sleb_values(payload@, *old(offset) as int, count as nat),
{
    let mut values: Vec<i32> = Vec::with_capacity(count);
    let mut i: usize = 0;
    while i < count
        invariant
            i <= count,
            *offset <= payload@.len(),
            sleb_values(payload@, *old(offset) as int, i as nat) == (
                Ok::<Seq<i32>, ReadError>(values@),
                *offset as int,
            ),
        decreases count - i,
    {
        let v = match read_signed_leb128(payload, offset) {
            Ok(v) => v,
            Err(e) => {
                proof {
                    lemma_sleb_values_fails_on(payload@, *old(offset) as int, (i + 1) as nat, count as nat);
                }
                return Err(e);
            },
        };
        values.push(v);
        i += 1;
    }
    Ok(values)
}

/// Decodes one signed LEB128 value at `*offset` and moves `*offset` past the bytes read.
#[verifier::loop_isolation(false)]
fn read_signed_leb128(payload: &[u8], offset: &mut usize) -> (r: Result<i32, ReadError>)
    requires
        *old(offset) <= payload@.len(),
    ensures
        *final(offset) <= payload@.len(),
        (r, *final(offset) as int) == spec_sleb(payload@, *old(offset) as int),
{
    let ghost start = *offset as int;
    let ghost mut acc: int = 0;
    let mut result: u32 = 0;
    let mut shift: usize = 0;
    let mut byte_index: usize = 0;
    while byte_index < 5
        invariant
            byte_index <= 5,
            shift == 7 * byte_index,
            *offset <= payload@.len(),
            0 <= acc < pow128(byte_index as nat),
            byte_index < 5 ==> result == acc,
            spec_sleb(payload@, start) == sleb_from(payload@, *offset as int, byte_index as nat, acc),
        decreases 5 - byte_index,
    {
        proof {
            reveal_with_fuel(pow128, 6);
        }
        if *offset >= payload.len() {
            return Err(ReadError::TruncatedLeb128);
        }
        let byte = payload[*offset];
        *offset += 1;
        let ghost acc2 = acc + (byte % 128) * pow128(byte_index as nat);
        proof {
            lemma_digit_bits(byte);
        }
        let digit = (byte & 0x7f) as u32;
        let ghost before = result;
        result = result | (digit << ((shift % 32) as u32));
        proof {
            lemma_or_digit(before, digit, byte_index as nat, (shift % 32) as u32);
            lemma_pow128_values();
        }
        if byte & 0x80 == 0 {
            // The last byte: its bit 0x40 is the sign.
            proof {
                lemma_last_byte(acc, before, byte, byte_index as nat, (shift % 32) as u32);
            }
            if byte_index == 4 && !(digit <= 0x07 || (0x78 <= digit && digit <= 0x7f)) {
                return Err(ReadError::MalformedLeb128);
            }
            if byte & 0x40 != 0 {
                let sign_shift = shift + 7;
                if sign_shift < 32 {
                    proof {
                        lemma_sign_fill(result, byte_index as nat, sign_shift as u32);
                    }
                    result = result | !((1u32 << (sign_shift as u32)) - 1);
                }
            }
            return Ok(result as i32);
        }
        proof {
            lemma_digit_bound(acc, (byte % 128) as int, byte_index as nat);
            acc = acc2;
        }
        shift += 7;
        byte_index += 1;
    }
    Err(ReadError::OverlongLeb128)
}

/// Once reading `i` values has failed, reading more fails the same way.
proof fn lemma_read_i8s_fails_on(d: Seq<u8>, pos: int, i: nat, n: nat)
    requires
        i <= n,
        spec_read_i8s(d, pos, i).0 is Err,
    ensures
        spec_read_i8s(d, pos, n) == spec_read_i8s(d, pos, i),
    decreases n,
{
    if n > i {
        lemma_read_i8s_fails_on(d, pos, i, (n - 1) as nat);
    }
}

/// Once reading `i` values has failed, reading more fails the same way.
proof fn lemma_read_i32s_fails_on(d: Seq<u8>, pos: int, i: nat, n: nat)
    requires
        i <= n,
        spec_read_i32s(d, pos, i).0 is Err,
    ensures
        spec_read_i32s(d, pos, n) == spec_read_i32s(d, pos, i),
    decreases n,
{
    if n > i {
        lemma_read_i32s_fails_on(d, pos, i, (n - 1) as nat);
    }
}

/// Once decoding `i` values has failed, decoding more fails the same way.
proof fn lemma_sleb_values_fails_on(p: Seq<u8>, off: int, i: nat, n: nat)
    requires
        i <= n,
        sleb_values(p, off, i).0 is Err,
    ensures
        sleb_values(p, off, n) == sleb_values(p, off, i),
    decreases n,
{
    if n > i {
        lemma_sleb_values_fails_on(p, off, i, (n - 1) as nat);
    }
}

/// Once decoding `i` values has failed, decoding more fails the same way.
proof fn lemma_sleb_values_i16_fails_on(p: Seq<u8>, off: int, i: nat, n: nat)
    requires
        i <= n,
        sleb_values_i16(p, off, i).0 is Err,
    ensures
        sleb_values_i16(p, off, n) == sleb_values_i16(p, off, i),
    decreases n,
{
    if n > i {
        lemma_sleb_values_i16_fails_on(p, off, i, (n - 1) as nat);
    }
}

/// A digit below 128 at weight `128^k` keeps a value below `128^k` below `128^(k+1)`.
proof fn lemma_digit_bound(acc: int, d: int, k: nat)
    requires
        0 <= acc < pow128(k),
        0 <= d < 128,
    ensures
        0 <= acc + d * pow128(k) < pow128(k + 1),
{
    let p = pow128(k);
    assert(pow128(k + 1) == 128 * p);
    assert(0 <= acc + d * p < 128 * p) by (nonlinear_arith)
        requires
            0 <= acc < p,
            0 <= d < 128,
    ;
}

/// The last byte of a value: the value fits in an `i32` exactly when the
/// check on a fifth byte passes, and then the bits built up give that value.
proof fn lemma_last_byte(acc: int, r: u32, byte: u8, k: nat, s: u32)
    requires
        k < 5,
        s == 7 * k,
        0 <= acc < pow128(k),
        r == acc,
        byte < 128,
    ensures
        ({
            let d = byte % 128;
            let digit = (byte & 0x7f) as u32;
            let bits = r | (digit << s);
            let acc2 = acc + d * pow128(k);
            let v = if d >= 64 {
                acc2 - pow128(k + 1)
            } else {
                acc2
            };
            &&& (i32::MIN <= v <= i32::MAX) == !(k == 4 && !(digit <= 7 || (0x78 <= digit
                && digit <= 0x7f)))
            &&& i32::MIN <= v <= i32::MAX ==> if d >= 64 && 7 * k + 7 < 32 {
                bits < pow128(k + 1) && ((bits | !(((1u32 << (s + 7) as u32) - 1) as u32)) as i32)
                    == v
            } else {
                (bits as i32) == v
            }
        }),
{
    lemma_digit_bits(byte);
    lemma_pow128_values();
    let d = byte % 128;
    let digit = (byte & 0x7f) as u32;
    lemma_or_digit(r, digit, k, s);
    let bits = r | (digit << s);
    lemma_digit_bound(acc, d as int, k);
    lemma_to_i32(bits);
    if k < 4 {
        assert(pow128(k + 1) <= 0x1000_0000) by {
            if k == 0 {
            } else if k == 1 {
            } else if k == 2 {
            } else {
            }
        }
        if d >= 64 {
            lemma_sign_fill(bits, k, (s + 7) as u32);
            lemma_to_i32((bits | !(((1u32 << (s + 7) as u32) - 1) as u32)));
        }
    }
}

// ---------------------------------------------------------------------------
// Laws.
// ---------------------------------------------------------------------------

/// Decoding `a + b` values is decoding `a` values and then `b` more from where they end.
pub proof fn lemma_sleb_values_split(p: Seq<u8>, off: int, a: nat, b: nat)
    ensures
        sleb_values(p, off, a + b) == match sleb_values(p, off, a) {
            (Err(e), o) => (Err(e), o),
            (Ok(xs), o) => match sleb_values(p, o, b) {
                (Err(e), o2) => (Err::<Seq<i32>, ReadError>(e), o2),
                (Ok(ys), o2) => (Ok(xs + ys), o2),
            },
        },
    decreases b,
{
    if b == 0 {
        if let (Ok(xs), o) = sleb_values(p, off, a) {
            assert(xs + seq![] =~= xs);
        }
    } else {
        lemma_sleb_values_split(p, off, a, (b - 1) as nat);
        assert((a + b - 1) as nat == a + (b - 1) as nat);
        if let (Ok(xs), o) = sleb_values(p, off, a) {
            if let (Ok(ys), o2) = sleb_values(p, o, (b - 1) as nat) {
                if let (Ok(v), o3) = spec_sleb(p, o2) {
                    assert(xs + ys.push(v) =~= (xs + ys).push(v));
                }
            }
        }
    }
}

/// A shared block of `first` and `second` values reads as a block of
/// `first + second` values, split after the first `first`.
pub proof fn lemma_shared_block_is_split_block(d: Seq<u8>, pos: int, first: nat, second: nat)
    ensures
        spec_read_shared_leb128_i32(d, pos, first, second) == match spec_read_leb128_i32(
            d,
            pos,
            first + second,
        ) {
            (Ok(vs), p) => (
                Ok::<(Seq<i32>, Seq<i32>), ReadError>((vs.take(first as int), vs.skip(first as int))),
                p,
            ),
            (Err(e), p) => (Err(e), p),
        },
{
    if let (Ok(payload), p) = spec_leb128_payload(d, pos) {
        lemma_sleb_values_split(payload, 0, first, second);
        lemma_sleb_values_length(payload, 0, first);
        if let (Ok(xs), o) = sleb_values(payload, 0, first) {
            if let (Ok(ys), o2) = sleb_values(payload, o, second) {
                assert((xs + ys).take(first as int) =~= xs);
                assert((xs + ys).skip(first as int) =~= ys);
            }
        }
    }
}

/// Decoding `count` values gives `count` values.
pub proof fn lemma_sleb_values_length(p: Seq<u8>, off: int, count: nat)
    ensures
        sleb_values(p, off, count).0 matches Ok(vs) ==> vs.len() == count,
    decreases count,
{
    if count > 0 {
        lemma_sleb_values_length(p, off, (count - 1) as nat);
    }
}

/// Reading a block as `i16` values succeeds exactly when reading it as `i32`
/// values succeeds with every value in the `i16` range, and gives the same values.
pub proof fn lemma_i16_block_is_narrowed_i32_block(d: Seq<u8>, pos: int, count: nat)
    ensures
        spec_read_leb128_i16(d, pos, count).0 is Ok <==> (spec_read_leb128_i32(d, pos, count).0 matches Ok(
            ws,
        ) && forall|i: int| 0 <= i < ws.len() ==> i16::MIN <= #[trigger] ws[i] <= i16::MAX),
        spec_read_leb128_i16(d, pos, count).0 matches Ok(vs) ==> (spec_read_leb128_i32(
            d,
            pos,
            count,
        ).0 matches Ok(ws) && vs.len() == ws.len() && forall|i: int|
            0 <= i < vs.len() ==> #[trigger] vs[i] as i32 == ws[i]),
        spec_read_leb128_i16(d, pos, count).1 == spec_read_leb128_i32(d, pos, count).1,
{
    if let (Ok(payload), p) = spec_leb128_payload(d, pos) {
        lemma_narrowed_values(payload, 0, count);
    }
}

/// The `i16` decoding of `count` values agrees with the `i32` decoding while
/// every value fits, and fails exactly when one of them does not fit or the
/// `i32` decoding fails.
proof fn lemma_narrowed_values(p: Seq<u8>, off: int, count: nat)
    ensures
        sleb_values_i16(p, off, count).0 is Ok <==> (sleb_values(p, off, count).0 matches Ok(ws)
            && forall|i: int| 0 <= i < ws.len() ==> i16::MIN <= #[trigger] ws[i] <= i16::MAX),
        sleb_values_i16(p, off, count).0 matches Ok(vs) ==> (sleb_values(p, off, count).0 matches Ok(
            ws,
        ) && vs.len() == ws.len() && forall|i: int| 0 <= i < vs.len() ==> #[trigger] vs[i] as i32
            == ws[i]),
        sleb_values_i16(p, off, count).0 is Ok ==> sleb_values_i16(p, off, count).1 == sleb_values(
            p,
            off,
            count,
        ).1,
    decreases count,
{
    if count > 0 {
        let c = (count - 1) as nat;
        lemma_narrowed_values(p, off, c);
        let r16 = sleb_values_i16(p, off, c);
        let r32 = sleb_values(p, off, c);
        match r32 {
            (Err(e), o) => {
                assert(!(r16.0 is Ok));
                assert(!(sleb_values_i16(p, off, count).0 is Ok));
                assert(!(sleb_values(p, off, count).0 is Ok));
            },
            (Ok(ws), o) => {
                match spec_sleb(p, o) {
                    (Err(e), o2) => {
                        assert(!(sleb_values(p, off, count).0 is Ok));
                        if r16.0 is Ok {
                            assert(r16.1 == o);
                        }
                        assert(!(sleb_values_i16(p, off, count).0 is Ok));
                    },
                    (Ok(v), o2) => {
                        let ws2 = ws.push(v);
                        assert(sleb_values(p, off, count).0 == Ok::<Seq<i32>, ReadError>(ws2));
                        if r16.0 is Ok {
                            let vs = r16.0->Ok_0;
                            assert(r16.1 == o);
                            if i16::MIN <= v <= i16::MAX {
                                let vs2 = vs.push(v as i16);
                                assert(sleb_values_i16(p, off, count).0 == Ok::<Seq<i16>, ReadError>(vs2));
                                assert forall|i: int| 0 <= i < vs2.len() implies #[trigger] vs2[i] as i32
                                    == ws2[i] by {
                                    if i < vs.len() {
                                        assert(vs2[i] == vs[i]);
                                    }
                                }
                                assert forall|i: int| 0 <= i < ws2.len() implies i16::MIN <= #[trigger] ws2[i]
                                    <= i16::MAX by {
                                    if i < ws.len() {
                                        assert(ws2[i] == ws[i]);
                                    }
                                }
                            } else {
                                assert(!(sleb_values_i16(p, off, count).0 is Ok));
                                assert(!(i16::MIN <= sleb_values(p, off, count).0->Ok_0[ws.len() as int]
                                    <= i16::MAX));
                            }
                        } else {
                            assert(!(sleb_values_i16(p, off, count).0 is Ok));
                            let i = choose|i: int| 0 <= i < ws.len() && !(i16::MIN <= #[trigger] ws[i] <= i16::MAX);
                            assert(ws2[i] == ws[i]);
                            assert(!(i16::MIN <= sleb_values(p, off, count).0->Ok_0[i] <= i16::MAX));
                        }
                    },
                }
            },
        }
    }
}

/// The low seven bits of a byte are its value below 128; its top bit marks a continuation.
proof fn lemma_digit_bits(byte: u8)
    ensures
        byte & 0x7f == byte % 128,
        (byte & 0x80 == 0) == (byte < 128),
        byte < 128 ==> ((byte & 0x40 != 0) == (byte % 128 >= 64)),
{
    assert(byte & 0x7f == byte % 128) by (bit_vector);
    assert((byte & 0x80 == 0) == (byte < 128)) by (bit_vector);
    assert(byte < 128 ==> ((byte & 0x40 != 0) == (byte % 128 >= 64))) by (bit_vector);
}

proof fn lemma_pow128_values()
    ensures
        pow128(0) == 1,
        pow128(1) == 0x80,
        pow128(2) == 0x4000,
        pow128(3) == 0x20_0000,
        pow128(4) == 0x1000_0000,
        pow128(5) == 0x8_0000_0000,
{
    reveal_with_fuel(pow128, 6);
}

/// OR-ing a seven-bit digit in at bit `7 * k` adds `digit * 128^k` while it fits
/// below bit 32; at `k == 4` only its low four bits remain.
proof fn lemma_or_digit(r: u32, d: u32, k: nat, s: u32)
    requires
        k < 5,
        s == 7 * k,
        d < 128,
        r < pow128(k),
    ensures
        k < 4 ==> (r | (d << s)) == r + d * pow128(k),
        k == 4 ==> (r | (d << s)) == r + (d % 16) * 0x1000_0000,
{
    lemma_pow128_values();
    if k == 0 {
        assert(r | (d << s) == r + d) by (bit_vector)
            requires
                s == 0u32,
                r < 1u32,
                d < 128u32,
        ;
    } else if k == 1 {
        assert(r | (d << s) == r + d * 0x80) by (bit_vector)
            requires
                s == 7u32,
                r < 0x80u32,
                d < 128u32,
        ;
    } else if k == 2 {
        assert(r | (d << s) == r + d * 0x4000) by (bit_vector)
            requires
                s == 14u32,
                r < 0x4000u32,
                d < 128u32,
        ;
    } else if k == 3 {
        assert(r | (d << s) == r + d * 0x20_0000) by (bit_vector)
            requires
                s == 21u32,
                r < 0x20_0000u32,
                d < 128u32,
        ;
    } else {
        assert(r | (d << s) == r + (d % 16) * 0x1000_0000) by (bit_vector)
            requires
                s == 28u32,
                r < 0x1000_0000u32,
                d < 128u32,
        ;
    }
}

/// Setting every bit from `7 * (k + 1)` up subtracts `128^(k+1)` modulo `2^32`.
proof fn lemma_sign_fill(r: u32, k: nat, s: u32)
    requires
        k < 4,
        s == 7 * k + 7,
        r < pow128(k + 1),
    ensures
        (1u32 << s) == pow128(k + 1),
        (r | !(((1u32 << s) - 1) as u32)) == r + 0x1_0000_0000 - pow128(k + 1),
{
    lemma_pow128_values();
    if k == 0 {
        assert((1u32 << s) == 0x80 && (r | !(((1u32 << s) - 1) as u32)) == r + 0xFFFF_FF80) by (bit_vector)
            requires
                s == 7u32,
                r < 0x80u32,
        ;
    } else if k == 1 {
        assert((1u32 << s) == 0x4000 && (r | !(((1u32 << s) - 1) as u32)) == r + 0xFFFF_C000) by (bit_vector)
            requires
                s == 14u32,
                r < 0x4000u32,
        ;
    } else if k == 2 {
        assert((1u32 << s) == 0x20_0000 && (r | !(((1u32 << s) - 1) as u32)) == r + 0xFFE0_0000)
            by (bit_vector)
            requires
                s == 21u32,
                r < 0x20_0000u32,
        ;
    } else {
        assert((1u32 << s) == 0x1000_0000 && (r | !(((1u32 << s) - 1) as u32)) == r + 0xF000_0000)
            by (bit_vector)
            requires
                s == 28u32,
                r < 0x1000_0000u32,
        ;
    }
}

/// Reading a `u32` as an `i32` subtracts `2^32` from values with the top bit set.
proof fn lemma_to_i32(x: u32)
    ensures
        (x as i32) as int == if x < 0x8000_0000 {
            x as int
        } else {
            x - 0x1_0000_0000
        },
{
    assert((x as i32) as int == if x < 0x8000_0000 {
        x as int
    } else {
        x - 0x1_0000_0000
    }) by (bit_vector);
}


// ---------------------------------------------------------------------------
// Laws of the fixed-width reads.
// ---------------------------------------------------------------------------

/// A `u32` read takes the four bytes at `pos` little-endian: byte `i` is worth
/// `256^i`, and the offset moves past them.
pub proof fn lemma_u32_read_is_little_endian(d: Seq<u8>, pos: int)
    requires
        0 <= pos,
        pos + 4 <= d.len(),
        pos + 4 <= usize::MAX,
    ensures
        spec_read_u32(d, pos).0 matches Ok(u) && u as int == d[pos] + d[pos + 1] * 0x100 + d[pos + 2]
            * 0x1_0000 + d[pos + 3] * 0x100_0000,
        spec_read_u32(d, pos).1 == pos + 4,
{
}

/// An `i32` read has the bits of the `u32` read of the same bytes: its value is
/// the little-endian number of the four bytes modulo `2^32`, and both reads end
/// at the same offset.
pub proof fn lemma_i32_read_is_u32_read_bits(d: Seq<u8>, pos: int)
    ensures
        spec_read_i32(d, pos).1 == spec_read_u32(d, pos).1,
        spec_read_i32(d, pos).0 is Ok <==> spec_read_u32(d, pos).0 is Ok,
        spec_read_i32(d, pos).0 matches Ok(v) ==> (spec_read_u32(d, pos).0 matches Ok(u) && (v as int)
            % 0x1_0000_0000 == u as int),
        0 <= pos && pos + 4 <= d.len() && pos + 4 <= usize::MAX ==> (spec_read_i32(d, pos).0 matches Ok(v) && (v as int)
            % 0x1_0000_0000 == d[pos] + d[pos + 1] * 0x100 + d[pos + 2] * 0x1_0000 + d[pos + 3]
            * 0x100_0000),
{
    if let (Ok(b), p) = spec_read_bytes(d, pos, 4) {
        let u = u32_le(b);
        if 0 <= pos {
            assert(b == d.subrange(pos, pos + 4));
            assert(b[0] == d[pos] && b[1] == d[pos + 1] && b[2] == d[pos + 2] && b[3] == d[pos + 3]);
        }
        if u >= 0x8000_0000 {
            assert((u - 0x1_0000_0000) % 0x1_0000_0000 == u as int);
        }
    }
}

/// An `i8` read has the bits of the byte at `pos`.
pub proof fn lemma_i8_read_is_byte_bits(d: Seq<u8>, pos: int)
    requires
        0 <= pos < d.len(),
        pos + 1 <= usize::MAX,
    ensures
        spec_read_i8(d, pos).0 matches Ok(v) && (v as int) % 0x100 == d[pos],
        spec_read_i8(d, pos).1 == pos + 1,
{
    let b = d[pos];
    assert(spec_read_bytes(d, pos, 1).0 == Ok::<Seq<u8>, ReadError>(d.subrange(pos, pos + 1)));
    assert(d.subrange(pos, pos + 1)[0] == b);
    if b >= 0x80 {
        assert((b - 0x100) % 0x100 == b as int);
    }
}

/// `count` `i32` reads from `pos`: value `i` has the bits of the four bytes at
/// `pos + 4 * i`, and the reads end `4 * count` bytes on.
pub proof fn lemma_i32_array_layout(d: Seq<u8>, pos: int, count: nat)
    requires
        0 <= pos <= d.len(),
        spec_read_i32s(d, pos, count).0 is Ok,
    ensures
        spec_read_i32s(d, pos, count).0 matches Ok(vs) && vs.len() == count && forall|i: int|
            0 <= i < count ==> (#[trigger] vs[i] as int) % 0x1_0000_0000 == d[pos + 4 * i] + d[pos + 4
                * i + 1] * 0x100 + d[pos + 4 * i + 2] * 0x1_0000 + d[pos + 4 * i + 3] * 0x100_0000,
        spec_read_i32s(d, pos, count).1 == pos + 4 * count,
        pos + 4 * count <= d.len(),
    decreases count,
{
    if count > 0 {
        let c = (count - 1) as nat;
        lemma_i32s_ok_prefix(d, pos, count);
        lemma_i32_array_layout(d, pos, c);
        let q = pos + 4 * c;
        assert(spec_read_i32s(d, pos, c).1 == q);
        lemma_i32_read_is_u32_read_bits(d, q);
        let vs = spec_read_i32s(d, pos, c).0->Ok_0;
        let ws = spec_read_i32s(d, pos, count).0->Ok_0;
        assert forall|i: int| 0 <= i < count implies (#[trigger] ws[i] as int) % 0x1_0000_0000 == d[pos
            + 4 * i] + d[pos + 4 * i + 1] * 0x100 + d[pos + 4 * i + 2] * 0x1_0000 + d[pos + 4 * i + 3]
            * 0x100_0000 by {
            if i < c {
                assert(ws[i] == vs[i]);
            }
        }
    }
}

proof fn lemma_i32s_ok_prefix(d: Seq<u8>, pos: int, count: nat)
    requires
        count > 0,
        spec_read_i32s(d, pos, count).0 is Ok,
    ensures
        spec_read_i32s(d, pos, (count - 1) as nat).0 is Ok,
        spec_read_i32s(d, pos, count).1 == spec_read_i32(d, spec_read_i32s(d, pos, (count - 1) as nat).1).1,
        spec_read_i32(d, spec_read_i32s(d, pos, (count - 1) as nat).1).0 is Ok,
{
}

/// `count` `i8` reads from `pos`: value `i` has the bits of byte `pos + i`, and
/// the reads end `count` bytes on.
pub proof fn lemma_i8_array_layout(d: Seq<u8>, pos: int, count: nat)
    requires
        0 <= pos <= d.len(),
        spec_read_i8s(d, pos, count).0 is Ok,
    ensures
        spec_read_i8s(d, pos, count).0 matches Ok(vs) && vs.len() == count && forall|i: int|
            0 <= i < count ==> (#[trigger] vs[i] as int) % 0x100 == d[pos + i],
        spec_read_i8s(d, pos, count).1 == pos + count,
        pos + count <= d.len(),
    decreases count,
{
    if count > 0 {
        let c = (count - 1) as nat;
        lemma_i8_array_layout(d, pos, c);
        let q = pos + c;
        assert(spec_read_i8s(d, pos, c).1 == q);
        assert(spec_read_i8(d, q).0 is Ok);
        assert(spec_read_bytes(d, q, 1).0 is Ok);
        lemma_i8_read_is_byte_bits(d, q);
        let vs = spec_read_i8s(d, pos, c).0->Ok_0;
        let ws = spec_read_i8s(d, pos, count).0->Ok_0;
        assert forall|i: int| 0 <= i < count implies (#[trigger] ws[i] as int) % 0x100 == d[pos + i] by {
            if i < c {
                assert(ws[i] == vs[i]);
            }
        }
    }
}


// ---------------------------------------------------------------------------
// Signed LEB128 decoding inverts encoding.
// ---------------------------------------------------------------------------

/// The signed LEB128 encoding of `x`: its seven-bit digits from the lowest, in
/// two's complement, each byte but the last carrying the continuation bit
/// 0x80; it stops at the first digit after which only the sign is left, which
/// bit 0x40 of that last byte gives.
pub open spec fn sleb_encoding(x: int) -> Seq<u8>
    decreases (if x < 0 {
        -x
    } else {
        x
    }),
{
    let r = x % 128;
    let q = x / 128;
    if (q == 0 && r < 64) || (q == -1 && r >= 64) {
        seq![r as u8]
    } else {
        seq![(r + 128) as u8] + sleb_encoding(q)
    }
}

/// The encoding of a value that fits in `7 * n` bits, sign included, takes at most `n` bytes.
proof fn lemma_sleb_encoding_length(x: int, n: nat)
    requires
        n >= 1,
        -64 * pow128((n - 1) as nat) <= x < 64 * pow128((n - 1) as nat),
    ensures
        1 <= sleb_encoding(x).len() <= n,
    decreases n,
{
    let r = x % 128;
    let q = x / 128;
    if (q == 0 && r < 64) || (q == -1 && r >= 64) {
    } else {
        if n == 1 {
            assert(pow128(0) == 1);
            assert(false);
        } else {
            let m = (n - 1) as nat;
            let pm = pow128((m - 1) as nat);
            assert(pow128(m) == 128 * pm);
            assert(pm >= 1) by {
                lemma_pow128_positive((m - 1) as nat);
            }
            assert(-64 * pm <= q < 64 * pm) by (nonlinear_arith)
                requires
                    -64 * (128 * pm) <= x < 64 * (128 * pm),
                    x == 128 * q + r,
                    0 <= r < 128,
            ;
            lemma_sleb_encoding_length(q, m);
        }
    }
}

proof fn lemma_pow128_positive(k: nat)
    ensures
        pow128(k) >= 1,
    decreases k,
{
    if k > 0 {
        lemma_pow128_positive((k - 1) as nat);
    }
}

/// Decoding from `off`, with `k` bytes worth `acc` read already, the bytes of
/// the encoding of `x` gives `acc + x * 128^k` and ends after them.
proof fn lemma_sleb_from_encoding(p: Seq<u8>, off: int, k: nat, acc: int, x: int)
    requires
        0 <= off,
        off + sleb_encoding(x).len() <= p.len(),
        p.subrange(off, off + sleb_encoding(x).len()) == sleb_encoding(x),
        k + sleb_encoding(x).len() <= 5,
        i32::MIN <= acc + x * pow128(k) <= i32::MAX,
    ensures
        sleb_from(p, off, k, acc) == (
            Ok::<i32, ReadError>((acc + x * pow128(k)) as i32),
            off + sleb_encoding(x).len(),
        ),
    decreases sleb_encoding(x).len(),
{
    let e = sleb_encoding(x);
    let r = x % 128;
    let q = x / 128;
    let pk = pow128(k);
    assert(pow128(k + 1) == 128 * pk);
    assert(e.len() >= 1);
    assert(p[off] == e[0]);
    if (q == 0 && r < 64) || (q == -1 && r >= 64) {
        assert(p[off] == r as u8);
        assert(x * pk == r * pk + q * (128 * pk)) by (nonlinear_arith)
            requires
                x == 128 * q + r,
        ;
    } else {
        let rest = sleb_encoding(q);
        assert(e == seq![(r + 128) as u8] + rest);
        assert(p[off] == (r + 128) as u8);
        assert(p.subrange(off + 1, off + 1 + rest.len()) =~= rest) by {
            assert forall|i: int| 0 <= i < rest.len() implies p.subrange(off + 1, off + 1 + rest.len())[i]
                == rest[i] by {
                assert(p[off + 1 + i] == p.subrange(off, off + e.len())[1 + i]);
                assert(e[1 + i] == rest[i]);
            }
        }
        let acc2 = acc + r * pk;
        assert(acc2 + q * pow128(k + 1) == acc + x * pk) by (nonlinear_arith)
            requires
                x == 128 * q + r,
                acc2 == acc + r * pk,
                pow128(k + 1) == 128 * pk,
        ;
        lemma_sleb_from_encoding(p, off + 1, k + 1, acc2, q);
    }
}

/// Decoding inverts encoding: the signed LEB128 encoding of any `i32` decodes
/// to that value, whatever bytes follow it, and the decoder moves past exactly
/// the encoding, which takes at most five bytes.
pub proof fn lemma_sleb_decodes_encoding(v: i32, tail: Seq<u8>)
    ensures
        sleb_encoding(v as int).len() <= 5,
        spec_sleb(sleb_encoding(v as int) + tail, 0) == (
            Ok::<i32, ReadError>(v),
            sleb_encoding(v as int).len() as int,
        ),
{
    let e = sleb_encoding(v as int);
    assert(pow128(4) == 0x1000_0000) by {
        assert(pow128(0) == 1);
        assert(pow128(1) == 128);
        assert(pow128(2) == 0x4000);
        assert(pow128(3) == 0x20_0000);
    }
    lemma_sleb_encoding_length(v as int, 5);
    let p = e + tail;
    assert(p.subrange(0, e.len() as int) =~= e);
    assert(pow128(0) == 1);
    lemma_sleb_from_encoding(p, 0, 0, 0, v as int);
}

/// The encodings of `vs`, one after another.
pub open spec fn sleb_encodings(vs: Seq<i32>) -> Seq<u8>
    decreases vs.len(),
{
    if vs.len() == 0 {
        seq![]
    } else {
        sleb_encodings(vs.drop_last()) + sleb_encoding(vs.last() as int)
    }
}

/// Decoding `vs.len()` values from the encodings of `vs`, whatever follows them,
/// gives `vs` and ends after the encodings.
pub proof fn lemma_sleb_values_decode_encodings(vs: Seq<i32>, tail: Seq<u8>)
    ensures
        sleb_values(sleb_encodings(vs) + tail, 0, vs.len()) == (
            Ok::<Seq<i32>, ReadError>(vs),
            sleb_encodings(vs).len() as int,
        ),
    decreases vs.len(),
{
    if vs.len() > 0 {
        let front = vs.drop_last();
        let v = vs.last();
        let e = sleb_encoding(v as int);
        let p = sleb_encodings(vs) + tail;
        let q = sleb_encodings(front);
        assert(p =~= q + (e + tail));
        lemma_sleb_values_decode_encodings(front, e + tail);
        assert((front.len()) as nat == (vs.len() - 1) as nat);
        // The last value, read where the others end.
        lemma_sleb_decodes_encoding(v, tail);
        lemma_sleb_shift(q, e + tail, v, e.len());
        assert(front.push(v) =~= vs);
        assert(sleb_encodings(vs) == q + e);
        let n = vs.len();
        assert(sleb_values(p, 0, (n - 1) as nat) == (Ok::<Seq<i32>, ReadError>(front), q.len() as int));
        assert(spec_sleb(p, q.len() as int) == (Ok::<i32, ReadError>(v), (q.len() + e.len()) as int));
        assert(sleb_values(p, 0, n) == (Ok::<Seq<i32>, ReadError>(front.push(v)), (q.len() + e.len()) as int));
    } else {
        assert(vs =~= seq![]);
    }
}

/// Decoding a value after a prefix is decoding it without the prefix, shifted.
proof fn lemma_sleb_shift(q: Seq<u8>, rest: Seq<u8>, v: i32, n: nat)
    requires
        spec_sleb(rest, 0) == (Ok::<i32, ReadError>(v), n as int),
    ensures
        spec_sleb(q + rest, q.len() as int) == (Ok::<i32, ReadError>(v), (q.len() + n) as int),
{
    lemma_sleb_from_shift(q, rest, 0, 0, 0);
}

proof fn lemma_sleb_from_shift(q: Seq<u8>, rest: Seq<u8>, off: int, k: nat, acc: int)
    requires
        0 <= off,
    ensures
        sleb_from(q + rest, q.len() + off, k, acc) == ({
            let (r, o) = sleb_from(rest, off, k, acc);
            (r, q.len() + o)
        }),
    decreases 5 - k,
{
    if k < 5 && off < rest.len() {
        assert((q + rest)[q.len() + off] == rest[off]);
        let b = rest[off];
        if b >= 128 {
            lemma_sleb_from_shift(q, rest, off + 1, k + 1, acc + (b % 128) * pow128(k));
        }
    }
}

/// A compressed block whose payload is the encodings of `vs` reads as `vs`,
/// as `i32` values, and, when every value fits, as `i16` values.
pub proof fn lemma_block_of_encodings_reads_back(d: Seq<u8>, pos: int, vs: Seq<i32>)
    requires
        spec_leb128_payload(d, pos).0 == Ok::<Seq<u8>, ReadError>(sleb_encodings(vs)),
    ensures
        spec_read_leb128_i32(d, pos, vs.len()) == (
            Ok::<Seq<i32>, ReadError>(vs),
            spec_leb128_payload(d, pos).1,
        ),
        (forall|i: int| 0 <= i < vs.len() ==> i16::MIN <= #[trigger] vs[i] <= i16::MAX) ==> (
        spec_read_leb128_i16(d, pos, vs.len()).0 matches Ok(ws) && ws.len() == vs.len() && forall|i: int|
            0 <= i < vs.len() ==> #[trigger] ws[i] as i32 == vs[i]),
{
    let payload = sleb_encodings(vs);
    assert(payload + seq![] =~= payload);
    lemma_sleb_values_decode_encodings(vs, seq![]);
    lemma_i16_block_is_narrowed_i32_block(d, pos, vs.len());
}

} // verus!
