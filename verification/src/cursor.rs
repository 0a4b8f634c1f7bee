//! Sequential reading from a byte slice and sequential writing to a growing
//! buffer.
//!
//! A read either consumes exactly the bytes of one value, or fails and leaves
//! the position where it was. What a read finds is said by the functions
//! `u8_at` .. `bytes_at`, which look at a byte sequence at a given position.
//! A write appends the bytes of one value and cannot fail.

use crate::endian::{
    i16_from_le, i16_le, i8_from_byte, i8_to_byte, lemma_i16_from_its_bytes,
    lemma_u16_from_its_bytes, lemma_u32_from_its_bytes, u16_from_le, u16_le, u32_from_le, u32_le,
};
use crate::error::NbsError;
use vstd::prelude::*;
use vstd::slice::{slice_subrange, slice_to_vec};

verus! {

/// The byte at `pos`, if there is one.
pub open spec fn u8_at(s: Seq<u8>, pos: int) -> Option<u8> {
    if 0 <= pos && pos + 1 <= s.len() {
        Some(s[pos])
    } else {
        None
    }
}

/// The signed byte at `pos`, if there is one.
pub open spec fn i8_at(s: Seq<u8>, pos: int) -> Option<i8> {
    if 0 <= pos && pos + 1 <= s.len() {
        Some(i8_from_byte(s[pos]))
    } else {
        None
    }
}

/// The little-endian `u16` in the two bytes at `pos`, if they are there.
pub open spec fn u16_at(s: Seq<u8>, pos: int) -> Option<u16> {
    if 0 <= pos && pos + 2 <= s.len() {
        Some(u16_from_le(s[pos], s[pos + 1]))
    } else {
        None
    }
}

/// The little-endian `i16` in the two bytes at `pos`, if they are there.
pub open spec fn i16_at(s: Seq<u8>, pos: int) -> Option<i16> {
    if 0 <= pos && pos + 2 <= s.len() {
        Some(i16_from_le(s[pos], s[pos + 1]))
    } else {
        None
    }
}

/// The little-endian `u32` in the four bytes at `pos`, if they are there.
pub open spec fn u32_at(s: Seq<u8>, pos: int) -> Option<u32> {
    if 0 <= pos && pos + 4 <= s.len() {
        Some(u32_from_le(s[pos], s[pos + 1], s[pos + 2], s[pos + 3]))
    } else {
        None
    }
}

/// The byte string at `pos`: a `u32` length, then that many bytes. There is
/// none where the length or the bytes would extend past the end. A string
/// `b` found at `pos` ends at `pos + 4 + b.len()`.
pub open spec fn bytes_at(s: Seq<u8>, pos: int) -> Option<Seq<u8>> {
    match u32_at(s, pos) {
        Some(len) => if pos + 4 + len <= s.len() {
            Some(s.subrange(pos + 4, pos + 4 + len))
        } else {
            None
        },
        None => None,
    }
}

/// A byte string as it is written: its length as a `u32`, then its bytes.
/// A length that does not fit in 32 bits is cut down to its low 32 bits.
pub open spec fn length_prefixed(b: Seq<u8>) -> Seq<u8> {
    u32_le((b.len() % 0x1_0000_0000) as u32) + b
}

/// A flag as it is written: 1 for true, 0 for false.
pub open spec fn flag_byte(b: bool) -> u8 {
    if b {
        1
    } else {
        0
    }
}

/// The bytes `part` stand in `s` at `pos`.
#[verifier::opaque]
pub open spec fn holds_at(s: Seq<u8>, pos: int, part: Seq<u8>) -> bool {
    &&& 0 <= pos
    &&& pos + part.len() <= s.len()
    &&& forall|i: int| 0 <= i < part.len() ==> s[pos + i] == #[trigger] part[i]
}

/// A sequence stands in itself at 0, and between what is put before and
/// behind it.
pub proof fn lemma_holds_at_between(before: Seq<u8>, part: Seq<u8>, after: Seq<u8>)
    ensures
        holds_at(part, 0, part),
        holds_at(before + part + after, before.len() as int, part),
{
    reveal(holds_at);
    let s = before + part + after;
    assert forall|i: int| 0 <= i < part.len() implies s[before.len() + i] == #[trigger] part[i] by {
        assert(s[before.len() + i] == (before + part)[before.len() + i]);
    }
}

/// Where `a + b` stands at `pos`, `a` stands at `pos` and `b` right behind
/// it.
pub proof fn lemma_holds_at_parts(s: Seq<u8>, pos: int, a: Seq<u8>, b: Seq<u8>)
    requires
        holds_at(s, pos, a + b),
    ensures
        holds_at(s, pos, a),
        holds_at(s, pos + a.len(), b),
        0 <= pos,
        pos + a.len() + b.len() <= s.len(),
{
    reveal(holds_at);
    assert forall|i: int| 0 <= i < a.len() implies s[pos + i] == #[trigger] a[i] by {
        assert((a + b)[i] == a[i]);
    }
    assert forall|i: int| 0 <= i < b.len() implies s[pos + a.len() + i] == #[trigger] b[i] by {
        assert((a + b)[a.len() + i] == b[i]);
    }
}

/// Where `part` stands at `pos`, each of its bytes is found in its place.
pub proof fn lemma_holds_at_byte(s: Seq<u8>, pos: int, part: Seq<u8>, i: int)
    requires
        holds_at(s, pos, part),
        0 <= i < part.len(),
    ensures
        0 <= pos,
        pos + part.len() <= s.len(),
        s[pos + i] == part[i],
{
    reveal(holds_at);
}

/// Where `part` stands at `pos`, it is that stretch of `s`.
pub proof fn lemma_holds_at_stretch(s: Seq<u8>, pos: int, part: Seq<u8>)
    requires
        holds_at(s, pos, part),
    ensures
        0 <= pos,
        pos + part.len() <= s.len(),
        s.subrange(pos, pos + part.len()) == part,
{
    reveal(holds_at);
    assert(s.subrange(pos, pos + part.len()) =~= part);
}

/// A stretch of a buffer is not changed by cutting the buffer short behind
/// it.
pub proof fn lemma_stretch_cut(s: Seq<u8>, k: int, from: int, to: int)
    requires
        0 <= from <= to <= k <= s.len(),
    ensures
        s.take(k).subrange(from, to) == s.subrange(from, to),
{
    assert(s.take(k).subrange(from, to) =~= s.subrange(from, to));
}

/// A `u16` is read back from where its bytes stand.
pub proof fn lemma_u16_written(s: Seq<u8>, pos: int, v: u16)
    requires
        holds_at(s, pos, u16_le(v)),
    ensures
        u16_at(s, pos) == Some(v),
{
    lemma_u16_from_its_bytes(v);
    lemma_holds_at_byte(s, pos, u16_le(v), 0);
    lemma_holds_at_byte(s, pos, u16_le(v), 1);
}

/// An `i16` is read back from where its bytes stand.
pub proof fn lemma_i16_written(s: Seq<u8>, pos: int, v: i16)
    requires
        holds_at(s, pos, i16_le(v)),
    ensures
        i16_at(s, pos) == Some(v),
{
    lemma_i16_from_its_bytes(v);
    lemma_holds_at_byte(s, pos, i16_le(v), 0);
    lemma_holds_at_byte(s, pos, i16_le(v), 1);
}

/// A `u32` is read back from where its bytes stand.
pub proof fn lemma_u32_written(s: Seq<u8>, pos: int, v: u32)
    requires
        holds_at(s, pos, u32_le(v)),
    ensures
        u32_at(s, pos) == Some(v),
{
    lemma_u32_from_its_bytes(v);
    lemma_holds_at_byte(s, pos, u32_le(v), 0);
    lemma_holds_at_byte(s, pos, u32_le(v), 1);
    lemma_holds_at_byte(s, pos, u32_le(v), 2);
    lemma_holds_at_byte(s, pos, u32_le(v), 3);
}

/// A byte string is read back, byte for byte, from where it stands with its
/// length in front, whatever its bytes are, as long as its length fits in 32
/// bits.
pub proof fn lemma_bytes_written(s: Seq<u8>, pos: int, b: Seq<u8>)
    requires
        holds_at(s, pos, length_prefixed(b)),
        b.len() <= u32::MAX,
    ensures
        bytes_at(s, pos) == Some(b),
        length_prefixed(b).len() == 4 + b.len(),
{
    let len = (b.len() % 0x1_0000_0000) as u32;
    lemma_holds_at_parts(s, pos, u32_le(len), b);
    lemma_u32_written(s, pos, len);
    lemma_holds_at_stretch(s, pos + 4, b);
}

/// Cutting a buffer short behind a byte string leaves the string as it is;
/// cutting it short inside the string, or inside its length, leaves none.
pub proof fn lemma_bytes_at_cut(s: Seq<u8>, pos: int, k: int)
    requires
        bytes_at(s, pos) is Some,
        0 <= k <= s.len(),
    ensures
        bytes_at(s.take(k), pos) == if k >= pos + 4 + (bytes_at(s, pos)->0).len() {
            bytes_at(s, pos)
        } else {
            None
        },
{
    let t = s.take(k);
    let b = bytes_at(s, pos)->0;
    if k >= pos + 4 {
        assert(u32_at(t, pos) == u32_at(s, pos));
        if k >= pos + 4 + b.len() {
            lemma_stretch_cut(s, k, pos + 4, pos + 4 + b.len());
        }
    }
}

/// What a read returns for what the bytes hold: the value, or the error for
/// running out of bytes.
pub open spec fn read_result<T>(found: Option<T>) -> Result<T, NbsError> {
    match found {
        Some(v) => Ok(v),
        None => Err(NbsError::UnexpectedEndOfData),
    }
}

/// A reader over a byte slice, with a position that only moves forward.
#[derive(Clone, Copy)]
pub struct NbsParser<'a> {
    data: &'a [u8],
    pos: usize,
}

impl<'a> NbsParser<'a> {
    #[verifier::type_invariant]
    spec fn in_bounds(self) -> bool {
        self.pos <= self.data@.len()
    }

    /// The whole buffer that is being read.
    pub closed spec fn bytes(self) -> Seq<u8> {
        self.data@
    }

    /// The index of the next byte to read.
    pub closed spec fn position(self) -> int {
        self.pos as int
    }

    /// A reader at the start of `file_data`.
    pub fn new(file_data: &'a [u8]) -> (parser: NbsParser<'a>)
        ensures
            parser.bytes() == file_data@,
            parser.position() == 0,
    {
        NbsParser { data: file_data, pos: 0 }
    }

    /// The number of bytes that have not been read yet.
    pub fn remaining(&self) -> (n: usize)
        ensures
            n == self.bytes().len() - self.position(),
            0 <= self.position() <= self.bytes().len(),
    {
        proof {
            use_type_invariant(&*self);
        }
        self.data.len() - self.pos
    }

    /// Reads one byte.
    pub fn read_u8(&mut self) -> (r: Result<u8, NbsError>)
        ensures
            final(self).bytes() == old(self).bytes(),
            r == read_result(u8_at(old(self).bytes(), old(self).position())),
            final(self).position() == old(self).position() + if r is Ok { 1int } else { 0 },
    {
        proof {
            use_type_invariant(&*self);
        }
        if self.data.len() - self.pos < 1 {
            return Err(NbsError::UnexpectedEndOfData);
        }
        let b: u8 = self.data[self.pos];
        self.pos = self.pos + 1;
        Ok(b)
    }

    /// Reads one byte as a signed number in two's complement.
    pub fn read_i8(&mut self) -> (r: Result<i8, NbsError>)
        ensures
            final(self).bytes() == old(self).bytes(),
            r == read_result(i8_at(old(self).bytes(), old(self).position())),
            final(self).position() == old(self).position() + if r is Ok { 1int } else { 0 },
    {
        proof {
            use_type_invariant(&*self);
        }
        if self.data.len() - self.pos < 1 {
            return Err(NbsError::UnexpectedEndOfData);
        }
        let b: u8 = self.data[self.pos];
        self.pos = self.pos + 1;
        if b < 128 {
            Ok(b as i8)
        } else {
            Ok((b as i16 - 256) as i8)
        }
    }

    /// Reads two bytes as a little-endian number.
    pub fn read_u16(&mut self) -> (r: Result<u16, NbsError>)
        ensures
            final(self).bytes() == old(self).bytes(),
            r == read_result(u16_at(old(self).bytes(), old(self).position())),
            final(self).position() == old(self).position() + if r is Ok { 2int } else { 0 },
    {
        proof {
            use_type_invariant(&*self);
        }
        if self.data.len() - self.pos < 2 {
            return Err(NbsError::UnexpectedEndOfData);
        }
        let b0: u16 = self.data[self.pos] as u16;
        let b1: u16 = self.data[self.pos + 1] as u16;
        self.pos = self.pos + 2;
        Ok(b0 + 256 * b1)
    }

    /// Reads two bytes as a signed little-endian number in two's complement.
    pub fn read_i16(&mut self) -> (r: Result<i16, NbsError>)
        ensures
            final(self).bytes() == old(self).bytes(),
            r == read_result(i16_at(old(self).bytes(), old(self).position())),
            final(self).position() == old(self).position() + if r is Ok { 2int } else { 0 },
    {
        proof {
            use_type_invariant(&*self);
        }
        if self.data.len() - self.pos < 2 {
            return Err(NbsError::UnexpectedEndOfData);
        }
        let b0: i32 = self.data[self.pos] as i32;
        let b1: i32 = self.data[self.pos + 1] as i32;
        self.pos = self.pos + 2;
        let bits: i32 = b0 + 256 * b1;
        if bits < 32768 {
            Ok(bits as i16)
        } else {
            Ok((bits - 65536) as i16)
        }
    }

    /// Reads four bytes as a little-endian number.
    pub fn read_u32(&mut self) -> (r: Result<u32, NbsError>)
        ensures
            final(self).bytes() == old(self).bytes(),
            r == read_result(u32_at(old(self).bytes(), old(self).position())),
            final(self).position() == old(self).position() + if r is Ok { 4int } else { 0 },
    {
        proof {
            use_type_invariant(&*self);
        }
        if self.data.len() - self.pos < 4 {
            return Err(NbsError::UnexpectedEndOfData);
        }
        let b0: u32 = self.data[self.pos] as u32;
        let b1: u32 = self.data[self.pos + 1] as u32;
        let b2: u32 = self.data[self.pos + 2] as u32;
        let b3: u32 = self.data[self.pos + 3] as u32;
        self.pos = self.pos + 4;
        Ok(b0 + 256 * b1 + 65536 * b2 + 16777216 * b3)
    }

    /// Reads a length-prefixed byte string. The bytes are returned as they
    /// are, whether or not they are valid text.
    pub fn read_string(&mut self) -> (r: Result<Vec<u8>, NbsError>)
        ensures
            final(self).bytes() == old(self).bytes(),
            match bytes_at(old(self).bytes(), old(self).position()) {
                Some(b) => r matches Ok(v) && v@ == b
                    && final(self).position() == old(self).position() + 4 + b.len(),
                None => r == Err::<Vec<u8>, NbsError>(NbsError::UnexpectedEndOfData)
                    && final(self).position() == old(self).position(),
            },
    {
        proof {
            use_type_invariant(&*self);
        }
        let mut ahead: NbsParser<'a> = *self;
        let len: u32 = ahead.read_u32()?;
        proof {
            use_type_invariant(&ahead);
        }
        if ahead.data.len() - ahead.pos < len as usize {
            return Err(NbsError::UnexpectedEndOfData);
        }
        let end: usize = ahead.pos + len as usize;
        let bytes: Vec<u8> = slice_to_vec(slice_subrange(ahead.data, ahead.pos, end));
        self.pos = end;
        Ok(bytes)
    }
}

/// A writer that appends to a buffer of its own.
pub struct NbsWriter {
    data: Vec<u8>,
}

impl View for NbsWriter {
    type V = Seq<u8>;

    /// Everything written so far.
    closed spec fn view(&self) -> Seq<u8> {
        self.data@
    }
}

impl NbsWriter {
    /// A writer with nothing written.
    pub fn new() -> (writer: NbsWriter)
        ensures
            writer@ == Seq::<u8>::empty(),
    {
        NbsWriter { data: Vec::new() }
    }

    /// Drops everything written so far.
    pub fn clear(&mut self)
        ensures
            final(self)@ == Seq::<u8>::empty(),
    {
        self.data.clear();
    }

    /// Everything written so far.
    pub fn as_bytes(&self) -> (bytes: &[u8])
        ensures
            bytes@ == self@,
    {
        self.data.as_slice()
    }

    /// Writes one byte.
    pub fn write_u8(&mut self, value: u8)
        ensures
            final(self)@ == old(self)@.push(value),
    {
        self.data.push(value);
    }

    /// Writes a signed number as one byte in two's complement.
    pub fn write_i8(&mut self, value: i8)
        ensures
            final(self)@ == old(self)@.push(i8_to_byte(value)),
    {
        if value < 0 {
            self.data.push((value as i16 + 256) as u8);
        } else {
            self.data.push(value as u8);
        }
    }

    /// Writes a number as two bytes, least significant first.
    pub fn write_u16(&mut self, value: u16)
        ensures
            final(self)@ == old(self)@ + u16_le(value),
    {
        self.data.push((value % 256) as u8);
        self.data.push((value / 256) as u8);
        assert(self.data@ =~= old(self).data@ + u16_le(value));
    }

    /// Writes a signed number as two bytes in two's complement, least
    /// significant first.
    pub fn write_i16(&mut self, value: i16)
        ensures
            final(self)@ == old(self)@ + i16_le(value),
    {
        if value < 0 {
            self.write_u16((value as i32 + 65536) as u16);
        } else {
            self.write_u16(value as u16);
        }
    }

    /// Writes a number as four bytes, least significant first.
    pub fn write_u32(&mut self, value: u32)
        ensures
            final(self)@ == old(self)@ + u32_le(value),
    {
        self.data.push((value % 256) as u8);
        self.data.push((value / 256 % 256) as u8);
        self.data.push((value / 65536 % 256) as u8);
        self.data.push((value / 16777216) as u8);
        assert(self.data@ =~= old(self).data@ + u32_le(value));
    }

    /// Writes a flag as one byte: 1 for true, 0 for false.
    pub fn write_flag(&mut self, value: bool)
        ensures
            final(self)@ == old(self)@.push(flag_byte(value)),
    {
        if value {
            self.data.push(1);
        } else {
            self.data.push(0);
        }
    }

    /// Writes a byte string with its length in front. The bytes are written
    /// as they are.
    pub fn write_string(&mut self, data: &[u8])
        ensures
            final(self)@ == old(self)@ + length_prefixed(data@),
    {
        self.write_u32((data.len() as u64 % 0x1_0000_0000) as u32);
        self.data.extend_from_slice(data);
        assert(self.data@ =~= old(self).data@ + length_prefixed(data@));
    }
}

} // verus!
