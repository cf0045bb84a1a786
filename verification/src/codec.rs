//! Binary codec for the wire format: a positional byte reader and writer.
//!
//! All multi-byte integers are little-endian except the transport's
//! acknowledgement id, which is big-endian. Compound data travels in
//! *messages*: a little-endian `u16` payload length, one tag byte, then the
//! payload; messages nest arbitrarily. Unsigned 32-bit values may be packed
//! as 7-bit varints: the low seven bits of each byte carry the value, the
//! high bit says another byte follows, and five bytes is the cap.

use vstd::prelude::*;

verus! {

use vstd::arithmetic::div_mod::{
    lemma_fundamental_div_mod_converse_div,
    lemma_fundamental_div_mod_converse_mod,
    lemma_mod_multiples_vanish,
};
use vstd::string::StringSliceAdditionalSpecFns;
use vstd::utf8::{decode_utf8, valid_utf8};

/// Why a wire read failed: input ran out, a string was not UTF-8, a 7-bit
/// varint ran past its five-byte cap, or a discriminator byte fell outside
/// the values the protocol defines.
#[derive(Clone, Copy, Debug, PartialEq, Eq, Structural)]
pub enum CodecError {
    UnexpectedEof,
    InvalidUtf8,
    VarintOverflow,
    InvalidDiscriminant,
}

/// The two little-endian bytes of a 16-bit value.
pub open spec fn le16(v: u16) -> Seq<u8> {
    seq![(v as int % 256) as u8, (v as int / 256) as u8]
}

/// The two big-endian bytes of a 16-bit value.
pub open spec fn be16(v: u16) -> Seq<u8> {
    seq![(v as int / 256) as u8, (v as int % 256) as u8]
}

/// The four little-endian bytes of a 32-bit value.
pub open spec fn le32(v: u32) -> Seq<u8> {
    seq![
        (v as int % 256) as u8,
        (v as int / 256 % 256) as u8,
        (v as int / 0x10000 % 256) as u8,
        (v as int / 0x1000000) as u8,
    ]
}

/// A 16-bit value from its two little-endian digits.
pub open spec fn u16_val(b0: u8, b1: u8) -> int {
    b0 as int + 256 * (b1 as int)
}

/// A 32-bit value from its four little-endian digits.
pub open spec fn u32_val(b0: u8, b1: u8, b2: u8, b3: u8) -> int {
    b0 as int + 256 * (b1 as int) + 0x10000 * (b2 as int) + 0x1000000 * (b3 as int)
}

proof fn lemma_le16_digits(v: u16, b0: u8, b1: u8)
    requires
        v as int == u16_val(b0, b1),
    ensures
        le16(v) == seq![b0, b1],
        be16(v) == seq![b1, b0],
{
    lemma_fundamental_div_mod_converse_mod(v as int, 256, b1 as int, b0 as int);
    lemma_fundamental_div_mod_converse_div(v as int, 256, b1 as int, b0 as int);
    assert(le16(v) =~= seq![b0, b1]);
    assert(be16(v) =~= seq![b1, b0]);
}

proof fn lemma_le32_digits(v: u32, b0: u8, b1: u8, b2: u8, b3: u8)
    requires
        v as int == u32_val(b0, b1, b2, b3),
    ensures
        le32(v) == seq![b0, b1, b2, b3],
{
    let q1 = b1 as int + 256 * (b2 as int) + 0x10000 * (b3 as int);
    lemma_fundamental_div_mod_converse_mod(v as int, 256, q1, b0 as int);
    lemma_fundamental_div_mod_converse_div(v as int, 256, q1, b0 as int);
    let q2 = b2 as int + 256 * (b3 as int);
    lemma_fundamental_div_mod_converse_mod(q1, 256, q2, b1 as int);
    lemma_fundamental_div_mod_converse_div(q1, 256, q2, b1 as int);
    lemma_fundamental_div_mod_converse_mod(q2, 256, b3 as int, b2 as int);
    lemma_fundamental_div_mod_converse_div(q2, 256, b3 as int, b2 as int);
    assert(v as int / 0x10000 == q2) by {
        assert(v as int == q2 * 0x10000 + (b0 as int + 256 * (b1 as int)));
        lemma_fundamental_div_mod_converse_div(
            v as int,
            0x10000,
            q2,
            b0 as int + 256 * (b1 as int),
        );
    }
    assert(v as int / 0x1000000 == b3 as int) by {
        assert(v as int == (b3 as int) * 0x1000000 + (b0 as int + 256 * (b1 as int) + 0x10000 * (
        b2 as int)));
        lemma_fundamental_div_mod_converse_div(
            v as int,
            0x1000000,
            b3 as int,
            b0 as int + 256 * (b1 as int) + 0x10000 * (b2 as int),
        );
    }
    assert(le32(v) =~= seq![b0, b1, b2, b3]);
}

/// The little-endian digits of a 16-bit value compose back to that value.
pub proof fn lemma_le16_val(v: u16)
    ensures
        u16_val(le16(v)[0], le16(v)[1]) == v,
{
    vstd::arithmetic::div_mod::lemma_fundamental_div_mod(v as int, 256);
}

/// The little-endian digits of a 32-bit value compose back to that value.
pub proof fn lemma_le32_val(v: u32)
    ensures
        u32_val(le32(v)[0], le32(v)[1], le32(v)[2], le32(v)[3]) == v,
{
    vstd::arithmetic::div_mod::lemma_fundamental_div_mod(v as int, 256);
    vstd::arithmetic::div_mod::lemma_fundamental_div_mod(v as int / 256, 256);
    vstd::arithmetic::div_mod::lemma_fundamental_div_mod(v as int / 0x10000, 256);
    assert(v as int / 256 / 256 == v as int / 0x10000) by {
        vstd::arithmetic::div_mod::lemma_div_denominator(v as int, 256, 256);
    }
    assert(v as int / 0x10000 / 256 == v as int / 0x1000000) by {
        vstd::arithmetic::div_mod::lemma_div_denominator(v as int, 0x10000, 256);
    }
}

/// Casting between a signed integer and its unsigned twin of the same width
/// keeps the bit pattern, so the casts undo each other.
pub proof fn lemma_cast_round_trips()
    ensures
        forall|x: i32| #[trigger] ((x as u32) as i32) == x,
        forall|x: i16| #[trigger] ((x as u16) as i16) == x,
        forall|x: i8| #[trigger] ((x as u8) as i8) == x,
        forall|y: u32| #[trigger] ((y as i32) as u32) == y,
        forall|y: u16| #[trigger] ((y as i16) as u16) == y,
        forall|y: u8| #[trigger] ((y as i8) as u8) == y,
{
    assert forall|x: i32| #[trigger] ((x as u32) as i32) == x by {
        assert(((x as u32) as i32) == x) by (bit_vector);
    }
    assert forall|x: i16| #[trigger] ((x as u16) as i16) == x by {
        assert(((x as u16) as i16) == x) by (bit_vector);
    }
    assert forall|x: i8| #[trigger] ((x as u8) as i8) == x by {
        assert(((x as u8) as i8) == x) by (bit_vector);
    }
    assert forall|y: u32| #[trigger] ((y as i32) as u32) == y by {
        assert(((y as i32) as u32) == y) by (bit_vector);
    }
    assert forall|y: u16| #[trigger] ((y as i16) as u16) == y by {
        assert(((y as i16) as u16) == y) by (bit_vector);
    }
    assert forall|y: u8| #[trigger] ((y as i8) as u8) == y by {
        assert(((y as i8) as u8) == y) by (bit_vector);
    }
}

/// A 32-bit value reinterpreted as signed is non-negative exactly below the
/// sign bit, and is then the same number.
pub proof fn lemma_i32_sign()
    ensures
        forall|y: u32| #[trigger] (y as i32) >= 0 <==> y < 0x80000000,
        forall|y: u32| y < 0x80000000 ==> #[trigger] ((y as i32) as int) == y as int,
{
    assert forall|y: u32| #[trigger] (y as i32) >= 0 <==> y < 0x80000000 by {
        assert(((y as i32) >= 0) <==> y < 0x80000000) by (bit_vector);
    }
    assert forall|y: u32| y < 0x80000000 implies #[trigger] ((y as i32) as int) == y as int by {
        assert(y < 0x80000000 ==> (y as i32) as u32 == y && (y as i32) >= 0) by (bit_vector);
    }
}

/// A positional reader over a byte buffer.
pub struct PacketReader {
    data: Vec<u8>,
    pos: usize,
}

impl PacketReader {
    /// The read position never passes the end of the buffer.
    pub closed spec fn wf(&self) -> bool {
        self.pos <= self.data@.len()
    }

    /// The bytes not yet consumed.
    pub closed spec fn rem(&self) -> Seq<u8> {
        self.data@.subrange(self.pos as int, self.data@.len() as int)
    }

    pub fn new(data: Vec<u8>) -> (r: PacketReader)
        ensures
            r.wf(),
            r.rem() == data@,
    {
        let r = PacketReader { data, pos: 0 };
        proof {
            assert(r.rem() =~= r.data@);
        }
        r
    }

    /// Returns the number of bytes unread.
    pub fn remaining(&self) -> (r: usize)
        requires
            self.wf(),
        ensures
            r == self.rem().len(),
    {
        self.data.len() - self.pos
    }

    /// Reads a u8.
    pub fn read_u8(&mut self) -> (r: Result<u8, CodecError>)
        requires
            old(self).wf(),
        ensures
            final(self).wf(),
            match r {
                Ok(b) => old(self).rem().len() >= 1 && b == old(self).rem()[0] && final(self).rem()
                    == old(self).rem().skip(1),
                Err(e) => e == CodecError::UnexpectedEof && old(self).rem().len() == 0 && *final(self)
                    == *old(self),
            },
    {
        if self.pos >= self.data.len() {
            return Err(CodecError::UnexpectedEof);
        }
        let b = self.data[self.pos];
        self.pos = self.pos + 1;
        proof {
            assert(self.rem() =~= old(self).rem().skip(1));
        }
        Ok(b)
    }

    /// Reads a little-endian u16.
    pub fn read_u16(&mut self) -> (r: Result<u16, CodecError>)
        requires
            old(self).wf(),
        ensures
            final(self).wf(),
            match r {
                Ok(v) => old(self).rem().len() >= 2 && v as int == u16_val(
                    old(self).rem()[0],
                    old(self).rem()[1],
                ) && old(self).rem().subrange(0, 2) == le16(v) && final(self).rem() == old(
                    self,
                ).rem().skip(2),
                Err(e) => e == CodecError::UnexpectedEof && old(self).rem().len() < 2 && *final(self)
                    == *old(self),
            },
    {
        if self.data.len() - self.pos < 2 {
            return Err(CodecError::UnexpectedEof);
        }
        let b0 = self.data[self.pos];
        let b1 = self.data[self.pos + 1];
        let v: u16 = b0 as u16 + 256 * (b1 as u16);
        self.pos = self.pos + 2;
        proof {
            lemma_le16_digits(v, b0, b1);
            assert(old(self).rem().subrange(0, 2) =~= seq![b0, b1]);
            assert(self.rem() =~= old(self).rem().skip(2));
        }
        Ok(v)
    }

    /// Reads a big-endian u16.
    pub fn read_u16_be(&mut self) -> (r: Result<u16, CodecError>)
        requires
            old(self).wf(),
        ensures
            final(self).wf(),
            match r {
                Ok(v) => old(self).rem().len() >= 2 && v as int == u16_val(
                    old(self).rem()[1],
                    old(self).rem()[0],
                ) && old(self).rem().subrange(0, 2) == be16(v) && final(self).rem() == old(
                    self,
                ).rem().skip(2),
                Err(e) => e == CodecError::UnexpectedEof && old(self).rem().len() < 2 && *final(self)
                    == *old(self),
            },
    {
        if self.data.len() - self.pos < 2 {
            return Err(CodecError::UnexpectedEof);
        }
        let b0 = self.data[self.pos];
        let b1 = self.data[self.pos + 1];
        let v: u16 = b1 as u16 + 256 * (b0 as u16);
        self.pos = self.pos + 2;
        proof {
            lemma_le16_digits(v, b1, b0);
            assert(old(self).rem().subrange(0, 2) =~= seq![b0, b1]);
            assert(self.rem() =~= old(self).rem().skip(2));
        }
        Ok(v)
    }

    /// Reads a little-endian u32.
    pub fn read_u32(&mut self) -> (r: Result<u32, CodecError>)
        requires
            old(self).wf(),
        ensures
            final(self).wf(),
            match r {
                Ok(v) => old(self).rem().len() >= 4 && v as int == u32_val(
                    old(self).rem()[0],
                    old(self).rem()[1],
                    old(self).rem()[2],
                    old(self).rem()[3],
                ) && old(self).rem().subrange(0, 4) == le32(v) && final(self).rem() == old(
                    self,
                ).rem().skip(4),
                Err(e) => e == CodecError::UnexpectedEof && old(self).rem().len() < 4 && *final(self)
                    == *old(self),
            },
    {
        if self.data.len() - self.pos < 4 {
            return Err(CodecError::UnexpectedEof);
        }
        let b0 = self.data[self.pos];
        let b1 = self.data[self.pos + 1];
        let b2 = self.data[self.pos + 2];
        let b3 = self.data[self.pos + 3];
        let v: u32 = b0 as u32 + 256 * (b1 as u32) + 0x10000 * (b2 as u32) + 0x1000000 * (
        b3 as u32);
        self.pos = self.pos + 4;
        proof {
            lemma_le32_digits(v, b0, b1, b2, b3);
            assert(old(self).rem().subrange(0, 4) =~= seq![b0, b1, b2, b3]);
            assert(self.rem() =~= old(self).rem().skip(4));
        }
        Ok(v)
    }

    /// Reads an i8.
    pub fn read_i8(&mut self) -> (r: Result<i8, CodecError>)
        requires
            old(self).wf(),
        ensures
            final(self).wf(),
            match r {
                Ok(v) => old(self).rem().len() >= 1 && v as u8 == old(self).rem()[0] && final(self).rem()
                    == old(self).rem().skip(1),
                Err(e) => e == CodecError::UnexpectedEof && old(self).rem().len() == 0 && *final(self)
                    == *old(self),
            },
    {
        proof {
            lemma_cast_round_trips();
        }
        match self.read_u8() {
            Ok(b) => Ok(b as i8),
            Err(e) => Err(e),
        }
    }

    /// Reads a little-endian i16.
    pub fn read_i16(&mut self) -> (r: Result<i16, CodecError>)
        requires
            old(self).wf(),
        ensures
            final(self).wf(),
            match r {
                Ok(v) => old(self).rem().len() >= 2 && old(self).rem().subrange(0, 2) == le16(
                    v as u16,
                ) && final(self).rem() == old(self).rem().skip(2),
                Err(e) => e == CodecError::UnexpectedEof && old(self).rem().len() < 2 && *final(self)
                    == *old(self),
            },
    {
        proof {
            lemma_cast_round_trips();
        }
        match self.read_u16() {
            Ok(v) => Ok(v as i16),
            Err(e) => Err(e),
        }
    }

    /// Reads a little-endian i32.
    pub fn read_i32(&mut self) -> (r: Result<i32, CodecError>)
        requires
            old(self).wf(),
        ensures
            final(self).wf(),
            match r {
                Ok(v) => old(self).rem().len() >= 4 && (v as u32) as int == u32_val(
                    old(self).rem()[0],
                    old(self).rem()[1],
                    old(self).rem()[2],
                    old(self).rem()[3],
                ) && old(self).rem().subrange(0, 4) == le32(v as u32) && final(self).rem() == old(
                    self,
                ).rem().skip(4),
                Err(e) => e == CodecError::UnexpectedEof && old(self).rem().len() < 4 && *final(self)
                    == *old(self),
            },
    {
        proof {
            lemma_cast_round_trips();
        }
        match self.read_u32() {
            Ok(v) => Ok(v as i32),
            Err(e) => Err(e),
        }
    }

    /// Reads a bool encoded as one byte: `0x00` is false, `0x01` is true.
    pub fn read_bool(&mut self) -> (r: Result<bool, CodecError>)
        requires
            old(self).wf(),
        ensures
            final(self).wf(),
            match r {
                Ok(v) => old(self).rem().len() >= 1 && old(self).rem()[0] == (if v {
                    1u8
                } else {
                    0u8
                }) && final(self).rem() == old(self).rem().skip(1),
                Err(e) => {
                    &&& (e == CodecError::UnexpectedEof || e == CodecError::InvalidDiscriminant)
                    &&& (e == CodecError::UnexpectedEof <==> old(self).rem().len() == 0)
                    &&& (e == CodecError::InvalidDiscriminant <==> (old(self).rem().len() >= 1
                        && old(self).rem()[0] > 1))
                    &&& (if e == CodecError::UnexpectedEof {
                        *final(self) == *old(self)
                    } else {
                        final(self).rem() == old(self).rem().skip(1)
                    })
                },
            },
    {
        let b = self.read_u8()?;
        if b == 0 {
            Ok(false)
        } else if b == 1 {
            Ok(true)
        } else {
            Err(CodecError::InvalidDiscriminant)
        }
    }

    /// Reads `count` bytes.
    pub fn read_bytes_raw(&mut self, count: usize) -> (r: Result<Vec<u8>, CodecError>)
        requires
            old(self).wf(),
        ensures
            final(self).wf(),
            match r {
                Ok(v) => old(self).rem().len() >= count && v@ == old(self).rem().take(count as int)
                    && final(self).rem() == old(self).rem().skip(count as int),
                Err(e) => e == CodecError::UnexpectedEof && old(self).rem().len() < count && *final(self)
                    == *old(self),
            },
    {
        if self.data.len() - self.pos < count {
            return Err(CodecError::UnexpectedEof);
        }
        let mut v: Vec<u8> = Vec::new();
        let mut i: usize = 0;
        while i < count
            invariant
                self.wf(),
                *self == *old(self),
                i <= count,
                count <= self.rem().len(),
                self.pos + count <= self.data@.len(),
                self.pos + count <= usize::MAX,
                v@ == self.rem().take(i as int),
            decreases count - i,
        {
            v.push(self.data[self.pos + i]);
            i = i + 1;
            proof {
                assert(v@ =~= self.rem().take(i as int));
            }
        }
        self.pos = self.pos + count;
        proof {
            assert(self.rem() =~= old(self).rem().skip(count as int));
        }
        Ok(v)
    }

    /// Reads `length` bytes; a copying stand-in for borrowing a sub-slice.
    pub fn read_slice(&mut self, length: usize) -> (r: Result<Vec<u8>, CodecError>)
        requires
            old(self).wf(),
        ensures
            final(self).wf(),
            match r {
                Ok(v) => old(self).rem().len() >= length && v@ == old(self).rem().take(
                    length as int,
                ) && final(self).rem() == old(self).rem().skip(length as int),
                Err(e) => e == CodecError::UnexpectedEof && old(self).rem().len() < length && *final(self)
                    == *old(self),
            },
    {
        self.read_bytes_raw(length)
    }

    /// Reads whatever is left, leaving the reader empty.
    pub fn remaining_bytes(&mut self) -> (r: Vec<u8>)
        requires
            old(self).wf(),
        ensures
            final(self).wf(),
            r@ == old(self).rem(),
            final(self).rem() == Seq::<u8>::empty(),
    {
        let n = self.data.len() - self.pos;
        let r = match self.read_bytes_raw(n) {
            Ok(v) => v,
            Err(_) => Vec::new(),
        };
        proof {
            assert(r@ =~= old(self).rem());
            assert(self.rem() =~= Seq::<u8>::empty());
        }
        r
    }
}

/// 128 raised to the `k`-th power; the place value of the `k`-th varint byte.
pub open spec fn pow128(k: int) -> int
    decreases k,
{
    if k <= 0 {
        1
    } else {
        128 * pow128(k - 1)
    }
}

proof fn lemma_pow128_values()
    ensures
        pow128(0) == 1,
        pow128(1) == 128,
        pow128(2) == 0x4000,
        pow128(3) == 0x200000,
        pow128(4) == 0x10000000,
        pow128(5) == 0x800000000,
{
    reveal_with_fuel(pow128, 6);
}

/// The 7-bit varint encoding of a 32-bit value: seven value bits per byte,
/// low bits first, continuation bit set on every byte but the last.
pub open spec fn varint(v: u32) -> Seq<u8>
    decreases v,
{
    if v < 128 {
        seq![v as u8]
    } else {
        seq![(v % 128 + 128) as u8] + varint((v / 128) as u32)
    }
}

/// How many bytes a varint read consumes from `s`, scanning from index `k`:
/// up to and including the first byte without its continuation bit. `None`
/// when the input runs out first or a fifth byte still has the bit set.
pub open spec fn varint_size_from(s: Seq<u8>, k: int) -> Option<int>
    decreases 5 - k,
{
    if k >= 5 || k >= s.len() {
        None
    } else if s[k] < 128 {
        Some(k + 1)
    } else {
        varint_size_from(s, k + 1)
    }
}

pub open spec fn varint_size(s: Seq<u8>) -> Option<int> {
    varint_size_from(s, 0)
}

/// A varint read of `s` fails with an overflow: five bytes in, the
/// continuation bit is still set.
pub open spec fn varint_overflow(s: Seq<u8>) -> bool {
    s.len() >= 5 && (forall|j: int| 0 <= j < 5 ==> s[j] >= 128)
}

/// The unbounded value accumulated by a varint read of `s` from index `k`.
pub open spec fn varint_raw_from(s: Seq<u8>, k: int) -> int
    decreases 5 - k,
{
    if k >= 5 || k >= s.len() {
        0
    } else if s[k] < 128 {
        s[k] * pow128(k)
    } else {
        (s[k] - 128) * pow128(k) + varint_raw_from(s, k + 1)
    }
}

/// The value a varint read of `s` returns; bits beyond the 32nd are dropped.
pub open spec fn varint_value(s: Seq<u8>) -> u32 {
    (varint_raw_from(s, 0) % 0x100000000) as u32
}

proof fn lemma_varint_raw_nonneg(s: Seq<u8>, k: int)
    ensures
        varint_raw_from(s, k) >= 0,
    decreases 5 - k,
{
    lemma_pow128_values();
    if k >= 5 || k >= s.len() {
    } else if s[k] < 128 {
        lemma_pow128_pos(k);
    } else {
        lemma_pow128_pos(k);
        lemma_varint_raw_nonneg(s, k + 1);
    }
}

proof fn lemma_pow128_le(a: int, b: int)
    requires
        a <= b,
    ensures
        pow128(a) <= pow128(b),
    decreases b - a,
{
    if a < b {
        lemma_pow128_le(a, b - 1);
        lemma_pow128_pos(b - 1);
    }
}

proof fn lemma_pow128_pos(k: int)
    ensures
        pow128(k) >= 1,
    decreases k,
{
    if k > 0 {
        lemma_pow128_pos(k - 1);
    }
}

proof fn lemma_varint_parse_from(v: u32, pre: Seq<u8>, rest: Seq<u8>, k: int)
    requires
        0 <= k <= 4,
        pre.len() == k,
        v < pow128(5 - k),
    ensures
        1 <= varint(v).len() <= 5 - k,
        varint_size_from(pre + varint(v) + rest, k) == Some(k + varint(v).len()),
        varint_raw_from(pre + varint(v) + rest, k) == v * pow128(k),
    decreases v,
{
    lemma_pow128_values();
    let s = pre + varint(v) + rest;
    if v < 128 {
        assert(s[k] == v as u8);
        assert(varint_size_from(s, k) == Some(k + 1));
        assert(varint_raw_from(s, k) == v * pow128(k));
    } else {
        let b = (v % 128 + 128) as u8;
        let v2 = (v / 128) as u32;
        assert(s[k] == b);
        assert(v2 < v) by (nonlinear_arith)
            requires
                v >= 128,
                v2 == v / 128,
        ;
        assert(v2 < pow128(5 - (k + 1))) by (nonlinear_arith)
            requires
                v < pow128(5 - k),
                pow128(5 - k) == 128 * pow128(4 - k),
                v2 == v / 128,
        ;
        assert(k <= 3) by {
            if k == 4 {
                assert(pow128(1) == 128);
            }
        }
        lemma_varint_parse_from(v2, pre + seq![b], rest, k + 1);
        assert(pre + seq![b] + varint(v2) + rest =~= s);
        assert(varint(v) == seq![b] + varint(v2));
        assert(varint_size_from(s, k) == varint_size_from(s, k + 1));
        assert(varint_raw_from(s, k) == (b - 128) * pow128(k) + varint_raw_from(s, k + 1));
        assert((v % 128) * pow128(k) + (v / 128) * pow128(k + 1) == v * pow128(k))
            by (nonlinear_arith)
            requires
                pow128(k + 1) == 128 * pow128(k),
                v >= 128,
        ;
    }
}

/// Encoding a value as a 7-bit varint and then reading the result back
/// yields the original value and consumes exactly the encoding, whatever
/// bytes follow it.
pub proof fn lemma_varint_round_trip(v: u32, rest: Seq<u8>)
    ensures
        1 <= varint(v).len() <= 5,
        varint_size(varint(v) + rest) == Some(varint(v).len() as int),
        varint_value(varint(v) + rest) == v,
        (varint(v) + rest).skip(varint(v).len() as int) == rest,
{
    assert((varint(v) + rest).skip(varint(v).len() as int) =~= rest);
    lemma_pow128_values();
    lemma_varint_parse_from(v, Seq::<u8>::empty(), rest, 0);
    assert(Seq::<u8>::empty() + varint(v) + rest =~= varint(v) + rest);
    assert(varint_raw_from(varint(v) + rest, 0) == v * 1);
    assert(v * 1 == v as int) by (nonlinear_arith);
    assert(v as int % 0x100000000 == v as int) by {
        vstd::arithmetic::div_mod::lemma_small_mod(v as nat, 0x100000000);
    }
}


proof fn lemma_varint_all_cont_none(s: Seq<u8>, k: int)
    requires
        0 <= k <= 5,
        s.len() >= 5,
        forall|j: int| k <= j < 5 ==> s[j] >= 128,
    ensures
        varint_size_from(s, k) is None,
    decreases 5 - k,
{
    if k < 5 {
        lemma_varint_all_cont_none(s, k + 1);
    }
}

/// A successful varint read consumes between one and five bytes, and no
/// more than the input holds.
pub proof fn lemma_varint_size_bounds(s: Seq<u8>)
    ensures
        varint_size(s) matches Some(n) ==> 0 < n <= 5 && n <= s.len(),
{
    lemma_varint_size_from_bounds(s, 0);
}

proof fn lemma_varint_size_from_bounds(s: Seq<u8>, k: int)
    requires
        0 <= k,
    ensures
        varint_size_from(s, k) matches Some(n) ==> k < n <= 5 && n <= s.len(),
    decreases 5 - k,
{
    if k >= 5 || k >= s.len() {
    } else if s[k] < 128 {
    } else {
        lemma_varint_size_from_bounds(s, k + 1);
    }
}

/// A varint read cannot both deliver a value and overflow.
proof fn lemma_varint_size_not_overflow(s: Seq<u8>)
    ensures
        varint_size(s) is Some ==> !varint_overflow(s),
{
    if varint_overflow(s) {
        lemma_varint_all_cont_none(s, 0);
    }
}

/// A length-prefixed byte block: a varint byte count, then that many bytes.
/// Returns the payload and the total number of bytes consumed.
pub open spec fn parse_lp_bytes(s: Seq<u8>) -> Option<(Seq<u8>, int)> {
    match varint_size(s) {
        Some(n) => {
            let l = varint_value(s) as int;
            if s.len() >= n + l {
                Some((s.subrange(n, n + l), n + l))
            } else {
                None
            }
        },
        None => None,
    }
}

/// One wire message: a little-endian `u16` payload length, a tag byte, and
/// the payload.
pub open spec fn message_bytes(tag: u8, payload: Seq<u8>) -> Seq<u8> {
    le16(payload.len() as u16) + seq![tag] + payload
}

/// Reads one message off the front of `s`: its tag and payload.
pub open spec fn parse_message(s: Seq<u8>) -> Option<(u8, Seq<u8>)> {
    if s.len() < 3 {
        None
    } else {
        let l = u16_val(s[0], s[1]);
        if s.len() >= 3 + l {
            Some((s[2], s.subrange(3, 3 + l)))
        } else {
            None
        }
    }
}

/// The concatenation of a sequence of messages.
pub open spec fn messages_bytes(msgs: Seq<(u8, Seq<u8>)>) -> Seq<u8>
    decreases msgs.len(),
{
    if msgs.len() == 0 {
        Seq::<u8>::empty()
    } else {
        message_bytes(msgs[0].0, msgs[0].1) + messages_bytes(msgs.drop_first())
    }
}

/// Reads messages off `s` until it is exhausted; `None` if any read fails.
pub open spec fn parse_messages(s: Seq<u8>) -> Option<Seq<(u8, Seq<u8>)>>
    decreases s.len(),
{
    if s.len() == 0 {
        Some(Seq::<(u8, Seq<u8>)>::empty())
    } else if s.len() < 3 {
        None
    } else {
        let l = u16_val(s[0], s[1]);
        if s.len() < 3 + l {
            None
        } else {
            match parse_messages(s.skip(3 + l)) {
                Some(rest) => Some(seq![(s[2], s.subrange(3, 3 + l))] + rest),
                None => None,
            }
        }
    }
}

/// One message followed by anything parses back to its tag and payload.
pub proof fn lemma_message_round_trip(tag: u8, payload: Seq<u8>, rest: Seq<u8>)
    requires
        payload.len() <= 0xFFFF,
    ensures
        parse_message(message_bytes(tag, payload) + rest) == Some((tag, payload)),
        message_bytes(tag, payload).len() == 3 + payload.len(),
{
    let s = message_bytes(tag, payload) + rest;
    let l = payload.len() as int;
    let lv = payload.len() as u16;
    assert(s[0] == (lv as int % 256) as u8 && s[1] == (lv as int / 256) as u8);
    assert(u16_val(s[0], s[1]) == l) by {
        vstd::arithmetic::div_mod::lemma_fundamental_div_mod(lv as int, 256);
    }
    assert(s[2] == tag);
    assert(s.subrange(3, 3 + l) =~= payload);
}

/// Writing any sequence of tagged messages and reading messages back until
/// the buffer is exhausted recovers exactly that sequence.
pub proof fn lemma_messages_round_trip(msgs: Seq<(u8, Seq<u8>)>)
    requires
        forall|i: int| 0 <= i < msgs.len() ==> (#[trigger] msgs[i].1).len() <= 0xFFFF,
    ensures
        parse_messages(messages_bytes(msgs)) == Some(msgs),
    decreases msgs.len(),
{
    if msgs.len() == 0 {
        assert(messages_bytes(msgs) == Seq::<u8>::empty());
        assert(parse_messages(messages_bytes(msgs)) == Some(msgs));
    } else {
        let tag = msgs[0].0;
        let payload = msgs[0].1;
        let tail = messages_bytes(msgs.drop_first());
        let s = messages_bytes(msgs);
        assert(s == message_bytes(tag, payload) + tail);
        lemma_message_round_trip(tag, payload, tail);
        assert(forall|i: int|
            0 <= i < msgs.drop_first().len() ==> (#[trigger] msgs.drop_first()[i].1).len()
                <= 0xFFFF) by {
            assert(forall|i: int|
                0 <= i < msgs.drop_first().len() ==> msgs.drop_first()[i] == msgs[i + 1]);
        }
        lemma_messages_round_trip(msgs.drop_first());
        let l = payload.len() as int;
        assert(s.len() >= 3 + l);
        assert(u16_val(s[0], s[1]) == l) by {
            let lv = payload.len() as u16;
            assert(s[0] == (lv as int % 256) as u8 && s[1] == (lv as int / 256) as u8);
            vstd::arithmetic::div_mod::lemma_fundamental_div_mod(lv as int, 256);
        }
        assert(s.skip(3 + l) =~= tail);
        assert(s.subrange(3, 3 + l) =~= payload);
        assert(seq![(s[2], s.subrange(3, 3 + l))] + msgs.drop_first() =~= msgs);
    }
}

impl PacketReader {

    /// Reads one message: a little-endian `u16` payload length, a tag byte,
    /// and the payload, returned as a fresh reader over the payload bytes.
    pub fn read_message(&mut self) -> (r: Result<(u8, PacketReader), CodecError>)
        requires
            old(self).wf(),
        ensures
            final(self).wf(),
            match r {
                Ok((tag, sub)) => match parse_message(old(self).rem()) {
                    Some((t, p)) => tag == t && sub.wf() && sub.rem() == p && final(self).rem()
                        == old(self).rem().skip(3 + p.len() as int),
                    None => false,
                },
                Err(e) => e == CodecError::UnexpectedEof && parse_message(old(self).rem()) is None
                    && *final(self) == *old(self),
            },
    {
        if self.data.len() - self.pos < 3 {
            return Err(CodecError::UnexpectedEof);
        }
        let b0 = self.data[self.pos];
        let b1 = self.data[self.pos + 1];
        let tag = self.data[self.pos + 2];
        let length: usize = b0 as usize + 256 * (b1 as usize);
        proof {
            assert(old(self).rem()[0] == b0 && old(self).rem()[1] == b1 && old(self).rem()[2]
                == tag);
        }
        if self.data.len() - self.pos - 3 < length {
            return Err(CodecError::UnexpectedEof);
        }
        self.pos = self.pos + 3;
        proof {
            assert(self.rem() =~= old(self).rem().skip(3));
        }
        let payload = match self.read_bytes_raw(length) {
            Ok(p) => p,
            Err(_) => {
                proof {
                    assert(false);
                }
                return Err(CodecError::UnexpectedEof);
            },
        };
        proof {
            assert(old(self).rem().skip(3).take(length as int) =~= old(self).rem().subrange(
                3,
                3 + length as int,
            ));
            assert(old(self).rem().skip(3).skip(length as int) =~= old(self).rem().skip(
                3 + length as int,
            ));
        }
        Ok((tag, PacketReader::new(payload)))
    }

    /// Reads a 7-bit varint u32: seven value bits per byte, low bits first,
    /// until a byte without the continuation bit; five bytes is the cap, and
    /// a fifth byte with the bit still set is an overflow.
    pub fn read_u32_encoded(&mut self) -> (r: Result<u32, CodecError>)
        requires
            old(self).wf(),
        ensures
            final(self).wf(),
            match r {
                Ok(v) => match varint_size(old(self).rem()) {
                    Some(n) => v == varint_value(old(self).rem()) && final(self).rem() == old(
                        self,
                    ).rem().skip(n),
                    None => false,
                },
                Err(e) => {
                    &&& varint_size(old(self).rem()) is None
                    &&& (e == CodecError::VarintOverflow <==> varint_overflow(old(self).rem()))
                    &&& (e == CodecError::UnexpectedEof <==> !varint_overflow(old(self).rem()))
                    &&& (if e == CodecError::VarintOverflow {
                        final(self).rem() == old(self).rem().skip(5)
                    } else {
                        final(self).rem() == Seq::<u8>::empty()
                    })
                },
            },
    {
        proof {
            lemma_pow128_values();
        }
        let ghost orig = self.rem();
        let mut value: u32 = 0;
        let mut mult: u32 = 1;
        let mut k: usize = 0;
        while k < 5
            invariant
                self.wf(),
                k <= 4,
                orig == old(self).rem(),
                k <= orig.len(),
                self.rem() == orig.skip(k as int),
                forall|j: int| 0 <= j < k ==> orig[j] >= 128,
                mult == pow128(k as int),
                0 <= value < pow128(k as int),
                value as int + varint_raw_from(orig, k as int) == varint_raw_from(orig, 0),
                varint_size_from(orig, k as int) == varint_size_from(orig, 0),
                pow128(4) == 0x10000000,
            decreases 5 - k,
        {
            proof {
                lemma_pow128_values();
            }
            if self.pos >= self.data.len() {
                proof {
                    assert(self.rem().len() == 0);
                    assert(orig.skip(k as int).len() == orig.len() - k);
                    assert(orig.len() == k);
                    assert(varint_size_from(orig, k as int) is None);
                    assert(!varint_overflow(orig));
                    assert(self.rem() =~= Seq::<u8>::empty());
                }
                return Err(CodecError::UnexpectedEof);
            }
            let b = self.data[self.pos];
            proof {
                assert(self.rem().len() >= 1);
                assert(orig.skip(k as int).len() == orig.len() - k);
                assert(k < orig.len());
                assert(self.rem()[0] == self.data@[self.pos as int]);
                assert(orig.skip(k as int)[0] == orig[k as int]);
                assert(orig[k as int] == b);
            }
            let ghost pre = orig.skip(k as int);
            self.pos = self.pos + 1;
            proof {
                assert(self.rem() =~= pre.skip(1));
                assert(pre.skip(1) =~= orig.skip(k as int + 1));
            }
            if b < 128 {
                let v: u32;
                if k == 4 {
                    v = value + ((b % 16) as u32) * mult;
                } else {
                    proof {
                        lemma_pow128_le(k as int, 3);
                        lemma_pow128_values();
                        assert((b as int) * (mult as int) <= 127 * 0x200000) by (nonlinear_arith)
                            requires
                                b < 128,
                                0 <= mult <= 0x200000,
                        ;
                    }
                    v = value + (b as u32) * mult;
                }
                proof {
                    assert(varint_size_from(orig, k as int) == Some(k as int + 1));
                    assert(varint_raw_from(orig, k as int) == b * pow128(k as int));
                    let raw = varint_raw_from(orig, 0);
                    assert(raw == value as int + b * pow128(k as int));
                    if k == 4 {
                        assert(b as int == b % 16 + 16 * (b as int / 16)) by {
                            vstd::arithmetic::div_mod::lemma_fundamental_div_mod(b as int, 16);
                        }
                        assert(raw == 0x100000000 * (b as int / 16) + (value as int + (b % 16)
                            * 0x10000000)) by (nonlinear_arith)
                            requires
                                raw == value as int + b * pow128(4),
                                pow128(4) == 0x10000000,
                                b as int == b % 16 + 16 * (b as int / 16),
                        ;
                        assert(v as int == value as int + (b % 16) * 0x10000000);
                        lemma_mod_multiples_vanish(b as int / 16, v as int, 0x100000000);
                        vstd::arithmetic::div_mod::lemma_small_mod(v as nat, 0x100000000);
                        assert(raw % 0x100000000 == v as int);
                    } else {
                        assert(b * pow128(k as int) < 128 * pow128(k as int))
                            by (nonlinear_arith)
                            requires
                                b < 128,
                                pow128(k as int) >= 1,
                        ;
                        assert(raw < 128 * pow128(k as int) + pow128(k as int));
                        assert(raw < 0x100000000);
                        vstd::arithmetic::div_mod::lemma_small_mod(raw as nat, 0x100000000);
                        assert(raw % 0x100000000 == raw);
                    }
                }
                return Ok(v);
            } else if k == 4 {
                proof {
                    assert(varint_size_from(orig, 4) is None);
                    assert(varint_overflow(orig));
                    assert(self.rem() =~= orig.skip(5));
                }
                return Err(CodecError::VarintOverflow);
            } else {
                proof {
                    assert((b - 128) * pow128(k as int) <= 127 * pow128(k as int))
                        by (nonlinear_arith)
                        requires
                            b < 256,
                            pow128(k as int) >= 1,
                    ;
                    assert(pow128(k as int + 1) == 128 * pow128(k as int));
                    assert(value as int + (b - 128) * pow128(k as int) < pow128(k as int + 1))
                        by (nonlinear_arith)
                        requires
                            value < pow128(k as int),
                            (b - 128) * pow128(k as int) <= 127 * pow128(k as int),
                            pow128(k as int + 1) == 128 * pow128(k as int),
                    ;
                    assert(pow128(k as int + 1) <= pow128(4)) by {
                        reveal_with_fuel(pow128, 6);
                        lemma_pow128_pos(0);
                        lemma_pow128_pos(1);
                        lemma_pow128_pos(2);
                        lemma_pow128_pos(3);
                    }
                    assert(varint_raw_from(orig, k as int) == (b - 128) * pow128(k as int)
                        + varint_raw_from(orig, k as int + 1));
                }
                value = value + ((b - 128) as u32) * mult;
                mult = mult * 128;
                k = k + 1;
            }
        }
        proof {
            assert(false);
        }
        Err(CodecError::UnexpectedEof)
    }

    /// Reads a 7-bit varint and reinterprets its bits as an i32.
    pub fn read_i32_encoded(&mut self) -> (r: Result<i32, CodecError>)
        requires
            old(self).wf(),
        ensures
            final(self).wf(),
            match r {
                Ok(v) => match varint_size(old(self).rem()) {
                    Some(n) => v as u32 == varint_value(old(self).rem()) && final(self).rem()
                        == old(self).rem().skip(n),
                    None => false,
                },
                Err(e) => {
                    &&& varint_size(old(self).rem()) is None
                    &&& (e == CodecError::VarintOverflow <==> varint_overflow(old(self).rem()))
                    &&& (e == CodecError::UnexpectedEof <==> !varint_overflow(old(self).rem()))
                    &&& (if e == CodecError::VarintOverflow {
                        final(self).rem() == old(self).rem().skip(5)
                    } else {
                        final(self).rem() == Seq::<u8>::empty()
                    })
                },
            },
    {
        proof {
            lemma_cast_round_trips();
        }
        match self.read_u32_encoded() {
            Ok(v) => Ok(v as i32),
            Err(e) => Err(e),
        }
    }

    /// Reads a string: a varint byte count, then that many UTF-8 bytes.
    pub fn read_string(&mut self) -> (r: Result<String, CodecError>)
        requires
            old(self).wf(),
        ensures
            final(self).wf(),
            match r {
                Ok(st) => match parse_lp_bytes(old(self).rem()) {
                    Some((p, c)) => valid_utf8(p) && st@ == decode_utf8(p) && final(self).rem()
                        == old(self).rem().skip(c),
                    None => false,
                },
                Err(e) => match parse_lp_bytes(old(self).rem()) {
                    Some((p, c)) => e == CodecError::InvalidUtf8 && !valid_utf8(p) && final(self).rem() == old(self).rem().skip(c),
                    None => {
                        &&& e != CodecError::InvalidUtf8 && e != CodecError::InvalidDiscriminant
                        &&& (e == CodecError::VarintOverflow <==> varint_overflow(
                            old(self).rem(),
                        ))
                        &&& (e == CodecError::VarintOverflow ==> final(self).rem() == old(
                            self,
                        ).rem().skip(5))
                        &&& (e == CodecError::UnexpectedEof ==> (match varint_size(
                            old(self).rem(),
                        ) {
                            Some(n) => final(self).rem() == old(self).rem().skip(n),
                            None => final(self).rem() == Seq::<u8>::empty(),
                        }))
                    },
                },
            },
    {
        proof {
            lemma_varint_size_not_overflow(old(self).rem());
            lemma_varint_size_from_bounds(old(self).rem(), 0);
        }
        let length = self.read_u32_encoded()?;
        let n = self.remaining();
        if (length as usize) > n {
            return Err(CodecError::UnexpectedEof);
        }
        let ghost sz: int = varint_size(old(self).rem()).unwrap();
        let bytes = self.read_bytes_raw(length as usize)?;
        proof {
            assert(old(self).rem().skip(sz).take(length as int) =~= old(self).rem().subrange(
                sz,
                sz + length as int,
            ));
            assert(old(self).rem().skip(sz).skip(length as int) =~= old(self).rem().skip(
                sz + length as int,
            ));
        }
        match bytes_to_string(bytes) {
            Some(st) => Ok(st),
            None => Err(CodecError::InvalidUtf8),
        }
    }
}

/// Relies on `String::from_utf8`: it succeeds exactly on valid UTF-8 input
/// and returns the string those bytes encode.
#[verifier::external_body]
fn bytes_to_string(v: Vec<u8>) -> (r: Option<String>)
    ensures
        match r {
            Some(st) => valid_utf8(v@) && st@ == decode_utf8(v@),
            None => !valid_utf8(v@),
        },
{
    String::from_utf8(v).ok()
}


/// Relies on `String::push`: it appends exactly the given character.
#[verifier::external_body]
pub(crate) fn push_char(s: &mut String, c: char)
    ensures
        final(s)@ == old(s)@.push(c),
{
    s.push(c);
}

/// A writer that builds a byte buffer, with support for patching the length
/// field of a message once its payload has been written.
pub struct PacketWriter {
    data: Vec<u8>,
    message_starts: Vec<usize>,
}

impl Default for PacketWriter {
    /// An empty writer with no message open.
    fn default() -> (r: PacketWriter)
        ensures
            r.wf(),
            r.out() == Seq::<u8>::empty(),
            r.starts() == Seq::<usize>::empty(),
    {
        PacketWriter { data: Vec::new(), message_starts: Vec::new() }
    }
}

impl PacketWriter {
    /// The bytes written so far.
    pub closed spec fn out(&self) -> Seq<u8> {
        self.data@
    }

    /// Offsets of the message headers opened and not yet closed.
    pub closed spec fn starts(&self) -> Seq<usize> {
        self.message_starts@
    }

    /// Every open message header lies fully inside the buffer.
    pub closed spec fn wf(&self) -> bool {
        forall|i: int|
            0 <= i < self.message_starts@.len() ==> self.message_starts@[i] + 3
                <= self.data@.len()
    }

    pub fn new() -> (r: PacketWriter)
        ensures
            r.wf(),
            r.out() == Seq::<u8>::empty(),
            r.starts() == Seq::<usize>::empty(),
    {
        PacketWriter { data: Vec::new(), message_starts: Vec::new() }
    }

    /// Returns the number of bytes written so far.
    pub fn len(&self) -> (r: usize)
        ensures
            r == self.out().len(),
    {
        self.data.len()
    }

    /// Returns true if nothing has been written.
    pub fn is_empty(&self) -> (r: bool)
        ensures
            r == (self.out().len() == 0),
    {
        self.data.is_empty()
    }

    /// Writes a u8.
    pub fn write_u8(&mut self, value: u8)
        requires
            old(self).wf(),
        ensures
            final(self).wf(),
            final(self).out() == old(self).out() + seq![value],
            final(self).starts() == old(self).starts(),
    {
        self.data.push(value);
        proof {
            assert(self.out() =~= old(self).out() + seq![value]);
        }
    }

    /// Writes a bool as one byte: `0x01` for true, `0x00` for false.
    pub fn write_bool(&mut self, value: bool)
        requires
            old(self).wf(),
        ensures
            final(self).wf(),
            final(self).out() == old(self).out() + seq![if value { 1u8 } else { 0u8 }],
            final(self).starts() == old(self).starts(),
    {
        self.write_u8(if value { 1 } else { 0 });
    }

    /// Writes a little-endian u16.
    pub fn write_u16(&mut self, value: u16)
        requires
            old(self).wf(),
        ensures
            final(self).wf(),
            final(self).out() == old(self).out() + le16(value),
            final(self).starts() == old(self).starts(),
    {
        self.write_u8((value % 256) as u8);
        self.write_u8((value / 256) as u8);
        proof {
            assert(self.out() =~= old(self).out() + le16(value));
        }
    }

    /// Writes a big-endian u16.
    pub fn write_u16_be(&mut self, value: u16)
        requires
            old(self).wf(),
        ensures
            final(self).wf(),
            final(self).out() == old(self).out() + be16(value),
            final(self).starts() == old(self).starts(),
    {
        self.write_u8((value / 256) as u8);
        self.write_u8((value % 256) as u8);
        proof {
            assert(self.out() =~= old(self).out() + be16(value));
        }
    }

    /// Writes a little-endian u32.
    pub fn write_u32(&mut self, value: u32)
        requires
            old(self).wf(),
        ensures
            final(self).wf(),
            final(self).out() == old(self).out() + le32(value),
            final(self).starts() == old(self).starts(),
    {
        self.write_u8((value % 256) as u8);
        self.write_u8((value / 256 % 256) as u8);
        self.write_u8((value / 0x10000 % 256) as u8);
        self.write_u8((value / 0x1000000) as u8);
        proof {
            assert(self.out() =~= old(self).out() + le32(value));
        }
    }

    /// Writes an i8.
    pub fn write_i8(&mut self, value: i8)
        requires
            old(self).wf(),
        ensures
            final(self).wf(),
            final(self).out() == old(self).out() + seq![value as u8],
            final(self).starts() == old(self).starts(),
    {
        self.write_u8(value as u8);
    }

    /// Writes a little-endian i16.
    pub fn write_i16(&mut self, value: i16)
        requires
            old(self).wf(),
        ensures
            final(self).wf(),
            final(self).out() == old(self).out() + le16(value as u16),
            final(self).starts() == old(self).starts(),
    {
        self.write_u16(value as u16);
    }

    /// Writes a little-endian i32.
    pub fn write_i32(&mut self, value: i32)
        requires
            old(self).wf(),
        ensures
            final(self).wf(),
            final(self).out() == old(self).out() + le32(value as u32),
            final(self).starts() == old(self).starts(),
    {
        self.write_u32(value as u32);
    }

    /// Appends raw bytes.
    pub fn write_bytes_raw(&mut self, value: &[u8])
        requires
            old(self).wf(),
        ensures
            final(self).wf(),
            final(self).out() == old(self).out() + value@,
            final(self).starts() == old(self).starts(),
    {
        self.data.extend_from_slice(value);
    }

    /// Writes a u32 as a 7-bit varint.
    pub fn write_u32_encoded(&mut self, value: u32)
        requires
            old(self).wf(),
        ensures
            final(self).wf(),
            final(self).out() == old(self).out() + varint(value),
            final(self).starts() == old(self).starts(),
    {
        let mut v: u32 = value;
        while v >= 128
            invariant
                self.wf(),
                self.starts() == old(self).starts(),
                old(self).out() + varint(value) == self.out() + varint(v),
            decreases v,
        {
            let b: u8 = ((v % 128) as u8) + 128;
            proof {
                assert(varint(v) == seq![b] + varint((v / 128) as u32));
                assert(self.out() + varint(v) =~= (self.out() + seq![b]) + varint(
                    (v / 128) as u32,
                ));
            }
            self.write_u8(b);
            v = v / 128;
        }
        self.write_u8(v as u8);
        proof {
            assert(varint(v) == seq![v as u8]);
            assert(final(self).out() =~= old(self).out() + varint(value));
        }
    }

    /// Writes an i32's bits as a 7-bit varint.
    pub fn write_i32_encoded(&mut self, value: i32)
        requires
            old(self).wf(),
        ensures
            final(self).wf(),
            final(self).out() == old(self).out() + varint(value as u32),
            final(self).starts() == old(self).starts(),
    {
        self.write_u32_encoded(value as u32);
    }

    /// Writes a string: its UTF-8 byte count as a varint, then the bytes.
    pub fn write_string(&mut self, value: &str)
        requires
            old(self).wf(),
            value.spec_bytes().len() <= u32::MAX,
        ensures
            final(self).wf(),
            final(self).out() == old(self).out() + varint(value.spec_bytes().len() as u32)
                + value.spec_bytes(),
            final(self).starts() == old(self).starts(),
    {
        let bytes: &[u8] = value.as_bytes();
        self.write_u32_encoded(bytes.len() as u32);
        self.write_bytes_raw(bytes);
    }

    /// Opens a message: writes a placeholder length and the tag, and records
    /// the header position so `end_message` can patch the length in.
    pub fn start_message(&mut self, tag: u8)
        requires
            old(self).wf(),
        ensures
            final(self).wf(),
            final(self).out() == old(self).out() + seq![0xFFu8, 0xFFu8, tag],
            final(self).starts().len() == old(self).starts().len() + 1,
            final(self).starts().drop_last() == old(self).starts(),
            final(self).starts().last() == old(self).out().len(),
    {
        let start = self.data.len();
        self.data.push(0xFF);
        self.data.push(0xFF);
        self.data.push(tag);
        self.message_starts.push(start);
        proof {
            assert(self.out() =~= old(self).out() + seq![0xFFu8, 0xFFu8, tag]);
            assert(self.message_starts@.drop_last() =~= old(self).starts());
        }
    }

    /// Closes the most recently opened message, patching its length field
    /// with the number of payload bytes written since `start_message`.
    pub fn end_message(&mut self)
        requires
            old(self).wf(),
            old(self).starts().len() > 0,
            old(self).out().len() - old(self).starts().last() - 3 <= 0xFFFF,
        ensures
            final(self).wf(),
            final(self).starts() == old(self).starts().drop_last(),
            final(self).out() == ({
                let s = old(self).starts().last() as int;
                let l = old(self).out().len() - s - 3;
                old(self).out().update(s, (l % 256) as u8).update(s + 1, (l / 256) as u8)
            }),
    {
        let start = self.message_starts.pop().unwrap();
        let end = self.data.len();
        let length = end - start - 3;
        self.data[start] = (length % 256) as u8;
        self.data[start + 1] = ((length / 256) % 256) as u8;
        proof {
            assert(self.message_starts@ =~= old(self).starts().drop_last());
        }
    }

    /// Writes one whole message: length, tag, and the given payload.
    pub fn write_message(&mut self, tag: u8, payload: &[u8])
        requires
            old(self).wf(),
            payload@.len() <= 0xFFFF,
        ensures
            final(self).wf(),
            final(self).out() == old(self).out() + message_bytes(tag, payload@),
            final(self).starts() == old(self).starts(),
    {
        self.start_message(tag);
        self.write_bytes_raw(payload);
        self.end_message();
        proof {
            let o = old(self).out();
            let p = payload@;
            let lv = p.len() as u16;
            assert(final(self).out() =~= o + message_bytes(tag, p)) by {
                assert(final(self).out().len() == o.len() + 3 + p.len());
                assert(forall|i: int|
                    0 <= i < o.len() ==> final(self).out()[i] == (o + message_bytes(tag, p))[i]);
                assert(final(self).out()[o.len() as int] == (p.len() as int % 256) as u8);
                assert(final(self).out()[o.len() as int + 1] == (p.len() as int / 256) as u8);
                assert((lv as int % 256) as u8 == (p.len() as int % 256) as u8);
                assert((lv as int / 256) as u8 == (p.len() as int / 256) as u8);
                assert(final(self).out()[o.len() as int + 2] == tag);
                assert(forall|j: int|
                    0 <= j < p.len() ==> final(self).out()[o.len() as int + 3 + j] == p[j]);
            }
            assert(final(self).starts() =~= old(self).starts());
        }
    }

    /// Consumes the writer and returns the bytes written. Every message
    /// opened must have been closed.
    pub fn finish(self) -> (r: Vec<u8>)
        requires
            self.starts().len() == 0,
        ensures
            r@ == self.out(),
    {
        self.data
    }
}


} // verus!
