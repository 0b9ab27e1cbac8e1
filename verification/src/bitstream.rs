//! A cursor over the bits of a byte buffer, and the two ways in which the
//! first-generation format spells a number with them.

use vstd::prelude::*;
use vstd::arithmetic::power2::{
    lemma2_to64,
    lemma_pow2_pos,
    lemma_pow2_strictly_increases,
    lemma_pow2_unfold,
    pow2,
};
use crate::error::DecodeError;

verus! {

/// What bit `k` of a byte is worth, bit 0 being the most significant.
pub open spec fn bit_weight(k: int) -> int {
    if k == 0 {
        128
    } else if k == 1 {
        64
    } else if k == 2 {
        32
    } else if k == 3 {
        16
    } else if k == 4 {
        8
    } else if k == 5 {
        4
    } else if k == 6 {
        2
    } else {
        1
    }
}

/// The bit at index `i` of `data`, where bit 0 is the most significant bit
/// of the first byte and bit 8 the most significant bit of the second.
pub open spec fn bit_at(data: Seq<u8>, i: int) -> bool {
    data[i / 8] as int / bit_weight(i % 8) % 2 == 1
}

/// Shifting a bit of a byte down to the lowest place divides the byte by
/// the weight of the bit.
proof fn lemma_bit_shift(byte: u8)
    by (bit_vector)
    ensures
        (byte >> 7usize) & 1 == byte / 128 % 2,
        (byte >> 6usize) & 1 == byte / 64 % 2,
        (byte >> 5usize) & 1 == byte / 32 % 2,
        (byte >> 4usize) & 1 == byte / 16 % 2,
        (byte >> 3usize) & 1 == byte / 8 % 2,
        (byte >> 2usize) & 1 == byte / 4 % 2,
        (byte >> 1usize) & 1 == byte / 2 % 2,
        (byte >> 0usize) & 1 == byte % 2,
{
}

/// The number that the `count` bits from index `from` on spell, the first
/// of them being the most significant.
pub open spec fn bits_value(data: Seq<u8>, from: int, count: nat) -> nat
    decreases count,
{
    if count == 0 {
        0
    } else {
        2 * bits_value(data, from, (count - 1) as nat) + if bit_at(data, from + count - 1) {
            1nat
        } else {
            0nat
        }
    }
}

/// How many set bits stand in a row from index `from` on, before the first
/// clear bit or the end of `data`.
pub open spec fn ones_from(data: Seq<u8>, from: int) -> nat
    decreases 8 * data.len() - from,
{
    if 0 <= from < 8 * data.len() && bit_at(data, from) {
        1 + ones_from(data, from + 1)
    } else {
        0
    }
}

/// The width of the value field of the variable-length code at `from`: one
/// more than the number of set bits before the clear bit that ends its
/// prefix.
pub open spec fn code_width(data: Seq<u8>, from: int) -> nat {
    ones_from(data, from) + 1
}

/// The index of the first bit after the variable-length code at `from`. The
/// prefix and the value field take `code_width` bits each.
pub open spec fn code_end(data: Seq<u8>, from: int) -> int {
    from + 2 * code_width(data, from)
}

/// The number that the variable-length code at `from` stands for: with a
/// value field of `n` bits spelling `v`, it is `2^n + v - 1`.
pub open spec fn code_value(data: Seq<u8>, from: int) -> nat {
    let n = code_width(data, from);
    (pow2(n) + bits_value(data, from + n, n) - 1) as nat
}

/// `x` as a `usize`, or the largest `usize` where `x` does not fit.
pub open spec fn saturated(x: int) -> usize {
    if x > usize::MAX {
        usize::MAX
    } else {
        x as usize
    }
}

/// A field of `count` bits spells a number below `2^count`.
pub proof fn lemma_bits_value_bound(data: Seq<u8>, from: int, count: nat)
    ensures
        bits_value(data, from, count) < pow2(count),
    decreases count,
{
    if count == 0 {
        lemma_pow2_pos(0);
    } else {
        lemma_bits_value_bound(data, from, (count - 1) as nat);
        lemma_pow2_unfold(count);
    }
}

/// A variable-length code never stands for zero.
pub proof fn lemma_code_value_positive(data: Seq<u8>, from: int)
    ensures
        code_value(data, from) >= 1,
{
    let n = code_width(data, from);
    lemma_pow2_unfold(n);
    lemma_pow2_pos((n - 1) as nat);
}

/// Whether the `n` bits of `a` from bit `p` on are the `n` bits of `b`
/// from bit `q` on.
pub open spec fn same_bits(a: Seq<u8>, p: int, b: Seq<u8>, q: int, n: int) -> bool {
    &&& 0 <= p
    &&& 0 <= q
    &&& 0 <= n
    &&& p + n <= 8 * a.len()
    &&& q + n <= 8 * b.len()
    &&& forall|i: int| p <= i < p + n ==> #[trigger] bit_at(a, i) == bit_at(b, i - p + q)
}

/// Where `n` bits are the same, so are any `keep` in a row among them.
pub proof fn lemma_same_bits_part(
    a: Seq<u8>,
    p: int,
    b: Seq<u8>,
    q: int,
    n: int,
    skip: int,
    keep: int,
)
    requires
        same_bits(a, p, b, q, n),
        0 <= skip,
        0 <= keep,
        skip + keep <= n,
    ensures
        same_bits(a, p + skip, b, q + skip, keep),
{
    assert forall|i: int| p + skip <= i < p + skip + keep implies #[trigger] bit_at(a, i)
        == bit_at(b, i - (p + skip) + (q + skip)) by {
        assert(bit_at(a, i) == bit_at(b, i - p + q));
    }
}

/// Where `n` bits are the same, so are those that are left after the first
/// `skip` of them.
pub proof fn lemma_same_bits_later(a: Seq<u8>, p: int, b: Seq<u8>, q: int, n: int, skip: int)
    requires
        same_bits(a, p, b, q, n),
        0 <= skip <= n,
    ensures
        same_bits(a, p + skip, b, q + skip, n - skip),
{
    lemma_same_bits_part(a, p, b, q, n, skip, n - skip);
}

/// A field within the same bits spells the same number.
pub proof fn lemma_bits_value_same(a: Seq<u8>, p: int, b: Seq<u8>, q: int, n: int, count: nat)
    requires
        same_bits(a, p, b, q, n),
        count <= n,
    ensures
        bits_value(a, p, count) == bits_value(b, q, count),
    decreases count,
{
    if count > 0 {
        lemma_bits_value_same(a, p, b, q, n, (count - 1) as nat);
        assert(bit_at(a, p + count - 1) == bit_at(b, (p + count - 1) - p + q));
    }
}

/// A run of set bits that ends within the same bits is as long in both.
pub proof fn lemma_ones_from_same(a: Seq<u8>, p: int, b: Seq<u8>, q: int, n: int)
    requires
        same_bits(a, p, b, q, n),
        ones_from(a, p) < n,
    ensures
        ones_from(b, q) == ones_from(a, p),
    decreases n,
{
    assert(bit_at(a, p) == bit_at(b, p - p + q));
    if bit_at(a, p) {
        lemma_same_bits_later(a, p, b, q, n, 1);
        lemma_ones_from_same(a, p + 1, b, q + 1, n - 1);
    }
}

/// A variable-length code that ends within the same bits is the same code
/// in both.
pub proof fn lemma_code_same(a: Seq<u8>, p: int, b: Seq<u8>, q: int, n: int)
    requires
        same_bits(a, p, b, q, n),
        code_end(a, p) <= p + n,
    ensures
        code_end(b, q) - q == code_end(a, p) - p,
        code_value(b, q) == code_value(a, p),
{
    lemma_ones_from_same(a, p, b, q, n);
    let width = code_width(a, p);
    lemma_same_bits_later(a, p, b, q, n, width as int);
    lemma_bits_value_same(a, p + width, b, q + width, n - width, width);
}

/// What a cursor stands for: the bytes it reads and how many of their bits
/// it has consumed.
pub struct Cursor {
    pub data: Seq<u8>,
    pub pos: nat,
}

impl Cursor {
    /// How many bits are left to read.
    pub open spec fn remaining(self) -> int {
        8 * self.data.len() - self.pos
    }

    /// The cursor after `count` more bits.
    pub open spec fn advanced(self, count: nat) -> Cursor {
        Cursor { data: self.data, pos: self.pos + count }
    }
}

/// A forward-only reader of single bits over a byte buffer.
#[derive(Clone, Copy)]
pub struct BitStream<'a> {
    data: &'a [u8],
    bit_offset: usize,
    byte_offset: usize,
}

impl<'a> View for BitStream<'a> {
    type V = Cursor;

    closed spec fn view(&self) -> Cursor {
        Cursor { data: self.data@, pos: (8 * self.byte_offset + self.bit_offset) as nat }
    }
}

impl<'a> BitStream<'a> {
    #[verifier::type_invariant]
    spec fn inv(self) -> bool {
        &&& self.bit_offset < 8
        &&& self.byte_offset <= self.data@.len()
        &&& self.byte_offset == self.data@.len() ==> self.bit_offset == 0
    }

    /// A cursor at the first bit of `data`.
    pub fn new(data: &'a [u8]) -> (stream: Self)
        ensures
            stream@ == (Cursor { data: data@, pos: 0 }),
    {
        Self { data, bit_offset: 0, byte_offset: 0 }
    }

    /// Consumes one bit, the most significant of those that are left in
    /// the byte at the cursor.
    pub fn next(&mut self) -> (r: Result<bool, DecodeError>)
        ensures
            match r {
                Ok(bit) => old(self)@.remaining() >= 1 && bit == bit_at(
                    old(self)@.data,
                    old(self)@.pos as int,
                ) && final(self)@ == old(self)@.advanced(1),
                Err(e) => old(self)@.remaining() < 1 && e == DecodeError::MalformedStream
                    && *final(self) == *old(self),
            },
    {
        proof {
            use_type_invariant(&*self);
        }
        if self.byte_offset >= self.data.len() {
            return Err(DecodeError::MalformedStream);
        }
        proof {
            lemma_bit_shift(self.data@[self.byte_offset as int]);
        }
        let bit: u8 = (self.data[self.byte_offset] >> (7 - self.bit_offset)) & 1;
        if self.bit_offset == 7 {
            self.bit_offset = 0;
            self.byte_offset += 1;
        } else {
            self.bit_offset += 1;
        }
        Ok(bit != 0)
    }

    /// How many bits are left to read.
    fn remaining(&self) -> (n: u128)
        ensures
            n == self@.remaining(),
    {
        proof {
            use_type_invariant(self);
        }
        (self.data.len() - self.byte_offset) as u128 * 8 - self.bit_offset as u128
    }

    /// Consumes `count` bits and returns the number they spell, most
    /// significant bit first, held at the largest `usize` where it is
    /// larger.
    fn read_bits(&mut self, count: u128) -> (r: Result<usize, DecodeError>)
        ensures
            match r {
                Ok(n) => old(self)@.remaining() >= count && n == saturated(
                    bits_value(old(self)@.data, old(self)@.pos as int, count as nat) as int,
                ) && final(self)@ == old(self)@.advanced(count as nat),
                Err(e) => old(self)@.remaining() < count && e == DecodeError::MalformedStream
                    && *final(self) == *old(self),
            },
    {
        if self.remaining() < count {
            return Err(DecodeError::MalformedStream);
        }
        let ghost start = self@;
        let mut n: usize = 0;
        let mut read: u128 = 0;
        while read < count
            invariant
                read <= count,
                start.remaining() >= count,
                self@ == start.advanced(read as nat),
                n == saturated(bits_value(start.data, start.pos as int, read as nat) as int),
            decreases count - read,
        {
            let bit = match self.next() {
                Ok(bit) => bit,
                Err(e) => {
                    return Err(e);
                },
            };
            n = if n > (usize::MAX - 1) / 2 {
                usize::MAX
            } else if bit {
                2 * n + 1
            } else {
                2 * n
            };
            read += 1;
        }
        Ok(n)
    }

    /// Consumes `count` bits and returns the number they spell, the first
    /// bit being the most significant. A number too large for a `usize` is
    /// returned as `usize::MAX`; one of 32 bits or fewer never is too
    /// large. Where fewer than `count` bits are left, none is consumed.
    pub fn read_int(&mut self, count: usize) -> (r: Result<usize, DecodeError>)
        ensures
            match r {
                Ok(n) => old(self)@.remaining() >= count && n == saturated(
                    bits_value(old(self)@.data, old(self)@.pos as int, count as nat) as int,
                ) && final(self)@ == old(self)@.advanced(count as nat),
                Err(e) => old(self)@.remaining() < count && e == DecodeError::MalformedStream
                    && *final(self) == *old(self),
            },
            count <= 32 ==> (r matches Ok(n) ==> n == bits_value(
                old(self)@.data,
                old(self)@.pos as int,
                count as nat,
            )),
    {
        proof {
            lemma_bits_value_bound(self@.data, self@.pos as int, count as nat);
            lemma2_to64();
            if count < 32 {
                lemma_pow2_strictly_increases(count as nat, 32);
            }
        }
        self.read_bits(count as u128)
    }

    /// Consumes one variable-length code and returns the number it stands
    /// for.
    ///
    /// The code is a prefix of set bits closed by a clear bit, then a value
    /// field that is as wide as the whole prefix. With a field of `n` bits
    /// that spell `v` the number is `2^n + v - 1`, so it is never zero. A
    /// number too large for a `usize` is returned as `usize::MAX`. Where
    /// the input ends before the code does, no bit is consumed.
    pub fn read_compress_int(&mut self) -> (r: Result<usize, DecodeError>)
        ensures
            match r {
                Ok(n) => code_end(old(self)@.data, old(self)@.pos as int) <= 8 * old(
                    self,
                )@.data.len() && n >= 1 && n == saturated(
                    code_value(old(self)@.data, old(self)@.pos as int) as int,
                ) && final(self)@ == old(self)@.advanced(
                    2 * code_width(old(self)@.data, old(self)@.pos as int),
                ),
                Err(e) => code_end(old(self)@.data, old(self)@.pos as int) > 8 * old(
                    self,
                )@.data.len() && e == DecodeError::MalformedStream && *final(self) == *old(self),
            },
    {
        let ghost start = self@;
        let saved: BitStream<'a> = *self;
        let mut width: u128 = 1;
        let mut high: usize = 2;
        let mut overflowed: bool = false;
        proof {
            use_type_invariant(&*self);
            lemma2_to64();
        }
        loop
            invariant_except_break
                self@ == start.advanced((width - 1) as nat),
                ones_from(start.data, start.pos as int) == width - 1 + ones_from(
                    start.data,
                    self@.pos as int,
                ),
            invariant
                saved == *old(self),
                start == old(self)@,
                self@.remaining() >= 0,
                1 <= width,
                overflowed ==> pow2(width as nat) > usize::MAX,
                !overflowed ==> high == pow2(width as nat),
            ensures
                self@ == start.advanced(width as nat),
                code_width(start.data, start.pos as int) == width,
            decreases self@.remaining(),
        {
            match self.next() {
                Err(e) => {
                    *self = saved;
                    return Err(e);
                },
                Ok(false) => {
                    break ;
                },
                Ok(true) => {
                    width += 1;
                    proof {
                        lemma_pow2_unfold(width as nat);
                    }
                    if overflowed || high > usize::MAX / 2 {
                        overflowed = true;
                    } else {
                        high = 2 * high;
                    }
                },
            }
        }
        let low = match self.read_bits(width) {
            Ok(low) => low,
            Err(e) => {
                *self = saved;
                return Err(e);
            },
        };
        proof {
            lemma_bits_value_bound(start.data, start.pos + width, width as nat);
            lemma_code_value_positive(start.data, start.pos as int);
        }
        if overflowed || low > usize::MAX - (high - 1) {
            Ok(usize::MAX)
        } else {
            Ok(high - 1 + low)
        }
    }
}

} // verus!
