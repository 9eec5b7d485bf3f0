//! A byte buffer read as a sequence of bits.
//!
//! The bits of a byte come in the order of their weight, lightest first, and
//! the bytes in the order of the buffer. A run of bits is read as a number in
//! one of two orders: with its first bit as the heaviest (the order in which
//! prefix codes are written), or with its first bit as the lightest (the
//! order in which plain numbers are written).

use crate::error::DecodeError;
use vstd::arithmetic::power2::{lemma2_to64, lemma_pow2_adds, lemma_pow2_unfold, pow2};
use vstd::prelude::*;
use vstd::string::StringExecFns;

verus! {

/// The order in which a run of bits is read as a number.
#[derive(Debug, Clone, Copy, PartialEq, Eq, Structural)]
pub enum BitOrder {
    /// The first bit is the heaviest.
    Forward,
    /// The first bit is the lightest.
    Reversed,
}

/// Bit `k` of `b`, counted from the lightest.
pub open spec fn bit_of(b: u8, k: int) -> bool {
    (b >> (k as u8)) & 1u8 == 1u8
}

/// The bits of `bytes`: byte after byte, each from its lightest bit up.
pub open spec fn bits_of(bytes: Seq<u8>) -> Seq<bool> {
    Seq::new(8 * bytes.len(), |i: int| bit_of(bytes[i / 8], i % 8))
}

/// What one bit adds to a number.
pub open spec fn bit_value(b: bool) -> nat {
    if b {
        1
    } else {
        0
    }
}

/// The number that `bits` spell with the first bit as the heaviest.
pub open spec fn value_forward(bits: Seq<bool>) -> nat
    decreases bits.len(),
{
    if bits.len() == 0 {
        0
    } else {
        2 * value_forward(bits.drop_last()) + bit_value(bits.last())
    }
}

/// The number that `bits` spell with the first bit as the lightest.
pub open spec fn value_reversed(bits: Seq<bool>) -> nat
    decreases bits.len(),
{
    if bits.len() == 0 {
        0
    } else {
        value_reversed(bits.drop_last()) + bit_value(bits.last()) * pow2((bits.len() - 1) as nat)
    }
}

/// The number that `bits` spell in the given order.
pub open spec fn bits_value(bits: Seq<bool>, order: BitOrder) -> nat {
    match order {
        BitOrder::Forward => value_forward(bits),
        BitOrder::Reversed => value_reversed(bits),
    }
}

/// A number spelled by `n` bits is below `2^n`.
pub proof fn lemma_bits_value_bound(bits: Seq<bool>, order: BitOrder)
    ensures
        bits_value(bits, order) < pow2(bits.len()),
    decreases bits.len(),
{
    if bits.len() == 0 {
        lemma2_to64();
    } else {
        lemma_bits_value_bound(bits.drop_last(), order);
        lemma_pow2_unfold(bits.len());
    }
}

/// `2^128`, one more than the largest `u128`.
proof fn lemma_pow2_128()
    ensures
        pow2(128) == 0x1_0000_0000_0000_0000_0000_0000_0000_0000,
        pow2(0) == 1,
        pow2(8) == 0x100,
        pow2(16) == 0x1_0000,
        pow2(32) == 0x1_0000_0000,
        pow2(64) == 0x1_0000_0000_0000_0000,
{
    lemma2_to64();
    lemma_pow2_adds(64, 64);
    assert(0x1_0000_0000_0000_0000int * 0x1_0000_0000_0000_0000int
        == 0x1_0000_0000_0000_0000_0000_0000_0000_0000int) by (nonlinear_arith);
}

/// A number spelled by at most `width` bits is below `2^width`.
proof fn lemma_bits_value_fits(bits: Seq<bool>, order: BitOrder, width: nat)
    requires
        bits.len() <= width,
    ensures
        bits_value(bits, order) < pow2(width),
{
    lemma_bits_value_bound(bits, order);
    if bits.len() < width {
        vstd::arithmetic::power2::lemma_pow2_strictly_increases(bits.len(), width);
    }
}

/// The last bit of a run read with its first bit as the lightest adds its own
/// power of two, or nothing.
proof fn lemma_value_reversed_step(bits: Seq<bool>)
    requires
        bits.len() > 0,
    ensures
        value_reversed(bits) == value_reversed(bits.drop_last()) + (if bits.last() {
            pow2((bits.len() - 1) as nat)
        } else {
            0
        }),
{
    let p = pow2((bits.len() - 1) as nat);
    assert(1 * p == p && 0 * p == 0) by (nonlinear_arith);
}

/// A run of one bit spells that bit, in either order.
pub proof fn lemma_single_bit_value(bits: Seq<bool>, order: BitOrder)
    requires
        bits.len() == 1,
    ensures
        bits_value(bits, order) == bit_value(bits[0]),
{
    lemma2_to64();
    lemma_value_reversed_step(bits);
    assert(bits.drop_last().len() == 0);
    assert(value_forward(bits.drop_last()) == 0);
    assert(value_reversed(bits.drop_last()) == 0);
}

/// A run of two bits, read with its first bit as the lightest, spells the
/// first bit plus twice the second.
pub proof fn lemma_value_of_two_bits(bits: Seq<bool>)
    requires
        bits.len() == 2,
    ensures
        value_reversed(bits) == bit_value(bits[0]) + 2 * bit_value(bits[1]),
{
    lemma2_to64();
    lemma_value_reversed_step(bits);
    lemma_single_bit_value(bits.drop_last(), BitOrder::Reversed);
}

/// An aligned run of eight bits, read with its first bit as the lightest, is
/// the byte that it came from.
pub proof fn lemma_byte_value(bytes: Seq<u8>, j: int)
    requires
        0 <= j < bytes.len(),
    ensures
        value_reversed(bits_of(bytes).subrange(8 * j, 8 * j + 8)) == bytes[j],
{
    let b = bytes[j];
    let s = bits_of(bytes).subrange(8 * j, 8 * j + 8);
    assert forall|k: int| 0 <= k < 8 implies s[k] == bit_of(b, k) by {
        assert((8 * j + k) / 8 == j);
        assert((8 * j + k) % 8 == k);
    }
    lemma2_to64();
    let s7 = s.drop_last();
    let s6 = s7.drop_last();
    let s5 = s6.drop_last();
    let s4 = s5.drop_last();
    let s3 = s4.drop_last();
    let s2 = s3.drop_last();
    let s1 = s2.drop_last();
    let s0 = s1.drop_last();
    assert(s7 =~= s.take(7) && s6 =~= s.take(6) && s5 =~= s.take(5) && s4 =~= s.take(4));
    assert(s3 =~= s.take(3) && s2 =~= s.take(2) && s1 =~= s.take(1) && s0 =~= s.take(0));
    assert(value_reversed(s0) == 0);
    lemma_value_reversed_step(s1);
    lemma_value_reversed_step(s2);
    lemma_value_reversed_step(s3);
    lemma_value_reversed_step(s4);
    lemma_value_reversed_step(s5);
    lemma_value_reversed_step(s6);
    lemma_value_reversed_step(s7);
    lemma_value_reversed_step(s);
    let w0: u8 = if bit_of(b, 0) { 1 } else { 0 };
    let w1: u8 = if bit_of(b, 1) { 2 } else { 0 };
    let w2: u8 = if bit_of(b, 2) { 4 } else { 0 };
    let w3: u8 = if bit_of(b, 3) { 8 } else { 0 };
    let w4: u8 = if bit_of(b, 4) { 16 } else { 0 };
    let w5: u8 = if bit_of(b, 5) { 32 } else { 0 };
    let w6: u8 = if bit_of(b, 6) { 64 } else { 0 };
    let w7: u8 = if bit_of(b, 7) { 128 } else { 0 };
    assert(b == w0 + w1 + w2 + w3 + w4 + w5 + w6 + w7) by (bit_vector)
        requires
            w0 == (if (b >> 0u8) & 1u8 == 1u8 { 1u8 } else { 0u8 }),
            w1 == (if (b >> 1u8) & 1u8 == 1u8 { 2u8 } else { 0u8 }),
            w2 == (if (b >> 2u8) & 1u8 == 1u8 { 4u8 } else { 0u8 }),
            w3 == (if (b >> 3u8) & 1u8 == 1u8 { 8u8 } else { 0u8 }),
            w4 == (if (b >> 4u8) & 1u8 == 1u8 { 16u8 } else { 0u8 }),
            w5 == (if (b >> 5u8) & 1u8 == 1u8 { 32u8 } else { 0u8 }),
            w6 == (if (b >> 6u8) & 1u8 == 1u8 { 64u8 } else { 0u8 }),
            w7 == (if (b >> 7u8) & 1u8 == 1u8 { 128u8 } else { 0u8 }),
    ;
}

/// The character that spells one bit.
pub open spec fn bit_char(b: bool) -> char {
    if b {
        '1'
    } else {
        '0'
    }
}

/// The characters that spell `bits`, in stream order.
pub open spec fn bit_chars(bits: Seq<bool>) -> Seq<char> {
    Seq::new(bits.len(), |i: int| bit_char(bits[i]))
}

/// The first multiple of eight at or after `position`.
pub open spec fn next_boundary(position: nat) -> nat {
    ((position + 7) / 8 * 8) as nat
}

/// A bit stream: a byte buffer and a cursor that counts the bits consumed.
/// Its view is the run of bits that are left.
pub struct Bits {
    data: Vec<u8>,
    byte_pos: usize,
    bit_pos: u8,
}

impl View for Bits {
    type V = Seq<bool>;

    open spec fn view(&self) -> Seq<bool> {
        self.stream().skip(self.position() as int)
    }
}

impl Bits {
    #[verifier::type_invariant]
    spec fn cursor_inv(self) -> bool {
        &&& self.byte_pos <= self.data.len()
        &&& self.bit_pos < 8
        &&& self.byte_pos == self.data.len() ==> self.bit_pos == 0
    }

    /// The bytes of the buffer.
    pub closed spec fn bytes(self) -> Seq<u8> {
        self.data@
    }

    /// All bits of the buffer, consumed or not.
    pub open spec fn stream(self) -> Seq<bool> {
        bits_of(self.bytes())
    }

    /// The number of bits consumed so far.
    pub closed spec fn position(self) -> nat {
        if self.cursor_inv() {
            (8 * self.byte_pos + self.bit_pos) as nat
        } else {
            0
        }
    }

    /// The cursor never leaves the buffer, so the bits left are those of the
    /// buffer less those consumed.
    pub proof fn lemma_cursor_in_stream(self)
        ensures
            self.position() <= self.stream().len(),
            self.stream().len() == 8 * self.bytes().len(),
            self@.len() == self.stream().len() - self.position(),
            forall|n: int|
                0 <= n <= self@.len() ==> #[trigger] self@.take(n) == self.stream().subrange(
                    self.position() as int,
                    self.position() + n,
                ),
    {
        assert forall|n: int| 0 <= n <= self@.len() implies #[trigger] self@.take(n)
            == self.stream().subrange(self.position() as int, self.position() + n) by {
            assert(self@.take(n) =~= self.stream().subrange(
                self.position() as int,
                self.position() + n,
            ));
        }
    }

    /// Whether `n` bits can be read into a result of `width` bits.
    pub open spec fn can_read(self, n: usize, width: usize) -> bool {
        n <= width && n <= self@.len()
    }

    /// The number spelled by the next `n` bits.
    pub open spec fn next_value(self, n: usize, order: BitOrder) -> nat {
        bits_value(self@.take(n as int), order)
    }

    /// Whether `after` is this stream with `n` more bits consumed.
    pub open spec fn advanced(self, after: Bits, n: nat) -> bool {
        &&& after.bytes() == self.bytes()
        &&& after.position() == self.position() + n
    }

    /// A stream over `data`, with nothing consumed.
    pub fn new(data: Vec<u8>) -> (res: Bits)
        ensures
            res.bytes() == data@,
            res.position() == 0,
            res@ == bits_of(data@),
    {
        let res = Bits { data, byte_pos: 0, bit_pos: 0 };
        assert(res.stream().skip(0) =~= res.stream());
        res
    }

    /// Whether at least `n` bits are left.
    fn remaining_at_least(&self, n: usize) -> (res: bool)
        ensures
            res == (n <= self@.len()),
    {
        proof {
            use_type_invariant(self);
        }
        let left: u128 = 8 * ((self.data.len() - self.byte_pos) as u128) - (self.bit_pos as u128);
        (n as u128) <= left
    }

    /// The number spelled by the next `n` bits, the cursor left where it is.
    fn read(&self, n: usize, order: BitOrder) -> (res: u128)
        requires
            n <= 128,
            n <= self@.len(),
        ensures
            res == self.next_value(n, order),
    {
        proof {
            use_type_invariant(self);
            lemma_pow2_128();
        }
        let mut acc: u128 = 0;
        let mut weight: u128 = 1;
        let mut byte_at: usize = self.byte_pos;
        let mut bit_at: u8 = self.bit_pos;
        let mut i: usize = 0;
        while i < n
            invariant
                i <= n <= 128,
                n <= self@.len(),
                self@.len() == 8 * self.data.len() - self.position(),
                bit_at < 8,
                8 * byte_at + bit_at == self.position() + i,
                acc == bits_value(self@.take(i as int), order),
                acc < pow2(i as nat),
                i < n ==> weight == pow2(i as nat),
                pow2(128) == 0x1_0000_0000_0000_0000_0000_0000_0000_0000,
            decreases n - i,
        {
            let ghost before = self@.take(i as int);
            let ghost after = self@.take(i + 1);
            assert(8 * byte_at + bit_at < 8 * self.data.len());
            let bit: bool = (self.data[byte_at] >> bit_at) & 1u8 == 1u8;
            proof {
                let p = self.position() + i;
                assert(p / 8 == byte_at as int);
                assert(p % 8 == bit_at as int);
                assert(self@[i as int] == self.stream()[p]);
                assert(self@[i as int] == bit);
                assert(after.drop_last() =~= before);
                assert(after.last() == bit);
                lemma_pow2_unfold((i + 1) as nat);
                if i + 1 < 128 {
                    vstd::arithmetic::power2::lemma_pow2_strictly_increases((i + 1) as nat, 128);
                }
            }
            match order {
                BitOrder::Forward => {
                    acc = 2 * acc + (if bit {
                        1
                    } else {
                        0
                    });
                },
                BitOrder::Reversed => {
                    proof {
                        lemma_value_reversed_step(after);
                    }
                    if bit {
                        acc = acc + weight;
                    }
                },
            }
            i += 1;
            if i < n {
                weight = 2 * weight;
            }
            if bit_at == 7 {
                bit_at = 0;
                byte_at += 1;
            } else {
                bit_at += 1;
            }
        }
        assert(self@.take(n as int) == self@.take(i as int));
        acc
    }

    /// Moves the cursor `n` bits on.
    fn skip(&mut self, n: usize)
        requires
            n <= old(self)@.len(),
        ensures
            old(self).advanced(*final(self), n as nat),
    {
        proof {
            use_type_invariant(&*self);
        }
        let total: u128 = (self.bit_pos as u128) + (n as u128);
        let bytes: usize = (total / 8) as usize;
        let bit: u8 = (total % 8) as u8;
        self.bit_pos = 0;
        self.byte_pos = self.byte_pos + bytes;
        self.bit_pos = bit;
    }

    /// The bit that lies `i` bits behind the cursor.
    fn bit_at(&self, i: usize) -> (res: bool)
        requires
            i < self@.len(),
        ensures
            res == self@[i as int],
    {
        proof {
            use_type_invariant(self);
        }
        let total: u128 = (self.bit_pos as u128) + (i as u128);
        let byte_at: usize = self.byte_pos + ((total / 8) as usize);
        let shift: u8 = (total % 8) as u8;
        proof {
            let p = self.position() + i;
            assert(p / 8 == byte_at as int);
            assert(p % 8 == shift as int);
            assert(self@[i as int] == self.stream()[p]);
        }
        (self.data[byte_at] >> shift) & 1u8 == 1u8
    }

    /// Reads the next `n` bits into a result of `width` bits, the cursor
    /// left where it is.
    fn look(&self, n: usize, width: usize, order: BitOrder) -> (res: Result<u128, DecodeError>)
        requires
            width <= 128,
        ensures
            match res {
                Ok(v) => self.can_read(n, width) && v == self.next_value(n, order) && v < pow2(
                    width as nat,
                ),
                Err(e) => !self.can_read(n, width) && e == DecodeError::Range,
            },
    {
        if n > width || !self.remaining_at_least(n) {
            return Err(DecodeError::Range);
        }
        proof {
            lemma_bits_value_fits(self@.take(n as int), order, width as nat);
        }
        Ok(self.read(n, order))
    }

    /// Reads the next `n` bits into a result of `width` bits and moves the
    /// cursor past them.
    fn take(&mut self, n: usize, width: usize, order: BitOrder) -> (res: Result<u128, DecodeError>)
        requires
            width <= 128,
        ensures
            match res {
                Ok(v) => old(self).can_read(n, width) && v == old(self).next_value(n, order) && v
                    < pow2(width as nat) && old(self).advanced(*final(self), n as nat),
                Err(e) => !old(self).can_read(n, width) && e == DecodeError::Range && *final(self)
                    == *old(self),
            },
    {
        match self.look(n, width, order) {
            Ok(v) => {
                self.skip(n);
                Ok(v)
            },
            Err(e) => Err(e),
        }
    }

    /// Reads the next `n` bits as a number in the given order and moves the
    /// cursor past them. Fails with a range error, the cursor unmoved, when
    /// `n` is over 128 or over the number of bits left.
    pub fn consume(&mut self, n: usize, order: BitOrder) -> (res: Result<u128, DecodeError>)
        ensures
            match res {
                Ok(v) => old(self).can_read(n, 128) && v == old(self).next_value(n, order) && old(
                    self,
                ).advanced(*final(self), n as nat),
                Err(e) => !old(self).can_read(n, 128) && e == DecodeError::Range && *final(self)
                    == *old(self),
            },
    {
        self.take(n, 128, order)
    }

    /// Reads the next `n` bits as a number in the given order without moving
    /// the cursor. Fails with a range error when `n` is over 128 or over the
    /// number of bits left.
    pub fn peek(&self, n: usize, order: BitOrder) -> (res: Result<u128, DecodeError>)
        ensures
            match res {
                Ok(v) => self.can_read(n, 128) && v == self.next_value(n, order),
                Err(e) => !self.can_read(n, 128) && e == DecodeError::Range,
            },
    {
        self.look(n, 128, order)
    }

    /// Reads the next `size_to_read` bits, the first as the heaviest, and moves
    /// the cursor past them. Fails with a range error, the cursor unmoved,
    /// when `size_to_read` is over 8 or over the number of bits left.
    pub fn next_data_as_u8(&mut self, size_to_read: usize) -> (res: Result<u8, DecodeError>)
        ensures
            match res {
                Ok(v) => old(self).can_read(size_to_read, 8) && v == old(self).next_value(
                    size_to_read,
                    BitOrder::Forward,
                ) && old(self).advanced(*final(self), size_to_read as nat),
                Err(e) => !old(self).can_read(size_to_read, 8) && e == DecodeError::Range
                    && *final(self) == *old(self),
            },
    {
        proof {
            lemma_pow2_128();
        }
        match self.take(size_to_read, 8, BitOrder::Forward) {
            Ok(v) => Ok(v as u8),
            Err(e) => Err(e),
        }
    }

    /// Reads the next `size_to_read` bits, the first as the lightest, and moves
    /// the cursor past them. Fails with a range error, the cursor unmoved,
    /// when `size_to_read` is over 8 or over the number of bits left.
    pub fn next_data_reversed_as_u8(&mut self, size_to_read: usize) -> (res: Result<u8, DecodeError>)
        ensures
            match res {
                Ok(v) => old(self).can_read(size_to_read, 8) && v == old(self).next_value(
                    size_to_read,
                    BitOrder::Reversed,
                ) && old(self).advanced(*final(self), size_to_read as nat),
                Err(e) => !old(self).can_read(size_to_read, 8) && e == DecodeError::Range
                    && *final(self) == *old(self),
            },
    {
        proof {
            lemma_pow2_128();
        }
        match self.take(size_to_read, 8, BitOrder::Reversed) {
            Ok(v) => Ok(v as u8),
            Err(e) => Err(e),
        }
    }

    /// Reads the next `size_to_read` bits, the first as the heaviest, and moves
    /// the cursor past them. Fails with a range error, the cursor unmoved,
    /// when `size_to_read` is over 16 or over the number of bits left.
    pub fn next_data_as_u16(&mut self, size_to_read: usize) -> (res: Result<u16, DecodeError>)
        ensures
            match res {
                Ok(v) => old(self).can_read(size_to_read, 16) && v == old(self).next_value(
                    size_to_read,
                    BitOrder::Forward,
                ) && old(self).advanced(*final(self), size_to_read as nat),
                Err(e) => !old(self).can_read(size_to_read, 16) && e == DecodeError::Range
                    && *final(self) == *old(self),
            },
    {
        proof {
            lemma_pow2_128();
        }
        match self.take(size_to_read, 16, BitOrder::Forward) {
            Ok(v) => Ok(v as u16),
            Err(e) => Err(e),
        }
    }

    /// Reads the next `size_to_read` bits, the first as the lightest, and moves
    /// the cursor past them. Fails with a range error, the cursor unmoved,
    /// when `size_to_read` is over 16 or over the number of bits left.
    pub fn next_data_reversed_as_u16(&mut self, size_to_read: usize) -> (res: Result<u16, DecodeError>)
        ensures
            match res {
                Ok(v) => old(self).can_read(size_to_read, 16) && v == old(self).next_value(
                    size_to_read,
                    BitOrder::Reversed,
                ) && old(self).advanced(*final(self), size_to_read as nat),
                Err(e) => !old(self).can_read(size_to_read, 16) && e == DecodeError::Range
                    && *final(self) == *old(self),
            },
    {
        proof {
            lemma_pow2_128();
        }
        match self.take(size_to_read, 16, BitOrder::Reversed) {
            Ok(v) => Ok(v as u16),
            Err(e) => Err(e),
        }
    }

    /// Reads the next `size_to_read` bits, the first as the heaviest, and moves
    /// the cursor past them. Fails with a range error, the cursor unmoved,
    /// when `size_to_read` is over 32 or over the number of bits left.
    pub fn next_data_as_u32(&mut self, size_to_read: usize) -> (res: Result<u32, DecodeError>)
        ensures
            match res {
                Ok(v) => old(self).can_read(size_to_read, 32) && v == old(self).next_value(
                    size_to_read,
                    BitOrder::Forward,
                ) && old(self).advanced(*final(self), size_to_read as nat),
                Err(e) => !old(self).can_read(size_to_read, 32) && e == DecodeError::Range
                    && *final(self) == *old(self),
            },
    {
        proof {
            lemma_pow2_128();
        }
        match self.take(size_to_read, 32, BitOrder::Forward) {
            Ok(v) => Ok(v as u32),
            Err(e) => Err(e),
        }
    }

    /// Reads the next `size_to_read` bits, the first as the lightest, and moves
    /// the cursor past them. Fails with a range error, the cursor unmoved,
    /// when `size_to_read` is over 32 or over the number of bits left.
    pub fn next_data_reversed_as_u32(&mut self, size_to_read: usize) -> (res: Result<u32, DecodeError>)
        ensures
            match res {
                Ok(v) => old(self).can_read(size_to_read, 32) && v == old(self).next_value(
                    size_to_read,
                    BitOrder::Reversed,
                ) && old(self).advanced(*final(self), size_to_read as nat),
                Err(e) => !old(self).can_read(size_to_read, 32) && e == DecodeError::Range
                    && *final(self) == *old(self),
            },
    {
        proof {
            lemma_pow2_128();
        }
        match self.take(size_to_read, 32, BitOrder::Reversed) {
            Ok(v) => Ok(v as u32),
            Err(e) => Err(e),
        }
    }

    /// Reads the next `size_to_read` bits, the first as the heaviest, and moves
    /// the cursor past them. Fails with a range error, the cursor unmoved,
    /// when `size_to_read` is over 64 or over the number of bits left.
    pub fn next_data_as_u64(&mut self, size_to_read: usize) -> (res: Result<u64, DecodeError>)
        ensures
            match res {
                Ok(v) => old(self).can_read(size_to_read, 64) && v == old(self).next_value(
                    size_to_read,
                    BitOrder::Forward,
                ) && old(self).advanced(*final(self), size_to_read as nat),
                Err(e) => !old(self).can_read(size_to_read, 64) && e == DecodeError::Range
                    && *final(self) == *old(self),
            },
    {
        proof {
            lemma_pow2_128();
        }
        match self.take(size_to_read, 64, BitOrder::Forward) {
            Ok(v) => Ok(v as u64),
            Err(e) => Err(e),
        }
    }

    /// Reads the next `size_to_read` bits, the first as the lightest, and moves
    /// the cursor past them. Fails with a range error, the cursor unmoved,
    /// when `size_to_read` is over 64 or over the number of bits left.
    pub fn next_data_reversed_as_u64(&mut self, size_to_read: usize) -> (res: Result<u64, DecodeError>)
        ensures
            match res {
                Ok(v) => old(self).can_read(size_to_read, 64) && v == old(self).next_value(
                    size_to_read,
                    BitOrder::Reversed,
                ) && old(self).advanced(*final(self), size_to_read as nat),
                Err(e) => !old(self).can_read(size_to_read, 64) && e == DecodeError::Range
                    && *final(self) == *old(self),
            },
    {
        proof {
            lemma_pow2_128();
        }
        match self.take(size_to_read, 64, BitOrder::Reversed) {
            Ok(v) => Ok(v as u64),
            Err(e) => Err(e),
        }
    }

    /// Reads the next `size_to_read` bits, the first as the heaviest, and moves
    /// the cursor past them. Fails with a range error, the cursor unmoved,
    /// when `size_to_read` is over 128 or over the number of bits left.
    pub fn next_data_as_u128(&mut self, size_to_read: usize) -> (res: Result<u128, DecodeError>)
        ensures
            match res {
                Ok(v) => old(self).can_read(size_to_read, 128) && v == old(self).next_value(
                    size_to_read,
                    BitOrder::Forward,
                ) && old(self).advanced(*final(self), size_to_read as nat),
                Err(e) => !old(self).can_read(size_to_read, 128) && e == DecodeError::Range
                    && *final(self) == *old(self),
            },
    {
        proof {
            lemma_pow2_128();
        }
        match self.take(size_to_read, 128, BitOrder::Forward) {
            Ok(v) => Ok(v),
            Err(e) => Err(e),
        }
    }

    /// Reads the next `size_to_read` bits, the first as the lightest, and moves
    /// the cursor past them. Fails with a range error, the cursor unmoved,
    /// when `size_to_read` is over 128 or over the number of bits left.
    pub fn next_data_reversed_as_u128(&mut self, size_to_read: usize) -> (res: Result<u128, DecodeError>)
        ensures
            match res {
                Ok(v) => old(self).can_read(size_to_read, 128) && v == old(self).next_value(
                    size_to_read,
                    BitOrder::Reversed,
                ) && old(self).advanced(*final(self), size_to_read as nat),
                Err(e) => !old(self).can_read(size_to_read, 128) && e == DecodeError::Range
                    && *final(self) == *old(self),
            },
    {
        proof {
            lemma_pow2_128();
        }
        match self.take(size_to_read, 128, BitOrder::Reversed) {
            Ok(v) => Ok(v),
            Err(e) => Err(e),
        }
    }

    /// Reads the next 8 bits, the first as the heaviest, and moves the cursor
    /// past them. Fails with a range error, the cursor unmoved, when fewer
    /// than 8 bits are left.
    pub fn next_byte(&mut self) -> (res: Result<u8, DecodeError>)
        ensures
            match res {
                Ok(v) => old(self).can_read(8, 8) && v == old(self).next_value(
                    8,
                    BitOrder::Forward,
                ) && old(self).advanced(*final(self), 8),
                Err(e) => !old(self).can_read(8, 8) && e == DecodeError::Range && *final(self)
                    == *old(self),
            },
    {
        proof {
            lemma_pow2_128();
        }
        match self.take(8, 8, BitOrder::Forward) {
            Ok(v) => Ok(v as u8),
            Err(e) => Err(e),
        }
    }

    /// Reads the next 8 bits, the first as the lightest, and moves the cursor
    /// past them. Fails with a range error, the cursor unmoved, when fewer
    /// than 8 bits are left.
    pub fn next_byte_reversed(&mut self) -> (res: Result<u8, DecodeError>)
        ensures
            match res {
                Ok(v) => old(self).can_read(8, 8) && v == old(self).next_value(
                    8,
                    BitOrder::Reversed,
                ) && old(self).advanced(*final(self), 8),
                Err(e) => !old(self).can_read(8, 8) && e == DecodeError::Range && *final(self)
                    == *old(self),
            },
    {
        proof {
            lemma_pow2_128();
        }
        match self.take(8, 8, BitOrder::Reversed) {
            Ok(v) => Ok(v as u8),
            Err(e) => Err(e),
        }
    }

    /// Reads the next 16 bits, the first as the heaviest, and moves the cursor
    /// past them. Fails with a range error, the cursor unmoved, when fewer
    /// than 16 bits are left.
    pub fn next_word(&mut self) -> (res: Result<u16, DecodeError>)
        ensures
            match res {
                Ok(v) => old(self).can_read(16, 16) && v == old(self).next_value(
                    16,
                    BitOrder::Forward,
                ) && old(self).advanced(*final(self), 16),
                Err(e) => !old(self).can_read(16, 16) && e == DecodeError::Range && *final(self)
                    == *old(self),
            },
    {
        proof {
            lemma_pow2_128();
        }
        match self.take(16, 16, BitOrder::Forward) {
            Ok(v) => Ok(v as u16),
            Err(e) => Err(e),
        }
    }

    /// Reads the next 16 bits, the first as the lightest, and moves the cursor
    /// past them. Fails with a range error, the cursor unmoved, when fewer
    /// than 16 bits are left.
    pub fn next_word_reversed(&mut self) -> (res: Result<u16, DecodeError>)
        ensures
            match res {
                Ok(v) => old(self).can_read(16, 16) && v == old(self).next_value(
                    16,
                    BitOrder::Reversed,
                ) && old(self).advanced(*final(self), 16),
                Err(e) => !old(self).can_read(16, 16) && e == DecodeError::Range && *final(self)
                    == *old(self),
            },
    {
        proof {
            lemma_pow2_128();
        }
        match self.take(16, 16, BitOrder::Reversed) {
            Ok(v) => Ok(v as u16),
            Err(e) => Err(e),
        }
    }

    /// Reads the next 32 bits, the first as the heaviest, and moves the cursor
    /// past them. Fails with a range error, the cursor unmoved, when fewer
    /// than 32 bits are left.
    pub fn next_double_word(&mut self) -> (res: Result<u32, DecodeError>)
        ensures
            match res {
                Ok(v) => old(self).can_read(32, 32) && v == old(self).next_value(
                    32,
                    BitOrder::Forward,
                ) && old(self).advanced(*final(self), 32),
                Err(e) => !old(self).can_read(32, 32) && e == DecodeError::Range && *final(self)
                    == *old(self),
            },
    {
        proof {
            lemma_pow2_128();
        }
        match self.take(32, 32, BitOrder::Forward) {
            Ok(v) => Ok(v as u32),
            Err(e) => Err(e),
        }
    }

    /// Reads the next 32 bits, the first as the lightest, and moves the cursor
    /// past them. Fails with a range error, the cursor unmoved, when fewer
    /// than 32 bits are left.
    pub fn next_double_word_reversed(&mut self) -> (res: Result<u32, DecodeError>)
        ensures
            match res {
                Ok(v) => old(self).can_read(32, 32) && v == old(self).next_value(
                    32,
                    BitOrder::Reversed,
                ) && old(self).advanced(*final(self), 32),
                Err(e) => !old(self).can_read(32, 32) && e == DecodeError::Range && *final(self)
                    == *old(self),
            },
    {
        proof {
            lemma_pow2_128();
        }
        match self.take(32, 32, BitOrder::Reversed) {
            Ok(v) => Ok(v as u32),
            Err(e) => Err(e),
        }
    }

    /// Reads the next 64 bits, the first as the heaviest, and moves the cursor
    /// past them. Fails with a range error, the cursor unmoved, when fewer
    /// than 64 bits are left.
    pub fn next_64_bits(&mut self) -> (res: Result<u64, DecodeError>)
        ensures
            match res {
                Ok(v) => old(self).can_read(64, 64) && v == old(self).next_value(
                    64,
                    BitOrder::Forward,
                ) && old(self).advanced(*final(self), 64),
                Err(e) => !old(self).can_read(64, 64) && e == DecodeError::Range && *final(self)
                    == *old(self),
            },
    {
        proof {
            lemma_pow2_128();
        }
        match self.take(64, 64, BitOrder::Forward) {
            Ok(v) => Ok(v as u64),
            Err(e) => Err(e),
        }
    }

    /// Reads the next 64 bits, the first as the lightest, and moves the cursor
    /// past them. Fails with a range error, the cursor unmoved, when fewer
    /// than 64 bits are left.
    pub fn next_64_bits_reversed(&mut self) -> (res: Result<u64, DecodeError>)
        ensures
            match res {
                Ok(v) => old(self).can_read(64, 64) && v == old(self).next_value(
                    64,
                    BitOrder::Reversed,
                ) && old(self).advanced(*final(self), 64),
                Err(e) => !old(self).can_read(64, 64) && e == DecodeError::Range && *final(self)
                    == *old(self),
            },
    {
        proof {
            lemma_pow2_128();
        }
        match self.take(64, 64, BitOrder::Reversed) {
            Ok(v) => Ok(v as u64),
            Err(e) => Err(e),
        }
    }

    /// Reads the next 128 bits, the first as the heaviest, and moves the cursor
    /// past them. Fails with a range error, the cursor unmoved, when fewer
    /// than 128 bits are left.
    pub fn next_128_bits(&mut self) -> (res: Result<u128, DecodeError>)
        ensures
            match res {
                Ok(v) => old(self).can_read(128, 128) && v == old(self).next_value(
                    128,
                    BitOrder::Forward,
                ) && old(self).advanced(*final(self), 128),
                Err(e) => !old(self).can_read(128, 128) && e == DecodeError::Range && *final(self)
                    == *old(self),
            },
    {
        proof {
            lemma_pow2_128();
        }
        match self.take(128, 128, BitOrder::Forward) {
            Ok(v) => Ok(v),
            Err(e) => Err(e),
        }
    }

    /// Reads the next 128 bits, the first as the lightest, and moves the cursor
    /// past them. Fails with a range error, the cursor unmoved, when fewer
    /// than 128 bits are left.
    pub fn next_128_bits_reversed(&mut self) -> (res: Result<u128, DecodeError>)
        ensures
            match res {
                Ok(v) => old(self).can_read(128, 128) && v == old(self).next_value(
                    128,
                    BitOrder::Reversed,
                ) && old(self).advanced(*final(self), 128),
                Err(e) => !old(self).can_read(128, 128) && e == DecodeError::Range && *final(self)
                    == *old(self),
            },
    {
        proof {
            lemma_pow2_128();
        }
        match self.take(128, 128, BitOrder::Reversed) {
            Ok(v) => Ok(v),
            Err(e) => Err(e),
        }
    }

    /// Reads the next `size_to_read` bits, the first as the heaviest, without
    /// moving the cursor. Fails with a range error when `size_to_read` is
    /// over 8 or over the number of bits left.
    pub fn peek_next_data_as_u8(&self, size_to_read: usize) -> (res: Result<u8, DecodeError>)
        ensures
            match res {
                Ok(v) => self.can_read(size_to_read, 8) && v == self.next_value(
                    size_to_read,
                    BitOrder::Forward,
                ),
                Err(e) => !self.can_read(size_to_read, 8) && e == DecodeError::Range,
            },
    {
        proof {
            lemma_pow2_128();
        }
        match self.look(size_to_read, 8, BitOrder::Forward) {
            Ok(v) => Ok(v as u8),
            Err(e) => Err(e),
        }
    }

    /// Reads the next `size_to_read` bits, the first as the lightest, without
    /// moving the cursor. Fails with a range error when `size_to_read` is
    /// over 8 or over the number of bits left.
    pub fn peek_next_data_as_u8_reversed(&self, size_to_read: usize) -> (res: Result<u8, DecodeError>)
        ensures
            match res {
                Ok(v) => self.can_read(size_to_read, 8) && v == self.next_value(
                    size_to_read,
                    BitOrder::Reversed,
                ),
                Err(e) => !self.can_read(size_to_read, 8) && e == DecodeError::Range,
            },
    {
        proof {
            lemma_pow2_128();
        }
        match self.look(size_to_read, 8, BitOrder::Reversed) {
            Ok(v) => Ok(v as u8),
            Err(e) => Err(e),
        }
    }

    /// Reads the next `size_to_read` bits, the first as the heaviest, without
    /// moving the cursor. Fails with a range error when `size_to_read` is
    /// over 16 or over the number of bits left.
    pub fn peek_next_data_as_u16(&self, size_to_read: usize) -> (res: Result<u16, DecodeError>)
        ensures
            match res {
                Ok(v) => self.can_read(size_to_read, 16) && v == self.next_value(
                    size_to_read,
                    BitOrder::Forward,
                ),
                Err(e) => !self.can_read(size_to_read, 16) && e == DecodeError::Range,
            },
    {
        proof {
            lemma_pow2_128();
        }
        match self.look(size_to_read, 16, BitOrder::Forward) {
            Ok(v) => Ok(v as u16),
            Err(e) => Err(e),
        }
    }

    /// Reads the next `size_to_read` bits, the first as the lightest, without
    /// moving the cursor. Fails with a range error when `size_to_read` is
    /// over 16 or over the number of bits left.
    pub fn peek_next_data_as_u16_reversed(&self, size_to_read: usize) -> (res: Result<u16, DecodeError>)
        ensures
            match res {
                Ok(v) => self.can_read(size_to_read, 16) && v == self.next_value(
                    size_to_read,
                    BitOrder::Reversed,
                ),
                Err(e) => !self.can_read(size_to_read, 16) && e == DecodeError::Range,
            },
    {
        proof {
            lemma_pow2_128();
        }
        match self.look(size_to_read, 16, BitOrder::Reversed) {
            Ok(v) => Ok(v as u16),
            Err(e) => Err(e),
        }
    }

    /// Reads the next `size_to_read` bits, the first as the heaviest, without
    /// moving the cursor. Fails with a range error when `size_to_read` is
    /// over 32 or over the number of bits left.
    pub fn peek_next_data_as_u32(&self, size_to_read: usize) -> (res: Result<u32, DecodeError>)
        ensures
            match res {
                Ok(v) => self.can_read(size_to_read, 32) && v == self.next_value(
                    size_to_read,
                    BitOrder::Forward,
                ),
                Err(e) => !self.can_read(size_to_read, 32) && e == DecodeError::Range,
            },
    {
        proof {
            lemma_pow2_128();
        }
        match self.look(size_to_read, 32, BitOrder::Forward) {
            Ok(v) => Ok(v as u32),
            Err(e) => Err(e),
        }
    }

    /// Reads the next `size_to_read` bits, the first as the lightest, without
    /// moving the cursor. Fails with a range error when `size_to_read` is
    /// over 32 or over the number of bits left.
    pub fn peek_next_data_as_u32_reversed(&self, size_to_read: usize) -> (res: Result<u32, DecodeError>)
        ensures
            match res {
                Ok(v) => self.can_read(size_to_read, 32) && v == self.next_value(
                    size_to_read,
                    BitOrder::Reversed,
                ),
                Err(e) => !self.can_read(size_to_read, 32) && e == DecodeError::Range,
            },
    {
        proof {
            lemma_pow2_128();
        }
        match self.look(size_to_read, 32, BitOrder::Reversed) {
            Ok(v) => Ok(v as u32),
            Err(e) => Err(e),
        }
    }

    /// Reads the next `size_to_read` bits, the first as the heaviest, without
    /// moving the cursor. Fails with a range error when `size_to_read` is
    /// over 64 or over the number of bits left.
    pub fn peek_next_data_as_u64(&self, size_to_read: usize) -> (res: Result<u64, DecodeError>)
        ensures
            match res {
                Ok(v) => self.can_read(size_to_read, 64) && v == self.next_value(
                    size_to_read,
                    BitOrder::Forward,
                ),
                Err(e) => !self.can_read(size_to_read, 64) && e == DecodeError::Range,
            },
    {
        proof {
            lemma_pow2_128();
        }
        match self.look(size_to_read, 64, BitOrder::Forward) {
            Ok(v) => Ok(v as u64),
            Err(e) => Err(e),
        }
    }

    /// Reads the next `size_to_read` bits, the first as the lightest, without
    /// moving the cursor. Fails with a range error when `size_to_read` is
    /// over 64 or over the number of bits left.
    pub fn peek_next_data_as_u64_reversed(&self, size_to_read: usize) -> (res: Result<u64, DecodeError>)
        ensures
            match res {
                Ok(v) => self.can_read(size_to_read, 64) && v == self.next_value(
                    size_to_read,
                    BitOrder::Reversed,
                ),
                Err(e) => !self.can_read(size_to_read, 64) && e == DecodeError::Range,
            },
    {
        proof {
            lemma_pow2_128();
        }
        match self.look(size_to_read, 64, BitOrder::Reversed) {
            Ok(v) => Ok(v as u64),
            Err(e) => Err(e),
        }
    }

    /// Reads the next `size_to_read` bits, the first as the heaviest, without
    /// moving the cursor. Fails with a range error when `size_to_read` is
    /// over 128 or over the number of bits left.
    pub fn peek_next_data_as_u128(&self, size_to_read: usize) -> (res: Result<u128, DecodeError>)
        ensures
            match res {
                Ok(v) => self.can_read(size_to_read, 128) && v == self.next_value(
                    size_to_read,
                    BitOrder::Forward,
                ),
                Err(e) => !self.can_read(size_to_read, 128) && e == DecodeError::Range,
            },
    {
        proof {
            lemma_pow2_128();
        }
        match self.look(size_to_read, 128, BitOrder::Forward) {
            Ok(v) => Ok(v),
            Err(e) => Err(e),
        }
    }

    /// Reads the next `size_to_read` bits, the first as the lightest, without
    /// moving the cursor. Fails with a range error when `size_to_read` is
    /// over 128 or over the number of bits left.
    pub fn peek_next_data_as_u128_reversed(&self, size_to_read: usize) -> (res: Result<u128, DecodeError>)
        ensures
            match res {
                Ok(v) => self.can_read(size_to_read, 128) && v == self.next_value(
                    size_to_read,
                    BitOrder::Reversed,
                ),
                Err(e) => !self.can_read(size_to_read, 128) && e == DecodeError::Range,
            },
    {
        proof {
            lemma_pow2_128();
        }
        match self.look(size_to_read, 128, BitOrder::Reversed) {
            Ok(v) => Ok(v),
            Err(e) => Err(e),
        }
    }

    /// Spells the next `size_to_read` bits as a string of `0` and `1`, in
    /// stream order, without moving the cursor. Fails with a range error when
    /// `size_to_read` is over 16 or over the number of bits left.
    pub fn peek_next_data_as_string(&self, size_to_read: usize) -> (res: Result<
        String,
        DecodeError,
    >)
        ensures
            match res {
                Ok(s) => self.can_read(size_to_read, 16) && s@ == bit_chars(
                    self@.take(size_to_read as int),
                ),
                Err(e) => !self.can_read(size_to_read, 16) && e == DecodeError::Range,
            },
    {
        if size_to_read > 16 || !self.remaining_at_least(size_to_read) {
            return Err(DecodeError::Range);
        }
        let mut text = String::new();
        let mut i: usize = 0;
        while i < size_to_read
            invariant
                i <= size_to_read <= self@.len(),
                text@ == bit_chars(self@.take(i as int)),
            decreases size_to_read - i,
        {
            let bit = self.bit_at(i);
            proof {
                reveal_strlit("1");
                reveal_strlit("0");
                assert(bit_chars(self@.take(i + 1)) =~= bit_chars(self@.take(i as int)).push(
                    bit_char(bit),
                ));
            }
            if bit {
                text.append("1");
            } else {
                text.append("0");
            }
            assert(text@ =~= bit_chars(self@.take(i as int)).push(bit_char(bit)));
            i += 1;
        }
        Ok(text)
    }

    /// Spells the bits that are left as a string of `0` and `1`, in stream
    /// order, without moving the cursor. Where more bits are left than a
    /// `usize` counts, the first `usize::MAX` of them are spelled.
    pub fn spell(&self) -> (res: String)
        ensures
            self@.len() <= usize::MAX ==> res@ == bit_chars(self@),
            self@.len() > usize::MAX ==> res@ == bit_chars(self@.take(usize::MAX as int)),
    {
        let count: usize = self.remaining();
        let mut text = String::new();
        let mut i: usize = 0;
        while i < count
            invariant
                i <= count <= self@.len(),
                text@ == bit_chars(self@.take(i as int)),
            decreases count - i,
        {
            let bit = self.bit_at(i);
            proof {
                reveal_strlit("1");
                reveal_strlit("0");
                assert(bit_chars(self@.take(i + 1)) =~= bit_chars(self@.take(i as int)).push(
                    bit_char(bit),
                ));
            }
            if bit {
                text.append("1");
            } else {
                text.append("0");
            }
            assert(text@ =~= bit_chars(self@.take(i as int)).push(bit_char(bit)));
            i += 1;
        }
        proof {
            assert(self@.take(self@.len() as int) =~= self@);
        }
        text
    }

    /// Moves the cursor `n` bits on. Fails with a range error, the cursor
    /// unmoved, when fewer than `n` bits are left.
    pub fn move_n_bits(&mut self, n: usize) -> (res: Result<(), DecodeError>)
        ensures
            match res {
                Ok(_) => n <= old(self)@.len() && old(self).advanced(*final(self), n as nat),
                Err(e) => n > old(self)@.len() && e == DecodeError::Range && *final(self) == *old(
                    self,
                ),
            },
    {
        if !self.remaining_at_least(n) {
            return Err(DecodeError::Range);
        }
        self.skip(n);
        Ok(())
    }

    /// Moves the cursor on to the next byte boundary, or leaves it where it
    /// is when it stands on one.
    pub fn align(&mut self)
        ensures
            final(self).bytes() == old(self).bytes(),
            final(self).position() == next_boundary(old(self).position()),
            final(self).position() <= final(self).stream().len(),
    {
        proof {
            use_type_invariant(&*self);
        }
        if self.bit_pos != 0 {
            self.bit_pos = 0;
            self.byte_pos = self.byte_pos + 1;
        }
    }

    /// The number of bits left, or `usize::MAX` when there are more.
    pub fn remaining(&self) -> (res: usize)
        ensures
            self.position() <= self.stream().len(),
            self@.len() == self.stream().len() - self.position(),
            res == if self@.len() <= usize::MAX {
                self@.len()
            } else {
                usize::MAX as nat
            },
    {
        proof {
            use_type_invariant(self);
        }
        let left: u128 = 8 * ((self.data.len() - self.byte_pos) as u128) - (self.bit_pos as u128);
        if left > usize::MAX as u128 {
            usize::MAX
        } else {
            left as usize
        }
    }
}

} // verus!
