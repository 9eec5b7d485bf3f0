//! Decoding of a deflate stream: a sequence of blocks, each stored as it is,
//! compressed with the fixed prefix codes, or compressed with codes of its
//! own.
//!
//! A block starts with three bits: one that marks the last block, and two
//! that give its type. Numbers are written with their lightest bit first,
//! prefix codes with their heaviest bit first.

use crate::backref::{copy_back, copy_back_into};
use crate::bits::{
    bits_of, lemma_byte_value, next_boundary, value_reversed, BitOrder, Bits,
};
use crate::canonical::{decode_symbol, lemma_probe_bounds, CodeTable};
use crate::dynamic::{dynamic_lengths, lemma_dynamic_lengths, read_dynamic_tables};
use crate::error::DecodeError;
use vstd::prelude::*;

verus! {

/// The number of literal and length symbols of the fixed code.
pub const NB_LITERAL_LENGTH_CODES: usize = 288;

/// The number of distance symbols.
pub const NB_DISTANCE_CODES: usize = 30;

/// The symbol that ends a block.
pub const END_OF_BLOCK: u16 = 256;

/// The first symbol that stands for a length.
pub const FIRST_LENGTH_SYMBOL: u16 = 257;

/// The last symbol that stands for a length.
pub const LAST_LENGTH_SYMBOL: u16 = 285;

/// The smallest length of each length symbol, from symbol 257 on.
pub const LENGTHS_SIZE_BASE: [u16; 29] = [
    3,
    4,
    5,
    6,
    7,
    8,
    9,
    10,
    11,
    13,
    15,
    17,
    19,
    23,
    27,
    31,
    35,
    43,
    51,
    59,
    67,
    83,
    99,
    115,
    131,
    163,
    195,
    227,
    258,
];

/// The number of extra bits of each length symbol, from symbol 257 on.
pub const LENGTHS_EXTRA_BITS: [u16; 29] = [
    0,
    0,
    0,
    0,
    0,
    0,
    0,
    0,
    1,
    1,
    1,
    1,
    2,
    2,
    2,
    2,
    3,
    3,
    3,
    3,
    4,
    4,
    4,
    4,
    5,
    5,
    5,
    5,
    0,
];

/// The smallest distance of each distance symbol.
pub const DISTANCE_OFFSET_BASE: [u16; 30] = [
    1,
    2,
    3,
    4,
    5,
    7,
    9,
    13,
    17,
    25,
    33,
    49,
    65,
    97,
    129,
    193,
    257,
    385,
    513,
    769,
    1025,
    1537,
    2049,
    3073,
    4097,
    6145,
    8193,
    12289,
    16385,
    24577,
];

/// The number of extra bits of each distance symbol.
pub const DISTANCE_EXTRA_BITS: [u16; 30] = [
    0,
    0,
    0,
    0,
    1,
    1,
    2,
    2,
    3,
    3,
    4,
    4,
    5,
    5,
    6,
    6,
    7,
    7,
    8,
    8,
    9,
    9,
    10,
    10,
    11,
    11,
    12,
    12,
    13,
    13,
];

/// The type of a block, as its two header bits give it.
#[derive(Debug, Clone, Copy, PartialEq, Eq, Structural)]
pub enum CompressionType {
    /// The block holds its bytes as they are.
    NoCompression,
    /// The block is compressed with the fixed codes.
    FixedCompression,
    /// The block is compressed with codes that it carries itself.
    DynamicCompression,
    /// The reserved type.
    Error,
}

impl CompressionType {
    /// The type that the number `bits` stands for; numbers over 3 count as
    /// the reserved type.
    pub open spec fn of(bits: nat) -> CompressionType {
        if bits == 0 {
            CompressionType::NoCompression
        } else if bits == 1 {
            CompressionType::FixedCompression
        } else if bits == 2 {
            CompressionType::DynamicCompression
        } else {
            CompressionType::Error
        }
    }

    /// The number that stands for this type.
    pub open spec fn code_spec(self) -> u8 {
        match self {
            CompressionType::NoCompression => 0,
            CompressionType::FixedCompression => 1,
            CompressionType::DynamicCompression => 2,
            CompressionType::Error => 3,
        }
    }

    /// The type that the number `bits` stands for; numbers over 3 count as
    /// the reserved type.
    pub fn from_bits(bits: u8) -> (res: CompressionType)
        ensures
            res == CompressionType::of(bits as nat),
            bits <= 3 ==> res.code_spec() == bits,
    {
        if bits == 0 {
            CompressionType::NoCompression
        } else if bits == 1 {
            CompressionType::FixedCompression
        } else if bits == 2 {
            CompressionType::DynamicCompression
        } else {
            CompressionType::Error
        }
    }

    /// The number that stands for this type.
    #[verifier::when_used_as_spec(code_spec)]
    pub fn code(self) -> (res: u8)
        ensures
            res == self.code_spec(),
    {
        match self {
            CompressionType::NoCompression => 0,
            CompressionType::FixedCompression => 1,
            CompressionType::DynamicCompression => 2,
            CompressionType::Error => 3,
        }
    }
}

/// Whether a block is the last of its stream, as its first header bit
/// gives it.
#[derive(Debug, Clone, Copy, PartialEq, Eq, Structural)]
pub enum BlockType {
    /// More blocks follow.
    NotFinal,
    /// The last block.
    Final,
}

impl BlockType {
    /// The mark that the bit `bit` stands for.
    pub open spec fn of(bit: bool) -> BlockType {
        if bit {
            BlockType::Final
        } else {
            BlockType::NotFinal
        }
    }

    /// The mark that the number `bit` stands for: zero for a block that is
    /// followed by others.
    pub fn from_bit(bit: u8) -> (res: BlockType)
        ensures
            res == BlockType::of(bit != 0),
    {
        if bit == 0 {
            BlockType::NotFinal
        } else {
            BlockType::Final
        }
    }

    /// Whether this marks the last block.
    pub fn is_final(self) -> (res: bool)
        ensures
            res == (self == BlockType::Final),
    {
        match self {
            BlockType::Final => true,
            BlockType::NotFinal => false,
        }
    }
}

/// The code lengths of the fixed literal and length code.
pub open spec fn fixed_literal_lengths() -> Seq<u8> {
    Seq::new(
        NB_LITERAL_LENGTH_CODES as nat,
        |s: int|
            if s < 144 {
                8u8
            } else if s < 256 {
                9u8
            } else if s < 280 {
                7u8
            } else {
                8u8
            },
    )
}

/// The code lengths of the fixed distance code.
pub open spec fn fixed_distance_lengths() -> Seq<u8> {
    Seq::new(NB_DISTANCE_CODES as nat, |s: int| 5u8)
}

/// The number spelled by the `n` bits at `pos`, the lightest first.
pub open spec fn number_at(bits: Seq<bool>, pos: int, n: int) -> nat {
    value_reversed(bits.subrange(pos, pos + n))
}

/// The length that the length symbol `symbol` and the extra bits at `pos`
/// stand for, and the position behind the extra bits.
pub open spec fn decode_length(bits: Seq<bool>, pos: int, symbol: int) -> Result<
    (nat, int),
    DecodeError,
> {
    let extra = LENGTHS_EXTRA_BITS[symbol - FIRST_LENGTH_SYMBOL] as int;
    if pos + extra > bits.len() {
        Err(DecodeError::UnexpectedEnd)
    } else {
        Ok(
            (
                LENGTHS_SIZE_BASE[symbol - FIRST_LENGTH_SYMBOL] as nat + number_at(
                    bits,
                    pos,
                    extra,
                ),
                pos + extra,
            ),
        )
    }
}

/// The distance that the distance code at `pos` and its extra bits stand
/// for, and the position behind the extra bits.
pub open spec fn decode_distance(bits: Seq<bool>, pos: int, distances: Seq<u8>) -> Result<
    (nat, int),
    DecodeError,
> {
    match decode_symbol(bits, pos, distances) {
        Err(e) => Err(e),
        Ok((symbol, next)) => {
            if symbol >= NB_DISTANCE_CODES {
                Err(DecodeError::BadSymbol)
            } else {
                let extra = DISTANCE_EXTRA_BITS[symbol] as int;
                if next + extra > bits.len() {
                    Err(DecodeError::UnexpectedEnd)
                } else {
                    Ok((DISTANCE_OFFSET_BASE[symbol] as nat + number_at(bits, next, extra), next + extra))
                }
            }
        },
    }
}

/// Decodes the rest of a compressed block from `pos` on, with `out`
/// decoded so far: the output at the end of the block and the position
/// behind it.
///
/// A symbol below 256 is a byte of output. Symbol 256 ends the block. A
/// symbol from 257 to 285 is a length; a distance follows it, and the two
/// copy bytes from the output to its end.
pub open spec fn compressed_block(
    bits: Seq<bool>,
    literals: Seq<u8>,
    distances: Seq<u8>,
    pos: int,
    out: Seq<u8>,
) -> Result<(Seq<u8>, int), DecodeError>
    decreases bits.len() - pos,
{
    match decode_symbol(bits, pos, literals) {
        Err(e) => Err(e),
        Ok((symbol, next)) => {
            proof {
                lemma_probe_bounds(bits, pos, literals, 1);
            }
            if symbol < END_OF_BLOCK {
                compressed_block(bits, literals, distances, next, out.push(symbol as u8))
            } else if symbol == END_OF_BLOCK {
                Ok((out, next))
            } else if symbol > LAST_LENGTH_SYMBOL {
                Err(DecodeError::BadSymbol)
            } else {
                match decode_length(bits, next, symbol) {
                    Err(e) => Err(e),
                    Ok((length, after_length)) => match decode_distance(
                        bits,
                        after_length,
                        distances,
                    ) {
                        Err(e) => Err(e),
                        Ok((distance, after_distance)) => {
                            proof {
                                lemma_probe_bounds(bits, after_length, distances, 1);
                            }
                            if distance > out.len() {
                                Err(DecodeError::BadReference)
                            } else {
                                compressed_block(
                                    bits,
                                    literals,
                                    distances,
                                    after_distance,
                                    copy_back(out, distance as int, length),
                                )
                            }
                        },
                    },
                }
            }
        },
    }
}

/// The number that the two bytes at `at` spell, the lighter byte first.
pub open spec fn u16_at(data: Seq<u8>, at: int) -> nat {
    (data[at] + 256 * data[at + 1]) as nat
}

/// The number that the four bytes at `at` spell, the lightest byte first.
pub open spec fn u32_at(data: Seq<u8>, at: int) -> nat {
    (data[at] + 256 * data[at + 1] + 65536 * data[at + 2] + 16777216 * data[at + 3]) as nat
}

/// Decodes a stored block whose header ends at bit `pos`: the output with
/// the block's bytes appended, and the position behind the block.
///
/// The block's bytes start at the next byte boundary with a length of 16
/// bits and the complement of that length.
pub open spec fn stored_block(data: Seq<u8>, pos: int, out: Seq<u8>) -> Result<
    (Seq<u8>, int),
    DecodeError,
> {
    let start = next_boundary(pos as nat) as int / 8;
    if start + 4 > data.len() {
        Err(DecodeError::UnexpectedEnd)
    } else if u16_at(data, start) + u16_at(data, start + 2) != 0xffff {
        Err(DecodeError::BadStoredLength)
    } else {
        let end = start + 4 + u16_at(data, start);
        if end > data.len() {
            Err(DecodeError::UnexpectedEnd)
        } else {
            Ok((out + data.subrange(start + 4, end), 8 * end))
        }
    }
}

/// Decodes the body of a block of the given type whose header ends at bit
/// `pos`.
pub open spec fn block_body(data: Seq<u8>, kind: CompressionType, pos: int, out: Seq<u8>) -> Result<
    (Seq<u8>, int),
    DecodeError,
> {
    match kind {
        CompressionType::NoCompression => stored_block(data, pos, out),
        CompressionType::FixedCompression => compressed_block(
            bits_of(data),
            fixed_literal_lengths(),
            fixed_distance_lengths(),
            pos,
            out,
        ),
        CompressionType::DynamicCompression => match dynamic_lengths(bits_of(data), pos) {
            Err(e) => Err(e),
            Ok((literals, distances, next)) => compressed_block(
                bits_of(data),
                literals,
                distances,
                next,
                out,
            ),
        },
        CompressionType::Error => Err(DecodeError::ReservedBlockType),
    }
}

/// Decodes the blocks of `data` from bit `pos` up to and with the last
/// block, with `out` decoded so far: the whole output and the position
/// behind the last block.
pub open spec fn inflate_from(data: Seq<u8>, pos: int, out: Seq<u8>) -> Result<
    (Seq<u8>, int),
    DecodeError,
>
    decreases 8 * data.len() - pos,
{
    let bits = bits_of(data);
    if pos < 0 || pos + 3 > bits.len() {
        Err(DecodeError::UnexpectedEnd)
    } else {
        let kind = CompressionType::of(number_at(bits, pos + 1, 2));
        match block_body(data, kind, pos + 3, out) {
            Err(e) => Err(e),
            Ok((grown, next)) => {
                proof {
                    lemma_block_body_bounds(data, kind, pos + 3, out);
                }
                if BlockType::of(bits[pos]) == BlockType::Final {
                    Ok((grown, next))
                } else {
                    inflate_from(data, next, grown)
                }
            },
        }
    }
}

/// The bytes that the deflate stream at bit `pos` of `data` decodes to,
/// and the position behind its last block.
pub open spec fn inflate(data: Seq<u8>, pos: int) -> Result<(Seq<u8>, int), DecodeError> {
    inflate_from(data, pos, Seq::<u8>::empty())
}

/// A compressed block ends behind its start and within the stream.
pub proof fn lemma_compressed_block_bounds(
    bits: Seq<bool>,
    literals: Seq<u8>,
    distances: Seq<u8>,
    pos: int,
    out: Seq<u8>,
)
    ensures
        compressed_block(bits, literals, distances, pos, out) matches Ok((_, end)) ==> pos < end
            <= bits.len(),
    decreases bits.len() - pos,
{
    lemma_probe_bounds(bits, pos, literals, 1);
    match decode_symbol(bits, pos, literals) {
        Err(e) => {},
        Ok((symbol, next)) => {
            if symbol < END_OF_BLOCK {
                lemma_compressed_block_bounds(
                    bits,
                    literals,
                    distances,
                    next,
                    out.push(symbol as u8),
                );
            } else if symbol == END_OF_BLOCK {
            } else if symbol > LAST_LENGTH_SYMBOL {
            } else {
                match decode_length(bits, next, symbol) {
                    Err(e) => {},
                    Ok((length, after_length)) => {
                        lemma_probe_bounds(bits, after_length, distances, 1);
                        match decode_distance(bits, after_length, distances) {
                            Err(e) => {},
                            Ok((distance, after_distance)) => {
                                if distance <= out.len() {
                                    lemma_compressed_block_bounds(
                                        bits,
                                        literals,
                                        distances,
                                        after_distance,
                                        copy_back(out, distance as int, length),
                                    );
                                }
                            },
                        }
                    },
                }
            }
        },
    }
}

/// The body of a block ends at or behind its start and within the stream.
pub proof fn lemma_block_body_bounds(data: Seq<u8>, kind: CompressionType, pos: int, out: Seq<u8>)
    requires
        0 <= pos,
    ensures
        block_body(data, kind, pos, out) matches Ok((_, end)) ==> pos <= end <= 8 * data.len(),
{
    lemma_compressed_block_bounds(
        bits_of(data),
        fixed_literal_lengths(),
        fixed_distance_lengths(),
        pos,
        out,
    );
    lemma_dynamic_lengths(bits_of(data), pos);
    match dynamic_lengths(bits_of(data), pos) {
        Err(e) => {},
        Ok((literals, distances, next)) => {
            lemma_compressed_block_bounds(bits_of(data), literals, distances, next, out);
        },
    }
}

/// Reads the byte at the cursor, which stands on a byte boundary.
pub fn next_aligned_byte(bits: &mut Bits) -> (res: Result<u8, DecodeError>)
    requires
        old(bits).position() % 8 == 0,
    ensures
        final(bits).bytes() == old(bits).bytes(),
        match res {
            Ok(byte) => old(bits).position() / 8 < old(bits).bytes().len() && byte == old(
                bits,
            ).bytes()[old(bits).position() as int / 8] && final(bits).position() == old(
                bits,
            ).position() + 8,
            Err(e) => e == DecodeError::UnexpectedEnd && old(bits).position() / 8 >= old(
                bits,
            ).bytes().len() && *final(bits) == *old(bits),
        },
{
    proof {
        bits.lemma_cursor_in_stream();
    }
    match bits.next_byte_reversed() {
        Ok(byte) => {
            proof {
                lemma_byte_value(old(bits).bytes(), old(bits).position() as int / 8);
            }
            Ok(byte)
        },
        Err(_) => Err(DecodeError::UnexpectedEnd),
    }
}

/// The tables of the two fixed codes: that of the literals and lengths, and
/// that of the distances.
pub fn fixed_tables() -> (res: (CodeTable, CodeTable))
    ensures
        res.0@ == fixed_literal_lengths(),
        res.1@ == fixed_distance_lengths(),
{
    let mut lengths: Vec<u8> = Vec::new();
    let mut symbol: usize = 0;
    while symbol < NB_LITERAL_LENGTH_CODES
        invariant
            symbol <= NB_LITERAL_LENGTH_CODES,
            lengths.len() == symbol,
            forall|s: int| 0 <= s < symbol ==> #[trigger] lengths[s] == fixed_literal_lengths()[s],
        decreases NB_LITERAL_LENGTH_CODES - symbol,
    {
        if symbol < 144 {
            lengths.push(8);
        } else if symbol < 256 {
            lengths.push(9);
        } else if symbol < 280 {
            lengths.push(7);
        } else {
            lengths.push(8);
        }
        symbol += 1;
    }
    assert(lengths@ =~= fixed_literal_lengths());
    let literals = CodeTable::from_lengths(lengths);
    let mut lengths: Vec<u8> = Vec::new();
    symbol = 0;
    while symbol < NB_DISTANCE_CODES
        invariant
            symbol <= NB_DISTANCE_CODES,
            lengths.len() == symbol,
            forall|s: int| 0 <= s < symbol ==> #[trigger] lengths[s] == 5,
        decreases NB_DISTANCE_CODES - symbol,
    {
        lengths.push(5);
        symbol += 1;
    }
    assert(lengths@ =~= fixed_distance_lengths());
    let distances = CodeTable::from_lengths(lengths);
    (literals.unwrap(), distances.unwrap())
}

/// Decodes a stored block whose header has just been read, and appends its
/// bytes to `out`.
pub fn read_stored_block(bits: &mut Bits, out: &mut Vec<u8>) -> (res: Result<(), DecodeError>)
    ensures
        final(bits).bytes() == old(bits).bytes(),
        match res {
            Ok(_) => stored_block(old(bits).bytes(), old(bits).position() as int, old(out)@)
                == Ok::<(Seq<u8>, int), DecodeError>((final(out)@, final(bits).position() as int)),
            Err(e) => stored_block(old(bits).bytes(), old(bits).position() as int, old(out)@)
                == Err::<(Seq<u8>, int), DecodeError>(e),
        },
{
    bits.align();
    let ghost data = bits.bytes();
    let ghost start = bits.position() as int / 8;
    let mut header: [u8; 4] = [0u8; 4];
    let mut i: usize = 0;
    while i < 4
        invariant
            i <= 4,
            bits.bytes() == data,
            data == old(bits).bytes(),
            start == next_boundary(old(bits).position()) as int / 8,
            bits.position() == 8 * (start + i),
            start + i <= data.len(),
            forall|k: int| 0 <= k < i ==> #[trigger] header[k] == data[start + k],
        decreases 4 - i,
    {
        match next_aligned_byte(bits) {
            Ok(byte) => {
                header[i] = byte;
            },
            Err(e) => {
                return Err(e);
            },
        }
        i += 1;
    }
    let length: usize = header[0] as usize + 256 * (header[1] as usize);
    let complement: usize = header[2] as usize + 256 * (header[3] as usize);
    assert(length == u16_at(data, start));
    assert(complement == u16_at(data, start + 2));
    if length + complement != 0xffff {
        return Err(DecodeError::BadStoredLength);
    }
    let mut copied: usize = 0;
    while copied < length
        invariant
            copied <= length,
            bits.bytes() == data,
            data == old(bits).bytes(),
            start == next_boundary(old(bits).position()) as int / 8,
            start + 4 <= data.len(),
            length == u16_at(data, start),
            u16_at(data, start) + u16_at(data, start + 2) == 0xffff,
            bits.position() == 8 * (start + 4 + copied),
            start + 4 + copied <= data.len(),
            out@ == old(out)@ + data.subrange(start + 4, start + 4 + copied),
        decreases length - copied,
    {
        match next_aligned_byte(bits) {
            Ok(byte) => {
                out.push(byte);
                assert(out@ =~= old(out)@ + data.subrange(start + 4, start + 4 + copied + 1));
            },
            Err(e) => {
                return Err(e);
            },
        }
        copied += 1;
    }
    Ok(())
}

/// Reads the extra bits of the length symbol `symbol`: the length that the
/// two stand for.
fn read_length(bits: &mut Bits, symbol: u16) -> (res: Result<usize, DecodeError>)
    requires
        FIRST_LENGTH_SYMBOL <= symbol <= LAST_LENGTH_SYMBOL,
    ensures
        final(bits).bytes() == old(bits).bytes(),
        match res {
            Ok(length) => decode_length(
                old(bits).stream(),
                old(bits).position() as int,
                symbol as int,
            ) == Ok::<(nat, int), DecodeError>((length as nat, final(bits).position() as int)),
            Err(e) => decode_length(old(bits).stream(), old(bits).position() as int, symbol as int)
                == Err::<(nat, int), DecodeError>(e),
        },
{
    proof {
        bits.lemma_cursor_in_stream();
    }
    let index: usize = (symbol - FIRST_LENGTH_SYMBOL) as usize;
    let extra: usize = LENGTHS_EXTRA_BITS[index] as usize;
    match bits.next_data_reversed_as_u16(extra) {
        Ok(more) => Ok(LENGTHS_SIZE_BASE[index] as usize + more as usize),
        Err(_) => Err(DecodeError::UnexpectedEnd),
    }
}

/// Reads a distance code and its extra bits: the distance that the two
/// stand for.
fn read_distance(bits: &mut Bits, distances: &CodeTable) -> (res: Result<usize, DecodeError>)
    ensures
        final(bits).bytes() == old(bits).bytes(),
        match res {
            Ok(distance) => decode_distance(
                old(bits).stream(),
                old(bits).position() as int,
                distances@,
            ) == Ok::<(nat, int), DecodeError>((distance as nat, final(bits).position() as int)),
            Err(e) => decode_distance(old(bits).stream(), old(bits).position() as int, distances@)
                == Err::<(nat, int), DecodeError>(e),
        },
{
    let symbol: usize = match distances.decode(bits) {
        Ok(symbol) => symbol as usize,
        Err(e) => {
            return Err(e);
        },
    };
    if symbol >= NB_DISTANCE_CODES {
        return Err(DecodeError::BadSymbol);
    }
    proof {
        bits.lemma_cursor_in_stream();
    }
    let extra: usize = DISTANCE_EXTRA_BITS[symbol] as usize;
    match bits.next_data_reversed_as_u16(extra) {
        Ok(more) => Ok(DISTANCE_OFFSET_BASE[symbol] as usize + more as usize),
        Err(_) => Err(DecodeError::UnexpectedEnd),
    }
}

/// Decodes the data of a compressed block with the given code tables, and
/// appends its bytes to `out`.
pub fn read_compressed_block(
    bits: &mut Bits,
    literals: &CodeTable,
    distances: &CodeTable,
    out: &mut Vec<u8>,
) -> (res: Result<(), DecodeError>)
    ensures
        final(bits).bytes() == old(bits).bytes(),
        match res {
            Ok(_) => compressed_block(
                old(bits).stream(),
                literals@,
                distances@,
                old(bits).position() as int,
                old(out)@,
            ) == Ok::<(Seq<u8>, int), DecodeError>((final(out)@, final(bits).position() as int)),
            Err(e) => compressed_block(
                old(bits).stream(),
                literals@,
                distances@,
                old(bits).position() as int,
                old(out)@,
            ) == Err::<(Seq<u8>, int), DecodeError>(e),
        },
{
    let ghost stream = bits.stream();
    let ghost whole = compressed_block(
        stream,
        literals@,
        distances@,
        bits.position() as int,
        out@,
    );
    loop
        invariant
            bits.bytes() == old(bits).bytes(),
            stream == old(bits).stream(),
            whole == compressed_block(
                stream,
                literals@,
                distances@,
                old(bits).position() as int,
                old(out)@,
            ),
            whole == compressed_block(stream, literals@, distances@, bits.position() as int, out@),
        decreases stream.len() - bits.position(),
    {
        let ghost pos = bits.position() as int;
        proof {
            bits.lemma_cursor_in_stream();
            lemma_probe_bounds(stream, pos, literals@, 1);
        }
        let symbol: u16 = match literals.decode(bits) {
            Ok(symbol) => symbol,
            Err(e) => {
                return Err(e);
            },
        };
        if symbol < END_OF_BLOCK {
            out.push(symbol as u8);
        } else if symbol == END_OF_BLOCK {
            return Ok(());
        } else if symbol > LAST_LENGTH_SYMBOL {
            return Err(DecodeError::BadSymbol);
        } else {
            let ghost next = bits.position() as int;
            let length: usize = match read_length(bits, symbol) {
                Ok(length) => length,
                Err(e) => {
                    return Err(e);
                },
            };
            let ghost after_length = bits.position() as int;
            proof {
                lemma_probe_bounds(stream, after_length, distances@, 1);
            }
            let distance: usize = match read_distance(bits, distances) {
                Ok(distance) => distance,
                Err(e) => {
                    return Err(e);
                },
            };
            if distance > out.len() {
                return Err(DecodeError::BadReference);
            }
            copy_back_into(out, distance, length);
        }
    }
}

/// Decodes the deflate stream that starts at the cursor, up to and with its
/// last block. The tables of the fixed codes are built when the first block
/// that uses them is met, and kept for the blocks that follow.
pub fn inflate_stream(bits: &mut Bits) -> (res: Result<Vec<u8>, DecodeError>)
    ensures
        final(bits).bytes() == old(bits).bytes(),
        match res {
            Ok(out) => inflate(old(bits).bytes(), old(bits).position() as int) == Ok::<
                (Seq<u8>, int),
                DecodeError,
            >((out@, final(bits).position() as int)),
            Err(e) => inflate(old(bits).bytes(), old(bits).position() as int) == Err::<
                (Seq<u8>, int),
                DecodeError,
            >(e),
        },
{
    let ghost data = bits.bytes();
    let ghost whole = inflate(data, bits.position() as int);
    let mut out: Vec<u8> = Vec::new();
    let mut fixed: Option<(CodeTable, CodeTable)> = None;
    loop
        invariant
            bits.bytes() == data,
            data == old(bits).bytes(),
            whole == inflate(data, old(bits).position() as int),
            whole == inflate_from(data, bits.position() as int, out@),
            fixed matches Some(tables) ==> tables.0@ == fixed_literal_lengths() && tables.1@
                == fixed_distance_lengths(),
        decreases 8 * data.len() - bits.position(),
    {
        let ghost pos = bits.position() as int;
        let ghost before = out@;
        proof {
            bits.lemma_cursor_in_stream();
        }
        let last: u8 = match bits.next_data_reversed_as_u8(1) {
            Ok(bit) => bit,
            Err(_) => {
                return Err(DecodeError::UnexpectedEnd);
            },
        };
        proof {
            bits.lemma_cursor_in_stream();
            let first = old(bits).stream().subrange(pos, pos + 1);
            crate::bits::lemma_single_bit_value(first, BitOrder::Reversed);
        }
        let kind: CompressionType = match bits.next_data_reversed_as_u8(2) {
            Ok(kind) => CompressionType::from_bits(kind),
            Err(_) => {
                return Err(DecodeError::UnexpectedEnd);
            },
        };
        proof {
            lemma_block_body_bounds(data, kind, pos + 3, before);
        }
        match kind {
            CompressionType::NoCompression => {
                match read_stored_block(bits, &mut out) {
                    Ok(_) => {},
                    Err(e) => {
                        return Err(e);
                    },
                }
            },
            CompressionType::FixedCompression => {
                if fixed.is_none() {
                    fixed = Some(fixed_tables());
                }
                match &fixed {
                    Some(tables) => {
                        match read_compressed_block(bits, &tables.0, &tables.1, &mut out) {
                            Ok(_) => {},
                            Err(e) => {
                                return Err(e);
                            },
                        }
                    },
                    None => {},
                }
            },
            CompressionType::DynamicCompression => {
                let tables = match read_dynamic_tables(bits) {
                    Ok(tables) => tables,
                    Err(e) => {
                        return Err(e);
                    },
                };
                match read_compressed_block(bits, &tables.0, &tables.1, &mut out) {
                    Ok(_) => {},
                    Err(e) => {
                        return Err(e);
                    },
                }
            },
            CompressionType::Error => {
                return Err(DecodeError::ReservedBlockType);
            },
        }
        if BlockType::from_bit(last).is_final() {
            return Ok(out);
        }
    }
}

} // verus!
