//! The codes that a block with dynamic codes carries in front of its data.
//!
//! The block gives the code lengths of its literal and length code and of its
//! distance code. These code lengths are themselves written with a prefix
//! code, the code length code, whose own code lengths come first, three bits
//! each, in a fixed order. In the code length code the symbols 0 to 15 are
//! code lengths; 16 repeats the length before it, 17 and 18 repeat the length
//! zero.

use crate::bits::Bits;
use crate::canonical::{
    decode_symbol, lemma_probe_bounds, valid_lengths, CodeTable, MAX_BITS_IN_CODE, MAX_SYMBOLS,
};
use crate::error::DecodeError;
use crate::inflate::{number_at, END_OF_BLOCK};
use vstd::prelude::*;

verus! {

/// The number of symbols of the code length code.
pub const NB_CODE_LENGTH_CODES: usize = 19;

/// The largest number of literal and length codes that a block may give.
pub const MAX_LITERAL_LENGTH_CODES: usize = 286;

/// The largest number of distance codes that a block may give.
pub const MAX_DISTANCE_CODES: usize = 30;

/// The order in which the code lengths of the code length code are given.
pub const CODE_LENGTH_ORDER: [u8; 19] = [
    16,
    17,
    18,
    0,
    8,
    7,
    9,
    6,
    10,
    5,
    11,
    4,
    12,
    3,
    13,
    2,
    14,
    1,
    15,
];

/// The share of all codes of fifteen bits that start with a code of a
/// given length: `2^(15 - length)`, and nothing for the length zero.
pub const LENGTH_WEIGHTS: [u32; 16] = [
    0,
    16384,
    8192,
    4096,
    2048,
    1024,
    512,
    256,
    128,
    64,
    32,
    16,
    8,
    4,
    2,
    1,
];

/// All codes of fifteen bits.
pub const CODE_SPACE: u32 = 32768;

/// The share of the codes of fifteen bits that the codes of the first
/// `upto` symbols take.
pub open spec fn code_space(lengths: Seq<u8>, upto: int) -> nat
    decreases upto,
{
    if upto <= 0 {
        0
    } else {
        code_space(lengths, upto - 1) + LENGTH_WEIGHTS[lengths[upto - 1] as int] as nat
    }
}

/// Whether the code lengths ask for more codes than there are: such
/// lengths belong to no prefix code.
pub open spec fn oversubscribed(lengths: Seq<u8>) -> bool {
    code_space(lengths, lengths.len() as int) > CODE_SPACE
}

/// The code lengths of the code length code, of which the first `count`
/// are given from `pos` on, three bits each, in the fixed order; the others
/// are zero.
pub open spec fn code_length_lengths(bits: Seq<bool>, pos: int, count: int) -> Seq<u8>
    decreases count,
{
    if count <= 0 {
        Seq::new(NB_CODE_LENGTH_CODES as nat, |s: int| 0u8)
    } else {
        code_length_lengths(bits, pos, count - 1).update(
            CODE_LENGTH_ORDER[count - 1] as int,
            number_at(bits, pos + 3 * (count - 1), 3) as u8,
        )
    }
}

/// `count` times the code length `length`.
pub open spec fn repeated(length: u8, count: nat) -> Seq<u8> {
    Seq::new(count, |i: int| length)
}

/// What a symbol of the code length code adds to the code lengths read so
/// far, and the position behind its extra bits.
pub open spec fn code_length_step(bits: Seq<bool>, symbol: int, next: int, lengths: Seq<u8>) -> Result<
    (Seq<u8>, int),
    DecodeError,
> {
    if symbol < 16 {
        Ok((seq![symbol as u8], next))
    } else if symbol == 16 {
        if lengths.len() == 0 {
            Err(DecodeError::BadCodeLengths)
        } else if next + 2 > bits.len() {
            Err(DecodeError::UnexpectedEnd)
        } else {
            Ok((repeated(lengths.last(), 3 + number_at(bits, next, 2)), next + 2))
        }
    } else if symbol == 17 {
        if next + 3 > bits.len() {
            Err(DecodeError::UnexpectedEnd)
        } else {
            Ok((repeated(0, 3 + number_at(bits, next, 3)), next + 3))
        }
    } else {
        if next + 7 > bits.len() {
            Err(DecodeError::UnexpectedEnd)
        } else {
            Ok((repeated(0, 11 + number_at(bits, next, 7)), next + 7))
        }
    }
}

/// Reads code lengths from `pos` on until there are `total` of them, with
/// `lengths` read so far: all code lengths and the position behind them. A
/// repeat that has nothing to repeat, or that gives more code lengths than
/// there are to be, is refused.
pub open spec fn read_lengths(
    bits: Seq<bool>,
    table: Seq<u8>,
    pos: int,
    total: int,
    lengths: Seq<u8>,
) -> Result<(Seq<u8>, int), DecodeError>
    decreases total - lengths.len(),
{
    if lengths.len() >= total {
        Ok((lengths, pos))
    } else {
        match decode_symbol(bits, pos, table) {
            Err(e) => Err(e),
            Ok((symbol, next)) => match code_length_step(bits, symbol, next, lengths) {
                Err(e) => Err(e),
                Ok((more, after)) => {
                    if more.len() == 0 || lengths.len() + more.len() > total {
                        Err(DecodeError::BadCodeLengths)
                    } else {
                        read_lengths(bits, table, after, total, lengths + more)
                    }
                },
            },
        }
    }
}

/// The code lengths of the two codes of a block with dynamic codes whose
/// header ends at `pos`, and the position of the block's data: the code
/// lengths of the literal and length code, and those of the distance code.
///
/// The block gives the number of literal and length codes less 257 in five
/// bits, the number of distance codes less 1 in five bits, and the number of
/// code lengths of the code length code less 4 in four bits. Code lengths
/// that belong to no prefix code, and a literal and length code without a
/// code for the end of the block, are refused.
pub open spec fn dynamic_lengths(bits: Seq<bool>, pos: int) -> Result<
    (Seq<u8>, Seq<u8>, int),
    DecodeError,
> {
    if pos < 0 || pos + 14 > bits.len() {
        Err(DecodeError::UnexpectedEnd)
    } else {
        let literals = 257 + number_at(bits, pos, 5);
        let distances = 1 + number_at(bits, pos + 5, 5);
        let codes = 4 + number_at(bits, pos + 10, 4);
        if literals > MAX_LITERAL_LENGTH_CODES || distances > MAX_DISTANCE_CODES {
            Err(DecodeError::BadCodeLengths)
        } else if pos + 14 + 3 * codes > bits.len() {
            Err(DecodeError::UnexpectedEnd)
        } else {
            let table = code_length_lengths(bits, pos + 14, codes as int);
            if oversubscribed(table) {
                Err(DecodeError::BadCodeLengths)
            } else {
                match read_lengths(
                    bits,
                    table,
                    pos + 14 + 3 * codes,
                    (literals + distances) as int,
                    Seq::empty(),
                ) {
                    Err(e) => Err(e),
                    Ok((all, next)) => {
                        let literal_lengths = all.take(literals as int);
                        let distance_lengths = all.skip(literals as int);
                        if literal_lengths[END_OF_BLOCK as int] == 0 || oversubscribed(
                            literal_lengths,
                        ) || oversubscribed(distance_lengths) {
                            Err(DecodeError::BadCodeLengths)
                        } else {
                            Ok((literal_lengths, distance_lengths, next))
                        }
                    },
                }
            }
        }
    }
}

/// Code lengths are read from the stream onwards, and there are as many of
/// them as asked for, none over fifteen.
pub proof fn lemma_read_lengths(
    bits: Seq<bool>,
    table: Seq<u8>,
    pos: int,
    total: int,
    lengths: Seq<u8>,
)
    requires
        lengths.len() <= total,
        table.len() == NB_CODE_LENGTH_CODES,
        forall|i: int| 0 <= i < lengths.len() ==> #[trigger] lengths[i] <= MAX_BITS_IN_CODE,
    ensures
        read_lengths(bits, table, pos, total, lengths) matches Ok((all, next)) ==> {
            &&& pos <= next
            &&& all.len() == total
            &&& forall|i: int| 0 <= i < all.len() ==> #[trigger] all[i] <= MAX_BITS_IN_CODE
        },
    decreases total - lengths.len(),
{
    if lengths.len() < total {
        lemma_probe_bounds(bits, pos, table, 1);
        match decode_symbol(bits, pos, table) {
            Err(e) => {},
            Ok((symbol, next)) => match code_length_step(bits, symbol, next, lengths) {
                Err(e) => {},
                Ok((more, after)) => {
                    if !(more.len() == 0 || lengths.len() + more.len() > total) {
                        let grown = lengths + more;
                        assert forall|i: int| 0 <= i < grown.len() implies #[trigger] grown[i]
                            <= MAX_BITS_IN_CODE by {
                            if i >= lengths.len() {
                                assert(grown[i] == more[i - lengths.len()]);
                                if symbol == 16 {
                                    assert(lengths.last() == lengths[lengths.len() - 1]);
                                }
                            }
                        }
                        lemma_read_lengths(bits, table, after, total, grown);
                    }
                },
            },
        }
    }
}

/// The data of a block with dynamic codes start behind its header, and
/// its code lengths make tables.
pub proof fn lemma_dynamic_lengths(bits: Seq<bool>, pos: int)
    ensures
        dynamic_lengths(bits, pos) matches Ok((literals, distances, next)) ==> {
            &&& pos <= next
            &&& valid_lengths(literals)
            &&& valid_lengths(distances)
        },
{
    if !(pos < 0 || pos + 14 > bits.len()) {
        let literals = 257 + number_at(bits, pos, 5);
        let distances = 1 + number_at(bits, pos + 5, 5);
        let codes = 4 + number_at(bits, pos + 10, 4);
        let table = code_length_lengths(bits, pos + 14, codes as int);
        vstd::arithmetic::power2::lemma2_to64();
        crate::bits::lemma_bits_value_bound(
            bits.subrange(pos + 10, pos + 14),
            crate::bits::BitOrder::Reversed,
        );
        lemma_code_length_lengths(bits, pos + 14, codes as int);
        lemma_read_lengths(
            bits,
            table,
            pos + 14 + 3 * codes,
            (literals + distances) as int,
            Seq::empty(),
        );
    }
}

/// The code length code has nineteen code lengths.
pub proof fn lemma_code_length_lengths(bits: Seq<bool>, pos: int, count: int)
    requires
        count <= NB_CODE_LENGTH_CODES,
    ensures
        code_length_lengths(bits, pos, count).len() == NB_CODE_LENGTH_CODES,
    decreases count,
{
    if count > 0 {
        lemma_code_length_lengths(bits, pos, count - 1);
    }
}

/// Whether the code lengths ask for more codes than there are.
pub fn is_oversubscribed(lengths: &Vec<u8>) -> (res: bool)
    requires
        valid_lengths(lengths@),
    ensures
        res == oversubscribed(lengths@),
{
    let mut space: u32 = 0;
    let mut i: usize = 0;
    while i < lengths.len()
        invariant
            i <= lengths.len() <= MAX_SYMBOLS,
            valid_lengths(lengths@),
            space == code_space(lengths@, i as int),
            space <= 16384 * i,
        decreases lengths.len() - i,
    {
        let length: usize = lengths[i] as usize;
        space = space + LENGTH_WEIGHTS[length];
        i += 1;
    }
    space > CODE_SPACE
}

/// Appends `count` times the code length `length` to `lengths`.
fn push_repeated(lengths: &mut Vec<u8>, length: u8, count: usize)
    ensures
        final(lengths)@ == old(lengths)@ + repeated(length, count as nat),
{
    let mut i: usize = 0;
    proof {
        assert(lengths@ =~= old(lengths)@ + repeated(length, 0));
    }
    while i < count
        invariant
            i <= count,
            lengths@ == old(lengths)@ + repeated(length, i as nat),
        decreases count - i,
    {
        lengths.push(length);
        i += 1;
        proof {
            assert(lengths@ =~= old(lengths)@ + repeated(length, i as nat));
        }
    }
}

/// Reads `count` extra bits and adds them to `base`: how often a code
/// length is repeated.
fn read_repeat(bits: &mut Bits, count: usize, base: usize) -> (res: Result<usize, DecodeError>)
    requires
        count <= 7,
        base <= 11,
    ensures
        final(bits).bytes() == old(bits).bytes(),
        match res {
            Ok(times) => old(bits).position() + count <= old(bits).stream().len() && times == base
                + number_at(old(bits).stream(), old(bits).position() as int, count as int)
                && final(bits).position() == old(bits).position() + count,
            Err(e) => e == DecodeError::UnexpectedEnd && old(bits).position() + count > old(
                bits,
            ).stream().len(),
        },
{
    proof {
        bits.lemma_cursor_in_stream();
    }
    match bits.next_data_reversed_as_u8(count) {
        Ok(more) => Ok(base + more as usize),
        Err(_) => Err(DecodeError::UnexpectedEnd),
    }
}

/// Reads code lengths with the code length code `table` until there are
/// `total` of them.
fn read_code_lengths(bits: &mut Bits, table: &CodeTable, total: usize) -> (res: Result<
    Vec<u8>,
    DecodeError,
>)
    requires
        table@.len() == NB_CODE_LENGTH_CODES,
    ensures
        final(bits).bytes() == old(bits).bytes(),
        match res {
            Ok(lengths) => read_lengths(
                old(bits).stream(),
                table@,
                old(bits).position() as int,
                total as int,
                Seq::empty(),
            ) == Ok::<(Seq<u8>, int), DecodeError>((lengths@, final(bits).position() as int)),
            Err(e) => read_lengths(
                old(bits).stream(),
                table@,
                old(bits).position() as int,
                total as int,
                Seq::empty(),
            ) == Err::<(Seq<u8>, int), DecodeError>(e),
        },
{
    let ghost stream = bits.stream();
    let ghost whole = read_lengths(
        stream,
        table@,
        bits.position() as int,
        total as int,
        Seq::empty(),
    );
    let mut lengths: Vec<u8> = Vec::new();
    while lengths.len() < total
        invariant
            bits.bytes() == old(bits).bytes(),
            stream == old(bits).stream(),
            table@.len() == NB_CODE_LENGTH_CODES,
            lengths.len() <= total,
            whole == read_lengths(
                stream,
                table@,
                old(bits).position() as int,
                total as int,
                Seq::empty(),
            ),
            whole == read_lengths(stream, table@, bits.position() as int, total as int, lengths@),
        decreases total - lengths.len(),
    {
        let ghost pos = bits.position() as int;
        let ghost before = lengths@;
        proof {
            lemma_probe_bounds(stream, pos, table@, 1);
        }
        let symbol: u16 = match table.decode(bits) {
            Ok(symbol) => symbol,
            Err(e) => {
                return Err(e);
            },
        };
        let ghost next = bits.position() as int;
        if symbol < 16 {
            lengths.push(symbol as u8);
            proof {
                assert(lengths@ =~= before + seq![symbol as u8]);
            }
        } else if symbol == 16 {
            if lengths.len() == 0 {
                return Err(DecodeError::BadCodeLengths);
            }
            let times: usize = match read_repeat(bits, 2, 3) {
                Ok(times) => times,
                Err(e) => {
                    return Err(e);
                },
            };
            if times > total - lengths.len() {
                return Err(DecodeError::BadCodeLengths);
            }
            let last: u8 = lengths[lengths.len() - 1];
            push_repeated(&mut lengths, last, times);
        } else if symbol == 17 {
            let times: usize = match read_repeat(bits, 3, 3) {
                Ok(times) => times,
                Err(e) => {
                    return Err(e);
                },
            };
            if times > total - lengths.len() {
                return Err(DecodeError::BadCodeLengths);
            }
            push_repeated(&mut lengths, 0, times);
        } else {
            let times: usize = match read_repeat(bits, 7, 11) {
                Ok(times) => times,
                Err(e) => {
                    return Err(e);
                },
            };
            if times > total - lengths.len() {
                return Err(DecodeError::BadCodeLengths);
            }
            push_repeated(&mut lengths, 0, times);
        }
        proof {
            let step = code_length_step(stream, symbol as int, next, before);
            assert(step is Ok);
            assert(lengths@ == before + step.unwrap().0);
        }
    }
    Ok(lengths)
}

/// Reads the code lengths of the code length code, of which `count` are
/// given.
fn read_code_length_lengths(bits: &mut Bits, count: usize) -> (res: Result<Vec<u8>, DecodeError>)
    requires
        count <= NB_CODE_LENGTH_CODES,
    ensures
        final(bits).bytes() == old(bits).bytes(),
        match res {
            Ok(lengths) => old(bits).position() + 3 * count <= old(bits).stream().len() && lengths@
                == code_length_lengths(old(bits).stream(), old(bits).position() as int, count as int)
                && final(bits).position() == old(bits).position() + 3 * count
                && valid_lengths(lengths@),
            Err(e) => e == DecodeError::UnexpectedEnd && old(bits).position() + 3 * count > old(
                bits,
            ).stream().len(),
        },
{
    let mut lengths: Vec<u8> = Vec::new();
    let mut s: usize = 0;
    while s < NB_CODE_LENGTH_CODES
        invariant
            s <= NB_CODE_LENGTH_CODES,
            lengths.len() == s,
            forall|k: int| 0 <= k < s ==> #[trigger] lengths[k] == 0,
        decreases NB_CODE_LENGTH_CODES - s,
    {
        lengths.push(0);
        s += 1;
    }
    proof {
        assert(lengths@ =~= code_length_lengths(bits.stream(), bits.position() as int, 0));
        bits.lemma_cursor_in_stream();
    }
    let mut i: usize = 0;
    while i < count
        invariant
            i <= count <= NB_CODE_LENGTH_CODES,
            bits.bytes() == old(bits).bytes(),
            bits.position() == old(bits).position() + 3 * i,
            bits.position() <= bits.stream().len(),
            lengths.len() == NB_CODE_LENGTH_CODES,
            lengths@ == code_length_lengths(
                old(bits).stream(),
                old(bits).position() as int,
                i as int,
            ),
            forall|k: int| 0 <= k < lengths.len() ==> #[trigger] lengths[k] <= 7,
        decreases count - i,
    {
        proof {
            bits.lemma_cursor_in_stream();
        }
        let length: u8 = match bits.next_data_reversed_as_u8(3) {
            Ok(length) => length,
            Err(_) => {
                return Err(DecodeError::UnexpectedEnd);
            },
        };
        proof {
            bits.lemma_cursor_in_stream();
            vstd::arithmetic::power2::lemma2_to64();
            crate::bits::lemma_bits_value_bound(
                old(bits).stream().subrange(
                    old(bits).position() + 3 * i,
                    old(bits).position() + 3 * i + 3,
                ),
                crate::bits::BitOrder::Reversed,
            );
        }
        lengths.set(CODE_LENGTH_ORDER[i] as usize, length);
        i += 1;
    }
    Ok(lengths)
}

/// Reads the code tables of a block with dynamic codes whose header has
/// just been read: the table of the literal and length code, and that of the
/// distance code.
pub fn read_dynamic_tables(bits: &mut Bits) -> (res: Result<(CodeTable, CodeTable), DecodeError>)
    ensures
        final(bits).bytes() == old(bits).bytes(),
        match res {
            Ok(tables) => dynamic_lengths(old(bits).stream(), old(bits).position() as int) == Ok::<
                (Seq<u8>, Seq<u8>, int),
                DecodeError,
            >((tables.0@, tables.1@, final(bits).position() as int)),
            Err(e) => dynamic_lengths(old(bits).stream(), old(bits).position() as int) == Err::<
                (Seq<u8>, Seq<u8>, int),
                DecodeError,
            >(e),
        },
{
    let ghost stream = bits.stream();
    let ghost pos = bits.position() as int;
    proof {
        bits.lemma_cursor_in_stream();
        vstd::arithmetic::power2::lemma2_to64();
        crate::bits::lemma_bits_value_bound(
            stream.subrange(pos, pos + 5),
            crate::bits::BitOrder::Reversed,
        );
        crate::bits::lemma_bits_value_bound(
            stream.subrange(pos + 5, pos + 10),
            crate::bits::BitOrder::Reversed,
        );
        crate::bits::lemma_bits_value_bound(
            stream.subrange(pos + 10, pos + 14),
            crate::bits::BitOrder::Reversed,
        );
    }
    let literals: usize = match bits.next_data_reversed_as_u8(5) {
        Ok(count) => 257 + count as usize,
        Err(_) => {
            return Err(DecodeError::UnexpectedEnd);
        },
    };
    proof {
        bits.lemma_cursor_in_stream();
    }
    let distances: usize = match bits.next_data_reversed_as_u8(5) {
        Ok(count) => 1 + count as usize,
        Err(_) => {
            return Err(DecodeError::UnexpectedEnd);
        },
    };
    proof {
        bits.lemma_cursor_in_stream();
    }
    let codes: usize = match bits.next_data_reversed_as_u8(4) {
        Ok(count) => 4 + count as usize,
        Err(_) => {
            return Err(DecodeError::UnexpectedEnd);
        },
    };
    if literals > MAX_LITERAL_LENGTH_CODES || distances > MAX_DISTANCE_CODES {
        return Err(DecodeError::BadCodeLengths);
    }
    let table_lengths: Vec<u8> = match read_code_length_lengths(bits, codes) {
        Ok(lengths) => lengths,
        Err(e) => {
            return Err(e);
        },
    };
    if is_oversubscribed(&table_lengths) {
        return Err(DecodeError::BadCodeLengths);
    }
    proof {
        lemma_code_length_lengths(stream, pos + 14, codes as int);
        lemma_read_lengths(
            stream,
            table_lengths@,
            pos + 14 + 3 * codes,
            (literals + distances) as int,
            Seq::empty(),
        );
    }
    let table: CodeTable = CodeTable::from_lengths(table_lengths).unwrap();
    let mut literal_lengths: Vec<u8> = match read_code_lengths(bits, &table, literals + distances) {
        Ok(lengths) => lengths,
        Err(e) => {
            return Err(e);
        },
    };
    let ghost all = literal_lengths@;
    let distance_lengths: Vec<u8> = literal_lengths.split_off(literals);
    proof {
        assert(literal_lengths@ =~= all.take(literals as int));
        assert(distance_lengths@ =~= all.skip(literals as int));
        assert(valid_lengths(literal_lengths@)) by {
            assert forall|s: int| 0 <= s < literal_lengths@.len() implies #[trigger] literal_lengths@[s]
                <= MAX_BITS_IN_CODE by {
                assert(literal_lengths@[s] == all[s]);
            }
        }
        assert(valid_lengths(distance_lengths@)) by {
            assert forall|s: int| 0 <= s < distance_lengths@.len() implies #[trigger] distance_lengths@[s]
                <= MAX_BITS_IN_CODE by {
                assert(distance_lengths@[s] == all[s + literals]);
            }
        }
    }
    if literal_lengths[END_OF_BLOCK as usize] == 0 || is_oversubscribed(&literal_lengths)
        || is_oversubscribed(&distance_lengths) {
        return Err(DecodeError::BadCodeLengths);
    }
    let literal_table: CodeTable = CodeTable::from_lengths(literal_lengths).unwrap();
    let distance_table: CodeTable = CodeTable::from_lengths(distance_lengths).unwrap();
    Ok((literal_table, distance_table))
}

} // verus!
