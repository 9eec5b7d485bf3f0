//! What the decoder gives for the simplest of members: a header without
//! optional sections, one stored block, and a trailer that fits.

use crate::bits::{bit_of, bits_of, lemma_value_of_two_bits, next_boundary, value_forward};
use crate::canonical::{
    canonical_code, count_of_length, decode_symbol, first_code, lemma_find_code_first,
    lemma_find_code_none, probe,
};
use crate::crc::crc32;
use crate::error::DecodeError;
use crate::gzip::{
    check_trailer, gzip_decode, parse_header, GZipFlag, GZipHeaderView, GZIP_DEFLATE, GZIP_ID1,
    GZIP_ID2,
};
use crate::inflate::{
    compressed_block, fixed_distance_lengths, fixed_literal_lengths, inflate, number_at,
    stored_block, u16_at, u32_at,
};
use vstd::arithmetic::power2::{lemma2_to64, lemma_pow2_unfold, pow2};
use vstd::prelude::*;

verus! {

/// The two bytes that spell `n`, the lighter byte first.
pub open spec fn u16_bytes(n: nat) -> Seq<u8> {
    seq![(n % 256) as u8, (n / 256 % 256) as u8]
}

/// The four bytes that spell `n`, the lightest byte first.
pub open spec fn u32_bytes(n: nat) -> Seq<u8> {
    seq![
        (n % 256) as u8,
        (n / 256 % 256) as u8,
        (n / 65536 % 256) as u8,
        (n / 16777216 % 256) as u8,
    ]
}

/// A header without optional sections.
pub open spec fn plain_header(mtime: u32, extra_flags: u8, os: u8) -> Seq<u8> {
    seq![GZIP_ID1, GZIP_ID2, GZIP_DEFLATE, 0u8] + u32_bytes(mtime as nat) + seq![extra_flags, os]
}

/// The member that holds `payload` in one stored block: a plain header, the
/// block's header byte, the length of the payload and its complement, the
/// payload, and the trailer with the payload's CRC-32 and length.
#[verifier::opaque]
pub open spec fn stored_member(mtime: u32, extra_flags: u8, os: u8, payload: Seq<u8>) -> Seq<u8> {
    plain_header(mtime, extra_flags, os) + seq![1u8] + u16_bytes(payload.len()) + u16_bytes(
        (0xffff - payload.len()) as nat,
    ) + payload + u32_bytes(crc32(payload) as nat) + u32_bytes(payload.len())
}

/// The header that `plain_header` spells.
pub open spec fn plain_header_view(mtime: u32, extra_flags: u8, os: u8) -> GZipHeaderView {
    GZipHeaderView {
        method: GZIP_DEFLATE,
        flags: 0,
        mtime,
        extra_flags,
        os,
        extra: None,
        name: None,
        comment: None,
        header_crc: None,
    }
}

/// A number below `2^32` is spelled by its four bytes.
proof fn lemma_u32_bytes(data: Seq<u8>, at: int, n: nat)
    requires
        0 <= at,
        at + 4 <= data.len(),
        n < 0x1_0000_0000,
        data.subrange(at, at + 4) == u32_bytes(n),
    ensures
        u32_at(data, at) == n,
{
    let part = data.subrange(at, at + 4);
    assert(part[0] == data[at] && part[1] == data[at + 1] && part[2] == data[at + 2] && part[3]
        == data[at + 3]);
}

/// A number below `2^16` is spelled by its two bytes.
proof fn lemma_u16_bytes(data: Seq<u8>, at: int, n: nat)
    requires
        0 <= at,
        at + 2 <= data.len(),
        n < 0x1_0000,
        data.subrange(at, at + 2) == u16_bytes(n),
    ensures
        u16_at(data, at) == n,
{
    let part = data.subrange(at, at + 2);
    assert(part[0] == data[at] && part[1] == data[at + 1]);
}

/// Where the parts of a stored member lie.
proof fn lemma_stored_member_parts(mtime: u32, extra_flags: u8, os: u8, payload: Seq<u8>)
    requires
        payload.len() <= 0xffff,
    ensures
        ({
            let data = stored_member(mtime, extra_flags, os, payload);
            let n = payload.len() as int;
            &&& data.len() == 23 + n
            &&& data.subrange(0, 4) == seq![GZIP_ID1, GZIP_ID2, GZIP_DEFLATE, 0u8]
            &&& data.subrange(4, 8) == u32_bytes(mtime as nat)
            &&& data[8] == extra_flags
            &&& data[9] == os
            &&& data[10] == 1u8
            &&& data.subrange(11, 13) == u16_bytes(n as nat)
            &&& data.subrange(13, 15) == u16_bytes((0xffff - n) as nat)
            &&& data.subrange(15, 15 + n) == payload
            &&& data.subrange(15 + n, 19 + n) == u32_bytes(crc32(payload) as nat)
            &&& data.subrange(19 + n, 23 + n) == u32_bytes(n as nat)
        }),
{
    reveal(stored_member);
    let data = stored_member(mtime, extra_flags, os, payload);
    let n = payload.len() as int;
    let a = plain_header(mtime, extra_flags, os);
    let b = a + seq![1u8];
    let c = b + u16_bytes(n as nat);
    let d = c + u16_bytes((0xffff - n) as nat);
    let e = d + payload;
    let f = e + u32_bytes(crc32(payload) as nat);
    assert(a.len() == 10);
    assert(b.len() == 11);
    assert(c.len() == 13);
    assert(d.len() == 15);
    assert(e.len() == 15 + n);
    assert(f.len() == 19 + n);
    assert(data == f + u32_bytes(n as nat));
    assert(data.subrange(0, 4) =~= seq![GZIP_ID1, GZIP_ID2, GZIP_DEFLATE, 0u8]);
    assert(data.subrange(4, 8) =~= u32_bytes(mtime as nat));
    assert(data[8] == a[8]);
    assert(data[9] == a[9]);
    assert(data[10] == b[10]);
    assert(data.subrange(11, 13) =~= u16_bytes(n as nat));
    assert(data.subrange(13, 15) =~= u16_bytes((0xffff - n) as nat));
    assert(data.subrange(15, 15 + n) =~= payload);
    assert(data.subrange(15 + n, 19 + n) =~= u32_bytes(crc32(payload) as nat));
    assert(data.subrange(19 + n, 23 + n) =~= u32_bytes(n as nat));
}

/// A member with a plain header has that header, and its blocks start at
/// byte 10.
proof fn lemma_plain_header(data: Seq<u8>, mtime: u32, extra_flags: u8, os: u8)
    requires
        data.len() >= 10,
        data.subrange(0, 4) == seq![GZIP_ID1, GZIP_ID2, GZIP_DEFLATE, 0u8],
        data.subrange(4, 8) == u32_bytes(mtime as nat),
        data[8] == extra_flags,
        data[9] == os,
    ensures
        parse_header(data) == Ok::<(GZipHeaderView, int), DecodeError>(
            (plain_header_view(mtime, extra_flags, os), 10),
        ),
{
    let start = data.subrange(0, 4);
    assert(start[0] == data[0] && start[1] == data[1] && start[2] == data[2] && start[3]
        == data[3]);
    lemma_u32_bytes(data, 4, mtime as nat);
    assert(!GZipFlag::FEXTRA.set_in(0u8) && !GZipFlag::FNAME.set_in(0u8)
        && !GZipFlag::FCOMMENT.set_in(0u8) && !GZipFlag::FHCRC.set_in(0u8)) by (bit_vector);
}

/// A last stored block at byte 10 puts out its payload.
proof fn lemma_stored_block_at_ten(data: Seq<u8>, payload: Seq<u8>)
    requires
        payload.len() <= 0xffff,
        data.len() >= 15 + payload.len(),
        data[10] == 1u8,
        data.subrange(11, 13) == u16_bytes(payload.len()),
        data.subrange(13, 15) == u16_bytes((0xffff - payload.len()) as nat),
        data.subrange(15, 15 + payload.len() as int) == payload,
    ensures
        inflate(data, 80) == Ok::<(Seq<u8>, int), DecodeError>(
            (payload, 8 * (15 + payload.len() as int)),
        ),
{
    let n = payload.len() as int;
    let bits = bits_of(data);
    assert(bit_of(1u8, 0) && !bit_of(1u8, 1) && !bit_of(1u8, 2)) by (bit_vector);
    assert(bits[80] == bit_of(data[10], 0));
    let kind = bits.subrange(81, 83);
    assert(kind[0] == bit_of(data[10], 1));
    assert(kind[1] == bit_of(data[10], 2));
    lemma_value_of_two_bits(kind);
    assert(number_at(bits, 81, 2) == 0);
    assert(next_boundary(83) == 88);
    lemma_u16_bytes(data, 11, n as nat);
    lemma_u16_bytes(data, 13, (0xffff - n) as nat);
    assert(Seq::<u8>::empty() + payload =~= payload);
    assert(stored_block(data, 83, Seq::empty()) == Ok::<(Seq<u8>, int), DecodeError>(
        (payload, 8 * (15 + n)),
    ));
}

/// A trailer that spells the checksum and the length of the data fits the
/// data.
proof fn lemma_trailer_fits(data: Seq<u8>, at: int, out: Seq<u8>)
    requires
        0 <= at,
        at + 8 <= data.len(),
        out.len() < 0x1_0000_0000,
        data.subrange(at, at + 4) == u32_bytes(crc32(out) as nat),
        data.subrange(at + 4, at + 8) == u32_bytes(out.len()),
    ensures
        check_trailer(data, at, out) == Ok::<(), DecodeError>(()),
{
    lemma_u32_bytes(data, at, crc32(out) as nat);
    lemma_u32_bytes(data, at + 4, out.len());
}

/// A stored member round-trips its payload: a member that holds a payload
/// of up to 65535 bytes in one stored block, with the payload's checksum and
/// length in its trailer, decodes to its header and that payload.
pub proof fn lemma_stored_member(mtime: u32, extra_flags: u8, os: u8, payload: Seq<u8>)
    requires
        payload.len() <= 0xffff,
    ensures
        gzip_decode(stored_member(mtime, extra_flags, os, payload)) == Ok::<
            (GZipHeaderView, Seq<u8>),
            DecodeError,
        >((plain_header_view(mtime, extra_flags, os), payload)),
{
    let data = stored_member(mtime, extra_flags, os, payload);
    let n = payload.len() as int;
    lemma_stored_member_parts(mtime, extra_flags, os, payload);
    lemma_plain_header(data, mtime, extra_flags, os);
    lemma_stored_block_at_ten(data, payload);
    assert(next_boundary((8 * (15 + n)) as nat) as int / 8 == 15 + n);
    lemma_trailer_fits(data, 15 + n, payload);
}

/// The bit at place `i` of `bits`, or a zero bit behind their end.
pub open spec fn bit_or_zero(bits: Seq<bool>, i: int) -> bool {
    0 <= i < bits.len() && bits[i]
}

/// The weight of the bit `k` of a byte, if the bit is set.
pub open spec fn weight_if(bit: bool, k: u8) -> u8 {
    if bit {
        1u8 << k
    } else {
        0u8
    }
}

/// The byte made of the eight bits from place `8 * j` on, the first bit as
/// the lightest.
pub open spec fn packed_byte(bits: Seq<bool>, j: int) -> u8 {
    weight_if(bit_or_zero(bits, 8 * j), 0) | weight_if(bit_or_zero(bits, 8 * j + 1), 1)
        | weight_if(bit_or_zero(bits, 8 * j + 2), 2) | weight_if(bit_or_zero(bits, 8 * j + 3), 3)
        | weight_if(bit_or_zero(bits, 8 * j + 4), 4) | weight_if(bit_or_zero(bits, 8 * j + 5), 5)
        | weight_if(bit_or_zero(bits, 8 * j + 6), 6) | weight_if(bit_or_zero(bits, 8 * j + 7), 7)
}

/// The bytes that hold `bits`, the last byte filled up with zero bits.
pub open spec fn packed(bits: Seq<bool>) -> Seq<u8> {
    Seq::new(((bits.len() + 7) / 8) as nat, |j: int| packed_byte(bits, j))
}

/// A byte made of eight bits holds those bits.
proof fn lemma_byte_of_bits(
    b0: bool,
    b1: bool,
    b2: bool,
    b3: bool,
    b4: bool,
    b5: bool,
    b6: bool,
    b7: bool,
)
    ensures
        ({
            let byte = weight_if(b0, 0) | weight_if(b1, 1) | weight_if(b2, 2) | weight_if(b3, 3)
                | weight_if(b4, 4) | weight_if(b5, 5) | weight_if(b6, 6) | weight_if(b7, 7);
            &&& bit_of(byte, 0) == b0
            &&& bit_of(byte, 1) == b1
            &&& bit_of(byte, 2) == b2
            &&& bit_of(byte, 3) == b3
            &&& bit_of(byte, 4) == b4
            &&& bit_of(byte, 5) == b5
            &&& bit_of(byte, 6) == b6
            &&& bit_of(byte, 7) == b7
        }),
{
    let w0 = weight_if(b0, 0);
    let w1 = weight_if(b1, 1);
    let w2 = weight_if(b2, 2);
    let w3 = weight_if(b3, 3);
    let w4 = weight_if(b4, 4);
    let w5 = weight_if(b5, 5);
    let w6 = weight_if(b6, 6);
    let w7 = weight_if(b7, 7);
    let byte = w0 | w1 | w2 | w3 | w4 | w5 | w6 | w7;
    assert(1u8 << 0u8 == 1 && 1u8 << 1u8 == 2 && 1u8 << 2u8 == 4 && 1u8 << 3u8 == 8 && 1u8 << 4u8
        == 16 && 1u8 << 5u8 == 32 && 1u8 << 6u8 == 64 && 1u8 << 7u8 == 128) by (bit_vector);
    assert(((byte >> 0u8) & 1u8 == 1u8) == (w0 != 0) && ((byte >> 1u8) & 1u8 == 1u8) == (w1 != 0)
        && ((byte >> 2u8) & 1u8 == 1u8) == (w2 != 0) && ((byte >> 3u8) & 1u8 == 1u8) == (w3 != 0)
        && ((byte >> 4u8) & 1u8 == 1u8) == (w4 != 0) && ((byte >> 5u8) & 1u8 == 1u8) == (w5 != 0)
        && ((byte >> 6u8) & 1u8 == 1u8) == (w6 != 0) && ((byte >> 7u8) & 1u8 == 1u8) == (w7
        != 0)) by (bit_vector)
        requires
            byte == w0 | w1 | w2 | w3 | w4 | w5 | w6 | w7,
            w0 == 0 || w0 == 1,
            w1 == 0 || w1 == 2,
            w2 == 0 || w2 == 4,
            w3 == 0 || w3 == 8,
            w4 == 0 || w4 == 16,
            w5 == 0 || w5 == 32,
            w6 == 0 || w6 == 64,
            w7 == 0 || w7 == 128,
    ;
}

/// The bits of packed bits are those bits, followed by zero bits.
pub proof fn lemma_packed(bits: Seq<bool>, i: int)
    requires
        0 <= i < 8 * ((bits.len() + 7) / 8),
    ensures
        packed(bits).len() == (bits.len() + 7) / 8,
        bits_of(packed(bits))[i] == bit_or_zero(bits, i),
{
    let j = i / 8;
    let k = i % 8;
    lemma_byte_of_bits(
        bit_or_zero(bits, 8 * j),
        bit_or_zero(bits, 8 * j + 1),
        bit_or_zero(bits, 8 * j + 2),
        bit_or_zero(bits, 8 * j + 3),
        bit_or_zero(bits, 8 * j + 4),
        bit_or_zero(bits, 8 * j + 5),
        bit_or_zero(bits, 8 * j + 6),
        bit_or_zero(bits, 8 * j + 7),
    );
    assert(packed(bits)[j] == packed_byte(bits, j));
    assert(i == 8 * j + k);
}

/// The bits of bytes that follow other bytes follow the bits of those.
pub proof fn lemma_bits_of_middle(before: Seq<u8>, part: Seq<u8>, after: Seq<u8>, i: int)
    requires
        0 <= i < 8 * part.len(),
    ensures
        bits_of(before + part + after).len() == 8 * (before.len() + part.len() + after.len()),
        bits_of(before + part + after)[8 * before.len() + i] == bits_of(part)[i],
{
    let whole = before + part + after;
    let at = 8 * before.len() + i;
    assert(at / 8 == before.len() + i / 8);
    assert(at % 8 == i % 8);
    assert(whole[at / 8] == part[i / 8]);
}

/// How many of the first `upto` symbols of the fixed literal code have a
/// code of a given length: the symbols up to 143 have eight bits, those up
/// to 255 nine, those up to 279 seven, and the last eight have eight.
pub proof fn lemma_fixed_counts(len: int, upto: int)
    requires
        0 <= upto <= 288,
    ensures
        len == 7 ==> count_of_length(fixed_literal_lengths(), len, upto) == (if upto <= 256 {
            0
        } else if upto <= 280 {
            upto - 256
        } else {
            24
        }),
        len == 8 ==> count_of_length(fixed_literal_lengths(), len, upto) == (if upto <= 144 {
            upto
        } else if upto <= 280 {
            144
        } else {
            upto - 136
        }),
        len == 9 ==> count_of_length(fixed_literal_lengths(), len, upto) == (if upto <= 144 {
            0
        } else if upto <= 256 {
            upto - 144
        } else {
            112
        }),
        len != 7 && len != 8 && len != 9 ==> count_of_length(fixed_literal_lengths(), len, upto)
            == 0,
    decreases upto,
{
    if upto > 0 {
        lemma_fixed_counts(len, upto - 1);
    }
}

/// The first codes of the fixed literal code: the codes of seven bits
/// start at 0, those of eight bits at 48.
pub proof fn lemma_fixed_first_codes(len: int)
    requires
        len <= 8,
    ensures
        len <= 7 ==> first_code(fixed_literal_lengths(), len) == 0,
        len == 8 ==> first_code(fixed_literal_lengths(), len) == 48,
    decreases len,
{
    if len > 1 {
        lemma_fixed_first_codes(len - 1);
        lemma_fixed_counts(len - 1, 288);
    }
}

/// The codes of the fixed literal code: a literal below 144 has the code
/// `48 + literal` of eight bits, and a symbol from 256 to 279 the code
/// `symbol - 256` of seven bits.
pub proof fn lemma_fixed_codes(symbol: int)
    requires
        0 <= symbol < 288,
    ensures
        symbol < 144 ==> fixed_literal_lengths()[symbol] == 8 && canonical_code(
            fixed_literal_lengths(),
            symbol,
        ) == 48 + symbol,
        144 <= symbol < 256 ==> fixed_literal_lengths()[symbol] == 9,
        256 <= symbol < 280 ==> fixed_literal_lengths()[symbol] == 7 && canonical_code(
            fixed_literal_lengths(),
            symbol,
        ) == symbol - 256,
        280 <= symbol ==> fixed_literal_lengths()[symbol] == 8 && canonical_code(
            fixed_literal_lengths(),
            symbol,
        ) == 192 + symbol - 280,
{
    lemma_fixed_first_codes(7);
    lemma_fixed_first_codes(8);
    lemma_fixed_counts(7, symbol);
    lemma_fixed_counts(8, symbol);
}

/// The `len` bits that spell `value`, the heaviest first.
pub open spec fn code_bits(value: nat, len: nat) -> Seq<bool>
    decreases len,
{
    if len == 0 {
        Seq::empty()
    } else {
        code_bits(value / 2, (len - 1) as nat).push(value % 2 == 1)
    }
}

/// The bits that spell a value spell it.
pub proof fn lemma_code_bits(value: nat, len: nat)
    requires
        value < pow2(len),
    ensures
        code_bits(value, len).len() == len,
        value_forward(code_bits(value, len)) == value,
    decreases len,
{
    if len == 0 {
        lemma2_to64();
    } else {
        lemma_pow2_unfold(len);
        lemma_code_bits(value / 2, (len - 1) as nat);
        let bits = code_bits(value, len);
        assert(bits.drop_last() =~= code_bits(value / 2, (len - 1) as nat));
    }
}

/// A symbol of the fixed literal code that has eight bits is decoded from
/// its eight bits: no code of seven bits matches the first seven of them.
pub proof fn lemma_decode_eight_bits(bits: Seq<bool>, pos: int, symbol: int)
    requires
        0 <= pos,
        pos + 8 <= bits.len(),
        0 <= symbol < 144,
        bits.subrange(pos, pos + 8) == code_bits((48 + symbol) as nat, 8),
    ensures
        decode_symbol(bits, pos, fixed_literal_lengths()) == Ok::<(int, int), DecodeError>(
            (symbol, pos + 8),
        ),
{
    let lengths = fixed_literal_lengths();
    let code = (48 + symbol) as nat;
    lemma2_to64();
    lemma_code_bits(code, 8);
    lemma_code_bits(code / 2, 7);
    let eight = bits.subrange(pos, pos + 8);
    let seven = bits.subrange(pos, pos + 7);
    assert(seven =~= eight.drop_last());
    assert(eight.drop_last() =~= code_bits(code / 2, 7));
    assert(value_forward(seven) == code / 2);
    assert(value_forward(eight) == code);
    lemma_fixed_counts(1, 288);
    lemma_fixed_counts(2, 288);
    lemma_fixed_counts(3, 288);
    lemma_fixed_counts(4, 288);
    lemma_fixed_counts(5, 288);
    lemma_fixed_counts(6, 288);
    lemma_fixed_counts(7, 288);
    lemma_fixed_counts(8, 288);
    assert forall|s: int| 0 <= s < lengths.len() implies !(#[trigger] lengths[s] == 7
        && canonical_code(lengths, s) == code / 2) by {
        lemma_fixed_codes(s);
    }
    lemma_find_code_none(lengths, 7, code / 2, 0);
    assert forall|s: int| 0 <= s < symbol implies !(#[trigger] lengths[s] == 8 && canonical_code(
        lengths,
        s,
    ) == code) by {
        lemma_fixed_codes(s);
    }
    lemma_fixed_codes(symbol);
    lemma_find_code_first(lengths, 8, code, 0, symbol);
    assert(probe(bits, pos, lengths, 8) == Ok::<(int, int), DecodeError>((symbol, pos + 8)));
    assert(probe(bits, pos, lengths, 7) == probe(bits, pos, lengths, 8));
    assert(probe(bits, pos, lengths, 6) == probe(bits, pos, lengths, 7));
    assert(probe(bits, pos, lengths, 5) == probe(bits, pos, lengths, 6));
    assert(probe(bits, pos, lengths, 4) == probe(bits, pos, lengths, 5));
    assert(probe(bits, pos, lengths, 3) == probe(bits, pos, lengths, 4));
    assert(probe(bits, pos, lengths, 2) == probe(bits, pos, lengths, 3));
    assert(probe(bits, pos, lengths, 1) == probe(bits, pos, lengths, 2));
}

/// The end of a block is decoded from seven zero bits.
pub proof fn lemma_decode_end_of_block(bits: Seq<bool>, pos: int)
    requires
        0 <= pos,
        pos + 7 <= bits.len(),
        bits.subrange(pos, pos + 7) == code_bits(0, 7),
    ensures
        decode_symbol(bits, pos, fixed_literal_lengths()) == Ok::<(int, int), DecodeError>(
            (256, pos + 7),
        ),
{
    let lengths = fixed_literal_lengths();
    lemma2_to64();
    lemma_code_bits(0, 7);
    lemma_fixed_counts(1, 288);
    lemma_fixed_counts(2, 288);
    lemma_fixed_counts(3, 288);
    lemma_fixed_counts(4, 288);
    lemma_fixed_counts(5, 288);
    lemma_fixed_counts(6, 288);
    lemma_fixed_counts(7, 288);
    assert forall|s: int| 0 <= s < 256 implies !(#[trigger] lengths[s] == 7 && canonical_code(
        lengths,
        s,
    ) == 0) by {
        lemma_fixed_codes(s);
    }
    lemma_fixed_codes(256);
    lemma_find_code_first(lengths, 7, 0, 0, 256);
    assert(probe(bits, pos, lengths, 7) == Ok::<(int, int), DecodeError>((256, pos + 7)));
    assert(probe(bits, pos, lengths, 6) == probe(bits, pos, lengths, 7));
    assert(probe(bits, pos, lengths, 5) == probe(bits, pos, lengths, 6));
    assert(probe(bits, pos, lengths, 4) == probe(bits, pos, lengths, 5));
    assert(probe(bits, pos, lengths, 3) == probe(bits, pos, lengths, 4));
    assert(probe(bits, pos, lengths, 2) == probe(bits, pos, lengths, 3));
    assert(probe(bits, pos, lengths, 1) == probe(bits, pos, lengths, 2));
}

/// The codes of the bytes of `text` in the fixed literal code, one after
/// the other. Every byte below 144 has the code `48 + byte` of eight bits.
pub open spec fn literal_bits(text: Seq<u8>) -> Seq<bool>
    decreases text.len(),
{
    if text.len() == 0 {
        Seq::empty()
    } else {
        literal_bits(text.drop_last()) + code_bits((48 + text.last()) as nat, 8)
    }
}

/// The bits of a last block with the fixed codes that holds `text` as
/// literals: the mark of the last block, the type, the literals, and the
/// symbol that ends the block.
pub open spec fn fixed_block_bits(text: Seq<u8>) -> Seq<bool> {
    seq![true, true, false] + literal_bits(text) + code_bits(0, 7)
}

/// The member that holds `text` as the literals of one block with the
/// fixed codes: a plain header, the block, and the trailer with the text's
/// CRC-32 and length.
#[verifier::opaque]
pub open spec fn fixed_member(mtime: u32, extra_flags: u8, os: u8, text: Seq<u8>) -> Seq<u8> {
    plain_header(mtime, extra_flags, os) + packed(fixed_block_bits(text)) + (u32_bytes(
        crc32(text) as nat,
    ) + u32_bytes(text.len() % 0x1_0000_0000))
}

/// Bits that spell a value are as many as asked for.
proof fn lemma_code_bits_len(value: nat, len: nat)
    ensures
        code_bits(value, len).len() == len,
    decreases len,
{
    if len > 0 {
        lemma_code_bits_len(value / 2, (len - 1) as nat);
    }
}

/// Where the code of each literal lies.
proof fn lemma_literal_bits(text: Seq<u8>, k: int)
    requires
        0 <= k < text.len(),
    ensures
        literal_bits(text).len() == 8 * text.len(),
        literal_bits(text).subrange(8 * k, 8 * k + 8) == code_bits((48 + text[k]) as nat, 8),
    decreases text.len(),
{
    let before = text.drop_last();
    lemma_code_bits_len((48 + text.last()) as nat, 8);
    lemma_literal_bits_len(before);
    if k < text.len() - 1 {
        lemma_literal_bits(before, k);
        assert(literal_bits(text).subrange(8 * k, 8 * k + 8) =~= literal_bits(before).subrange(
            8 * k,
            8 * k + 8,
        ));
    } else {
        assert(literal_bits(text).subrange(8 * k, 8 * k + 8) =~= code_bits(
            (48 + text.last()) as nat,
            8,
        ));
    }
}

/// Every literal takes eight bits.
proof fn lemma_literal_bits_len(text: Seq<u8>)
    ensures
        literal_bits(text).len() == 8 * text.len(),
    decreases text.len(),
{
    if text.len() > 0 {
        lemma_code_bits_len((48 + text.last()) as nat, 8);
        lemma_literal_bits_len(text.drop_last());
    }
}

/// Whether `bits` hold, from bit 80 on, a last block with the fixed codes
/// that holds `text` as literals.
pub open spec fn holds_fixed_block(bits: Seq<bool>, text: Seq<u8>) -> bool {
    &&& bits.len() >= 90 + 8 * text.len()
    &&& bits[80]
    &&& bits[81]
    &&& !bits[82]
    &&& forall|k: int|
        0 <= k < text.len() ==> #[trigger] bits.subrange(83 + 8 * k, 91 + 8 * k) == code_bits(
            (48 + text[k]) as nat,
            8,
        )
    &&& bits.subrange(83 + 8 * text.len() as int, 90 + 8 * text.len() as int) == code_bits(0, 7)
}

/// The literals of a block are decoded one by one: with the first `k` of
/// them decoded, the rest of the block gives the whole text.
proof fn lemma_literals_decode(bits: Seq<bool>, text: Seq<u8>, k: int)
    requires
        holds_fixed_block(bits, text),
        forall|i: int| 0 <= i < text.len() ==> #[trigger] text[i] < 128,
        0 <= k <= text.len(),
    ensures
        compressed_block(
            bits,
            fixed_literal_lengths(),
            fixed_distance_lengths(),
            83 + 8 * k,
            text.take(k),
        ) == Ok::<(Seq<u8>, int), DecodeError>((text, 90 + 8 * text.len() as int)),
    decreases text.len() - k,
{
    let pos = 83 + 8 * k;
    if k < text.len() {
        assert(bits.subrange(83 + 8 * k, 91 + 8 * k) == code_bits((48 + text[k]) as nat, 8));
        lemma_decode_eight_bits(bits, pos, text[k] as int);
        assert(text.take(k).push(text[k]) =~= text.take(k + 1));
        lemma_literals_decode(bits, text, k + 1);
    } else {
        lemma_decode_end_of_block(bits, pos);
        assert(text.take(k) =~= text);
    }
}

/// Where the parts of a member with one block of literals lie.
proof fn lemma_fixed_member_parts(mtime: u32, extra_flags: u8, os: u8, text: Seq<u8>)
    ensures
        ({
            let data = fixed_member(mtime, extra_flags, os, text);
            let n = text.len() as int;
            &&& data.len() == 20 + n
            &&& data.subrange(0, 4) == seq![GZIP_ID1, GZIP_ID2, GZIP_DEFLATE, 0u8]
            &&& data.subrange(4, 8) == u32_bytes(mtime as nat)
            &&& data[8] == extra_flags
            &&& data[9] == os
            &&& holds_fixed_block(bits_of(data), text)
            &&& data.subrange(12 + n, 16 + n) == u32_bytes(crc32(text) as nat)
            &&& data.subrange(16 + n, 20 + n) == u32_bytes((n % 0x1_0000_0000) as nat)
        }),
{
    reveal(fixed_member);
    let data = fixed_member(mtime, extra_flags, os, text);
    let n = text.len() as int;
    let head = plain_header(mtime, extra_flags, os);
    let block = fixed_block_bits(text);
    let body = packed(block);
    let trailer = u32_bytes(crc32(text) as nat) + u32_bytes((n % 0x1_0000_0000) as nat);
    let bits = bits_of(data);
    lemma_literal_bits_len(text);
    lemma_code_bits_len(0, 7);
    assert(block.len() == 10 + 8 * n);
    assert(body.len() == n + 2);
    assert(head.len() == 10);
    assert(trailer.len() == 8);
    assert(data == head + body + trailer);
    assert(data.subrange(0, 4) =~= seq![GZIP_ID1, GZIP_ID2, GZIP_DEFLATE, 0u8]);
    assert(data.subrange(4, 8) =~= u32_bytes(mtime as nat));
    assert(data[8] == head[8]);
    assert(data[9] == head[9]);
    assert(data.subrange(12 + n, 16 + n) =~= u32_bytes(crc32(text) as nat));
    assert(data.subrange(16 + n, 20 + n) =~= u32_bytes((n % 0x1_0000_0000) as nat));
    assert forall|i: int| 0 <= i < block.len() implies bits[80 + i] == block[i] by {
        lemma_bits_of_middle(head, body, trailer, i);
        lemma_packed(block, i);
    }
    lemma_bits_of_middle(head, body, trailer, 0);
    assert(bits[80 + 0int] == block[0]);
    assert(bits[80 + 1int] == block[1]);
    assert(bits[80 + 2int] == block[2]);
    assert forall|k: int| 0 <= k < text.len() implies #[trigger] bits.subrange(
        83 + 8 * k,
        91 + 8 * k,
    ) == code_bits((48 + text[k]) as nat, 8) by {
        lemma_literal_bits(text, k);
        let part = bits.subrange(83 + 8 * k, 91 + 8 * k);
        let code = literal_bits(text).subrange(8 * k, 8 * k + 8);
        assert forall|j: int| 0 <= j < 8 implies part[j] == code[j] by {
            assert(bits[80 + (3 + 8 * k + j)] == block[3 + 8 * k + j]);
        }
        assert(part =~= code);
    }
    let end = bits.subrange(83 + 8 * n, 90 + 8 * n);
    assert forall|j: int| 0 <= j < 7 implies end[j] == code_bits(0, 7)[j] by {
        assert(bits[80 + (3 + 8 * n + j)] == block[3 + 8 * n + j]);
    }
    assert(end =~= code_bits(0, 7));
}

/// A last block of literals at byte 10 puts out its text.
proof fn lemma_fixed_block_at_ten(data: Seq<u8>, text: Seq<u8>)
    requires
        holds_fixed_block(bits_of(data), text),
        forall|i: int| 0 <= i < text.len() ==> #[trigger] text[i] < 128,
    ensures
        inflate(data, 80) == Ok::<(Seq<u8>, int), DecodeError>(
            (text, 90 + 8 * text.len() as int),
        ),
{
    let bits = bits_of(data);
    let kind = bits.subrange(81, 83);
    assert(kind[0] == bits[81]);
    assert(kind[1] == bits[82]);
    lemma_value_of_two_bits(kind);
    assert(number_at(bits, 81, 2) == 1);
    lemma_literals_decode(bits, text, 0);
    assert(text.take(0) =~= Seq::<u8>::empty());
}

/// A member with one block of literals round-trips its text: a member
/// that holds a text of ASCII bytes as the literals of one block with the
/// fixed codes, with the text's checksum and length in its trailer, decodes
/// to its header and that text.
pub proof fn lemma_fixed_member(mtime: u32, extra_flags: u8, os: u8, text: Seq<u8>)
    requires
        forall|i: int| 0 <= i < text.len() ==> #[trigger] text[i] < 128,
    ensures
        gzip_decode(fixed_member(mtime, extra_flags, os, text)) == Ok::<
            (GZipHeaderView, Seq<u8>),
            DecodeError,
        >((plain_header_view(mtime, extra_flags, os), text)),
{
    let data = fixed_member(mtime, extra_flags, os, text);
    let n = text.len() as int;
    lemma_fixed_member_parts(mtime, extra_flags, os, text);
    lemma_plain_header(data, mtime, extra_flags, os);
    lemma_fixed_block_at_ten(data, text);
    assert(next_boundary((90 + 8 * n) as nat) as int / 8 == 12 + n);
    lemma_trailer_modulo(data, 12 + n, text);
}

/// A trailer that spells the checksum of the data and their length modulo
/// `2^32` fits the data.
proof fn lemma_trailer_modulo(data: Seq<u8>, at: int, out: Seq<u8>)
    requires
        0 <= at,
        at + 8 <= data.len(),
        data.subrange(at, at + 4) == u32_bytes(crc32(out) as nat),
        data.subrange(at + 4, at + 8) == u32_bytes(out.len() % 0x1_0000_0000),
    ensures
        check_trailer(data, at, out) == Ok::<(), DecodeError>(()),
{
    lemma_u32_bytes(data, at, crc32(out) as nat);
    lemma_u32_bytes(data, at + 4, out.len() % 0x1_0000_0000);
}

} // verus!
