//! Decoding of a gzip member: a header, a deflate stream and a trailer.
//!
//! The header is ten bytes, followed by up to four optional sections that
//! its flag byte announces, in a fixed order: an extra field, a file name, a
//! comment and a checksum of the header. The trailer holds the CRC-32 and the
//! size of the data that the deflate stream decodes to. The header's own
//! checksum is read and handed out, and it is not verified.

use crate::bits::{next_boundary, Bits};
use crate::crc::{crc32, CRC32};
use crate::error::{DecodeError, ErrorClass};
use crate::inflate::{inflate, inflate_stream, next_aligned_byte, u16_at, u32_at};
pub use crate::inflate::{BlockType, CompressionType};
use vstd::prelude::*;

verus! {

/// The first byte of a gzip member.
pub const GZIP_ID1: u8 = 0x1f;

/// The second byte of a gzip member.
pub const GZIP_ID2: u8 = 0x8b;

/// The compression method "deflate".
pub const GZIP_DEFLATE: u8 = 8;

/// The length of the header without its optional sections.
pub const GZIP_HEADER_LENGTH: usize = 10;

/// The bits of a header's flag byte.
#[derive(Debug, Clone, Copy, PartialEq, Eq, Structural)]
pub enum GZipFlag {
    /// The data is probably text.
    FTEXT,
    /// A checksum of the header follows the other sections.
    FHCRC,
    /// An extra field follows the fixed part.
    FEXTRA,
    /// A file name follows, ended by a zero byte.
    FNAME,
    /// A comment follows, ended by a zero byte.
    FCOMMENT,
}

impl GZipFlag {
    /// The bit of the flag byte that stands for this flag.
    pub open spec fn mask_spec(self) -> u8 {
        match self {
            GZipFlag::FTEXT => 0b0000_0001,
            GZipFlag::FHCRC => 0b0000_0010,
            GZipFlag::FEXTRA => 0b0000_0100,
            GZipFlag::FNAME => 0b0000_1000,
            GZipFlag::FCOMMENT => 0b0001_0000,
        }
    }

    /// Whether this flag is set in the flag byte `flags`.
    pub open spec fn set_in(self, flags: u8) -> bool {
        self.mask_spec() & flags != 0
    }

    /// The bit of the flag byte that stands for this flag.
    #[verifier::when_used_as_spec(mask_spec)]
    pub fn mask(self) -> (res: u8)
        ensures
            res == self.mask_spec(),
    {
        match self {
            GZipFlag::FTEXT => 0b0000_0001,
            GZipFlag::FHCRC => 0b0000_0010,
            GZipFlag::FEXTRA => 0b0000_0100,
            GZipFlag::FNAME => 0b0000_1000,
            GZipFlag::FCOMMENT => 0b0001_0000,
        }
    }

    /// This flag's bit of the flag byte `rhs`: zero when the flag is not
    /// set.
    pub fn bitand(self, rhs: u8) -> (res: u8)
        ensures
            res == self.mask_spec() & rhs,
            (res != 0) == self.set_in(rhs),
    {
        self.mask() & rhs
    }
}

/// What a gzip header holds.
#[derive(Debug, PartialEq, Eq)]
pub struct GZipHeader {
    /// The compression method.
    pub method: u8,
    /// The flag byte.
    pub flags: u8,
    /// The time of the last change, in seconds since 1970, or zero.
    pub mtime: u32,
    /// Flags of the compression method.
    pub extra_flags: u8,
    /// The system on which the member was made.
    pub os: u8,
    /// The extra field, if there is one.
    pub extra: Option<Vec<u8>>,
    /// The file name without its closing zero, if there is one.
    pub name: Option<Vec<u8>>,
    /// The comment without its closing zero, if there is one.
    pub comment: Option<Vec<u8>>,
    /// The checksum of the header, if there is one.
    pub header_crc: Option<u16>,
}

/// A gzip header as a mathematical value.
pub struct GZipHeaderView {
    pub method: u8,
    pub flags: u8,
    pub mtime: u32,
    pub extra_flags: u8,
    pub os: u8,
    pub extra: Option<Seq<u8>>,
    pub name: Option<Seq<u8>>,
    pub comment: Option<Seq<u8>>,
    pub header_crc: Option<u16>,
}

/// The bytes of an optional buffer.
pub open spec fn section_view(section: Option<Vec<u8>>) -> Option<Seq<u8>> {
    match section {
        Some(bytes) => Some(bytes@),
        None => None,
    }
}

impl View for GZipHeader {
    type V = GZipHeaderView;

    open spec fn view(&self) -> GZipHeaderView {
        GZipHeaderView {
            method: self.method,
            flags: self.flags,
            mtime: self.mtime,
            extra_flags: self.extra_flags,
            os: self.os,
            extra: section_view(self.extra),
            name: section_view(self.name),
            comment: section_view(self.comment),
            header_crc: self.header_crc,
        }
    }
}

/// A decoded gzip member: its header and its data.
#[derive(Debug, PartialEq, Eq)]
pub struct GZipMember {
    /// The header.
    pub header: GZipHeader,
    /// The decompressed data.
    pub data: Vec<u8>,
}

/// The extra field that starts at byte `at`, if the flags announce one,
/// and the index behind it: two bytes of length, then the field.
pub open spec fn parse_extra(data: Seq<u8>, flags: u8, at: int) -> Result<
    (Option<Seq<u8>>, int),
    DecodeError,
> {
    if !GZipFlag::FEXTRA.set_in(flags) {
        Ok((None, at))
    } else if at + 2 > data.len() {
        Err(DecodeError::UnexpectedEnd)
    } else {
        let end = at + 2 + u16_at(data, at);
        if end > data.len() {
            Err(DecodeError::UnexpectedEnd)
        } else {
            Ok((Some(data.subrange(at + 2, end)), end))
        }
    }
}

/// The index of the first zero byte at or after `at`.
pub open spec fn zero_from(data: Seq<u8>, at: int) -> Option<int>
    decreases data.len() - at,
{
    if at < 0 || at >= data.len() {
        None
    } else if data[at] == 0 {
        Some(at)
    } else {
        zero_from(data, at + 1)
    }
}

/// The zero-ended text that starts at byte `at`, if there is one, and the
/// index behind its closing zero.
pub open spec fn parse_text(data: Seq<u8>, present: bool, at: int) -> Result<
    (Option<Seq<u8>>, int),
    DecodeError,
> {
    if !present {
        Ok((None, at))
    } else {
        match zero_from(data, at) {
            None => Err(DecodeError::UnexpectedEnd),
            Some(end) => Ok((Some(data.subrange(at, end)), end + 1)),
        }
    }
}

/// The header's checksum at byte `at`, if the flags announce one, and the
/// index behind it.
pub open spec fn parse_header_crc(data: Seq<u8>, flags: u8, at: int) -> Result<
    (Option<u16>, int),
    DecodeError,
> {
    if !GZipFlag::FHCRC.set_in(flags) {
        Ok((None, at))
    } else if at + 2 > data.len() {
        Err(DecodeError::UnexpectedEnd)
    } else {
        Ok((Some(u16_at(data, at) as u16), at + 2))
    }
}

/// The header at the start of `data`, and the index of the first byte
/// behind it.
pub open spec fn parse_header(data: Seq<u8>) -> Result<(GZipHeaderView, int), DecodeError> {
    if data.len() < GZIP_HEADER_LENGTH {
        Err(DecodeError::UnexpectedEnd)
    } else if data[0] != GZIP_ID1 || data[1] != GZIP_ID2 {
        Err(DecodeError::BadMagic)
    } else if data[2] != GZIP_DEFLATE {
        Err(DecodeError::BadMethod)
    } else {
        let flags = data[3];
        match parse_extra(data, flags, GZIP_HEADER_LENGTH as int) {
            Err(e) => Err(e),
            Ok((extra, after_extra)) => match parse_text(
                data,
                GZipFlag::FNAME.set_in(flags),
                after_extra,
            ) {
                Err(e) => Err(e),
                Ok((name, after_name)) => match parse_text(
                    data,
                    GZipFlag::FCOMMENT.set_in(flags),
                    after_name,
                ) {
                    Err(e) => Err(e),
                    Ok((comment, after_comment)) => match parse_header_crc(
                        data,
                        flags,
                        after_comment,
                    ) {
                        Err(e) => Err(e),
                        Ok((header_crc, end)) => Ok(
                            (
                                GZipHeaderView {
                                    method: data[2],
                                    flags,
                                    mtime: u32_at(data, 4) as u32,
                                    extra_flags: data[8],
                                    os: data[9],
                                    extra,
                                    name,
                                    comment,
                                    header_crc,
                                },
                                end,
                            ),
                        ),
                    },
                },
            },
        }
    }
}

/// Holds the trailer at byte `at` against the decoded data `out`: its
/// first four bytes are the CRC-32 of the data, its last four their number
/// modulo `2^32`.
pub open spec fn check_trailer(data: Seq<u8>, at: int, out: Seq<u8>) -> Result<(), DecodeError> {
    if at + 8 > data.len() {
        Err(DecodeError::UnexpectedEnd)
    } else if u32_at(data, at) != crc32(out) {
        Err(DecodeError::CrcMismatch)
    } else if u32_at(data, at + 4) != out.len() % 0x1_0000_0000 {
        Err(DecodeError::SizeMismatch)
    } else {
        Ok(())
    }
}

/// The header and the data of the gzip member `data`. The deflate stream
/// follows the header; the trailer starts at the first byte boundary behind
/// the stream's last block.
pub open spec fn gzip_decode(data: Seq<u8>) -> Result<(GZipHeaderView, Seq<u8>), DecodeError> {
    match parse_header(data) {
        Err(e) => Err(e),
        Ok((header, start)) => match inflate(data, 8 * start) {
            Err(e) => Err(e),
            Ok((out, end)) => match check_trailer(data, next_boundary(end as nat) as int / 8, out) {
                Err(e) => Err(e),
                Ok(_) => Ok((header, out)),
            },
        },
    }
}

/// A member that is cut off within the first ten bytes is refused as
/// malformed.
pub proof fn lemma_truncated_header(data: Seq<u8>)
    requires
        data.len() < GZIP_HEADER_LENGTH,
    ensures
        gzip_decode(data) == Err::<(GZipHeaderView, Seq<u8>), DecodeError>(
            DecodeError::UnexpectedEnd,
        ),
        DecodeError::UnexpectedEnd.class() == ErrorClass::Format,
{
}

/// Reads `count` whole bytes from the cursor, which stands on a byte
/// boundary.
fn read_bytes(bits: &mut Bits, count: usize) -> (res: Result<Vec<u8>, DecodeError>)
    requires
        old(bits).position() % 8 == 0,
    ensures
        final(bits).bytes() == old(bits).bytes(),
        match res {
            Ok(bytes) => {
                let at = old(bits).position() as int / 8;
                &&& at + count <= old(bits).bytes().len()
                &&& bytes@ == old(bits).bytes().subrange(at, at + count)
                &&& final(bits).position() == old(bits).position() + 8 * count
            },
            Err(e) => e == DecodeError::UnexpectedEnd && old(bits).position() / 8 + count > old(
                bits,
            ).bytes().len(),
        },
{
    let ghost data = bits.bytes();
    let ghost at = bits.position() as int / 8;
    let mut bytes: Vec<u8> = Vec::new();
    let mut i: usize = 0;
    proof {
        bits.lemma_cursor_in_stream();
        assert(bytes@ =~= data.subrange(at, at + 0));
    }
    while i < count
        invariant
            i <= count,
            bits.bytes() == data,
            data == old(bits).bytes(),
            at == old(bits).position() as int / 8,
            old(bits).position() % 8 == 0,
            bits.position() == old(bits).position() + 8 * i,
            at + i <= data.len(),
            bytes@ == data.subrange(at, at + i),
        decreases count - i,
    {
        match next_aligned_byte(bits) {
            Ok(byte) => {
                bytes.push(byte);
                assert(bytes@ =~= data.subrange(at, at + i + 1));
            },
            Err(e) => {
                return Err(e);
            },
        }
        i += 1;
    }
    Ok(bytes)
}

/// Reads a number of two bytes, the lighter byte first, from the cursor,
/// which stands on a byte boundary.
fn read_u16(bits: &mut Bits) -> (res: Result<u16, DecodeError>)
    requires
        old(bits).position() % 8 == 0,
    ensures
        final(bits).bytes() == old(bits).bytes(),
        match res {
            Ok(v) => {
                let at = old(bits).position() as int / 8;
                &&& at + 2 <= old(bits).bytes().len()
                &&& v == u16_at(old(bits).bytes(), at)
                &&& final(bits).position() == old(bits).position() + 16
            },
            Err(e) => e == DecodeError::UnexpectedEnd && old(bits).position() / 8 + 2 > old(
                bits,
            ).bytes().len(),
        },
{
    let low: u8 = match next_aligned_byte(bits) {
        Ok(byte) => byte,
        Err(e) => {
            return Err(e);
        },
    };
    let high: u8 = match next_aligned_byte(bits) {
        Ok(byte) => byte,
        Err(e) => {
            return Err(e);
        },
    };
    Ok(low as u16 + 256 * (high as u16))
}

/// Reads a number of four bytes, the lightest byte first, from the cursor,
/// which stands on a byte boundary.
fn read_u32(bits: &mut Bits) -> (res: Result<u32, DecodeError>)
    requires
        old(bits).position() % 8 == 0,
    ensures
        final(bits).bytes() == old(bits).bytes(),
        match res {
            Ok(v) => {
                let at = old(bits).position() as int / 8;
                &&& at + 4 <= old(bits).bytes().len()
                &&& v == u32_at(old(bits).bytes(), at)
                &&& final(bits).position() == old(bits).position() + 32
            },
            Err(e) => e == DecodeError::UnexpectedEnd && old(bits).position() / 8 + 4 > old(
                bits,
            ).bytes().len(),
        },
{
    let low: u16 = match read_u16(bits) {
        Ok(v) => v,
        Err(e) => {
            return Err(e);
        },
    };
    let high: u16 = match read_u16(bits) {
        Ok(v) => v,
        Err(e) => {
            return Err(e);
        },
    };
    Ok(low as u32 + 65536 * (high as u32))
}

/// Reads the bytes up to the next zero byte, and the zero byte itself, from
/// the cursor, which stands on a byte boundary.
fn read_text(bits: &mut Bits) -> (res: Result<Vec<u8>, DecodeError>)
    requires
        old(bits).position() % 8 == 0,
    ensures
        final(bits).bytes() == old(bits).bytes(),
        match res {
            Ok(text) => {
                let at = old(bits).position() as int / 8;
                &&& zero_from(old(bits).bytes(), at) matches Some(end)
                &&& text@ == old(bits).bytes().subrange(at, end)
                &&& final(bits).position() == 8 * (end + 1)
            },
            Err(e) => e == DecodeError::UnexpectedEnd && zero_from(
                old(bits).bytes(),
                old(bits).position() as int / 8,
            ) is None,
        },
{
    let ghost data = bits.bytes();
    let ghost at = bits.position() as int / 8;
    let mut text: Vec<u8> = Vec::new();
    proof {
        bits.lemma_cursor_in_stream();
    }
    loop
        invariant
            bits.bytes() == data,
            data == old(bits).bytes(),
            at == old(bits).position() as int / 8,
            old(bits).position() % 8 == 0,
            bits.position() == old(bits).position() + 8 * text.len(),
            at + text.len() <= data.len(),
            text@ == data.subrange(at, at + text.len()),
            zero_from(data, at) == zero_from(data, at + text.len()),
        decreases data.len() - text.len(),
    {
        match next_aligned_byte(bits) {
            Ok(byte) => {
                if byte == 0 {
                    return Ok(text);
                }
                text.push(byte);
                assert(text@ =~= data.subrange(at, at + text.len()));
            },
            Err(e) => {
                return Err(e);
            },
        }
    }
}

/// Reads the extra field, if the flags announce one, from the cursor, which
/// stands on a byte boundary.
fn read_extra(bits: &mut Bits, flags: u8) -> (res: Result<Option<Vec<u8>>, DecodeError>)
    requires
        old(bits).position() % 8 == 0,
    ensures
        final(bits).bytes() == old(bits).bytes(),
        match res {
            Ok(section) => parse_extra(old(bits).bytes(), flags, old(bits).position() as int / 8)
                == Ok::<(Option<Seq<u8>>, int), DecodeError>(
                (section_view(section), final(bits).position() as int / 8),
            ) && final(bits).position() % 8 == 0,
            Err(e) => parse_extra(old(bits).bytes(), flags, old(bits).position() as int / 8)
                == Err::<(Option<Seq<u8>>, int), DecodeError>(e),
        },
{
    if GZipFlag::FEXTRA.bitand(flags) == 0 {
        return Ok(None);
    }
    let length: u16 = match read_u16(bits) {
        Ok(length) => length,
        Err(e) => {
            return Err(e);
        },
    };
    match read_bytes(bits, length as usize) {
        Ok(bytes) => Ok(Some(bytes)),
        Err(e) => Err(e),
    }
}

/// Reads a zero-ended text, if there is one, from the cursor, which stands
/// on a byte boundary.
fn read_optional_text(bits: &mut Bits, present: bool) -> (res: Result<
    Option<Vec<u8>>,
    DecodeError,
>)
    requires
        old(bits).position() % 8 == 0,
    ensures
        final(bits).bytes() == old(bits).bytes(),
        match res {
            Ok(section) => parse_text(old(bits).bytes(), present, old(bits).position() as int / 8)
                == Ok::<(Option<Seq<u8>>, int), DecodeError>(
                (section_view(section), final(bits).position() as int / 8),
            ) && final(bits).position() % 8 == 0,
            Err(e) => parse_text(old(bits).bytes(), present, old(bits).position() as int / 8)
                == Err::<(Option<Seq<u8>>, int), DecodeError>(e),
        },
{
    if !present {
        return Ok(None);
    }
    match read_text(bits) {
        Ok(text) => Ok(Some(text)),
        Err(e) => Err(e),
    }
}

/// Reads the header's checksum, if the flags announce one, from the cursor,
/// which stands on a byte boundary.
fn read_header_crc(bits: &mut Bits, flags: u8) -> (res: Result<Option<u16>, DecodeError>)
    requires
        old(bits).position() % 8 == 0,
    ensures
        final(bits).bytes() == old(bits).bytes(),
        match res {
            Ok(section) => parse_header_crc(
                old(bits).bytes(),
                flags,
                old(bits).position() as int / 8,
            ) == Ok::<(Option<u16>, int), DecodeError>(
                (section, final(bits).position() as int / 8),
            ) && final(bits).position() % 8 == 0,
            Err(e) => parse_header_crc(old(bits).bytes(), flags, old(bits).position() as int / 8)
                == Err::<(Option<u16>, int), DecodeError>(e),
        },
{
    if GZipFlag::FHCRC.bitand(flags) == 0 {
        return Ok(None);
    }
    match read_u16(bits) {
        Ok(v) => Ok(Some(v)),
        Err(e) => Err(e),
    }
}

/// A decoder of gzip members.
#[derive(Debug)]
pub struct GZip {}

impl GZip {
    /// Reads the header of a member from the start of the stream, and
    /// leaves the cursor on the first byte behind it.
    pub fn read_header(bits: &mut Bits) -> (res: Result<GZipHeader, DecodeError>)
        requires
            old(bits).position() == 0,
        ensures
            final(bits).bytes() == old(bits).bytes(),
            match res {
                Ok(header) => parse_header(old(bits).bytes()) == Ok::<
                    (GZipHeaderView, int),
                    DecodeError,
                >((header@, final(bits).position() as int / 8)) && final(bits).position() % 8
                    == 0,
                Err(e) => parse_header(old(bits).bytes()) == Err::<
                    (GZipHeaderView, int),
                    DecodeError,
                >(e),
            },
    {
        let fixed: Vec<u8> = match read_bytes(bits, GZIP_HEADER_LENGTH) {
            Ok(bytes) => bytes,
            Err(e) => {
                return Err(e);
            },
        };
        if fixed[0] != GZIP_ID1 || fixed[1] != GZIP_ID2 {
            return Err(DecodeError::BadMagic);
        }
        if fixed[2] != GZIP_DEFLATE {
            return Err(DecodeError::BadMethod);
        }
        let flags: u8 = fixed[3];
        let mtime: u32 = fixed[4] as u32 + 256 * (fixed[5] as u32) + 65536 * (fixed[6] as u32)
            + 16777216 * (fixed[7] as u32);
        let ghost data = bits.bytes();
        let extra: Option<Vec<u8>> = match read_extra(bits, flags) {
            Ok(section) => section,
            Err(e) => {
                return Err(e);
            },
        };
        let ghost after_extra = bits.position() as int / 8;
        assert(parse_extra(data, flags, GZIP_HEADER_LENGTH as int) == Ok::<
            (Option<Seq<u8>>, int),
            DecodeError,
        >((section_view(extra), after_extra)));
        let name: Option<Vec<u8>> = match read_optional_text(
            bits,
            GZipFlag::FNAME.bitand(flags) != 0,
        ) {
            Ok(section) => section,
            Err(e) => {
                return Err(e);
            },
        };
        let ghost after_name = bits.position() as int / 8;
        let comment: Option<Vec<u8>> = match read_optional_text(
            bits,
            GZipFlag::FCOMMENT.bitand(flags) != 0,
        ) {
            Ok(section) => section,
            Err(e) => {
                return Err(e);
            },
        };
        let ghost after_comment = bits.position() as int / 8;
        let header_crc: Option<u16> = match read_header_crc(bits, flags) {
            Ok(section) => section,
            Err(e) => {
                return Err(e);
            },
        };
        Ok(
            GZipHeader {
                method: fixed[2],
                flags,
                mtime,
                extra_flags: fixed[8],
                os: fixed[9],
                extra,
                name,
                comment,
                header_crc,
            },
        )
    }

    /// Reads the trailer of a member from the cursor, which stands on a
    /// byte boundary, and holds it against the decoded data.
    pub fn read_trailer(bits: &mut Bits, out: &Vec<u8>) -> (res: Result<(), DecodeError>)
        requires
            old(bits).position() % 8 == 0,
        ensures
            final(bits).bytes() == old(bits).bytes(),
            match res {
                Ok(_) => check_trailer(old(bits).bytes(), old(bits).position() as int / 8, out@)
                    == Ok::<(), DecodeError>(()) && final(bits).position() == old(
                    bits,
                ).position() + 64,
                Err(e) => check_trailer(old(bits).bytes(), old(bits).position() as int / 8, out@)
                    == Err::<(), DecodeError>(e),
            },
    {
        let stored_crc: u32 = match read_u32(bits) {
            Ok(v) => v,
            Err(e) => {
                return Err(e);
            },
        };
        let stored_size: u32 = match read_u32(bits) {
            Ok(v) => v,
            Err(e) => {
                return Err(e);
            },
        };
        let mut crc = CRC32::new();
        if crc.crc(out.as_slice()) != stored_crc {
            return Err(DecodeError::CrcMismatch);
        }
        let size: u64 = (out.len() as u64) % 0x1_0000_0000u64;
        if size != stored_size as u64 {
            return Err(DecodeError::SizeMismatch);
        }
        Ok(())
    }

    /// Decodes the gzip member `data`: its header and its data. Fails when
    /// the member is malformed or cut off, and when the decoded data does not
    /// match the trailer.
    pub fn decode(data: Vec<u8>) -> (res: Result<GZipMember, DecodeError>)
        ensures
            match res {
                Ok(member) => gzip_decode(data@) == Ok::<(GZipHeaderView, Seq<u8>), DecodeError>(
                    (member.header@, member.data@),
                ),
                Err(e) => gzip_decode(data@) == Err::<(GZipHeaderView, Seq<u8>), DecodeError>(e),
            },
    {
        let ghost bytes = data@;
        let mut bits = Bits::new(data);
        let header: GZipHeader = match GZip::read_header(&mut bits) {
            Ok(header) => header,
            Err(e) => {
                return Err(e);
            },
        };
        let ghost start = bits.position() as int / 8;
        assert(bits.position() == 8 * start);
        assert(parse_header(bytes) == Ok::<(GZipHeaderView, int), DecodeError>((header@, start)));
        let out: Vec<u8> = match inflate_stream(&mut bits) {
            Ok(out) => out,
            Err(e) => {
                return Err(e);
            },
        };
        let ghost end = bits.position() as int;
        assert(inflate(bytes, 8 * start) == Ok::<(Seq<u8>, int), DecodeError>((out@, end)));
        bits.align();
        assert(bits.position() == next_boundary(end as nat));
        match GZip::read_trailer(&mut bits, &out) {
            Ok(_) => Ok(GZipMember { header, data: out }),
            Err(e) => Err(e),
        }
    }

    /// Decompresses the gzip member `data`. Fails when the member is
    /// malformed or cut off, and when the decoded data does not match the
    /// trailer.
    pub fn decompress(data: Vec<u8>) -> (res: Result<Vec<u8>, DecodeError>)
        ensures
            match res {
                Ok(out) => gzip_decode(data@) matches Ok((_, decoded)) && decoded == out@,
                Err(e) => gzip_decode(data@) == Err::<(GZipHeaderView, Seq<u8>), DecodeError>(e),
            },
    {
        match GZip::decode(data) {
            Ok(member) => Ok(member.data),
            Err(e) => Err(e),
        }
    }
}

} // verus!
