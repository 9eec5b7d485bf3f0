use reducto::error::{DecodeError, ErrorClass};
use reducto::gzip::{BlockType, CompressionType, GZip, GZipFlag};

// "hello, stored world" in one stored block, without optional sections.
const STORED: [u8; 42] = [
    0x1f, 0x8b, 0x08, 0x00, 0x00, 0xe1, 0xf5, 0x05, 0x00, 0x03, 0x01, 0x13, 0x00, 0xec, 0xff, 0x68,
    0x65, 0x6c, 0x6c, 0x6f, 0x2c, 0x20, 0x73, 0x74, 0x6f, 0x72, 0x65, 0x64, 0x20, 0x77, 0x6f, 0x72,
    0x6c, 0x64, 0x95, 0x41, 0x4e, 0x7e, 0x13, 0x00, 0x00, 0x00,
];

// "hello hello hello" in one block with the fixed codes.
const FIXED: [u8; 28] = [
    0x1f, 0x8b, 0x08, 0x00, 0x00, 0xe1, 0xf5, 0x05, 0x00, 0x03, 0xcb, 0x48, 0xcd, 0xc9, 0xc9, 0x57,
    0xc8, 0x40, 0x90, 0x00, 0x80, 0x88, 0xf9, 0xe5, 0x11, 0x00, 0x00, 0x00,
];

// Twenty times "a": a reference one byte back that reaches into its own copy.
const OVERLAP: [u8; 23] = [
    0x1f, 0x8b, 0x08, 0x00, 0x00, 0xe1, 0xf5, 0x05, 0x00, 0x03, 0x4b, 0x4c, 0xc4, 0x04, 0x00, 0xce,
    0x8b, 0x6f, 0x26, 0x14, 0x00, 0x00, 0x00,
];

// "abcabcabc" with an extra field, a name, a comment and a header checksum.
const SECTIONS: [u8; 43] = [
    0x1f, 0x8b, 0x08, 0x1e, 0x00, 0xe1, 0xf5, 0x05, 0x00, 0x03, 0x03, 0x00, 0x01, 0x02, 0x03, 0x61,
    0x62, 0x63, 0x2e, 0x74, 0x78, 0x74, 0x00, 0x68, 0x69, 0x00, 0x6a, 0x52, 0x4b, 0x4c, 0x4a, 0x4e,
    0x04, 0x23, 0x00, 0x18, 0x48, 0x2d, 0x46, 0x09, 0x00, 0x00, 0x00,
];

// "first second first" in three blocks: fixed codes, an empty stored block,
// and fixed codes with a reference into the first block.
const BLOCKS: [u8; 41] = [
    0x1f, 0x8b, 0x08, 0x00, 0x00, 0x00, 0x00, 0x00, 0x00, 0x03, 0x4a, 0xcb, 0x2c, 0x2a, 0x2e, 0x51,
    0x00, 0x00, 0x00, 0x00, 0xff, 0xff, 0x2b, 0x4e, 0x4d, 0xce, 0xcf, 0x4b, 0x51, 0x48, 0x03, 0x71,
    0x00, 0x34, 0x67, 0x9f, 0xb1, 0x12, 0x00, 0x00, 0x00,
];

#[test]
fn stored_block_round_trips() {
    assert_eq!(GZip::decompress(STORED.to_vec()), Ok(b"hello, stored world".to_vec()));
}

#[test]
fn fixed_huffman_block_round_trips() {
    assert_eq!(GZip::decompress(FIXED.to_vec()), Ok(b"hello hello hello".to_vec()));
}

#[test]
fn reference_into_its_own_copy() {
    assert_eq!(GZip::decompress(OVERLAP.to_vec()), Ok(vec![b'a'; 20]));
}

#[test]
fn several_blocks_share_one_output() {
    assert_eq!(GZip::decompress(BLOCKS.to_vec()), Ok(b"first second first".to_vec()));
}

#[test]
fn header_sections_are_read_in_order() {
    let member = match GZip::decode(SECTIONS.to_vec()) {
        Ok(member) => member,
        Err(e) => panic!("{:?}", e),
    };
    assert_eq!(member.data, b"abcabcabc".to_vec());
    assert_eq!(member.header.method, 8);
    assert_eq!(member.header.flags, 0x1e);
    assert_eq!(member.header.mtime, 100_000_000);
    assert_eq!(member.header.extra_flags, 0);
    assert_eq!(member.header.os, 3);
    assert_eq!(member.header.extra, Some(vec![1, 2, 3]));
    assert_eq!(member.header.name, Some(b"abc.txt".to_vec()));
    assert_eq!(member.header.comment, Some(b"hi".to_vec()));
    assert_eq!(member.header.header_crc, Some(0x526a));
}

#[test]
fn header_without_sections() {
    let member = match GZip::decode(STORED.to_vec()) {
        Ok(member) => member,
        Err(e) => panic!("{:?}", e),
    };
    assert_eq!(member.header.flags, 0);
    assert_eq!(member.header.extra, None);
    assert_eq!(member.header.name, None);
    assert_eq!(member.header.comment, None);
    assert_eq!(member.header.header_crc, None);
}

#[test]
fn truncated_header_is_a_format_error() {
    for cut in 0..10 {
        let result = GZip::decompress(STORED[..cut].to_vec());
        assert_eq!(result, Err(DecodeError::UnexpectedEnd));
        assert_eq!(DecodeError::UnexpectedEnd.class(), ErrorClass::Format);
    }
}

#[test]
fn every_truncation_fails() {
    for archive in [&STORED[..], &FIXED[..], &OVERLAP[..], &SECTIONS[..], &BLOCKS[..]] {
        for cut in 0..archive.len() {
            let result = GZip::decompress(archive[..cut].to_vec());
            assert_eq!(result, Err(DecodeError::UnexpectedEnd), "cut at {}", cut);
        }
    }
}

#[test]
fn bad_magic_and_method() {
    let mut archive = STORED.to_vec();
    archive[0] = 0x1e;
    assert_eq!(GZip::decompress(archive), Err(DecodeError::BadMagic));
    let mut archive = STORED.to_vec();
    archive[1] = 0x8c;
    assert_eq!(GZip::decompress(archive), Err(DecodeError::BadMagic));
    let mut archive = STORED.to_vec();
    archive[2] = 7;
    assert_eq!(GZip::decompress(archive), Err(DecodeError::BadMethod));
    assert_eq!(DecodeError::BadMagic.class(), ErrorClass::Format);
    assert_eq!(DecodeError::BadMethod.class(), ErrorClass::Format);
}

#[test]
fn reserved_block_type() {
    let mut archive = STORED[..10].to_vec();
    archive.push(0b0000_0111);
    archive.extend_from_slice(&[0; 8]);
    assert_eq!(GZip::decompress(archive), Err(DecodeError::ReservedBlockType));
    assert_eq!(DecodeError::ReservedBlockType.class(), ErrorClass::Format);
}

#[test]
fn stored_length_and_its_complement_must_agree() {
    let mut archive = STORED.to_vec();
    archive[13] = 0xed;
    assert_eq!(GZip::decompress(archive), Err(DecodeError::BadStoredLength));
    assert_eq!(DecodeError::BadStoredLength.class(), ErrorClass::Format);
}

#[test]
fn trailer_checksum_must_match() {
    let mut archive = STORED.to_vec();
    archive[34] ^= 1;
    assert_eq!(GZip::decompress(archive), Err(DecodeError::CrcMismatch));
    let mut archive = FIXED.to_vec();
    archive[23] ^= 0x80;
    assert_eq!(GZip::decompress(archive), Err(DecodeError::CrcMismatch));
    assert_eq!(DecodeError::CrcMismatch.class(), ErrorClass::Integrity);
}

#[test]
fn trailer_size_must_match() {
    let mut archive = STORED.to_vec();
    archive[38] = 0x12;
    assert_eq!(GZip::decompress(archive), Err(DecodeError::SizeMismatch));
    assert_eq!(DecodeError::SizeMismatch.class(), ErrorClass::Integrity);
}

#[test]
fn changed_data_fails_the_checksum() {
    let mut archive = STORED.to_vec();
    archive[15] = b'j';
    assert_eq!(GZip::decompress(archive), Err(DecodeError::CrcMismatch));
}

#[test]
fn reference_before_the_start_of_the_output() {
    // One block with the fixed codes that starts with a length symbol:
    // length 3 (symbol 257, code 0000001), distance 1 (code 00000).
    let mut archive = STORED[..10].to_vec();
    // Bits in stream order: 1 (last), 1 0 (fixed), 0000001, 00000.
    archive.push(0b0000_0011);
    archive.push(0b0000_0010);
    archive.extend_from_slice(&[0; 9]);
    assert_eq!(GZip::decompress(archive), Err(DecodeError::BadReference));
    assert_eq!(DecodeError::BadReference.class(), ErrorClass::Format);
}

#[test]
fn symbols_outside_the_alphabet() {
    // One block with the fixed codes that starts with symbol 286, whose code
    // is 1100_0110.
    let mut archive = STORED[..10].to_vec();
    // Bits in stream order: 1, 1 0, then 1 1 0 0 0 1 1 0.
    archive.push(0b0001_1011);
    archive.push(0b0000_0011);
    archive.extend_from_slice(&[0; 9]);
    assert_eq!(GZip::decompress(archive), Err(DecodeError::BadSymbol));
    assert_eq!(DecodeError::BadSymbol.class(), ErrorClass::Format);
}

#[test]
fn flags_and_their_bits() {
    assert_eq!(GZipFlag::FTEXT.mask(), 0b0000_0001);
    assert_eq!(GZipFlag::FHCRC.mask(), 0b0000_0010);
    assert_eq!(GZipFlag::FEXTRA.mask(), 0b0000_0100);
    assert_eq!(GZipFlag::FNAME.mask(), 0b0000_1000);
    assert_eq!(GZipFlag::FCOMMENT.mask(), 0b0001_0000);
    assert_eq!(GZipFlag::FNAME.bitand(0x1e), 8);
    assert_eq!(GZipFlag::FTEXT.bitand(0x1e), 0);
}

#[test]
fn block_header_values() {
    assert_eq!(CompressionType::from_bits(0), CompressionType::NoCompression);
    assert_eq!(CompressionType::from_bits(1), CompressionType::FixedCompression);
    assert_eq!(CompressionType::from_bits(2), CompressionType::DynamicCompression);
    assert_eq!(CompressionType::from_bits(3), CompressionType::Error);
    assert_eq!(CompressionType::FixedCompression.code(), 1);
    assert_eq!(CompressionType::Error.code(), 3);
    assert_eq!(BlockType::from_bit(0), BlockType::NotFinal);
    assert_eq!(BlockType::from_bit(1), BlockType::Final);
    assert!(BlockType::Final.is_final());
    assert!(!BlockType::NotFinal.is_final());
}

// A member with a plain header and a trailer that fits `data`, around the
// bytes of a deflate stream.
fn member_around(stream: &[u8], data: &[u8]) -> Vec<u8> {
    let mut member = vec![0x1f, 0x8b, 0x08, 0x00, 0x15, 0xcd, 0x5b, 0x07, 0x02, 0xff];
    member.extend_from_slice(stream);
    let mut crc = reducto::crc::CRC32::new();
    member.extend_from_slice(&crc.crc(data).to_le_bytes());
    member.extend_from_slice(&(data.len() as u32).to_le_bytes());
    member
}

// One last stored block that holds `payload`.
fn stored_stream(payload: &[u8]) -> Vec<u8> {
    let length = payload.len() as u16;
    let mut stream = vec![0x01];
    stream.extend_from_slice(&length.to_le_bytes());
    stream.extend_from_slice(&(!length).to_le_bytes());
    stream.extend_from_slice(payload);
    stream
}

// One last block with the fixed codes that holds `text` as literals: a
// literal below 144 has the code `48 + literal` of eight bits, and the block
// ends with seven zero bits.
fn literal_stream(text: &[u8]) -> Vec<u8> {
    let mut bits = vec![true, true, false];
    for byte in text {
        let code = 48 + u16::from(*byte);
        for place in (0..8).rev() {
            bits.push((code >> place) & 1 == 1);
        }
    }
    bits.extend_from_slice(&[false; 7]);
    let mut stream = vec![0u8; (bits.len() + 7) / 8];
    for (i, bit) in bits.iter().enumerate() {
        if *bit {
            stream[i / 8] |= 1 << (i % 8);
        }
    }
    stream
}

#[test]
fn stored_members_round_trip_their_payload() {
    for payload in [&b""[..], &b"a"[..], &b"hello, stored world"[..], &[0u8; 300][..], &[0xffu8; 65535][..]] {
        let member = member_around(&stored_stream(payload), payload);
        let decoded = match GZip::decode(member) {
            Ok(decoded) => decoded,
            Err(e) => panic!("{:?}", e),
        };
        assert_eq!(decoded.data, payload.to_vec());
        assert_eq!(decoded.header.mtime, 0x075b_cd15);
        assert_eq!(decoded.header.extra_flags, 2);
        assert_eq!(decoded.header.os, 0xff);
    }
}

#[test]
fn members_of_literals_round_trip_their_text() {
    for text in [&b""[..], &b"a"[..], &b"Hi"[..], &b"a short ASCII string"[..], &[0x7fu8; 1000][..]] {
        let member = member_around(&literal_stream(text), text);
        assert_eq!(GZip::decompress(member), Ok(text.to_vec()));
    }
    let all: Vec<u8> = (0..144).collect();
    assert_eq!(GZip::decompress(member_around(&literal_stream(&all), &all)), Ok(all));
}
