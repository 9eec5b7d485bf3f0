use reducto::error::{DecodeError, ErrorClass};
use reducto::gzip::GZip;

// A short text in one block with codes of its own.
const DYNAMIC_SMALL: [u8; 53] = [
    0x1f, 0x8b, 0x08, 0x00, 0x00, 0x00, 0x00, 0x00, 0x00, 0x03, 0x0d, 0xc9, 0x47, 0x0d, 0x00, 0x00,
    0x0c, 0x03, 0x31, 0x2a, 0x47, 0x2d, 0x89, 0x3a, 0xf8, 0x23, 0x68, 0x9f, 0x96, 0x95, 0x41, 0x02,
    0x0b, 0x43, 0xa7, 0x91, 0xbd, 0xd5, 0x59, 0x95, 0x48, 0x9e, 0xc3, 0xf7, 0x01, 0xf8, 0x93, 0xc0,
    0xa5, 0x28, 0x00, 0x00, 0x00,
];
// A sentence in one block with codes of its own.
const DYNAMIC_TEXT: [u8; 117] = [
    0x1f, 0x8b, 0x08, 0x00, 0x00, 0x00, 0x00, 0x00, 0x00, 0x03, 0x75, 0xcd, 0xc1, 0x09, 0x80, 0x30,
    0x10, 0x44, 0xd1, 0x56, 0xb6, 0x00, 0xcb, 0xf0, 0x22, 0xd8, 0x44, 0xd4, 0x49, 0xb2, 0x18, 0xb3,
    0x92, 0x5d, 0x09, 0x76, 0x2f, 0x39, 0x89, 0x10, 0xcf, 0xef, 0x0f, 0x33, 0x19, 0x55, 0xa7, 0x64,
    0x11, 0xb4, 0x40, 0x8d, 0xc4, 0x93, 0xf1, 0x01, 0x1d, 0x88, 0x5f, 0xa9, 0x52, 0xfe, 0xc8, 0x05,
    0x34, 0xa8, 0xac, 0x9b, 0x1c, 0x3d, 0xf1, 0x22, 0x89, 0x35, 0x66, 0xe8, 0x77, 0x88, 0x53, 0xd6,
    0xd8, 0x82, 0x05, 0x89, 0xe1, 0xfb, 0xc6, 0x79, 0x2d, 0xd8, 0xae, 0xc4, 0x76, 0x7f, 0x02, 0x85,
    0x53, 0xc9, 0xad, 0x98, 0x39, 0x44, 0xfb, 0xb1, 0xd1, 0x95, 0xbd, 0xfd, 0x3e, 0xc2, 0x83, 0xc5,
    0xc7, 0xe4, 0x00, 0x00, 0x00,
];
// Four hundred words in one block with codes of its own, with references far back.
const DYNAMIC_LONG: [u8; 399] = [
    0x1f, 0x8b, 0x08, 0x00, 0x00, 0x00, 0x00, 0x00, 0x00, 0x03, 0x7d, 0x55, 0x5b, 0x6e, 0xc3, 0x30,
    0x0c, 0xbb, 0x4a, 0xae, 0x16, 0x21, 0xc6, 0x3a, 0x20, 0x7d, 0x00, 0xcb, 0x97, 0x4e, 0xbf, 0x75,
    0xb6, 0x63, 0x92, 0x66, 0xfa, 0xd1, 0xd4, 0x91, 0x15, 0x3d, 0x28, 0x4a, 0xda, 0xca, 0x7e, 0xac,
    0xcb, 0xd7, 0x7a, 0xbf, 0xaf, 0x4b, 0x96, 0xbf, 0xe3, 0x71, 0x7b, 0x3f, 0xe3, 0xfd, 0x58, 0xf7,
    0xd7, 0xad, 0x0b, 0xca, 0xeb, 0xe7, 0x7b, 0x7f, 0x3e, 0x96, 0xed, 0x5f, 0xbf, 0x3e, 0xeb, 0x4d,
    0xbb, 0x3f, 0xad, 0x6c, 0x60, 0x71, 0x58, 0x89, 0xa1, 0x50, 0x05, 0xdd, 0x20, 0xbf, 0x0d, 0x63,
    0xfd, 0x57, 0x25, 0x10, 0x20, 0x84, 0x56, 0xa5, 0x55, 0xa3, 0xba, 0xed, 0x76, 0x8a, 0x9e, 0x8f,
    0xf6, 0xf5, 0x50, 0xcd, 0x61, 0xa7, 0x6b, 0xaa, 0x17, 0xb1, 0xd9, 0xfe, 0xe3, 0xbc, 0x47, 0x00,
    0xe2, 0x74, 0x11, 0x8c, 0x07, 0xbb, 0xe8, 0x77, 0x90, 0x45, 0x53, 0x38, 0x23, 0x24, 0xa4, 0x1d,
    0x58, 0x21, 0x06, 0x5a, 0x98, 0x26, 0x54, 0x8c, 0x20, 0x4f, 0x0f, 0x59, 0xa8, 0x40, 0x5c, 0xc4,
    0x50, 0xe8, 0x3e, 0x00, 0xdb, 0xfe, 0x11, 0x49, 0x01, 0x56, 0x50, 0x00, 0x86, 0xe5, 0x94, 0x70,
    0x95, 0x23, 0x26, 0xf0, 0x91, 0x10, 0x04, 0x3d, 0x43, 0xd5, 0xe0, 0x98, 0x2e, 0x52, 0xcb, 0x1f,
    0x06, 0x9c, 0xdf, 0x04, 0xaa, 0xe0, 0x4a, 0x67, 0x91, 0x5e, 0xa8, 0x9a, 0x61, 0xef, 0xd8, 0xf0,
    0x54, 0x3e, 0xf4, 0x84, 0xd9, 0x85, 0xab, 0x98, 0xa4, 0x05, 0x88, 0x3a, 0xe2, 0x6b, 0x2d, 0x90,
    0x59, 0xa3, 0xf0, 0x46, 0x8a, 0x71, 0x40, 0xd8, 0xd4, 0x08, 0xf8, 0x99, 0xd2, 0x11, 0xa5, 0xd0,
    0x25, 0x0e, 0xf6, 0x11, 0x23, 0x70, 0xdc, 0x60, 0x82, 0x24, 0x81, 0xb8, 0x20, 0xba, 0xd0, 0x44,
    0x5d, 0x33, 0x8c, 0xb4, 0xb9, 0xc1, 0x66, 0xb2, 0xa3, 0x7e, 0x6a, 0x52, 0x68, 0x32, 0x24, 0x78,
    0x8c, 0x34, 0x84, 0xf7, 0x3a, 0x68, 0x92, 0xa6, 0x1e, 0xc2, 0x6e, 0xe8, 0x28, 0x49, 0x0e, 0xe4,
    0xe2, 0x43, 0xbb, 0x15, 0x83, 0xb1, 0x76, 0x23, 0x0f, 0x03, 0x2c, 0x26, 0xc3, 0x12, 0x4c, 0x19,
    0xeb, 0x35, 0x27, 0xa2, 0x00, 0x01, 0xcc, 0xbc, 0x44, 0x98, 0xa9, 0x78, 0x8c, 0xa1, 0x9d, 0xad,
    0x6a, 0x05, 0xdc, 0xd9, 0xd9, 0x8d, 0x99, 0xe9, 0x2c, 0x4d, 0x69, 0x63, 0xdc, 0x66, 0xd4, 0xcd,
    0x53, 0xa1, 0xa6, 0xf2, 0x38, 0x84, 0x74, 0xa3, 0x8d, 0x13, 0xf8, 0xc4, 0xb5, 0x82, 0xca, 0xae,
    0x6f, 0x80, 0x49, 0xd7, 0x83, 0x9a, 0x6f, 0xae, 0x36, 0xee, 0x85, 0xc1, 0x74, 0x31, 0xe3, 0xce,
    0x45, 0xba, 0x48, 0x91, 0x51, 0x38, 0x35, 0xaa, 0x9b, 0xb7, 0xae, 0x63, 0xdd, 0x1a, 0x9d, 0xca,
    0xef, 0x66, 0x74, 0xe8, 0x3e, 0xfb, 0x05, 0x6f, 0x12, 0x73, 0x2e, 0xed, 0x08, 0x00, 0x00,
];
// Long runs and a ramp of all bytes in one block with the fixed codes.
const FIXED_RUNS: [u8; 302] = [
    0x1f, 0x8b, 0x08, 0x00, 0x00, 0x00, 0x00, 0x00, 0x00, 0x03, 0x63, 0x60, 0x18, 0x05, 0xc4, 0x02,
    0x46, 0x26, 0x66, 0x16, 0xd6, 0x61, 0x40, 0xfc, 0x1f, 0x26, 0x00, 0x12, 0x21, 0x6c, 0xec, 0x1c,
    0x9c, 0x5c, 0xdc, 0x3c, 0xbc, 0x7c, 0xfc, 0x02, 0x82, 0x42, 0xc2, 0x22, 0xa2, 0x62, 0xe2, 0x12,
    0x92, 0x52, 0xd2, 0x32, 0xb2, 0x72, 0xf2, 0x0a, 0x8a, 0x4a, 0xca, 0x2a, 0xaa, 0x6a, 0xea, 0x1a,
    0x9a, 0x5a, 0xda, 0x3a, 0xba, 0x7a, 0xfa, 0x06, 0x86, 0x46, 0xc6, 0x26, 0xa6, 0x66, 0xe6, 0x16,
    0x96, 0x56, 0xd6, 0x36, 0xb6, 0x76, 0xf6, 0x0e, 0x8e, 0x4e, 0xce, 0x2e, 0xae, 0x6e, 0xee, 0x1e,
    0x9e, 0x5e, 0xde, 0x3e, 0xbe, 0x7e, 0xfe, 0x01, 0x81, 0x41, 0xc1, 0x21, 0xa1, 0x61, 0xe1, 0x11,
    0x91, 0x51, 0xd1, 0x31, 0xb1, 0x71, 0xf1, 0x09, 0x89, 0x49, 0xc9, 0x29, 0xa9, 0x69, 0xe9, 0x19,
    0x99, 0x59, 0xd9, 0x39, 0xb9, 0x79, 0xf9, 0x05, 0x85, 0x45, 0xc5, 0x25, 0xa5, 0x65, 0xe5, 0x15,
    0x95, 0x55, 0xd5, 0x35, 0xb5, 0x75, 0xf5, 0x0d, 0x8d, 0x4d, 0xcd, 0x2d, 0xad, 0x6d, 0xed, 0x1d,
    0x9d, 0x5d, 0xdd, 0x3d, 0xbd, 0x7d, 0xfd, 0x13, 0x26, 0x4e, 0x9a, 0x3c, 0x65, 0xea, 0xb4, 0xe9,
    0x33, 0x66, 0xce, 0x9a, 0x3d, 0x67, 0xee, 0xbc, 0xf9, 0x0b, 0x16, 0x2e, 0x5a, 0xbc, 0x64, 0xe9,
    0xb2, 0xe5, 0x2b, 0x56, 0xae, 0x5a, 0xbd, 0x66, 0xed, 0xba, 0xf5, 0x1b, 0x36, 0x6e, 0xda, 0xbc,
    0x65, 0xeb, 0xb6, 0xed, 0x3b, 0x76, 0xee, 0xda, 0xbd, 0x67, 0xef, 0xbe, 0xfd, 0x07, 0x0e, 0x1e,
    0x3a, 0x7c, 0xe4, 0xe8, 0xb1, 0xe3, 0x27, 0x4e, 0x9e, 0x3a, 0x7d, 0xe6, 0xec, 0xb9, 0xf3, 0x17,
    0x2e, 0x5e, 0xba, 0x7c, 0xe5, 0xea, 0xb5, 0xeb, 0x37, 0x6e, 0xde, 0xba, 0x7d, 0xe7, 0xee, 0xbd,
    0xfb, 0x0f, 0x1e, 0x3e, 0x7a, 0xfc, 0xe4, 0xe9, 0xb3, 0xe7, 0x2f, 0x5e, 0xbe, 0x7a, 0xfd, 0xe6,
    0xed, 0xbb, 0xf7, 0x1f, 0x3e, 0x7e, 0xfa, 0xfc, 0xe5, 0xeb, 0xb7, 0xef, 0x3f, 0x7e, 0xfe, 0xfa,
    0xfd, 0xe7, 0xef, 0xbf, 0xff, 0x00, 0xc4, 0xae, 0x33, 0x84, 0xbc, 0x03, 0x00, 0x00,
];
// A block that gives 288 literal and length codes.
const TOO_MANY_CODES: [u8; 37] = [
    0x1f, 0x8b, 0x08, 0x00, 0x00, 0x00, 0x00, 0x00, 0x00, 0x03, 0xfd, 0x00, 0x00, 0x00, 0x00, 0x00,
    0x00, 0x00, 0x00, 0x00, 0x00, 0x00, 0x00, 0x00, 0x00, 0x00, 0x00, 0x00, 0x00, 0x00, 0x00, 0x00,
    0x00, 0x00, 0x00, 0x00, 0x00,
];
// A block whose first code length repeats the one before it.
const NOTHING_TO_REPEAT: [u8; 38] = [
    0x1f, 0x8b, 0x08, 0x00, 0x00, 0x00, 0x00, 0x00, 0x00, 0x03, 0x05, 0x00, 0x02, 0x00, 0x00, 0x00,
    0x00, 0x00, 0x00, 0x00, 0x00, 0x00, 0x00, 0x00, 0x00, 0x00, 0x00, 0x00, 0x00, 0x00, 0x00, 0x00,
    0x00, 0x00, 0x00, 0x00, 0x00, 0x00,
];
// A block whose code length code has three codes of one bit.
const OVERSUBSCRIBED: [u8; 38] = [
    0x1f, 0x8b, 0x08, 0x00, 0x00, 0x00, 0x00, 0x00, 0x00, 0x03, 0x05, 0x00, 0x92, 0x00, 0x00, 0x00,
    0x00, 0x00, 0x00, 0x00, 0x00, 0x00, 0x00, 0x00, 0x00, 0x00, 0x00, 0x00, 0x00, 0x00, 0x00, 0x00,
    0x00, 0x00, 0x00, 0x00, 0x00, 0x00,
];
// A block whose literal and length code has no code at all.
const NO_END_OF_BLOCK: [u8; 40] = [
    0x1f, 0x8b, 0x08, 0x00, 0x00, 0x00, 0x00, 0x00, 0x00, 0x03, 0x05, 0x00, 0x80, 0xe4, 0x7f, 0x1b,
    0x00, 0x00, 0x00, 0x00, 0x00, 0x00, 0x00, 0x00, 0x00, 0x00, 0x00, 0x00, 0x00, 0x00, 0x00, 0x00,
    0x00, 0x00, 0x00, 0x00, 0x00, 0x00, 0x00, 0x00,
];
// A block whose repeats give more code lengths than it has codes.
const TOO_MANY_LENGTHS: [u8; 40] = [
    0x1f, 0x8b, 0x08, 0x00, 0x00, 0x00, 0x00, 0x00, 0x00, 0x03, 0x05, 0x00, 0x80, 0xe4, 0xff, 0x1f,
    0x00, 0x00, 0x00, 0x00, 0x00, 0x00, 0x00, 0x00, 0x00, 0x00, 0x00, 0x00, 0x00, 0x00, 0x00, 0x00,
    0x00, 0x00, 0x00, 0x00, 0x00, 0x00, 0x00, 0x00,
];
fn long_text() -> Vec<u8> {
    // The words are drawn by a fixed rule; the archive holds the same text.
    match GZip::decompress(DYNAMIC_LONG.to_vec()) {
        Ok(text) => text,
        Err(e) => panic!("{:?}", e),
    }
}

#[test]
fn dynamic_blocks_round_trip() {
    assert_eq!(
        GZip::decompress(DYNAMIC_SMALL.to_vec()),
        Ok(b"acg aa  ba b  fcf abbhefchaea cc abg   b".to_vec())
    );
    assert_eq!(
        GZip::decompress(DYNAMIC_TEXT.to_vec()),
        Ok(b"It was the best of times, it was the worst of times, it was the age of wisdom, \
             it was the age of foolishness, it was the epoch of belief, it was the epoch of \
             incredulity, it was the season of Light, it was the season of Darkness"
            .to_vec())
    );
}

#[test]
fn dynamic_block_with_far_references() {
    let text = long_text();
    assert_eq!(text.len(), 2285);
    assert!(text.starts_with(b"delta gamma zeta "));
    assert!(text.ends_with(b"beta beta epsilon"));
    let words = text.split(|b| *b == b' ').count();
    assert_eq!(words, 400);
}

#[test]
fn fixed_block_with_long_runs() {
    let mut expected = vec![0u8; 300];
    for _ in 0..40 {
        expected.extend_from_slice(&[1, 2, 3, 4, 5]);
    }
    expected.extend_from_slice(&[255; 200]);
    expected.extend(0..=255u8);
    assert_eq!(GZip::decompress(FIXED_RUNS.to_vec()), Ok(expected));
}

#[test]
fn truncated_dynamic_members_fail() {
    for archive in [&DYNAMIC_SMALL[..], &DYNAMIC_TEXT[..], &FIXED_RUNS[..]] {
        for cut in 0..archive.len() {
            let result = GZip::decompress(archive[..cut].to_vec());
            assert_eq!(result, Err(DecodeError::UnexpectedEnd), "cut at {}", cut);
        }
    }
}

#[test]
fn code_lengths_that_make_no_code_are_refused() {
    assert_eq!(GZip::decompress(TOO_MANY_CODES.to_vec()), Err(DecodeError::BadCodeLengths));
    assert_eq!(GZip::decompress(NOTHING_TO_REPEAT.to_vec()), Err(DecodeError::BadCodeLengths));
    assert_eq!(GZip::decompress(OVERSUBSCRIBED.to_vec()), Err(DecodeError::BadCodeLengths));
    assert_eq!(GZip::decompress(NO_END_OF_BLOCK.to_vec()), Err(DecodeError::BadCodeLengths));
    assert_eq!(GZip::decompress(TOO_MANY_LENGTHS.to_vec()), Err(DecodeError::BadCodeLengths));
    assert_eq!(DecodeError::BadCodeLengths.class(), ErrorClass::Format);
}
