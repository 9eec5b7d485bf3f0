use reducto::deflate::Deflate;
use reducto::error::{DecodeError, ErrorClass};

fn cycle(text: &str, window_size: usize, dictionary_size: usize) {
    let mut deflate = Deflate::new(window_size, dictionary_size);
    let compressed = deflate.compress(text);
    assert!(compressed.chars().all(|c| c == '0' || c == '1'));
    assert_eq!(deflate.decompress(&compressed), Ok(String::from(text)));
}

#[test]
fn one_cycle_gives_back_the_text() {
    cycle("aacaacabcabaaac", 4, 6);
    cycle("LZ77 présente certains défauts, en particulier", 4, 6);
    cycle("網站有中、英文版本，也有繁、簡體版，可通過每頁左上角的連結隨時調整。", 8, 16);
    cycle("", 4, 6);
    cycle("a", 1, 1);
    let long: String = (0..2000u32).map(|i| char::from(b'a' + ((i * i) % 11) as u8)).collect();
    cycle(&long, 16, 32);
    cycle(&long, 255, 255);
}

#[test]
fn compressed_bits_of_small_texts() {
    let mut deflate = Deflate::new(4, 6);
    assert_eq!(
        deflate.compress("aacaacabcabaaac"),
        "00000011010101011111010101110000000111100101011101010101101110101110"
    );
    assert_eq!(Deflate::new(4, 6).compress("ab"), "1110011101");
    assert_eq!(Deflate::new(4, 6).compress("a"), "1110");
    assert_eq!(Deflate::new(4, 6).compress(""), "");
}

#[test]
fn decompression_replays_the_tokens_of_the_codec() {
    let mut deflate = Deflate::new(4, 6);
    deflate.compress("aacaacabcabaaac");
    // The bit string that is handed over plays no part.
    assert_eq!(deflate.decompress(""), Ok(String::from("aacaacabcabaaac")));
    assert_eq!(deflate.decompress("0101"), Ok(String::from("aacaacabcabaaac")));
}

#[test]
fn decompression_before_compression_is_a_usage_error() {
    let deflate = Deflate::new(4, 6);
    assert_eq!(deflate.decompress("0101"), Err(DecodeError::NothingCompressed));
    assert_eq!(DecodeError::NothingCompressed.class(), ErrorClass::Usage);
}

#[test]
fn compressing_nothing_counts_as_compressing() {
    let mut deflate = Deflate::new(4, 6);
    assert_eq!(deflate.compress(""), "");
    assert_eq!(deflate.decompress(""), Ok(String::new()));
}
