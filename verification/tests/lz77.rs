use reducto::error::{DecodeError, ErrorClass};
use reducto::lz77::{find_subvec_in_vec, LZ77Match, LZ77Node, LZ77NodeMatch, LZ77};

fn node(offset: usize, length: usize, next: Option<u8>) -> LZ77Node {
    let next_match = match next {
        Some(byte) => LZ77NodeMatch::NextMatch(byte),
        None => LZ77NodeMatch::EndOfData,
    };
    LZ77Node::new(offset, length, next_match)
}

fn tokens_of(text: &str, window_size: usize, dictionary_size: usize) -> Vec<LZ77Node> {
    let mut lz77 = LZ77::new(window_size, dictionary_size);
    lz77.encode(text);
    lz77.iter().copied().collect()
}

fn round_trip(text: &str, window_size: usize, dictionary_size: usize) {
    let mut lz77 = LZ77::new(window_size, dictionary_size);
    lz77.encode(text);
    assert_eq!(lz77.decode(), Ok(String::from(text)));
}

#[test]
fn tokens_of_a_small_text() {
    assert_eq!(
        tokens_of("aacaacabcabaaac", 4, 6),
        vec![
            node(0, 0, Some(b'a')),
            node(1, 1, Some(b'c')),
            node(3, 3, Some(b'a')),
            node(0, 0, Some(b'b')),
            node(3, 3, Some(b'a')),
            node(1, 1, Some(b'a')),
            node(6, 1, None),
        ]
    );
}

#[test]
fn of_runs_of_the_same_length_the_nearest_is_taken() {
    // At the last position "a" stands one, three and four bytes back.
    assert_eq!(
        tokens_of("abaaba", 2, 8),
        vec![
            node(0, 0, Some(b'a')),
            node(0, 0, Some(b'b')),
            node(2, 1, Some(b'a')),
            node(3, 1, Some(b'a')),
        ]
    );
    assert_eq!(
        tokens_of("aaaaaaaa", 8, 8),
        vec![node(0, 0, Some(b'a')), node(1, 1, Some(b'a')), node(3, 3, Some(b'a')), node(1, 1, None)]
    );
}

#[test]
fn a_run_is_shorter_than_the_window() {
    assert_eq!(
        tokens_of("abcabcabcabc", 5, 3),
        vec![
            node(0, 0, Some(b'a')),
            node(0, 0, Some(b'b')),
            node(0, 0, Some(b'c')),
            node(3, 3, Some(b'a')),
            node(3, 3, Some(b'b')),
            node(3, 1, None),
        ]
    );
    for text in ["aaaaaaaaaaaaaaaaaaaaaaaa", "abababababababab", "aacaacabcabaaac"] {
        for window_size in 1..9 {
            for token in tokens_of(text, window_size, 255) {
                assert!(token.length < window_size);
            }
        }
    }
}

#[test]
fn window_of_one_gives_literals_only() {
    let text = "aacaacabcabaaac";
    let tokens = tokens_of(text, 1, 6);
    assert_eq!(tokens.len(), text.len());
    for (token, byte) in tokens.iter().zip(text.bytes()) {
        assert_eq!(*token, node(0, 0, Some(byte)));
    }
    round_trip(text, 1, 6);
    round_trip("aaaaaaaa", 1, 255);
}

#[test]
fn dictionary_of_one_matches_the_byte_before_only() {
    let tokens = tokens_of("aacaacabcabaaac", 4, 1);
    assert_eq!(
        tokens,
        vec![
            node(0, 0, Some(b'a')),
            node(1, 1, Some(b'c')),
            node(0, 0, Some(b'a')),
            node(1, 1, Some(b'c')),
            node(0, 0, Some(b'a')),
            node(0, 0, Some(b'b')),
            node(0, 0, Some(b'c')),
            node(0, 0, Some(b'a')),
            node(0, 0, Some(b'b')),
            node(0, 0, Some(b'a')),
            node(1, 1, Some(b'a')),
            node(0, 0, Some(b'c')),
        ]
    );
    for token in tokens_of("aaaabbbbaaaabbbb", 200, 1) {
        assert!(token.offset <= 1);
        assert!(token.length <= 1);
    }
    round_trip("aaaabbbbaaaabbbb", 200, 1);
}

#[test]
fn coding_and_decoding_give_back_the_text() {
    let texts = [
        "",
        "a",
        "ab",
        "aacaacabcabaaac",
        "LZ77 présente certains défauts, en particulier",
        "網站有中、英文版本，也有繁、簡體版，可通過每頁左上角的連結隨時調整。",
        "Lorem ipsum dolor sit amet, consectetur adipiscing elit, sed do eiusmod tempor \
         incididunt ut labore et dolore magna aliqua. Lorem ipsum dolor sit amet.",
    ];
    for text in texts {
        for (window_size, dictionary_size) in
            [(4, 6), (16, 32), (8, 16), (1, 1), (255, 255), (2, 255), (255, 1)]
        {
            round_trip(text, window_size, dictionary_size);
        }
    }
}

#[test]
fn bytes_round_trip() {
    let data: Vec<u8> = (0..2000u32).map(|i| ((i * i) % 7) as u8 + 0xf0).collect();
    let mut lz77 = LZ77::new(32, 64);
    lz77.encode_bytes(&data);
    assert_eq!(lz77.decode_bytes(), Ok(data.clone()));
    assert_eq!(LZ77::decode_tokens(lz77.nodes()), Ok(data));
}

#[test]
fn empty_text_has_no_tokens() {
    assert_eq!(tokens_of("", 4, 6), Vec::new());
    let lz77 = LZ77::new(4, 6);
    assert_eq!(lz77.decode(), Ok(String::new()));
    assert_eq!(lz77.sizes(), (4, 6));
}

#[test]
fn a_second_text_goes_on_from_the_position() {
    let mut lz77 = LZ77::new(4, 6);
    lz77.encode("ab");
    // Coding stopped behind the second byte; "abab" is coded from there on.
    lz77.encode("abab");
    let tokens: Vec<LZ77Node> = lz77.iter().copied().collect();
    assert_eq!(tokens, vec![node(0, 0, Some(b'a')), node(0, 0, Some(b'b')), node(2, 2, None)]);
    assert_eq!(lz77.decode(), Ok(String::from("abab")));
}

#[test]
fn a_run_may_reach_into_its_own_copy() {
    let tokens = [node(0, 0, Some(b'a')), node(1, 5, None)];
    assert_eq!(LZ77::decode_tokens(&tokens), Ok(b"aaaaaa".to_vec()));
    let tokens = [node(0, 0, Some(b'a')), node(0, 0, Some(b'b')), node(2, 5, Some(b'!'))];
    assert_eq!(LZ77::decode_tokens(&tokens), Ok(b"abababa!".to_vec()));
}

#[test]
fn decoding_stops_at_the_end_marker() {
    let tokens = [node(0, 0, Some(b'a')), node(0, 0, None), node(0, 0, Some(b'b'))];
    assert_eq!(LZ77::decode_tokens(&tokens), Ok(b"a".to_vec()));
}

#[test]
fn a_reference_before_the_start_is_refused() {
    let tokens = [node(0, 0, Some(b'a')), node(2, 1, Some(b'b'))];
    assert_eq!(LZ77::decode_tokens(&tokens), Err(DecodeError::BadReference));
    let tokens = [node(0, 0, Some(b'a')), node(0, 1, Some(b'b'))];
    assert_eq!(LZ77::decode_tokens(&tokens), Err(DecodeError::BadReference));
    let tokens = [node(1, 1, None)];
    assert_eq!(LZ77::decode_tokens(&tokens), Err(DecodeError::BadReference));
    assert_eq!(DecodeError::BadReference.class(), ErrorClass::Format);
}

#[test]
fn bytes_that_are_no_text_are_refused() {
    let mut lz77 = LZ77::new(4, 6);
    lz77.encode_bytes(&[0xff, 0xfe]);
    assert_eq!(lz77.decode_bytes(), Ok(vec![0xff, 0xfe]));
    assert_eq!(lz77.decode(), Err(DecodeError::BadText));
    assert_eq!(DecodeError::BadText.class(), ErrorClass::Format);
}

#[test]
fn places_at_which_a_target_starts() {
    assert_eq!(find_subvec_in_vec(b"abcab", b"ab"), vec![(3, 2), (0, 2)]);
    assert_eq!(find_subvec_in_vec(b"abcab", b"ac"), vec![(3, 1), (0, 1)]);
    assert_eq!(find_subvec_in_vec(b"abcab", b"abc"), vec![(3, 2), (0, 3)]);
    assert_eq!(find_subvec_in_vec(b"abcab", b"x"), Vec::new());
    assert_eq!(find_subvec_in_vec(b"abcab", b""), Vec::new());
    assert_eq!(find_subvec_in_vec(b"ab", b"abc"), Vec::new());
    assert_eq!(find_subvec_in_vec(b"aaa", b"aa"), vec![(2, 1), (1, 2), (0, 2)]);
}

#[test]
fn candidates_are_ordered_by_length() {
    let short = LZ77Match::new(vec![1], 9);
    let long = LZ77Match::new(vec![1, 2, 3], 2);
    assert_eq!(short.len(), 1);
    assert_eq!(long.len(), 3);
    assert_eq!(long.index(), 2);
    assert!(long.longer_than(&short));
    assert!(!short.longer_than(&long));
    assert!(!short.longer_than(&LZ77Match::new(vec![7], 0)));
    assert_eq!(LZ77Match::none().len(), 0);
    assert_eq!(LZ77Match::none().index(), 0);
}

#[test]
fn bytes_of_a_token() {
    assert_eq!(node(3, 2, Some(b'x')).to_vec_u8(), vec![3, 2, 3, b'x']);
    assert_eq!(node(6, 1, None).to_vec_u8(), vec![6, 1, 6]);
    assert_eq!(node(0, 0, Some(0)).to_vec_u8(), vec![0, 0, 0, 0]);
    assert_eq!(node(258, 513, None).to_vec_u8(), vec![2, 1, 2]);
}
