use reducto::error::{DecodeError, ErrorClass};
use reducto::huffman::{count_symbols, Huffman, HuffmanNode, HuffmanTree, SymbolCode, SymbolCount};

fn code(symbol: char, code: &str) -> SymbolCode {
    SymbolCode { symbol, code: code.chars().collect() }
}

fn round_trip(text: &str) {
    let mut huffman = Huffman::new();
    let bits = huffman.encode(text);
    assert!(bits.chars().all(|c| c == '0' || c == '1'));
    assert_eq!(huffman.decode(&bits), text);
}

#[test]
fn tie_goes_to_the_smaller_symbol() {
    // 'a' and 'b' both occur once: 'a' goes left and gets the bit 0.
    let mut huffman = Huffman::new();
    assert_eq!(huffman.encode("abcc"), "101100");
    assert_eq!(huffman.codes(), &vec![code('c', "0"), code('a', "10"), code('b', "11")]);
    let mut huffman = Huffman::new();
    assert_eq!(huffman.encode("ccba"), "001110");
    assert_eq!(huffman.codes(), &vec![code('c', "0"), code('a', "10"), code('b', "11")]);
}

#[test]
fn codes_of_some_texts() {
    let mut huffman = Huffman::new();
    assert_eq!(huffman.encode("abracadabra"), "01101110100010101101110");
    assert_eq!(
        huffman.codes(),
        &vec![code('a', "0"), code('c', "100"), code('d', "101"), code('b', "110"), code('r', "111")]
    );
    assert_eq!(huffman.encode("hello world"), "00100010101101110011110010101111");
    assert_eq!(
        huffman.codes(),
        &vec![
            code('e', "000"),
            code('h', "001"),
            code('r', "010"),
            code('w', "011"),
            code('l', "10"),
            code('o', "110"),
            code(' ', "1110"),
            code('d', "1111"),
        ]
    );
}

#[test]
fn a_single_symbol_has_a_code_of_one_bit() {
    let mut huffman = Huffman::new();
    assert_eq!(huffman.encode("aaaa"), "0000");
    assert_eq!(huffman.codes(), &vec![code('a', "0")]);
    assert_eq!(huffman.decode("0000"), "aaaa");
    assert_eq!(huffman.encode("$"), "0");
    assert_eq!(huffman.decode("0"), "$");
}

#[test]
fn the_empty_text() {
    let mut huffman = Huffman::new();
    assert_eq!(huffman.encode(""), "");
    assert!(huffman.codes().is_empty());
    assert_eq!(huffman.decode(""), "");
}

#[test]
fn decoding_undoes_coding() {
    for text in [
        "",
        "a",
        "ab",
        "abc",
        "aabbcc",
        "abracadabra",
        "the sentinel $ is a symbol like any other: $$$",
        "LZ77 présente certains défauts, en particulier",
        "網站有中、英文版本，也有繁、簡體版，可通過每頁左上角的連結隨時調整。",
        "0101 the text may hold the characters 0 and 1 itself 1010",
    ] {
        round_trip(text);
    }
    let long: String = (0..3000u32).map(|i| char::from(b'a' + ((i * i + i / 7) % 23) as u8)).collect();
    round_trip(&long);
}

#[test]
fn every_coding_builds_the_code_anew() {
    let mut huffman = Huffman::new();
    huffman.encode("abcc");
    assert_eq!(huffman.encode("xy"), "01");
    assert_eq!(huffman.codes(), &vec![code('x', "0"), code('y', "1")]);
    assert_eq!(huffman.decode("10"), "yx");
    huffman.huffman_encode("zzz");
    assert_eq!(huffman.codes(), &vec![code('z', "0")]);
}

#[test]
fn a_coder_without_a_code_decodes_to_nothing() {
    let huffman = Huffman::new();
    assert_eq!(huffman.decode("0110"), "");
    assert_eq!(huffman.decode(""), "");
    assert_eq!(huffman.decode("anything"), "");
}

#[test]
fn checked_decoding_fails_without_a_code() {
    let mut huffman = Huffman::new();
    assert_eq!(huffman.try_decode("0110"), Err(DecodeError::NothingEncoded));
    assert_eq!(huffman.try_decode(""), Err(DecodeError::NothingEncoded));
    assert_eq!(DecodeError::NothingEncoded.class(), ErrorClass::Usage);
    let bits = huffman.encode("abcc");
    assert_eq!(huffman.try_decode(&bits), Ok(String::from("abcc")));
    huffman.encode("");
    assert_eq!(huffman.try_decode(""), Ok(String::new()));
    assert_eq!(huffman.try_decode("01"), Ok(String::new()));
}

#[test]
fn bits_left_over_stand_for_nothing() {
    let mut huffman = Huffman::new();
    huffman.huffman_encode("abcc");
    assert_eq!(huffman.decode("1"), "");
    assert_eq!(huffman.decode("101"), "a");
    assert_eq!(huffman.decode("0x10"), "c");
    assert_eq!(huffman.decode("011100"), "cbac");
}

#[test]
fn characters_in_and_out() {
    let mut huffman = Huffman::new();
    let text: Vec<char> = "abcc".chars().collect();
    let bits = huffman.encode_chars(&text);
    assert_eq!(bits, "101100".chars().collect::<Vec<char>>());
    assert_eq!(huffman.decode_chars(&bits), text);
}

#[test]
fn symbols_are_counted_in_order() {
    let text: Vec<char> = "banana".chars().collect();
    assert_eq!(
        count_symbols(&text),
        vec![
            SymbolCount { symbol: 'a', count: 3 },
            SymbolCount { symbol: 'b', count: 1 },
            SymbolCount { symbol: 'n', count: 2 },
        ]
    );
    assert_eq!(count_symbols(&Vec::new()), Vec::new());
}

#[test]
fn the_tree_of_a_text() {
    let mut tree = HuffmanTree::new();
    let text: Vec<char> = "abcc".chars().collect();
    tree.encode(&text);
    assert_eq!(tree.extract_encoding(), vec![code('c', "0"), code('a', "10"), code('b', "11")]);
    let root = tree.pop().unwrap();
    assert_eq!(root.weight(), 4);
    assert!(tree.pop().is_none());
    tree.encode(&Vec::new());
    assert!(tree.extract_encoding().is_empty());
}

#[test]
fn joining_two_nodes() {
    let joined = HuffmanNode::join(HuffmanNode::new(1, 'b'), HuffmanNode::new(1, 'a'));
    match joined {
        HuffmanNode::Internal { frequency, left, right } => {
            assert_eq!(frequency, 2);
            assert!(matches!(*left, HuffmanNode::Leaf { character: 'a', .. }));
            assert!(matches!(*right, HuffmanNode::Leaf { character: 'b', .. }));
        }
        HuffmanNode::Leaf { .. } => panic!("a join is no leaf"),
    }
    // With different frequencies the first node goes left.
    let joined = HuffmanNode::join(HuffmanNode::new(1, 'b'), HuffmanNode::new(2, 'a'));
    match joined {
        HuffmanNode::Internal { frequency, left, right } => {
            assert_eq!(frequency, 3);
            assert!(matches!(*left, HuffmanNode::Leaf { character: 'b', .. }));
            assert!(matches!(*right, HuffmanNode::Leaf { character: 'a', .. }));
        }
        HuffmanNode::Leaf { .. } => panic!("a join is no leaf"),
    }
}
