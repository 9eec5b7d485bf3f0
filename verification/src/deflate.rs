//! The composite codec: a text is cut into LZ77 tokens, and the bytes that
//! the tokens are written with are coded with the Huffman code of those
//! bytes.
//!
//! The codec keeps the tokens. Decompression replays the tokens that the
//! codec holds; the bit string that is handed to it is decoded with a coder
//! that has no code, and what that gives is dropped.

use crate::error::DecodeError;
use crate::huffman::{codebook_of, encoded, Huffman};
use crate::lz77::{
    lemma_round_trip_text, lz77_decode_text, node_bytes, position_after, tokens_from, LZ77Node,
    LZ77, MAX_SIZE,
};
use crate::text::string_of;
use vstd::prelude::*;
use vstd::utf8::encode_utf8;

verus! {

/// The bytes that `tokens` are written with, one token after the other.
pub open spec fn token_bytes(tokens: Seq<LZ77Node>) -> Seq<u8>
    decreases tokens.len(),
{
    if tokens.len() == 0 {
        Seq::empty()
    } else {
        token_bytes(tokens.drop_last()) + node_bytes(tokens.last())
    }
}

/// Each byte as the character with that number.
pub open spec fn bytes_as_chars(bytes: Seq<u8>) -> Seq<char> {
    bytes.map_values(|b: u8| b as char)
}

/// The bit string for `tokens`: the bytes that the tokens are written
/// with, read as characters and coded with their own Huffman code.
pub open spec fn compressed_bits(tokens: Seq<LZ77Node>) -> Seq<char> {
    let chars = bytes_as_chars(token_bytes(tokens));
    encoded(codebook_of(chars), chars)
}

/// What decompression gives for a codec that holds `tokens`: the text that
/// the tokens stand for, or a failure for a codec that never compressed
/// anything.
pub open spec fn decompressed(tokens: Seq<LZ77Node>, compressed: bool) -> Result<
    Seq<char>,
    DecodeError,
> {
    if !compressed {
        Err(DecodeError::NothingCompressed)
    } else {
        lz77_decode_text(tokens)
    }
}

/// One cycle of compression and decompression gives back the text: a
/// codec that has compressed one text, and nothing before it, decompresses
/// to that text.
pub proof fn lemma_round_trip(text: Seq<char>, window_size: int, dictionary_size: int)
    requires
        encode_utf8(text).len() <= usize::MAX,
        1 <= window_size <= MAX_SIZE,
        1 <= dictionary_size <= MAX_SIZE,
    ensures
        decompressed(tokens_from(encode_utf8(text), 0, window_size, dictionary_size), true) == Ok::<
            Seq<char>,
            DecodeError,
        >(text),
{
    lemma_round_trip_text(text, window_size, dictionary_size);
}

/// The composite codec. It holds an LZ77 coder, and with it the tokens of
/// what it has compressed.
#[derive(Debug)]
pub struct Deflate {
    lz77: LZ77,
    compressed: bool,
}

impl Deflate {
    /// The LZ77 coder of the codec.
    pub closed spec fn coder(self) -> LZ77 {
        self.lz77
    }

    /// Whether the codec has compressed anything.
    pub closed spec fn has_compressed(self) -> bool {
        self.compressed
    }

    /// A codec with the given window and dictionary, each between 1 and
    /// 255, that has compressed nothing.
    pub fn new(window_size: usize, dictionary_size: usize) -> (res: Deflate)
        requires
            1 <= window_size <= MAX_SIZE,
            1 <= dictionary_size <= MAX_SIZE,
        ensures
            res.coder().window_size() == window_size,
            res.coder().dictionary_size() == dictionary_size,
            res.coder().position() == 0,
            res.coder().tokens() == Seq::<LZ77Node>::empty(),
            !res.has_compressed(),
    {
        Deflate { lz77: LZ77::new(window_size, dictionary_size), compressed: false }
    }

    /// Compresses `data`: its tokens are added to those that the codec
    /// holds, and all tokens that the codec then holds are written out and
    /// coded to a string of `0` and `1`.
    pub fn compress(&mut self, data: &str) -> (res: String)
        ensures
            final(self).has_compressed(),
            final(self).coder().window_size() == old(self).coder().window_size(),
            final(self).coder().dictionary_size() == old(self).coder().dictionary_size(),
            final(self).coder().tokens() == old(self).coder().tokens() + tokens_from(
                encode_utf8(data@),
                old(self).coder().position(),
                old(self).coder().window_size(),
                old(self).coder().dictionary_size(),
            ),
            final(self).coder().position() == position_after(
                encode_utf8(data@),
                old(self).coder().position(),
                old(self).coder().window_size(),
                old(self).coder().dictionary_size(),
            ),
            res@ == compressed_bits(final(self).coder().tokens()),
    {
        self.lz77.encode(data);
        self.compressed = true;
        let mut huffman = Huffman::new();
        let nodes = self.lz77.nodes();
        let mut lz77_vec: Vec<u8> = Vec::new();
        let mut i: usize = 0;
        proof {
            assert(nodes@.take(0) =~= Seq::<LZ77Node>::empty());
        }
        while i < nodes.len()
            invariant
                i <= nodes.len(),
                lz77_vec@ == token_bytes(nodes@.take(i as int)),
            decreases nodes.len() - i,
        {
            let bytes: Vec<u8> = nodes[i].to_vec_u8();
            let ghost before = lz77_vec@;
            let mut k: usize = 0;
            while k < bytes.len()
                invariant
                    k <= bytes.len(),
                    lz77_vec@ == before + bytes@.take(k as int),
                decreases bytes.len() - k,
            {
                lz77_vec.push(bytes[k]);
                proof {
                    assert(lz77_vec@ =~= before + bytes@.take(k + 1));
                }
                k += 1;
            }
            proof {
                assert(bytes@.take(bytes@.len() as int) =~= bytes@);
                assert(nodes@.take(i + 1).drop_last() =~= nodes@.take(i as int));
            }
            i += 1;
        }
        proof {
            assert(nodes@.take(nodes@.len() as int) =~= nodes@);
        }
        let mut lz77_chars: Vec<char> = Vec::new();
        let mut k: usize = 0;
        while k < lz77_vec.len()
            invariant
                k <= lz77_vec.len(),
                lz77_chars@ == bytes_as_chars(lz77_vec@.take(k as int)),
            decreases lz77_vec.len() - k,
        {
            lz77_chars.push(lz77_vec[k] as char);
            proof {
                assert(lz77_chars@ =~= bytes_as_chars(lz77_vec@.take(k + 1)));
            }
            k += 1;
        }
        proof {
            assert(lz77_vec@.take(lz77_vec@.len() as int) =~= lz77_vec@);
        }
        let bits: Vec<char> = huffman.encode_chars(&lz77_chars);
        string_of(&bits)
    }

    /// Gives back the text that the codec's tokens stand for. The bit
    /// string `data` is decoded with a coder that has no code, and the
    /// result is dropped. Fails for a codec that has compressed nothing,
    /// and when the tokens do not stand for a text.
    pub fn decompress(&self, data: &str) -> (res: Result<String, DecodeError>)
        ensures
            match res {
                Ok(text) => decompressed(self.coder().tokens(), self.has_compressed()) == Ok::<
                    Seq<char>,
                    DecodeError,
                >(text@),
                Err(e) => decompressed(self.coder().tokens(), self.has_compressed()) == Err::<
                    Seq<char>,
                    DecodeError,
                >(e),
            },
    {
        let huffman = Huffman::new();
        let _huffman_decoded: String = huffman.decode(data);
        if !self.compressed {
            return Err(DecodeError::NothingCompressed);
        }
        self.lz77.decode()
    }
}

} // verus!
