//! A small compression toolkit: a bit-level stream reader, a CRC-32 checksum,
//! LZ77 windowed matching, Huffman coding, a composite LZ77 + Huffman codec
//! and a gzip container decoder.
//!
//! Every function states its behaviour as a contract over mathematical models
//! (`Seq`, `Map`, `int`), and the contracts are machine-checked. The laws that
//! tie the functions together, such as "decoding undoes coding", are proved as
//! lemmas beside them.

pub mod backref;
pub mod bits;
pub mod canonical;
pub mod counter;
pub mod crc;
pub mod deflate;
pub mod dynamic;
pub mod error;
pub mod gzip;
pub mod gzip_laws;
pub mod huffman;
pub mod huffman_laws;
pub mod inflate;
pub mod lz77;
pub mod text;
