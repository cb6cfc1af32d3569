//! Huffman entropy coding (T.81 Annex C, Annex K, §F.1.2).
pub mod huffman_encoder;
pub mod huffman_table;
pub mod symbols;
