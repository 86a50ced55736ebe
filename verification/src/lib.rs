//! A static Huffman codec: builds a prefix code from the symbol frequencies
//! of a training string and uses it to encode strings to bitstrings (of '0'
//! and '1' characters) and decode them back.

pub mod node;
pub mod text;
pub mod freq;
pub mod builder;
pub mod codec;
