//! Speech recognition with Whisper models: audio formats, the tokenizer, the choice of tokens, and
//! the assembly of a transcript. The model itself is not part of it; what the model computes in
//! floating point comes in as integers and truth values.

pub mod archive;
pub mod audio;
pub mod bpe;
pub mod bytes;
pub mod decoding;
pub mod encoding;
pub mod languages;
pub mod laws;
pub mod load_models;
pub mod npy;
pub mod npz;
pub mod numbers;
pub mod pieces;
pub mod roundtrip;
pub mod special;
pub mod symbols;
pub mod table;
pub mod text;
pub mod tokenizer;
pub mod transcribe;
pub mod unicode;
pub mod vocabulary;
pub mod wav;
pub mod whisper;
pub mod words;
