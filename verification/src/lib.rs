//! Verified core of an offline Whisper speech-to-text engine.
//!
//! The crate holds every decision the transcription pipeline takes: how the
//! audio is padded, framed and cut into segments, how the vocabulary file is
//! read and the special-token table laid out, which tokens are fed to the
//! decoder at each step and how the attention cache grows, and how greedy and
//! beam search pick and rank tokens. Floating-point signal processing, the
//! inference graphs and file access live outside; they hand plain values in
//! and take plain values back.
//!
//! - [`audio`]: accepted formats, reflection padding, framing, segments.
//! - [`vocab`]: the grammar of the vocabulary file and the rank table.
//! - [`special`]: the language list and the special tokens.
//! - [`tokenizers`]: the tokenizer around the byte-pair codec.
//! - [`scores`]: the total order on scores, the first maximum, the best few.
//! - [`utils`]: the options, the attention cache and the step errors.
//! - [`decode`]: step planning and the greedy search.
//! - [`beam`]: hypotheses, expansion, pruning and the beam search.
//! - [`pipeline`]: the token prefix and the way from tokens to text.

pub mod audio;
pub mod beam;
pub mod decode;
pub mod pipeline;
pub mod scores;
pub mod special;
pub mod tokenizers;
pub mod utils;
pub mod vocab;

pub use crate::audio::pad_or_trim;
pub use crate::decode::GreedyDecoder;
pub use crate::pipeline::Whisper;
pub use crate::tokenizers::Tokenizer;
pub use crate::utils::{KVCache, Options};
