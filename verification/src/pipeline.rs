//! The recognizer: the token prefix a segment starts from, and the way from
//! the tokens of all segments to the text.

use crate::special::{special_name, N_SPECIALS};
use crate::tokenizers::{
    all_known, holds_byte, is_refused, is_special_id, joined_bytes, language_token,
    lemma_no_opening_no_markup, occurs_at, Tokenizer, TokenizerError, OPENING,
};
use crate::utils::{Options, EOT_TOKEN, SOT_PREV_TOKEN, SOT_TOKEN, TRANSCRIBE_TOKEN};
use vstd::prelude::*;
use vstd::utf8::{decode_utf8, encode_utf8, valid_utf8};

verus! {

/// Tokens of an earlier text that a prefix has room for: half the context,
/// less one.
pub const PROMPT_LIMIT: usize = 223;

/// Why the recognizer could not go on.
#[derive(Debug, Clone, Copy, PartialEq, Eq)]
pub enum WhisperError {
    /// The language code is not in the language list.
    UnknownLanguage,
    /// The token of the language is greater than a token id can be.
    TokenRange(usize),
}

/// How the tokens of a segment are searched for.
#[derive(Debug, Clone, Copy, PartialEq, Eq)]
pub enum Search {
    /// The most probable token at each step.
    Greedy,
    /// Beam search with this many hypotheses.
    Beam(usize),
}

/// Selects the search by the beam size: beam search for a size above one,
/// greedy search otherwise.
pub fn choose_search(beam_size: usize) -> (search: Search)
    ensures
        search == if beam_size > 1 {
            Search::Beam(beam_size)
        } else {
            Search::Greedy
        },
{
    if beam_size > 1 {
        Search::Beam(beam_size)
    } else {
        Search::Greedy
    }
}

/// The part of an earlier text that goes into the prefix: its last
/// `PROMPT_LIMIT` tokens, or all of it where it has no more.
pub open spec fn kept_prompt(prompt: Seq<i32>) -> Seq<i32> {
    if prompt.len() > PROMPT_LIMIT {
        prompt.subrange(prompt.len() - PROMPT_LIMIT, prompt.len() as int)
    } else {
        prompt
    }
}

/// The prefix a segment starts from: `<|startofprev|>`, what is kept of the
/// earlier text, `<|startoftranscript|>`, the token of the language and
/// `<|transcribe|>`.
pub open spec fn initial_prefix(prompt: Seq<i32>, lang_token: i32) -> Seq<i32> {
    seq![SOT_PREV_TOKEN as i32] + kept_prompt(prompt) + seq![
        SOT_TOKEN as i32,
        lang_token,
        TRANSCRIBE_TOKEN as i32,
    ]
}

/// Builds the prefix of a segment.
pub fn initial_tokens(prompt: &[i32], lang_token: i32) -> (tokens: Vec<i32>)
    ensures
        tokens@ == initial_prefix(prompt@, lang_token),
{
    let start: usize = if prompt.len() > PROMPT_LIMIT {
        prompt.len() - PROMPT_LIMIT
    } else {
        0
    };
    let mut tokens: Vec<i32> = Vec::new();
    tokens.push(SOT_PREV_TOKEN as i32);
    let mut i: usize = start;
    while i < prompt.len()
        invariant
            start <= i <= prompt.len(),
            tokens@ == seq![SOT_PREV_TOKEN as i32] + prompt@.subrange(start as int, i as int),
        decreases prompt.len() - i,
    {
        tokens.push(prompt[i]);
        assert(tokens@ =~= seq![SOT_PREV_TOKEN as i32] + prompt@.subrange(start as int, i + 1));
        i += 1;
    }
    assert(prompt@.subrange(start as int, prompt.len() as int) =~= kept_prompt(prompt@));
    tokens.push(SOT_TOKEN as i32);
    tokens.push(lang_token);
    tokens.push(TRANSCRIBE_TOKEN as i32);
    assert(tokens@ =~= initial_prefix(prompt@, lang_token));
    tokens
}

/// The tokens of `tokens` that stand for text: those below
/// `<|endoftext|>`, in their order. Every special token is dropped.
pub open spec fn text_ids(tokens: Seq<i32>) -> Seq<usize>
    decreases tokens.len(),
{
    if tokens.len() == 0 {
        Seq::empty()
    } else if 0 <= tokens.last() < EOT_TOKEN {
        text_ids(tokens.drop_last()).push(tokens.last() as usize)
    } else {
        text_ids(tokens.drop_last())
    }
}

/// No id of `<|endoftext|>` or above is left among the text tokens, and each
/// of them was among the tokens.
pub proof fn lemma_text_ids(tokens: Seq<i32>)
    ensures
        text_ids(tokens).len() <= tokens.len(),
        forall|i: int| 0 <= i < text_ids(tokens).len() ==> (#[trigger] text_ids(tokens)[i]) < EOT_TOKEN,
        forall|i: int|
            0 <= i < text_ids(tokens).len() ==> exists|j: int|
                0 <= j < tokens.len() && tokens[j] == #[trigger] text_ids(tokens)[i],
    decreases tokens.len(),
{
    if tokens.len() > 0 {
        let front = tokens.drop_last();
        lemma_text_ids(front);
        assert forall|i: int| 0 <= i < text_ids(tokens).len() implies exists|j: int|
            0 <= j < tokens.len() && tokens[j] == #[trigger] text_ids(tokens)[i] by {
            if i < text_ids(front).len() {
                let j = choose|j: int| 0 <= j < front.len() && front[j] == text_ids(front)[i];
                assert(tokens[j] == text_ids(tokens)[i]);
            } else {
                assert(tokens[tokens.len() - 1] == text_ids(tokens)[i]);
            }
        }
    }
}

/// Where the special tokens start at `<|endoftext|>` or above, as they do
/// after the multilingual vocabulary, none of the text tokens is a special
/// token.
pub proof fn lemma_text_ids_are_not_special(n_vocab: int, tokens: Seq<i32>)
    requires
        n_vocab + 1 >= EOT_TOKEN,
    ensures
        forall|i: int|
            0 <= i < text_ids(tokens).len() ==> !is_special_id(
                n_vocab,
                #[trigger] text_ids(tokens)[i] as int,
            ),
{
    lemma_text_ids(tokens);
}

/// Where no token below `<|endoftext|>` holds the byte `<`, the text of no
/// special token stands anywhere in the bytes that the text tokens join to.
/// Tokens that hold it can spell such a text between them.
pub proof fn lemma_text_without_opening_has_no_markup(
    table: Map<usize, Seq<u8>>,
    tokens: Seq<i32>,
    index: int,
    at: int,
)
    requires
        0 <= index < N_SPECIALS,
        forall|id: usize|
            id < EOT_TOKEN && #[trigger] table.dom().contains(id) ==> !holds_byte(table[id], OPENING),
    ensures
        !occurs_at(encode_utf8(special_name(index)), joined_bytes(table, text_ids(tokens)), at),
{
    lemma_text_ids(tokens);
    lemma_no_opening_no_markup(table, text_ids(tokens), index, at);
}

/// Drops the special tokens.
pub fn text_tokens(tokens: &[i32]) -> (kept: Vec<usize>)
    ensures
        kept@ == text_ids(tokens@),
{
    let mut kept: Vec<usize> = Vec::new();
    let mut i: usize = 0;
    while i < tokens.len()
        invariant
            i <= tokens.len(),
            kept@ == text_ids(tokens@.subrange(0, i as int)),
        decreases tokens.len() - i,
    {
        assert(tokens@.subrange(0, i + 1).drop_last() =~= tokens@.subrange(0, i as int));
        let token = tokens[i];
        if 0 <= token && token < EOT_TOKEN as i32 {
            kept.push(token as usize);
        }
        i += 1;
    }
    assert(tokens@.subrange(0, i as int) =~= tokens@);
    kept
}

/// The tokens of the first `n` segments, one segment after the other.
pub open spec fn joined_segments(segments: Seq<Vec<i32>>, n: int) -> Seq<i32>
    decreases n,
{
    if n <= 0 {
        Seq::empty()
    } else {
        joined_segments(segments, n - 1) + segments[n - 1]@
    }
}

/// Joins the tokens of the segments in the order of the segments.
pub fn concatenate(segments: &Vec<Vec<i32>>) -> (tokens: Vec<i32>)
    ensures
        tokens@ == joined_segments(segments@, segments.len() as int),
{
    let mut tokens: Vec<i32> = Vec::new();
    let mut n: usize = 0;
    while n < segments.len()
        invariant
            n <= segments.len(),
            tokens@ == joined_segments(segments@, n as int),
        decreases segments.len() - n,
    {
        let ghost before = tokens@;
        let mut i: usize = 0;
        while i < segments[n].len()
            invariant
                n < segments.len(),
                i <= segments[n as int].len(),
                tokens@ == before + segments[n as int]@.subrange(0, i as int),
            decreases segments[n as int].len() - i,
        {
            tokens.push(segments[n][i]);
            assert(tokens@ =~= before + segments[n as int]@.subrange(0, i + 1));
            i += 1;
        }
        assert(segments[n as int]@.subrange(0, i as int) =~= segments[n as int]@);
        n += 1;
    }
    tokens
}

/// The recognizer's fixed parts: the tokenizer and the options.
pub struct Whisper {
    tokenizer: Tokenizer,
    options: Options,
}

impl Whisper {
    #[verifier::type_invariant]
    spec fn well_formed(&self) -> bool {
        self.options == Options::new_spec()
    }

    /// The tokenizer.
    pub closed spec fn codec(&self) -> Tokenizer {
        self.tokenizer
    }

    /// A recognizer with the tokenizer of the vocabulary file `vocabulary`
    /// and the options of the multilingual model.
    pub fn new(vocabulary: &[u8]) -> (whisper: Result<Whisper, TokenizerError>)
        ensures
            match whisper {
                Ok(whisper) => whisper.codec().is_built_from(vocabulary@),
                Err(error) => is_refused(vocabulary@, error),
            },
    {
        match Tokenizer::new(vocabulary) {
            Ok(tokenizer) => Ok(Whisper { tokenizer, options: Options::new() }),
            Err(error) => Err(error),
        }
    }

    /// The tokenizer.
    pub fn tokenizer(&self) -> (tokenizer: &Tokenizer)
        ensures
            *tokenizer == self.codec(),
    {
        &self.tokenizer
    }

    /// The options.
    pub fn options(&self) -> (options: Options)
        ensures
            options == Options::new_spec(),
    {
        proof {
            use_type_invariant(self);
        }
        self.options
    }

    /// Builds the prefix of a segment in the given language, after an
    /// earlier text that may be empty.
    pub fn get_initial_tokens(&self, prompt: &[i32], language: &str) -> (tokens: Result<
        Vec<i32>,
        WhisperError,
    >)
        ensures
            match tokens {
                Ok(tokens) => {
                    &&& language_token(self.codec().vocab_len(), language@) is Some
                    &&& 0 <= language_token(self.codec().vocab_len(), language@)->0 <= i32::MAX
                    &&& tokens@ == initial_prefix(
                        prompt@,
                        language_token(self.codec().vocab_len(), language@)->0 as i32,
                    )
                },
                Err(WhisperError::UnknownLanguage) => language_token(
                    self.codec().vocab_len(),
                    language@,
                ) is None,
                Err(WhisperError::TokenRange(id)) => language_token(
                    self.codec().vocab_len(),
                    language@,
                ) == Some(id as int) && id > i32::MAX,
            },
    {
        match self.tokenizer.lang2token(language) {
            Some(id) => {
                if id > i32::MAX as usize {
                    Err(WhisperError::TokenRange(id))
                } else {
                    Ok(initial_tokens(prompt, id as i32))
                }
            },
            None => Err(WhisperError::UnknownLanguage),
        }
    }

    /// Turns the tokens of the segments into the text: the segments are
    /// joined in their order, the special tokens dropped and the rest
    /// decoded.
    pub fn transcript(&self, segments: &Vec<Vec<i32>>) -> (text: Result<String, TokenizerError>)
        ensures
            match text {
                Ok(text) => {
                    &&& all_known(
                        self.codec().token_bytes(),
                        text_ids(joined_segments(segments@, segments.len() as int)),
                        text_ids(joined_segments(segments@, segments.len() as int)).len() as int,
                    )
                    &&& valid_utf8(
                        joined_bytes(
                            self.codec().token_bytes(),
                            text_ids(joined_segments(segments@, segments.len() as int)),
                        ),
                    )
                    &&& text@ == decode_utf8(
                        joined_bytes(
                            self.codec().token_bytes(),
                            text_ids(joined_segments(segments@, segments.len() as int)),
                        ),
                    )
                },
                Err(TokenizerError::UnknownToken(id)) => exists|i: int|
                    0 <= i < text_ids(joined_segments(segments@, segments.len() as int)).len()
                        && #[trigger] text_ids(joined_segments(segments@, segments.len() as int))[i]
                        == id && !self.codec().token_bytes().dom().contains(id) && all_known(
                        self.codec().token_bytes(),
                        text_ids(joined_segments(segments@, segments.len() as int)),
                        i,
                    ),
                Err(TokenizerError::InvalidUtf8) => {
                    &&& all_known(
                        self.codec().token_bytes(),
                        text_ids(joined_segments(segments@, segments.len() as int)),
                        text_ids(joined_segments(segments@, segments.len() as int)).len() as int,
                    )
                    &&& !valid_utf8(
                        joined_bytes(
                            self.codec().token_bytes(),
                            text_ids(joined_segments(segments@, segments.len() as int)),
                        ),
                    )
                },
                Err(_) => false,
            },
    {
        let tokens = concatenate(segments);
        let kept = text_tokens(tokens.as_slice());
        self.tokenizer.decode(kept)
    }
}

} // verus!
