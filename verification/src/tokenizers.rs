//! The byte-pair tokenizer: a vocabulary, the special tokens behind it and
//! the language tags.

use crate::special::{
    language_code, language_code_at, lemma_language_codes_distinct, lemma_special_name_opens,
    lemma_special_names_distinct, names_view, special_name, special_token_list, special_tokens,
    N_LANGUAGES, N_SPECIALS,
};
use crate::vocab::{
    build_table, bytes_equal, entries_of, entries_view, index_ranks, lemma_table_of, lines,
    lines_well_formed, parse_line, rank_is_shared, ranks_distinct, read_entries, table_entries,
    table_len, table_of, VocabError,
};
use rustc_hash::FxHashMap;
use std::collections::HashMap;
use tiktoken_rs::CoreBPE;
use vstd::prelude::*;
use vstd::utf8::*;

verus! {

/// `tiktoken_rs::CoreBPE`: a byte-pair codec. What it decodes to is named
/// by `bpe_token_bytes`.
#[verifier::external_type_specification]
#[verifier::external_body]
pub struct ExCoreBPE(tiktoken_rs::CoreBPE);

/// `anyhow::Error`: why the codec failed. Nothing is read from it.
#[verifier::external_type_specification]
#[verifier::external_body]
pub struct ExCodecError(anyhow::Error);

/// The bytes that each token id of a codec decodes to.
pub uninterp spec fn bpe_token_bytes(bpe: CoreBPE) -> Map<usize, Seq<u8>>;

/// Whether the codec's constructor accepts a splitting pattern and a list of
/// special tokens: whether the pattern compiles, and with it the pattern
/// that the constructor makes of the texts of the special tokens.
pub uninterp spec fn codec_accepts(pattern: Seq<char>, names: Seq<(Seq<char>, usize)>) -> bool;

/// Whether no two of `list` share a name, and no two an id.
pub open spec fn names_distinct(list: Seq<(Seq<char>, usize)>) -> bool {
    forall|i: int, j: int|
        0 <= i < j < list.len() ==> (#[trigger] list[i]).0 != (#[trigger] list[j]).0 && list[i].1
            != list[j].1
}

/// `tiktoken_rs::CoreBPE::new`: builds a codec from a rank table, the special
/// tokens and the pattern that splits text into pieces. It fails exactly
/// where one of its two patterns does not compile, which the pattern and the
/// special tokens decide: `codec_accepts` names that. In the codec it
/// returns, the rank of every key
/// of the table decodes to that key; the id of a special token decodes to the
/// token's text in UTF-8, unless the id is also a rank; and nothing else
/// decodes. The outside function stops the program where two keys share a
/// rank, which `requires` leaves out.
#[verifier::external_body]
fn bpe_new(encoder: FxHashMap<Vec<u8>, usize>, specials: Vec<(String, usize)>, pattern: &str) -> (made:
    Result<CoreBPE, anyhow::Error>)
    requires
        ranks_distinct(table_entries(encoder)),
        names_distinct(names_view(specials@)),
    ensures
        match made {
            Ok(bpe) => {
                &&& forall|key: Seq<u8>| #[trigger]
                    table_entries(encoder).dom().contains(key) ==> bpe_token_bytes(bpe).get(
                        table_entries(encoder)[key],
                    ) == Some(key)
                &&& forall|i: int|
                    0 <= i < specials.len() && !table_entries(encoder).values().contains(
                        (#[trigger] specials[i]).1,
                    ) ==> bpe_token_bytes(bpe).get(specials[i].1) == Some(
                        encode_utf8(specials[i].0@),
                    )
                &&& forall|id: usize| #[trigger]
                    bpe_token_bytes(bpe).dom().contains(id) ==> table_entries(
                        encoder,
                    ).values().contains(id) || exists|i: int|
                        0 <= i < specials.len() && (#[trigger] specials[i]).1 == id
            },
            Err(_) => true,
        },
        made is Ok <==> codec_accepts(pattern@, names_view(specials@)),
{
    let special_tokens: FxHashMap<String, usize> = specials.into_iter().collect();
    CoreBPE::new(encoder, special_tokens, pattern)
}

/// The bytes of `tokens`, one token after the other. An id that does not
/// decode adds nothing.
pub open spec fn joined_bytes(table: Map<usize, Seq<u8>>, tokens: Seq<usize>) -> Seq<u8>
    decreases tokens.len(),
{
    if tokens.len() == 0 {
        Seq::empty()
    } else if table.dom().contains(tokens.last()) {
        joined_bytes(table, tokens.drop_last()) + table[tokens.last()]
    } else {
        joined_bytes(table, tokens.drop_last())
    }
}

/// `tiktoken_rs::CoreBPE::decode`: joins the bytes of the tokens and reads
/// them as UTF-8. It fails exactly where the bytes are not valid UTF-8. The
/// outside function stops the program on an id that does not decode, which
/// `requires` leaves out.
#[verifier::external_body]
fn bpe_decode(bpe: &CoreBPE, tokens: Vec<usize>) -> (text: Result<String, anyhow::Error>)
    requires
        forall|i: int| 0 <= i < tokens.len() ==> bpe_token_bytes(*bpe).dom().contains(#[trigger] tokens[i]),
    ensures
        match text {
            Ok(text) => valid_utf8(joined_bytes(bpe_token_bytes(*bpe), tokens@)) && text@
                == decode_utf8(joined_bytes(bpe_token_bytes(*bpe), tokens@)),
            Err(_) => !valid_utf8(joined_bytes(bpe_token_bytes(*bpe), tokens@)),
        },
{
    bpe.decode(tokens)
}


/// Why a tokenizer could not be built, or a token sequence not be decoded.
#[derive(Debug, Clone, Copy, PartialEq, Eq)]
pub enum TokenizerError {
    /// The vocabulary line with this zero-based number holds no
    /// `word rank` pair.
    MalformedLine(usize),
    /// Two different tokens of the vocabulary carry this rank.
    DuplicateRank(usize),
    /// The codec refused the tables.
    Codec,
    /// This id names no token.
    UnknownToken(usize),
    /// The bytes of the tokens are not UTF-8.
    InvalidUtf8,
}

/// The vocabulary that a file denotes, once each of its lines denotes an
/// entry: the entries in line order, a later line replacing an earlier one
/// with the same token.
pub open spec fn vocabulary(contents: Seq<u8>) -> Map<Seq<u8>, usize> {
    table_of(entries_of(lines(contents), lines(contents).len() as int))
}

/// Whether `id` belongs to a special token after a vocabulary of `n_vocab`
/// entries. The ids of the special tokens start at `n_vocab + 1`.
pub open spec fn is_special_id(n_vocab: int, id: int) -> bool {
    n_vocab + 1 <= id < n_vocab + 1 + N_SPECIALS
}

/// What each id decodes to, given the vocabulary: a rank to the token that
/// carries it, and the id of a special token, where it is no rank, to that
/// token's text in UTF-8.
pub open spec fn token_table(table: Map<Seq<u8>, usize>) -> Map<usize, Seq<u8>> {
    Map::new(
        |id: usize| table.values().contains(id) || is_special_id(table.dom().len() as int, id as int),
        |id: usize|
            if table.values().contains(id) {
                choose|key: Seq<u8>| table.dom().contains(key) && table[key] == id
            } else {
                encode_utf8(special_name(id - table.dom().len() - 1))
            },
    )
}

/// The position of `code` in the language list, or the list's length where
/// it is no language code.
pub open spec fn language_index(code: Seq<char>, from: int) -> int
    decreases N_LANGUAGES - from,
{
    if from >= N_LANGUAGES {
        N_LANGUAGES as int
    } else if language_code_at(from) == code {
        from
    } else {
        language_index(code, from + 1)
    }
}

/// `language_index` lies between `from` and the list's length; where it is a
/// position, `code` stands there and nowhere between `from` and it.
pub proof fn lemma_language_index(code: Seq<char>, from: int)
    requires
        0 <= from <= N_LANGUAGES,
    ensures
        from <= language_index(code, from) <= N_LANGUAGES,
        language_index(code, from) < N_LANGUAGES ==> language_code_at(language_index(code, from))
            == code,
        forall|i: int| from <= i < language_index(code, from) ==> language_code_at(i) != code,
    decreases N_LANGUAGES - from,
{
    if from < N_LANGUAGES && language_code_at(from) != code {
        lemma_language_index(code, from + 1);
    }
}

/// The id of `<|startoftranscript|>`, the second special token, after a
/// vocabulary of `n_vocab` entries.
pub open spec fn start_of_transcript(n_vocab: int) -> int {
    n_vocab + 2
}

/// The token that stands for a language: the id of `<|startoftranscript|>`
/// plus the position of the language's code in the language list. A text
/// that is no language code has none.
pub open spec fn language_token(n_vocab: int, code: Seq<char>) -> Option<int> {
    if language_index(code, 0) < N_LANGUAGES {
        Some(start_of_transcript(n_vocab) + language_index(code, 0))
    } else {
        None
    }
}

/// The token of a language, less the id of `<|startoftranscript|>`, is the
/// zero-based position of the language in the language list.
pub proof fn lemma_language_token_is_position(n_vocab: int, position: int)
    requires
        0 <= position < N_LANGUAGES,
    ensures
        language_token(n_vocab, language_code_at(position)) == Some(
            start_of_transcript(n_vocab) + position,
        ),
{
    lemma_language_index(language_code_at(position), 0);
    let found = language_index(language_code_at(position), 0);
    if found != position {
        lemma_language_codes_distinct(found, position);
    }
}

/// Whether every id of `tokens` before `end` names a token.
pub open spec fn all_known(table: Map<usize, Seq<u8>>, tokens: Seq<usize>, end: int) -> bool {
    forall|i: int| 0 <= i < end ==> table.dom().contains(#[trigger] tokens[i])
}

/// Token ids whose bytes spell a text in UTF-8 decode to that text,
/// whatever chose them.
pub proof fn lemma_spelled_text_decodes(table: Map<usize, Seq<u8>>, tokens: Seq<usize>, text: Seq<char>)
    requires
        joined_bytes(table, tokens) == encode_utf8(text),
    ensures
        valid_utf8(joined_bytes(table, tokens)),
        decode_utf8(joined_bytes(table, tokens)) == text,
{
    broadcast use {encode_utf8_valid_utf8, encode_utf8_decode_utf8};

}

/// The byte `<`, with which the text of every special token opens.
pub const OPENING: u8 = 60;

/// Whether `bytes` holds the byte `byte`.
pub open spec fn holds_byte(bytes: Seq<u8>, byte: u8) -> bool {
    exists|i: int| 0 <= i < bytes.len() && #[trigger] bytes[i] == byte
}

/// Whether `needle` stands in `bytes` from the position `at` on.
pub open spec fn occurs_at(needle: Seq<u8>, bytes: Seq<u8>, at: int) -> bool {
    0 <= at && at + needle.len() <= bytes.len() && bytes.subrange(at, at + needle.len()) == needle
}

/// The UTF-8 bytes of every special token open with `<`.
pub proof fn lemma_special_bytes_open(index: int)
    requires
        0 <= index < N_SPECIALS,
    ensures
        encode_utf8(special_name(index)).len() >= 1,
        encode_utf8(special_name(index))[0] == OPENING,
{
    lemma_special_name_opens(index);
    let name = special_name(index);
    assert(name[0] as u32 == 60u32);
    assert(60u32 & 0x7F == 60u32) by (bit_vector);
    assert(encode_scalar(60u32) =~= seq![60u8]);
    assert(encode_utf8(name) == encode_scalar(name[0] as u32) + encode_utf8(name.drop_first()));
}

/// Tokens of which none holds a byte join to bytes that do not hold it.
pub proof fn lemma_joined_bytes_hold_no(table: Map<usize, Seq<u8>>, tokens: Seq<usize>, byte: u8)
    requires
        forall|i: int|
            0 <= i < tokens.len() && table.dom().contains(#[trigger] tokens[i]) ==> !holds_byte(
                table[tokens[i]],
                byte,
            ),
    ensures
        !holds_byte(joined_bytes(table, tokens), byte),
    decreases tokens.len(),
{
    if tokens.len() > 0 {
        let front = tokens.drop_last();
        assert forall|i: int|
            0 <= i < front.len() && table.dom().contains(#[trigger] front[i]) implies !holds_byte(
            table[front[i]],
            byte,
        ) by {
            assert(front[i] == tokens[i]);
        }
        lemma_joined_bytes_hold_no(table, front, byte);
        let joined = joined_bytes(table, tokens);
        if holds_byte(joined, byte) {
            let at = choose|at: int| 0 <= at < joined.len() && joined[at] == byte;
            let before = joined_bytes(table, front);
            if at < before.len() {
                assert(before[at] == byte);
            } else {
                assert(table.dom().contains(tokens[tokens.len() - 1]));
                assert(table[tokens.last()][at - before.len()] == byte);
            }
        }
    }
}

/// Where no token holds the byte `<`, the text of no special token stands
/// anywhere in the bytes that the tokens join to.
pub proof fn lemma_no_opening_no_markup(
    table: Map<usize, Seq<u8>>,
    tokens: Seq<usize>,
    index: int,
    at: int,
)
    requires
        0 <= index < N_SPECIALS,
        forall|i: int|
            0 <= i < tokens.len() && table.dom().contains(#[trigger] tokens[i]) ==> !holds_byte(
                table[tokens[i]],
                OPENING,
            ),
    ensures
        !occurs_at(encode_utf8(special_name(index)), joined_bytes(table, tokens), at),
{
    lemma_special_bytes_open(index);
    lemma_joined_bytes_hold_no(table, tokens, OPENING);
    let needle = encode_utf8(special_name(index));
    let joined = joined_bytes(table, tokens);
    if occurs_at(needle, joined, at) {
        assert(joined.subrange(at, at + needle.len())[0] == needle[0]);
        assert(joined[at] == OPENING);
    }
}

/// Whether two texts are the same.
pub fn same_text(a: &str, b: &str) -> (same: bool)
    ensures
        same == (a@ == b@),
{
    broadcast use encode_utf8_decode_utf8;

    let same = bytes_equal(a.as_bytes(), b.as_bytes());
    proof {
        if same {
            assert(decode_utf8(encode_utf8(a@)) == a@);
            assert(decode_utf8(encode_utf8(b@)) == b@);
        }
    }
    same
}

/// Whether the vocabulary file `contents` is refused with `error`. The
/// first line that denotes no entry is reported first, then a rank that two
/// tokens share. Only a file without either is handed to the codec, which
/// refuses it where it does not accept the pattern and the special tokens
/// that follow the vocabulary.
pub open spec fn is_refused(contents: Seq<u8>, error: TokenizerError) -> bool {
    match error {
        TokenizerError::MalformedLine(n) => {
            &&& n < lines(contents).len()
            &&& lines_well_formed(lines(contents), n as int)
            &&& parse_line(lines(contents)[n as int]) is None
        },
        TokenizerError::DuplicateRank(rank) => {
            &&& lines_well_formed(lines(contents), lines(contents).len() as int)
            &&& !ranks_distinct(vocabulary(contents))
            &&& rank_is_shared(vocabulary(contents), rank)
        },
        TokenizerError::Codec => {
            &&& lines_well_formed(lines(contents), lines(contents).len() as int)
            &&& ranks_distinct(vocabulary(contents))
            &&& !codec_accepts(PATTERN@, special_tokens(vocabulary(contents).dom().len() as int))
        },
        TokenizerError::UnknownToken(_) => false,
        TokenizerError::InvalidUtf8 => false,
    }
}

/// The pattern that splits a text into the pieces that are encoded one by
/// one.
pub const PATTERN: &'static str =
    "'s|'t|'re|'ve|'m|'ll|'d| ?\\p{L}+| ?\\p{N}+| ?[^\\s\\p{L}\\p{N}]+|\\s+(?!\\S)|\\s+";

/// A byte-pair codec with its special tokens.
pub struct Tokenizer {
    bpe: CoreBPE,
    ranks: HashMap<usize, usize>,
    n_vocab: usize,
}

impl Tokenizer {
    /// The bytes that each token id decodes to.
    pub closed spec fn token_bytes(&self) -> Map<usize, Seq<u8>> {
        bpe_token_bytes(self.bpe)
    }

    /// The number of entries of the vocabulary.
    pub closed spec fn vocab_len(&self) -> int {
        self.n_vocab as int
    }

    #[verifier::type_invariant]
    spec fn well_formed(&self) -> bool {
        &&& self.n_vocab + N_SPECIALS <= usize::MAX
        &&& forall|id: usize| #[trigger]
            bpe_token_bytes(self.bpe).dom().contains(id) <==> self.ranks@.dom().contains(id)
                || is_special_id(self.n_vocab as int, id as int)
    }

    /// Whether this is the tokenizer of the vocabulary file `contents`:
    /// each line of the file denotes an entry, no two tokens share a rank,
    /// the codec accepts the pattern and the special tokens, and every id
    /// decodes as the vocabulary says. The ids of the special tokens always
    /// fit.
    pub open spec fn is_built_from(&self, contents: Seq<u8>) -> bool {
        &&& lines_well_formed(lines(contents), lines(contents).len() as int)
        &&& ranks_distinct(vocabulary(contents))
        &&& codec_accepts(PATTERN@, special_tokens(vocabulary(contents).dom().len() as int))
        &&& self.vocab_len() == vocabulary(contents).dom().len()
        &&& self.vocab_len() + N_SPECIALS <= usize::MAX
        &&& self.token_bytes() == token_table(vocabulary(contents))
    }

    /// Wraps what the codec's constructor returned: its codec, or the news
    /// that it refused the tables.
    pub fn from_codec(
        made: Result<CoreBPE, anyhow::Error>,
        ranks: HashMap<usize, usize>,
        n_vocab: usize,
    ) -> (tokenizer: Result<Tokenizer, TokenizerError>)
        requires
            n_vocab + N_SPECIALS <= usize::MAX,
            match made {
                Ok(bpe) => forall|id: usize| #[trigger]
                    bpe_token_bytes(bpe).dom().contains(id) <==> ranks@.dom().contains(id)
                        || is_special_id(n_vocab as int, id as int),
                Err(_) => true,
            },
        ensures
            match (made, tokenizer) {
                (Ok(bpe), Ok(t)) => t.token_bytes() == bpe_token_bytes(bpe) && t.vocab_len()
                    == n_vocab,
                (Err(_), Err(TokenizerError::Codec)) => true,
                _ => false,
            },
    {
        match made {
            Ok(bpe) => Ok(Tokenizer { bpe, ranks, n_vocab }),
            Err(_) => Err(TokenizerError::Codec),
        }
    }

    /// Whether `id` names a token.
    pub fn is_token(&self, id: usize) -> (known: bool)
        ensures
            known == self.token_bytes().dom().contains(id),
    {
        broadcast use vstd::std_specs::hash::group_hash_axioms;

        proof {
            use_type_invariant(self);
        }
        self.ranks.contains_key(&id) || (id > self.n_vocab && id - self.n_vocab <= N_SPECIALS)
    }

    /// The token that stands for the language with the code `language`.
    pub fn lang2token(&self, language: &str) -> (token: Option<usize>)
        ensures
            match token {
                Some(id) => language_token(self.vocab_len(), language@) == Some(id as int),
                None => language_token(self.vocab_len(), language@) is None,
            },
    {
        proof {
            use_type_invariant(self);
        }
        let mut index: usize = 0;
        while index < N_LANGUAGES
            invariant
                index <= N_LANGUAGES,
                self.n_vocab + N_SPECIALS <= usize::MAX,
                language_index(language@, 0) == language_index(language@, index as int),
            decreases N_LANGUAGES - index,
        {
            if same_text(language_code(index), language) {
                return Some(self.n_vocab + 2 + index);
            }
            index += 1;
        }
        None
    }

    /// Turns token ids into the text they stand for: the bytes of the
    /// tokens, joined and read as UTF-8.
    pub fn decode(&self, tokens: Vec<usize>) -> (text: Result<String, TokenizerError>)
        ensures
            match text {
                Ok(text) => {
                    &&& all_known(self.token_bytes(), tokens@, tokens.len() as int)
                    &&& valid_utf8(joined_bytes(self.token_bytes(), tokens@))
                    &&& text@ == decode_utf8(joined_bytes(self.token_bytes(), tokens@))
                },
                Err(TokenizerError::UnknownToken(id)) => exists|i: int|
                    0 <= i < tokens.len() && #[trigger] tokens[i] == id
                        && !self.token_bytes().dom().contains(id) && all_known(
                        self.token_bytes(),
                        tokens@,
                        i,
                    ),
                Err(TokenizerError::InvalidUtf8) => {
                    &&& all_known(self.token_bytes(), tokens@, tokens.len() as int)
                    &&& !valid_utf8(joined_bytes(self.token_bytes(), tokens@))
                },
                Err(_) => false,
            },
    {
        let mut at: usize = 0;
        while at < tokens.len()
            invariant
                at <= tokens.len(),
                all_known(self.token_bytes(), tokens@, at as int),
            decreases tokens.len() - at,
        {
            if !self.is_token(tokens[at]) {
                return Err(TokenizerError::UnknownToken(tokens[at]));
            }
            at += 1;
        }
        match bpe_decode(&self.bpe, tokens) {
            Ok(text) => Ok(text),
            Err(_) => Err(TokenizerError::InvalidUtf8),
        }
    }

    /// Builds the tokenizer from the contents of a vocabulary file.
    ///
    /// Each line holds a base64 word, a space and a rank; a word that is not
    /// base64 stands for the empty token. The special tokens follow the
    /// vocabulary: with `n` entries, the first of them has the id `n + 1`.
    pub fn new(contents: &[u8]) -> (tokenizer: Result<Tokenizer, TokenizerError>)
        ensures
            match tokenizer {
                Ok(tokenizer) => tokenizer.is_built_from(contents@),
                Err(error) => is_refused(contents@, error),
            },
    {
        let entries = match read_entries(contents) {
            Ok(entries) => entries,
            Err(VocabError::MalformedLine(n)) => {
                return Err(TokenizerError::MalformedLine(n));
            },
            Err(VocabError::DuplicateRank(rank)) => {
                return Err(TokenizerError::DuplicateRank(rank));
            },
        };
        let table = build_table(&entries);
        let ranks = match index_ranks(&entries, &table) {
            Ok(ranks) => ranks,
            Err(VocabError::DuplicateRank(rank)) => {
                return Err(TokenizerError::DuplicateRank(rank));
            },
            Err(VocabError::MalformedLine(n)) => {
                return Err(TokenizerError::MalformedLine(n));
            },
        };
        let n_vocab = table_len(&table);
        proof {
            lemma_table_of(entries_view(entries@));
        }
        let specials = special_token_list(n_vocab);
        let ghost vocab = table_entries(table);
        let ghost names = names_view(specials@);
        proof {
            assert forall|i: int, j: int| 0 <= i < j < names.len() implies (#[trigger] names[i]).0
                != (#[trigger] names[j]).0 && names[i].1 != names[j].1 by {
                lemma_special_names_distinct(i, j);
            }
        }
        let made = bpe_new(table, specials, PATTERN);
        proof {
            if made is Ok {
                let decoded = bpe_token_bytes(made->Ok_0);
                assert forall|id: usize| #[trigger]
                    decoded.dom().contains(id) <==> ranks@.dom().contains(id) || is_special_id(
                        n_vocab as int,
                        id as int,
                    ) by {
                    if ranks@.dom().contains(id) {
                        let key = choose|key: Seq<u8>| vocab.dom().contains(key) && vocab[key] == id;
                        assert(decoded.get(vocab[key]) == Some(key));
                    } else if is_special_id(n_vocab as int, id as int) {
                        let i = id - n_vocab - 1;
                        assert(names[i].1 == id);
                        assert(specials[i].1 == id);
                    }
                    if decoded.dom().contains(id) && !vocab.values().contains(id) {
                        let i = choose|i: int| 0 <= i < specials.len() && (#[trigger] specials[i]).1 == id;
                        assert(names[i].1 == id);
                    }
                }
                assert(decoded =~= token_table(vocab)) by {
                    assert forall|id: usize| decoded.dom().contains(id) implies #[trigger] decoded[id]
                        == token_table(vocab)[id] by {
                        if vocab.values().contains(id) {
                            let key = choose|key: Seq<u8>| vocab.dom().contains(key) && vocab[key] == id;
                            assert(decoded.get(vocab[key]) == Some(key));
                        } else {
                            let i = id - n_vocab - 1;
                            assert(names[i].1 == id);
                            assert(specials[i].1 == id);
                            assert(names[i].0 == special_name(i));
                        }
                    }
                }
            }
        }
        Tokenizer::from_codec(made, ranks, n_vocab)
    }
}

} // verus!
