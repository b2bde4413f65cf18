use base64::Engine;
use rusty_whisper::special::{special_token_list, special_token_name, N_SPECIALS};
use rusty_whisper::tokenizers::{same_text, Tokenizer, TokenizerError, PATTERN};
use rustc_hash::FxHashMap;
use tiktoken_rs::CoreBPE;

fn small_vocabulary() -> Tokenizer {
    Tokenizer::new(b"YQ== 0\nYg== 1\nYWI= 2\n").unwrap()
}

#[test]
fn decode_joins_token_bytes() {
    let tokenizer = small_vocabulary();
    assert_eq!(tokenizer.decode(vec![0, 1, 2]), Ok("abab".to_string()));
    assert_eq!(tokenizer.decode(vec![]), Ok(String::new()));
}

#[test]
fn special_tokens_follow_the_vocabulary() {
    let tokenizer = small_vocabulary();
    assert_eq!(tokenizer.decode(vec![4]), Ok("<|endoftext|>".to_string()));
    assert_eq!(tokenizer.decode(vec![5]), Ok("<|startoftranscript|>".to_string()));
    assert_eq!(tokenizer.decode(vec![6]), Ok("<|en|>".to_string()));
    assert_eq!(tokenizer.decode(vec![104]), Ok("<|su|>".to_string()));
    assert_eq!(tokenizer.decode(vec![105]), Ok("<|translate|>".to_string()));
    assert_eq!(tokenizer.decode(vec![110]), Ok("<|notimestamps|>".to_string()));
    assert_eq!(tokenizer.decode(vec![111]), Ok("<|0.00|>".to_string()));
    assert_eq!(tokenizer.decode(vec![112]), Ok("<|0.02|>".to_string()));
    assert_eq!(tokenizer.decode(vec![111 + 1500]), Ok("<|30.00|>".to_string()));
    assert_eq!(tokenizer.decode(vec![111 + 1501]), Err(TokenizerError::UnknownToken(1612)));
}

#[test]
fn unknown_id_is_reported() {
    let tokenizer = small_vocabulary();
    assert_eq!(tokenizer.decode(vec![0, 3, 99999]), Err(TokenizerError::UnknownToken(3)));
}

#[test]
fn language_tokens_count_from_start_of_transcript() {
    let tokenizer = small_vocabulary();
    // three entries: the special tokens start at 4, <|startoftranscript|> is 5
    assert_eq!(tokenizer.lang2token("en"), Some(5));
    assert_eq!(tokenizer.lang2token("zh"), Some(6));
    assert_eq!(tokenizer.lang2token("de"), Some(7));
    assert_eq!(tokenizer.lang2token("pl"), Some(15));
    assert_eq!(tokenizer.lang2token("haw"), Some(5 + 93));
    assert_eq!(tokenizer.lang2token("su"), Some(5 + 98));
}

#[test]
fn unknown_language_has_no_token() {
    let tokenizer = small_vocabulary();
    assert_eq!(tokenizer.lang2token("xx"), None);
    assert_eq!(tokenizer.lang2token(""), None);
    assert_eq!(tokenizer.lang2token("EN"), None);
    assert_eq!(tokenizer.lang2token("english"), None);
}

#[test]
fn ids_are_known_or_not() {
    let tokenizer = small_vocabulary();
    assert!(tokenizer.is_token(0));
    assert!(tokenizer.is_token(2));
    assert!(!tokenizer.is_token(3));
    assert!(tokenizer.is_token(4));
    assert!(tokenizer.is_token(1611));
    assert!(!tokenizer.is_token(1612));
}

#[test]
fn malformed_vocabulary_is_refused() {
    assert_eq!(Tokenizer::new(b"YQ== 0\nYg==\n").err(), Some(TokenizerError::MalformedLine(1)));
    assert_eq!(Tokenizer::new(b"YQ== zero\n").err(), Some(TokenizerError::MalformedLine(0)));
}

#[test]
fn shared_rank_is_refused() {
    assert_eq!(
        Tokenizer::new(b"YQ== 0\nYg== 1\nYWI= 1\n").err(),
        Some(TokenizerError::DuplicateRank(1))
    );
}

#[test]
fn malformed_base64_maps_to_the_empty_token() {
    let tokenizer = Tokenizer::new(b"YQ== 0\n!!!! 1\n").unwrap();
    assert_eq!(tokenizer.decode(vec![1]), Ok(String::new()));
    assert_eq!(tokenizer.decode(vec![0, 1, 0]), Ok("aa".to_string()));
    // two entries: the special tokens start at 3
    assert_eq!(tokenizer.decode(vec![3]), Ok("<|endoftext|>".to_string()));
}

#[test]
fn repeated_token_counts_once() {
    let tokenizer = Tokenizer::new(b"YQ== 0\nYQ== 1\nYQ== 2\n").unwrap();
    // one entry: the special tokens start at 2, which is also the rank of "a"
    assert_eq!(tokenizer.decode(vec![2]), Ok("a".to_string()));
    assert_eq!(tokenizer.decode(vec![3]), Ok("<|startoftranscript|>".to_string()));
    assert_eq!(tokenizer.decode(vec![0]), Err(TokenizerError::UnknownToken(0)));
    assert_eq!(tokenizer.lang2token("en"), Some(3));
}

#[test]
fn bytes_that_are_not_utf8_are_refused() {
    // "/w==" is the byte 0xFF, "w6k=" the two bytes of "é", "ww==" and "qQ==" its halves
    let tokenizer = Tokenizer::new(b"/w== 0\nw6k= 1\nww== 2\nqQ== 3\n").unwrap();
    assert_eq!(tokenizer.decode(vec![0]), Err(TokenizerError::InvalidUtf8));
    assert_eq!(tokenizer.decode(vec![1]), Ok("é".to_string()));
    assert_eq!(tokenizer.decode(vec![2]), Err(TokenizerError::InvalidUtf8));
    assert_eq!(tokenizer.decode(vec![2, 3]), Ok("é".to_string()));
}

#[test]
fn empty_vocabulary_still_has_the_special_tokens() {
    let tokenizer = Tokenizer::new(b"").unwrap();
    assert_eq!(tokenizer.decode(vec![1]), Ok("<|endoftext|>".to_string()));
    assert_eq!(tokenizer.decode(vec![0]), Err(TokenizerError::UnknownToken(0)));
    assert_eq!(tokenizer.lang2token("en"), Some(2));
}

#[test]
fn timestamps_are_written_with_two_decimals() {
    let tokenizer = Tokenizer::new(b"").unwrap();
    let first = 1 + 107;
    assert_eq!(tokenizer.decode(vec![first + 49]), Ok("<|0.98|>".to_string()));
    assert_eq!(tokenizer.decode(vec![first + 50]), Ok("<|1.00|>".to_string()));
    assert_eq!(tokenizer.decode(vec![first + 499]), Ok("<|9.98|>".to_string()));
    assert_eq!(tokenizer.decode(vec![first + 500]), Ok("<|10.00|>".to_string()));
    assert_eq!(tokenizer.decode(vec![first + 1234]), Ok("<|24.68|>".to_string()));
}

#[test]
fn timestamps_match_the_formatted_seconds() {
    let tokenizer = Tokenizer::new(b"").unwrap();
    for i in 0..1501usize {
        let expected = format!("<|{:.2}|>", i as f32 * 0.02);
        assert_eq!(tokenizer.decode(vec![108 + i]), Ok(expected));
    }
}

fn byte_level_entries() -> Vec<(Vec<u8>, usize)> {
    let mut entries: Vec<(Vec<u8>, usize)> = (0..256usize).map(|b| (vec![b as u8], b)).collect();
    for (rank, token) in ["Hi", " there", "th", "er", " t"].iter().enumerate() {
        entries.push((token.as_bytes().to_vec(), 256 + rank));
    }
    entries
}

fn byte_level_contents(entries: &[(Vec<u8>, usize)]) -> Vec<u8> {
    let mut contents = String::new();
    for (token, rank) in entries {
        let word = base64::engine::general_purpose::STANDARD.encode(token);
        contents.push_str(&format!("{} {}\n", word, rank));
    }
    contents.into_bytes()
}

#[test]
fn decoding_undoes_the_encoding_of_the_codec() {
    let entries = byte_level_entries();
    let tokenizer = Tokenizer::new(&byte_level_contents(&entries)).unwrap();
    let encoder: FxHashMap<Vec<u8>, usize> = entries.iter().cloned().collect();
    let specials: FxHashMap<String, usize> = special_token_list(entries.len()).into_iter().collect();
    let codec = CoreBPE::new(encoder, specials, PATTERN).unwrap();
    for text in ["", "Hi there!", "  two  spaces and 123 numbers,\nnew lines\tand tabs ", "it's ~{}|<>"] {
        let ids = codec.encode_with_special_tokens(text);
        assert_eq!(tokenizer.decode(ids), Ok(text.to_string()));
    }
    let ids = codec.encode_with_special_tokens("Hi<|endoftext|>");
    assert_eq!(ids, vec![256, entries.len() + 1]);
    assert_eq!(tokenizer.decode(ids), Ok("Hi<|endoftext|>".to_string()));
}

#[test]
fn special_tokens_are_listed_with_their_ids() {
    let list = special_token_list(50256);
    assert_eq!(list.len(), N_SPECIALS);
    assert_eq!(list[0], ("<|endoftext|>".to_string(), 50257));
    assert_eq!(list[1], ("<|startoftranscript|>".to_string(), 50258));
    assert_eq!(list[2], ("<|en|>".to_string(), 50259));
    assert_eq!(list[100], ("<|su|>".to_string(), 50357));
    assert_eq!(list[101], ("<|translate|>".to_string(), 50358));
    assert_eq!(list[102], ("<|transcribe|>".to_string(), 50359));
    assert_eq!(list[103], ("<|startoflm|>".to_string(), 50360));
    assert_eq!(list[104], ("<|startofprev|>".to_string(), 50361));
    assert_eq!(list[105], ("<|nospeech|>".to_string(), 50362));
    assert_eq!(list[106], ("<|notimestamps|>".to_string(), 50363));
    assert_eq!(list[107], ("<|0.00|>".to_string(), 50364));
    assert_eq!(list[1607], ("<|30.00|>".to_string(), 51864));
    assert_eq!(special_token_name(1000), "<|17.86|>");
}

#[test]
fn special_token_names_are_all_different() {
    let mut names: Vec<String> = (0..N_SPECIALS).map(special_token_name).collect();
    names.sort();
    names.dedup();
    assert_eq!(names.len(), N_SPECIALS);
}

#[test]
fn texts_are_compared_by_their_characters() {
    assert!(same_text("en", "en"));
    assert!(!same_text("en", "de"));
    assert!(!same_text("en", "eng"));
    assert!(same_text("", ""));
    assert!(same_text("é", "\u{e9}"));
}

#[test]
fn refusal_of_the_codec_is_passed_on() {
    let refused = Err(anyhow::Error::msg("pattern does not compile"));
    let tokenizer = Tokenizer::from_codec(refused, std::collections::HashMap::new(), 0);
    assert_eq!(tokenizer.err(), Some(TokenizerError::Codec));
}

#[test]
fn codec_of_the_same_tables_makes_the_same_tokenizer() {
    let entries = byte_level_entries();
    let encoder: FxHashMap<Vec<u8>, usize> = entries.iter().cloned().collect();
    let specials: FxHashMap<String, usize> = special_token_list(entries.len()).into_iter().collect();
    let codec = CoreBPE::new(encoder, specials, PATTERN);
    let ranks = entries.iter().map(|(_, rank)| (*rank, *rank)).collect();
    let tokenizer = Tokenizer::from_codec(codec, ranks, entries.len()).unwrap();
    assert_eq!(tokenizer.decode(vec![72, 105, 257]), Ok("Hi there".to_string()));
    assert_eq!(tokenizer.lang2token("en"), Some(entries.len() + 2));
    assert!(!tokenizer.is_token(entries.len()));
}
