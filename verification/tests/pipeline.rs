use base64::Engine;
use rusty_whisper::audio::{mel_frame_count, split_segments, Matrix, N_FRAMES, N_MELS};
use rusty_whisper::decode::GreedySearch;
use rusty_whisper::pipeline::{
    choose_search, concatenate, initial_tokens, text_tokens, Search, Whisper, WhisperError,
};
use rusty_whisper::tokenizers::TokenizerError;

fn multilingual_sized_vocabulary() -> Vec<u8> {
    let mut contents = String::new();
    for rank in 0..50256u32 {
        let token = [b'#', (rank >> 16) as u8, (rank >> 8) as u8, rank as u8];
        let word = base64::engine::general_purpose::STANDARD.encode(token);
        contents.push_str(&format!("{} {}\n", word, rank));
    }
    contents.into_bytes()
}

fn small_whisper() -> Whisper {
    Whisper::new(b"SGk= 0\nIQ== 1\nIHRoZXJl 2\n").unwrap()
}

#[test]
fn prefix_without_prompt_has_four_tokens() {
    assert_eq!(initial_tokens(&[], 50258), vec![50361, 50258, 50258, 50359]);
    assert_eq!(initial_tokens(&[], 50260), vec![50361, 50258, 50260, 50359]);
}

#[test]
fn prompt_stands_between_the_markers() {
    assert_eq!(initial_tokens(&[5, 6], 50258), vec![50361, 5, 6, 50258, 50258, 50359]);
}

#[test]
fn long_prompt_keeps_its_last_223_tokens() {
    let prompt: Vec<i32> = (0..300).collect();
    let tokens = initial_tokens(&prompt, 50258);
    assert_eq!(tokens.len(), 1 + 223 + 3);
    assert_eq!(tokens[0], 50361);
    assert_eq!(tokens[1], 77);
    assert_eq!(tokens[223], 299);
    assert_eq!(&tokens[224..], &[50258, 50258, 50359]);
    let prompt: Vec<i32> = (0..223).collect();
    assert_eq!(initial_tokens(&prompt, 1).len(), 227);
    assert_eq!(initial_tokens(&prompt, 1)[1], 0);
}

#[test]
fn language_prefix_of_the_multilingual_vocabulary() {
    let whisper = Whisper::new(&multilingual_sized_vocabulary()).unwrap();
    let english = whisper.get_initial_tokens(&[], "en").unwrap();
    assert_eq!(english, vec![50361, 50258, whisper.tokenizer().lang2token("en").unwrap() as i32, 50359]);
    assert_eq!(english, vec![50361, 50258, 50258, 50359]);
    let german = whisper.get_initial_tokens(&[], "de").unwrap();
    assert_eq!(german, vec![50361, 50258, 50260, 50359]);
    assert_eq!(whisper.get_initial_tokens(&[], "??"), Err(WhisperError::UnknownLanguage));
    assert_eq!(whisper.tokenizer().decode(vec![50257]), Ok("<|endoftext|>".to_string()));
    assert_eq!(whisper.tokenizer().decode(vec![50361]), Ok("<|startofprev|>".to_string()));
    assert_eq!(whisper.tokenizer().decode(vec![50363]), Ok("<|notimestamps|>".to_string()));
}

#[test]
fn language_token_is_its_position_after_start_of_transcript() {
    let whisper = small_whisper();
    let codes = ["en", "zh", "de", "es", "ru", "ko", "fr", "ja", "pt", "tr", "pl"];
    for (position, code) in codes.iter().enumerate() {
        assert_eq!(whisper.tokenizer().lang2token(code), Some(5 + position));
    }
    assert_eq!(whisper.tokenizer().lang2token("su"), Some(5 + 98));
}

#[test]
fn special_tokens_are_dropped() {
    assert_eq!(
        text_tokens(&[50361, 50258, 50259, 50359, 11, 0, 50256, 50257, 50363, 51000, 12]),
        vec![11, 0, 50256, 12]
    );
    assert_eq!(text_tokens(&[-1, 5, i32::MIN, i32::MAX]), vec![5]);
    assert_eq!(text_tokens(&[]), Vec::<usize>::new());
    assert!(text_tokens(&(50000..51000).collect::<Vec<i32>>()).iter().all(|t| *t < 50257));
}

#[test]
fn segments_are_joined_in_order() {
    assert_eq!(concatenate(&vec![vec![1, 2], vec![], vec![3], vec![4, 5]]), vec![1, 2, 3, 4, 5]);
    assert_eq!(concatenate(&vec![]), Vec::<i32>::new());
}

#[test]
fn transcript_is_the_text_without_markup() {
    let whisper = small_whisper();
    let segments = vec![vec![50361, 50258, 50258, 50359, 0, 2, 50257], vec![50361, 1, 50257]];
    assert_eq!(whisper.transcript(&segments), Ok("Hi there!".to_string()));
}

#[test]
fn transcript_of_nothing_is_empty() {
    let whisper = small_whisper();
    assert_eq!(whisper.transcript(&vec![]), Ok(String::new()));
    assert_eq!(whisper.transcript(&vec![vec![50361, 50258, 50258, 50359, 50257]]), Ok(String::new()));
}

#[test]
fn transcript_reports_an_id_without_token() {
    let whisper = small_whisper();
    assert_eq!(whisper.transcript(&vec![vec![0, 40000]]), Err(TokenizerError::UnknownToken(40000)));
}

#[test]
fn silent_second_gives_one_segment_and_no_text() {
    let frames = mel_frame_count(16000);
    assert_eq!(frames, 100);
    let mel = Matrix::from_rows(vec![vec![0.0f32; frames]; N_MELS], frames).unwrap();
    let segments = split_segments(&mel, 0.0);
    assert_eq!(segments.len(), 1);
    assert_eq!((segments[0].n_rows(), segments[0].n_cols()), (N_MELS, N_FRAMES));
    let whisper = Whisper::new(&multilingual_sized_vocabulary()).unwrap();
    let prefix = whisper.get_initial_tokens(&[], "en").unwrap();
    let mut search = GreedySearch::<u8>::start(prefix);
    let mut logits = vec![0.0f32.to_bits(); 51865];
    logits[50257] = 9.0f32.to_bits();
    search = search.advance(&logits, &vec![vec![1, 4, 512]; 12], vec![0; 12]).unwrap();
    assert!(search.is_finished());
    assert_eq!(whisper.transcript(&vec![search.into_tokens()]), Ok(String::new()));
}

#[test]
fn beam_size_selects_the_search() {
    assert_eq!(choose_search(0), Search::Greedy);
    assert_eq!(choose_search(1), Search::Greedy);
    assert_eq!(choose_search(2), Search::Beam(2));
    assert_eq!(choose_search(5), Search::Beam(5));
}

#[test]
fn recognizer_refuses_a_malformed_vocabulary() {
    assert_eq!(Whisper::new(b"SGk= 0\nIQ==\n").err(), Some(TokenizerError::MalformedLine(1)));
    assert_eq!(Whisper::new(b"SGk= 7\nIQ== 7\n").err(), Some(TokenizerError::DuplicateRank(7)));
}

#[test]
fn ordinary_tokens_can_spell_markup_between_them() {
    // "<|endof" and "text|>" are ordinary tokens here
    let whisper = Whisper::new(b"PHxlbmRvZg== 0\ndGV4dHw+ 1\nSGk= 2\n").unwrap();
    assert_eq!(whisper.transcript(&vec![vec![2, 0, 1]]), Ok("Hi<|endoftext|>".to_string()));
    assert_eq!(whisper.transcript(&vec![vec![2, 50257]]), Ok("Hi".to_string()));
}
