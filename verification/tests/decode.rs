use rusty_whisper::decode::{copy_tokens, plan_step, GreedyDecoder, GreedySearch, StepPlan};
use rusty_whisper::utils::{InferenceError, KVCache, Options};

fn bits(values: &[f32]) -> Vec<u32> {
    values.iter().map(|v| v.to_bits()).collect()
}

fn one_hot(size: usize, index: usize) -> Vec<u32> {
    let mut scores = vec![0.0f32; size];
    scores[index] = 1.0;
    bits(&scores)
}

fn shapes(past_len: usize) -> Vec<Vec<usize>> {
    vec![vec![1, past_len, 512]; 12]
}

fn tensors(tag: u8) -> Vec<u8> {
    vec![tag; 12]
}

#[test]
fn options_of_the_multilingual_model() {
    let options = Options::new();
    assert_eq!(options.eot_token, 50257);
    assert_eq!(options.sot_prev, 50361);
    assert_eq!(options.n_ctx, 448);
}

#[test]
fn greedy_decoder_appends_the_argmax() {
    let decoder = GreedyDecoder::new(3);
    let (tokens, completed) = decoder.update(vec![7, 8], &bits(&[0.1, 0.2, 0.9, 0.3]));
    assert_eq!(tokens, vec![7, 8, 2]);
    assert!(!completed);
    let (tokens, completed) = decoder.update(tokens, &bits(&[0.1, 0.2, 0.9, 1.3]));
    assert_eq!(tokens, vec![7, 8, 2, 3]);
    assert!(completed);
}

#[test]
fn greedy_decoder_is_deterministic() {
    let decoder = GreedyDecoder::new(50257);
    let logits = bits(&[0.5, 2.5, 2.5, -1.0]);
    let first = decoder.update(vec![1, 2, 3], &logits);
    let second = decoder.update(vec![1, 2, 3], &logits);
    assert_eq!(first, second);
    assert_eq!(first.0, vec![1, 2, 3, 1]);
}

#[test]
fn prefill_feeds_all_tokens() {
    assert_eq!(
        plan_step(&vec![50361, 50258, 50258, 50359], 0, 4, 448),
        Ok(StepPlan { tokens: vec![50361, 50258, 50258, 50359], offset: 0 })
    );
}

#[test]
fn later_steps_feed_the_last_token() {
    assert_eq!(
        plan_step(&vec![50361, 50258, 50258, 50359, 11], 4, 4, 448),
        Ok(StepPlan { tokens: vec![11], offset: 4 })
    );
    assert_eq!(
        plan_step(&vec![1, 2, 3, 4, 5, 6], 5, 4, 448),
        Ok(StepPlan { tokens: vec![6], offset: 5 })
    );
}

#[test]
fn positions_past_the_table_are_refused() {
    assert_eq!(plan_step(&vec![1, 2, 3], 0, 3, 2), Err(InferenceError::PositionsExhausted));
    assert_eq!(plan_step(&vec![1, 2, 3], 0, 3, 3).map(|p| p.offset), Ok(0));
    assert_eq!(plan_step(&vec![1, 2, 3, 4], 448, 3, 448), Err(InferenceError::PositionsExhausted));
    assert_eq!(plan_step(&vec![1, 2, 3, 4], 447, 3, 448).map(|p| p.offset), Ok(447));
    assert_eq!(plan_step(&vec![1], 9, 0, 3), Err(InferenceError::PositionsExhausted));
}

#[test]
fn empty_past_has_twelve_tensors_without_positions() {
    let cache = KVCache::<u8>::default();
    assert_eq!(cache.len(), 0);
    assert_eq!(cache.as_tensors().len(), 12);
    assert!(cache.as_tensors().iter().all(|t| t.is_none()));
}

#[test]
fn cache_grows_by_the_tokens_fed() {
    let cache = KVCache::<u8>::default();
    let cache = cache.advance(4, &shapes(4), (0..12).collect()).unwrap();
    assert_eq!(cache.len(), 4);
    let held: Vec<Option<u8>> = (0..12).map(Some).collect();
    assert_eq!(cache.as_tensors(), &held);
    let cache = cache.advance(1, &shapes(5), tensors(9)).unwrap();
    assert_eq!(cache.len(), 5);
    assert_eq!(cache.as_tensors(), &vec![Some(9u8); 12]);
}

#[test]
fn cache_refuses_what_does_not_fit() {
    let cache = KVCache::<u8>::default();
    assert_eq!(
        cache.advance(4, &shapes(4), vec![0; 11]).err(),
        Some(InferenceError::CacheTensorCount(11))
    );
    assert_eq!(
        cache.advance(4, &vec![vec![1, 4, 512]; 13], tensors(0)).err(),
        Some(InferenceError::CacheTensorCount(13))
    );
    assert_eq!(
        cache.advance(4, &shapes(5), tensors(0)).err(),
        Some(InferenceError::CacheTensorShape(0))
    );
    let mut odd = shapes(4);
    odd[7] = vec![1, 4, 384];
    assert_eq!(cache.advance(4, &odd, tensors(0)).err(), Some(InferenceError::CacheTensorShape(7)));
    odd[7] = vec![1, 4];
    assert_eq!(cache.advance(4, &odd, tensors(0)).err(), Some(InferenceError::CacheTensorShape(7)));
    odd[7] = vec![2, 4, 512];
    assert_eq!(cache.advance(4, &odd, tensors(0)).err(), Some(InferenceError::CacheTensorShape(7)));
    let grown = cache.advance(4, &shapes(4), tensors(0)).unwrap();
    assert_eq!(
        grown.advance(usize::MAX, &shapes(3), tensors(0)).err(),
        Some(InferenceError::PositionsExhausted)
    );
}

#[test]
fn greedy_search_ends_on_end_of_text() {
    let mut search = GreedySearch::<u8>::start(vec![50361, 50258, 50258, 50359]);
    assert!(!search.is_finished());
    let plan = search.plan(448).unwrap();
    assert_eq!(plan, StepPlan { tokens: vec![50361, 50258, 50258, 50359], offset: 0 });
    search = search.advance(&one_hot(51865, 123), &shapes(4), tensors(1)).unwrap();
    assert_eq!(search.kv_cache().len(), 4);
    assert!(!search.is_finished());
    assert_eq!(search.plan(448).unwrap(), StepPlan { tokens: vec![123], offset: 4 });
    search = search.advance(&one_hot(51865, 456), &shapes(5), tensors(2)).unwrap();
    assert_eq!(search.kv_cache().len(), 5);
    assert_eq!(search.plan(448).unwrap(), StepPlan { tokens: vec![456], offset: 5 });
    search = search.advance(&one_hot(51865, 50257), &shapes(6), tensors(3)).unwrap();
    assert!(search.is_finished());
    assert_eq!(search.kv_cache().len(), 6);
    assert_eq!(search.kv_cache().as_tensors(), &vec![Some(3u8); 12]);
    assert_eq!(search.into_tokens(), vec![50361, 50258, 50258, 50359, 123, 456, 50257]);
}

#[test]
fn finished_search_takes_no_step() {
    let search = GreedySearch::<u8>::start(vec![1, 2]);
    let search = search.advance(&one_hot(51865, 50257), &shapes(2), tensors(0)).unwrap();
    assert!(search.is_finished());
    assert_eq!(
        search.advance(&one_hot(51865, 5), &shapes(3), tensors(0)).err(),
        Some(InferenceError::Finished)
    );
}

#[test]
fn greedy_search_stops_after_224_steps() {
    let mut search = GreedySearch::<u8>::start(vec![50361, 50258, 50258, 50359]);
    let mut steps = 0;
    while !search.is_finished() {
        let fed = search.plan(10000).unwrap().tokens.len();
        let past = search.kv_cache().len();
        search = search.advance(&one_hot(100, 42), &shapes(past + fed), tensors(0)).unwrap();
        steps += 1;
    }
    assert_eq!(steps, 224);
    let tokens = search.into_tokens();
    assert_eq!(tokens.len(), 4 + 224);
    assert!(tokens[4..].iter().all(|t| *t == 42));
}

#[test]
fn greedy_search_stops_when_longer_than_the_context() {
    let mut search = GreedySearch::<u8>::start(vec![7; 447]);
    search = search.advance(&one_hot(100, 42), &shapes(447), tensors(0)).unwrap();
    assert!(!search.is_finished());
    search = search.advance(&one_hot(100, 42), &shapes(448), tensors(0)).unwrap();
    assert!(search.is_finished());
    assert_eq!(
        search.advance(&one_hot(100, 42), &shapes(449), tensors(0)).err(),
        Some(InferenceError::Finished)
    );
}

#[test]
fn greedy_search_returns_what_it_has_at_the_length_cap() {
    let mut search = GreedySearch::<u8>::start(vec![7; 448]);
    search = search.advance(&one_hot(100, 42), &shapes(448), tensors(0)).unwrap();
    assert!(search.is_finished());
    let tokens = search.into_tokens();
    assert_eq!(tokens.len(), 449);
    assert_eq!(tokens[448], 42);
}

#[test]
fn greedy_search_refuses_bad_outputs() {
    let start = || GreedySearch::<u8>::start(vec![1, 2, 3]);
    assert_eq!(start().advance(&[], &shapes(3), tensors(0)).err(), Some(InferenceError::Scores(0)));
    assert_eq!(
        start().advance(&one_hot(10, 1), &shapes(4), tensors(0)).err(),
        Some(InferenceError::CacheTensorShape(0))
    );
    assert_eq!(
        start().advance(&one_hot(10, 1), &shapes(3), vec![]).err(),
        Some(InferenceError::CacheTensorCount(0))
    );
}

#[test]
fn greedy_search_is_deterministic() {
    let run = || {
        let mut search = GreedySearch::<u8>::start(vec![1, 2, 3]);
        let logits = [bits(&[0.1, 0.7, 0.7]), bits(&[3.0, 3.0, -1.0]), bits(&[-2.0, -3.0, -2.0])];
        for (step, scores) in logits.iter().enumerate() {
            search = search.advance(scores, &shapes(3 + step), tensors(0)).unwrap();
        }
        search.into_tokens()
    };
    assert_eq!(run(), run());
    assert_eq!(run(), vec![1, 2, 3, 1, 0, 0]);
}

#[test]
fn tokens_are_copied_as_they_are() {
    assert_eq!(copy_tokens(&[50361, -1, 0, 7]), vec![50361, -1, 0, 7]);
    assert_eq!(copy_tokens(&[]), Vec::<i32>::new());
}
