use rusty_whisper::beam::{
    find_answer, prune, remap_token, BeamNode, BeamOutput, BeamSearch, LOG_PROB_SCALE,
};
use rusty_whisper::decode::{GreedySearch, StepPlan};
use rusty_whisper::utils::{InferenceError, KVCache};

fn log_prob(p: f32) -> i32 {
    (p.ln() as f64 * LOG_PROB_SCALE as f64).round() as i32
}

fn output(probs: &[f32], past_len: usize) -> BeamOutput<u8> {
    BeamOutput {
        probs: probs.iter().map(|p| p.to_bits()).collect(),
        log_probs: probs.iter().map(|p| log_prob(*p)).collect(),
        shapes: vec![vec![1, past_len, 512]; 12],
        tensors: vec![0; 12],
    }
}

fn node(tokens: Vec<i32>, score: i64) -> BeamNode<u8> {
    BeamNode::new(tokens, score, KVCache::default()).unwrap()
}

fn tokens_of(nodes: &[BeamNode<u8>]) -> Vec<Vec<i32>> {
    nodes.iter().map(|n| n.tokens().clone()).collect()
}

#[test]
fn startoflm_is_replaced_by_notimestamps() {
    assert_eq!(remap_token(50358), 50363);
    assert_eq!(remap_token(50357), 50357);
    assert_eq!(remap_token(50359), 50359);
    assert_eq!(remap_token(50363), 50363);
    assert_eq!(remap_token(0), 0);
}

#[test]
fn node_needs_a_score_its_tokens_can_have() {
    assert!(BeamNode::new(vec![1, 2], 2 * 2147483648, KVCache::<u8>::default()).is_some());
    assert!(BeamNode::new(vec![1, 2], 2 * 2147483648 + 1, KVCache::<u8>::default()).is_none());
    assert!(BeamNode::new(vec![1, 2], -2 * 2147483648 - 1, KVCache::<u8>::default()).is_none());
    assert!(BeamNode::new(vec![], 0, KVCache::<u8>::default()).is_some());
    assert!(BeamNode::new(vec![], 1, KVCache::<u8>::default()).is_none());
}

#[test]
fn children_take_the_most_probable_tokens() {
    let parent = node(vec![9, 9], -1000);
    let mut given = output(&[0.1, 0.5, 0.1, 0.3], 2);
    given.log_probs = vec![-2414435, -726817, -2414435, -1262465];
    let children = parent.expand(given, 2, 2).unwrap();
    assert_eq!(tokens_of(&children), vec![vec![9, 9, 1], vec![9, 9, 3]]);
    assert_eq!(children[0].score(), -1000 - 726817);
    assert_eq!(children[1].score(), -1000 - 1262465);
    assert_eq!(children[0].kv_cache().len(), 2);
    assert_eq!(children[1].kv_cache().len(), 2);
}

#[test]
fn chosen_startoflm_is_scored_as_itself() {
    let mut probs = vec![0.0f32; 50400];
    probs[50358] = 0.75;
    probs[50363] = 0.25;
    let parent = node(vec![50361, 50258, 50258, 50359], 0);
    let children = parent.expand(output(&probs, 4), 1, 4).unwrap();
    assert_eq!(children.len(), 1);
    assert_eq!(children[0].tokens(), &vec![50361, 50258, 50258, 50359, 50363]);
    assert_eq!(children[0].score(), log_prob(0.75) as i64);
    assert_ne!(children[0].score(), log_prob(0.25) as i64);
}

#[test]
fn complete_hypothesis_has_no_children() {
    let done = node(vec![1, 2, 50257], -5);
    assert!(done.is_finished());
    assert_eq!(done.expand(output(&[0.5, 0.5], 3), 2, 2).err(), Some(InferenceError::Finished));
    let long = node(vec![3; 449], -5);
    assert!(long.is_finished());
    assert!(!node(vec![3; 448], -5).is_finished());
    assert!(!node(vec![], 0).is_finished());
}

#[test]
fn expansion_refuses_bad_outputs() {
    let parent = node(vec![1, 2], 0);
    let mut bad = output(&[0.5, 0.5], 2);
    bad.log_probs.pop();
    assert_eq!(parent.expand(bad, 2, 2).err(), Some(InferenceError::Scores(2)));
    assert_eq!(parent.expand(output(&[], 2), 2, 2).err(), Some(InferenceError::Scores(0)));
    assert_eq!(
        parent.expand(output(&[0.5, 0.5], 3), 2, 2).err(),
        Some(InferenceError::CacheTensorShape(0))
    );
    let mut bad = output(&[0.5, 0.5], 2);
    bad.tensors.pop();
    assert_eq!(parent.expand(bad, 2, 2).err(), Some(InferenceError::CacheTensorCount(11)));
}

#[test]
fn ranking_is_by_score_per_token() {
    let short = node(vec![1, 2], -10);
    let long = node(vec![1, 2, 3, 4], -16);
    assert!(long.ranks_above(&short));
    assert!(!short.ranks_above(&long));
    let equal = node(vec![1, 2, 3, 4], -20);
    assert!(!equal.ranks_above(&short));
    assert!(!short.ranks_above(&equal));
}

#[test]
fn pruning_keeps_the_best_in_order() {
    let nodes = vec![
        node(vec![1, 0], -30),
        node(vec![2, 0], -10),
        node(vec![3, 0], -20),
        node(vec![4, 0], -10),
        node(vec![5, 0], -40),
    ];
    assert_eq!(tokens_of(&prune(&nodes, 3)), vec![vec![2, 0], vec![4, 0], vec![3, 0]]);
    assert_eq!(tokens_of(&prune(&nodes, 1)), vec![vec![2, 0]]);
    assert_eq!(tokens_of(&prune(&nodes, 0)), Vec::<Vec<i32>>::new());
    assert_eq!(prune(&nodes, 9).len(), 5);
}

#[test]
fn answer_is_the_last_of_the_best() {
    let nodes = vec![node(vec![1, 0], -10), node(vec![2, 0], -30), node(vec![3, 0], -10)];
    assert_eq!(find_answer(&nodes), Some(2));
    let nodes = vec![node(vec![1, 0], -10), node(vec![2, 0], -30)];
    assert_eq!(find_answer(&nodes), Some(0));
    assert_eq!(find_answer::<u8>(&vec![]), None);
}

#[test]
fn swapping_in_a_better_beam_does_not_worsen_the_answer() {
    let nodes = vec![node(vec![1, 0], -10), node(vec![2, 0], -30), node(vec![3, 0], -20)];
    let before = find_answer(&nodes).unwrap();
    let swapped = vec![node(vec![1, 0], -10), node(vec![9, 9, 9], -12), node(vec![3, 0], -20)];
    let after = find_answer(&swapped).unwrap();
    assert!(!nodes[before].ranks_above(&swapped[after]));
    assert_eq!(swapped[after].tokens(), &vec![9, 9, 9]);
}

#[test]
fn nine_children_are_ranked_and_three_survive() {
    let probs = [0.5f32, 0.3, 0.2];
    let mut search = BeamSearch::<u8>::start(vec![7, 7], 3).unwrap();
    search = search.advance(vec![Some(output(&probs, 2))]).unwrap();
    assert_eq!(tokens_of(search.beams()), vec![vec![7, 7, 0], vec![7, 7, 1], vec![7, 7, 2]]);
    let outputs = (0..3).map(|_| Some(output(&probs, 3))).collect();
    search = search.advance(outputs).unwrap();
    assert_eq!(
        tokens_of(search.beams()),
        vec![vec![7, 7, 0, 0], vec![7, 7, 0, 1], vec![7, 7, 1, 0]]
    );
    let scores: Vec<i64> = search.beams().iter().map(|n| n.score()).collect();
    let half = log_prob(0.5) as i64;
    let third = log_prob(0.3) as i64;
    assert_eq!(scores, vec![half + half, half + third, third + half]);
    assert_eq!(search.answer(), Some(&vec![7, 7, 0, 0]));
}

#[test]
fn equal_parents_keep_their_best_children() {
    let parents = vec![node(vec![1], 0), node(vec![2], 0), node(vec![3], 0)];
    let mut children = Vec::new();
    for parent in &parents {
        children.extend(parent.expand(output(&[0.5, 0.3, 0.2], 1), 3, 1).unwrap());
    }
    assert_eq!(children.len(), 9);
    assert_eq!(tokens_of(&prune(&children, 3)), vec![vec![1, 0], vec![2, 0], vec![3, 0]]);
}

#[test]
fn complete_beams_are_carried_over() {
    let mut search = BeamSearch::<u8>::start(vec![7], 2).unwrap();
    let mut probs = vec![0.0f32; 50300];
    probs[50257] = 0.6;
    probs[11] = 0.4;
    search = search.advance(vec![Some(output(&probs, 1))]).unwrap();
    assert_eq!(tokens_of(search.beams()), vec![vec![7, 50257], vec![7, 11]]);
    assert!(search.beams()[0].is_finished());
    assert_eq!(search.beams()[1].plan(1, 448), Ok(StepPlan { tokens: vec![11], offset: 1 }));
    let mut probs = vec![0.0f32; 50300];
    probs[12] = 0.9;
    probs[13] = 0.1;
    search = search.advance(vec![None, Some(output(&probs, 2))]).unwrap();
    assert_eq!(tokens_of(search.beams()), vec![vec![7, 50257], vec![7, 11, 12]]);
    assert_eq!(search.beams()[0].kv_cache().len(), 1);
    assert_eq!(search.beams()[1].kv_cache().len(), 2);
    search = search.advance(vec![None, Some(output(&[0.5, 0.5], 3))]).unwrap();
    assert_eq!(tokens_of(search.beams()), vec![vec![7, 50257], vec![7, 11, 12, 0]]);
    assert_eq!(search.answer(), Some(&vec![7, 50257]));
}

#[test]
fn step_needs_an_output_for_each_open_beam() {
    let start = || BeamSearch::<u8>::start(vec![7], 2).unwrap();
    assert_eq!(start().advance(vec![]).err(), Some(InferenceError::MissingOutput(0)));
    assert_eq!(start().advance(vec![None]).err(), Some(InferenceError::MissingOutput(0)));
    assert_eq!(
        start().advance(vec![Some(output(&[0.5, 0.5], 1)), None]).err(),
        Some(InferenceError::MissingOutput(2))
    );
    assert_eq!(
        start().advance(vec![Some(output(&[0.5, 0.5], 2))]).err(),
        Some(InferenceError::CacheTensorShape(0))
    );
}

#[test]
fn beam_search_takes_224_steps() {
    let mut search = BeamSearch::<u8>::start(vec![7], 1).unwrap();
    let mut steps = 0;
    while !search.is_finished() {
        let outputs = search
            .beams()
            .iter()
            .map(|beam| {
                if beam.is_finished() {
                    None
                } else {
                    Some(output(&[0.5, 0.5], beam.tokens().len()))
                }
            })
            .collect();
        search = search.advance(outputs).unwrap();
        steps += 1;
    }
    assert_eq!(steps, 224);
    assert_eq!(search.answer().unwrap().len(), 225);
    assert_eq!(search.advance(vec![None]).err(), Some(InferenceError::Finished));
}

#[test]
fn width_one_follows_the_greedy_search() {
    let steps: Vec<Vec<f32>> = vec![
        vec![0.1, 0.2, 0.6, 0.1],
        vec![0.4, 0.4, 0.1, 0.1],
        vec![0.0, 0.1, 0.1, 0.8],
        vec![0.25, 0.25, 0.25, 0.25],
    ];
    let prefix = vec![50361, 50258, 50258, 50359];
    let mut greedy = GreedySearch::<u8>::start(prefix.clone());
    let mut beam = BeamSearch::<u8>::start(prefix, 1).unwrap();
    for (step, probs) in steps.iter().enumerate() {
        let bits: Vec<u32> = probs.iter().map(|p| p.to_bits()).collect();
        greedy = greedy.advance(&bits, &vec![vec![1, 4 + step, 512]; 12], vec![0; 12]).unwrap();
        beam = beam.advance(vec![Some(output(probs, 4 + step))]).unwrap();
        assert_eq!(beam.beams().len(), 1);
    }
    let expected = vec![50361, 50258, 50258, 50359, 2, 0, 3, 0];
    assert_eq!(beam.answer(), Some(&expected));
    assert_eq!(greedy.into_tokens(), expected);
}

#[test]
fn search_without_width_has_no_answer() {
    let search = BeamSearch::<u8>::start(vec![7], 0).unwrap();
    let search = search.advance(vec![Some(output(&[0.5, 0.5], 1))]).unwrap();
    assert_eq!(search.beams().len(), 0);
    assert_eq!(search.answer(), None);
}

#[test]
fn beam_search_starts_with_the_empty_past() {
    let search = BeamSearch::<u8>::start(vec![50361, 50258, 50258, 50359], 3).unwrap();
    assert_eq!(search.beams().len(), 1);
    let root = &search.beams()[0];
    assert_eq!(root.score(), 0);
    assert_eq!(root.kv_cache().len(), 0);
    assert_eq!(root.kv_cache().as_tensors(), &vec![None; 12]);
}

#[test]
fn leading_parent_keeps_all_its_children() {
    // the first parent leads by two natural units, more than ln(0.5 / 0.2)
    let lead = 2 * LOG_PROB_SCALE as i64;
    let parents = vec![node(vec![1], 0), node(vec![2], -lead), node(vec![3], -lead - 5)];
    let mut children = Vec::new();
    for parent in &parents {
        children.extend(parent.expand(output(&[0.5, 0.3, 0.2], 1), 3, 1).unwrap());
    }
    assert_eq!(tokens_of(&prune(&children, 3)), vec![vec![1, 0], vec![1, 1], vec![1, 2]]);
}
