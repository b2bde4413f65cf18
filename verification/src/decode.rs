//! Greedy decoding: what is fed to the decoder at each step, and how the
//! token sequence and the cache grow with what it hands back.

use crate::scores::{argmax, first_max};
use crate::utils::{
    cache_error, cache_shapes_fit, held_tensors, InferenceError, KVCache, EOT_TOKEN, MAX_DECODE_STEPS,
    N_CACHE_TENSORS, N_CTX,
};
use vstd::prelude::*;

verus! {

/// Picks the next token by its score alone and tells when the text has
/// ended.
#[derive(Debug, Clone, Copy)]
pub struct GreedyDecoder {
    eot: u32,
}

impl GreedyDecoder {
    /// A decoder that ends on the token `eot`.
    pub fn new(eot: u32) -> (decoder: GreedyDecoder)
        ensures
            decoder.eot() == eot,
    {
        GreedyDecoder { eot }
    }

    /// The token that ends the text.
    pub closed spec fn eot(&self) -> u32 {
        self.eot
    }

    /// Appends the token with the greatest of `logits` to `tokens`; ties go
    /// to the lowest id. The flag tells whether that token ends the text.
    pub fn update(self, tokens: Vec<i32>, logits: &[u32]) -> (updated: (Vec<i32>, bool))
        requires
            0 < logits.len() <= i32::MAX,
        ensures
            updated.0@ == tokens@.push(first_max(logits@) as i32),
            updated.1 == (first_max(logits@) == self.eot()),
    {
        let next_word = argmax(logits);
        let completed = next_word == self.eot as usize;
        let mut tokens = tokens;
        tokens.push(next_word as i32);
        (tokens, completed)
    }
}

/// A copy of a token sequence.
pub fn copy_tokens(tokens: &[i32]) -> (copy: Vec<i32>)
    ensures
        copy@ == tokens@,
{
    let mut copy: Vec<i32> = Vec::new();
    let mut at: usize = 0;
    while at < tokens.len()
        invariant
            at <= tokens.len(),
            copy@ == tokens@.subrange(0, at as int),
        decreases tokens.len() - at,
    {
        copy.push(tokens[at]);
        assert(copy@ =~= tokens@.subrange(0, at + 1));
        at += 1;
    }
    assert(copy@ =~= tokens@);
    copy
}

/// The tokens that a step feeds to the decoder: all of them while the
/// sequence is no longer than the initial prefix, and the last one alone
/// after that.
pub open spec fn fed_tokens(tokens: Seq<i32>, initial_len: int) -> Seq<i32> {
    if tokens.len() > initial_len {
        seq![tokens.last()]
    } else {
        tokens
    }
}

/// Positions that the cache covers once a search has `len` tokens: none
/// before the first step, and all tokens but the last after it.
pub open spec fn positions_covered(len: int, initial_len: int) -> int {
    if len <= initial_len {
        0
    } else {
        len - 1
    }
}

/// What one call of the decoder graph is given besides the audio features
/// and the cache: the tokens, and the rows of the positional table from
/// `offset` on, one for each token.
#[derive(Debug, PartialEq, Eq)]
pub struct StepPlan {
    pub tokens: Vec<i32>,
    pub offset: usize,
}

/// Plans a step for a sequence of `tokens` over a cache of `past_len`
/// positions. The positional table has `n_positions` rows; a step that would
/// read past its end is refused.
pub fn plan_step(tokens: &Vec<i32>, past_len: usize, initial_len: usize, n_positions: usize) -> (plan:
    Result<StepPlan, InferenceError>)
    ensures
        match plan {
            Ok(plan) => {
                &&& plan.tokens@ == fed_tokens(tokens@, initial_len as int)
                &&& plan.offset == past_len
                &&& plan.offset + plan.tokens.len() <= n_positions
            },
            Err(InferenceError::PositionsExhausted) => past_len + fed_tokens(
                tokens@,
                initial_len as int,
            ).len() > n_positions,
            Err(_) => false,
        },
{
    let fed: Vec<i32> = if tokens.len() > initial_len {
        let mut last: Vec<i32> = Vec::new();
        last.push(tokens[tokens.len() - 1]);
        last
    } else {
        copy_tokens(tokens.as_slice())
    };
    if past_len > n_positions || fed.len() > n_positions - past_len {
        return Err(InferenceError::PositionsExhausted);
    }
    Ok(StepPlan { tokens: fed, offset: past_len })
}

/// Whether a greedy search has ended: after `MAX_DECODE_STEPS` steps, or
/// once a step has emitted the end of text or made the sequence longer than
/// the context.
pub open spec fn greedy_finished(tokens: Seq<i32>, steps: int) -> bool {
    steps >= MAX_DECODE_STEPS || (steps > 0 && (tokens.len() > N_CTX || (tokens.len() > 0
        && tokens.last() == EOT_TOKEN)))
}

/// The sequence after a greedy step on `logits`.
pub open spec fn greedy_step(tokens: Seq<i32>, logits: Seq<u32>) -> Seq<i32> {
    tokens.push(first_max(logits) as i32)
}

/// The sequence that a greedy search leaves, started at `tokens` after
/// `steps` steps and given the scores of the steps to come: it takes a step
/// on each until it has ended or the scores have run out.
pub open spec fn greedy_run(tokens: Seq<i32>, steps: int, logits: Seq<Seq<u32>>) -> Seq<i32>
    decreases logits.len(),
{
    if logits.len() == 0 || greedy_finished(tokens, steps) {
        tokens
    } else {
        greedy_run(greedy_step(tokens, logits[0]), steps + 1, logits.drop_first())
    }
}

/// Greedy decoding is deterministic: the same prefix, the same number of
/// steps taken and the same scores leave the same tokens.
pub proof fn lemma_greedy_is_deterministic(
    tokens: Seq<i32>,
    again: Seq<i32>,
    steps: int,
    logits: Seq<Seq<u32>>,
    logits_again: Seq<Seq<u32>>,
)
    requires
        tokens =~= again,
        logits.len() == logits_again.len(),
        forall|k: int| 0 <= k < logits.len() ==> #[trigger] logits[k] =~= logits_again[k],
    ensures
        greedy_run(tokens, steps, logits) == greedy_run(again, steps, logits_again),
{
    assert(logits =~= logits_again);
}

/// A greedy search adds a token for each step and takes no step once it has
/// ended: it leaves no more than `MAX_DECODE_STEPS` tokens more than it
/// started with, and a sequence that is longer than the context by one token
/// at most, unless its prefix was that long already.
pub proof fn lemma_greedy_run_is_bounded(tokens: Seq<i32>, steps: int, logits: Seq<Seq<u32>>)
    requires
        0 <= steps <= MAX_DECODE_STEPS,
    ensures
        tokens.len() <= greedy_run(tokens, steps, logits).len() <= tokens.len() + (MAX_DECODE_STEPS
            - steps),
        greedy_run(tokens, steps, logits).len() <= tokens.len() + logits.len(),
        greedy_run(tokens, steps, logits).len() <= N_CTX + 1 || greedy_run(
            tokens,
            steps,
            logits,
        ).len() <= tokens.len() + 1,
        greedy_run(tokens, steps, logits).subrange(0, tokens.len() as int) == tokens,
    decreases logits.len(),
{
    if logits.len() == 0 || greedy_finished(tokens, steps) {
        assert(tokens.subrange(0, tokens.len() as int) =~= tokens);
    } else {
        let next = greedy_step(tokens, logits[0]);
        lemma_greedy_run_is_bounded(next, steps + 1, logits.drop_first());
        let end = greedy_run(next, steps + 1, logits.drop_first());
        assert(end.subrange(0, tokens.len() as int) =~= end.subrange(0, next.len() as int).subrange(
            0,
            tokens.len() as int,
        ));
        assert(next.subrange(0, tokens.len() as int) =~= tokens);
        if next.len() > N_CTX {
            if logits.len() > 1 {
                assert(greedy_finished(next, steps + 1));
            }
        }
    }
}

/// A greedy search on one segment.
pub struct GreedySearch<T> {
    tokens: Vec<i32>,
    kv_cache: KVCache<T>,
    initial_len: usize,
    steps: usize,
}

impl<T> GreedySearch<T> {
    #[verifier::type_invariant]
    spec fn well_formed(&self) -> bool {
        &&& self.steps <= MAX_DECODE_STEPS
        &&& self.tokens@.len() == self.initial_len + self.steps
        &&& self.kv_cache.past_len() == positions_covered(
            self.tokens@.len() as int,
            self.initial_len as int,
        )
    }

    /// The tokens so far, the initial prefix first.
    pub closed spec fn tokens(&self) -> Seq<i32> {
        self.tokens@
    }

    /// Length of the initial prefix.
    pub closed spec fn initial_len(&self) -> int {
        self.initial_len as int
    }

    /// Steps taken.
    pub closed spec fn steps(&self) -> int {
        self.steps as int
    }

    /// Positions that the cache covers.
    pub closed spec fn past_len(&self) -> int {
        self.kv_cache.past_len()
    }

    /// The tensors of the cache.
    pub closed spec fn cache_tensors(&self) -> Seq<Option<T>> {
        self.kv_cache.tensors()
    }

    /// Why a step cannot be taken, if it cannot: the search has ended, the
    /// scores are none or too many, or the cache does not fit.
    pub open spec fn step_error(&self, logits: Seq<u32>, shapes: Seq<Vec<usize>>, n_tensors: int) -> Option<
        InferenceError,
    > {
        if greedy_finished(self.tokens(), self.steps()) {
            Some(InferenceError::Finished)
        } else if logits.len() == 0 || logits.len() > i32::MAX {
            Some(InferenceError::Scores(logits.len() as usize))
        } else {
            cache_error(
                self.past_len(),
                fed_tokens(self.tokens(), self.initial_len()).len() as int,
                shapes,
                n_tensors,
            )
        }
    }

    /// Starts a search at the initial prefix, with the empty past.
    pub fn start(initial_tokens: Vec<i32>) -> (search: GreedySearch<T>)
        ensures
            search.tokens() == initial_tokens@,
            search.initial_len() == initial_tokens.len(),
            search.steps() == 0,
            search.past_len() == 0,
            search.cache_tensors().len() == N_CACHE_TENSORS,
            forall|i: int| 0 <= i < N_CACHE_TENSORS ==> (#[trigger] search.cache_tensors()[i]) is None,
    {
        let initial_len = initial_tokens.len();
        GreedySearch { tokens: initial_tokens, kv_cache: KVCache::default(), initial_len, steps: 0 }
    }

    /// Whether the search has ended.
    pub fn is_finished(&self) -> (finished: bool)
        ensures
            finished == greedy_finished(self.tokens(), self.steps()),
    {
        self.steps >= MAX_DECODE_STEPS || (self.steps > 0 && (self.tokens.len() > N_CTX || (
            self.tokens.len() > 0 && self.tokens[self.tokens.len() - 1] == EOT_TOKEN as i32)))
    }

    /// The cache to hand to the decoder. It covers all tokens but the last,
    /// and nothing before the first step.
    pub fn kv_cache(&self) -> (cache: &KVCache<T>)
        ensures
            cache.past_len() == self.past_len(),
            cache.tensors() == self.cache_tensors(),
            cache.past_len() == positions_covered(self.tokens().len() as int, self.initial_len()),
    {
        proof {
            use_type_invariant(self);
        }
        &self.kv_cache
    }

    /// Steps taken so far; the search holds its prefix and one token for
    /// each of them.
    pub fn steps_taken(&self) -> (steps: usize)
        ensures
            steps == self.steps(),
            steps <= MAX_DECODE_STEPS,
            self.tokens().len() == self.initial_len() + steps,
    {
        proof {
            use_type_invariant(self);
        }
        self.steps
    }

    /// Plans the next step, see `plan_step`.
    pub fn plan(&self, n_positions: usize) -> (plan: Result<StepPlan, InferenceError>)
        ensures
            match plan {
                Ok(plan) => {
                    &&& plan.tokens@ == fed_tokens(self.tokens(), self.initial_len())
                    &&& plan.offset == self.past_len()
                    &&& plan.offset + plan.tokens.len() <= n_positions
                },
                Err(InferenceError::PositionsExhausted) => self.past_len() + fed_tokens(
                    self.tokens(),
                    self.initial_len(),
                ).len() > n_positions,
                Err(_) => false,
            },
    {
        plan_step(&self.tokens, self.kv_cache.len(), self.initial_len, n_positions)
    }

    /// Takes a step with what the decoder handed back: the scores of the
    /// last position, and the shapes and the tensors of the new cache. The
    /// token with the greatest score is appended, and the cache grows by the
    /// tokens that were fed.
    pub fn advance(self, logits: &[u32], shapes: &Vec<Vec<usize>>, tensors: Vec<T>) -> (next: Result<
        GreedySearch<T>,
        InferenceError,
    >)
        ensures
            match next {
                Ok(next) => {
                    &&& self.step_error(logits@, shapes@, tensors.len() as int) is None
                    &&& next.tokens() == greedy_step(self.tokens(), logits@)
                    &&& next.steps() == self.steps() + 1
                    &&& next.initial_len() == self.initial_len()
                    &&& next.past_len() == self.past_len() + fed_tokens(
                        self.tokens(),
                        self.initial_len(),
                    ).len()
                    &&& cache_shapes_fit(shapes@, next.past_len(), N_CACHE_TENSORS as int)
                    &&& next.cache_tensors() == held_tensors(tensors@)
                },
                Err(error) => self.step_error(logits@, shapes@, tensors.len() as int) == Some(
                    error,
                ),
            },
    {
        proof {
            use_type_invariant(&self);
        }
        if self.is_finished() {
            return Err(InferenceError::Finished);
        }
        if logits.len() == 0 || logits.len() > i32::MAX as usize {
            return Err(InferenceError::Scores(logits.len()));
        }
        let fed_len: usize = if self.tokens.len() > self.initial_len {
            1
        } else {
            self.tokens.len()
        };
        let kv_cache = match self.kv_cache.advance(fed_len, shapes, tensors) {
            Ok(cache) => cache,
            Err(error) => { return Err(error); },
        };
        let (tokens, _) = GreedyDecoder::new(EOT_TOKEN as u32).update(self.tokens, logits);
        Ok(GreedySearch { tokens, kv_cache, initial_len: self.initial_len, steps: self.steps + 1 })
    }

    /// Ends the search and hands out its tokens.
    pub fn into_tokens(self) -> (tokens: Vec<i32>)
        ensures
            tokens@ == self.tokens(),
    {
        self.tokens
    }
}

} // verus!
