//! Beam search: hypotheses with a cumulative log-probability, their
//! expansion by the best next tokens, and pruning by the score per token.
//!
//! Log-probabilities are fixed-point numbers: natural logarithms in units of
//! `1 / LOG_PROB_SCALE`. Scores are sums of them, so that they are added
//! and compared exactly.

use crate::decode::{
    copy_tokens, fed_tokens, greedy_finished, greedy_run, greedy_step, plan_step,
    positions_covered, StepPlan,
};
use crate::scores::{
    contains_index, first_max, get_top_indices, is_taken, lemma_best_index, top_indices,
};
use crate::utils::{
    cache_error, held_tensors, InferenceError, KVCache, EOT_TOKEN, MAX_DECODE_STEPS,
    N_CACHE_TENSORS, N_CTX, NO_TIMESTAMPS_TOKEN, STARTOFLM_TOKEN,
};
use std::sync::Arc;
use vstd::prelude::*;

verus! {

/// Units of a log-probability in one natural unit.
pub const LOG_PROB_SCALE: i32 = 1048576;

/// The most a score can change in one step.
pub const SCORE_STEP: i64 = 2147483648;

/// The longest token sequence a hypothesis can hold.
pub const LENGTH_LIMIT: usize = 2147483647;

/// A hypothesis: the tokens so far and the sum of the log-probabilities of
/// those that the search chose.
pub struct Hypothesis {
    pub tokens: Seq<i32>,
    pub score: int,
}

/// The scores that the decoder gave for the next token of one hypothesis:
/// the probability of each token as a single-precision bit pattern, and its
/// logarithm in fixed point.
pub struct NextScores {
    pub probs: Seq<u32>,
    pub log_probs: Seq<i32>,
}

/// The id that is appended for the chosen token: `NO_TIMESTAMPS_TOKEN` in
/// place of `STARTOFLM_TOKEN`, and the token itself otherwise.
pub open spec fn remapped(token: int) -> int {
    if token == STARTOFLM_TOKEN {
        NO_TIMESTAMPS_TOKEN as int
    } else {
        token
    }
}

/// Computes the id that is appended for the chosen token.
pub fn remap_token(token: usize) -> (appended: usize)
    ensures
        appended == remapped(token as int),
{
    if token == STARTOFLM_TOKEN {
        NO_TIMESTAMPS_TOKEN
    } else {
        token
    }
}

/// Whether a hypothesis is complete: it ends with the end of text, or it is
/// longer than the context.
pub open spec fn hypothesis_finished(tokens: Seq<i32>) -> bool {
    tokens.len() > N_CTX || (tokens.len() > 0 && tokens.last() == EOT_TOKEN)
}

/// Whether `a` ranks above `b`: its score per token is greater. Both sides
/// are multiplied out, so that nothing is rounded.
pub open spec fn outranks(a: Hypothesis, b: Hypothesis) -> bool {
    a.score * b.tokens.len() > b.score * a.tokens.len()
}

/// The child of `parent` that chooses `token`: the remapped token is
/// appended, and the score grows by the log-probability of the token that
/// was chosen.
pub open spec fn child_of(parent: Hypothesis, scores: NextScores, token: int) -> Hypothesis {
    Hypothesis {
        tokens: parent.tokens.push(remapped(token) as i32),
        score: parent.score + scores.log_probs[token],
    }
}

/// The children of `parent`: one for each of the `width` most probable
/// tokens, most probable first.
pub open spec fn children_of(parent: Hypothesis, scores: NextScores, width: int) -> Seq<Hypothesis> {
    Seq::new(
        top_indices(scores.probs, width).len(),
        |j: int| child_of(parent, scores, top_indices(scores.probs, width)[j] as int),
    )
}

/// What a hypothesis turns into in one step: itself where it is complete,
/// its children otherwise.
pub open spec fn expansion_of(node: Hypothesis, scores: NextScores, width: int) -> Seq<Hypothesis> {
    if hypothesis_finished(node.tokens) {
        seq![node]
    } else {
        children_of(node, scores, width)
    }
}

/// The expansions of the first `n` hypotheses, one after the other.
pub open spec fn expansions_of(
    nodes: Seq<Hypothesis>,
    scores: Seq<NextScores>,
    width: int,
    n: int,
) -> Seq<Hypothesis>
    decreases n,
{
    if n <= 0 {
        Seq::empty()
    } else {
        expansions_of(nodes, scores, width, n - 1) + expansion_of(nodes[n - 1], scores[n - 1], width)
    }
}

/// The highest-ranking of the first `n` hypotheses that are not `taken`, and
/// of several the first; -1 where all are taken.
pub open spec fn best_hypothesis(nodes: Seq<Hypothesis>, taken: Seq<usize>, n: int) -> int
    decreases n,
{
    if n <= 0 {
        -1
    } else {
        let before = best_hypothesis(nodes, taken, n - 1);
        if is_taken(taken, n - 1) {
            before
        } else if before < 0 || outranks(nodes[n - 1], nodes[before]) {
            n - 1
        } else {
            before
        }
    }
}

/// The positions of the `width` highest-ranking hypotheses, highest first;
/// among equals the earlier one comes first.
pub open spec fn top_hypotheses(nodes: Seq<Hypothesis>, width: int) -> Seq<usize>
    decreases width,
{
    if width <= 0 {
        Seq::empty()
    } else {
        let before = top_hypotheses(nodes, width - 1);
        let next = best_hypothesis(nodes, before, nodes.len() as int);
        if next < 0 {
            before
        } else {
            before.push(next as usize)
        }
    }
}

/// The `width` highest-ranking of `nodes`, highest first.
pub open spec fn pruned(nodes: Seq<Hypothesis>, width: int) -> Seq<Hypothesis> {
    Seq::new(top_hypotheses(nodes, width).len(), |j: int| nodes[top_hypotheses(nodes, width)[j] as int])
}

/// The hypotheses after one step of the search.
pub open spec fn beam_step(nodes: Seq<Hypothesis>, scores: Seq<NextScores>, width: int) -> Seq<
    Hypothesis,
> {
    pruned(expansions_of(nodes, scores, width, nodes.len() as int), width)
}

/// The position of the answer among the first `n` hypotheses: the one that
/// no other outranks, and of several the last; -1 where there is none.
pub open spec fn answer_index(nodes: Seq<Hypothesis>, n: int) -> int
    decreases n,
{
    if n <= 0 {
        -1
    } else {
        let before = answer_index(nodes, n - 1);
        if before < 0 || !outranks(nodes[before], nodes[n - 1]) {
            n - 1
        } else {
            before
        }
    }
}

/// `Arc::clone`: another handle to the same cache.
#[verifier::external_body]
fn share_cache<T>(cache: &Arc<KVCache<T>>) -> (shared: Arc<KVCache<T>>)
    ensures
        shared == *cache,
{
    Arc::clone(cache)
}

/// A hypothesis of the search with the cache that its tokens have built up.
pub struct BeamNode<T> {
    tokens: Vec<i32>,
    score: i64,
    kv_cache: Arc<KVCache<T>>,
}

impl<T> View for BeamNode<T> {
    type V = Hypothesis;

    closed spec fn view(&self) -> Hypothesis {
        Hypothesis { tokens: self.tokens@, score: self.score as int }
    }
}

/// Whether a score is one that `len` tokens can have.
pub open spec fn score_in_range(score: int, len: int) -> bool {
    len <= LENGTH_LIMIT && -SCORE_STEP * len <= score <= SCORE_STEP * len
}

impl<T> BeamNode<T> {
    #[verifier::type_invariant]
    spec fn well_formed(&self) -> bool {
        score_in_range(self.score as int, self.tokens@.len() as int)
    }

    /// Positions that the cache covers.
    pub closed spec fn past_len(&self) -> int {
        self.kv_cache.past_len()
    }

    /// The cache.
    pub closed spec fn cache(&self) -> KVCache<T> {
        *self.kv_cache
    }

    /// A hypothesis of the given tokens and score, or `None` where `len`
    /// tokens cannot have that score.
    pub fn new(tokens: Vec<i32>, score: i64, kv_cache: KVCache<T>) -> (node: Option<BeamNode<T>>)
        ensures
            match node {
                Some(node) => {
                    &&& score_in_range(score as int, tokens.len() as int)
                    &&& node@ == Hypothesis { tokens: tokens@, score: score as int }
                    &&& node.cache() == kv_cache
                },
                None => !score_in_range(score as int, tokens.len() as int),
            },
    {
        if tokens.len() > LENGTH_LIMIT {
            return None;
        }
        let bound: i64 = SCORE_STEP * (tokens.len() as i64);
        if score < -bound || score > bound {
            return None;
        }
        Some(BeamNode { tokens, score, kv_cache: Arc::new(kv_cache) })
    }

    /// The tokens so far.
    pub fn tokens(&self) -> (tokens: &Vec<i32>)
        ensures
            tokens@ == self@.tokens,
    {
        &self.tokens
    }

    /// The sum of the log-probabilities of the chosen tokens.
    pub fn score(&self) -> (score: i64)
        ensures
            score == self@.score,
            score_in_range(score as int, self@.tokens.len() as int),
    {
        proof {
            use_type_invariant(self);
        }
        self.score
    }

    /// The cache to hand to the decoder.
    pub fn kv_cache(&self) -> (cache: &KVCache<T>)
        ensures
            *cache == self.cache(),
            cache.past_len() == self.past_len(),
    {
        &self.kv_cache
    }

    /// Whether the hypothesis is complete.
    pub fn is_finished(&self) -> (finished: bool)
        ensures
            finished == hypothesis_finished(self@.tokens),
    {
        self.tokens.len() > N_CTX || (self.tokens.len() > 0 && self.tokens[self.tokens.len() - 1]
            == EOT_TOKEN as i32)
    }

    /// Whether this hypothesis ranks above `other`.
    pub fn ranks_above(&self, other: &BeamNode<T>) -> (above: bool)
        ensures
            above == outranks(self@, other@),
    {
        proof {
            use_type_invariant(self);
            use_type_invariant(other);
        }
        let a: i128 = self.score as i128;
        let b: i128 = other.score as i128;
        let m: i128 = self.tokens.len() as i128;
        let n: i128 = other.tokens.len() as i128;
        assert(-0x2000_0000_0000_0000_0000_0000 <= a * n <= 0x2000_0000_0000_0000_0000_0000)
            by (nonlinear_arith)
            requires
                -0x4000_0000_0000_0000 <= a <= 0x4000_0000_0000_0000,
                0 <= n <= 0x8000_0000,
        ;
        assert(-0x2000_0000_0000_0000_0000_0000 <= b * m <= 0x2000_0000_0000_0000_0000_0000)
            by (nonlinear_arith)
            requires
                -0x4000_0000_0000_0000 <= b <= 0x4000_0000_0000_0000,
                0 <= m <= 0x8000_0000,
        ;
        a * n > b * m
    }

    /// A copy of the hypothesis that shares its cache.
    pub fn duplicate(&self) -> (copy: BeamNode<T>)
        ensures
            copy@ == self@,
            copy.cache() == self.cache(),
    {
        proof {
            use_type_invariant(self);
        }
        let tokens = copy_tokens(self.tokens.as_slice());
        BeamNode { tokens, score: self.score, kv_cache: share_cache(&self.kv_cache) }
    }
}


/// The views of a list of nodes.
pub open spec fn nodes_view<T>(nodes: Seq<BeamNode<T>>) -> Seq<Hypothesis> {
    Seq::new(nodes.len(), |i: int| nodes[i]@)
}

/// What the decoder handed back for one hypothesis: the probability of each
/// next token and its logarithm, and the shapes and the tensors of the new
/// cache.
pub struct BeamOutput<T> {
    pub probs: Vec<u32>,
    pub log_probs: Vec<i32>,
    pub shapes: Vec<Vec<usize>>,
    pub tensors: Vec<T>,
}

impl<T> BeamOutput<T> {
    /// The scores of the next token.
    pub open spec fn scores(&self) -> NextScores {
        NextScores { probs: self.probs@, log_probs: self.log_probs@ }
    }
}

/// What is wrong with what the decoder made of a step that fed `fed_len`
/// tokens over `past_len` positions, if anything: it scores no token or more
/// than ids can number, or lacks a logarithm for a probability, or its cache
/// does not fit.
pub open spec fn output_error<T>(output: BeamOutput<T>, past_len: int, fed_len: int) -> Option<
    InferenceError,
> {
    if output.probs.len() == 0 || output.probs.len() > i32::MAX || output.log_probs.len()
        != output.probs.len() {
        Some(InferenceError::Scores(output.probs.len()))
    } else {
        cache_error(past_len, fed_len, output.shapes@, output.tensors.len() as int)
    }
}

impl<T> BeamNode<T> {
    /// Plans the decoder call for this hypothesis, see `plan_step`.
    pub fn plan(&self, initial_len: usize, n_positions: usize) -> (plan: Result<
        StepPlan,
        InferenceError,
    >)
        ensures
            match plan {
                Ok(plan) => {
                    &&& plan.tokens@ == fed_tokens(self@.tokens, initial_len as int)
                    &&& plan.offset == self.past_len()
                    &&& plan.offset + plan.tokens.len() <= n_positions
                },
                Err(InferenceError::PositionsExhausted) => self.past_len() + fed_tokens(
                    self@.tokens,
                    initial_len as int,
                ).len() > n_positions,
                Err(_) => false,
            },
    {
        plan_step(&self.tokens, self.kv_cache.len(), initial_len, n_positions)
    }

    /// Why a hypothesis cannot be expanded, if it cannot: it is complete,
    /// or something is wrong with what the decoder made of it.
    pub open spec fn expand_error(&self, output: BeamOutput<T>, initial_len: int) -> Option<
        InferenceError,
    > {
        if hypothesis_finished(self@.tokens) {
            Some(InferenceError::Finished)
        } else {
            output_error(
                output,
                self.past_len(),
                fed_tokens(self@.tokens, initial_len).len() as int,
            )
        }
    }

    /// The children of a hypothesis that is not complete, from what the
    /// decoder made of it: one for each of the `width` most probable tokens.
    /// All of them share the new cache.
    pub fn expand(&self, output: BeamOutput<T>, width: usize, initial_len: usize) -> (children:
        Result<Vec<BeamNode<T>>, InferenceError>)
        ensures
            match children {
                Ok(children) => {
                    &&& self.expand_error(output, initial_len as int) is None
                    &&& nodes_view(children@) == children_of(self@, output.scores(), width as int)
                    &&& forall|j: int|
                        0 <= j < children.len() ==> (#[trigger] children[j]).past_len()
                            == self.past_len() + fed_tokens(self@.tokens, initial_len as int).len()
                            && children[j].cache().tensors() == held_tensors(output.tensors@)
                },
                Err(error) => self.expand_error(output, initial_len as int) == Some(error),
            },
    {
        proof {
            use_type_invariant(self);
        }
        if self.is_finished() {
            return Err(InferenceError::Finished);
        }
        let n_scores = output.probs.len();
        if n_scores == 0 || n_scores > i32::MAX as usize || output.log_probs.len() != n_scores {
            return Err(InferenceError::Scores(n_scores));
        }
        let fed_len: usize = if self.tokens.len() > initial_len {
            1
        } else {
            self.tokens.len()
        };
        let picks = get_top_indices(output.probs.as_slice(), width);
        let ghost scores = output.scores();
        let ghost handed = output.tensors@;
        let log_probs = output.log_probs;
        let cache = match self.kv_cache.advance(fed_len, &output.shapes, output.tensors) {
            Ok(cache) => Arc::new(cache),
            Err(error) => { return Err(error); },
        };
        proof {
            crate::scores::lemma_top_indices_in_range(scores.probs, width as int);
        }
        let mut children: Vec<BeamNode<T>> = Vec::new();
        let mut j: usize = 0;
        while j < picks.len()
            invariant
                j <= picks.len(),
                picks@ == top_indices(scores.probs, width as int),
                forall|k: int| 0 <= k < picks.len() ==> (#[trigger] picks[k]) < scores.probs.len(),
                scores.log_probs == log_probs@,
                scores.probs.len() == log_probs.len(),
                scores.probs.len() <= i32::MAX,
                score_in_range(self.score as int, self.tokens@.len() as int),
                self.tokens@.len() <= N_CTX,
                children.len() == j,
                cache.past_len() == self.past_len() + fed_len,
                cache.tensors() == held_tensors(handed),
                forall|k: int|
                    0 <= k < j ==> (#[trigger] children[k])@ == child_of(
                        self@,
                        scores,
                        picks[k] as int,
                    ) && children[k].cache() == *cache,
            decreases picks.len() - j,
        {
            let token = picks[j];
            let mut tokens = copy_tokens(self.tokens.as_slice());
            tokens.push(remap_token(token) as i32);
            let score: i64 = self.score + log_probs[token] as i64;
            children.push(BeamNode { tokens, score, kv_cache: share_cache(&cache) });
            j += 1;
        }
        assert(nodes_view(children@) =~= children_of(self@, scores, width as int));
        Ok(children)
    }
}


/// The tensors of the caches of a list of nodes.
pub open spec fn caches_view<T>(nodes: Seq<BeamNode<T>>) -> Seq<Seq<Option<T>>> {
    Seq::new(nodes.len(), |i: int| nodes[i].cache().tensors())
}

/// The caches of what a node turns into in one step: its own where it is
/// complete, and for each of its children the tensors that the decoder
/// handed out.
pub open spec fn expansion_caches<T>(node: BeamNode<T>, output: Option<BeamOutput<T>>, width: int) -> Seq<
    Seq<Option<T>>,
> {
    if hypothesis_finished(node@.tokens) {
        seq![node.cache().tensors()]
    } else {
        Seq::new(
            top_indices(output->0.probs@, width).len(),
            |j: int| held_tensors(output->0.tensors@),
        )
    }
}

/// The caches of the expansions of the first `n` nodes, one after the
/// other.
pub open spec fn expansions_caches<T>(
    nodes: Seq<BeamNode<T>>,
    outputs: Seq<Option<BeamOutput<T>>>,
    width: int,
    n: int,
) -> Seq<Seq<Option<T>>>
    decreases n,
{
    if n <= 0 {
        Seq::empty()
    } else {
        expansions_caches(nodes, outputs, width, n - 1) + expansion_caches(
            nodes[n - 1],
            outputs[n - 1],
            width,
        )
    }
}

/// The caches of the `width` highest-ranking of `nodes`, where `caches`
/// holds the cache of each node.
pub open spec fn pruned_caches<T>(caches: Seq<Seq<Option<T>>>, nodes: Seq<Hypothesis>, width: int) -> Seq<
    Seq<Option<T>>,
> {
    Seq::new(
        top_hypotheses(nodes, width).len(),
        |j: int| caches[top_hypotheses(nodes, width)[j] as int],
    )
}

/// The scores that come with a list of outputs; a hypothesis without output
/// has none.
pub open spec fn output_scores<T>(outputs: Seq<Option<BeamOutput<T>>>) -> Seq<NextScores> {
    Seq::new(
        outputs.len(),
        |i: int|
            match outputs[i] {
                Some(output) => output.scores(),
                None => NextScores { probs: Seq::empty(), log_probs: Seq::empty() },
            },
    )
}

/// Finds the highest-ranking of `nodes` that is not `taken`.
pub fn best_unpicked<T>(nodes: &Vec<BeamNode<T>>, taken: &Vec<usize>) -> (best: Option<usize>)
    ensures
        match best {
            Some(index) => index == best_hypothesis(nodes_view(nodes@), taken@, nodes.len() as int)
                && index < nodes.len(),
            None => best_hypothesis(nodes_view(nodes@), taken@, nodes.len() as int) < 0,
        },
{
    let mut best: Option<usize> = None;
    let mut n: usize = 0;
    while n < nodes.len()
        invariant
            n <= nodes.len(),
            match best {
                Some(index) => index == best_hypothesis(nodes_view(nodes@), taken@, n as int)
                    && index < n,
                None => best_hypothesis(nodes_view(nodes@), taken@, n as int) < 0,
            },
        decreases nodes.len() - n,
    {
        if !contains_index(taken, n) {
            best = match best {
                Some(index) => {
                    if nodes[n].ranks_above(&nodes[index]) {
                        Some(n)
                    } else {
                        Some(index)
                    }
                },
                None => Some(n),
            };
        }
        n += 1;
    }
    best
}

/// Keeps the `width` highest-ranking of `nodes`, highest first; among equals
/// the earlier one comes first.
pub fn prune<T>(nodes: &Vec<BeamNode<T>>, width: usize) -> (kept: Vec<BeamNode<T>>)
    ensures
        nodes_view(kept@) == pruned(nodes_view(nodes@), width as int),
        caches_view(kept@) == pruned_caches(caches_view(nodes@), nodes_view(nodes@), width as int),
        kept.len() == top_hypotheses(nodes_view(nodes@), width as int).len(),
        forall|j: int|
            0 <= j < kept.len() ==> top_hypotheses(nodes_view(nodes@), width as int)[j] < nodes.len()
                && (#[trigger] kept[j]).cache() == nodes[top_hypotheses(
                nodes_view(nodes@),
                width as int,
            )[j] as int].cache() && kept[j]@ == nodes[top_hypotheses(
                nodes_view(nodes@),
                width as int,
            )[j] as int]@,
{
    let mut picks: Vec<usize> = Vec::new();
    let mut kept: Vec<BeamNode<T>> = Vec::new();
    let mut round: usize = 0;
    while round < width
        invariant
            round <= width,
            picks@ == top_hypotheses(nodes_view(nodes@), round as int),
            kept.len() == picks.len(),
            forall|j: int|
                0 <= j < kept.len() ==> (#[trigger] picks[j]) < nodes.len() && kept[j]@
                    == nodes[picks[j] as int]@ && kept[j].cache() == nodes[picks[j] as int].cache(),
        decreases width - round,
    {
        match best_unpicked(nodes, &picks) {
            Some(index) => {
                picks.push(index);
                kept.push(nodes[index].duplicate());
            },
            None => {},
        }
        round += 1;
    }
    assert(nodes_view(kept@) =~= pruned(nodes_view(nodes@), width as int));
    assert(caches_view(kept@) =~= pruned_caches(
        caches_view(nodes@),
        nodes_view(nodes@),
        width as int,
    ));
    kept
}

/// Finds the answer among `nodes`: the one that no other outranks, and of
/// several the last.
pub fn find_answer<T>(nodes: &Vec<BeamNode<T>>) -> (answer: Option<usize>)
    ensures
        match answer {
            Some(index) => index == answer_index(nodes_view(nodes@), nodes.len() as int) && index
                < nodes.len(),
            None => nodes.len() == 0,
        },
{
    let mut answer: Option<usize> = None;
    let mut n: usize = 0;
    while n < nodes.len()
        invariant
            n <= nodes.len(),
            match answer {
                Some(index) => index == answer_index(nodes_view(nodes@), n as int) && index < n,
                None => n == 0 && answer_index(nodes_view(nodes@), n as int) < 0,
            },
        decreases nodes.len() - n,
    {
        assert(nodes_view(nodes@)[n as int] == nodes[n as int]@);
        answer = match answer {
            Some(index) => {
                assert(nodes_view(nodes@)[index as int] == nodes[index as int]@);
                if nodes[index].ranks_above(&nodes[n]) {
                    Some(index)
                } else {
                    Some(n)
                }
            },
            None => Some(n),
        };
        n += 1;
    }
    answer
}

/// Whether every node holds the prefix at least, and a cache that covers
/// all of its tokens but the last, or nothing before its first step.
pub open spec fn caches_cover<T>(nodes: Seq<BeamNode<T>>, initial_len: int) -> bool {
    forall|i: int|
        0 <= i < nodes.len() ==> (#[trigger] nodes[i])@.tokens.len() >= initial_len
            && nodes[i].past_len() == positions_covered(
            nodes[i]@.tokens.len() as int,
            initial_len,
        )
}

/// A beam search on one segment.
pub struct BeamSearch<T> {
    beams: Vec<BeamNode<T>>,
    width: usize,
    initial_len: usize,
    steps: usize,
}

impl<T> BeamSearch<T> {
    #[verifier::type_invariant]
    spec fn well_formed(&self) -> bool {
        &&& self.steps <= MAX_DECODE_STEPS
        &&& caches_cover(self.beams@, self.initial_len as int)
    }

    /// The hypotheses, highest-ranking first.
    pub closed spec fn hypotheses(&self) -> Seq<Hypothesis> {
        nodes_view(self.beams@)
    }

    /// The nodes that hold the hypotheses.
    pub closed spec fn nodes(&self) -> Seq<BeamNode<T>> {
        self.beams@
    }

    /// Hypotheses that are kept after each step.
    pub closed spec fn width(&self) -> int {
        self.width as int
    }

    /// Length of the initial prefix.
    pub closed spec fn initial_len(&self) -> int {
        self.initial_len as int
    }

    /// Steps taken.
    pub closed spec fn steps(&self) -> int {
        self.steps as int
    }

    /// The first thing wrong among the first `n` hypotheses, if anything:
    /// a hypothesis that is not complete and came without output, or with
    /// one that does not fit it.
    pub open spec fn beam_error(&self, outputs: Seq<Option<BeamOutput<T>>>, n: int) -> Option<
        InferenceError,
    >
        decreases n,
    {
        if n <= 0 {
            None
        } else if self.beam_error(outputs, n - 1) is Some {
            self.beam_error(outputs, n - 1)
        } else if hypothesis_finished(self.hypotheses()[n - 1].tokens) {
            None
        } else {
            match outputs[n - 1] {
                Some(output) => self.nodes()[n - 1].expand_error(output, self.initial_len()),
                None => Some(InferenceError::MissingOutput((n - 1) as usize)),
            }
        }
    }

    /// Why a step cannot be taken, if it cannot: the search has taken all
    /// its steps, `outputs` has not an entry for each hypothesis, or
    /// something is wrong with one of them.
    pub open spec fn step_error(&self, outputs: Seq<Option<BeamOutput<T>>>) -> Option<InferenceError> {
        if self.steps() >= MAX_DECODE_STEPS {
            Some(InferenceError::Finished)
        } else if outputs.len() != self.nodes().len() {
            Some(InferenceError::MissingOutput(outputs.len() as usize))
        } else {
            self.beam_error(outputs, self.nodes().len() as int)
        }
    }

    /// Starts a search of the given width at the initial prefix, with a
    /// score of zero and the empty past. There is none for a prefix longer
    /// than `LENGTH_LIMIT`.
    pub fn start(initial_tokens: Vec<i32>, width: usize) -> (search: Option<BeamSearch<T>>)
        ensures
            match search {
                Some(search) => {
                    &&& initial_tokens.len() <= LENGTH_LIMIT
                    &&& search.hypotheses() == seq![
                        Hypothesis { tokens: initial_tokens@, score: 0 },
                    ]
                    &&& search.nodes()[0].past_len() == 0
                    &&& search.nodes()[0].cache().tensors().len() == N_CACHE_TENSORS
                    &&& forall|i: int|
                        0 <= i < N_CACHE_TENSORS ==> (#[trigger] search.nodes()[0].cache().tensors()[
                            i
                        ]) is None
                    &&& search.width() == width
                    &&& search.initial_len() == initial_tokens.len()
                    &&& search.steps() == 0
                },
                None => initial_tokens.len() > LENGTH_LIMIT,
            },
    {
        let initial_len = initial_tokens.len();
        match BeamNode::new(initial_tokens, 0, KVCache::default()) {
            Some(root) => {
                let mut beams: Vec<BeamNode<T>> = Vec::new();
                beams.push(root);
                let search = BeamSearch { beams, width, initial_len, steps: 0 };
                assert(search.hypotheses() =~= seq![root@]);
                Some(search)
            },
            None => None,
        }
    }

    /// Whether the search has taken all its steps.
    pub fn is_finished(&self) -> (finished: bool)
        ensures
            finished == (self.steps() >= MAX_DECODE_STEPS),
    {
        self.steps >= MAX_DECODE_STEPS
    }

    /// The nodes that hold the hypotheses.
    pub fn beams(&self) -> (beams: &Vec<BeamNode<T>>)
        ensures
            beams@ == self.nodes(),
            nodes_view(beams@) == self.hypotheses(),
            caches_cover(beams@, self.initial_len()),
    {
        proof {
            use_type_invariant(self);
        }
        &self.beams
    }

    /// Length of the initial prefix.
    pub fn prefix_len(&self) -> (len: usize)
        ensures
            len == self.initial_len(),
    {
        self.initial_len
    }

    /// Takes a step. `outputs` holds, for each hypothesis in order, what the
    /// decoder made of it; a complete hypothesis needs none and is carried
    /// over as it is. Every other one is replaced by its children, and of
    /// all of them the `width` highest-ranking are kept.
    pub fn advance(self, outputs: Vec<Option<BeamOutput<T>>>) -> (next: Result<
        BeamSearch<T>,
        InferenceError,
    >)
        ensures
            match next {
                Ok(next) => {
                    &&& self.step_error(outputs@) is None
                    &&& next.hypotheses() == beam_step(
                        self.hypotheses(),
                        output_scores(outputs@),
                        self.width(),
                    )
                    &&& caches_view(next.nodes()) == pruned_caches(
                        expansions_caches(
                            self.nodes(),
                            outputs@,
                            self.width(),
                            self.nodes().len() as int,
                        ),
                        expansions_of(
                            self.hypotheses(),
                            output_scores(outputs@),
                            self.width(),
                            self.nodes().len() as int,
                        ),
                        self.width(),
                    )
                    &&& next.width() == self.width()
                    &&& next.initial_len() == self.initial_len()
                    &&& next.steps() == self.steps() + 1
                },
                Err(error) => self.step_error(outputs@) == Some(error),
            },
    {
        proof {
            use_type_invariant(&self);
        }
        if self.steps >= MAX_DECODE_STEPS {
            return Err(InferenceError::Finished);
        }
        if outputs.len() != self.beams.len() {
            return Err(InferenceError::MissingOutput(outputs.len()));
        }
        let ghost handed = outputs@;
        let ghost nodes = nodes_view(self.beams@);
        let ghost scores = output_scores(handed);
        let mut rest = outputs;
        let mut all: Vec<BeamNode<T>> = Vec::new();
        let mut i: usize = 0;
        while i < self.beams.len()
            invariant
                i <= self.beams.len() == handed.len(),
                self.steps < MAX_DECODE_STEPS,
                handed == outputs@,
                nodes == nodes_view(self.beams@),
                scores == output_scores(handed),
                rest@ == handed.subrange(i as int, handed.len() as int),
                nodes_view(all@) == expansions_of(nodes, scores, self.width as int, i as int),
                caches_view(all@) == expansions_caches(
                    self.beams@,
                    handed,
                    self.width as int,
                    i as int,
                ),
                caches_cover(self.beams@, self.initial_len as int),
                caches_cover(all@, self.initial_len as int),
                self.beam_error(handed, i as int) is None,
            decreases self.beams.len() - i,
        {
            let output = rest.remove(0);
            assert(output == handed[i as int]);
            assert(rest@ =~= handed.subrange(i + 1, handed.len() as int));
            assert(nodes[i as int] == self.beams@[i as int]@);
            let ghost before = nodes_view(all@);
            let ghost caches_before = caches_view(all@);
            if self.beams[i].is_finished() {
                all.push(self.beams[i].duplicate());
                assert(nodes_view(all@) =~= before + seq![nodes[i as int]]);
                assert(caches_view(all@) =~= caches_before + seq![
                    self.beams@[i as int].cache().tensors(),
                ]);
            } else {
                match output {
                    Some(output) => {
                        let ghost given = output.scores();
                        let ghost tensors = output.tensors@;
                        let mut children = match self.beams[i].expand(output, self.width, self.initial_len) {
                            Ok(children) => children,
                            Err(error) => {
                                proof {
                                    self.lemma_beam_error_stays(
                                        handed,
                                        i as int,
                                        self.beams@.len() as int,
                                    );
                                }
                                return Err(error);
                            },
                        };
                        let ghost added = nodes_view(children@);
                        let ghost grown = children@;
                        assert(added == children_of(
                            self.beams@[i as int]@,
                            given,
                            self.width as int,
                        ));
                        assert(added.len() == top_indices(given.probs, self.width as int).len());
                        assert forall|k: int| 0 <= k < grown.len() implies (#[trigger] grown[k])@.tokens.len()
                            == nodes[i as int].tokens.len() + 1 by {
                            assert(added[k] == grown[k]@);
                            assert(added[k] == child_of(
                                nodes[i as int],
                                given,
                                top_indices(given.probs, self.width as int)[k] as int,
                            ));
                        }
                        let ghost added_caches = caches_view(children@);
                        assert(added_caches =~= expansion_caches(
                            self.beams@[i as int],
                            handed[i as int],
                            self.width as int,
                        )) by {
                            assert forall|k: int| 0 <= k < grown.len() implies added_caches[k]
                                == held_tensors(tensors) by {
                                assert(grown[k].cache().tensors() == held_tensors(tensors));
                            }
                        }
                        all.append(&mut children);
                        assert(nodes_view(all@) =~= before + added);
                        assert(caches_view(all@) =~= caches_before + added_caches);
                    },
                    None => {
                        proof {
                            self.lemma_beam_error_stays(handed, i as int, self.beams@.len() as int);
                        }
                        return Err(InferenceError::MissingOutput(i));
                    },
                }
            }
            i += 1;
        }
        let beams = prune(&all, self.width);
        Ok(BeamSearch { beams, width: self.width, initial_len: self.initial_len, steps: self.steps + 1 })
    }

    /// The first thing wrong among the hypotheses up to one is the first
    /// among any more of them.
    pub proof fn lemma_beam_error_stays(&self, outputs: Seq<Option<BeamOutput<T>>>, at: int, n: int)
        requires
            0 <= at < n,
            self.beam_error(outputs, at + 1) is Some,
        ensures
            self.beam_error(outputs, n) == self.beam_error(outputs, at + 1),
        decreases n,
    {
        if n > at + 1 {
            self.lemma_beam_error_stays(outputs, at, n - 1);
        }
    }

    /// The answer of the search: the tokens of the hypothesis that no other
    /// outranks, and of several such the last. A search without hypotheses
    /// has none.
    pub fn answer(&self) -> (tokens: Option<&Vec<i32>>)
        ensures
            match tokens {
                Some(tokens) => self.hypotheses().len() > 0 && tokens@ == self.hypotheses()[answer_index(
                    self.hypotheses(),
                    self.hypotheses().len() as int,
                )].tokens,
                None => self.hypotheses().len() == 0,
            },
    {
        match find_answer(&self.beams) {
            Some(index) => Some(self.beams[index].tokens()),
            None => None,
        }
    }
}


/// The hypotheses that a search leaves, started at `nodes` after `steps`
/// steps and given, for each step to come, the scores for each hypothesis:
/// it takes a step on each until it has taken `MAX_DECODE_STEPS` steps or
/// the scores have run out.
pub open spec fn beam_run(
    nodes: Seq<Hypothesis>,
    steps: int,
    scores: Seq<Seq<NextScores>>,
    width: int,
) -> Seq<Hypothesis>
    decreases scores.len(),
{
    if scores.len() == 0 || steps >= MAX_DECODE_STEPS {
        nodes
    } else {
        beam_run(beam_step(nodes, scores[0], width), steps + 1, scores.drop_first(), width)
    }
}

/// The probabilities that each step gives to the first hypothesis.
pub open spec fn first_probs(scores: Seq<Seq<NextScores>>) -> Seq<Seq<u32>> {
    Seq::new(scores.len(), |k: int| scores[k][0].probs)
}

/// Whether a greedy search on the probabilities of `scores` chooses
/// `STARTOFLM_TOKEN` at none of the steps it takes.
pub open spec fn never_chooses_startoflm(tokens: Seq<i32>, steps: int, scores: Seq<Seq<NextScores>>) -> bool
    decreases scores.len(),
{
    if scores.len() == 0 || greedy_finished(tokens, steps) {
        true
    } else {
        first_max(scores[0][0].probs) != STARTOFLM_TOKEN && never_chooses_startoflm(
            greedy_step(tokens, scores[0][0].probs),
            steps + 1,
            scores.drop_first(),
        )
    }
}

/// A step of width one on a single hypothesis: a complete hypothesis stays,
/// and any other is replaced by the child that chooses the most probable
/// token.
pub proof fn lemma_single_step(node: Hypothesis, scores: Seq<NextScores>)
    requires
        scores.len() == 1,
        0 < scores[0].probs.len() <= i32::MAX,
    ensures
        beam_step(seq![node], scores, 1) == if hypothesis_finished(node.tokens) {
            seq![node]
        } else {
            seq![child_of(node, scores[0], first_max(scores[0].probs))]
        },
{
    let nodes = seq![node];
    let probs = scores[0].probs;
    let none = Seq::<usize>::empty();
    assert(top_indices(probs, 0) == none);
    lemma_best_index(probs, none, probs.len() as int);
    assert(!is_taken(none, 0));
    assert(0 <= first_max(probs) < probs.len());
    assert(top_indices(probs, 1) == none.push(first_max(probs) as usize));
    assert(top_indices(probs, 1).len() == 1);
    assert(top_indices(probs, 1)[0] as int == first_max(probs));
    if !hypothesis_finished(node.tokens) {
        assert(children_of(node, scores[0], 1) =~= seq![
            child_of(node, scores[0], first_max(probs)),
        ]);
    }
    assert(expansions_of(nodes, scores, 1, 0) == Seq::<Hypothesis>::empty());
    let grown = expansions_of(nodes, scores, 1, 1);
    assert(grown == Seq::<Hypothesis>::empty() + expansion_of(node, scores[0], 1));
    let only = if hypothesis_finished(node.tokens) {
        node
    } else {
        child_of(node, scores[0], first_max(probs))
    };
    assert(grown =~= seq![only]);
    assert(top_hypotheses(grown, 0) == none);
    assert(best_hypothesis(grown, none, 0) == -1);
    assert(best_hypothesis(grown, none, 1) == 0);
    assert(top_hypotheses(grown, 1) == none.push(0usize));
    assert(pruned(grown, 1) =~= seq![only]);
}

/// A complete hypothesis is all that a search of width one leaves of it.
pub proof fn lemma_complete_stays(node: Hypothesis, steps: int, scores: Seq<Seq<NextScores>>)
    requires
        hypothesis_finished(node.tokens),
        forall|k: int|
            0 <= k < scores.len() ==> (#[trigger] scores[k]).len() == 1 && 0
                < scores[k][0].probs.len() <= i32::MAX,
    ensures
        beam_run(seq![node], steps, scores, 1) == seq![node],
    decreases scores.len(),
{
    if scores.len() > 0 && steps < MAX_DECODE_STEPS {
        lemma_single_step(node, scores[0]);
        let rest = scores.drop_first();
        assert forall|k: int| 0 <= k < rest.len() implies (#[trigger] rest[k]).len() == 1 && 0
            < rest[k][0].probs.len() <= i32::MAX by {
            assert(rest[k] == scores[k + 1]);
        }
        lemma_complete_stays(node, steps + 1, rest);
    }
}

/// A beam search of width one leaves the tokens that the greedy search
/// leaves, given the same scores at every step, where the greedy search
/// never chooses `STARTOFLM_TOKEN` (which the beam search replaces) and the
/// prefix is not complete before the first step (which the greedy search
/// takes in any case).
pub proof fn lemma_width_one_is_greedy(
    tokens: Seq<i32>,
    score: int,
    steps: int,
    scores: Seq<Seq<NextScores>>,
)
    requires
        0 <= steps,
        steps > 0 || !hypothesis_finished(tokens),
        forall|k: int|
            0 <= k < scores.len() ==> (#[trigger] scores[k]).len() == 1 && 0
                < scores[k][0].probs.len() <= i32::MAX,
        never_chooses_startoflm(tokens, steps, scores),
    ensures
        beam_run(seq![Hypothesis { tokens, score }], steps, scores, 1).len() == 1,
        beam_run(seq![Hypothesis { tokens, score }], steps, scores, 1)[0].tokens == greedy_run(
            tokens,
            steps,
            first_probs(scores),
        ),
    decreases scores.len(),
{
    let node = Hypothesis { tokens, score };
    if scores.len() == 0 || steps >= MAX_DECODE_STEPS {
    } else if hypothesis_finished(tokens) {
        lemma_complete_stays(node, steps, scores);
    } else {
        lemma_single_step(node, scores[0]);
        let probs = scores[0][0].probs;
        let child = child_of(node, scores[0][0], first_max(probs));
        let rest = scores.drop_first();
        assert(first_probs(scores)[0] == probs);
        assert(first_probs(scores).drop_first() =~= first_probs(rest));
        assert(child.tokens == greedy_step(tokens, probs));
        assert forall|k: int| 0 <= k < rest.len() implies (#[trigger] rest[k]).len() == 1
            && rest[k][0].probs.len() > 0 && rest[k][0].probs.len() <= i32::MAX by {
            assert(rest[k] == scores[k + 1]);
        }
        lemma_width_one_is_greedy(child.tokens, child.score, steps + 1, rest);
    }
}

/// Ranking is transitive: a hypothesis that is not outranked by a second,
/// which is not outranked by a third, is not outranked by the third.
pub proof fn lemma_ranking_is_transitive(a: Hypothesis, b: Hypothesis, c: Hypothesis)
    requires
        a.tokens.len() > 0,
        b.tokens.len() > 0,
        c.tokens.len() > 0,
        !outranks(b, a),
        !outranks(c, b),
    ensures
        !outranks(c, a),
        outranks(a, b) || outranks(b, c) ==> outranks(a, c),
{
    let (s1, n1) = (a.score, a.tokens.len() as int);
    let (s2, n2) = (b.score, b.tokens.len() as int);
    let (s3, n3) = (c.score, c.tokens.len() as int);
    assert(s2 * n1 <= s1 * n2);
    assert(s3 * n2 <= s2 * n3);
    assert((s3 * n1) * n2 <= (s1 * n3) * n2) by (nonlinear_arith)
        requires
            s2 * n1 <= s1 * n2,
            s3 * n2 <= s2 * n3,
            n1 > 0,
            n2 > 0,
            n3 > 0,
    {
        assert((s3 * n2) * n1 <= (s2 * n3) * n1);
        assert((s2 * n1) * n3 <= (s1 * n2) * n3);
    }
    assert(s3 * n1 <= s1 * n3) by (nonlinear_arith)
        requires
            (s3 * n1) * n2 <= (s1 * n3) * n2,
            n2 > 0,
    ;
    if outranks(a, b) || outranks(b, c) {
        assert((s3 * n1) * n2 < (s1 * n3) * n2) by (nonlinear_arith)
            requires
                s2 * n1 <= s1 * n2,
                s3 * n2 <= s2 * n3,
                s2 * n1 < s1 * n2 || s3 * n2 < s2 * n3,
                n1 > 0,
                n2 > 0,
                n3 > 0,
        {
            assert((s3 * n2) * n1 <= (s2 * n3) * n1);
            assert((s2 * n1) * n3 <= (s1 * n2) * n3);
            if s2 * n1 < s1 * n2 {
                assert((s2 * n1) * n3 < (s1 * n2) * n3);
            } else {
                assert((s3 * n2) * n1 < (s2 * n3) * n1);
            }
        }
        assert(s3 * n1 < s1 * n3) by (nonlinear_arith)
            requires
                (s3 * n1) * n2 < (s1 * n3) * n2,
                n2 > 0,
        ;
    }
}

/// Whether each of the first `n` hypotheses holds a token at least.
pub open spec fn all_hold_tokens(nodes: Seq<Hypothesis>, n: int) -> bool {
    forall|i: int| 0 <= i < n ==> (#[trigger] nodes[i]).tokens.len() > 0
}

/// The answer is outranked by none of the hypotheses.
pub proof fn lemma_answer_is_best(nodes: Seq<Hypothesis>, n: int)
    requires
        0 < n <= nodes.len(),
        all_hold_tokens(nodes, n),
    ensures
        0 <= answer_index(nodes, n) < n,
        forall|i: int| 0 <= i < n ==> !outranks(#[trigger] nodes[i], nodes[answer_index(nodes, n)]),
    decreases n,
{
    if n > 1 {
        lemma_answer_is_best(nodes, n - 1);
        let before = answer_index(nodes, n - 1);
        let now = answer_index(nodes, n);
        if now == n - 1 {
            assert forall|i: int| 0 <= i < n implies !outranks(#[trigger] nodes[i], nodes[now]) by {
                if i < n - 1 {
                    lemma_ranking_is_transitive(nodes[now], nodes[before], nodes[i]);
                }
            }
        }
    } else {
        assert(answer_index(nodes, 0) == -1);
    }
}

/// Swapping a hypothesis for one that outranks it does not worsen the
/// answer: the answer of before does not outrank the answer of after.
pub proof fn lemma_better_beam_keeps_answer(nodes: Seq<Hypothesis>, index: int, better: Hypothesis)
    requires
        0 <= index < nodes.len(),
        all_hold_tokens(nodes, nodes.len() as int),
        better.tokens.len() > 0,
        outranks(better, nodes[index]),
    ensures
        !outranks(
            nodes[answer_index(nodes, nodes.len() as int)],
            nodes.update(index, better)[answer_index(
                nodes.update(index, better),
                nodes.len() as int,
            )],
        ),
{
    let n = nodes.len() as int;
    let swapped = nodes.update(index, better);
    assert(all_hold_tokens(swapped, n));
    lemma_answer_is_best(nodes, n);
    lemma_answer_is_best(swapped, n);
    let old = answer_index(nodes, n);
    let new = answer_index(swapped, n);
    if old != index {
        assert(swapped[old] == nodes[old]);
    } else {
        assert(swapped[index] == better);
        lemma_ranking_is_transitive(swapped[new], better, nodes[index]);
    }
}


/// Whether the hypothesis at `a` comes before the one at `b` when they are
/// sorted: it outranks the other, or neither outranks the other and it
/// stands earlier.
pub open spec fn sorts_before(nodes: Seq<Hypothesis>, a: int, b: int) -> bool {
    outranks(nodes[a], nodes[b]) || (!outranks(nodes[b], nodes[a]) && a < b)
}

/// What `best_hypothesis` is: a position that is not taken and sorts before
/// every other such position.
pub proof fn lemma_best_hypothesis(nodes: Seq<Hypothesis>, taken: Seq<usize>, n: int)
    requires
        0 <= n <= nodes.len(),
        all_hold_tokens(nodes, n),
    ensures
        -1 <= best_hypothesis(nodes, taken, n) < n,
        best_hypothesis(nodes, taken, n) < 0 <==> forall|i: int| 0 <= i < n ==> is_taken(taken, i),
        best_hypothesis(nodes, taken, n) >= 0 ==> !is_taken(taken, best_hypothesis(nodes, taken, n)),
        forall|i: int|
            #![trigger is_taken(taken, i)]
            0 <= i < n && !is_taken(taken, i) && i != best_hypothesis(nodes, taken, n)
                ==> sorts_before(nodes, best_hypothesis(nodes, taken, n), i),
    decreases n,
{
    if n > 0 {
        lemma_best_hypothesis(nodes, taken, n - 1);
        let before = best_hypothesis(nodes, taken, n - 1);
        let best = best_hypothesis(nodes, taken, n);
        if !is_taken(taken, n - 1) && before >= 0 && outranks(nodes[n - 1], nodes[before]) {
            assert forall|i: int|
                #![trigger is_taken(taken, i)]
                0 <= i < n && !is_taken(taken, i) && i != best implies sorts_before(
                nodes,
                best,
                i,
            ) by {
                if i != before {
                    assert(sorts_before(nodes, before, i));
                }
                lemma_ranking_is_transitive(nodes[n - 1], nodes[before], nodes[i]);
            }
        }
    }
}

/// The hypotheses that are kept are in sorted order, every other one sorts
/// after all of them, and fewer than were asked for leave none out.
pub proof fn lemma_top_hypotheses_are_sorted(nodes: Seq<Hypothesis>, width: int)
    requires
        nodes.len() <= usize::MAX,
        all_hold_tokens(nodes, nodes.len() as int),
    ensures
        forall|k: int|
            0 <= k < top_hypotheses(nodes, width).len() ==> (#[trigger] top_hypotheses(
                nodes,
                width,
            )[k]) < nodes.len(),
        forall|j: int, k: int|
            0 <= j < k < top_hypotheses(nodes, width).len() ==> sorts_before(
                nodes,
                #[trigger] top_hypotheses(nodes, width)[j] as int,
                #[trigger] top_hypotheses(nodes, width)[k] as int,
            ),
        forall|i: int, k: int|
            #![trigger is_taken(top_hypotheses(nodes, width), i), top_hypotheses(nodes, width)[k]]
            0 <= i < nodes.len() && !is_taken(top_hypotheses(nodes, width), i) && 0 <= k
                < top_hypotheses(nodes, width).len() ==> sorts_before(
                nodes,
                top_hypotheses(nodes, width)[k] as int,
                i,
            ),
        0 <= width && top_hypotheses(nodes, width).len() < width ==> forall|i: int|
            0 <= i < nodes.len() ==> is_taken(top_hypotheses(nodes, width), i),
    decreases width,
{
    if width > 0 {
        let before = top_hypotheses(nodes, width - 1);
        let picks = top_hypotheses(nodes, width);
        let next = best_hypothesis(nodes, before, nodes.len() as int);
        lemma_top_hypotheses_are_sorted(nodes, width - 1);
        lemma_best_hypothesis(nodes, before, nodes.len() as int);
        if next >= 0 {
            assert forall|j: int, k: int| 0 <= j < k < picks.len() implies sorts_before(
                nodes,
                #[trigger] picks[j] as int,
                #[trigger] picks[k] as int,
            ) by {
                if k == before.len() {
                    assert(picks[j] == before[j]);
                    assert(!is_taken(before, next));
                    assert(sorts_before(nodes, before[j] as int, next));
                } else {
                    assert(picks[j] == before[j] && picks[k] == before[k]);
                }
            }
            assert forall|i: int, k: int|
                #![trigger is_taken(picks, i), picks[k]]
                0 <= i < nodes.len() && !is_taken(picks, i) && 0 <= k < picks.len() implies sorts_before(
                nodes,
                picks[k] as int,
                i,
            ) by {
                if is_taken(before, i) {
                    let at = choose|at: int| 0 <= at < before.len() && before[at] == i;
                    assert(picks[at] == i);
                }
                if k < before.len() {
                    assert(picks[k] == before[k]);
                    assert(sorts_before(nodes, before[k] as int, i));
                } else {
                    assert(picks[before.len() as int] == next);
                    assert(i != next);
                }
            }
        } else {
            assert forall|i: int| 0 <= i < nodes.len() implies is_taken(picks, i) by {}
        }
        if picks.len() < width && next >= 0 {
            assert forall|i: int| 0 <= i < nodes.len() implies is_taken(picks, i) by {
                assert(is_taken(before, i));
                let at = choose|at: int| 0 <= at < before.len() && before[at] == i;
                assert(picks[at] == i);
            }
        }
    }
}


/// Hypotheses of one length rank by their scores.
pub proof fn lemma_equal_length_ranking(x: Hypothesis, y: Hypothesis)
    requires
        x.tokens.len() == y.tokens.len(),
        x.tokens.len() > 0,
    ensures
        outranks(x, y) <==> x.score > y.score,
{
    let len = x.tokens.len() as int;
    let (a, b) = (x.score, y.score);
    assert((a * len > b * len) <==> a > b) by (nonlinear_arith)
        requires
            len > 0,
    ;
}

/// The hypotheses that are kept are the only positions that are in sorted
/// order and leave nothing out that sorts before one of them.
pub proof fn lemma_top_hypotheses_are_unique(nodes: Seq<Hypothesis>, width: int, picks: Seq<usize>)
    requires
        nodes.len() <= usize::MAX,
        all_hold_tokens(nodes, nodes.len() as int),
        picks.len() == width,
        forall|k: int| 0 <= k < picks.len() ==> (#[trigger] picks[k]) < nodes.len(),
        forall|j: int, k: int|
            0 <= j < k < picks.len() ==> sorts_before(
                nodes,
                #[trigger] picks[j] as int,
                #[trigger] picks[k] as int,
            ),
        forall|i: int, k: int|
            #![trigger is_taken(picks, i), picks[k]]
            0 <= i < nodes.len() && !is_taken(picks, i) && 0 <= k < picks.len() ==> sorts_before(
                nodes,
                picks[k] as int,
                i,
            ),
    ensures
        top_hypotheses(nodes, width) == picks,
    decreases width,
{
    if width <= 0 {
        assert(picks =~= Seq::<usize>::empty());
    } else {
        let front = picks.drop_last();
        let last = picks.last() as int;
        assert forall|k: int| 0 <= k < front.len() implies front[k] != last by {
            assert(front[k] == picks[k]);
            assert(sorts_before(nodes, picks[k] as int, picks[width - 1] as int));
        }
        assert(!is_taken(front, last));
        assert forall|j: int, k: int| 0 <= j < k < front.len() implies sorts_before(
            nodes,
            #[trigger] front[j] as int,
            #[trigger] front[k] as int,
        ) by {
            assert(front[j] == picks[j] && front[k] == picks[k]);
        }
        assert forall|i: int, k: int|
            #![trigger is_taken(front, i), front[k]]
            0 <= i < nodes.len() && !is_taken(front, i) && 0 <= k < front.len() implies sorts_before(
            nodes,
            front[k] as int,
            i,
        ) by {
            assert(front[k] == picks[k]);
            if i == last {
                assert(sorts_before(nodes, picks[k] as int, picks[width - 1] as int));
            } else {
                if is_taken(picks, i) {
                    let at = choose|at: int| 0 <= at < picks.len() && picks[at] == i;
                    assert(front[at] == i);
                }
                assert(!is_taken(picks, i));
            }
        }
        lemma_top_hypotheses_are_unique(nodes, width - 1, front);
        lemma_best_hypothesis(nodes, front, nodes.len() as int);
        let next = best_hypothesis(nodes, front, nodes.len() as int);
        if next != last {
            assert(sorts_before(nodes, next, last));
            if is_taken(picks, next) {
                let at = choose|at: int| 0 <= at < picks.len() && picks[at] == next;
                assert(front[at] == next);
            }
            assert(!is_taken(picks, next));
            assert(sorts_before(nodes, picks[width - 1] as int, next));
        }
        assert(front.push(next as usize) =~= picks);
    }
}

/// Whether three hypotheses stand before a step as follows: none is
/// complete, all are of one length, their scores do not rise from the first
/// to the third, and the decoder gives each the same three most probable
/// tokens `a`, `b` and `c` with the same log-probabilities, which fall from
/// `a` to `c`.
pub open spec fn three_alike(
    nodes: Seq<Hypothesis>,
    scores: Seq<NextScores>,
    a: usize,
    b: usize,
    c: usize,
) -> bool {
    &&& nodes.len() == 3
    &&& scores.len() == 3
    &&& nodes[0].score >= nodes[1].score >= nodes[2].score
    &&& scores[0].log_probs[a as int] > scores[0].log_probs[b as int] > scores[0].log_probs[c as int]
    &&& forall|i: int|
        0 <= i < 3 ==> {
            &&& !hypothesis_finished((#[trigger] nodes[i]).tokens)
            &&& nodes[i].tokens.len() == nodes[0].tokens.len()
            &&& top_indices(scores[i].probs, 3) == seq![a, b, c]
            &&& scores[i].log_probs[a as int] == scores[0].log_probs[a as int]
            &&& scores[i].log_probs[b as int] == scores[0].log_probs[b as int]
            &&& scores[i].log_probs[c as int] == scores[0].log_probs[c as int]
        }
}

/// The nine children of three hypotheses that stand alike: the child at
/// position `3 * i + j` descends from hypothesis `i` and chooses the token
/// `j` of `a`, `b` and `c`.
pub open spec fn nine_children(
    nodes: Seq<Hypothesis>,
    scores: Seq<NextScores>,
    a: usize,
    b: usize,
    c: usize,
) -> Seq<Hypothesis> {
    Seq::new(9, |p: int| child_of(nodes[p / 3], scores[p / 3], seq![a, b, c][p % 3] as int))
}

/// Three hypotheses that stand alike expand into their nine children, each
/// one token longer than its parent.
pub proof fn lemma_nine_children(
    nodes: Seq<Hypothesis>,
    scores: Seq<NextScores>,
    a: usize,
    b: usize,
    c: usize,
)
    requires
        three_alike(nodes, scores, a, b, c),
    ensures
        expansions_of(nodes, scores, 3, 3) == nine_children(nodes, scores, a, b, c),
        forall|p: int|
            0 <= p < 9 ==> (#[trigger] nine_children(nodes, scores, a, b, c)[p]).tokens.len()
                == nodes[0].tokens.len() + 1,
{
    let picks = seq![a, b, c];
    let nine = nine_children(nodes, scores, a, b, c);
    let e0 = expansions_of(nodes, scores, 3, 0);
    let e1 = expansions_of(nodes, scores, 3, 1);
    let e2 = expansions_of(nodes, scores, 3, 2);
    let e3 = expansions_of(nodes, scores, 3, 3);
    assert(e0 =~= Seq::<Hypothesis>::empty());
    assert(e1 == e0 + expansion_of(nodes[0], scores[0], 3));
    assert(e2 == e1 + expansion_of(nodes[1], scores[1], 3));
    assert(e3 == e2 + expansion_of(nodes[2], scores[2], 3));
    assert forall|i: int| 0 <= i < 3 implies #[trigger] expansion_of(nodes[i], scores[i], 3) =~= seq![
        child_of(nodes[i], scores[i], a as int),
        child_of(nodes[i], scores[i], b as int),
        child_of(nodes[i], scores[i], c as int),
    ] by {
        assert(!hypothesis_finished(nodes[i].tokens));
        assert(top_indices(scores[i].probs, 3) == picks);
        assert(picks[0] == a && picks[1] == b && picks[2] == c);
    }
    assert(expansion_of(nodes[0], scores[0], 3).len() == 3);
    assert(expansion_of(nodes[1], scores[1], 3).len() == 3);
    assert(expansion_of(nodes[2], scores[2], 3).len() == 3);
    assert(picks[0] == a && picks[1] == b && picks[2] == c);
    assert(e3 =~= nine);
    assert forall|p: int| 0 <= p < 9 implies (#[trigger] nine[p]).tokens.len() == nodes[0].tokens.len()
        + 1 by {
        assert(nodes[p / 3].tokens.len() == nodes[0].tokens.len());
    }
}


/// No more hypotheses are kept than were asked for.
pub proof fn lemma_top_hypotheses_count(nodes: Seq<Hypothesis>, width: int)
    requires
        0 <= width,
    ensures
        top_hypotheses(nodes, width).len() <= width,
    decreases width,
{
    if width > 0 {
        lemma_top_hypotheses_count(nodes, width - 1);
    }
}

/// A step of width three on three hypotheses that stand alike keeps three of
/// their nine children: those with the greatest scores, which with children
/// of one length is the greatest score per token. They come greatest first,
/// no child that is left out has a greater score than one that is kept, and
/// two kept children that chose the same token descend from different
/// parents.
pub proof fn lemma_three_beams_step(
    nodes: Seq<Hypothesis>,
    scores: Seq<NextScores>,
    a: usize,
    b: usize,
    c: usize,
)
    requires
        three_alike(nodes, scores, a, b, c),
    ensures
        beam_step(nodes, scores, 3).len() == 3,
        top_hypotheses(nine_children(nodes, scores, a, b, c), 3).len() == 3,
        forall|k: int|
            0 <= k < 3 ==> (#[trigger] top_hypotheses(nine_children(nodes, scores, a, b, c), 3)[k])
                < 9 && beam_step(nodes, scores, 3)[k] == nine_children(
                nodes,
                scores,
                a,
                b,
                c,
            )[top_hypotheses(nine_children(nodes, scores, a, b, c), 3)[k] as int],
        forall|j: int, k: int|
            0 <= j < k < 3 ==> (#[trigger] beam_step(nodes, scores, 3)[j]).score
                >= (#[trigger] beam_step(nodes, scores, 3)[k]).score,
        forall|p: int, k: int|
            #![trigger is_taken(top_hypotheses(nine_children(nodes, scores, a, b, c), 3), p), beam_step(nodes, scores, 3)[k]]
            0 <= p < 9 && !is_taken(top_hypotheses(nine_children(nodes, scores, a, b, c), 3), p)
                && 0 <= k < 3 ==> nine_children(nodes, scores, a, b, c)[p].score <= beam_step(
                nodes,
                scores,
                3,
            )[k].score,
        forall|j: int, k: int|
            0 <= j < k < 3 && (#[trigger] top_hypotheses(
                nine_children(nodes, scores, a, b, c),
                3,
            )[j]) % 3 == (#[trigger] top_hypotheses(nine_children(nodes, scores, a, b, c), 3)[k])
                % 3 ==> top_hypotheses(nine_children(nodes, scores, a, b, c), 3)[j] / 3
                != top_hypotheses(nine_children(nodes, scores, a, b, c), 3)[k] / 3,
{
    let nine = nine_children(nodes, scores, a, b, c);
    let picks = top_hypotheses(nine, 3);
    let kept = beam_step(nodes, scores, 3);
    lemma_nine_children(nodes, scores, a, b, c);
    assert(all_hold_tokens(nine, 9));
    lemma_top_hypotheses_are_sorted(nine, 3);
    lemma_top_hypotheses_count(nine, 3);
    if picks.len() < 3 {
        assert(is_taken(picks, 0) && is_taken(picks, 1) && is_taken(picks, 2));
        let k0 = choose|k: int| 0 <= k < picks.len() && picks[k] == 0;
        let k1 = choose|k: int| 0 <= k < picks.len() && picks[k] == 1;
        let k2 = choose|k: int| 0 <= k < picks.len() && picks[k] == 2;
        assert(false);
    }
    assert(kept == pruned(nine, 3));
    assert forall|j: int, k: int| 0 <= j < k < 3 implies (#[trigger] kept[j]).score
        >= (#[trigger] kept[k]).score by {
        assert(sorts_before(nine, picks[j] as int, picks[k] as int));
        lemma_equal_length_ranking(nine[picks[j] as int], nine[picks[k] as int]);
        lemma_equal_length_ranking(nine[picks[k] as int], nine[picks[j] as int]);
    }
    assert forall|p: int, k: int|
        #![trigger is_taken(picks, p), kept[k]]
        0 <= p < 9 && !is_taken(picks, p) && 0 <= k < 3 implies nine[p].score
        <= kept[k].score by {
        assert(sorts_before(nine, picks[k] as int, p));
        lemma_equal_length_ranking(nine[picks[k] as int], nine[p]);
        lemma_equal_length_ranking(nine[p], nine[picks[k] as int]);
    }
    assert forall|j: int, k: int|
        0 <= j < k < 3 && (#[trigger] picks[j]) % 3 == (#[trigger] picks[k]) % 3 implies picks[j] / 3
        != picks[k] / 3 by {
        assert(sorts_before(nine, picks[j] as int, picks[k] as int));
    }
}

/// Where the three hypotheses have one score, each keeps its best child:
/// all three kept children choose the most probable token, one for each
/// parent, in the order of the parents.
pub proof fn lemma_equal_beams_keep_their_best(
    nodes: Seq<Hypothesis>,
    scores: Seq<NextScores>,
    a: usize,
    b: usize,
    c: usize,
)
    requires
        three_alike(nodes, scores, a, b, c),
        nodes[0].score == nodes[2].score,
    ensures
        beam_step(nodes, scores, 3) == seq![
            child_of(nodes[0], scores[0], a as int),
            child_of(nodes[1], scores[1], a as int),
            child_of(nodes[2], scores[2], a as int),
        ],
{
    let nine = nine_children(nodes, scores, a, b, c);
    let picks = seq![0usize, 3usize, 6usize];
    lemma_nine_children(nodes, scores, a, b, c);
    assert(all_hold_tokens(nine, 9));
    assert forall|p: int, q: int| 0 <= p < 9 && 0 <= q < 9 implies (outranks(
        #[trigger] nine[p],
        #[trigger] nine[q],
    ) <==> nine[p].score > nine[q].score) by {
        lemma_equal_length_ranking(nine[p], nine[q]);
    }
    assert(picks[0] == 0 && picks[1] == 3 && picks[2] == 6);
    assert forall|i: int, k: int|
        #![trigger is_taken(picks, i), picks[k]]
        0 <= i < 9 && !is_taken(picks, i) && 0 <= k < 3 implies sorts_before(
        nine,
        picks[k] as int,
        i,
    ) by {
        assert(i != 0 && i != 3 && i != 6);
    }
    lemma_top_hypotheses_are_unique(nine, 3, picks);
    assert(pruned(nine, 3) =~= seq![nine[0], nine[3], nine[6]]);
}

/// Where the first hypothesis leads the second by more than the most
/// probable token leads the third, all three kept children descend from the
/// first hypothesis: they choose `a`, `b` and `c`, in that order.
pub proof fn lemma_leading_beam_keeps_all(
    nodes: Seq<Hypothesis>,
    scores: Seq<NextScores>,
    a: usize,
    b: usize,
    c: usize,
)
    requires
        three_alike(nodes, scores, a, b, c),
        nodes[0].score - nodes[1].score > scores[0].log_probs[a as int] - scores[0].log_probs[
            c as int
        ],
    ensures
        beam_step(nodes, scores, 3) == seq![
            child_of(nodes[0], scores[0], a as int),
            child_of(nodes[0], scores[0], b as int),
            child_of(nodes[0], scores[0], c as int),
        ],
{
    let nine = nine_children(nodes, scores, a, b, c);
    let picks = seq![0usize, 1usize, 2usize];
    lemma_nine_children(nodes, scores, a, b, c);
    assert(all_hold_tokens(nine, 9));
    assert forall|p: int, q: int| 0 <= p < 9 && 0 <= q < 9 implies (outranks(
        #[trigger] nine[p],
        #[trigger] nine[q],
    ) <==> nine[p].score > nine[q].score) by {
        lemma_equal_length_ranking(nine[p], nine[q]);
    }
    assert(picks[0] == 0 && picks[1] == 1 && picks[2] == 2);
    assert forall|i: int, k: int|
        #![trigger is_taken(picks, i), picks[k]]
        0 <= i < 9 && !is_taken(picks, i) && 0 <= k < 3 implies sorts_before(
        nine,
        picks[k] as int,
        i,
    ) by {
        assert(i != 0 && i != 1 && i != 2);
    }
    lemma_top_hypotheses_are_unique(nine, 3, picks);
    assert(pruned(nine, 3) =~= seq![nine[0], nine[1], nine[2]]);
}

} // verus!
