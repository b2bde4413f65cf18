//! Process-wide decoding constants and the attention cache.

use vstd::prelude::*;

verus! {

/// Token id of `<|endoftext|>`.
pub const EOT_TOKEN: usize = 50257;

/// Token id of `<|startoftranscript|>`.
pub const SOT_TOKEN: usize = 50258;

/// The token id that beam search replaces by `NO_TIMESTAMPS_TOKEN`, known as
/// `<|startoflm|>`. The value is fixed under that name; in the table that
/// follows a vocabulary of 50256 entries, 50358 is the id of
/// `<|translate|>`, and `<|startoflm|>` has 50360.
pub const STARTOFLM_TOKEN: usize = 50358;

/// Token id of `<|transcribe|>`.
pub const TRANSCRIBE_TOKEN: usize = 50359;

/// Token id of `<|startofprev|>`.
pub const SOT_PREV_TOKEN: usize = 50361;

/// Token id of `<|notimestamps|>`.
pub const NO_TIMESTAMPS_TOKEN: usize = 50363;

/// Length of the decoder's text context.
pub const N_CTX: usize = 448;

/// Upper bound on the decoding steps spent on one segment.
pub const MAX_DECODE_STEPS: usize = 224;

/// The constants a decoding run is parameterised by.
#[derive(Debug, Clone, Copy)]
pub struct Options {
    pub eot_token: usize,
    pub sot_prev: usize,
    pub n_ctx: usize,
}

impl Options {
    /// The options of the multilingual model.
    pub open spec fn new_spec() -> Options {
        Options { eot_token: EOT_TOKEN, sot_prev: SOT_PREV_TOKEN, n_ctx: N_CTX }
    }

    /// The options of the multilingual model.
    #[verifier::when_used_as_spec(new_spec)]
    pub fn new() -> (options: Options)
        ensures
            options == Options::new_spec(),
            options.eot_token == EOT_TOKEN,
            options.sot_prev == SOT_PREV_TOKEN,
            options.n_ctx == N_CTX,
    {
        Options { eot_token: EOT_TOKEN, sot_prev: SOT_PREV_TOKEN, n_ctx: N_CTX }
    }
}


/// Tensors of the cache: a key and a value tensor for each of the six
/// decoder layers.
pub const N_CACHE_TENSORS: usize = 12;

/// Width of a cached key or value.
pub const CACHE_WIDTH: usize = 512;

/// Why a decoding step could not be taken.
#[derive(Debug, Clone, Copy, PartialEq, Eq)]
pub enum InferenceError {
    /// The search had ended before the step.
    Finished,
    /// The graph handed out this many scores: none, or more than token ids
    /// can number.
    Scores(usize),
    /// The graph handed out this many cache tensors, not twelve.
    CacheTensorCount(usize),
    /// The cache tensor with this number does not have the shape
    /// `[1, past + fed, 512]`.
    CacheTensorShape(usize),
    /// The step would need positions past the end of the positional table.
    PositionsExhausted,
    /// The hypothesis with this number is not complete and came without
    /// what the decoder made of it.
    MissingOutput(usize),
}

/// Whether `shape` is that of a cache tensor over `past_len` positions:
/// `[1, past_len, CACHE_WIDTH]`.
pub open spec fn is_cache_shape(shape: Seq<usize>, past_len: int) -> bool {
    shape.len() == 3 && shape[0] == 1 && shape[1] == past_len && shape[2] == CACHE_WIDTH
}

/// Whether the first `n` of `shapes` are cache shapes over `past_len`
/// positions.
pub open spec fn cache_shapes_fit(shapes: Seq<Vec<usize>>, past_len: int, n: int) -> bool {
    forall|i: int| 0 <= i < n ==> is_cache_shape((#[trigger] shapes[i])@, past_len)
}

/// The number of the first of the first `n` shapes that is no cache shape
/// over `past_len` positions, or `n` where all of them are.
pub open spec fn first_misfit(shapes: Seq<Vec<usize>>, past_len: int, n: int) -> int
    decreases n,
{
    if n <= 0 {
        0
    } else if first_misfit(shapes, past_len, n - 1) < n - 1 {
        first_misfit(shapes, past_len, n - 1)
    } else if is_cache_shape(shapes[n - 1]@, past_len) {
        n
    } else {
        n - 1
    }
}

/// `first_misfit` is a number up to `n`; the shapes before it fit, and the
/// one at it does not.
pub proof fn lemma_first_misfit(shapes: Seq<Vec<usize>>, past_len: int, n: int)
    requires
        0 <= n,
    ensures
        0 <= first_misfit(shapes, past_len, n) <= n,
        cache_shapes_fit(shapes, past_len, first_misfit(shapes, past_len, n)),
        first_misfit(shapes, past_len, n) < n ==> !is_cache_shape(
            shapes[first_misfit(shapes, past_len, n)]@,
            past_len,
        ),
    decreases n,
{
    if n > 0 {
        lemma_first_misfit(shapes, past_len, n - 1);
    }
}

/// A misfit that is the first among the shapes up to it is the first among
/// any more of them.
pub proof fn lemma_first_misfit_stays(shapes: Seq<Vec<usize>>, past_len: int, at: int, n: int)
    requires
        0 <= at < n,
        first_misfit(shapes, past_len, at) == at,
        !is_cache_shape(shapes[at]@, past_len),
    ensures
        first_misfit(shapes, past_len, n) == at,
    decreases n,
{
    if n > at + 1 {
        lemma_first_misfit_stays(shapes, past_len, at, n - 1);
    }
}

/// What is wrong with the cache that a step handed out, if anything. The
/// step fed `fed_len` tokens over `past_len` positions; the graph handed out
/// `n_tensors` tensors with the shapes `shapes`.
pub open spec fn cache_error(past_len: int, fed_len: int, shapes: Seq<Vec<usize>>, n_tensors: int) -> Option<
    InferenceError,
> {
    if past_len + fed_len > usize::MAX {
        Some(InferenceError::PositionsExhausted)
    } else if n_tensors != N_CACHE_TENSORS {
        Some(InferenceError::CacheTensorCount(n_tensors as usize))
    } else if shapes.len() != N_CACHE_TENSORS {
        Some(InferenceError::CacheTensorCount(shapes.len() as usize))
    } else if first_misfit(shapes, past_len + fed_len, N_CACHE_TENSORS as int) < N_CACHE_TENSORS {
        Some(
            InferenceError::CacheTensorShape(
                first_misfit(shapes, past_len + fed_len, N_CACHE_TENSORS as int) as usize,
            ),
        )
    } else {
        None
    }
}

/// Compares a shape with that of a cache tensor over `past_len` positions.
pub fn check_cache_shape(shape: &Vec<usize>, past_len: usize) -> (fits: bool)
    ensures
        fits == is_cache_shape(shape@, past_len as int),
{
    shape.len() == 3 && shape[0] == 1 && shape[1] == past_len && shape[2] == CACHE_WIDTH
}

/// The tensors that a cache holds once it has taken in `tensors`.
pub open spec fn held_tensors<T>(tensors: Seq<T>) -> Seq<Option<T>> {
    Seq::new(tensors.len(), |i: int| Some(tensors[i]))
}

/// The running keys and values of the decoder's attention: twelve tensors in
/// the order the graph takes them (`k1, v1, ..., k6, v6`), each of the shape
/// `[1, past_len, 512]`. A tensor that is `None` is the one without
/// positions, `[1, 0, 512]`, which holds no number.
pub struct KVCache<T> {
    tensors: Vec<Option<T>>,
    past_len: usize,
}

impl<T> KVCache<T> {
    #[verifier::type_invariant]
    spec fn well_formed(&self) -> bool {
        self.tensors@.len() == N_CACHE_TENSORS
    }

    /// Positions that the cache covers.
    pub closed spec fn past_len(&self) -> int {
        self.past_len as int
    }

    /// The tensors, in the order the graph takes them.
    pub closed spec fn tensors(&self) -> Seq<Option<T>> {
        self.tensors@
    }

    /// The empty past: twelve tensors without positions.
    pub fn default() -> (cache: KVCache<T>)
        ensures
            cache.past_len() == 0,
            cache.tensors().len() == N_CACHE_TENSORS,
            forall|i: int| 0 <= i < N_CACHE_TENSORS ==> (#[trigger] cache.tensors()[i]) is None,
    {
        let mut tensors: Vec<Option<T>> = Vec::new();
        while tensors.len() < N_CACHE_TENSORS
            invariant
                tensors.len() <= N_CACHE_TENSORS,
                forall|i: int| 0 <= i < tensors.len() ==> (#[trigger] tensors[i]) is None,
            decreases N_CACHE_TENSORS - tensors.len(),
        {
            tensors.push(None);
        }
        KVCache { tensors, past_len: 0 }
    }

    /// Positions that the cache covers.
    pub fn len(&self) -> (len: usize)
        ensures
            len == self.past_len(),
    {
        self.past_len
    }

    /// The tensors, in the order the graph takes them.
    pub fn as_tensors(&self) -> (tensors: &Vec<Option<T>>)
        ensures
            tensors@ == self.tensors(),
            tensors.len() == N_CACHE_TENSORS,
    {
        proof {
            use_type_invariant(self);
        }
        &self.tensors
    }

    /// The cache after a step that fed `fed_len` tokens: the tensors that
    /// the graph handed out, which must be twelve, each with the shape
    /// `[1, past_len + fed_len, 512]`.
    pub fn advance(&self, fed_len: usize, shapes: &Vec<Vec<usize>>, tensors: Vec<T>) -> (next:
        Result<KVCache<T>, InferenceError>)
        ensures
            match next {
                Ok(cache) => {
                    &&& cache_error(self.past_len(), fed_len as int, shapes@, tensors.len() as int) is None
                    &&& cache_shapes_fit(shapes@, self.past_len() + fed_len, N_CACHE_TENSORS as int)
                    &&& cache.past_len() == self.past_len() + fed_len
                    &&& cache.tensors() == held_tensors(tensors@)
                },
                Err(error) => cache_error(
                    self.past_len(),
                    fed_len as int,
                    shapes@,
                    tensors.len() as int,
                ) == Some(error),
            },
    {
        let past_len = match self.past_len.checked_add(fed_len) {
            Some(sum) => sum,
            None => { return Err(InferenceError::PositionsExhausted); },
        };
        if tensors.len() != N_CACHE_TENSORS {
            return Err(InferenceError::CacheTensorCount(tensors.len()));
        }
        if shapes.len() != N_CACHE_TENSORS {
            return Err(InferenceError::CacheTensorCount(shapes.len()));
        }
        let mut i: usize = 0;
        while i < N_CACHE_TENSORS
            invariant
                i <= N_CACHE_TENSORS == shapes.len(),
                tensors.len() == N_CACHE_TENSORS,
                past_len == self.past_len() + fed_len,
                first_misfit(shapes@, past_len as int, i as int) == i,
            decreases N_CACHE_TENSORS - i,
        {
            if !check_cache_shape(&shapes[i], past_len) {
                proof {
                    lemma_first_misfit_stays(
                        shapes@,
                        past_len as int,
                        i as int,
                        N_CACHE_TENSORS as int,
                    );
                }
                return Err(InferenceError::CacheTensorShape(i));
            }
            i += 1;
        }
        proof {
            lemma_first_misfit(shapes@, past_len as int, N_CACHE_TENSORS as int);
        }
        let ghost handed = tensors@;
        let mut rest = tensors;
        let mut held: Vec<Option<T>> = Vec::new();
        while rest.len() > 0
            invariant
                handed.len() == N_CACHE_TENSORS,
                held.len() + rest.len() == N_CACHE_TENSORS,
                rest@ == handed.subrange(held.len() as int, N_CACHE_TENSORS as int),
                forall|k: int| 0 <= k < held.len() ==> #[trigger] held[k] == Some(handed[k]),
            decreases rest.len(),
        {
            let tensor = rest.remove(0);
            held.push(Some(tensor));
        }
        assert(held@ =~= held_tensors(handed));
        Ok(KVCache { tensors: held, past_len })
    }
}

} // verus!
