//! Model architectures and what a forward pass is asked for.

use crate::cache::{CacheView, InferenceBuffers, KVCache};
use crate::config::LlamaConfig;
use crate::quant::QuantError;
use crate::text;
use vstd::prelude::*;

verus! {

/// The supported model families.
#[derive(Clone, Copy, Debug, PartialEq, Eq, Structural)]
pub enum ArchitectureKind {
    Qwen2,
}

/// A model family that is not supported.
#[derive(Debug)]
pub enum ArchitectureError {
    /// No supported family has that Hugging Face model type.
    HfModelType { value: String },
    /// No supported family has that GGUF architecture name.
    GgufArchitecture { value: String },
}

impl ArchitectureKind {
    /// The family's name.
    pub fn name(self) -> (name: &'static str)
        ensures
            name@ == "qwen2"@,
    {
        match self {
            ArchitectureKind::Qwen2 => "qwen2",
        }
    }

    /// The family of a Hugging Face model type.
    pub fn from_hf_model_type(value: &str) -> (result: Result<ArchitectureKind, ArchitectureError>)
        ensures
            if value@ == "qwen2"@ {
                result == Ok::<ArchitectureKind, ArchitectureError>(ArchitectureKind::Qwen2)
            } else {
                result matches Err(ArchitectureError::HfModelType { value: v }) && v@ == value@
            },
    {
        if text::equals(value, "qwen2") {
            Ok(ArchitectureKind::Qwen2)
        } else {
            Err(ArchitectureError::HfModelType { value: value.to_owned() })
        }
    }

    /// The family of a GGUF architecture name.
    pub fn from_gguf_architecture(value: &str) -> (result: Result<
        ArchitectureKind,
        ArchitectureError,
    >)
        ensures
            if value@ == "qwen2"@ {
                result == Ok::<ArchitectureKind, ArchitectureError>(ArchitectureKind::Qwen2)
            } else {
                result matches Err(ArchitectureError::GgufArchitecture { value: v }) && v@ == value@
            },
    {
        if text::equals(value, "qwen2") {
            Ok(ArchitectureKind::Qwen2)
        } else {
            Err(ArchitectureError::GgufArchitecture { value: value.to_owned() })
        }
    }
}

/// Whether a forward pass ends with the projection to the vocabulary.
#[derive(Clone, Copy, Debug, PartialEq, Eq, Structural)]
pub enum LogitsMode {
    Skip,
    Compute,
}

/// What flows from layer to layer: the hidden state of one token and the cache.
pub struct Flow<T> {
    pub residual: Seq<T>,
    pub cache: CacheView<T>,
}

/// What can be wrong with a model part or with what is asked of a model.
#[allow(inconsistent_fields)]
#[derive(Clone, Copy, Debug, PartialEq, Eq, Structural)]
pub enum ModelError {
    /// A product of mismatched lengths.
    Quant { error: QuantError },
    /// A linear weight must be a matrix.
    NotMatrix,
    /// A bias must have one value per output.
    BiasLength,
    /// A normalisation weight cannot be empty.
    EmptyNorm,
    /// A normalisation constant must be finite and positive.
    NormEpsilon,
    /// A hidden state is not as wide as the normalisation weight.
    NormShape,
    /// The token lies outside the vocabulary.
    Token { token: u32 },
    /// The position lies outside the context.
    Position { pos: usize, context: usize },
    /// Prefill needs at least one token.
    EmptyPrefill,
}

/// The architecture boundary that the engine works over. A new model family implements it and uses
/// the same tensor storage, cache and sampler.
pub trait CausalModel<T: Copy> {
    /// The model's parts belong together.
    spec fn ready(&self) -> bool;

    /// The model's dimensions.
    spec fn dimensions(&self) -> LlamaConfig;

    /// The name and the number of threads of the kernels that the model computes with.
    spec fn kernels(&self) -> (Seq<char>, usize);

    /// What one token at one position makes of a cache.
    spec fn token_result(&self, token: u32, pos: int, cache: CacheView<T>) -> Flow<T>;

    /// The projection of a hidden state to the vocabulary.
    spec fn logits_result(&self, residual: Seq<T>) -> Seq<T>;

    /// The cache after the first `k` tokens, one after the other, from position `start` on.
    spec fn sequence_result(
        &self,
        tokens: Seq<u32>,
        start: int,
        cache: CacheView<T>,
        k: int,
    ) -> CacheView<T>;

    /// The tokens run one after the other.
    proof fn sequence_is_tokenwise(
        &self,
        tokens: Seq<u32>,
        start: int,
        cache: CacheView<T>,
        k: int,
    )
        ensures
            self.sequence_result(tokens, start, cache, k) == (if k <= 0 {
                cache
            } else {
                self.token_result(
                    tokens[k - 1],
                    start + k - 1,
                    self.sequence_result(tokens, start, cache, k - 1),
                ).cache
            }),
    ;

    /// The model family.
    fn architecture(&self) -> ArchitectureKind;

    /// The model's dimensions.
    fn config(&self) -> (config: &LlamaConfig)
        ensures
            *config == self.dimensions(),
    ;

    /// The name and the number of threads of the kernels that the model computes with.
    fn backend(&self) -> (r: (&'static str, usize))
        ensures
            (r.0@, r.1) == self.kernels(),
    ;

    /// Runs one token through the model and, where asked, projects to the vocabulary.
    fn forward_token(
        &self,
        token_id: u32,
        pos: usize,
        kv_cache: &mut KVCache<T>,
        buffers: &mut InferenceBuffers<T>,
        logits: LogitsMode,
    ) -> (result: Result<(), ModelError>)
        requires
            self.ready(),
            old(kv_cache).fits(self.dimensions()),
            old(buffers).fits(self.dimensions(), old(kv_cache).max_seq_len as int),
        ensures
            final(kv_cache).fits(self.dimensions()),
            final(kv_cache).max_seq_len == old(kv_cache).max_seq_len,
            final(buffers).fits(self.dimensions(), final(kv_cache).max_seq_len as int),
            match token_fault(
                token_id,
                pos,
                self.dimensions().vocab_size,
                old(kv_cache).max_seq_len,
            ) {
                Some(e) => result == Err::<(), ModelError>(e) && *final(kv_cache) == *old(kv_cache)
                    && *final(buffers) == *old(buffers),
                None => {
                    let after = self.token_result(token_id, pos as int, old(kv_cache)@);
                    &&& result is Ok
                    &&& final(kv_cache)@ == after.cache
                    &&& final(buffers).residual@ == after.residual
                    &&& final(buffers).logits@ == (if logits == LogitsMode::Compute {
                        self.logits_result(after.residual)
                    } else {
                        old(buffers).logits@
                    })
                },
            },
    ;

    /// Runs a prompt through the model, by default one token after the other. Only the last token is
    /// projected to the vocabulary.
    fn prefill(
        &self,
        tokens: &[u32],
        start_pos: usize,
        kv_cache: &mut KVCache<T>,
        buffers: &mut InferenceBuffers<T>,
    ) -> (result: Result<(), ModelError>)
        requires
            self.ready(),
            32 * self.dimensions().hidden_size <= usize::MAX,
            32 * self.dimensions().intermediate_size <= usize::MAX,
            start_pos + tokens@.len() <= usize::MAX,
            old(kv_cache).fits(self.dimensions()),
            old(buffers).fits(self.dimensions(), old(kv_cache).max_seq_len as int),
        ensures
            final(kv_cache).fits(self.dimensions()),
            final(kv_cache).max_seq_len == old(kv_cache).max_seq_len,
            final(buffers).fits(self.dimensions(), final(kv_cache).max_seq_len as int),
            tokens@.len() == 0 ==> result == Err::<(), ModelError>(ModelError::EmptyPrefill)
                && *final(kv_cache) == *old(kv_cache) && *final(buffers) == *old(buffers),
            tokens@.len() > 0 && result is Err ==> final(buffers).logits@ == old(buffers).logits@,
            result is Err && 0 < tokens@.len() <= old(kv_cache).max_seq_len - start_pos ==> {
                &&& first_token_fault(
                    tokens@,
                    start_pos as int,
                    self.dimensions().vocab_size,
                    old(kv_cache).max_seq_len,
                    tokens@.len() as int,
                ) == Some(result->Err_0)
                &&& exists|k: int|
                    0 <= k < tokens@.len() && final(kv_cache)@ == #[trigger] self.sequence_result(
                        tokens@,
                        start_pos as int,
                        old(kv_cache)@,
                        k,
                    )
            },
            tokens@.len() > 0 ==> (result is Ok <==> acceptable(
                tokens@,
                start_pos as int,
                self.dimensions().vocab_size,
                old(kv_cache).max_seq_len,
            )),
            result is Ok ==> {
                let last = tokens@.len() - 1;
                let before = self.sequence_result(tokens@, start_pos as int, old(kv_cache)@, last);
                let after = self.token_result(tokens@[last], start_pos + last, before);
                &&& final(kv_cache)@ == after.cache
                &&& final(buffers).residual@ == after.residual
                &&& final(buffers).logits@ == self.logits_result(after.residual)
            },
        default_ensures
            tokens@.len() > 0 && result is Err ==> first_token_fault(
                tokens@,
                start_pos as int,
                self.dimensions().vocab_size,
                old(kv_cache).max_seq_len,
                tokens@.len() as int,
            ) == Some(result->Err_0),
            tokens@.len() > 0 && result is Err ==> exists|k: int| #[trigger]
                first_refused(
                    tokens@,
                    start_pos as int,
                    self.dimensions().vocab_size,
                    old(kv_cache).max_seq_len,
                    k,
                ) && final(kv_cache)@ == self.sequence_result(
                    tokens@,
                    start_pos as int,
                    old(kv_cache)@,
                    k,
                ),
    {
        let total: usize = tokens.len();
        if total == 0 {
            return Err(ModelError::EmptyPrefill);
        }
        let ghost s = start_pos as int;
        let ghost context = kv_cache.max_seq_len;
        let ghost vocab = self.dimensions().vocab_size;
        proof {
            self.sequence_is_tokenwise(tokens@, s, kv_cache@, 0);
        }
        for i in 0..total
            invariant
                self.ready(),
                total == tokens@.len(),
                total > 0,
                s == start_pos,
                vocab == self.dimensions().vocab_size,
                context == old(kv_cache).max_seq_len,
                start_pos + total <= usize::MAX,
                kv_cache.fits(self.dimensions()),
                kv_cache.max_seq_len == context,
                buffers.fits(self.dimensions(), context as int),
                kv_cache@ == self.sequence_result(tokens@, s, old(kv_cache)@, i as int),
                forall|j: int|
                    0 <= j < i ==> #[trigger] tokens@[j] < vocab && start_pos + j < context,
                first_token_fault(tokens@, s, vocab, context, i as int) is None,
                i < total ==> buffers.logits@ == old(buffers).logits@,
                i == total ==> {
                    let before = self.sequence_result(tokens@, s, old(kv_cache)@, total - 1);
                    let after = self.token_result(tokens@[total - 1], s + total - 1, before);
                    &&& kv_cache@ == after.cache
                    &&& buffers.residual@ == after.residual
                    &&& buffers.logits@ == self.logits_result(after.residual)
                },
        {
            let mode = if i + 1 == total {
                LogitsMode::Compute
            } else {
                LogitsMode::Skip
            };
            proof {
                self.sequence_is_tokenwise(tokens@, s, old(kv_cache)@, i + 1);
            }
            match self.forward_token(tokens[i], start_pos + i, kv_cache, buffers, mode) {
                Ok(()) => {},
                Err(e) => {
                    assert(!(tokens@[i as int] < vocab && start_pos + i < context));
                    assert(first_refused(tokens@, s, vocab, context, i as int));
                    proof {
                        lemma_token_fault_stays(tokens@, s, vocab, context, i + 1, total as int);
                    }
                    return Err(e);
                },
            }
        }
        Ok(())
    }
}

/// What one token is refused for.
pub open spec fn token_fault(token: u32, pos: usize, vocab: usize, context: usize) -> Option<
    ModelError,
> {
    if token >= vocab {
        Some(ModelError::Token { token })
    } else if pos >= context {
        Some(ModelError::Position { pos, context })
    } else {
        None
    }
}

/// Every token lies in the vocabulary and every position in the context.
pub open spec fn acceptable(tokens: Seq<u32>, start: int, vocab: usize, context: usize) -> bool {
    forall|i: int| 0 <= i < tokens.len() ==> #[trigger] tokens[i] < vocab && start + i < context
}

/// The token at index `k` is the first that lies outside the vocabulary or past the context.
pub open spec fn first_refused(
    tokens: Seq<u32>,
    start: int,
    vocab: usize,
    context: usize,
    k: int,
) -> bool {
    &&& 0 <= k < tokens.len()
    &&& forall|i: int| 0 <= i < k ==> #[trigger] tokens[i] < vocab && start + i < context
    &&& !(tokens[k] < vocab && start + k < context)
}

/// What the first of the first `n` tokens that is refused is refused for.
pub open spec fn first_token_fault(
    tokens: Seq<u32>,
    start: int,
    vocab: usize,
    context: usize,
    n: int,
) -> Option<ModelError>
    decreases n,
{
    if n <= 0 {
        None
    } else {
        match first_token_fault(tokens, start, vocab, context, n - 1) {
            Some(e) => Some(e),
            None => token_fault(tokens[n - 1], (start + n - 1) as usize, vocab, context),
        }
    }
}

/// A sequence of tokens is acceptable exactly where none of its tokens is refused.
pub proof fn acceptable_tokens_have_no_fault(
    tokens: Seq<u32>,
    start: int,
    vocab: usize,
    context: usize,
)
    requires
        0 <= start,
        start + tokens.len() <= usize::MAX,
    ensures
        acceptable(tokens, start, vocab, context) <==> first_token_fault(
            tokens,
            start,
            vocab,
            context,
            tokens.len() as int,
        ) is None,
    decreases tokens.len(),
{
    if tokens.len() > 0 {
        let before = tokens.drop_last();
        acceptable_tokens_have_no_fault(before, start, vocab, context);
        lemma_fault_of_start(tokens, before, start, vocab, context, before.len() as int);
        assert(forall|i: int| 0 <= i < before.len() ==> before[i] == tokens[i]);
        let last = tokens.len() - 1;
        if acceptable(tokens, start, vocab, context) {
            assert(tokens[last] < vocab && start + last < context);
        }
    }
}

/// Which token is refused first among the first `n` depends on those alone.
proof fn lemma_fault_of_start(
    tokens: Seq<u32>,
    other: Seq<u32>,
    start: int,
    vocab: usize,
    context: usize,
    n: int,
)
    requires
        0 <= n <= tokens.len(),
        n <= other.len(),
        forall|i: int| 0 <= i < n ==> tokens[i] == other[i],
    ensures
        first_token_fault(tokens, start, vocab, context, n) == first_token_fault(
            other,
            start,
            vocab,
            context,
            n,
        ),
    decreases n,
{
    if n > 0 {
        lemma_fault_of_start(tokens, other, start, vocab, context, n - 1);
    }
}

/// The first fault among some tokens is the first among more.
pub proof fn lemma_token_fault_stays(
    tokens: Seq<u32>,
    start: int,
    vocab: usize,
    context: usize,
    m: int,
    n: int,
)
    requires
        0 <= m <= n,
        first_token_fault(tokens, start, vocab, context, m) is Some,
    ensures
        first_token_fault(tokens, start, vocab, context, n) == first_token_fault(
            tokens,
            start,
            vocab,
            context,
            m,
        ),
    decreases n,
{
    if m < n {
        lemma_token_fault_stays(tokens, start, vocab, context, m, n - 1);
    }
}

/// A token is refused where it lies outside the vocabulary, and else where its position lies past
/// the context.
pub proof fn tokens_are_refused_in_turn(token: u32, pos: usize, vocab: usize, context: usize)
    ensures
        token_fault(token, pos, vocab, context) is None <==> token < vocab && pos < context,
        token >= vocab ==> token_fault(token, pos, vocab, context) == Some(
            ModelError::Token { token },
        ),
        token < vocab && pos >= context ==> token_fault(token, pos, vocab, context) == Some(
            ModelError::Position { pos, context },
        ),
{
}

/// The fault of a sequence is that of its first refused token.
pub proof fn the_first_refused_token_is_reported(
    tokens: Seq<u32>,
    start: int,
    vocab: usize,
    context: usize,
    n: int,
    k: int,
)
    requires
        0 <= k < n <= tokens.len(),
        0 <= start,
        start + tokens.len() <= usize::MAX,
        forall|i: int| 0 <= i < k ==> #[trigger] tokens[i] < vocab && start + i < context,
        !(tokens[k] < vocab && start + k < context),
    ensures
        first_token_fault(tokens, start, vocab, context, n) == Some(
            if tokens[k] >= vocab {
                ModelError::Token { token: tokens[k] }
            } else {
                ModelError::Position { pos: (start + k) as usize, context }
            },
        ),
    decreases n,
{
    if n - 1 > k {
        the_first_refused_token_is_reported(tokens, start, vocab, context, n - 1, k);
    } else {
        acceptable_tokens_have_no_fault(tokens.take(k), start, vocab, context);
        lemma_fault_of_start(tokens, tokens.take(k), start, vocab, context, k);
    }
}

} // verus!
