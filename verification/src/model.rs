//! The Qwen2 transformer: one token at a time, and batched prefill.

use crate::architecture;
use crate::architecture::{ArchitectureKind, CausalModel, Flow, LogitsMode, ModelError};
use crate::backend::KernelBackend;
use crate::cache;
use crate::cache::{CacheView, InferenceBuffers, KVCache};
use crate::config;
use crate::config::LlamaConfig;
use crate::float::Single;
use crate::quant::{ElementCode, QuantError, QuantTensor};
use vstd::prelude::*;

verus! {

/// Row `i` of rows of `width` values each.
pub open spec fn row_of<T>(s: Seq<T>, i: int, width: int) -> Seq<T> {
    s.subrange(i * width, i * width + width)
}

/// Writing one row leaves the other rows alone.
pub proof fn lemma_splice_row<T>(s: Seq<T>, n: int, width: int, i: int, part: Seq<T>)
    requires
        0 <= i < n,
        0 <= width,
        s.len() == n * width,
        part.len() == width,
    ensures
        cache::splice(s, i * width, part).len() == n * width,
        row_of(cache::splice(s, i * width, part), i, width) == part,
        forall|k: int|
            0 <= k < n && k != i ==> #[trigger] row_of(
                cache::splice(s, i * width, part),
                k,
                width,
            ) == row_of(s, k, width),
{
    let after = cache::splice(s, i * width, part);
    cache::lemma_position_range(i, width, n);
    assert(row_of(after, i, width) =~= part);
    assert forall|k: int| 0 <= k < n && k != i implies #[trigger] row_of(after, k, width) == row_of(
        s,
        k,
        width,
    ) by {
        cache::lemma_position_range(k, width, n);
        assert(k * width + width <= i * width || i * width + width <= k * width)
            by (nonlinear_arith)
            requires
                k != i,
                0 <= width,
        ;
        assert(row_of(after, k, width) =~= row_of(s, k, width));
    }
}

/// A linear layer: a matrix and, where there is one, a bias.
pub struct LinearLayer<'a, T> {
    pub weight: QuantTensor<'a>,
    pub bias: Option<Vec<T>>,
    pub in_features: usize,
    pub out_features: usize,
}

impl<'a, T: Copy> LinearLayer<'a, T> {
    /// The parts belong together.
    pub open spec fn valid(&self) -> bool {
        &&& self.weight.valid()
        &&& self.weight.shape@.len() == 2
        &&& self.out_features == self.weight.n_rows()
        &&& self.in_features == self.weight.n_cols()
        &&& match self.bias {
            Some(bias) => bias@.len() == self.out_features,
            None => true,
        }
    }

    /// The layer maps `cols` values to `rows` values.
    pub open spec fn sized(&self, rows: int, cols: int) -> bool {
        self.valid() && self.out_features == rows && self.in_features == cols
    }

    /// What the layer makes of an input.
    pub open spec fn output<B: KernelBackend<T>>(&self, backend: B, input: Seq<T>) -> Seq<T> {
        Seq::new(
            self.out_features as nat,
            |r: int|
                {
                    let product = backend.row_product(
                        self.weight.row_seq(r),
                        self.weight.quant_type,
                        input,
                    );
                    match self.bias {
                        Some(bias) => backend.added(product, bias@[r]),
                        None => product,
                    }
                },
        )
    }

    /// A layer of a matrix and a bias.
    pub fn new(weight: QuantTensor<'a>, bias: Option<Vec<T>>) -> (result: Result<
        LinearLayer<'a, T>,
        ModelError,
    >)
        requires
            weight.valid(),
        ensures
            if weight.shape@.len() != 2 {
                result == Err::<LinearLayer<'a, T>, ModelError>(ModelError::NotMatrix)
            } else if bias is Some && bias->0@.len() != weight.n_rows() {
                result == Err::<LinearLayer<'a, T>, ModelError>(ModelError::BiasLength)
            } else {
                result is Ok && result->Ok_0.sized(weight.n_rows(), weight.n_cols())
                    && result->Ok_0.weight == weight && result->Ok_0.bias == bias
            },
    {
        if weight.shape.len() != 2 {
            return Err(ModelError::NotMatrix);
        }
        let out_features: usize = weight.shape[0];
        let in_features: usize = weight.shape[1];
        if let Some(values) = &bias {
            if values.len() != out_features {
                return Err(ModelError::BiasLength);
            }
        }
        Ok(LinearLayer { weight, bias, in_features, out_features })
    }

    /// Applies the layer to an input of the right length and writes the result from `at` on.
    fn apply<B: KernelBackend<T>>(&self, backend: &B, input: &[T], output: &mut Vec<T>, at: usize)
        requires
            self.valid(),
            input@.len() == self.in_features,
            at + self.out_features <= old(output)@.len(),
        ensures
            final(output)@ == cache::splice(
                old(output)@,
                at as int,
                self.output(*backend, input@),
            ),
    {
        backend.matvec(&self.weight, input, output, at);
        if let Some(bias) = &self.bias {
            backend.add_into(output, at, bias.as_slice());
        }
        assert(output@ =~= cache::splice(old(output)@, at as int, self.output(*backend, input@)));
    }

    /// Applies the layer to one input.
    pub fn forward<B: KernelBackend<T>>(
        &self,
        backend: &B,
        input: &[T],
        output: &mut Vec<T>,
    ) -> (result: Result<(), ModelError>)
        requires
            self.valid(),
        ensures
            match self.weight.matvec_fault(input@.len() as int, old(output)@.len() as int) {
                Some(error) => result == Err::<(), ModelError>(ModelError::Quant { error })
                    && final(output)@ == old(output)@,
                None => result is Ok && final(output)@ == self.output(*backend, input@),
            },
    {
        match self.weight.validate_matvec(input.len(), output.len()) {
            Err(error) => return Err(ModelError::Quant { error }),
            Ok(()) => {},
        }
        self.apply(backend, input, output, 0);
        assert(output@ =~= self.output(*backend, input@));
        Ok(())
    }

    /// What applying the layer to `batch` inputs at once is refused for.
    pub open spec fn batch_fault(&self, inputs: int, outputs: int, batch: int) -> Option<QuantError> {
        if inputs != batch * self.in_features {
            Some(QuantError::MatvecInput { got: inputs as usize, expected: self.in_features })
        } else if outputs != batch * self.out_features {
            Some(QuantError::MatvecOutput { got: outputs as usize, expected: self.out_features })
        } else {
            None
        }
    }

    /// Applies the layer to `batch_size` inputs that lie one after the other: each output is what
    /// the layer makes of its input alone.
    pub fn forward_batch<B: KernelBackend<T>>(
        &self,
        backend: &B,
        inputs: &[T],
        outputs: &mut Vec<T>,
        batch_size: usize,
    ) -> (result: Result<(), ModelError>)
        requires
            self.valid(),
        ensures
            match self.batch_fault(
                inputs@.len() as int,
                old(outputs)@.len() as int,
                batch_size as int,
            ) {
                Some(error) => result == Err::<(), ModelError>(ModelError::Quant { error })
                    && final(outputs)@ == old(outputs)@,
                None => {
                    &&& result is Ok
                    &&& final(outputs)@.len() == batch_size * self.out_features
                    &&& forall|b: int|
                        0 <= b < batch_size ==> #[trigger] row_of(
                            final(outputs)@,
                            b,
                            self.out_features as int,
                        ) == self.output(*backend, row_of(inputs@, b, self.in_features as int))
                },
            },
    {
        let total_in: usize = inputs.len();
        let total_out: usize = outputs.len();
        let n: usize = self.in_features;
        let m: usize = self.out_features;
        let fed: bool = match batch_size.checked_mul(n) {
            Some(len) => len == total_in,
            None => false,
        };
        if !fed {
            return Err(
                ModelError::Quant { error: QuantError::MatvecInput { got: total_in, expected: n } },
            );
        }
        let room: bool = match batch_size.checked_mul(m) {
            Some(len) => len == total_out,
            None => false,
        };
        if !room {
            return Err(
                ModelError::Quant { error: QuantError::MatvecOutput { got: total_out, expected: m } },
            );
        }
        self.apply_rows(backend, inputs, outputs, batch_size);
        Ok(())
    }

    /// Applies the layer to inputs that lie one after the other.
    fn apply_rows<B: KernelBackend<T>>(
        &self,
        backend: &B,
        inputs: &[T],
        outputs: &mut Vec<T>,
        batch_size: usize,
    )
        requires
            self.valid(),
            inputs@.len() == batch_size * self.in_features,
            old(outputs)@.len() == batch_size * self.out_features,
        ensures
            final(outputs)@.len() == batch_size * self.out_features,
            forall|b: int|
                0 <= b < batch_size ==> #[trigger] row_of(
                    final(outputs)@,
                    b,
                    self.out_features as int,
                ) == self.output(*backend, row_of(inputs@, b, self.in_features as int)),
    {
        let total_in: usize = inputs.len();
        let total_out: usize = outputs.len();
        let n: usize = self.in_features;
        let m: usize = self.out_features;
        for b in 0..batch_size
            invariant
                self.valid(),
                n == self.in_features,
                m == self.out_features,
                total_in == inputs@.len(),
                total_in == batch_size * n,
                total_out == batch_size * m,
                outputs@.len() == total_out,
                forall|k: int|
                    0 <= k < b ==> #[trigger] row_of(outputs@, k, m as int) == self.output(
                        *backend,
                        row_of(inputs@, k, n as int),
                    ),
        {
            proof {
                cache::lemma_position_range(b as int, n as int, batch_size as int);
                cache::lemma_position_range(b as int, m as int, batch_size as int);
                lemma_splice_row(
                    outputs@,
                    batch_size as int,
                    m as int,
                    b as int,
                    self.output(*backend, row_of(inputs@, b as int, n as int)),
                );
            }
            let start: usize = b * n;
            self.apply(backend, &inputs[start..start + n], outputs, b * m);
        }
    }
}

/// A normalisation.
pub struct RMSNorm<T> {
    pub weight: Vec<T>,
    pub eps: Single,
}

impl<T: Copy> RMSNorm<T> {
    /// A normalisation with the given weight and constant.
    pub fn new(weight: Vec<T>, eps: Single) -> (result: Result<RMSNorm<T>, ModelError>)
        ensures
            result == (if weight@.len() == 0 {
                Err::<RMSNorm<T>, ModelError>(ModelError::EmptyNorm)
            } else if !eps.positive() {
                Err(ModelError::NormEpsilon)
            } else {
                Ok(RMSNorm { weight, eps })
            }),
    {
        if weight.len() == 0 {
            return Err(ModelError::EmptyNorm);
        }
        if !eps.is_positive_finite() {
            return Err(ModelError::NormEpsilon);
        }
        Ok(RMSNorm { weight, eps })
    }

    /// Normalises the hidden state of `len` values that starts at `at`.
    pub fn forward<B: KernelBackend<T>>(
        &self,
        backend: &B,
        hidden: &mut Vec<T>,
        at: usize,
        len: usize,
    ) -> (result: Result<(), ModelError>)
        requires
            at + len <= old(hidden)@.len(),
        ensures
            if len != self.weight@.len() {
                result == Err::<(), ModelError>(ModelError::NormShape) && final(hidden)@
                    == old(hidden)@
            } else {
                &&& result is Ok
                &&& self.output(*backend, old(hidden)@.subrange(at as int, at + len)).len() == len
                &&& final(hidden)@ == cache::splice(
                    old(hidden)@,
                    at as int,
                    self.output(*backend, old(hidden)@.subrange(at as int, at + len)),
                )
            },
    {
        if len != self.weight.len() {
            return Err(ModelError::NormShape);
        }
        backend.rmsnorm(hidden, at, self.weight.as_slice(), self.eps);
        Ok(())
    }

    /// What the normalisation makes of a hidden state.
    pub open spec fn output<B: KernelBackend<T>>(&self, backend: B, hidden: Seq<T>) -> Seq<T> {
        backend.normed(hidden, self.weight@, self.eps)
    }
}

/// One transformer layer.
pub struct TransformerBlock<'a, T> {
    pub input_layernorm: RMSNorm<T>,
    pub self_attn_q: LinearLayer<'a, T>,
    pub self_attn_k: LinearLayer<'a, T>,
    pub self_attn_v: LinearLayer<'a, T>,
    pub self_attn_o: LinearLayer<'a, T>,
    pub post_attention_layernorm: RMSNorm<T>,
    pub mlp_gate: LinearLayer<'a, T>,
    pub mlp_up: LinearLayer<'a, T>,
    pub mlp_down: LinearLayer<'a, T>,
}

impl<'a, T: Copy> TransformerBlock<'a, T> {
    /// Every part has the shape that the configuration asks for.
    pub open spec fn valid(&self, config: LlamaConfig) -> bool {
        let hidden = config.hidden_size as int;
        let inner = config.intermediate_size as int;
        &&& self.input_layernorm.weight@.len() == hidden
        &&& self.self_attn_q.sized(hidden, hidden)
        &&& self.self_attn_k.sized(config.kv_size(), hidden)
        &&& self.self_attn_v.sized(config.kv_size(), hidden)
        &&& self.self_attn_o.sized(hidden, hidden)
        &&& self.post_attention_layernorm.weight@.len() == hidden
        &&& self.mlp_gate.sized(inner, hidden)
        &&& self.mlp_up.sized(inner, hidden)
        &&& self.mlp_down.sized(hidden, inner)
    }
}

/// The elementwise sum of two hidden states.
pub open spec fn sum_of<T: Copy, B: KernelBackend<T>>(backend: B, a: Seq<T>, b: Seq<T>) -> Seq<T> {
    Seq::new(a.len(), |i: int| backend.added(a[i], b[i]))
}

/// The weighted sum of value `at` of the first `n` positions.
pub open spec fn mix<T: Copy, B: KernelBackend<T>>(
    backend: B,
    weights: Seq<T>,
    values: Seq<Seq<T>>,
    at: int,
    n: int,
) -> T
    decreases n,
{
    if n <= 0 {
        backend.zero_value()
    } else {
        backend.mixed(
            mix(backend, weights, values, at, n - 1),
            values[n - 1][at],
            weights[n - 1],
        )
    }
}

/// A Qwen2 model over values of type `T`, with the kernels that compute on them.
pub struct Qwen2Model<'a, T: Copy, B: KernelBackend<T>> {
    pub embed_tokens: QuantTensor<'a>,
    pub layers: Vec<TransformerBlock<'a, T>>,
    pub norm: RMSNorm<T>,
    pub lm_head: LinearLayer<'a, T>,
    pub config: LlamaConfig,
    pub backend: B,
    /// Rotary frequencies, one per pair of a head.
    pub inv_freq: Vec<T>,
}

/// Another name of the model type.
pub type LlamaModel<'a, T, B> = Qwen2Model<'a, T, B>;

impl<'a, T: Copy, B: KernelBackend<T>> Qwen2Model<'a, T, B> {
    /// Every part has the shape that the configuration asks for.
    pub open spec fn valid(&self) -> bool {
        &&& self.config.valid()
        &&& self.embed_tokens.valid()
        &&& self.embed_tokens.shape@.len() == 2
        &&& self.embed_tokens.n_rows() == self.config.vocab_size
        &&& self.embed_tokens.n_cols() == self.config.hidden_size
        &&& self.layers@.len() == self.config.num_hidden_layers
        &&& forall|n: int|
            0 <= n < self.layers@.len() ==> (#[trigger] self.layers@[n]).valid(self.config)
        &&& self.norm.weight@.len() == self.config.hidden_size
        &&& self.lm_head.sized(self.config.vocab_size as int, self.config.hidden_size as int)
        &&& self.inv_freq@.len() == self.config.head_width() / 2
    }

    /// The hidden state that a token starts with.
    pub open spec fn embedding(&self, token: u32) -> Seq<T> {
        Seq::new(
            self.config.hidden_size as nat,
            |c: int| self.backend.decoded(self.embed_tokens.code(token as int, c)),
        )
    }

    /// The cosines of the rotary angles of a position.
    pub open spec fn cos_row(&self, pos: int) -> Seq<T> {
        Seq::new(
            self.inv_freq@.len(),
            |i: int| self.backend.angle_cos(pos as usize, self.inv_freq@[i]),
        )
    }

    /// The sines of the rotary angles of a position.
    pub open spec fn sin_row(&self, pos: int) -> Seq<T> {
        Seq::new(
            self.inv_freq@.len(),
            |i: int| self.backend.angle_sin(pos as usize, self.inv_freq@[i]),
        )
    }

    /// Value `i` of a head after its rotation at a position: the first half of the head holds the
    /// first values of the pairs, the second half the second ones.
    pub open spec fn turned(&self, head: Seq<T>, pos: int, i: int) -> T {
        let half = self.config.head_width() / 2;
        if i < half {
            self.backend.turned_first(
                head[i],
                head[i + half],
                self.cos_row(pos)[i],
                self.sin_row(pos)[i],
            )
        } else {
            self.backend.turned_second(
                head[i - half],
                head[i],
                self.cos_row(pos)[i - half],
                self.sin_row(pos)[i - half],
            )
        }
    }

    /// Queries or keys with every head rotated.
    pub open spec fn rotated(&self, x: Seq<T>, pos: int) -> Seq<T> {
        let width = self.config.head_width();
        Seq::new(x.len(), |j: int| self.turned(row_of(x, j / width, width), pos, j % width))
    }

    /// The normalised hidden state that attention of layer `n` sees.
    pub open spec fn attention_input(&self, n: int, residual: Seq<T>) -> Seq<T> {
        self.layers@[n].input_layernorm.output(self.backend, residual)
    }

    /// The query of a token in layer `n`.
    pub open spec fn query(&self, n: int, residual: Seq<T>, pos: int) -> Seq<T> {
        self.rotated(
            self.layers@[n].self_attn_q.output(self.backend, self.attention_input(n, residual)),
            pos,
        )
    }

    /// The key that a token leaves in layer `n`.
    pub open spec fn key(&self, n: int, residual: Seq<T>, pos: int) -> Seq<T> {
        self.rotated(
            self.layers@[n].self_attn_k.output(self.backend, self.attention_input(n, residual)),
            pos,
        )
    }

    /// The value that a token leaves in layer `n`.
    pub open spec fn value(&self, n: int, residual: Seq<T>) -> Seq<T> {
        self.layers@[n].self_attn_v.output(self.backend, self.attention_input(n, residual))
    }

    /// Where the keys and values that an attention head reads start.
    pub open spec fn kv_start(&self, head: int) -> int {
        config::kv_head_of(self.config, head) * self.config.head_width()
    }

    /// The scores of the positions up to `pos` for one head.
    pub open spec fn head_scores(
        &self,
        query: Seq<T>,
        keys: Seq<Seq<T>>,
        head: int,
        pos: int,
    ) -> Seq<T> {
        let width = self.config.head_width();
        let at = self.kv_start(head);
        Seq::new(
            (pos + 1) as nat,
            |p: int|
                self.backend.score_of(
                    row_of(query, head, width),
                    keys[p].subrange(at, at + width),
                ),
        )
    }

    /// Value `i` of what one head collects from the positions up to `pos`.
    pub open spec fn head_value(
        &self,
        query: Seq<T>,
        keys: Seq<Seq<T>>,
        values: Seq<Seq<T>>,
        head: int,
        pos: int,
        i: int,
    ) -> T {
        mix(
            self.backend,
            self.backend.weights_of(self.head_scores(query, keys, head, pos)),
            values,
            self.kv_start(head) + i,
            pos + 1,
        )
    }

    /// What all heads collect: causal attention of the token at `pos` over the positions up to it.
    pub open spec fn attended(
        &self,
        query: Seq<T>,
        keys: Seq<Seq<T>>,
        values: Seq<Seq<T>>,
        pos: int,
    ) -> Seq<T> {
        let width = self.config.head_width();
        Seq::new(
            self.config.hidden_size as nat,
            |j: int| self.head_value(query, keys, values, j / width, pos, j % width),
        )
    }

    /// The hidden state after the attention of layer `n`.
    pub open spec fn after_attention(
        &self,
        n: int,
        residual: Seq<T>,
        pos: int,
        keys: Seq<Seq<T>>,
        values: Seq<Seq<T>>,
    ) -> Seq<T> {
        sum_of(
            self.backend,
            residual,
            self.layers@[n].self_attn_o.output(
                self.backend,
                self.attended(self.query(n, residual, pos), keys, values, pos),
            ),
        )
    }

    /// The gated values inside the feed-forward part of layer `n`.
    pub open spec fn gated(&self, n: int, residual: Seq<T>) -> Seq<T> {
        let block = self.layers@[n];
        let hidden = block.post_attention_layernorm.output(self.backend, residual);
        let gate = block.mlp_gate.output(self.backend, hidden);
        let up = block.mlp_up.output(self.backend, hidden);
        Seq::new(gate.len(), |i: int| self.backend.gated(gate[i], up[i]))
    }

    /// The hidden state after the feed-forward part of layer `n`.
    pub open spec fn after_mlp(&self, n: int, residual: Seq<T>) -> Seq<T> {
        sum_of(
            self.backend,
            residual,
            self.layers@[n].mlp_down.output(self.backend, self.gated(n, residual)),
        )
    }

    /// The hidden state after layer `n`.
    pub open spec fn after_layer(
        &self,
        n: int,
        residual: Seq<T>,
        pos: int,
        keys: Seq<Seq<T>>,
        values: Seq<Seq<T>>,
    ) -> Seq<T> {
        self.after_mlp(n, self.after_attention(n, residual, pos, keys, values))
    }

    /// Layer `n`: the token's key and value are stored first, then the token attends.
    pub open spec fn layer_step(&self, n: int, pos: int, flow: Flow<T>) -> Flow<T> {
        let cache = flow.cache.store(
            n,
            pos,
            self.key(n, flow.residual, pos),
            self.value(n, flow.residual),
        );
        Flow { residual: self.after_layer(n, flow.residual, pos, cache.k[n], cache.v[n]), cache }
    }

    /// What all heads of layer `n` collect for the token whose state before the layer is `flow`.
    pub open spec fn collected(&self, n: int, pos: int, flow: Flow<T>) -> Seq<T> {
        let cache = self.layer_step(n, pos, flow).cache;
        self.attended(self.query(n, flow.residual, pos), cache.k[n], cache.v[n], pos)
    }

    /// What all heads of the last layer collect for one token at one position.
    pub open spec fn last_collected(&self, token: u32, pos: int, cache: CacheView<T>) -> Seq<T> {
        let last = self.layers@.len() - 1;
        let start = Flow { residual: self.embedding(token), cache };
        self.collected(last, pos, self.layers_run(last, pos, start))
    }

    /// The first `n` layers.
    pub open spec fn layers_run(&self, n: int, pos: int, flow: Flow<T>) -> Flow<T>
        decreases n,
    {
        if n <= 0 {
            flow
        } else {
            self.layer_step(n - 1, pos, self.layers_run(n - 1, pos, flow))
        }
    }

    /// One token at one position through all layers.
    pub open spec fn token_run(&self, token: u32, pos: int, cache: CacheView<T>) -> Flow<T> {
        self.layers_run(
            self.layers@.len() as int,
            pos,
            Flow { residual: self.embedding(token), cache },
        )
    }

    /// The cache after the first `k` tokens, one after the other, from position `start` on.
    pub open spec fn tokens_run(
        &self,
        tokens: Seq<u32>,
        start: int,
        cache: CacheView<T>,
        k: int,
    ) -> CacheView<T>
        decreases k,
    {
        if k <= 0 {
            cache
        } else {
            self.token_run(
                tokens[k - 1],
                start + k - 1,
                self.tokens_run(tokens, start, cache, k - 1),
            ).cache
        }
    }

    /// The hidden state that the last of the tokens ends with.
    pub open spec fn last_residual(
        &self,
        tokens: Seq<u32>,
        start: int,
        cache: CacheView<T>,
    ) -> Seq<T> {
        let last = tokens.len() - 1;
        self.token_run(
            tokens[last],
            start + last,
            self.tokens_run(tokens, start, cache, last),
        ).residual
    }

    /// The cache after the first layer has stored the keys and values of the first `k` tokens.
    pub open spec fn first_layer_stored(
        &self,
        tokens: Seq<u32>,
        start: int,
        cache: CacheView<T>,
        k: int,
    ) -> CacheView<T>
        decreases k,
    {
        if k <= 0 {
            cache
        } else {
            let residual = self.embedding(tokens[k - 1]);
            let pos = start + k - 1;
            self.first_layer_stored(tokens, start, cache, k - 1).store(
                0,
                pos,
                self.key(0, residual, pos),
                self.value(0, residual),
            )
        }
    }

    /// What a chunk of tokens that is refused leaves in the cache: a chunk that runs over the end of
    /// the context is stored by the first layer up to there.
    pub open spec fn left_by_refused(
        &self,
        tokens: Seq<u32>,
        start: int,
        cache: CacheView<T>,
        context: usize,
    ) -> CacheView<T> {
        if first_bad_token(tokens, self.config.vocab_size, tokens.len() as int) is Some
            || tokens.len() == 1 || start >= context {
            cache
        } else {
            self.first_layer_stored(tokens, start, cache, context - start)
        }
    }

    /// The projection of a hidden state to the vocabulary.
    pub open spec fn logits_of(&self, residual: Seq<T>) -> Seq<T> {
        self.lm_head.output(self.backend, self.norm.output(self.backend, residual))
    }

    /// A model of parts that have the shapes of the configuration.
    pub fn new(
        embed_tokens: QuantTensor<'a>,
        layers: Vec<TransformerBlock<'a, T>>,
        norm: RMSNorm<T>,
        lm_head: LinearLayer<'a, T>,
        config: LlamaConfig,
        backend: B,
    ) -> (model: Qwen2Model<'a, T, B>)
        requires
            config.num_attention_heads > 0,
        ensures
            model.embed_tokens == embed_tokens,
            model.layers == layers,
            model.norm == norm,
            model.lm_head == lm_head,
            model.config == config,
            model.backend == backend,
            model.inv_freq@ == Seq::new(
                (config.head_width() / 2) as nat,
                |i: int|
                    backend.frequency_of(config.rope_theta, i as usize, config.head_width() as usize),
            ),
    {
        let head_dim: usize = config.head_dim();
        let half: usize = head_dim / 2;
        let mut inv_freq: Vec<T> = Vec::new();
        for i in 0..half
            invariant
                head_dim == config.head_width(),
                inv_freq@ == Seq::new(
                    i as nat,
                    |i: int| backend.frequency_of(config.rope_theta, i as usize, head_dim),
                ),
        {
            inv_freq.push(backend.frequency(config.rope_theta, i, head_dim));
            assert(inv_freq@ =~= Seq::new(
                (i + 1) as nat,
                |i: int| backend.frequency_of(config.rope_theta, i as usize, head_dim),
            ));
        }
        Qwen2Model { embed_tokens, layers, norm, lm_head, config, backend, inv_freq }
    }

    /// Computes the rotary values of a position.
    fn prepare_rope(&self, pos: usize, cos: &mut Vec<T>, sin: &mut Vec<T>)
        requires
            old(cos)@.len() == self.inv_freq@.len(),
            old(sin)@.len() == self.inv_freq@.len(),
        ensures
            final(cos)@ == self.cos_row(pos as int),
            final(sin)@ == self.sin_row(pos as int),
    {
        for i in 0..self.inv_freq.len()
            invariant
                cos@.len() == self.inv_freq@.len(),
                sin@.len() == self.inv_freq@.len(),
                forall|k: int| 0 <= k < i ==> cos@[k] == self.cos_row(pos as int)[k],
                forall|k: int| 0 <= k < i ==> sin@[k] == self.sin_row(pos as int)[k],
        {
            let (c, s) = self.backend.angle(pos, self.inv_freq[i]);
            cos[i] = c;
            sin[i] = s;
        }
        assert(cos@ =~= self.cos_row(pos as int));
        assert(sin@ =~= self.sin_row(pos as int));
    }

    /// Rotates the heads that lie one after the other from `at` on.
    fn rotate_heads(
        &self,
        x: &mut Vec<T>,
        at: usize,
        heads: usize,
        cos: &Vec<T>,
        sin: &Vec<T>,
        Ghost(pos): Ghost<int>,
    )
        requires
            self.valid(),
            at + heads * self.config.head_width() <= old(x)@.len(),
            cos@ == self.cos_row(pos),
            sin@ == self.sin_row(pos),
        ensures
            final(x)@ == cache::splice(
                old(x)@,
                at as int,
                self.rotated(
                    old(x)@.subrange(at as int, at + heads * self.config.head_width()),
                    pos,
                ),
            ),
    {
        let width: usize = self.config.head_dim();
        let total: usize = x.len();
        let ghost part = old(x)@.subrange(at as int, at + heads * width);
        let ghost turned = self.rotated(part, pos);
        assert(0 * width == 0) by (nonlinear_arith);
        for head in 0..heads
            invariant
                self.valid(),
                width == self.config.head_width(),
                total == x@.len(),
                old(x)@.len() == total,
                at + heads * width <= total,
                part == old(x)@.subrange(at as int, at + heads * width),
                turned == self.rotated(part, pos),
                cos@ == self.cos_row(pos),
                sin@ == self.sin_row(pos),
                forall|j: int|
                    0 <= j < total ==> #[trigger] x@[j] == (if at <= j < at + head * width {
                        turned[j - at]
                    } else {
                        old(x)@[j]
                    }),
        {
            let ghost before = x@;
            proof {
                cache::lemma_position_range(head as int, width as int, heads as int);
                assert(2 * (width as int / 2) == width);
            }
            let start: usize = at + head * width;
            self.backend.rope(x, start, cos.as_slice(), sin.as_slice());
            proof {
                assert forall|j: int| 0 <= j < total implies #[trigger] x@[j] == (if at <= j < at + (
                head + 1) * width {
                    turned[j - at]
                } else {
                    old(x)@[j]
                }) by {
                    if start <= j < start + width {
                        let i = j - start;
                        vstd::arithmetic::div_mod::lemma_fundamental_div_mod_converse(
                            j - at,
                            width as int,
                            head as int,
                            i,
                        );
                        let row = row_of(part, head as int, width as int);
                        assert(turned[j - at] == self.turned(row, pos, i));
                        assert forall|m: int| 0 <= m < width implies #[trigger] row[m] == before[start
                            + m] by {
                            assert(before[start + m] == old(x)@[start + m]);
                        }
                    } else {
                        assert(x@[j] == before[j]);
                    }
                }
            }
        }
        assert(x@ =~= cache::splice(old(x)@, at as int, turned));
    }

    /// One head attends to the positions up to `pos` and writes what it collects from `at` on.
    fn attend_head(
        &self,
        head: usize,
        query: &[T],
        k_layer: &Vec<T>,
        v_layer: &Vec<T>,
        context: usize,
        pos: usize,
        scores: &mut Vec<T>,
        scores_at: usize,
        out: &mut Vec<T>,
        at: usize,
    )
        requires
            self.valid(),
            head < self.config.num_attention_heads,
            query@.len() == self.config.hidden_size,
            k_layer@.len() == context * self.config.kv_size(),
            v_layer@.len() == context * self.config.kv_size(),
            pos < context,
            scores_at + context <= old(scores)@.len(),
            at + self.config.head_width() <= old(out)@.len(),
        ensures
            final(scores)@.len() == old(scores)@.len(),
            final(out)@ == cache::splice(
                old(out)@,
                at as int,
                Seq::new(
                    self.config.head_width() as nat,
                    |i: int|
                        self.head_value(
                            query@,
                            cache::positions(k_layer@, self.config.kv_size(), context as int),
                            cache::positions(v_layer@, self.config.kv_size(), context as int),
                            head as int,
                            pos as int,
                            i,
                        ),
                ),
            ),
    {
        proof {
            config::valid_heads_fit(self.config);
        }
        let width: usize = self.config.head_dim();
        let kv_width: usize = self.config.kv_width();
        let heads: usize = self.config.num_attention_heads;
        let kv_heads: usize = self.config.num_key_value_heads;
        let kv_head: usize = head / (heads / kv_heads);
        let ghost keys = cache::positions(k_layer@, kv_width as int, context as int);
        let ghost values = cache::positions(v_layer@, kv_width as int, context as int);
        proof {
            assert(0 <= config::kv_head_of(self.config, head as int) < kv_heads);
            cache::lemma_position_range(kv_head as int, width as int, kv_heads as int);
            cache::lemma_position_range(head as int, width as int, heads as int);
        }
        let kv_at: usize = kv_head * width;
        let q_at: usize = head * width;
        let q_len: usize = query.len();
        let q_head = &query[q_at..q_at + width];
        let score_len: usize = scores.len();
        let k_len: usize = k_layer.len();
        let v_len: usize = v_layer.len();
        let ghost wanted = self.head_scores(query@, keys, head as int, pos as int);
        for p in 0..(pos + 1)
            invariant
                pos < context,
                width == self.config.head_width(),
                kv_width == self.config.kv_size(),
                kv_at == self.kv_start(head as int),
                kv_at + width <= kv_width,
                k_len == k_layer@.len(),
                k_len == context * kv_width,
                keys == cache::positions(k_layer@, kv_width as int, context as int),
                q_head@ == row_of(query@, head as int, width as int),
                q_head@.len() == width,
                wanted == self.head_scores(query@, keys, head as int, pos as int),
                score_len == scores@.len(),
                scores_at + context <= score_len,
                forall|i: int| 0 <= i < p ==> #[trigger] scores@[scores_at + i] == wanted[i],
        {
            proof {
                cache::lemma_position_range(p as int, kv_width as int, context as int);
            }
            let start: usize = p * kv_width + kv_at;
            let key = &k_layer[start..start + width];
            assert(key@ =~= keys[p as int].subrange(kv_at as int, kv_at + width));
            let score = self.backend.score(q_head, key);
            let ghost before = scores@;
            scores[scores_at + p] = score;
            assert forall|i: int| 0 <= i < p + 1 implies #[trigger] scores@[scores_at + i]
                == wanted[i] by {
                if i < p {
                    assert(before[scores_at + i] == wanted[i]);
                }
            }
        }
        proof {
            let filled = scores@.subrange(scores_at as int, scores_at + (pos + 1));
            assert forall|i: int| 0 <= i <= pos implies #[trigger] filled[i] == wanted[i] by {
                assert(scores@[scores_at + i] == wanted[i]);
            }
            assert(filled =~= wanted);
        }
        self.backend.softmax(scores, scores_at, pos + 1);
        let ghost weights = self.backend.weights_of(wanted);
        assert forall|i: int| 0 <= i <= pos implies #[trigger] weights[i] == scores@[scores_at
            + i] by {}
        let zero = self.backend.zero();
        let room: usize = out.len();
        for i in 0..width
            invariant
                width == self.config.head_width(),
                room == out@.len(),
                old(out)@.len() == room,
                at + width <= room,
                zero == self.backend.zero_value(),
                forall|j: int|
                    0 <= j < room ==> #[trigger] out@[j] == (if at <= j < at + i {
                        zero
                    } else {
                        old(out)@[j]
                    }),
        {
            out[at + i] = zero;
        }
        for p in 0..(pos + 1)
            invariant
                pos < context,
                zero == self.backend.zero_value(),
                width == self.config.head_width(),
                kv_width == self.config.kv_size(),
                kv_at == self.kv_start(head as int),
                kv_at + width <= kv_width,
                v_len == v_layer@.len(),
                v_len == context * kv_width,
                values == cache::positions(v_layer@, kv_width as int, context as int),
                score_len == scores@.len(),
                scores_at + context <= score_len,
                forall|i: int| 0 <= i <= pos ==> #[trigger] weights[i] == scores@[scores_at + i],
                room == out@.len(),
                old(out)@.len() == room,
                at + width <= room,
                forall|j: int|
                    0 <= j < room ==> #[trigger] out@[j] == (if at <= j < at + width {
                        mix(self.backend, weights, values, kv_at + (j - at), p as int)
                    } else {
                        old(out)@[j]
                    }),
        {
            proof {
                cache::lemma_position_range(p as int, kv_width as int, context as int);
            }
            let start: usize = p * kv_width + kv_at;
            let value = &v_layer[start..start + width];
            let ghost before = out@;
            let weight = scores[scores_at + p];
            assert(weights[p as int] == weight);
            self.backend.mad(out, at, value, weight);
            assert forall|j: int| 0 <= j < room implies #[trigger] out@[j] == (if at <= j < at
                + width {
                mix(self.backend, weights, values, kv_at + (j - at), p + 1)
            } else {
                old(out)@[j]
            }) by {
                assert(before[j] == before[j]);
                if at <= j < at + width {
                    assert(value@[j - at] == values[p as int][kv_at + (j - at)]);
                }
            }
        }
        assert(out@ =~= cache::splice(
            old(out)@,
            at as int,
            Seq::new(
                width as nat,
                |i: int| self.head_value(query@, keys, values, head as int, pos as int, i),
            ),
        ));
    }

    /// All heads attend to the positions up to `pos` and write what they collect from `at` on. The
    /// scores of each head lie `stride` behind those of the head before.
    fn attend(
        &self,
        query: &[T],
        k_layer: &Vec<T>,
        v_layer: &Vec<T>,
        context: usize,
        pos: usize,
        scores: &mut Vec<T>,
        stride: usize,
        out: &mut Vec<T>,
        at: usize,
    )
        requires
            self.valid(),
            query@.len() == self.config.hidden_size,
            k_layer@.len() == context * self.config.kv_size(),
            v_layer@.len() == context * self.config.kv_size(),
            pos < context,
            (self.config.num_attention_heads - 1) * stride + context <= old(scores)@.len(),
            at + self.config.hidden_size <= old(out)@.len(),
        ensures
            final(scores)@.len() == old(scores)@.len(),
            final(out)@ == cache::splice(
                old(out)@,
                at as int,
                self.attended(
                    query@,
                    cache::positions(k_layer@, self.config.kv_size(), context as int),
                    cache::positions(v_layer@, self.config.kv_size(), context as int),
                    pos as int,
                ),
            ),
    {
        proof {
            config::valid_heads_fit(self.config);
        }
        let width: usize = self.config.head_dim();
        let heads: usize = self.config.num_attention_heads;
        let hidden: usize = self.config.hidden_size;
        let ghost kv = self.config.kv_size();
        let ghost keys = cache::positions(k_layer@, kv, context as int);
        let ghost values = cache::positions(v_layer@, kv, context as int);
        let ghost all = self.attended(query@, keys, values, pos as int);
        let room: usize = out.len();
        let score_len: usize = scores.len();
        assert(0 * width == 0) by (nonlinear_arith);
        for head in 0..heads
            invariant
                self.valid(),
                width == self.config.head_width(),
                heads == self.config.num_attention_heads,
                hidden == self.config.hidden_size,
                heads * width == hidden,
                kv == self.config.kv_size(),
                query@.len() == hidden,
                k_layer@.len() == context * kv,
                v_layer@.len() == context * kv,
                keys == cache::positions(k_layer@, kv, context as int),
                values == cache::positions(v_layer@, kv, context as int),
                all == self.attended(query@, keys, values, pos as int),
                pos < context,
                score_len == scores@.len(),
                (heads - 1) * stride + context <= score_len,
                room == out@.len(),
                old(out)@.len() == room,
                at + hidden <= room,
                forall|j: int|
                    0 <= j < room ==> #[trigger] out@[j] == (if at <= j < at + head * width {
                        all[j - at]
                    } else {
                        old(out)@[j]
                    }),
        {
            proof {
                cache::lemma_position_range(head as int, width as int, heads as int);
                assert(0 <= head * stride <= (heads - 1) * stride) by (nonlinear_arith)
                    requires
                        0 <= head <= heads - 1,
                        0 <= stride,
                ;
            }
            let ghost before = out@;
            let start: usize = at + head * width;
            self.attend_head(
                head,
                query,
                k_layer,
                v_layer,
                context,
                pos,
                scores,
                head * stride,
                out,
                start,
            );
            proof {
                assert forall|j: int| 0 <= j < room implies #[trigger] out@[j] == (if at <= j < at
                    + (head + 1) * width {
                    all[j - at]
                } else {
                    old(out)@[j]
                }) by {
                    if start <= j < start + width {
                        vstd::arithmetic::div_mod::lemma_fundamental_div_mod_converse(
                            j - at,
                            width as int,
                            head as int,
                            j - start,
                        );
                    } else {
                        assert(out@[j] == before[j]);
                    }
                }
            }
        }
        assert(out@ =~= cache::splice(old(out)@, at as int, all));
    }

    /// The hidden state that a token starts with.
    fn embed(&self, token: u32) -> (row: Vec<T>)
        requires
            self.valid(),
            token < self.config.vocab_size,
        ensures
            row@ == self.embedding(token),
    {
        let zero = self.backend.zero();
        let mut row = cache::filled(zero, self.config.hidden_size);
        let backend = &self.backend;
        let decode = |code: ElementCode| -> (r: T)
            ensures
                r == backend.decoded(code),
            { backend.decode(code) };
        let result = self.embed_tokens.row_into(token as usize, row.as_mut_slice(), &decode);
        assert(result is Ok);
        assert forall|c: int| 0 <= c < self.config.hidden_size implies #[trigger] row@[c]
            == self.embedding(token)[c] by {}
        assert(row@ =~= self.embedding(token));
        row
    }

    /// Runs layer `n` for the token whose hidden state `buffers` holds.
    fn forward_layer(
        &self,
        n: usize,
        pos: usize,
        kv_cache: &mut KVCache<T>,
        buffers: &mut InferenceBuffers<T>,
    )
        requires
            self.valid(),
            n < self.layers@.len(),
            old(kv_cache).fits(self.config),
            pos < old(kv_cache).max_seq_len,
            old(buffers).fits(self.config, old(kv_cache).max_seq_len as int),
            old(buffers).rope_cos@ == self.cos_row(pos as int),
            old(buffers).rope_sin@ == self.sin_row(pos as int),
        ensures
            final(kv_cache).fits(self.config),
            final(kv_cache).max_seq_len == old(kv_cache).max_seq_len,
            final(buffers).fits(self.config, final(kv_cache).max_seq_len as int),
            final(buffers).rope_cos@ == old(buffers).rope_cos@,
            final(buffers).rope_sin@ == old(buffers).rope_sin@,
            final(buffers).logits@ == old(buffers).logits@,
            ({
                let before = Flow { residual: old(buffers).residual@, cache: old(kv_cache)@ };
                let after = self.layer_step(n as int, pos as int, before);
                &&& final(buffers).residual@ == after.residual
                &&& final(buffers).attention@ == self.collected(n as int, pos as int, before)
                &&& final(kv_cache)@ == after.cache
            }),
    {
        let ghost residual = buffers.residual@;
        let ghost p = pos as int;
        let ghost l = n as int;
        proof {
            config::valid_heads_fit(self.config);
            assert(self.layers@[l].valid(self.config));
        }
        let block = &self.layers[n];
        let hidden: usize = self.config.hidden_size;
        let backend = &self.backend;

        cache::write_at(&mut buffers.hidden_states, 0, buffers.residual.as_slice());
        assert(buffers.hidden_states@ =~= residual);
        assert(residual.subrange(0, hidden as int) =~= residual);
        backend.rmsnorm(
            &mut buffers.hidden_states,
            0,
            block.input_layernorm.weight.as_slice(),
            block.input_layernorm.eps,
        );
        assert(buffers.hidden_states@ =~= self.attention_input(l, residual));

        block.self_attn_q.apply(backend, buffers.hidden_states.as_slice(), &mut buffers.q, 0);
        block.self_attn_k.apply(backend, buffers.hidden_states.as_slice(), &mut buffers.k, 0);
        block.self_attn_v.apply(backend, buffers.hidden_states.as_slice(), &mut buffers.v, 0);
        let ghost q = block.self_attn_q.output(*backend, self.attention_input(l, residual));
        let ghost k = block.self_attn_k.output(*backend, self.attention_input(l, residual));
        assert(buffers.q@ =~= q);
        assert(buffers.k@ =~= k);
        assert(buffers.v@ =~= self.value(l, residual));

        self.rotate_heads(
            &mut buffers.q,
            0,
            self.config.num_attention_heads,
            &buffers.rope_cos,
            &buffers.rope_sin,
            Ghost(p),
        );
        self.rotate_heads(
            &mut buffers.k,
            0,
            self.config.num_key_value_heads,
            &buffers.rope_cos,
            &buffers.rope_sin,
            Ghost(p),
        );
        assert(q.subrange(0, hidden as int) =~= q);
        assert(k.subrange(0, self.config.kv_size()) =~= k);
        assert(buffers.q@ =~= self.query(l, residual, p));
        assert(buffers.k@ =~= self.key(l, residual, p));

        let stored = kv_cache.update(n, pos, buffers.k.as_slice(), buffers.v.as_slice());
        assert(stored is Ok);
        let context: usize = kv_cache.max_seq_len;
        proof {
            let heads = self.config.num_attention_heads as int;
            assert((heads - 1) * context + context == context * heads) by (nonlinear_arith);
        }
        self.attend(
            buffers.q.as_slice(),
            &kv_cache.k_cache[n],
            &kv_cache.v_cache[n],
            context,
            pos,
            &mut buffers.scores,
            context,
            &mut buffers.attention,
            0,
        );
        let ghost stepped = kv_cache@;
        let ghost collected = self.attended(
            self.query(l, residual, p),
            stepped.k[l],
            stepped.v[l],
            p,
        );
        assert(buffers.attention@ =~= collected);

        block.self_attn_o.apply(backend, buffers.attention.as_slice(), &mut buffers.projection, 0);
        assert(buffers.projection@ =~= block.self_attn_o.output(*backend, collected));
        backend.add_into(&mut buffers.residual, 0, buffers.projection.as_slice());
        let ghost middle = self.after_attention(l, residual, p, stepped.k[l], stepped.v[l]);
        assert(buffers.residual@ =~= middle);

        cache::write_at(&mut buffers.hidden_states, 0, buffers.residual.as_slice());
        assert(buffers.hidden_states@ =~= middle);
        assert(middle.subrange(0, hidden as int) =~= middle);
        backend.rmsnorm(
            &mut buffers.hidden_states,
            0,
            block.post_attention_layernorm.weight.as_slice(),
            block.post_attention_layernorm.eps,
        );
        let ghost normed = block.post_attention_layernorm.output(*backend, middle);
        assert(buffers.hidden_states@ =~= normed);
        block.mlp_gate.apply(backend, buffers.hidden_states.as_slice(), &mut buffers.gate, 0);
        block.mlp_up.apply(backend, buffers.hidden_states.as_slice(), &mut buffers.up, 0);
        assert(buffers.gate@ =~= block.mlp_gate.output(*backend, normed));
        assert(buffers.up@ =~= block.mlp_up.output(*backend, normed));
        backend.swiglu(&mut buffers.gate, 0, buffers.up.as_slice());
        assert(buffers.gate@ =~= self.gated(l, middle));
        block.mlp_down.apply(backend, buffers.gate.as_slice(), &mut buffers.down, 0);
        assert(buffers.down@ =~= block.mlp_down.output(*backend, self.gated(l, middle)));
        backend.add_into(&mut buffers.residual, 0, buffers.down.as_slice());
        assert(buffers.residual@ =~= self.after_mlp(l, middle));
    }

    /// Normalises the hidden state and projects it to the vocabulary.
    fn project(&self, buffers: &mut InferenceBuffers<T>, Ghost(context): Ghost<int>)
        requires
            self.valid(),
            old(buffers).fits(self.config, context),
        ensures
            final(buffers).fits(self.config, context),
            final(buffers).residual@ == old(buffers).residual@,
            final(buffers).attention@ == old(buffers).attention@,
            final(buffers).logits@ == self.logits_of(old(buffers).residual@),
    {
        let ghost residual = buffers.residual@;
        cache::write_at(&mut buffers.hidden_states, 0, buffers.residual.as_slice());
        assert(buffers.hidden_states@ =~= residual);
        assert(residual.subrange(0, self.config.hidden_size as int) =~= residual);
        self.backend.rmsnorm(
            &mut buffers.hidden_states,
            0,
            self.norm.weight.as_slice(),
            self.norm.eps,
        );
        assert(buffers.hidden_states@ =~= self.norm.output(self.backend, residual));
        self.lm_head.apply(
            &self.backend,
            buffers.hidden_states.as_slice(),
            &mut buffers.logits,
            0,
        );
        assert(buffers.logits@ =~= self.logits_of(residual));
    }

    /// Runs one token through the model and, where asked, projects to the vocabulary.
    pub fn forward_impl(
        &self,
        token_id: u32,
        pos: usize,
        kv_cache: &mut KVCache<T>,
        buffers: &mut InferenceBuffers<T>,
        logits: LogitsMode,
    ) -> (result: Result<(), ModelError>)
        requires
            self.valid(),
            old(kv_cache).fits(self.config),
            old(buffers).fits(self.config, old(kv_cache).max_seq_len as int),
        ensures
            final(kv_cache).fits(self.config),
            final(kv_cache).max_seq_len == old(kv_cache).max_seq_len,
            final(buffers).fits(self.config, final(kv_cache).max_seq_len as int),
            match architecture::token_fault(
                token_id,
                pos,
                self.config.vocab_size,
                old(kv_cache).max_seq_len,
            ) {
                Some(e) => result == Err::<(), ModelError>(e) && *final(kv_cache) == *old(kv_cache)
                    && *final(buffers) == *old(buffers),
                None => {
                    let after = self.token_run(token_id, pos as int, old(kv_cache)@);
                    &&& result is Ok
                    &&& final(kv_cache)@ == after.cache
                    &&& final(buffers).residual@ == after.residual
                    &&& final(buffers).attention@ == self.last_collected(
                        token_id,
                        pos as int,
                        old(kv_cache)@,
                    )
                    &&& final(buffers).logits@ == (if logits == LogitsMode::Compute {
                        self.logits_of(after.residual)
                    } else {
                        old(buffers).logits@
                    })
                },
            },
            result is Ok && logits == LogitsMode::Compute ==> forall|v: int|
                0 <= v < self.config.vocab_size ==> #[trigger] final(buffers).logits@[v] == {
                    let product = self.backend.row_product(
                        self.lm_head.weight.row_seq(v),
                        self.lm_head.weight.quant_type,
                        self.backend.normed(
                            final(buffers).residual@,
                            self.norm.weight@,
                            self.norm.eps,
                        ),
                    );
                    match self.lm_head.bias {
                        Some(bias) => self.backend.added(product, bias@[v]),
                        None => product,
                    }
                },
    {
        if token_id as usize >= self.config.vocab_size {
            return Err(ModelError::Token { token: token_id });
        }
        if pos >= kv_cache.max_seq_len {
            return Err(ModelError::Position { pos, context: kv_cache.max_seq_len });
        }
        let ghost start = Flow { residual: self.embedding(token_id), cache: kv_cache@ };
        self.prepare_rope(pos, &mut buffers.rope_cos, &mut buffers.rope_sin);
        let row = self.embed(token_id);
        cache::write_at(&mut buffers.residual, 0, row.as_slice());
        assert(buffers.residual@ =~= start.residual);
        for n in 0..self.layers.len()
            invariant
                self.valid(),
                kv_cache.fits(self.config),
                kv_cache.max_seq_len == old(kv_cache).max_seq_len,
                pos < kv_cache.max_seq_len,
                buffers.fits(self.config, kv_cache.max_seq_len as int),
                buffers.rope_cos@ == self.cos_row(pos as int),
                buffers.rope_sin@ == self.sin_row(pos as int),
                buffers.logits@ == old(buffers).logits@,
                buffers.residual@ == self.layers_run(n as int, pos as int, start).residual,
                kv_cache@ == self.layers_run(n as int, pos as int, start).cache,
                n > 0 ==> buffers.attention@ == self.collected(
                    n - 1,
                    pos as int,
                    self.layers_run(n - 1, pos as int, start),
                ),
        {
            self.forward_layer(n, pos, kv_cache, buffers);
        }
        if logits == LogitsMode::Compute {
            self.project(buffers, Ghost(kv_cache.max_seq_len as int));
        }
        Ok(())
    }

    /// Runs one token through the model and projects to the vocabulary.
    pub fn forward(
        &self,
        token_id: u32,
        pos: usize,
        kv_cache: &mut KVCache<T>,
        buffers: &mut InferenceBuffers<T>,
    ) -> (result: Result<(), ModelError>)
        requires
            self.valid(),
            old(kv_cache).fits(self.config),
            old(buffers).fits(self.config, old(kv_cache).max_seq_len as int),
        ensures
            final(kv_cache).fits(self.config),
            final(kv_cache).max_seq_len == old(kv_cache).max_seq_len,
            final(buffers).fits(self.config, final(kv_cache).max_seq_len as int),
            match architecture::token_fault(
                token_id,
                pos,
                self.config.vocab_size,
                old(kv_cache).max_seq_len,
            ) {
                Some(e) => result == Err::<(), ModelError>(e) && *final(kv_cache) == *old(kv_cache)
                    && *final(buffers) == *old(buffers),
                None => {
                    let after = self.token_run(token_id, pos as int, old(kv_cache)@);
                    &&& result is Ok
                    &&& final(kv_cache)@ == after.cache
                    &&& final(buffers).residual@ == after.residual
                    &&& final(buffers).attention@ == self.last_collected(
                        token_id,
                        pos as int,
                        old(kv_cache)@,
                    )
                    &&& final(buffers).logits@ == self.logits_of(after.residual)
                },
            },
    {
        self.forward_impl(token_id, pos, kv_cache, buffers, LogitsMode::Compute)
    }
}

impl<'a, T: Copy, B: KernelBackend<T>> Qwen2Model<'a, T, B> {
    /// The hidden state of token `i` before layer `n`, when the tokens run one after the other.
    pub open spec fn residual_before(
        &self,
        tokens: Seq<u32>,
        start: int,
        cache: CacheView<T>,
        n: int,
        i: int,
    ) -> Seq<T> {
        self.layers_run(
            n,
            start + i,
            Flow {
                residual: self.embedding(tokens[i]),
                cache: self.tokens_run(tokens, start, cache, i),
            },
        ).residual
    }

    /// The first `n` layers change one position of each of them, where they leave the token's key
    /// and value.
    proof fn lemma_layers_cache(&self, n: int, pos: int, flow: Flow<T>, context: int)
        requires
            0 <= n <= self.layers@.len(),
            flow.cache.sized(self.layers@.len() as int, context),
            0 <= pos < context,
        ensures
            self.layers_run(n, pos, flow).cache.sized(self.layers@.len() as int, context),
            forall|l: int, p: int|
                #![trigger self.layers_run(n, pos, flow).cache.k[l][p]]
                0 <= l < self.layers@.len() && 0 <= p < context ==> self.layers_run(
                    n,
                    pos,
                    flow,
                ).cache.k[l][p] == (if l < n && p == pos {
                    self.key(l, self.layers_run(l, pos, flow).residual, pos)
                } else {
                    flow.cache.k[l][p]
                }),
            forall|l: int, p: int|
                #![trigger self.layers_run(n, pos, flow).cache.v[l][p]]
                0 <= l < self.layers@.len() && 0 <= p < context ==> self.layers_run(
                    n,
                    pos,
                    flow,
                ).cache.v[l][p] == (if l < n && p == pos {
                    self.value(l, self.layers_run(l, pos, flow).residual)
                } else {
                    flow.cache.v[l][p]
                }),
        decreases n,
    {
        if n > 0 {
            let m = n - 1;
            self.lemma_layers_cache(m, pos, flow, context);
            let before = self.layers_run(m, pos, flow);
            cache::stored_values_are_read_back(
                before.cache,
                self.layers@.len() as int,
                context,
                m,
                pos,
                self.key(m, before.residual, pos),
                self.value(m, before.residual),
            );
            let after = self.layers_run(n, pos, flow);
            assert forall|l: int, p: int|
                #![trigger after.cache.k[l][p]]
                0 <= l < self.layers@.len() && 0 <= p < context implies after.cache.k[l][p] == (if l
                < n && p == pos {
                self.key(l, self.layers_run(l, pos, flow).residual, pos)
            } else {
                flow.cache.k[l][p]
            }) by {
                assert(l != m || p != pos ==> after.cache.k[l][p] == before.cache.k[l][p]);
            }
            assert forall|l: int, p: int|
                #![trigger after.cache.v[l][p]]
                0 <= l < self.layers@.len() && 0 <= p < context implies after.cache.v[l][p] == (if l
                < n && p == pos {
                self.value(l, self.layers_run(l, pos, flow).residual)
            } else {
                flow.cache.v[l][p]
            }) by {
                assert(l != m || p != pos ==> after.cache.k[l][p] == before.cache.k[l][p]
                    && after.cache.v[l][p] == before.cache.v[l][p]);
            }
        }
    }

    /// After `k` tokens the cache holds their keys and values, and elsewhere what it held before.
    proof fn lemma_tokens_cache(
        &self,
        tokens: Seq<u32>,
        start: int,
        cache: CacheView<T>,
        k: int,
        context: int,
    )
        requires
            0 <= k <= tokens.len(),
            0 <= start,
            start + k <= context,
            cache.sized(self.layers@.len() as int, context),
        ensures
            self.tokens_run(tokens, start, cache, k).sized(self.layers@.len() as int, context),
            forall|l: int, p: int|
                #![trigger self.tokens_run(tokens, start, cache, k).k[l][p]]
                0 <= l < self.layers@.len() && 0 <= p < context ==> self.tokens_run(
                    tokens,
                    start,
                    cache,
                    k,
                ).k[l][p] == (if start <= p < start + k {
                    self.key(l, self.residual_before(tokens, start, cache, l, p - start), p)
                } else {
                    cache.k[l][p]
                }),
            forall|l: int, p: int|
                #![trigger self.tokens_run(tokens, start, cache, k).v[l][p]]
                0 <= l < self.layers@.len() && 0 <= p < context ==> self.tokens_run(
                    tokens,
                    start,
                    cache,
                    k,
                ).v[l][p] == (if start <= p < start + k {
                    self.value(l, self.residual_before(tokens, start, cache, l, p - start))
                } else {
                    cache.v[l][p]
                }),
        decreases k,
    {
        if k > 0 {
            let m = k - 1;
            self.lemma_tokens_cache(tokens, start, cache, m, context);
            let before = self.tokens_run(tokens, start, cache, m);
            let flow = Flow { residual: self.embedding(tokens[m]), cache: before };
            let layers = self.layers@.len() as int;
            self.lemma_layers_cache(layers, start + m, flow, context);
            let after = self.tokens_run(tokens, start, cache, k);
            assert(after == self.layers_run(layers, start + m, flow).cache);
            assert forall|l: int, p: int|
                #![trigger after.k[l][p]]
                0 <= l < layers && 0 <= p < context implies after.k[l][p] == (if start <= p < start
                + k {
                self.key(l, self.residual_before(tokens, start, cache, l, p - start), p)
            } else {
                cache.k[l][p]
            }) by {
                assert(before.k[l][p] == before.k[l][p]);
            }
            assert forall|l: int, p: int|
                #![trigger after.v[l][p]]
                0 <= l < layers && 0 <= p < context implies after.v[l][p] == (if start <= p < start
                + k {
                self.value(l, self.residual_before(tokens, start, cache, l, p - start))
            } else {
                cache.v[l][p]
            }) by {
                assert(before.v[l][p] == before.v[l][p]);
            }
        }
    }

    /// A weighted sum reads only the positions that it is over.
    proof fn lemma_mix_prefix(
        &self,
        weights: Seq<T>,
        a: Seq<Seq<T>>,
        b: Seq<Seq<T>>,
        at: int,
        n: int,
    )
        requires
            forall|p: int| 0 <= p < n ==> #[trigger] a[p] == b[p],
        ensures
            mix(self.backend, weights, a, at, n) == mix(self.backend, weights, b, at, n),
        decreases n,
    {
        if n > 0 {
            self.lemma_mix_prefix(weights, a, b, at, n - 1);
            assert(a[n - 1] == b[n - 1]);
        }
    }

    /// Attention is causal: the token at `pos` reads no position behind it.
    pub proof fn attention_is_causal(
        &self,
        query: Seq<T>,
        keys: Seq<Seq<T>>,
        values: Seq<Seq<T>>,
        other_keys: Seq<Seq<T>>,
        other_values: Seq<Seq<T>>,
        pos: int,
    )
        requires
            pos >= 0,
            forall|p: int| 0 <= p <= pos ==> #[trigger] keys[p] == other_keys[p],
            forall|p: int| 0 <= p <= pos ==> #[trigger] values[p] == other_values[p],
        ensures
            self.attended(query, keys, values, pos) == self.attended(
                query,
                other_keys,
                other_values,
                pos,
            ),
    {
        let width = self.config.head_width();
        let a = self.attended(query, keys, values, pos);
        let b = self.attended(query, other_keys, other_values, pos);
        assert forall|j: int| 0 <= j < a.len() implies #[trigger] a[j] == b[j] by {
            let head = j / width;
            let x = self.head_scores(query, keys, head, pos);
            let y = self.head_scores(query, other_keys, head, pos);
            assert forall|p: int| 0 <= p <= pos implies #[trigger] x[p] == y[p] by {
                assert(keys[p] == other_keys[p]);
            }
            assert(x =~= y);
            self.lemma_mix_prefix(
                self.backend.weights_of(x),
                values,
                other_values,
                self.kv_start(head) + j % width,
                pos + 1,
            );
        }
        assert(a =~= b);
    }

    /// Two caches hold the same at the first `n` positions of every layer.
    pub open spec fn agree(&self, a: CacheView<T>, b: CacheView<T>, n: int) -> bool {
        &&& forall|l: int, p: int|
            #![trigger a.k[l][p]]
            #![trigger b.k[l][p]]
            0 <= l < self.layers@.len() && 0 <= p < n ==> a.k[l][p] == b.k[l][p]
        &&& forall|l: int, p: int|
            #![trigger a.v[l][p]]
            #![trigger b.v[l][p]]
            0 <= l < self.layers@.len() && 0 <= p < n ==> a.v[l][p] == b.v[l][p]
    }

    /// Layers that start with one hidden state and with caches that agree before `pos` end with one
    /// hidden state.
    proof fn lemma_layers_agree(&self, n: int, pos: int, a: Flow<T>, b: Flow<T>, context: int)
        requires
            0 <= n <= self.layers@.len(),
            0 <= pos < context,
            a.cache.sized(self.layers@.len() as int, context),
            b.cache.sized(self.layers@.len() as int, context),
            a.residual == b.residual,
            self.agree(a.cache, b.cache, pos),
        ensures
            self.layers_run(n, pos, a).residual == self.layers_run(n, pos, b).residual,
        decreases n,
    {
        if n > 0 {
            let m = n - 1;
            self.lemma_layers_agree(m, pos, a, b, context);
            self.lemma_layers_cache(m, pos, a, context);
            self.lemma_layers_cache(m, pos, b, context);
            let x = self.layers_run(m, pos, a);
            let y = self.layers_run(m, pos, b);
            let key = self.key(m, x.residual, pos);
            let value = self.value(m, x.residual);
            let layers = self.layers@.len() as int;
            cache::stored_values_are_read_back(x.cache, layers, context, m, pos, key, value);
            cache::stored_values_are_read_back(y.cache, layers, context, m, pos, key, value);
            let left = x.cache.store(m, pos, key, value);
            let right = y.cache.store(m, pos, key, value);
            assert forall|p: int| 0 <= p <= pos implies #[trigger] left.k[m][p] == right.k[m][p] by {
                if p < pos {
                    assert(left.k[m][p] == x.cache.k[m][p]);
                    assert(right.k[m][p] == y.cache.k[m][p]);
                    assert(a.cache.k[m][p] == b.cache.k[m][p]);
                }
            }
            assert forall|p: int| 0 <= p <= pos implies #[trigger] left.v[m][p] == right.v[m][p] by {
                if p < pos {
                    assert(left.k[m][p] == x.cache.k[m][p] && left.v[m][p] == x.cache.v[m][p]);
                    assert(right.k[m][p] == y.cache.k[m][p] && right.v[m][p] == y.cache.v[m][p]);
                    assert(a.cache.v[m][p] == b.cache.v[m][p]);
                }
            }
            self.attention_is_causal(
                self.query(m, x.residual, pos),
                left.k[m],
                left.v[m],
                right.k[m],
                right.v[m],
                pos,
            );
        }
    }

    /// What a cache holds from a token's position on never matters to the token, whatever earlier
    /// sequences left there: caches that agree before the position give one hidden state and one
    /// projection to the vocabulary, and agree up to the position afterwards.
    pub proof fn stale_positions_never_matter(
        &self,
        token: u32,
        pos: int,
        a: CacheView<T>,
        b: CacheView<T>,
        context: int,
    )
        requires
            0 <= pos < context,
            a.sized(self.layers@.len() as int, context),
            b.sized(self.layers@.len() as int, context),
            self.agree(a, b, pos),
        ensures
            self.token_run(token, pos, a).residual == self.token_run(token, pos, b).residual,
            self.logits_of(self.token_run(token, pos, a).residual) == self.logits_of(
                self.token_run(token, pos, b).residual,
            ),
            self.token_run(token, pos, a).cache.sized(self.layers@.len() as int, context),
            self.token_run(token, pos, b).cache.sized(self.layers@.len() as int, context),
            self.agree(
                self.token_run(token, pos, a).cache,
                self.token_run(token, pos, b).cache,
                pos + 1,
            ),
    {
        let layers = self.layers@.len() as int;
        let x = Flow { residual: self.embedding(token), cache: a };
        let y = Flow { residual: self.embedding(token), cache: b };
        self.lemma_layers_agree(layers, pos, x, y, context);
        self.lemma_layers_cache(layers, pos, x, context);
        self.lemma_layers_cache(layers, pos, y, context);
        let left = self.layers_run(layers, pos, x).cache;
        let right = self.layers_run(layers, pos, y).cache;
        assert forall|l: int, p: int|
            0 <= l < layers && 0 <= p < pos + 1 implies left.k[l][p] == right.k[l][p]
            && left.v[l][p] == right.v[l][p] by {
            self.lemma_layers_agree(l, pos, x, y, context);
            if p < pos {
                assert(a.k[l][p] == b.k[l][p]);
                assert(a.v[l][p] == b.v[l][p]);
            }
        }
    }

    /// A sequence that starts at the first position does not depend on what the cache held before:
    /// every position is written before it is read, so nothing of an earlier sequence shows.
    pub proof fn new_sequences_forget_old_ones(
        &self,
        tokens: Seq<u32>,
        a: CacheView<T>,
        b: CacheView<T>,
        context: int,
        k: int,
    )
        requires
            0 <= k <= tokens.len() <= context,
            a.sized(self.layers@.len() as int, context),
            b.sized(self.layers@.len() as int, context),
        ensures
            self.tokens_run(tokens, 0, a, k).sized(self.layers@.len() as int, context),
            self.tokens_run(tokens, 0, b, k).sized(self.layers@.len() as int, context),
            self.agree(self.tokens_run(tokens, 0, a, k), self.tokens_run(tokens, 0, b, k), k),
            k == tokens.len() && k > 0 ==> self.last_residual(tokens, 0, a) == self.last_residual(
                tokens,
                0,
                b,
            ),
        decreases k,
    {
        if k > 0 {
            self.new_sequences_forget_old_ones(tokens, a, b, context, k - 1);
            self.stale_positions_never_matter(
                tokens[k - 1],
                k - 1,
                self.tokens_run(tokens, 0, a, k - 1),
                self.tokens_run(tokens, 0, b, k - 1),
                context,
            );
        }
    }

    /// `now` holds the keys and values of the tokens in the layers before `n` and, of the first `m`
    /// tokens, in layer `n`; elsewhere it holds what `cache` held.
    spec fn filled_to(
        &self,
        tokens: Seq<u32>,
        start: int,
        cache: CacheView<T>,
        now: CacheView<T>,
        context: int,
        n: int,
        m: int,
    ) -> bool {
        &&& now.sized(self.layers@.len() as int, context)
        &&& forall|l: int, p: int|
            #![trigger now.k[l][p]]
            0 <= l < self.layers@.len() && 0 <= p < context ==> now.k[l][p] == (if start <= p < start
                + tokens.len() && (l < n || l == n && p < start + m) {
                self.key(l, self.residual_before(tokens, start, cache, l, p - start), p)
            } else {
                cache.k[l][p]
            })
        &&& forall|l: int, p: int|
            #![trigger now.v[l][p]]
            0 <= l < self.layers@.len() && 0 <= p < context ==> now.v[l][p] == (if start <= p < start
                + tokens.len() && (l < n || l == n && p < start + m) {
                self.value(l, self.residual_before(tokens, start, cache, l, p - start))
            } else {
                cache.v[l][p]
            })
    }

    /// A token that attends in a cache that already holds its whole batch ends up where it would
    /// end up alone.
    proof fn lemma_batch_layer(
        &self,
        tokens: Seq<u32>,
        start: int,
        cache: CacheView<T>,
        now: CacheView<T>,
        context: int,
        n: int,
        i: int,
    )
        requires
            0 <= n < self.layers@.len(),
            0 <= i < tokens.len(),
            0 <= start,
            start + tokens.len() <= context,
            cache.sized(self.layers@.len() as int, context),
            self.filled_to(tokens, start, cache, now, context, n, tokens.len() as int),
        ensures
            self.after_layer(
                n,
                self.residual_before(tokens, start, cache, n, i),
                start + i,
                now.k[n],
                now.v[n],
            ) == self.residual_before(tokens, start, cache, n + 1, i),
    {
        let pos = start + i;
        let alone = self.tokens_run(tokens, start, cache, i);
        let flow = Flow { residual: self.embedding(tokens[i]), cache: alone };
        let layers = self.layers@.len() as int;
        self.lemma_tokens_cache(tokens, start, cache, i, context);
        self.lemma_layers_cache(n, pos, flow, context);
        let before = self.layers_run(n, pos, flow);
        let r = before.residual;
        cache::stored_values_are_read_back(
            before.cache,
            layers,
            context,
            n,
            pos,
            self.key(n, r, pos),
            self.value(n, r),
        );
        let stored = before.cache.store(n, pos, self.key(n, r, pos), self.value(n, r));
        assert forall|p: int| 0 <= p <= pos implies #[trigger] now.k[n][p] == stored.k[n][p] by {
            if p < pos {
                assert(stored.k[n][p] == before.cache.k[n][p]);
                assert(before.cache.k[n][p] == alone.k[n][p]);
            }
        }
        assert forall|p: int| 0 <= p <= pos implies #[trigger] now.v[n][p] == stored.v[n][p] by {
            if p < pos {
                assert(stored.k[n][p] == before.cache.k[n][p]);
                assert(before.cache.v[n][p] == alone.v[n][p]);
            }
        }
        self.attention_is_causal(
            self.query(n, r, pos),
            now.k[n],
            now.v[n],
            stored.k[n],
            stored.v[n],
            pos,
        );
    }

    /// A cache that holds the keys and values of all tokens in all layers is the one that the tokens
    /// leave when they run one after the other.
    proof fn lemma_batch_cache(
        &self,
        tokens: Seq<u32>,
        start: int,
        cache: CacheView<T>,
        now: CacheView<T>,
        context: int,
    )
        requires
            0 <= start,
            start + tokens.len() <= context,
            cache.sized(self.layers@.len() as int, context),
            self.filled_to(tokens, start, cache, now, context, self.layers@.len() as int, 0),
        ensures
            now == self.tokens_run(tokens, start, cache, tokens.len() as int),
    {
        let all = self.tokens_run(tokens, start, cache, tokens.len() as int);
        self.lemma_tokens_cache(tokens, start, cache, tokens.len() as int, context);
        assert forall|l: int| 0 <= l < self.layers@.len() implies #[trigger] now.k[l] == all.k[l] by {
            assert forall|p: int| 0 <= p < context implies now.k[l][p] == all.k[l][p] by {}
            assert(now.k[l] =~= all.k[l]);
        }
        assert forall|l: int| 0 <= l < self.layers@.len() implies #[trigger] now.v[l] == all.v[l] by {
            assert forall|p: int| 0 <= p < context implies now.v[l][p] == all.v[l][p] by {}
            assert(now.v[l] =~= all.v[l]);
        }
        assert(now.k =~= all.k);
        assert(now.v =~= all.v);
    }
}

/// The working vectors of a batch of tokens, one row per token.
struct Batch<T> {
    residual: Vec<T>,
    hidden: Vec<T>,
    q: Vec<T>,
    k: Vec<T>,
    v: Vec<T>,
    attention: Vec<T>,
    projection: Vec<T>,
    gate: Vec<T>,
    up: Vec<T>,
    down: Vec<T>,
    rope_cos: Vec<T>,
    rope_sin: Vec<T>,
    scores: Vec<T>,
}

impl<T: Copy> Batch<T> {
    spec fn sized(&self, config: LlamaConfig, b: int, context: int) -> bool {
        &&& self.residual@.len() == b * config.hidden_size
        &&& self.hidden@.len() == b * config.hidden_size
        &&& self.q@.len() == b * config.hidden_size
        &&& self.k@.len() == b * config.kv_size()
        &&& self.v@.len() == b * config.kv_size()
        &&& self.attention@.len() == b * config.hidden_size
        &&& self.projection@.len() == b * config.hidden_size
        &&& self.gate@.len() == b * config.intermediate_size
        &&& self.up@.len() == b * config.intermediate_size
        &&& self.down@.len() == b * config.hidden_size
        &&& self.rope_cos@.len() == config.head_width() / 2
        &&& self.rope_sin@.len() == config.head_width() / 2
        &&& self.scores@.len() == context
    }
}

/// A whole vector written over itself is that vector.
proof fn lemma_splice_whole<T>(s: Seq<T>, part: Seq<T>)
    requires
        part.len() == s.len(),
    ensures
        cache::splice(s, 0, part) == part,
{
    assert(cache::splice(s, 0, part) =~= part);
}

/// Adding whole batches adds each row.
proof fn lemma_rows_added<T: Copy, B: KernelBackend<T>>(
    backend: B,
    a: Seq<T>,
    b: Seq<T>,
    sum: Seq<T>,
    n: int,
    width: int,
)
    requires
        width >= 0,
        a.len() == n * width,
        b.len() == n * width,
        sum == Seq::new(b.len(), |i: int| backend.added(a[0 + i], b[i])),
    ensures
        forall|i: int|
            0 <= i < n ==> #[trigger] row_of(sum, i, width) == sum_of(
                backend,
                row_of(a, i, width),
                row_of(b, i, width),
            ),
{
    assert forall|i: int| 0 <= i < n implies #[trigger] row_of(sum, i, width) == sum_of(
        backend,
        row_of(a, i, width),
        row_of(b, i, width),
    ) by {
        cache::lemma_position_range(i, width, n);
        assert(row_of(sum, i, width) =~= sum_of(backend, row_of(a, i, width), row_of(b, i, width)));
    }
}

/// Gating whole batches gates each row.
proof fn lemma_rows_gated<T: Copy, B: KernelBackend<T>>(
    backend: B,
    gate: Seq<T>,
    up: Seq<T>,
    out: Seq<T>,
    n: int,
    width: int,
)
    requires
        width >= 0,
        gate.len() == n * width,
        up.len() == n * width,
        out == Seq::new(up.len(), |i: int| backend.gated(gate[0 + i], up[i])),
    ensures
        forall|i: int|
            0 <= i < n ==> #[trigger] row_of(out, i, width) == Seq::new(
                width as nat,
                |c: int| backend.gated(row_of(gate, i, width)[c], row_of(up, i, width)[c]),
            ),
{
    assert forall|i: int| 0 <= i < n implies #[trigger] row_of(out, i, width) == Seq::new(
        width as nat,
        |c: int| backend.gated(row_of(gate, i, width)[c], row_of(up, i, width)[c]),
    ) by {
        cache::lemma_position_range(i, width, n);
        assert(row_of(out, i, width) =~= Seq::new(
            width as nat,
            |c: int| backend.gated(row_of(gate, i, width)[c], row_of(up, i, width)[c]),
        ));
    }
}

impl<'a, T: Copy, B: KernelBackend<T>> Qwen2Model<'a, T, B> {
    /// Normalises every row.
    fn norm_rows(&self, norm: &RMSNorm<T>, x: &mut Vec<T>, b: usize)
        requires
            old(x)@.len() == b * norm.weight@.len(),
        ensures
            final(x)@.len() == old(x)@.len(),
            forall|i: int|
                0 <= i < b ==> #[trigger] row_of(final(x)@, i, norm.weight@.len() as int)
                    == norm.output(
                    self.backend,
                    row_of(old(x)@, i, norm.weight@.len() as int),
                ),
    {
        let width: usize = norm.weight.len();
        let total: usize = x.len();
        for i in 0..b
            invariant
                width == norm.weight@.len(),
                total == x@.len(),
                total == b * width,
                forall|k: int|
                    0 <= k < i ==> #[trigger] row_of(x@, k, width as int) == norm.output(
                        self.backend,
                        row_of(old(x)@, k, width as int),
                    ),
                forall|k: int|
                    i <= k < b ==> #[trigger] row_of(x@, k, width as int) == row_of(
                        old(x)@,
                        k,
                        width as int,
                    ),
        {
            proof {
                cache::lemma_position_range(i as int, width as int, b as int);
            }
            let ghost before = x@;
            self.backend.rmsnorm(x, i * width, norm.weight.as_slice(), norm.eps);
            proof {
                let row = row_of(before, i as int, width as int);
                lemma_splice_row(
                    before,
                    b as int,
                    width as int,
                    i as int,
                    norm.output(self.backend, row),
                );
            }
        }
    }

    /// Rotates the queries and keys of every token and stores its key and value.
    fn store_rows(
        &self,
        n: usize,
        start: usize,
        b: usize,
        kv_cache: &mut KVCache<T>,
        batch: &mut Batch<T>,
        Ghost(tokens): Ghost<Seq<u32>>,
        Ghost(origin): Ghost<CacheView<T>>,
    )
        requires
            self.valid(),
            n < self.layers@.len(),
            old(kv_cache).fits(self.config),
            tokens.len() == b,
            start + b <= old(kv_cache).max_seq_len,
            old(batch).sized(self.config, b as int, old(kv_cache).max_seq_len as int),
            self.filled_to(
                tokens,
                start as int,
                origin,
                old(kv_cache)@,
                old(kv_cache).max_seq_len as int,
                n as int,
                0,
            ),
            forall|i: int|
                0 <= i < b ==> self.rotated(
                    #[trigger] row_of(old(batch).k@, i, self.config.kv_size()),
                    start + i,
                ) == self.key(
                    n as int,
                    self.residual_before(tokens, start as int, origin, n as int, i),
                    start + i,
                ),
            forall|i: int|
                0 <= i < b ==> #[trigger] row_of(old(batch).v@, i, self.config.kv_size())
                    == self.value(
                    n as int,
                    self.residual_before(tokens, start as int, origin, n as int, i),
                ),
        ensures
            final(kv_cache).fits(self.config),
            final(kv_cache).max_seq_len == old(kv_cache).max_seq_len,
            final(batch).sized(self.config, b as int, old(kv_cache).max_seq_len as int),
            final(batch).residual@ == old(batch).residual@,
            forall|i: int|
                0 <= i < b ==> #[trigger] row_of(
                    final(batch).q@,
                    i,
                    self.config.hidden_size as int,
                ) == self.rotated(
                    row_of(old(batch).q@, i, self.config.hidden_size as int),
                    start + i,
                ),
            self.filled_to(
                tokens,
                start as int,
                origin,
                final(kv_cache)@,
                old(kv_cache).max_seq_len as int,
                n as int,
                b as int,
            ),
    {
        proof {
            config::valid_heads_fit(self.config);
        }
        let hidden: usize = self.config.hidden_size;
        let kv: usize = self.config.kv_width();
        let context: usize = kv_cache.max_seq_len;
        let ghost l = n as int;
        let ghost s = start as int;
        for i in 0..b
            invariant
                self.valid(),
                n < self.layers@.len(),
                l == n,
                s == start,
                hidden == self.config.hidden_size,
                kv == self.config.kv_size(),
                self.config.num_attention_heads * self.config.head_width() == hidden,
                kv_cache.fits(self.config),
                kv_cache.max_seq_len == context,
                context == old(kv_cache).max_seq_len,
                tokens.len() == b,
                start + b <= context,
                batch.sized(self.config, b as int, context as int),
                batch.residual@ == old(batch).residual@,
                batch.v@ == old(batch).v@,
                forall|j: int|
                    0 <= j < b ==> self.rotated(
                        #[trigger] row_of(old(batch).k@, j, kv as int),
                        start + j,
                    ) == self.key(l, self.residual_before(tokens, s, origin, l, j), start + j),
                forall|j: int|
                    0 <= j < b ==> #[trigger] row_of(old(batch).v@, j, kv as int) == self.value(
                        l,
                        self.residual_before(tokens, s, origin, l, j),
                    ),
                forall|j: int|
                    0 <= j < i ==> #[trigger] row_of(batch.q@, j, hidden as int) == self.rotated(
                        row_of(old(batch).q@, j, hidden as int),
                        start + j,
                    ),
                forall|j: int|
                    i <= j < b ==> #[trigger] row_of(batch.q@, j, hidden as int) == row_of(
                        old(batch).q@,
                        j,
                        hidden as int,
                    ),
                forall|j: int|
                    i <= j < b ==> #[trigger] row_of(batch.k@, j, kv as int) == row_of(
                        old(batch).k@,
                        j,
                        kv as int,
                    ),
                self.filled_to(tokens, s, origin, kv_cache@, context as int, l, i as int),
        {
            let pos: usize = start + i;
            proof {
                cache::lemma_position_range(i as int, hidden as int, b as int);
                cache::lemma_position_range(i as int, kv as int, b as int);
            }
            self.prepare_rope(pos, &mut batch.rope_cos, &mut batch.rope_sin);
            let ghost q0 = batch.q@;
            let ghost k0 = batch.k@;
            let q_len: usize = batch.q.len();
            let k_len: usize = batch.k.len();
            let v_len: usize = batch.v.len();
            self.rotate_heads(
                &mut batch.q,
                i * hidden,
                self.config.num_attention_heads,
                &batch.rope_cos,
                &batch.rope_sin,
                Ghost(pos as int),
            );
            self.rotate_heads(
                &mut batch.k,
                i * kv,
                self.config.num_key_value_heads,
                &batch.rope_cos,
                &batch.rope_sin,
                Ghost(pos as int),
            );
            proof {
                lemma_splice_row(
                    q0,
                    b as int,
                    hidden as int,
                    i as int,
                    self.rotated(row_of(q0, i as int, hidden as int), pos as int),
                );
                lemma_splice_row(
                    k0,
                    b as int,
                    kv as int,
                    i as int,
                    self.rotated(row_of(k0, i as int, kv as int), pos as int),
                );
            }
            let k_start: usize = i * kv;
            let key = &batch.k[k_start..k_start + kv];
            let value = &batch.v[k_start..k_start + kv];
            let ghost before = kv_cache@;
            let ghost r = self.residual_before(tokens, s, origin, l, i as int);
            assert(key@ == row_of(batch.k@, i as int, kv as int));
            assert(row_of(k0, i as int, kv as int) == row_of(old(batch).k@, i as int, kv as int));
            assert(key@ == self.key(l, r, pos as int));
            assert(value@ == row_of(old(batch).v@, i as int, kv as int));
            let stored = kv_cache.update(n, pos, key, value);
            assert(stored is Ok);
            proof {
                let layers = self.layers@.len() as int;
                cache::stored_values_are_read_back(
                    before,
                    layers,
                    context as int,
                    l,
                    pos as int,
                    key@,
                    value@,
                );
                let now = kv_cache@;
                assert forall|m: int, p: int|
                    #![trigger now.k[m][p]]
                    0 <= m < layers && 0 <= p < context implies now.k[m][p] == (if s <= p < s
                    + tokens.len() && (m < l || m == l && p < s + (i + 1)) {
                    self.key(m, self.residual_before(tokens, s, origin, m, p - s), p)
                } else {
                    origin.k[m][p]
                }) by {
                    assert(m != l || p != pos ==> now.k[m][p] == before.k[m][p]);
                }
                assert forall|m: int, p: int|
                    #![trigger now.v[m][p]]
                    0 <= m < layers && 0 <= p < context implies now.v[m][p] == (if s <= p < s
                    + tokens.len() && (m < l || m == l && p < s + (i + 1)) {
                    self.value(m, self.residual_before(tokens, s, origin, m, p - s))
                } else {
                    origin.v[m][p]
                }) by {
                    assert(m != l || p != pos ==> now.k[m][p] == before.k[m][p] && now.v[m][p]
                        == before.v[m][p]);
                }
            }
        }
    }

    /// Every token of a batch attends.
    fn attend_rows(
        &self,
        n: usize,
        start: usize,
        b: usize,
        kv_cache: &KVCache<T>,
        batch: &mut Batch<T>,
    )
        requires
            self.valid(),
            n < self.layers@.len(),
            kv_cache.fits(self.config),
            start + b <= kv_cache.max_seq_len,
            old(batch).sized(self.config, b as int, kv_cache.max_seq_len as int),
        ensures
            final(batch).sized(self.config, b as int, kv_cache.max_seq_len as int),
            final(batch).residual@ == old(batch).residual@,
            forall|i: int|
                0 <= i < b ==> #[trigger] row_of(
                    final(batch).attention@,
                    i,
                    self.config.hidden_size as int,
                ) == self.attended(
                    row_of(old(batch).q@, i, self.config.hidden_size as int),
                    kv_cache@.k[n as int],
                    kv_cache@.v[n as int],
                    start + i,
                ),
    {
        let hidden: usize = self.config.hidden_size;
        let context: usize = kv_cache.max_seq_len;
        let q_len: usize = batch.q.len();
        for i in 0..b
            invariant
                self.valid(),
                n < self.layers@.len(),
                hidden == self.config.hidden_size,
                kv_cache.fits(self.config),
                context == kv_cache.max_seq_len,
                start + b <= context,
                batch.sized(self.config, b as int, context as int),
                batch.residual@ == old(batch).residual@,
                batch.q@ == old(batch).q@,
                q_len == batch.q@.len(),
                forall|j: int|
                    0 <= j < i ==> #[trigger] row_of(batch.attention@, j, hidden as int)
                        == self.attended(
                        row_of(old(batch).q@, j, hidden as int),
                        kv_cache@.k[n as int],
                        kv_cache@.v[n as int],
                        start + j,
                    ),
        {
            proof {
                cache::lemma_position_range(i as int, hidden as int, b as int);
                assert((self.config.num_attention_heads - 1) * 0 == 0) by (nonlinear_arith);
            }
            let ghost before = batch.attention@;
            let at: usize = i * hidden;
            self.attend(
                &batch.q[at..at + hidden],
                &kv_cache.k_cache[n],
                &kv_cache.v_cache[n],
                context,
                start + i,
                &mut batch.scores,
                0,
                &mut batch.attention,
                at,
            );
            proof {
                lemma_splice_row(
                    before,
                    b as int,
                    hidden as int,
                    i as int,
                    self.attended(
                        row_of(old(batch).q@, i as int, hidden as int),
                        kv_cache@.k[n as int],
                        kv_cache@.v[n as int],
                        start + i,
                    ),
                );
            }
        }
    }

    /// Runs layer `n` for a batch of tokens.
    fn prefill_layer(
        &self,
        n: usize,
        start: usize,
        b: usize,
        kv_cache: &mut KVCache<T>,
        batch: &mut Batch<T>,
        Ghost(tokens): Ghost<Seq<u32>>,
        Ghost(origin): Ghost<CacheView<T>>,
    )
        requires
            self.valid(),
            n < self.layers@.len(),
            old(kv_cache).fits(self.config),
            tokens.len() == b,
            start + b <= old(kv_cache).max_seq_len,
            origin.sized(self.layers@.len() as int, old(kv_cache).max_seq_len as int),
            old(batch).sized(self.config, b as int, old(kv_cache).max_seq_len as int),
            self.filled_to(
                tokens,
                start as int,
                origin,
                old(kv_cache)@,
                old(kv_cache).max_seq_len as int,
                n as int,
                0,
            ),
            forall|i: int|
                0 <= i < b ==> #[trigger] row_of(
                    old(batch).residual@,
                    i,
                    self.config.hidden_size as int,
                ) == self.residual_before(tokens, start as int, origin, n as int, i),
        ensures
            final(kv_cache).fits(self.config),
            final(kv_cache).max_seq_len == old(kv_cache).max_seq_len,
            final(batch).sized(self.config, b as int, old(kv_cache).max_seq_len as int),
            self.filled_to(
                tokens,
                start as int,
                origin,
                final(kv_cache)@,
                old(kv_cache).max_seq_len as int,
                n + 1,
                0,
            ),
            forall|i: int|
                0 <= i < b ==> #[trigger] row_of(
                    final(batch).residual@,
                    i,
                    self.config.hidden_size as int,
                ) == self.residual_before(tokens, start as int, origin, n + 1, i),
    {
        let ghost l = n as int;
        let ghost s = start as int;
        let ghost context = kv_cache.max_seq_len as int;
        let ghost hidden = self.config.hidden_size as int;
        let ghost inner = self.config.intermediate_size as int;
        let ghost kv = self.config.kv_size();
        let ghost count = b as int;
        proof {
            config::valid_heads_fit(self.config);
            assert(self.layers@[l].valid(self.config));
        }
        let block = &self.layers[n];
        let backend = &self.backend;
        let ghost r0 = batch.residual@;

        cache::write_at(&mut batch.hidden, 0, batch.residual.as_slice());
        proof {
            lemma_splice_whole(old(batch).hidden@, r0);
        }
        self.norm_rows(&block.input_layernorm, &mut batch.hidden, b);
        block.self_attn_q.apply_rows(backend, batch.hidden.as_slice(), &mut batch.q, b);
        block.self_attn_k.apply_rows(backend, batch.hidden.as_slice(), &mut batch.k, b);
        block.self_attn_v.apply_rows(backend, batch.hidden.as_slice(), &mut batch.v, b);
        proof {
            assert forall|i: int| 0 <= i < b implies #[trigger] row_of(batch.hidden@, i, hidden)
                == self.attention_input(l, self.residual_before(tokens, s, origin, l, i)) by {
                assert(row_of(r0, i, hidden) == self.residual_before(tokens, s, origin, l, i));
            }
            assert forall|i: int| 0 <= i < b implies self.rotated(
                #[trigger] row_of(batch.k@, i, kv),
                start + i,
            ) == self.key(l, self.residual_before(tokens, s, origin, l, i), start + i) by {
                assert(row_of(batch.hidden@, i, hidden) == self.attention_input(
                    l,
                    self.residual_before(tokens, s, origin, l, i),
                ));
            }
            assert forall|i: int| 0 <= i < b implies #[trigger] row_of(batch.v@, i, kv)
                == self.value(l, self.residual_before(tokens, s, origin, l, i)) by {
                assert(row_of(batch.hidden@, i, hidden) == self.attention_input(
                    l,
                    self.residual_before(tokens, s, origin, l, i),
                ));
            }
            assert forall|i: int| 0 <= i < b implies self.rotated(
                #[trigger] row_of(batch.q@, i, hidden),
                start + i,
            ) == self.query(l, self.residual_before(tokens, s, origin, l, i), start + i) by {
                assert(row_of(batch.hidden@, i, hidden) == self.attention_input(
                    l,
                    self.residual_before(tokens, s, origin, l, i),
                ));
            }
        }
        let ghost q1 = batch.q@;
        self.store_rows(n, start, b, kv_cache, batch, Ghost(tokens), Ghost(origin));
        let ghost q2 = batch.q@;
        let ghost now = kv_cache@;
        self.attend_rows(n, start, b, kv_cache, batch);
        block.self_attn_o.apply_rows(backend, batch.attention.as_slice(), &mut batch.projection, b);
        let ghost projected = batch.projection@;
        backend.add_into(&mut batch.residual, 0, batch.projection.as_slice());
        let ghost r1 = batch.residual@;
        proof {
            let sum = Seq::new(projected.len(), |i: int| backend.added(r0[0 + i], projected[i]));
            lemma_splice_whole(r0, sum);
            lemma_rows_added(*backend, r0, projected, r1, count, hidden);
            assert forall|i: int| 0 <= i < b implies #[trigger] row_of(r1, i, hidden)
                == self.after_attention(
                l,
                self.residual_before(tokens, s, origin, l, i),
                s + i,
                now.k[l],
                now.v[l],
            ) by {
                let r = self.residual_before(tokens, s, origin, l, i);
                assert(row_of(r0, i, hidden) == r);
                assert(row_of(q2, i, hidden) == self.rotated(row_of(q1, i, hidden), start + i));
                assert(row_of(batch.attention@, i, hidden) == self.attended(
                    self.query(l, r, s + i),
                    now.k[l],
                    now.v[l],
                    s + i,
                ));
                assert(row_of(projected, i, hidden) == block.self_attn_o.output(
                    *backend,
                    row_of(batch.attention@, i, hidden),
                ));
            }
        }

        let ghost h1 = batch.hidden@;
        cache::write_at(&mut batch.hidden, 0, batch.residual.as_slice());
        proof {
            lemma_splice_whole(h1, r1);
        }
        self.norm_rows(&block.post_attention_layernorm, &mut batch.hidden, b);
        block.mlp_gate.apply_rows(backend, batch.hidden.as_slice(), &mut batch.gate, b);
        block.mlp_up.apply_rows(backend, batch.hidden.as_slice(), &mut batch.up, b);
        let ghost h2 = batch.hidden@;
        let ghost gate = batch.gate@;
        let ghost up = batch.up@;
        backend.swiglu(&mut batch.gate, 0, batch.up.as_slice());
        let ghost gated = batch.gate@;
        block.mlp_down.apply_rows(backend, batch.gate.as_slice(), &mut batch.down, b);
        let ghost down = batch.down@;
        backend.add_into(&mut batch.residual, 0, batch.down.as_slice());
        let ghost r2 = batch.residual@;
        proof {
            let open = Seq::new(up.len(), |i: int| backend.gated(gate[0 + i], up[i]));
            lemma_splice_whole(gate, open);
            lemma_rows_gated(*backend, gate, up, gated, count, inner);
            let sum = Seq::new(down.len(), |i: int| backend.added(r1[0 + i], down[i]));
            lemma_splice_whole(r1, sum);
            lemma_rows_added(*backend, r1, down, r2, count, hidden);
            assert forall|i: int| 0 <= i < b implies #[trigger] row_of(r2, i, hidden)
                == self.residual_before(tokens, s, origin, l + 1, i) by {
                let middle = row_of(r1, i, hidden);
                assert(row_of(h2, i, hidden) == block.post_attention_layernorm.output(
                    *backend,
                    middle,
                ));
                assert(row_of(gate, i, inner) == block.mlp_gate.output(
                    *backend,
                    row_of(h2, i, hidden),
                ));
                assert(row_of(up, i, inner) == block.mlp_up.output(*backend, row_of(h2, i, hidden)));
                assert(row_of(gated, i, inner) =~= self.gated(l, middle));
                assert(row_of(down, i, hidden) == block.mlp_down.output(
                    *backend,
                    row_of(gated, i, inner),
                ));
                assert(row_of(r2, i, hidden) == self.after_mlp(l, middle));
                self.lemma_batch_layer(tokens, s, origin, now, context, l, i);
            }
            assert(self.filled_to(tokens, s, origin, kv_cache@, context, l + 1, 0));
        }
    }
}

/// The number of tokens that prefill takes through the layers together.
pub const CHUNK_SIZE: usize = 32;

/// The first of the first `n` tokens that lies outside the vocabulary.
pub open spec fn first_bad_token(tokens: Seq<u32>, vocab: usize, n: int) -> Option<u32>
    decreases n,
{
    if n <= 0 {
        None
    } else {
        match first_bad_token(tokens, vocab, n - 1) {
            Some(token) => Some(token),
            None => if tokens[n - 1] >= vocab {
                Some(tokens[n - 1])
            } else {
                None
            },
        }
    }
}

/// What a chunk of tokens is refused for: a token outside the vocabulary, or the first position
/// outside the context.
pub open spec fn chunk_fault(tokens: Seq<u32>, start: int, vocab: usize, context: usize) -> Option<
    ModelError,
> {
    match first_bad_token(tokens, vocab, tokens.len() as int) {
        Some(token) => Some(ModelError::Token { token }),
        None => if start + tokens.len() > context {
            Some(
                ModelError::Position {
                    pos: (if start >= context {
                        start
                    } else {
                        context as int
                    }) as usize,
                    context,
                },
            )
        } else {
            None
        },
    }
}

/// Where the chunk that starts at `from` ends.
pub open spec fn chunk_end(len: int, from: int) -> int {
    if from + 32 < len {
        from + 32
    } else {
        len
    }
}

/// The first chunk from `from` on that is refused: where it starts, and what for.
pub open spec fn first_bad_chunk(
    tokens: Seq<u32>,
    start: int,
    vocab: usize,
    context: usize,
    from: int,
) -> Option<(int, ModelError)>
    decreases tokens.len() - from,
{
    if from >= tokens.len() {
        None
    } else {
        let end = chunk_end(tokens.len() as int, from);
        match chunk_fault(tokens.subrange(from, end), start + from, vocab, context) {
            Some(e) => Some((from, e)),
            None => first_bad_chunk(tokens, start, vocab, context, end),
        }
    }
}

/// A bad token among some is a bad token among more.
proof fn lemma_bad_token_stays(tokens: Seq<u32>, vocab: usize, m: int, n: int)
    requires
        0 <= m <= n,
        first_bad_token(tokens, vocab, m) is Some,
    ensures
        first_bad_token(tokens, vocab, n) == first_bad_token(tokens, vocab, m),
    decreases n,
{
    if m < n {
        lemma_bad_token_stays(tokens, vocab, m, n - 1);
    }
}

/// Finds the first token that lies outside the vocabulary.
fn find_bad_token(tokens: &[u32], vocab: usize) -> (r: Option<u32>)
    ensures
        r == first_bad_token(tokens@, vocab, tokens@.len() as int),
{
    for i in 0..tokens.len()
        invariant
            first_bad_token(tokens@, vocab, i as int) is None,
    {
        if tokens[i] as usize >= vocab {
            proof {
                lemma_bad_token_stays(tokens@, vocab, i + 1, tokens@.len() as int);
            }
            return Some(tokens[i]);
        }
    }
    None
}

/// Where no token is the first bad one, every token lies in the vocabulary.
proof fn lemma_no_bad_token(tokens: Seq<u32>, vocab: usize, n: int)
    requires
        0 <= n <= tokens.len(),
        first_bad_token(tokens, vocab, n) is None,
    ensures
        forall|i: int| 0 <= i < n ==> #[trigger] tokens[i] < vocab,
    decreases n,
{
    if n > 0 {
        lemma_no_bad_token(tokens, vocab, n - 1);
    }
}

impl<'a, T: Copy, B: KernelBackend<T>> Qwen2Model<'a, T, B> {
    /// Tokens that run in two parts run as they do in one.
    proof fn lemma_runs_join(
        &self,
        tokens: Seq<u32>,
        start: int,
        cache: CacheView<T>,
        k: int,
        end: int,
        m: int,
    )
        requires
            0 <= k <= end <= tokens.len(),
            0 <= m <= end - k,
        ensures
            self.tokens_run(
                tokens.subrange(k, end),
                start + k,
                self.tokens_run(tokens, start, cache, k),
                m,
            ) == self.tokens_run(tokens, start, cache, k + m),
        decreases m,
    {
        if m > 0 {
            self.lemma_runs_join(tokens, start, cache, k, end, m - 1);
            assert(tokens.subrange(k, end)[m - 1] == tokens[k + m - 1]);
        }
    }

    /// Stores the keys and values of the first `count` tokens in the first layer.
    fn store_first_layer(
        &self,
        tokens: &[u32],
        start: usize,
        count: usize,
        kv_cache: &mut KVCache<T>,
    )
        requires
            self.valid(),
            count <= tokens@.len(),
            forall|i: int| 0 <= i < count ==> #[trigger] tokens@[i] < self.config.vocab_size,
            start + count <= old(kv_cache).max_seq_len,
            old(kv_cache).fits(self.config),
        ensures
            final(kv_cache).fits(self.config),
            final(kv_cache).max_seq_len == old(kv_cache).max_seq_len,
            final(kv_cache)@ == self.first_layer_stored(
                tokens@,
                start as int,
                old(kv_cache)@,
                count as int,
            ),
    {
        proof {
            config::valid_heads_fit(self.config);
            assert(self.layers@[0].valid(self.config));
        }
        let block = &self.layers[0];
        let backend = &self.backend;
        let zero = backend.zero();
        let kv: usize = self.config.kv_width();
        let half: usize = self.config.head_dim() / 2;
        let ghost hidden = self.config.hidden_size as int;
        for i in 0..count
            invariant
                self.valid(),
                block.valid(self.config),
                *block == self.layers@[0],
                *backend == self.backend,
                hidden == self.config.hidden_size,
                kv == self.config.kv_size(),
                half == self.config.head_width() / 2,
                count <= tokens@.len(),
                forall|j: int| 0 <= j < count ==> #[trigger] tokens@[j] < self.config.vocab_size,
                kv_cache.fits(self.config),
                kv_cache.max_seq_len == old(kv_cache).max_seq_len,
                start + count <= kv_cache.max_seq_len,
                kv_cache@ == self.first_layer_stored(
                    tokens@,
                    start as int,
                    old(kv_cache)@,
                    i as int,
                ),
        {
            let pos: usize = start + i;
            let ghost residual = self.embedding(tokens@[i as int]);
            let mut state = self.embed(tokens[i]);
            assert(residual.subrange(0, hidden) =~= residual);
            backend.rmsnorm(
                &mut state,
                0,
                block.input_layernorm.weight.as_slice(),
                block.input_layernorm.eps,
            );
            assert(state@ =~= self.attention_input(0, residual));
            let mut key = cache::filled(zero, kv);
            let mut value = cache::filled(zero, kv);
            block.self_attn_k.apply(backend, state.as_slice(), &mut key, 0);
            block.self_attn_v.apply(backend, state.as_slice(), &mut value, 0);
            let ghost plain = block.self_attn_k.output(*backend, self.attention_input(0, residual));
            assert(key@ =~= plain);
            assert(value@ =~= self.value(0, residual));
            let mut cos = cache::filled(zero, half);
            let mut sin = cache::filled(zero, half);
            self.prepare_rope(pos, &mut cos, &mut sin);
            self.rotate_heads(
                &mut key,
                0,
                self.config.num_key_value_heads,
                &cos,
                &sin,
                Ghost(pos as int),
            );
            assert(plain.subrange(0, kv as int) =~= plain);
            assert(key@ =~= self.key(0, residual, pos as int));
            let stored = kv_cache.update(0, pos, key.as_slice(), value.as_slice());
            assert(stored is Ok);
        }
    }

    /// Takes a chunk of tokens through the layers together.
    fn prefill_chunk(
        &self,
        chunk: &[u32],
        start_pos: usize,
        kv_cache: &mut KVCache<T>,
        buffers: &mut InferenceBuffers<T>,
        is_last_chunk: bool,
    ) -> (result: Result<(), ModelError>)
        requires
            self.valid(),
            32 * self.config.hidden_size <= usize::MAX,
            32 * self.config.intermediate_size <= usize::MAX,
            1 <= chunk@.len() <= 32,
            start_pos + chunk@.len() <= usize::MAX,
            old(kv_cache).fits(self.config),
            old(buffers).fits(self.config, old(kv_cache).max_seq_len as int),
        ensures
            final(kv_cache).fits(self.config),
            final(kv_cache).max_seq_len == old(kv_cache).max_seq_len,
            final(buffers).fits(self.config, final(kv_cache).max_seq_len as int),
            match chunk_fault(
                chunk@,
                start_pos as int,
                self.config.vocab_size,
                old(kv_cache).max_seq_len,
            ) {
                Some(e) => {
                    &&& result == Err::<(), ModelError>(e)
                    &&& final(kv_cache)@ == self.left_by_refused(
                        chunk@,
                        start_pos as int,
                        old(kv_cache)@,
                        old(kv_cache).max_seq_len,
                    )
                    &&& *final(buffers) == *old(buffers)
                },
                None => {
                    &&& result is Ok
                    &&& final(kv_cache)@ == self.tokens_run(
                        chunk@,
                        start_pos as int,
                        old(kv_cache)@,
                        chunk@.len() as int,
                    )
                    &&& final(buffers).residual@ == self.last_residual(
                        chunk@,
                        start_pos as int,
                        old(kv_cache)@,
                    )
                    &&& final(buffers).logits@ == (if is_last_chunk {
                        self.logits_of(final(buffers).residual@)
                    } else {
                        old(buffers).logits@
                    })
                },
            },
    {
        let b: usize = chunk.len();
        let context: usize = kv_cache.max_seq_len;
        let vocab: usize = self.config.vocab_size;
        match find_bad_token(chunk, vocab) {
            Some(token) => return Err(ModelError::Token { token }),
            None => {},
        }
        proof {
            lemma_no_bad_token(chunk@, vocab, b as int);
        }
        if start_pos + b > context {
            if start_pos >= context {
                return Err(ModelError::Position { pos: start_pos, context });
            }
            if b > 1 {
                self.store_first_layer(chunk, start_pos, context - start_pos, kv_cache);
            }
            return Err(ModelError::Position { pos: context, context });
        }
        if b == 1 {
            let mode = if is_last_chunk {
                LogitsMode::Compute
            } else {
                LogitsMode::Skip
            };
            proof {
                reveal_with_fuel(Qwen2Model::tokens_run, 2);
            }
            return self.forward_impl(chunk[0], start_pos, kv_cache, buffers, mode);
        }
        proof {
            config::valid_heads_fit(self.config);
            assert(b * self.config.hidden_size <= 32 * self.config.hidden_size && b
                * self.config.intermediate_size <= 32 * self.config.intermediate_size && b
                * self.config.kv_size() <= 32 * self.config.hidden_size) by (nonlinear_arith)
                requires
                    0 <= b <= 32,
                    0 <= self.config.kv_size() <= self.config.hidden_size,
            ;
        }
        let hidden: usize = self.config.hidden_size;
        let kv: usize = self.config.kv_width();
        let inner: usize = self.config.intermediate_size;
        let half: usize = self.config.head_dim() / 2;
        let zero = self.backend.zero();
        let mut batch = Batch {
            residual: cache::filled(zero, b * hidden),
            hidden: cache::filled(zero, b * hidden),
            q: cache::filled(zero, b * hidden),
            k: cache::filled(zero, b * kv),
            v: cache::filled(zero, b * kv),
            attention: cache::filled(zero, b * hidden),
            projection: cache::filled(zero, b * hidden),
            gate: cache::filled(zero, b * inner),
            up: cache::filled(zero, b * inner),
            down: cache::filled(zero, b * hidden),
            rope_cos: cache::filled(zero, half),
            rope_sin: cache::filled(zero, half),
            scores: cache::filled(zero, context),
        };
        let ghost tokens = chunk@;
        let ghost s = start_pos as int;
        let ghost origin = kv_cache@;
        for i in 0..b
            invariant
                self.valid(),
                b == chunk@.len(),
                tokens == chunk@,
                s == start_pos,
                vocab == self.config.vocab_size,
                hidden == self.config.hidden_size,
                forall|j: int| 0 <= j < b ==> #[trigger] tokens[j] < vocab,
                batch.sized(self.config, b as int, context as int),
                forall|j: int|
                    0 <= j < i ==> #[trigger] row_of(batch.residual@, j, hidden as int)
                        == self.residual_before(tokens, s, origin, 0, j),
        {
            proof {
                cache::lemma_position_range(i as int, hidden as int, b as int);
                assert(tokens[i as int] < vocab);
            }
            let row = self.embed(chunk[i]);
            let room: usize = batch.residual.len();
            let ghost before = batch.residual@;
            cache::write_at(&mut batch.residual, i * hidden, row.as_slice());
            proof {
                lemma_splice_row(before, b as int, hidden as int, i as int, row@);
            }
        }
        for n in 0..self.layers.len()
            invariant
                self.valid(),
                b == chunk@.len(),
                tokens == chunk@,
                s == start_pos,
                hidden == self.config.hidden_size,
                kv_cache.fits(self.config),
                kv_cache.max_seq_len == context,
                start_pos + b <= context,
                origin.sized(self.layers@.len() as int, context as int),
                batch.sized(self.config, b as int, context as int),
                self.filled_to(tokens, s, origin, kv_cache@, context as int, n as int, 0),
                forall|j: int|
                    0 <= j < b ==> #[trigger] row_of(batch.residual@, j, hidden as int)
                        == self.residual_before(tokens, s, origin, n as int, j),
        {
            self.prefill_layer(
                n,
                start_pos,
                b,
                kv_cache,
                &mut batch,
                Ghost(tokens),
                Ghost(origin),
            );
        }
        proof {
            self.lemma_batch_cache(tokens, s, origin, kv_cache@, context as int);
            cache::lemma_position_range(b - 1, hidden as int, b as int);
        }
        let total: usize = batch.residual.len();
        let at: usize = (b - 1) * hidden;
        let last = &batch.residual[at..at + hidden];
        assert(last@ == row_of(batch.residual@, b - 1, hidden as int));
        let ghost old_residual = buffers.residual@;
        cache::write_at(&mut buffers.residual, 0, last);
        proof {
            lemma_splice_whole(old_residual, last@);
        }
        if is_last_chunk {
            self.project(buffers, Ghost(context as int));
        }
        Ok(())
    }

    /// Runs the prompt through the model in chunks.
    fn prefill_chunks(
        &self,
        tokens: &[u32],
        start_pos: usize,
        kv_cache: &mut KVCache<T>,
        buffers: &mut InferenceBuffers<T>,
    ) -> (result: Result<(), ModelError>)
        requires
            self.valid(),
            32 * self.config.hidden_size <= usize::MAX,
            32 * self.config.intermediate_size <= usize::MAX,
            start_pos + tokens@.len() <= usize::MAX,
            old(kv_cache).fits(self.config),
            old(buffers).fits(self.config, old(kv_cache).max_seq_len as int),
        ensures
            final(kv_cache).fits(self.config),
            final(kv_cache).max_seq_len == old(kv_cache).max_seq_len,
            final(buffers).fits(self.config, final(kv_cache).max_seq_len as int),
            tokens@.len() == 0 ==> result == Err::<(), ModelError>(ModelError::EmptyPrefill)
                && *final(kv_cache) == *old(kv_cache) && *final(buffers) == *old(buffers),
            tokens@.len() > 0 ==> match first_bad_chunk(
                tokens@,
                start_pos as int,
                self.config.vocab_size,
                old(kv_cache).max_seq_len,
                0,
            ) {
                Some((at, e)) => {
                    &&& result == Err::<(), ModelError>(e)
                    &&& final(kv_cache)@ == self.left_by_refused(
                        tokens@.subrange(at, chunk_end(tokens@.len() as int, at)),
                        start_pos + at,
                        self.tokens_run(tokens@, start_pos as int, old(kv_cache)@, at),
                        old(kv_cache).max_seq_len,
                    )
                    &&& final(buffers).logits@ == old(buffers).logits@
                },
                None => {
                    &&& result is Ok
                    &&& final(kv_cache)@ == self.tokens_run(
                        tokens@,
                        start_pos as int,
                        old(kv_cache)@,
                        tokens@.len() as int,
                    )
                    &&& final(buffers).residual@ == self.last_residual(
                        tokens@,
                        start_pos as int,
                        old(kv_cache)@,
                    )
                    &&& final(buffers).logits@ == self.logits_of(final(buffers).residual@)
                },
            },
    {
        let total: usize = tokens.len();
        if total == 0 {
            return Err(ModelError::EmptyPrefill);
        }
        let ghost vocab = self.config.vocab_size;
        let ghost s = start_pos as int;
        let mut done: usize = 0;
        while done < total
            invariant
                self.valid(),
                32 * self.config.hidden_size <= usize::MAX,
                32 * self.config.intermediate_size <= usize::MAX,
                total == tokens@.len(),
                total > 0,
                done <= total,
                start_pos + total <= usize::MAX,
                s == start_pos,
                vocab == self.config.vocab_size,
                kv_cache.fits(self.config),
                kv_cache.max_seq_len == old(kv_cache).max_seq_len,
                buffers.fits(self.config, kv_cache.max_seq_len as int),
                kv_cache@ == self.tokens_run(tokens@, s, old(kv_cache)@, done as int),
                first_bad_chunk(tokens@, s, vocab, old(kv_cache).max_seq_len, 0) == first_bad_chunk(
                    tokens@,
                    s,
                    vocab,
                    old(kv_cache).max_seq_len,
                    done as int,
                ),
                done < total ==> buffers.logits@ == old(buffers).logits@,
                done == total ==> buffers.residual@ == self.last_residual(
                    tokens@,
                    s,
                    old(kv_cache)@,
                ) && buffers.logits@ == self.logits_of(buffers.residual@),
            decreases total - done,
        {
            let end: usize = if total - done > CHUNK_SIZE {
                done + CHUNK_SIZE
            } else {
                total
            };
            let ghost from = done as int;
            let chunk = &tokens[done..end];
            proof {
                self.lemma_runs_join(
                    tokens@,
                    s,
                    old(kv_cache)@,
                    from,
                    end as int,
                    end - from,
                );
                self.lemma_runs_join(
                    tokens@,
                    s,
                    old(kv_cache)@,
                    from,
                    end as int,
                    end - from - 1,
                );
            }
            match self.prefill_chunk(chunk, start_pos + done, kv_cache, buffers, end == total) {
                Ok(()) => {},
                Err(e) => return Err(e),
            }
            assert(chunk@[end - from - 1] == tokens@[end - 1]);
            done = end;
        }
        Ok(())
    }
}

/// The chunks from `from` on are accepted exactly where their tokens and positions are.
proof fn lemma_chunks_acceptable(
    tokens: Seq<u32>,
    start: int,
    vocab: usize,
    context: usize,
    from: int,
)
    requires
        0 <= from <= tokens.len(),
    ensures
        first_bad_chunk(tokens, start, vocab, context, from) is None <==> (forall|i: int|
            from <= i < tokens.len() ==> #[trigger] tokens[i] < vocab && start + i < context),
    decreases tokens.len() - from,
{
    if from < tokens.len() {
        let end = chunk_end(tokens.len() as int, from);
        let chunk = tokens.subrange(from, end);
        lemma_chunks_acceptable(tokens, start, vocab, context, end);
        if chunk_fault(chunk, start + from, vocab, context) is None {
            lemma_no_bad_token(chunk, vocab, chunk.len() as int);
            assert forall|i: int| from <= i < end implies #[trigger] tokens[i] < vocab && start + i
                < context by {
                assert(chunk[i - from] == tokens[i]);
            }
        } else if first_bad_token(chunk, vocab, chunk.len() as int) is Some {
            let i = lemma_bad_token_exists(chunk, vocab, chunk.len() as int);
            assert(tokens[from + i] >= vocab);
        } else {
            assert(tokens[end - 1] == tokens[end - 1]);
        }
    }
}

/// Inside the context a chunk is refused for its first token outside the vocabulary, and that is
/// what the first refused token is refused for.
proof fn lemma_refused_in_chunk(
    tokens: Seq<u32>,
    start: int,
    vocab: usize,
    context: usize,
    from: int,
    end: int,
    n: int,
)
    requires
        0 <= start,
        0 <= from,
        0 <= n,
        from + n <= end <= tokens.len(),
        start + tokens.len() <= context,
        architecture::first_token_fault(tokens, start, vocab, context, from) is None,
    ensures
        architecture::first_token_fault(tokens, start, vocab, context, from + n) == (
        match first_bad_token(tokens.subrange(from, end), vocab, n) {
            Some(token) => Some(ModelError::Token { token }),
            None => None,
        }),
    decreases n,
{
    if n > 0 {
        lemma_refused_in_chunk(tokens, start, vocab, context, from, end, n - 1);
        assert(tokens.subrange(from, end)[n - 1] == tokens[from + n - 1]);
    }
}

/// Inside the context the first chunk that is refused is refused for what the first refused token
/// is refused for.
proof fn lemma_first_refused(
    tokens: Seq<u32>,
    start: int,
    vocab: usize,
    context: usize,
    from: int,
)
    requires
        0 <= start,
        0 <= from <= tokens.len(),
        start + tokens.len() <= context,
        architecture::first_token_fault(tokens, start, vocab, context, from) is None,
    ensures
        match first_bad_chunk(tokens, start, vocab, context, from) {
            Some((at, e)) => {
                let chunk = tokens.subrange(at, chunk_end(tokens.len() as int, at));
                &&& 0 <= at < tokens.len()
                &&& first_bad_token(chunk, vocab, chunk.len() as int) is Some
                &&& architecture::first_token_fault(
                    tokens,
                    start,
                    vocab,
                    context,
                    tokens.len() as int,
                ) == Some(e)
            },
            None => true,
        },
    decreases tokens.len() - from,
{
    if from < tokens.len() {
        let end = chunk_end(tokens.len() as int, from);
        lemma_refused_in_chunk(tokens, start, vocab, context, from, end, end - from);
        if first_bad_token(tokens.subrange(from, end), vocab, end - from) is Some {
            architecture::lemma_token_fault_stays(
                tokens,
                start,
                vocab,
                context,
                end,
                tokens.len() as int,
            );
        } else {
            lemma_first_refused(tokens, start, vocab, context, end);
        }
    }
}

/// Where there is a first bad token, some token is bad.
proof fn lemma_bad_token_exists(tokens: Seq<u32>, vocab: usize, n: int) -> (i: int)
    requires
        n <= tokens.len(),
        first_bad_token(tokens, vocab, n) is Some,
    ensures
        0 <= i < n,
        tokens[i] >= vocab,
    decreases n,
{
    if n > 0 && first_bad_token(tokens, vocab, n - 1) is Some {
        lemma_bad_token_exists(tokens, vocab, n - 1)
    } else {
        n - 1
    }
}

impl<'a, T: Copy, B: KernelBackend<T>> CausalModel<T> for Qwen2Model<'a, T, B> {
    open spec fn ready(&self) -> bool {
        self.valid()
    }

    open spec fn dimensions(&self) -> LlamaConfig {
        self.config
    }

    open spec fn kernels(&self) -> (Seq<char>, usize) {
        self.backend.label()
    }

    open spec fn token_result(&self, token: u32, pos: int, cache: CacheView<T>) -> Flow<T> {
        self.token_run(token, pos, cache)
    }

    open spec fn logits_result(&self, residual: Seq<T>) -> Seq<T> {
        self.logits_of(residual)
    }

    open spec fn sequence_result(
        &self,
        tokens: Seq<u32>,
        start: int,
        cache: CacheView<T>,
        k: int,
    ) -> CacheView<T> {
        self.tokens_run(tokens, start, cache, k)
    }

    proof fn sequence_is_tokenwise(
        &self,
        tokens: Seq<u32>,
        start: int,
        cache: CacheView<T>,
        k: int,
    ) {
    }

    fn architecture(&self) -> (kind: ArchitectureKind)
        ensures
            kind == ArchitectureKind::Qwen2,
    {
        ArchitectureKind::Qwen2
    }

    fn config(&self) -> (config: &LlamaConfig) {
        &self.config
    }

    fn backend(&self) -> (r: (&'static str, usize)) {
        (self.backend.name(), self.backend.threads())
    }

    fn forward_token(
        &self,
        token_id: u32,
        pos: usize,
        kv_cache: &mut KVCache<T>,
        buffers: &mut InferenceBuffers<T>,
        logits: LogitsMode,
    ) -> (result: Result<(), ModelError>)
        ensures
            result is Ok ==> final(buffers).attention@ == self.last_collected(
                token_id,
                pos as int,
                old(kv_cache)@,
            ),
            result is Ok && logits == LogitsMode::Compute ==> forall|v: int|
                0 <= v < self.config.vocab_size ==> #[trigger] final(buffers).logits@[v] == {
                    let product = self.backend.row_product(
                        self.lm_head.weight.row_seq(v),
                        self.lm_head.weight.quant_type,
                        self.backend.normed(
                            final(buffers).residual@,
                            self.norm.weight@,
                            self.norm.eps,
                        ),
                    );
                    match self.lm_head.bias {
                        Some(bias) => self.backend.added(product, bias@[v]),
                        None => product,
                    }
                },
    {
        self.forward_impl(token_id, pos, kv_cache, buffers, logits)
    }

    /// Runs the prompt through the model in chunks. The cache and the hidden state end up as if the
    /// tokens had run one after the other; where a chunk is refused, the chunks before it have run,
    /// and one that runs over the end of the context has been stored in part.
    fn prefill(
        &self,
        tokens: &[u32],
        start_pos: usize,
        kv_cache: &mut KVCache<T>,
        buffers: &mut InferenceBuffers<T>,
    ) -> (result: Result<(), ModelError>)
        ensures
            tokens@.len() > 0 && result is Err ==> match first_bad_chunk(
                tokens@,
                start_pos as int,
                self.config.vocab_size,
                old(kv_cache).max_seq_len,
                0,
            ) {
                Some((at, e)) => {
                    &&& result->Err_0 == e
                    &&& final(kv_cache)@ == self.left_by_refused(
                        tokens@.subrange(at, chunk_end(tokens@.len() as int, at)),
                        start_pos + at,
                        self.tokens_run(tokens@, start_pos as int, old(kv_cache)@, at),
                        old(kv_cache).max_seq_len,
                    )
                },
                None => false,
            },
            result is Ok ==> forall|v: int|
                0 <= v < self.config.vocab_size ==> #[trigger] final(buffers).logits@[v] == {
                    let product = self.backend.row_product(
                        self.lm_head.weight.row_seq(v),
                        self.lm_head.weight.quant_type,
                        self.backend.normed(
                            final(buffers).residual@,
                            self.norm.weight@,
                            self.norm.eps,
                        ),
                    );
                    match self.lm_head.bias {
                        Some(bias) => self.backend.added(product, bias@[v]),
                        None => product,
                    }
                },
    {
        proof {
            lemma_chunks_acceptable(
                tokens@,
                start_pos as int,
                self.config.vocab_size,
                kv_cache.max_seq_len,
                0,
            );
            if start_pos + tokens@.len() <= kv_cache.max_seq_len {
                lemma_first_refused(
                    tokens@,
                    start_pos as int,
                    self.config.vocab_size,
                    kv_cache.max_seq_len,
                    0,
                );
            }
        }
        let result = self.prefill_chunks(tokens, start_pos, kv_cache, buffers);
        proof {
            if result is Err && 0 < tokens@.len() <= old(kv_cache).max_seq_len - start_pos {
                let (at, e) = first_bad_chunk(
                    tokens@,
                    start_pos as int,
                    self.config.vocab_size,
                    old(kv_cache).max_seq_len,
                    0,
                )->Some_0;
                assert(kv_cache@ == self.sequence_result(
                    tokens@,
                    start_pos as int,
                    old(kv_cache)@,
                    at,
                ));
            }
        }
        result
    }
}

/// The logits are the projection of the normalised hidden state: logit `v` is the product of row `v`
/// of the head with what the kernels' normalisation makes of the hidden state, plus the bias where
/// the head has one.
pub proof fn logits_project_the_normed_state<'a, T: Copy, B: KernelBackend<T>>(
    model: Qwen2Model<'a, T, B>,
    hidden: Seq<T>,
    v: int,
)
    requires
        model.valid(),
        0 <= v < model.config.vocab_size,
    ensures
        model.logits_result(hidden).len() == model.config.vocab_size,
        model.logits_result(hidden) == model.logits_of(hidden),
        ({
            let normed = model.backend.normed(hidden, model.norm.weight@, model.norm.eps);
            let product = model.backend.row_product(
                model.lm_head.weight.row_seq(v),
                model.lm_head.weight.quant_type,
                normed,
            );
            model.logits_result(hidden)[v] == match model.lm_head.bias {
                Some(bias) => model.backend.added(product, bias@[v]),
                None => product,
            }
        }),
{
}

/// A token runs through the layers in order: it starts with the decoded row of its embedding, each
/// layer takes the state that the one before it left, and the last state is the result. Without any
/// layer the hidden state is the embedding itself.
pub proof fn tokens_pass_through_the_layers_in_order<'a, T: Copy, B: KernelBackend<T>>(
    model: Qwen2Model<'a, T, B>,
    token: u32,
    pos: int,
    cache: CacheView<T>,
    states: Seq<Flow<T>>,
)
    requires
        states.len() == model.layers@.len() + 1,
        states[0].cache == cache,
        states[0].residual == Seq::new(
            model.config.hidden_size as nat,
            |c: int| model.backend.decoded(model.embed_tokens.code(token as int, c)),
        ),
        forall|n: int|
            0 <= n < model.layers@.len() ==> states[n + 1] == model.layer_step(
                n,
                pos,
                #[trigger] states[n],
            ),
    ensures
        model.token_result(token, pos, cache) == states[model.layers@.len() as int],
        model.token_run(token, pos, cache) == states[model.layers@.len() as int],
{
    let start = Flow { residual: model.embedding(token), cache };
    assert(start.residual =~= states[0].residual);
    lemma_states(model, pos, start, states, model.layers@.len() as int);
}

/// The states are those of the first layers.
proof fn lemma_states<'a, T: Copy, B: KernelBackend<T>>(
    model: Qwen2Model<'a, T, B>,
    pos: int,
    start: Flow<T>,
    states: Seq<Flow<T>>,
    n: int,
)
    requires
        0 <= n <= model.layers@.len(),
        states.len() == model.layers@.len() + 1,
        states[0] == start,
        forall|k: int|
            0 <= k < model.layers@.len() ==> states[k + 1] == model.layer_step(
                k,
                pos,
                #[trigger] states[k],
            ),
    ensures
        model.layers_run(n, pos, start) == states[n],
    decreases n,
{
    if n > 0 {
        lemma_states(model, pos, start, states, n - 1);
        assert(states[n - 1 + 1] == model.layer_step(n - 1, pos, states[n - 1]));
    }
}

/// The tokens of a sequence run one after the other, each at the position behind the one before it
/// and with the cache that the one before it left.
pub proof fn sequences_run_token_by_token<'a, T: Copy, B: KernelBackend<T>>(
    model: Qwen2Model<'a, T, B>,
    tokens: Seq<u32>,
    start: int,
    caches: Seq<CacheView<T>>,
    k: int,
)
    requires
        caches.len() == tokens.len() + 1,
        forall|i: int|
            0 <= i < tokens.len() ==> caches[i + 1] == model.token_result(
                tokens[i],
                start + i,
                #[trigger] caches[i],
            ).cache,
        0 <= k <= tokens.len(),
    ensures
        model.sequence_result(tokens, start, caches[0], k) == caches[k],
        model.tokens_run(tokens, start, caches[0], k) == caches[k],
    decreases k,
{
    if k > 0 {
        sequences_run_token_by_token(model, tokens, start, caches, k - 1);
        assert(caches[k - 1 + 1] == model.token_result(
            tokens[k - 1],
            start + (k - 1),
            caches[k - 1],
        ).cache);
    }
}

/// A weighted sum is a left fold over the positions.
proof fn lemma_mix_folds<T: Copy, B: KernelBackend<T>>(
    backend: B,
    weights: Seq<T>,
    values: Seq<Seq<T>>,
    at: int,
    n: nat,
)
    ensures
        mix(backend, weights, values, at, n as int) == Seq::new(n, |p: int| p).fold_left(
            backend.zero_value(),
            |sum: T, p: int| backend.mixed(sum, values[p][at], weights[p]),
        ),
    decreases n,
{
    let all = Seq::new(n, |p: int| p);
    if n > 0 {
        lemma_mix_folds(backend, weights, values, at, (n - 1) as nat);
        assert(all.drop_last() =~= Seq::new((n - 1) as nat, |p: int| p));
        assert(all.last() == n - 1);
    }
}

/// What a layer stores. The hidden state is normalised with the layer's first normalisation. The key
/// of the position is the key projection of that, each head rotated: value `i` of a head's first
/// half forms a pair with value `i` of its second half, at the angle of the position times the
/// frequency of the pair. The value of the position is the value projection. Nothing else in the
/// cache changes.
#[verifier::spinoff_prover]
#[verifier::rlimit(40)]
pub proof fn layers_store_rotated_keys_and_plain_values<'a, T: Copy, B: KernelBackend<T>>(
    model: Qwen2Model<'a, T, B>,
    n: int,
    pos: int,
    before: Flow<T>,
    j: int,
)
    requires
        model.valid(),
        0 <= n < model.layers@.len(),
        before.cache.k.len() == model.layers@.len(),
        before.cache.v.len() == model.layers@.len(),
        0 <= pos < before.cache.k[n].len(),
        0 <= pos < before.cache.v[n].len(),
        0 <= j < model.config.kv_size(),
    ensures
        ({
            let b = model.backend;
            let block = model.layers@[n];
            let after = model.layer_step(n, pos, before).cache;
            let input = b.normed(
                before.residual,
                block.input_layernorm.weight@,
                block.input_layernorm.eps,
            );
            let key = |r: int|
                {
                    let product = b.row_product(
                        block.self_attn_k.weight.row_seq(r),
                        block.self_attn_k.weight.quant_type,
                        input,
                    );
                    match block.self_attn_k.bias {
                        Some(bias) => b.added(product, bias@[r]),
                        None => product,
                    }
                };
            let value = |r: int|
                {
                    let product = b.row_product(
                        block.self_attn_v.weight.row_seq(r),
                        block.self_attn_v.weight.quant_type,
                        input,
                    );
                    match block.self_attn_v.bias {
                        Some(bias) => b.added(product, bias@[r]),
                        None => product,
                    }
                };
            let width = model.config.head_width();
            let half = width / 2;
            let i = j % width;
            let cos = |p: int| b.angle_cos(pos as usize, model.inv_freq@[p]);
            let sin = |p: int| b.angle_sin(pos as usize, model.inv_freq@[p]);
            &&& after.k[n][pos].len() == model.config.kv_size()
            &&& after.v[n][pos].len() == model.config.kv_size()
            &&& i < half ==> after.k[n][pos][j] == b.turned_first(
                key(j),
                key(j + half),
                cos(i),
                sin(i),
            )
            &&& i >= half ==> after.k[n][pos][j] == b.turned_second(
                key(j - half),
                key(j),
                cos(i - half),
                sin(i - half),
            )
            &&& after.v[n][pos][j] == value(j)
            &&& forall|l: int, p: int|
                0 <= l < model.layers@.len() && 0 <= p < before.cache.k[l].len() && !(l == n && p
                    == pos) ==> #[trigger] after.k[l][p] == before.cache.k[l][p]
            &&& forall|l: int, p: int|
                0 <= l < model.layers@.len() && 0 <= p < before.cache.v[l].len() && !(l == n && p
                    == pos) ==> #[trigger] after.v[l][p] == before.cache.v[l][p]
        }),
{
    let block = model.layers@[n];
    let width = model.config.head_width();
    let half = width / 2;
    let i = j % width;
    let h = j / width;
    config::valid_heads_fit(model.config);
    assert(block.valid(model.config));
    let kv = model.config.kv_size();
    lemma_place_in_head(model.config.num_key_value_heads as int, width, j);
    let raw = block.self_attn_k.output(model.backend, model.attention_input(n, before.residual));
    assert(raw.len() == kv);
    let head = row_of(raw, h, width);
    assert(head[i] == raw[j]);
    if i < half {
        assert(head[i + half] == raw[j + half]);
    } else {
        assert(head[i - half] == raw[j - half]);
    }
}

/// Where a value lies in the heads.
proof fn lemma_place_in_head(heads: int, width: int, j: int)
    requires
        0 < width,
        width % 2 == 0,
        0 <= j < heads * width,
    ensures
        j == j / width * width + j % width,
        0 <= j % width < width,
        0 <= j / width < heads,
        0 <= j / width * width,
        j / width * width + width <= heads * width,
        j % width < width / 2 ==> j + width / 2 < heads * width,
{
    let h = j / width;
    assert(j == h * width + j % width && 0 <= j % width < width) by (nonlinear_arith)
        requires
            0 < width,
            h == j / width,
    ;
    assert(0 <= h < heads) by (nonlinear_arith)
        requires
            0 < width,
            0 <= j < heads * width,
            j == h * width + j % width,
            0 <= j % width < width,
    ;
    assert(0 <= h * width && h * width + width <= heads * width) by (nonlinear_arith)
        requires
            0 <= h < heads,
            0 < width,
    ;
}

/// A value counted from the start of its head.
proof fn lemma_head_place(width: int, h: int, i: int)
    requires
        0 <= i < width,
        0 <= h,
    ensures
        (h * width + i) / width == h,
        (h * width + i) % width == i,
{
    assert((h * width + i) / width == h && (h * width + i) % width == i) by (nonlinear_arith)
        requires
            0 <= i < width,
            0 <= h,
    ;
}

/// What attention adds to the hidden state. The query is the query projection of the normalised
/// state, each head rotated as the keys are. Head `h` scores every position up to its own with the
/// keys of the key/value head that its group of heads shares, turns the scores into weights, and
/// sums the values of that key/value head with these weights, first position first. The output
/// projection of all the heads is added to the hidden state.
#[verifier::spinoff_prover]
#[verifier::rlimit(40)]
pub proof fn attention_mixes_the_values_by_their_scores<'a, T: Copy, B: KernelBackend<T>>(
    model: Qwen2Model<'a, T, B>,
    n: int,
    pos: int,
    hidden: Seq<T>,
    keys: Seq<Seq<T>>,
    values: Seq<Seq<T>>,
    c: int,
)
    requires
        model.valid(),
        0 <= n < model.layers@.len(),
        0 <= pos,
        hidden.len() == model.config.hidden_size,
        0 <= c < model.config.hidden_size,
    ensures
        ({
            let b = model.backend;
            let block = model.layers@[n];
            let width = model.config.head_width();
            let half = width / 2;
            let group = model.config.num_attention_heads as int
                / model.config.num_key_value_heads as int;
            let input = b.normed(
                hidden,
                block.input_layernorm.weight@,
                block.input_layernorm.eps,
            );
            let raw = |r: int|
                {
                    let product = b.row_product(
                        block.self_attn_q.weight.row_seq(r),
                        block.self_attn_q.weight.quant_type,
                        input,
                    );
                    match block.self_attn_q.bias {
                        Some(bias) => b.added(product, bias@[r]),
                        None => product,
                    }
                };
            let cos = |p: int| b.angle_cos(pos as usize, model.inv_freq@[p]);
            let sin = |p: int| b.angle_sin(pos as usize, model.inv_freq@[p]);
            let query = |h: int|
                Seq::new(
                    width as nat,
                    |i: int|
                        if i < half {
                            b.turned_first(
                                raw(h * width + i),
                                raw(h * width + i + half),
                                cos(i),
                                sin(i),
                            )
                        } else {
                            b.turned_second(
                                raw(h * width + i - half),
                                raw(h * width + i),
                                cos(i - half),
                                sin(i - half),
                            )
                        },
                );
            let weights = |h: int|
                b.weights_of(
                    Seq::new(
                        (pos + 1) as nat,
                        |p: int|
                            b.score_of(
                                query(h),
                                keys[p].subrange(
                                    h / group * width,
                                    h / group * width + width,
                                ),
                            ),
                    ),
                );
            let collected = Seq::new(
                model.config.hidden_size as nat,
                |j: int|
                    {
                        let h = j / width;
                        Seq::new((pos + 1) as nat, |p: int| p).fold_left(
                            b.zero_value(),
                            |sum: T, p: int|
                                b.mixed(
                                    sum,
                                    values[p][h / group * width + j % width],
                                    weights(h)[p],
                                ),
                        )
                    },
            );
            let product = b.row_product(
                block.self_attn_o.weight.row_seq(c),
                block.self_attn_o.weight.quant_type,
                collected,
            );
            model.after_attention(n, hidden, pos, keys, values)[c] == b.added(
                hidden[c],
                match block.self_attn_o.bias {
                    Some(bias) => b.added(product, bias@[c]),
                    None => product,
                },
            )
        }),
{
    let block = model.layers@[n];
    assert(block.valid(model.config));
    config::valid_heads_fit(model.config);
    let b = model.backend;
    let width = model.config.head_width();
    let half = width / 2;
    let group = model.config.num_attention_heads as int
        / model.config.num_key_value_heads as int;
    let input = b.normed(
        hidden,
        block.input_layernorm.weight@,
        block.input_layernorm.eps,
    );
    let raw = |r: int|
        {
            let product = b.row_product(
                block.self_attn_q.weight.row_seq(r),
                block.self_attn_q.weight.quant_type,
                input,
            );
            match block.self_attn_q.bias {
                Some(bias) => b.added(product, bias@[r]),
                None => product,
            }
        };
    let cos = |p: int| b.angle_cos(pos as usize, model.inv_freq@[p]);
    let sin = |p: int| b.angle_sin(pos as usize, model.inv_freq@[p]);
    let query = |h: int|
        Seq::new(
            width as nat,
            |i: int|
                if i < half {
                    b.turned_first(
                        raw(h * width + i),
                        raw(h * width + i + half),
                        cos(i),
                        sin(i),
                    )
                } else {
                    b.turned_second(
                        raw(h * width + i - half),
                        raw(h * width + i),
                        cos(i - half),
                        sin(i - half),
                    )
                },
        );
    let weights = |h: int|
        b.weights_of(
            Seq::new(
                (pos + 1) as nat,
                |p: int|
                    b.score_of(
                        query(h),
                        keys[p].subrange(
                            h / group * width,
                            h / group * width + width,
                        ),
                    ),
            ),
        );
    let collected = Seq::new(
        model.config.hidden_size as nat,
        |j: int|
            {
                let h = j / width;
                Seq::new((pos + 1) as nat, |p: int| p).fold_left(
                    b.zero_value(),
                    |sum: T, p: int|
                        b.mixed(
                            sum,
                            values[p][h / group * width + j % width],
                            weights(h)[p],
                        ),
                )
            },
    );
    let raws = block.self_attn_q.output(b, model.attention_input(n, hidden));
    let rotated = model.query(n, hidden, pos);
    let heads = model.config.num_attention_heads as int;
    assert(raws.len() == model.config.hidden_size);
    assert forall|h: int| 0 <= h < heads implies query(h) == #[trigger] row_of(rotated, h, width) by {
        assert(0 <= h * width && h * width + width <= heads * width) by (nonlinear_arith)
            requires
                0 <= h < heads,
                0 < width,
        ;
        assert forall|i: int| 0 <= i < width implies query(h)[i] == row_of(rotated, h, width)[i] by {
            lemma_head_place(width, h, i);
            let head = row_of(raws, h, width);
            assert(head[i] == raws[h * width + i]);
            if i < half {
                assert(head[i + half] == raws[h * width + i + half]);
            } else {
                assert(head[i - half] == raws[h * width + i - half]);
            }
        }
        assert(query(h) =~= row_of(rotated, h, width));
    }
    let attended = model.attended(rotated, keys, values, pos);
    assert forall|j: int| 0 <= j < model.config.hidden_size implies collected[j] == attended[j] by {
        let h = j / width;
        lemma_place_in_head(heads, width, j);
        let at = h / group * width;
        assert(query(h) == row_of(rotated, h, width));
        let scores = Seq::new(
            (pos + 1) as nat,
            |p: int| b.score_of(query(h), keys[p].subrange(at, at + width)),
        );
        assert(model.kv_start(h) == at);
        assert(scores =~= model.head_scores(rotated, keys, h, pos));
        let w = weights(h);
        assert(w == b.weights_of(scores));
        lemma_mix_folds(b, w, values, at + j % width, (pos + 1) as nat);
        let f = |sum: T, p: int| b.mixed(sum, values[p][at + j % width], w[p]);
        let g = |sum: T, p: int|
            b.mixed(sum, values[p][h / group * width + j % width], weights(h)[p]);
        assert(f =~= g);
    }
    assert(collected =~= attended);
}

/// What the feed-forward part adds to the hidden state. The state is normalised with the layer's
/// second normalisation; the projections to the inner width gate one another value by value, and
/// the projection back is added to the state.
pub proof fn the_feed_forward_part_is_gated<'a, T: Copy, B: KernelBackend<T>>(
    model: Qwen2Model<'a, T, B>,
    n: int,
    hidden: Seq<T>,
    c: int,
)
    requires
        model.valid(),
        0 <= n < model.layers@.len(),
        hidden.len() == model.config.hidden_size,
        0 <= c < model.config.hidden_size,
    ensures
        ({
            let b = model.backend;
            let block = model.layers@[n];
            let input = b.normed(
                hidden,
                block.post_attention_layernorm.weight@,
                block.post_attention_layernorm.eps,
            );
            let gate = |r: int|
                {
                    let product = b.row_product(
                        block.mlp_gate.weight.row_seq(r),
                        block.mlp_gate.weight.quant_type,
                        input,
                    );
                    match block.mlp_gate.bias {
                        Some(bias) => b.added(product, bias@[r]),
                        None => product,
                    }
                };
            let up = |r: int|
                {
                    let product = b.row_product(
                        block.mlp_up.weight.row_seq(r),
                        block.mlp_up.weight.quant_type,
                        input,
                    );
                    match block.mlp_up.bias {
                        Some(bias) => b.added(product, bias@[r]),
                        None => product,
                    }
                };
            let inner = Seq::new(
                model.config.intermediate_size as nat,
                |r: int| b.gated(gate(r), up(r)),
            );
            let product = b.row_product(
                block.mlp_down.weight.row_seq(c),
                block.mlp_down.weight.quant_type,
                inner,
            );
            model.after_mlp(n, hidden)[c] == b.added(
                hidden[c],
                match block.mlp_down.bias {
                    Some(bias) => b.added(product, bias@[c]),
                    None => product,
                },
            )
        }),
{
    let block = model.layers@[n];
    assert(block.valid(model.config));
    let b = model.backend;
    let input = b.normed(
        hidden,
        block.post_attention_layernorm.weight@,
        block.post_attention_layernorm.eps,
    );
    let gate = |r: int|
        {
            let product = b.row_product(
                block.mlp_gate.weight.row_seq(r),
                block.mlp_gate.weight.quant_type,
                input,
            );
            match block.mlp_gate.bias {
                Some(bias) => b.added(product, bias@[r]),
                None => product,
            }
        };
    let up = |r: int|
        {
            let product = b.row_product(
                block.mlp_up.weight.row_seq(r),
                block.mlp_up.weight.quant_type,
                input,
            );
            match block.mlp_up.bias {
                Some(bias) => b.added(product, bias@[r]),
                None => product,
            }
        };
    let inner = Seq::new(
        model.config.intermediate_size as nat,
        |r: int| b.gated(gate(r), up(r)),
    );
    assert(model.gated(n, hidden) =~= inner);
}

/// A layer stores its key and value, attends over the cache as it then stands, and feeds the result
/// forward.
pub proof fn a_layer_stores_then_attends_then_feeds_forward<'a, T: Copy, B: KernelBackend<T>>(
    model: Qwen2Model<'a, T, B>,
    n: int,
    pos: int,
    before: Flow<T>,
)
    ensures
        ({
            let after = model.layer_step(n, pos, before);
            after.residual == model.after_mlp(
                n,
                model.after_attention(
                    n,
                    before.residual,
                    pos,
                    after.cache.k[n],
                    after.cache.v[n],
                ),
            )
        }),
{
}

/// A linear layer multiplies each row of its matrix by the input and adds the bias of the row, where
/// it has one. A normalisation is the kernels' with its weight and its constant.
pub proof fn layers_apply_their_rows<'a, T: Copy, B: KernelBackend<T>>(
    backend: B,
    layer: LinearLayer<'a, T>,
    norm: RMSNorm<T>,
    input: Seq<T>,
    r: int,
)
    requires
        0 <= r < layer.out_features,
    ensures
        layer.output(backend, input).len() == layer.out_features,
        layer.bias is None ==> layer.output(backend, input)[r] == backend.row_product(
            layer.weight.row_seq(r),
            layer.weight.quant_type,
            input,
        ),
        layer.bias matches Some(bias) ==> layer.output(backend, input)[r] == backend.added(
            backend.row_product(layer.weight.row_seq(r), layer.weight.quant_type, input),
            bias@[r],
        ),
        norm.output(backend, input) == backend.normed(input, norm.weight@, norm.eps),
{
}

/// What a prompt is refused for when it runs in chunks of 32 tokens: the first chunk that has a token
/// outside the vocabulary, or runs over the end of the context, is refused; for its first such token
/// if it has one, and else for the first position past the context.
pub proof fn prompts_are_refused_chunk_by_chunk(
    tokens: Seq<u32>,
    start: int,
    vocab: usize,
    context: usize,
    at: int,
    end: int,
    k: int,
)
    requires
        0 <= at < end <= tokens.len(),
        at % 32 == 0,
        end == (if at + 32 < tokens.len() {
            at + 32
        } else {
            tokens.len() as int
        }),
        forall|i: int| 0 <= i < at ==> #[trigger] tokens[i] < vocab,
        start + at <= context,
        0 <= start,
    ensures
        at <= k < end && tokens[k] >= vocab && (forall|i: int|
            at <= i < k ==> #[trigger] tokens[i] < vocab) ==> first_bad_chunk(
            tokens,
            start,
            vocab,
            context,
            0,
        ) == Some((at, ModelError::Token { token: tokens[k] })),
        (forall|i: int| at <= i < end ==> #[trigger] tokens[i] < vocab) && start + end > context
            ==> first_bad_chunk(tokens, start, vocab, context, 0) == Some(
            (at, ModelError::Position { pos: context, context }),
        ),
        (forall|i: int| at <= i < end ==> #[trigger] tokens[i] < vocab) && start + end <= context
            && end == tokens.len() ==> first_bad_chunk(tokens, start, vocab, context, 0) is None,
{
    lemma_chunks_before(tokens, start, vocab, context, at, 0);
    let chunk = tokens.subrange(at, end);
    if at <= k < end && tokens[k] >= vocab && (forall|i: int|
        at <= i < k ==> #[trigger] tokens[i] < vocab) {
        lemma_bad_token_at(chunk, vocab, k - at, chunk.len() as int);
    }
    if forall|i: int| at <= i < end ==> #[trigger] tokens[i] < vocab {
        lemma_good_tokens(chunk, vocab, chunk.len() as int);
        if end == tokens.len() {
            assert(first_bad_chunk(tokens, start, vocab, context, end) is None);
        }
    }
}

/// The chunks before one that is reached are in order.
proof fn lemma_chunks_before(
    tokens: Seq<u32>,
    start: int,
    vocab: usize,
    context: usize,
    at: int,
    from: int,
)
    requires
        0 <= from <= at < tokens.len(),
        from % 32 == 0,
        at % 32 == 0,
        forall|i: int| 0 <= i < at ==> #[trigger] tokens[i] < vocab,
        0 <= start,
        start + at <= context,
    ensures
        first_bad_chunk(tokens, start, vocab, context, from) == first_bad_chunk(
            tokens,
            start,
            vocab,
            context,
            at,
        ),
    decreases at - from,
{
    if from < at {
        assert(from + 32 <= at);
        let chunk = tokens.subrange(from, from + 32);
        lemma_good_tokens(chunk, vocab, 32);
        lemma_chunks_before(tokens, start, vocab, context, at, from + 32);
    }
}

/// Tokens in the vocabulary are not bad.
proof fn lemma_good_tokens(tokens: Seq<u32>, vocab: usize, n: int)
    requires
        0 <= n <= tokens.len(),
        forall|i: int| 0 <= i < n ==> #[trigger] tokens[i] < vocab,
    ensures
        first_bad_token(tokens, vocab, n) is None,
    decreases n,
{
    if n > 0 {
        lemma_good_tokens(tokens, vocab, n - 1);
    }
}

/// The first bad token is the one before which all are good.
proof fn lemma_bad_token_at(tokens: Seq<u32>, vocab: usize, k: int, n: int)
    requires
        0 <= k < n <= tokens.len(),
        tokens[k] >= vocab,
        forall|i: int| 0 <= i < k ==> #[trigger] tokens[i] < vocab,
    ensures
        first_bad_token(tokens, vocab, n) == Some(tokens[k]),
{
    lemma_good_tokens(tokens, vocab, k);
    assert(first_bad_token(tokens, vocab, k + 1) == Some(tokens[k]));
    lemma_bad_token_stays(tokens, vocab, k + 1, n);
}

/// What a refused chunk leaves in the cache: nothing of it where one of its tokens is bad, where it
/// is a single token, or where it starts past the context; otherwise the first layer has stored the
/// keys and values of its tokens up to the end of the context, one after the other.
pub proof fn refused_chunks_leave_their_first_layer<'a, T: Copy, B: KernelBackend<T>>(
    model: Qwen2Model<'a, T, B>,
    tokens: Seq<u32>,
    start: int,
    cache: CacheView<T>,
    context: usize,
    caches: Seq<CacheView<T>>,
    k: int,
)
    requires
        tokens.len() > 0,
        caches.len() == tokens.len() + 1,
        caches[0] == cache,
        forall|i: int|
            0 <= i < tokens.len() ==> caches[i + 1] == (#[trigger] caches[i]).store(
                0,
                start + i,
                model.key(0, model.embedding(tokens[i]), start + i),
                model.value(0, model.embedding(tokens[i])),
            ),
    ensures
        0 <= k < tokens.len() && tokens[k] >= model.config.vocab_size ==> model.left_by_refused(
            tokens,
            start,
            cache,
            context,
        ) == cache,
        tokens.len() == 1 || start >= context ==> model.left_by_refused(
            tokens,
            start,
            cache,
            context,
        ) == cache,
        tokens.len() > 1 && start < context <= start + tokens.len() && (forall|i: int|
            0 <= i < tokens.len() ==> #[trigger] tokens[i] < model.config.vocab_size)
            ==> model.left_by_refused(tokens, start, cache, context) == caches[context - start],
{
    let vocab = model.config.vocab_size;
    let n = tokens.len() as int;
    if 0 <= k < n && tokens[k] >= vocab {
        lemma_some_bad_token(tokens, vocab, k, n);
    }
    if start < context <= start + n {
        lemma_first_layer_caches(model, tokens, start, caches, context - start);
    }
    if forall|i: int| 0 <= i < n ==> #[trigger] tokens[i] < vocab {
        lemma_good_tokens(tokens, vocab, n);
    }
}

/// With a bad token among them, some token is the first bad one.
proof fn lemma_some_bad_token(tokens: Seq<u32>, vocab: usize, k: int, n: int)
    requires
        0 <= k < n <= tokens.len(),
        tokens[k] >= vocab,
    ensures
        first_bad_token(tokens, vocab, n) is Some,
    decreases n,
{
    if k < n - 1 {
        lemma_some_bad_token(tokens, vocab, k, n - 1);
    }
}

/// The caches are those of the first layer.
proof fn lemma_first_layer_caches<'a, T: Copy, B: KernelBackend<T>>(
    model: Qwen2Model<'a, T, B>,
    tokens: Seq<u32>,
    start: int,
    caches: Seq<CacheView<T>>,
    k: int,
)
    requires
        0 <= k <= tokens.len(),
        caches.len() == tokens.len() + 1,
        forall|i: int|
            0 <= i < tokens.len() ==> caches[i + 1] == (#[trigger] caches[i]).store(
                0,
                start + i,
                model.key(0, model.embedding(tokens[i]), start + i),
                model.value(0, model.embedding(tokens[i])),
            ),
    ensures
        model.first_layer_stored(tokens, start, caches[0], k) == caches[k],
    decreases k,
{
    if k > 0 {
        lemma_first_layer_caches(model, tokens, start, caches, k - 1);
        assert(caches[k - 1 + 1] == caches[k - 1].store(
            0,
            start + (k - 1),
            model.key(0, model.embedding(tokens[k - 1]), start + (k - 1)),
            model.value(0, model.embedding(tokens[k - 1])),
        ));
    }
}

/// What the attention buffer holds after a token: what the heads of the last layer collected, from
/// which that layer's output projection made the hidden state.
pub proof fn the_last_layer_leaves_its_attention<'a, T: Copy, B: KernelBackend<T>>(
    model: Qwen2Model<'a, T, B>,
    token: u32,
    pos: int,
    cache: CacheView<T>,
)
    requires
        model.layers@.len() > 0,
    ensures
        ({
            let last = model.layers@.len() - 1;
            let start = Flow { residual: model.embedding(token), cache };
            let before = model.layers_run(last, pos, start);
            let after = model.token_result(token, pos, cache);
            let block = model.layers@[last];
            let collected = model.last_collected(token, pos, cache);
            let projected = block.self_attn_o.output(model.backend, collected);
            after.residual == model.after_mlp(
                last,
                Seq::new(
                    before.residual.len(),
                    |c: int| model.backend.added(before.residual[c], projected[c]),
                ),
            )
        }),
{
    let last = model.layers@.len() - 1;
    let start = Flow { residual: model.embedding(token), cache };
    let before = model.layers_run(last, pos, start);
    let after = model.layer_step(last, pos, before);
    let collected = model.last_collected(token, pos, cache);
    let projected = model.layers@[last].self_attn_o.output(model.backend, collected);
    assert(model.after_attention(
        last,
        before.residual,
        pos,
        after.cache.k[last],
        after.cache.v[last],
    ) =~= Seq::new(
        before.residual.len(),
        |c: int| model.backend.added(before.residual[c], projected[c]),
    ));
}

/// A batch is refused for inputs that are not as many rows as the batch asks for, then for outputs
/// that are not.
pub proof fn batches_are_refused_in_turn<'a, T: Copy>(
    layer: LinearLayer<'a, T>,
    inputs: int,
    outputs: int,
    batch: int,
)
    ensures
        layer.batch_fault(inputs, outputs, batch) is None <==> inputs == batch * layer.in_features
            && outputs == batch * layer.out_features,
        inputs != batch * layer.in_features ==> layer.batch_fault(inputs, outputs, batch) == Some(
            QuantError::MatvecInput { got: inputs as usize, expected: layer.in_features },
        ),
        inputs == batch * layer.in_features && outputs != batch * layer.out_features
            ==> layer.batch_fault(inputs, outputs, batch) == Some(
            QuantError::MatvecOutput { got: outputs as usize, expected: layer.out_features },
        ),
{
}

/// Without layers a token's logits are those of its embedding: logit `v` is the product of row `v` of
/// the head with the normalised row of the embeddings, plus the bias where the head has one, and the
/// cache stays as it was.
pub proof fn without_layers_the_embedding_is_projected<'a, T: Copy, B: KernelBackend<T>>(
    model: Qwen2Model<'a, T, B>,
    token: u32,
    pos: int,
    cache: CacheView<T>,
    v: int,
)
    requires
        model.layers@.len() == 0,
        0 <= v < model.lm_head.out_features,
    ensures
        model.token_result(token, pos, cache).cache == cache,
        ({
            let row = Seq::new(
                model.config.hidden_size as nat,
                |c: int| model.backend.decoded(model.embed_tokens.code(token as int, c)),
            );
            let product = model.backend.row_product(
                model.lm_head.weight.row_seq(v),
                model.lm_head.weight.quant_type,
                model.backend.normed(row, model.norm.weight@, model.norm.eps),
            );
            model.logits_result(model.token_result(token, pos, cache).residual)[v]
                == match model.lm_head.bias {
                Some(bias) => model.backend.added(product, bias@[v]),
                None => product,
            }
        }),
{
    let row = Seq::new(
        model.config.hidden_size as nat,
        |c: int| model.backend.decoded(model.embed_tokens.code(token as int, c)),
    );
    assert(model.embedding(token) =~= row);
}

} // verus!
