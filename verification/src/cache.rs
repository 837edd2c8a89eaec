//! The key/value cache and the working buffers of one inference.

use crate::config::LlamaConfig;
use vstd::prelude::*;

verus! {

/// What can be wrong with a cache request.
#[derive(Clone, Copy, Debug, PartialEq, Eq, Structural)]
pub enum CacheError {
    /// The context must be positive.
    ZeroContext,
    /// The context is longer than the model supports.
    ContextTooLong { requested: usize, limit: usize },
    /// The size of the cache overflows.
    SizeOverflow,
    /// The layer does not exist.
    Layer,
    /// The position lies outside the context.
    Position { pos: usize, context: usize },
    /// The key or the value is not as wide as the cache.
    Width,
}

/// The sequence with `part` written over it from `at` on.
pub open spec fn splice<T>(s: Seq<T>, at: int, part: Seq<T>) -> Seq<T> {
    Seq::new(
        s.len(),
        |j: int|
            if at <= j < at + part.len() {
                part[j - at]
            } else {
                s[j]
            },
    )
}

/// Every element is the given value.
pub open spec fn all_are<T>(s: Seq<T>, value: T) -> bool {
    forall|i: int| 0 <= i < s.len() ==> #[trigger] s[i] == value
}

/// A vector of `n` copies of a value.
pub fn filled<T: Copy>(value: T, n: usize) -> (v: Vec<T>)
    ensures
        v@ == Seq::new(n as nat, |i: int| value),
{
    let mut v: Vec<T> = Vec::new();
    for i in 0..n
        invariant
            v@ == Seq::new(i as nat, |i: int| value),
    {
        v.push(value);
        assert(v@ =~= Seq::new((i + 1) as nat, |i: int| value));
    }
    v
}

/// Writes `part` over a vector from `at` on.
pub fn write_at<T: Copy>(v: &mut Vec<T>, at: usize, part: &[T])
    requires
        at + part@.len() <= old(v)@.len(),
    ensures
        final(v)@ == splice(old(v)@, at as int, part@),
{
    let n: usize = part.len();
    let total: usize = v.len();
    assert(v@ =~= splice(old(v)@, at as int, part@.take(0)));
    for i in 0..n
        invariant
            n == part@.len(),
            at + n <= total,
            total == v@.len(),
            old(v)@.len() == total,
            v@ == splice(old(v)@, at as int, part@.take(i as int)),
    {
        v[at + i] = part[i];
        assert(v@ =~= splice(old(v)@, at as int, part@.take(i + 1)));
    }
    assert(part@.take(n as int) =~= part@);
}

/// The positions of one layer: `n` pieces of `width` values each.
pub open spec fn positions<T>(layer: Seq<T>, width: int, n: int) -> Seq<Seq<T>> {
    Seq::new(n as nat, |p: int| layer.subrange(p * width, p * width + width))
}

/// The keys and the values of a cache, by layer and position.
pub struct CacheView<T> {
    pub k: Seq<Seq<Seq<T>>>,
    pub v: Seq<Seq<Seq<T>>>,
}

impl<T> CacheView<T> {
    /// The cache after a key and a value were stored at a position of a layer: nothing else changed.
    pub open spec fn store(self, layer: int, pos: int, key: Seq<T>, value: Seq<T>) -> CacheView<T> {
        CacheView {
            k: self.k.update(layer, self.k[layer].update(pos, key)),
            v: self.v.update(layer, self.v[layer].update(pos, value)),
        }
    }

    /// The cache has this many layers and positions.
    pub open spec fn sized(self, layers: int, context: int) -> bool {
        &&& self.k.len() == layers
        &&& self.v.len() == layers
        &&& forall|l: int| 0 <= l < layers ==> (#[trigger] self.k[l]).len() == context
        &&& forall|l: int| 0 <= l < layers ==> (#[trigger] self.v[l]).len() == context
    }
}

/// The keys and values that attention has seen so far, layer by layer, position by position.
#[derive(Debug)]
pub struct KVCache<T> {
    pub k_cache: Vec<Vec<T>>,
    pub v_cache: Vec<Vec<T>>,
    pub max_seq_len: usize,
    pub kv_width: usize,
}

impl<T> View for KVCache<T> {
    type V = CacheView<T>;

    open spec fn view(&self) -> CacheView<T> {
        CacheView {
            k: Seq::new(
                self.k_cache@.len(),
                |l: int| positions(self.k_cache@[l]@, self.kv_width as int, self.max_seq_len as int),
            ),
            v: Seq::new(
                self.v_cache@.len(),
                |l: int| positions(self.v_cache@[l]@, self.kv_width as int, self.max_seq_len as int),
            ),
        }
    }
}

/// A position inside the context lies inside its layer.
pub proof fn lemma_position_range(pos: int, width: int, context: int)
    requires
        0 <= pos < context,
        0 <= width,
    ensures
        0 <= pos * width,
        (pos + 1) * width == pos * width + width,
        pos * width + width <= context * width,
{
    assert(0 <= pos * width && (pos + 1) * width == pos * width + width && (pos + 1) * width
        <= context * width) by (nonlinear_arith)
        requires
            0 <= pos < context,
            0 <= width,
    ;
}

/// Writing one position of a layer leaves the others alone.
proof fn lemma_write_position<T>(layer: Seq<T>, width: int, n: int, pos: int, part: Seq<T>)
    requires
        0 <= pos < n,
        0 <= width,
        layer.len() == n * width,
        part.len() == width,
    ensures
        positions(splice(layer, pos * width, part), width, n) == positions(layer, width, n).update(
            pos,
            part,
        ),
{
    let after = splice(layer, pos * width, part);
    assert forall|p: int| 0 <= p < n implies #[trigger] positions(after, width, n)[p] == positions(
        layer,
        width,
        n,
    ).update(pos, part)[p] by {
        lemma_position_range(p, width, n);
        lemma_position_range(pos, width, n);
        if p == pos {
            assert(after.subrange(p * width, p * width + width) =~= part);
        } else {
            assert(p * width + width <= pos * width || pos * width + width <= p * width)
                by (nonlinear_arith)
                requires
                    p != pos,
                    0 <= width,
            ;
            assert(after.subrange(p * width, p * width + width) =~= layer.subrange(
                p * width,
                p * width + width,
            ));
        }
    }
    assert(positions(after, width, n) =~= positions(layer, width, n).update(pos, part));
}

impl<T: Copy> KVCache<T> {
    /// Every layer is as long as the context asks for.
    pub open spec fn valid(&self) -> bool {
        &&& self.k_cache@.len() == self.v_cache@.len()
        &&& self.max_seq_len * self.kv_width <= usize::MAX
        &&& forall|l: int|
            0 <= l < self.k_cache@.len() ==> (#[trigger] self.k_cache@[l])@.len() == self.max_seq_len
                * self.kv_width
        &&& forall|l: int|
            0 <= l < self.v_cache@.len() ==> (#[trigger] self.v_cache@[l])@.len() == self.max_seq_len
                * self.kv_width
    }

    /// The cache was made for that model.
    pub open spec fn fits(&self, config: LlamaConfig) -> bool {
        &&& self.valid()
        &&& self.k_cache@.len() == config.num_hidden_layers
        &&& self.kv_width == config.kv_size()
        &&& self.max_seq_len > 0
    }

    /// What a request for a cache is refused for.
    pub open spec fn request_fault(config: LlamaConfig, max_seq_len: usize) -> Option<CacheError> {
        if max_seq_len == 0 {
            Some(CacheError::ZeroContext)
        } else if max_seq_len > config.max_position_embeddings {
            Some(
                CacheError::ContextTooLong {
                    requested: max_seq_len,
                    limit: config.max_position_embeddings,
                },
            )
        } else if max_seq_len * config.kv_size() > usize::MAX {
            Some(CacheError::SizeOverflow)
        } else {
            None
        }
    }

    /// A cache for `max_seq_len` positions, filled with `zero`.
    pub fn new(config: &LlamaConfig, max_seq_len: usize, zero: T) -> (result: Result<
        KVCache<T>,
        CacheError,
    >)
        requires
            config.num_attention_heads > 0,
            config.kv_size() <= usize::MAX,
        ensures
            match KVCache::<T>::request_fault(*config, max_seq_len) {
                Some(e) => result == Err::<KVCache<T>, CacheError>(e),
                None => {
                    &&& result is Ok
                    &&& result->Ok_0.fits(*config)
                    &&& result->Ok_0.max_seq_len == max_seq_len
                    &&& forall|l: int, i: int|
                        0 <= l < config.num_hidden_layers && 0 <= i < max_seq_len * config.kv_size()
                            ==> result->Ok_0.k_cache@[l]@[i] == zero && result->Ok_0.v_cache@[l]@[i]
                            == zero
                },
            },
    {
        if max_seq_len == 0 {
            return Err(CacheError::ZeroContext);
        }
        if max_seq_len > config.max_position_embeddings {
            return Err(
                CacheError::ContextTooLong {
                    requested: max_seq_len,
                    limit: config.max_position_embeddings,
                },
            );
        }
        let kv_width: usize = config.kv_width();
        let layer_len: usize = match max_seq_len.checked_mul(kv_width) {
            Some(n) => n,
            None => return Err(CacheError::SizeOverflow),
        };
        let mut k_cache: Vec<Vec<T>> = Vec::new();
        let mut v_cache: Vec<Vec<T>> = Vec::new();
        for l in 0..config.num_hidden_layers
            invariant
                k_cache@.len() == l,
                v_cache@.len() == l,
                forall|m: int|
                    0 <= m < l ==> (#[trigger] k_cache@[m])@ == Seq::new(
                        layer_len as nat,
                        |i: int| zero,
                    ),
                forall|m: int|
                    0 <= m < l ==> (#[trigger] v_cache@[m])@ == Seq::new(
                        layer_len as nat,
                        |i: int| zero,
                    ),
        {
            k_cache.push(filled(zero, layer_len));
            v_cache.push(filled(zero, layer_len));
        }
        Ok(KVCache { k_cache, v_cache, max_seq_len, kv_width })
    }

    /// What storing a key and a value of the given widths is refused for.
    pub open spec fn update_fault(
        &self,
        layer: usize,
        pos: usize,
        key: int,
        value: int,
    ) -> Option<CacheError> {
        if layer >= self.k_cache@.len() {
            Some(CacheError::Layer)
        } else if pos >= self.max_seq_len {
            Some(CacheError::Position { pos, context: self.max_seq_len })
        } else if key != self.kv_width || value != self.kv_width {
            Some(CacheError::Width)
        } else {
            None
        }
    }

    /// Stores the key and the value of one position of one layer.
    pub fn update(&mut self, layer: usize, pos: usize, key: &[T], value: &[T]) -> (result: Result<
        (),
        CacheError,
    >)
        requires
            old(self).valid(),
        ensures
            final(self).valid(),
            final(self).max_seq_len == old(self).max_seq_len,
            final(self).kv_width == old(self).kv_width,
            final(self).k_cache@.len() == old(self).k_cache@.len(),
            match old(self).update_fault(layer, pos, key@.len() as int, value@.len() as int) {
                Some(e) => result == Err::<(), CacheError>(e) && *final(self) == *old(self),
                None => result is Ok && final(self)@ == old(self)@.store(
                    layer as int,
                    pos as int,
                    key@,
                    value@,
                ),
            },
    {
        if layer >= self.k_cache.len() {
            return Err(CacheError::Layer);
        }
        if pos >= self.max_seq_len {
            return Err(CacheError::Position { pos, context: self.max_seq_len });
        }
        if key.len() != self.kv_width || value.len() != self.kv_width {
            return Err(CacheError::Width);
        }
        proof {
            lemma_position_range(pos as int, self.kv_width as int, self.max_seq_len as int);
            lemma_write_position(
                self.k_cache@[layer as int]@,
                self.kv_width as int,
                self.max_seq_len as int,
                pos as int,
                key@,
            );
            lemma_write_position(
                self.v_cache@[layer as int]@,
                self.kv_width as int,
                self.max_seq_len as int,
                pos as int,
                value@,
            );
        }
        let offset: usize = pos * self.kv_width;
        write_at(&mut self.k_cache[layer], offset, key);
        write_at(&mut self.v_cache[layer], offset, value);
        proof {
            let stored = old(self)@.store(layer as int, pos as int, key@, value@);
            assert(self@.k =~= stored.k);
            assert(self@.v =~= stored.v);
        }
        Ok(())
    }

    /// Starts a new sequence. Positions are written before they are read, so nothing is cleared.
    pub fn reset(&mut self)
        ensures
            *final(self) == *old(self),
    {
    }
}

/// What is stored at a position is read back from it, and every other position of every layer keeps
/// what it held.
pub proof fn stored_values_are_read_back<T>(
    cache: CacheView<T>,
    layers: int,
    context: int,
    layer: int,
    pos: int,
    key: Seq<T>,
    value: Seq<T>,
)
    requires
        cache.sized(layers, context),
        0 <= layer < layers,
        0 <= pos < context,
    ensures
        cache.store(layer, pos, key, value).sized(layers, context),
        cache.store(layer, pos, key, value).k[layer][pos] == key,
        cache.store(layer, pos, key, value).v[layer][pos] == value,
        forall|l: int, p: int|
            0 <= l < layers && 0 <= p < context && (l != layer || p != pos) ==> #[trigger] cache.store(
                layer,
                pos,
                key,
                value,
            ).k[l][p] == cache.k[l][p] && cache.store(layer, pos, key, value).v[l][p]
                == cache.v[l][p],
{
    let after = cache.store(layer, pos, key, value);
    assert forall|l: int| 0 <= l < layers implies (#[trigger] after.k[l]).len() == context by {
        assert(cache.k[l].len() == context);
    }
    assert forall|l: int| 0 <= l < layers implies (#[trigger] after.v[l]).len() == context by {
        assert(cache.v[l].len() == context);
    }
}

/// The working buffers of one inference.
#[derive(Debug)]
pub struct InferenceBuffers<T> {
    pub hidden_states: Vec<T>,
    pub residual: Vec<T>,
    pub q: Vec<T>,
    pub k: Vec<T>,
    pub v: Vec<T>,
    pub attention: Vec<T>,
    pub projection: Vec<T>,
    pub gate: Vec<T>,
    pub up: Vec<T>,
    pub down: Vec<T>,
    pub scores: Vec<T>,
    /// Rotary values of the current position, computed once and used by every layer.
    pub rope_cos: Vec<T>,
    pub rope_sin: Vec<T>,
    pub logits: Vec<T>,
}

impl<T: Copy> InferenceBuffers<T> {
    /// The buffers are as long as the model and the context ask for.
    pub open spec fn fits(&self, config: LlamaConfig, max_seq_len: int) -> bool {
        &&& self.hidden_states@.len() == config.hidden_size
        &&& self.residual@.len() == config.hidden_size
        &&& self.q@.len() == config.hidden_size
        &&& self.k@.len() == config.kv_size()
        &&& self.v@.len() == config.kv_size()
        &&& self.attention@.len() == config.hidden_size
        &&& self.projection@.len() == config.hidden_size
        &&& self.gate@.len() == config.intermediate_size
        &&& self.up@.len() == config.intermediate_size
        &&& self.down@.len() == config.hidden_size
        &&& self.scores@.len() == max_seq_len * config.num_attention_heads
        &&& self.rope_cos@.len() == config.head_width() / 2
        &&& self.rope_sin@.len() == config.head_width() / 2
        &&& self.logits@.len() == config.vocab_size
    }

    /// The buffers fit and hold nothing but `zero`.
    pub open spec fn cleared(&self, config: LlamaConfig, max_seq_len: int, zero: T) -> bool {
        &&& self.fits(config, max_seq_len)
        &&& all_are(self.hidden_states@, zero)
        &&& all_are(self.residual@, zero)
        &&& all_are(self.q@, zero)
        &&& all_are(self.k@, zero)
        &&& all_are(self.v@, zero)
        &&& all_are(self.attention@, zero)
        &&& all_are(self.projection@, zero)
        &&& all_are(self.gate@, zero)
        &&& all_are(self.up@, zero)
        &&& all_are(self.down@, zero)
        &&& all_are(self.scores@, zero)
        &&& all_are(self.rope_cos@, zero)
        &&& all_are(self.rope_sin@, zero)
        &&& all_are(self.logits@, zero)
    }

    /// Buffers for a model and a context, filled with `zero`.
    pub fn new(config: &LlamaConfig, max_seq_len: usize, zero: T) -> (buffers: InferenceBuffers<T>)
        requires
            config.num_attention_heads > 0,
            config.kv_size() <= usize::MAX,
            max_seq_len * config.num_attention_heads <= usize::MAX,
        ensures
            buffers.cleared(*config, max_seq_len as int, zero),
    {
        let hidden: usize = config.hidden_size;
        let kv: usize = config.kv_width();
        let intermediate: usize = config.intermediate_size;
        let half: usize = config.head_dim() / 2;
        InferenceBuffers {
            hidden_states: filled(zero, hidden),
            residual: filled(zero, hidden),
            q: filled(zero, hidden),
            k: filled(zero, kv),
            v: filled(zero, kv),
            attention: filled(zero, hidden),
            projection: filled(zero, hidden),
            gate: filled(zero, intermediate),
            up: filled(zero, intermediate),
            down: filled(zero, hidden),
            scores: filled(zero, max_seq_len * config.num_attention_heads),
            rope_cos: filled(zero, half),
            rope_sin: filled(zero, half),
            logits: filled(zero, config.vocab_size),
        }
    }
}

/// A request for a cache is refused for a context of no positions, then for one that is longer than
/// the model allows, then for one whose keys cannot be counted.
pub proof fn cache_requests_are_refused_in_turn<T: Copy>(config: LlamaConfig, positions: usize)
    ensures
        KVCache::<T>::request_fault(config, positions) == Some(CacheError::ZeroContext) <==> positions
            == 0,
        positions > config.max_position_embeddings && positions > 0 ==> KVCache::<T>::request_fault(
            config,
            positions,
        ) == Some(
            CacheError::ContextTooLong {
                requested: positions,
                limit: config.max_position_embeddings,
            },
        ),
        KVCache::<T>::request_fault(config, positions) is None <==> 0 < positions
            <= config.max_position_embeddings && positions * config.kv_size() <= usize::MAX,
{
}

/// Where a cache keeps its keys and values: those of a position of a layer lie together, the
/// positions of a layer follow one another.
pub proof fn positions_follow_one_another<T: Copy>(cache: KVCache<T>, l: int, p: int, i: int)
    requires
        cache.valid(),
        0 <= l < cache.k_cache@.len(),
        0 <= p < cache.max_seq_len,
        0 <= i < cache.kv_width,
    ensures
        cache@.k[l][p].len() == cache.kv_width,
        cache@.v[l][p].len() == cache.kv_width,
        cache@.k[l][p][i] == cache.k_cache@[l]@[p * cache.kv_width + i],
        cache@.v[l][p][i] == cache.v_cache@[l]@[p * cache.kv_width + i],
{
    lemma_position_range(p, cache.kv_width as int, cache.max_seq_len as int);
    assert(cache.k_cache@[l]@.len() == cache.max_seq_len * cache.kv_width);
    assert(cache.v_cache@[l]@.len() == cache.max_seq_len * cache.kv_width);
}

} // verus!
