//! The part of a Qwen2 model configuration that inference needs.

use crate::float::Single;
use vstd::prelude::*;

verus! {

/// Model dimensions and constants.
#[derive(Clone, Copy, Debug, PartialEq, Eq, Structural)]
pub struct LlamaConfig {
    pub hidden_size: usize,
    pub intermediate_size: usize,
    pub num_attention_heads: usize,
    pub num_key_value_heads: usize,
    pub num_hidden_layers: usize,
    pub vocab_size: usize,
    pub rms_norm_eps: Single,
    pub rope_theta: Single,
    pub max_position_embeddings: usize,
    /// Where absent, the hidden size divided by the number of heads.
    pub head_dim: Option<usize>,
    pub tie_word_embeddings: bool,
}

/// What can be wrong with a configuration.
#[derive(Clone, Copy, Debug, PartialEq, Eq, Structural)]
pub enum ConfigError {
    /// A dimension is zero.
    ZeroDimension,
    /// The hidden size is not divisible by the number of heads.
    HiddenSize,
    /// The number of heads is not divisible by the number of key/value heads.
    KeyValueHeads,
    /// The heads together are not as wide as the hidden state.
    HeadDim,
    /// Rotary embeddings need an even head dimension.
    OddHeadDim,
    /// The normalisation constant must be finite and positive.
    RmsNormEps,
    /// The rotary base must be finite and positive.
    RopeTheta,
}

/// The context length where the configuration names none.
pub fn default_max_position_embeddings() -> (n: usize)
    ensures
        n == 32768,
{
    32768
}

/// The normalisation constant where the configuration names none, one millionth.
pub fn default_rms_norm_eps() -> (eps: Single)
    ensures
        eps.bits == 0x3586_37bd,
{
    Single { bits: 0x3586_37bd }
}

/// The rotary base where the configuration names none, ten thousand.
pub fn default_rope_theta() -> (theta: Single)
    ensures
        theta.bits == 0x461c_4000,
{
    Single { bits: 0x461c_4000 }
}

impl LlamaConfig {
    /// The width of one head.
    pub open spec fn head_width(self) -> int {
        match self.head_dim {
            Some(n) => n as int,
            None => self.hidden_size as int / self.num_attention_heads as int,
        }
    }

    /// The width of the keys, and of the values, of one position.
    pub open spec fn kv_size(self) -> int {
        self.num_key_value_heads * self.head_width()
    }

    /// What the configuration is refused for.
    pub open spec fn fault(self) -> Option<ConfigError> {
        if self.hidden_size == 0 || self.intermediate_size == 0 || self.num_attention_heads == 0
            || self.num_key_value_heads == 0 || self.num_hidden_layers == 0 || self.vocab_size == 0 {
            Some(ConfigError::ZeroDimension)
        } else if self.hidden_size as int % self.num_attention_heads as int != 0
            && self.head_dim is None {
            Some(ConfigError::HiddenSize)
        } else if self.num_attention_heads as int % self.num_key_value_heads as int != 0 {
            Some(ConfigError::KeyValueHeads)
        } else if self.num_attention_heads * self.head_width() != self.hidden_size {
            Some(ConfigError::HeadDim)
        } else if self.head_width() % 2 != 0 {
            Some(ConfigError::OddHeadDim)
        } else if !self.rms_norm_eps.positive() {
            Some(ConfigError::RmsNormEps)
        } else if !self.rope_theta.positive() {
            Some(ConfigError::RopeTheta)
        } else {
            None
        }
    }

    /// The configuration can be used.
    pub open spec fn valid(self) -> bool {
        self.fault() is None
    }

    /// The width of one head.
    pub fn head_dim(&self) -> (n: usize)
        requires
            self.num_attention_heads > 0,
        ensures
            n == self.head_width(),
    {
        match self.head_dim {
            Some(n) => n,
            None => self.hidden_size / self.num_attention_heads,
        }
    }

    /// The width of the keys, and of the values, of one position.
    pub fn kv_width(&self) -> (n: usize)
        requires
            self.num_attention_heads > 0,
            self.kv_size() <= usize::MAX,
        ensures
            n == self.kv_size(),
    {
        self.num_key_value_heads * self.head_dim()
    }

    /// Checks that the dimensions belong together.
    pub fn validate(&self) -> (result: Result<(), ConfigError>)
        ensures
            result == (match self.fault() {
                Some(e) => Err::<(), ConfigError>(e),
                None => Ok::<(), ConfigError>(()),
            }),
    {
        if self.hidden_size == 0 || self.intermediate_size == 0 || self.num_attention_heads == 0
            || self.num_key_value_heads == 0 || self.num_hidden_layers == 0 || self.vocab_size == 0 {
            return Err(ConfigError::ZeroDimension);
        }
        if self.hidden_size % self.num_attention_heads != 0 && self.head_dim.is_none() {
            return Err(ConfigError::HiddenSize);
        }
        if self.num_attention_heads % self.num_key_value_heads != 0 {
            return Err(ConfigError::KeyValueHeads);
        }
        let head_dim: usize = self.head_dim();
        let wide: bool = match self.num_attention_heads.checked_mul(head_dim) {
            Some(width) => width == self.hidden_size,
            None => false,
        };
        if !wide {
            return Err(ConfigError::HeadDim);
        }
        if head_dim % 2 != 0 {
            return Err(ConfigError::OddHeadDim);
        }
        if !self.rms_norm_eps.is_positive_finite() {
            return Err(ConfigError::RmsNormEps);
        }
        if !self.rope_theta.is_positive_finite() {
            return Err(ConfigError::RopeTheta);
        }
        Ok(())
    }
}

/// In a valid configuration the heads fill the hidden state, every group of attention heads shares
/// one key/value head, and the keys are no wider than the hidden state.
pub proof fn valid_heads_fit(config: LlamaConfig)
    requires
        config.valid(),
    ensures
        config.num_attention_heads * config.head_width() == config.hidden_size,
        0 < config.head_width() <= config.hidden_size,
        0 < config.kv_size() <= config.hidden_size,
        0 < config.num_attention_heads as int / config.num_key_value_heads as int,
        forall|head: int|
            0 <= head < config.num_attention_heads ==> 0 <= #[trigger] kv_head_of(config, head)
                < config.num_key_value_heads,
{
    let heads = config.num_attention_heads as int;
    let kv = config.num_key_value_heads as int;
    let w = config.head_width();
    let groups = heads / kv;
    assert(heads == kv * groups) by (nonlinear_arith)
        requires
            groups == heads / kv,
            heads % kv == 0,
            kv > 0,
    ;
    assert(groups > 0) by (nonlinear_arith)
        requires
            heads == kv * groups,
            heads > 0,
            kv > 0,
    ;
    assert(w > 0) by (nonlinear_arith)
        requires
            heads * w == config.hidden_size,
            config.hidden_size > 0,
            heads > 0,
    ;
    assert(kv * w <= heads * w && 0 < kv * w && w <= heads * w) by (nonlinear_arith)
        requires
            heads == kv * groups,
            groups > 0,
            kv > 0,
            w > 0,
    ;
    assert forall|head: int| 0 <= head < heads implies 0 <= #[trigger] kv_head_of(config, head)
        < kv by {
        assert(0 <= head / groups < kv) by (nonlinear_arith)
            requires
                0 <= head < kv * groups,
                groups > 0,
        ;
    }
}

/// The key/value head that an attention head reads.
pub open spec fn kv_head_of(config: LlamaConfig, head: int) -> int {
    head / (config.num_attention_heads as int / config.num_key_value_heads as int)
}

/// What a configuration must satisfy: no dimension is zero, the attention heads fill the hidden
/// state and divide evenly among the key/value heads, a head has an even width, and the two
/// constants are finite and above zero.
#[verifier::spinoff_prover]
#[verifier::rlimit(40)]
pub proof fn valid_configurations_are_these(config: LlamaConfig)
    ensures
        config.fault() is None <==> {
            let width = match config.head_dim {
                Some(n) => n as int,
                None => config.hidden_size as int / config.num_attention_heads as int,
            };
            &&& config.hidden_size > 0
            &&& config.intermediate_size > 0
            &&& config.num_attention_heads > 0
            &&& config.num_key_value_heads > 0
            &&& config.num_hidden_layers > 0
            &&& config.vocab_size > 0
            &&& config.num_attention_heads as int % config.num_key_value_heads as int == 0
            &&& config.num_attention_heads * width == config.hidden_size
            &&& width % 2 == 0
            &&& 0 < config.rms_norm_eps.bits < 0x7f80_0000
            &&& 0 < config.rope_theta.bits < 0x7f80_0000
        },
        config.hidden_size == 0 || config.intermediate_size == 0 || config.num_attention_heads == 0
            || config.num_key_value_heads == 0 || config.num_hidden_layers == 0 || config.vocab_size
            == 0 <==> config.fault() == Some(ConfigError::ZeroDimension),
        config.fault() == Some(ConfigError::HiddenSize) ==> config.head_dim is None
            && config.hidden_size as int % config.num_attention_heads as int != 0,
        config.fault() == Some(ConfigError::KeyValueHeads) ==> config.num_attention_heads as int
            % config.num_key_value_heads as int != 0,
        config.fault() == Some(ConfigError::HeadDim) ==> config.num_attention_heads
            * config.head_width() != config.hidden_size,
        config.fault() == Some(ConfigError::OddHeadDim) ==> config.head_width() % 2 == 1,
        config.fault() == Some(ConfigError::RmsNormEps) ==> !(0 < config.rms_norm_eps.bits
            < 0x7f80_0000),
        config.fault() == Some(ConfigError::RopeTheta) ==> !(0 < config.rope_theta.bits
            < 0x7f80_0000),
{
    if config.num_attention_heads > 0 && config.head_dim is None {
        let h = config.hidden_size as int;
        let n = config.num_attention_heads as int;
        vstd::arithmetic::div_mod::lemma_fundamental_div_mod(h, n);
    }
}

/// The attention heads share the key/value heads in groups: as many neighbouring heads as there are
/// attention heads for each key/value head read the same one.
pub proof fn heads_share_in_groups(config: LlamaConfig, head: int)
    requires
        config.valid(),
        0 <= head < config.num_attention_heads,
    ensures
        ({
            let group = config.num_attention_heads as int / config.num_key_value_heads as int;
            kv_head_of(config, head) * group <= head < kv_head_of(config, head) * group + group
        }),
        config.kv_size() * config.num_attention_heads == config.hidden_size
            * config.num_key_value_heads,
{
    valid_heads_fit(config);
    let group = config.num_attention_heads as int / config.num_key_value_heads as int;
    vstd::arithmetic::div_mod::lemma_fundamental_div_mod(head, group);
    let q = head / group;
    assert(group * q == q * group) by (nonlinear_arith);
    let (k, w, n) = (
        config.num_key_value_heads as int,
        config.head_width(),
        config.num_attention_heads as int,
    );
    assert((k * w) * n == (n * w) * k) by (nonlinear_arith);
}

} // verus!
