//! Loading a model: formats, configuration, weights and load-time quantization.

use crate::architecture::{ArchitectureKind};
use crate::backend::{BackendConfig, KernelBackend, KernelPreference};
use crate::config;
use crate::config::LlamaConfig;
use crate::float::Single;
use crate::gguf::{GgufError, GgufFault, GgufFile, GgufView, MetadataNumber, MetadataView};
use crate::model::{LinearLayer, LlamaModel, Qwen2Model, RMSNorm, TransformerBlock};
use crate::pack::BlockCodes;
use crate::quant;
use crate::quant::{ElementCode, QuantError, QuantTensor, QuantType};
use crate::store::{load_error, LoadError, LoadFault, SafetensorStore, Stored, Weights};
use crate::text;
use vstd::prelude::*;
use vstd::string::*;

verus! {

/// What is done to weights that are not quantized in the file.
#[derive(Clone, Copy, Debug, PartialEq, Eq, Structural)]
pub enum LoadQuantization {
    /// They stay as they are.
    Keep,
    /// Uniform Q4_K, with Q5_0 for rows that it does not fit.
    Q4K,
    /// A mixture that favours quality: Q8_0 for the embeddings, the head and the value projections,
    /// Q6_K for the down projections, Q4_K elsewhere.
    Q4KM,
}

impl Default for LoadQuantization {
    fn default() -> (quantization: LoadQuantization)
        ensures
            quantization == LoadQuantization::Keep,
    {
        LoadQuantization::Keep
    }
}

/// The quantization that a name in small letters means.
pub open spec fn quantization_named(name: Seq<char>) -> Option<LoadQuantization> {
    if name == "none"@ {
        Some(LoadQuantization::Keep)
    } else if name == "q4k"@ || name == "q4_k"@ {
        Some(LoadQuantization::Q4K)
    } else if name == "q4km"@ || name == "q4_k_m"@ {
        Some(LoadQuantization::Q4KM)
    } else {
        None
    }
}

impl LoadQuantization {
    /// The quantization that a name means, whatever the case of its letters.
    pub fn parse(value: &str) -> (r: Option<LoadQuantization>)
        ensures
            r == quantization_named(text::lower(value@)),
    {
        let name = text::ascii_lowercase(value);
        if text::equals(name.as_str(), "none") {
            Some(LoadQuantization::Keep)
        } else if text::equals(name.as_str(), "q4k") || text::equals(name.as_str(), "q4_k") {
            Some(LoadQuantization::Q4K)
        } else if text::equals(name.as_str(), "q4km") || text::equals(name.as_str(), "q4_k_m") {
            Some(LoadQuantization::Q4KM)
        } else {
            None
        }
    }
}

/// How a model is loaded.
#[derive(Clone, Copy, Debug, PartialEq, Eq, Structural)]
pub struct LoadOptions {
    pub quantization: LoadQuantization,
    pub backend: BackendConfig,
}

impl Default for LoadOptions {
    fn default() -> (options: LoadOptions)
        ensures
            options.quantization == LoadQuantization::Keep,
            options.backend == (BackendConfig {
                threads: 0,
                kernel: KernelPreference::Auto,
                parallel_threshold: 131072,
                integer_activations: true,
            }),
    {
        LoadOptions { quantization: LoadQuantization::Keep, backend: BackendConfig::default() }
    }
}

/// The quantizer that is applied to a matrix.
#[derive(Clone, Copy, Debug, PartialEq, Eq, Structural)]
pub enum Recipe {
    Q4K,
    Q8_0,
    Q6K,
}

impl Recipe {
    /// The format that the quantizer gives rows of `cols` columns.
    pub open spec fn format(self, cols: int) -> QuantType {
        match self {
            Recipe::Q4K => quant::q4k_format(cols),
            Recipe::Q8_0 => quant::q8_0_format(cols),
            Recipe::Q6K => quant::q6k_format(cols),
        }
    }
}

/// The weights that a mixed quantization keeps at eight bits: embeddings, head and value
/// projections.
pub open spec fn keeps_eight_bits(name: Seq<char>) -> bool {
    ||| text::occurs(name, "embed_tokens"@)
    ||| name == "token_embd.weight"@
    ||| name == "lm_head.weight"@
    ||| name == "output.weight"@
    ||| text::occurs(name, "attn.v_proj.weight"@)
    ||| text::occurs(name, "attn_v.weight"@)
}

/// The weights that a mixed quantization keeps at six bits: down projections.
pub open spec fn keeps_six_bits(name: Seq<char>) -> bool {
    text::occurs(name, "mlp.down_proj.weight"@) || text::occurs(name, "ffn_down.weight"@)
}

/// The quantizer for a tensor, where it is to be quantized at all: only matrices that the file holds
/// as plain numbers are.
pub open spec fn recipe_for(
    quantization: LoadQuantization,
    name: Seq<char>,
    rank: int,
    ty: QuantType,
) -> Option<Recipe> {
    if quantization == LoadQuantization::Keep || rank != 2 || !(ty == QuantType::F32 || ty
        == QuantType::F16 || ty == QuantType::BF16) {
        None
    } else if quantization == LoadQuantization::Q4K {
        Some(Recipe::Q4K)
    } else if keeps_eight_bits(name) {
        Some(Recipe::Q8_0)
    } else if keeps_six_bits(name) {
        Some(Recipe::Q6K)
    } else {
        Some(Recipe::Q4K)
    }
}

/// Chooses the quantizer for a tensor.
pub fn choose_recipe(quantization: LoadQuantization, name: &str, rank: usize, ty: QuantType) -> (r:
    Option<Recipe>)
    ensures
        r == recipe_for(quantization, name@, rank as int, ty),
{
    let plain: bool = matches!(ty, QuantType::F32 | QuantType::F16 | QuantType::BF16);
    if rank != 2 || !plain {
        return None;
    }
    match quantization {
        LoadQuantization::Keep => None,
        LoadQuantization::Q4K => Some(Recipe::Q4K),
        LoadQuantization::Q4KM => {
            if text::contains(name, "embed_tokens") || text::equals(name, "token_embd.weight")
                || text::equals(name, "lm_head.weight") || text::equals(name, "output.weight")
                || text::contains(name, "attn.v_proj.weight") || text::contains(
                name,
                "attn_v.weight",
            ) {
                Some(Recipe::Q8_0)
            } else if text::contains(name, "mlp.down_proj.weight") || text::contains(
                name,
                "ffn_down.weight",
            ) {
                Some(Recipe::Q6K)
            } else {
                Some(Recipe::Q4K)
            }
        },
    }
}

/// A tensor that the file holds quantized is never quantized again, and no tensor is without a
/// request.
pub proof fn quantized_tensors_are_kept(
    quantization: LoadQuantization,
    name: Seq<char>,
    rank: int,
    ty: QuantType,
)
    ensures
        ty.block_len() > 1 ==> recipe_for(quantization, name, rank, ty) is None,
        recipe_for(LoadQuantization::Keep, name, rank, ty) is None,
{
}

/// The values of a stored tensor, row after row.
pub open spec fn values_of<T: Copy, B: KernelBackend<T>>(backend: B, stored: Stored) -> Seq<T> {
    let cols = quant::shape_cols(stored.shape);
    Seq::new(
        (quant::shape_rows(stored.shape) * cols) as nat,
        |i: int| backend.decoded(stored.code(i / cols, i % cols)),
    )
}

/// The tensor is what loading makes of a stored one: the stored one itself, or its values in the
/// format of its quantizer.
pub open spec fn loaded<'a, T: Copy, B: KernelBackend<T>, F: Fn(QuantType, &[T]) -> BlockCodes>(
    backend: B,
    encode: F,
    quantization: LoadQuantization,
    name: Seq<char>,
    stored: Stored,
    tensor: QuantTensor<'a>,
) -> bool {
    match recipe_for(quantization, name, stored.shape.len() as int, stored.quant_type) {
        None => stored.held_by(tensor),
        Some(recipe) => {
            &&& tensor.shape@ == stored.shape
            &&& quant::encoded(
                encode,
                recipe.format(quant::shape_cols(stored.shape)),
                values_of(backend, stored),
                tensor,
            )
        },
    }
}

/// Decodes a tensor.
fn decode_all<'a, T: Copy, B: KernelBackend<T>>(tensor: &QuantTensor<'a>, backend: &B, Ghost(
    stored,
): Ghost<Stored>) -> (values: Vec<T>)
    requires
        tensor.valid(),
        stored.held_by(*tensor),
        tensor.n_cols() > 0,
    ensures
        values@ == values_of(*backend, stored),
{
    let decode = |code: ElementCode| -> (value: T)
        ensures
            value == backend.decoded(code),
        { backend.decode(code) };
    let values = tensor.to_vec_f32(&decode);
    proof {
        let cols = tensor.n_cols();
        let rows = tensor.n_rows();
        let wanted = values_of(*backend, stored);
        assert(values@.len() == wanted.len());
        assert forall|i: int| 0 <= i < values@.len() implies values@[i] == wanted[i] by {
            let row = i / cols;
            let col = i % cols;
            assert(0 <= row < rows && 0 <= col < cols && i == row * cols + col) by (nonlinear_arith)
                requires
                    row == i / cols,
                    col == i % cols,
                    0 <= i < rows * cols,
                    cols > 0,
            ;
            assert(call_ensures(decode, (tensor.code(row, col),), values@[row * cols + col]));
            assert(tensor.code(row, col) == stored.code(row, col));
        }
        assert(values@ =~= wanted);
    }
    values
}

/// Quantizes a tensor where the options ask for it.
pub fn maybe_quantize<'a, T: Copy, B: KernelBackend<T>, F: Fn(QuantType, &[T]) -> BlockCodes>(
    tensor: QuantTensor<'a>,
    quantization: LoadQuantization,
    name: &str,
    backend: &B,
    encode: &F,
) -> (result: Result<QuantTensor<'a>, QuantError>)
    requires
        tensor.valid(),
        recipe_for(quantization, name@, tensor.shape@.len() as int, tensor.quant_type) is Some
            ==> tensor.n_cols() > 0,
        quant::encoder(*encode),
    ensures
        result is Ok,
        result->Ok_0.valid(),
        result->Ok_0.shape@ == tensor.shape@,
        loaded(
            *backend,
            *encode,
            quantization,
            name@,
            (Stored {
                shape: tensor.shape@,
                quant_type: tensor.quant_type,
                data: tensor.data.contents(),
            }),
            result->Ok_0,
        ),
{
    let ghost stored = Stored {
        shape: tensor.shape@,
        quant_type: tensor.quant_type,
        data: tensor.data.contents(),
    };
    let recipe = match choose_recipe(quantization, name, tensor.shape.len(), tensor.quant_type) {
        None => return Ok(tensor),
        Some(recipe) => recipe,
    };
    let rows: usize = tensor.rows();
    let cols: usize = tensor.cols();
    let values = decode_all(&tensor, backend, Ghost(stored));
    assert(tensor.shape@ =~= seq![rows, cols]);
    match recipe {
        Recipe::Q4K => QuantTensor::quantize_q4k(values.as_slice(), rows, cols, encode),
        Recipe::Q8_0 => QuantTensor::quantize_q8_0(values.as_slice(), rows, cols, encode),
        Recipe::Q6K => QuantTensor::quantize_q6k(values.as_slice(), rows, cols, encode),
    }
}

/// A fault with the name that it is about.
pub type Fault = (LoadFault, Seq<char>);

/// The first of two faults.
pub open spec fn first(a: Option<Fault>, b: Option<Fault>) -> Option<Fault> {
    if a is Some {
        a
    } else {
        b
    }
}

/// What is wrong with a tensor that should have the given shape.
pub open spec fn shape_fault<'a>(
    weights: Weights<'a>,
    name: Seq<char>,
    shape: Seq<usize>,
    fault: LoadFault,
) -> Option<Fault> {
    match weights.found(name) {
        Err(e) => Some(e),
        Ok(stored) => if stored.shape == shape {
            None
        } else {
            Some((fault, name))
        },
    }
}

/// What is wrong with a tensor that should be a matrix.
pub open spec fn matrix_fault<'a>(
    weights: Weights<'a>,
    name: Seq<char>,
    rows: usize,
    cols: usize,
) -> Option<Fault> {
    shape_fault(weights, name, seq![rows, cols], LoadFault::MatrixShape { rows, cols })
}

/// What is wrong with a tensor that should be a vector.
pub open spec fn vector_fault<'a>(weights: Weights<'a>, name: Seq<char>, len: usize) -> Option<
    Fault,
> {
    shape_fault(weights, name, seq![len], LoadFault::VectorShape { len })
}

/// What is wrong with a vector that may be missing.
pub open spec fn optional_fault<'a>(weights: Weights<'a>, name: Seq<char>, len: usize) -> Option<
    Fault,
> {
    if weights.has(name) {
        vector_fault(weights, name, len)
    } else {
        None
    }
}

/// Checks that a tensor is a matrix of the given shape.
fn check_matrix<'a>(tensor: &QuantTensor<'a>, name: &str, rows: usize, cols: usize) -> (result: Result<
    (),
    LoadError,
>)
    ensures
        if tensor.shape@ == seq![rows, cols] {
            result is Ok
        } else {
            result is Err && result->Err_0@ == (LoadFault::MatrixShape { rows, cols }, name@)
        },
{
    if tensor.shape.len() == 2 && tensor.shape[0] == rows && tensor.shape[1] == cols {
        assert(tensor.shape@ =~= seq![rows, cols]);
        Ok(())
    } else {
        Err(load_error(LoadFault::MatrixShape { rows, cols }, name))
    }
}

/// Loads a matrix.
pub fn load_matrix<'a, T: Copy, B: KernelBackend<T>, F: Fn(QuantType, &[T]) -> BlockCodes>(
    weights: &Weights<'a>,
    name: &str,
    rows: usize,
    cols: usize,
    quantization: LoadQuantization,
    backend: &B,
    encode: &F,
) -> (result: Result<QuantTensor<'a>, LoadError>)
    requires
        weights.ready(),
        cols > 0,
        quant::encoder(*encode),
    ensures
        match matrix_fault(*weights, name@, rows, cols) {
            Some(e) => result is Err && result->Err_0@ == e,
            None => {
                &&& result is Ok
                &&& result->Ok_0.valid()
                &&& result->Ok_0.shape@ == seq![rows, cols]
                &&& loaded(
                    *backend,
                    *encode,
                    quantization,
                    name@,
                    weights.found(name@)->Ok_0,
                    result->Ok_0,
                )
            },
        },
{
    let tensor = match weights.tensor(name) {
        Ok(tensor) => tensor,
        Err(e) => return Err(e),
    };
    match check_matrix(&tensor, name, rows, cols) {
        Ok(()) => {},
        Err(e) => return Err(e),
    }
    match maybe_quantize(tensor, quantization, name, backend, encode) {
        Ok(tensor) => Ok(tensor),
        Err(error) => Err(load_error(LoadFault::Tensor { error }, name)),
    }
}

/// Loads a vector and decodes it.
pub fn load_vector<'a, T: Copy, B: KernelBackend<T>>(
    weights: &Weights<'a>,
    name: &str,
    len: usize,
    backend: &B,
) -> (result: Result<Vec<T>, LoadError>)
    requires
        weights.ready(),
        len > 0,
    ensures
        match vector_fault(*weights, name@, len) {
            Some(e) => result is Err && result->Err_0@ == e,
            None => {
                &&& result is Ok
                &&& result->Ok_0@.len() == len
                &&& result->Ok_0@ == values_of(*backend, weights.found(name@)->Ok_0)
            },
        },
{
    let tensor = match weights.tensor(name) {
        Ok(tensor) => tensor,
        Err(e) => return Err(e),
    };
    if tensor.shape.len() != 1 || tensor.shape[0] != len {
        assert(tensor.shape@ != seq![len]);
        return Err(load_error(LoadFault::VectorShape { len }, name));
    }
    assert(tensor.shape@ =~= seq![len]);
    assert(1 * len as int == len);
    Ok(decode_all(&tensor, backend, Ghost(weights.found(name@)->Ok_0)))
}

/// A bias: the stored vector, or zeros where there is none.
pub open spec fn bias_of<'a, T: Copy, B: KernelBackend<T>>(
    backend: B,
    weights: Weights<'a>,
    name: Seq<char>,
    len: usize,
) -> Seq<T> {
    if weights.has(name) {
        values_of(backend, weights.found(name)->Ok_0)
    } else {
        Seq::new(len as nat, |i: int| backend.zero_value())
    }
}

/// What is wrong with the tensors of a linear layer.
pub open spec fn linear_fault<'a>(
    weights: Weights<'a>,
    name: Seq<char>,
    bias: Option<Seq<char>>,
    rows: usize,
    cols: usize,
) -> Option<Fault> {
    first(
        matrix_fault(weights, name, rows, cols),
        match bias {
            Some(bias) => optional_fault(weights, bias, rows),
            None => None,
        },
    )
}

/// The layer is what loading makes of its tensors.
pub open spec fn linear_loaded<
    'a,
    T: Copy,
    B: KernelBackend<T>,
    F: Fn(QuantType, &[T]) -> BlockCodes,
>(
    backend: B,
    encode: F,
    quantization: LoadQuantization,
    weights: Weights<'a>,
    name: Seq<char>,
    bias: Option<Seq<char>>,
    layer: LinearLayer<'a, T>,
) -> bool {
    &&& loaded(backend, encode, quantization, name, weights.found(name)->Ok_0, layer.weight)
    &&& match bias {
        Some(bias) => layer.bias is Some && layer.bias->0@ == bias_of(
            backend,
            weights,
            bias,
            layer.out_features,
        ),
        None => layer.bias is None,
    }
}

/// The view of a name that may be missing.
pub open spec fn name_view(name: Option<String>) -> Option<Seq<char>> {
    match name {
        Some(name) => Some(name@),
        None => None,
    }
}

/// Loads a linear layer.
pub fn load_linear<'a, T: Copy, B: KernelBackend<T>, F: Fn(QuantType, &[T]) -> BlockCodes>(
    weights: &Weights<'a>,
    name: &str,
    bias_name: Option<String>,
    rows: usize,
    cols: usize,
    quantization: LoadQuantization,
    backend: &B,
    encode: &F,
) -> (result: Result<LinearLayer<'a, T>, LoadError>)
    requires
        weights.ready(),
        rows > 0,
        cols > 0,
        quant::encoder(*encode),
    ensures
        match linear_fault(*weights, name@, name_view(bias_name), rows, cols) {
            Some(e) => result is Err && result->Err_0@ == e,
            None => {
                &&& result is Ok
                &&& result->Ok_0.sized(rows as int, cols as int)
                &&& linear_loaded(
                    *backend,
                    *encode,
                    quantization,
                    *weights,
                    name@,
                    name_view(bias_name),
                    result->Ok_0,
                )
            },
        },
{
    let weight = match load_matrix(weights, name, rows, cols, quantization, backend, encode) {
        Ok(weight) => weight,
        Err(e) => return Err(e),
    };
    let bias: Option<Vec<T>> = match &bias_name {
        None => None,
        Some(bias_name) => {
            if weights.contains(bias_name.as_str()) {
                match load_vector(weights, bias_name.as_str(), rows, backend) {
                    Ok(values) => Some(values),
                    Err(e) => return Err(e),
                }
            } else {
                Some(zeros(rows, backend))
            }
        },
    };
    match LinearLayer::new(weight, bias) {
        Ok(layer) => Ok(layer),
        Err(_) => Err(load_error(LoadFault::MatrixShape { rows, cols }, name)),
    }
}

/// A vector of zeros.
fn zeros<T: Copy, B: KernelBackend<T>>(len: usize, backend: &B) -> (values: Vec<T>)
    ensures
        values@ == Seq::new(len as nat, |i: int| backend.zero_value()),
{
    let mut values: Vec<T> = Vec::new();
    for k in 0..len
        invariant
            values@ == Seq::new(k as nat, |i: int| backend.zero_value()),
    {
        values.push(backend.zero());
        assert(values@ =~= Seq::new((k + 1) as nat, |i: int| backend.zero_value()));
    }
    values
}

/// Loads a normalisation.
pub fn load_norm<'a, T: Copy, B: KernelBackend<T>>(
    weights: &Weights<'a>,
    name: &str,
    len: usize,
    eps: Single,
    backend: &B,
) -> (result: Result<RMSNorm<T>, LoadError>)
    requires
        weights.ready(),
        len > 0,
        eps.positive(),
    ensures
        match vector_fault(*weights, name@, len) {
            Some(e) => result is Err && result->Err_0@ == e,
            None => {
                &&& result is Ok
                &&& result->Ok_0.weight@.len() == len
                &&& result->Ok_0.weight@ == values_of(*backend, weights.found(name@)->Ok_0)
                &&& result->Ok_0.eps == eps
            },
        },
{
    let values = match load_vector(weights, name, len, backend) {
        Ok(values) => values,
        Err(e) => return Err(e),
    };
    match RMSNorm::new(values, eps) {
        Ok(norm) => Ok(norm),
        Err(_) => Err(load_error(LoadFault::VectorShape { len }, name)),
    }
}

/// The tensors of a layer.
#[derive(Clone, Copy, Debug, PartialEq, Eq, Structural)]
pub enum LayerPart {
    /// The normalisation before the attention.
    InputNorm,
    /// The query projection.
    Query,
    /// The bias of the query projection.
    QueryBias,
    /// The key projection.
    Key,
    /// The bias of the key projection.
    KeyBias,
    /// The value projection.
    Value,
    /// The bias of the value projection.
    ValueBias,
    /// The output projection of the attention.
    Output,
    /// The normalisation before the feed-forward part.
    PostNorm,
    /// The projection of the gating values.
    Gate,
    /// The up projection.
    Up,
    /// The down projection.
    Down,
}

/// How the tensors of a model are named, and in which order they are looked up.
#[derive(Clone, Copy, Debug, PartialEq, Eq, Structural)]
pub enum Naming {
    Gguf,
    HuggingFace,
}

impl Naming {
    /// The name of the token embeddings.
    pub open spec fn embedding(self) -> Seq<char> {
        match self {
            Naming::Gguf => "token_embd.weight"@,
            Naming::HuggingFace => "model.embed_tokens.weight"@,
        }
    }

    /// The name of the last normalisation.
    pub open spec fn norm(self) -> Seq<char> {
        match self {
            Naming::Gguf => "output_norm.weight"@,
            Naming::HuggingFace => "model.norm.weight"@,
        }
    }

    /// The name of the projection to the vocabulary.
    pub open spec fn head(self) -> Seq<char> {
        match self {
            Naming::Gguf => "output.weight"@,
            Naming::HuggingFace => "lm_head.weight"@,
        }
    }

    /// What the names of a layer's tensors start with, before the number of the layer.
    pub open spec fn prefix(self) -> Seq<char> {
        match self {
            Naming::Gguf => "blk."@,
            Naming::HuggingFace => "model.layers."@,
        }
    }

    /// What the name of a layer's tensor ends with, after the number of the layer.
    pub open spec fn suffix(self, part: LayerPart) -> Seq<char> {
        match self {
            Naming::Gguf => match part {
                LayerPart::InputNorm => ".attn_norm.weight"@,
                LayerPart::Query => ".attn_q.weight"@,
                LayerPart::QueryBias => ".attn_q.bias"@,
                LayerPart::Key => ".attn_k.weight"@,
                LayerPart::KeyBias => ".attn_k.bias"@,
                LayerPart::Value => ".attn_v.weight"@,
                LayerPart::ValueBias => ".attn_v.bias"@,
                LayerPart::Output => ".attn_output.weight"@,
                LayerPart::PostNorm => ".ffn_norm.weight"@,
                LayerPart::Gate => ".ffn_gate.weight"@,
                LayerPart::Up => ".ffn_up.weight"@,
                LayerPart::Down => ".ffn_down.weight"@,
            },
            Naming::HuggingFace => match part {
                LayerPart::InputNorm => ".input_layernorm.weight"@,
                LayerPart::Query => ".self_attn.q_proj.weight"@,
                LayerPart::QueryBias => ".self_attn.q_proj.bias"@,
                LayerPart::Key => ".self_attn.k_proj.weight"@,
                LayerPart::KeyBias => ".self_attn.k_proj.bias"@,
                LayerPart::Value => ".self_attn.v_proj.weight"@,
                LayerPart::ValueBias => ".self_attn.v_proj.bias"@,
                LayerPart::Output => ".self_attn.o_proj.weight"@,
                LayerPart::PostNorm => ".post_attention_layernorm.weight"@,
                LayerPart::Gate => ".mlp.gate_proj.weight"@,
                LayerPart::Up => ".mlp.up_proj.weight"@,
                LayerPart::Down => ".mlp.down_proj.weight"@,
            },
        }
    }

    /// The name of a layer's tensor.
    pub open spec fn part(self, layer: int, part: LayerPart) -> Seq<char> {
        self.prefix() + text::decimal(layer as nat) + self.suffix(part)
    }

    /// The name of the token embeddings.
    fn embedding_name(self) -> (name: &'static str)
        ensures
            name@ == self.embedding(),
    {
        match self {
            Naming::Gguf => "token_embd.weight",
            Naming::HuggingFace => "model.embed_tokens.weight",
        }
    }

    /// The name of the last normalisation.
    fn norm_name(self) -> (name: &'static str)
        ensures
            name@ == self.norm(),
    {
        match self {
            Naming::Gguf => "output_norm.weight",
            Naming::HuggingFace => "model.norm.weight",
        }
    }

    /// The name of the projection to the vocabulary.
    fn head_name(self) -> (name: &'static str)
        ensures
            name@ == self.head(),
    {
        match self {
            Naming::Gguf => "output.weight",
            Naming::HuggingFace => "lm_head.weight",
        }
    }

    /// What the name of a layer's tensor ends with.
    fn part_suffix(self, part: LayerPart) -> (name: &'static str)
        ensures
            name@ == self.suffix(part),
    {
        match self {
            Naming::Gguf => match part {
                LayerPart::InputNorm => ".attn_norm.weight",
                LayerPart::Query => ".attn_q.weight",
                LayerPart::QueryBias => ".attn_q.bias",
                LayerPart::Key => ".attn_k.weight",
                LayerPart::KeyBias => ".attn_k.bias",
                LayerPart::Value => ".attn_v.weight",
                LayerPart::ValueBias => ".attn_v.bias",
                LayerPart::Output => ".attn_output.weight",
                LayerPart::PostNorm => ".ffn_norm.weight",
                LayerPart::Gate => ".ffn_gate.weight",
                LayerPart::Up => ".ffn_up.weight",
                LayerPart::Down => ".ffn_down.weight",
            },
            Naming::HuggingFace => match part {
                LayerPart::InputNorm => ".input_layernorm.weight",
                LayerPart::Query => ".self_attn.q_proj.weight",
                LayerPart::QueryBias => ".self_attn.q_proj.bias",
                LayerPart::Key => ".self_attn.k_proj.weight",
                LayerPart::KeyBias => ".self_attn.k_proj.bias",
                LayerPart::Value => ".self_attn.v_proj.weight",
                LayerPart::ValueBias => ".self_attn.v_proj.bias",
                LayerPart::Output => ".self_attn.o_proj.weight",
                LayerPart::PostNorm => ".post_attention_layernorm.weight",
                LayerPart::Gate => ".mlp.gate_proj.weight",
                LayerPart::Up => ".mlp.up_proj.weight",
                LayerPart::Down => ".mlp.down_proj.weight",
            },
        }
    }

    /// The name of a layer's tensor.
    pub fn part_name(self, layer: usize, part: LayerPart) -> (name: String)
        ensures
            name@ == self.part(layer as int, part),
    {
        let mut name = String::new();
        match self {
            Naming::Gguf => name.append("blk."),
            Naming::HuggingFace => name.append("model.layers."),
        }
        text::push_decimal(&mut name, layer as u64);
        name.append(self.part_suffix(part));
        assert(name@ =~= self.part(layer as int, part));
        name
    }
}

/// What is wrong with a linear layer of layer `i`.
pub open spec fn part_fault<'a>(
    weights: Weights<'a>,
    naming: Naming,
    i: int,
    part: LayerPart,
    bias: Option<LayerPart>,
    rows: usize,
    cols: usize,
) -> Option<Fault> {
    linear_fault(weights, naming.part(i, part), bias_name(naming, i, bias), rows, cols)
}

/// The name of a bias of layer `i`.
pub open spec fn bias_name(naming: Naming, i: int, bias: Option<LayerPart>) -> Option<Seq<char>> {
    match bias {
        Some(bias) => Some(naming.part(i, bias)),
        None => None,
    }
}

/// What is wrong with the attention of layer `i`.
pub open spec fn attention_fault<'a>(
    weights: Weights<'a>,
    naming: Naming,
    config: LlamaConfig,
    i: int,
) -> Option<Fault> {
    let hidden = config.hidden_size;
    let kv = config.kv_size() as usize;
    first(
        part_fault(weights, naming, i, LayerPart::Query, Some(LayerPart::QueryBias), hidden, hidden),
        first(
            part_fault(weights, naming, i, LayerPart::Key, Some(LayerPart::KeyBias), kv, hidden),
            first(
                part_fault(weights, naming, i, LayerPart::Value, Some(LayerPart::ValueBias), kv, hidden),
                part_fault(weights, naming, i, LayerPart::Output, None, hidden, hidden),
            ),
        ),
    )
}

/// What is wrong with the feed-forward part of layer `i`.
pub open spec fn mlp_fault<'a>(
    weights: Weights<'a>,
    naming: Naming,
    config: LlamaConfig,
    i: int,
) -> Option<Fault> {
    let hidden = config.hidden_size;
    let inner = config.intermediate_size;
    first(
        part_fault(weights, naming, i, LayerPart::Gate, None, inner, hidden),
        first(
            part_fault(weights, naming, i, LayerPart::Up, None, inner, hidden),
            part_fault(weights, naming, i, LayerPart::Down, None, hidden, inner),
        ),
    )
}

/// What is wrong with layer `i`, the first that is met.
pub open spec fn layer_fault<'a>(
    weights: Weights<'a>,
    naming: Naming,
    config: LlamaConfig,
    i: int,
) -> Option<Fault> {
    let hidden = config.hidden_size;
    let input_norm = vector_fault(weights, naming.part(i, LayerPart::InputNorm), hidden);
    let post_norm = vector_fault(weights, naming.part(i, LayerPart::PostNorm), hidden);
    let attention = attention_fault(weights, naming, config, i);
    let mlp = mlp_fault(weights, naming, config, i);
    match naming {
        Naming::HuggingFace => first(input_norm, first(post_norm, first(attention, mlp))),
        Naming::Gguf => first(input_norm, first(attention, first(post_norm, mlp))),
    }
}

/// What is wrong with the first of the first `n` layers with which something is wrong.
pub open spec fn layers_fault<'a>(
    weights: Weights<'a>,
    naming: Naming,
    config: LlamaConfig,
    n: int,
) -> Option<Fault>
    decreases n,
{
    if n <= 0 {
        None
    } else {
        first(
            layers_fault(weights, naming, config, n - 1),
            layer_fault(weights, naming, config, n - 1),
        )
    }
}

/// What is wrong with the weights of a model, the first that is met.
pub open spec fn weights_fault<'a>(
    weights: Weights<'a>,
    naming: Naming,
    config: LlamaConfig,
) -> Option<Fault> {
    first(
        matrix_fault(weights, naming.embedding(), config.vocab_size, config.hidden_size),
        first(
            vector_fault(weights, naming.norm(), config.hidden_size),
            first(
                layers_fault(weights, naming, config, config.num_hidden_layers as int),
                if weights.has(naming.head()) {
                    matrix_fault(weights, naming.head(), config.vocab_size, config.hidden_size)
                } else {
                    None
                },
            ),
        ),
    )
}

/// The normalisation is what loading makes of its tensor.
pub open spec fn norm_loaded<'a, T: Copy, B: KernelBackend<T>>(
    backend: B,
    weights: Weights<'a>,
    name: Seq<char>,
    eps: Single,
    norm: RMSNorm<T>,
) -> bool {
    norm.weight@ == values_of(backend, weights.found(name)->Ok_0) && norm.eps == eps
}

/// The linear layer is what loading makes of its tensors in layer `i`.
pub open spec fn part_loaded<'a, T: Copy, B: KernelBackend<T>, F: Fn(QuantType, &[T]) -> BlockCodes>(
    backend: B,
    encode: F,
    quantization: LoadQuantization,
    weights: Weights<'a>,
    naming: Naming,
    i: int,
    part: LayerPart,
    bias: Option<LayerPart>,
    layer: LinearLayer<'a, T>,
) -> bool {
    linear_loaded(
        backend,
        encode,
        quantization,
        weights,
        naming.part(i, part),
        bias_name(naming, i, bias),
        layer,
    )
}

/// The layer is what loading makes of its tensors.
pub open spec fn layer_loaded<'a, T: Copy, B: KernelBackend<T>, F: Fn(QuantType, &[T]) -> BlockCodes>(
    backend: B,
    encode: F,
    quantization: LoadQuantization,
    weights: Weights<'a>,
    naming: Naming,
    config: LlamaConfig,
    i: int,
    block: TransformerBlock<'a, T>,
) -> bool {
    let eps = config.rms_norm_eps;
    &&& norm_loaded(
        backend,
        weights,
        naming.part(i, LayerPart::InputNorm),
        eps,
        block.input_layernorm,
    )
    &&& norm_loaded(
        backend,
        weights,
        naming.part(i, LayerPart::PostNorm),
        eps,
        block.post_attention_layernorm,
    )
    &&& part_loaded(
        backend,
        encode,
        quantization,
        weights,
        naming,
        i,
        LayerPart::Query,
        Some(LayerPart::QueryBias),
        block.self_attn_q,
    )
    &&& part_loaded(
        backend,
        encode,
        quantization,
        weights,
        naming,
        i,
        LayerPart::Key,
        Some(LayerPart::KeyBias),
        block.self_attn_k,
    )
    &&& part_loaded(
        backend,
        encode,
        quantization,
        weights,
        naming,
        i,
        LayerPart::Value,
        Some(LayerPart::ValueBias),
        block.self_attn_v,
    )
    &&& part_loaded(
        backend,
        encode,
        quantization,
        weights,
        naming,
        i,
        LayerPart::Output,
        None::<LayerPart>,
        block.self_attn_o,
    )
    &&& part_loaded(
        backend,
        encode,
        quantization,
        weights,
        naming,
        i,
        LayerPart::Gate,
        None::<LayerPart>,
        block.mlp_gate,
    )
    &&& part_loaded(
        backend,
        encode,
        quantization,
        weights,
        naming,
        i,
        LayerPart::Up,
        None::<LayerPart>,
        block.mlp_up,
    )
    &&& part_loaded(
        backend,
        encode,
        quantization,
        weights,
        naming,
        i,
        LayerPart::Down,
        None::<LayerPart>,
        block.mlp_down,
    )
}

/// The model is what loading makes of its weights. A file without a projection to the vocabulary
/// uses the token embeddings for it.
pub open spec fn model_loaded<'a, T: Copy, B: KernelBackend<T>, F: Fn(QuantType, &[T]) -> BlockCodes>(
    backend: B,
    encode: F,
    quantization: LoadQuantization,
    weights: Weights<'a>,
    naming: Naming,
    config: LlamaConfig,
    model: LlamaModel<'a, T, B>,
) -> bool {
    let embedding = naming.embedding();
    let head = naming.head();
    &&& model.config == config
    &&& model.backend == backend
    &&& loaded(
        backend,
        encode,
        quantization,
        embedding,
        weights.found(embedding)->Ok_0,
        model.embed_tokens,
    )
    &&& norm_loaded(backend, weights, naming.norm(), config.rms_norm_eps, model.norm)
    &&& model.layers@.len() == config.num_hidden_layers
    &&& forall|i: int|
        0 <= i < model.layers@.len() ==> layer_loaded(
            backend,
            encode,
            quantization,
            weights,
            naming,
            config,
            i,
            #[trigger] model.layers@[i],
        )
    &&& model.lm_head.bias is None
    &&& if weights.has(head) {
        loaded(
            backend,
            encode,
            quantization,
            head,
            weights.found(head)->Ok_0,
            model.lm_head.weight,
        )
    } else {
        model.lm_head.weight.data == model.embed_tokens.data
            && model.lm_head.weight.shape@ == model.embed_tokens.shape@
            && model.lm_head.weight.quant_type == model.embed_tokens.quant_type
    }
    &&& model.inv_freq@ == Seq::new(
        (config.head_width() / 2) as nat,
        |i: int| backend.frequency_of(config.rope_theta, i as usize, config.head_width() as usize),
    )
}

/// Loads a linear layer of layer `i`.
fn load_part<'a, T: Copy, B: KernelBackend<T>, F: Fn(QuantType, &[T]) -> BlockCodes>(
    weights: &Weights<'a>,
    naming: Naming,
    i: usize,
    part: LayerPart,
    bias: Option<LayerPart>,
    rows: usize,
    cols: usize,
    quantization: LoadQuantization,
    backend: &B,
    encode: &F,
) -> (result: Result<LinearLayer<'a, T>, LoadError>)
    requires
        weights.ready(),
        rows > 0,
        cols > 0,
        quant::encoder(*encode),
    ensures
        match part_fault(*weights, naming, i as int, part, bias, rows, cols) {
            Some(e) => result is Err && result->Err_0@ == e,
            None => {
                &&& result is Ok
                &&& result->Ok_0.sized(rows as int, cols as int)
                &&& part_loaded(
                    *backend,
                    *encode,
                    quantization,
                    *weights,
                    naming,
                    i as int,
                    part,
                    bias,
                    result->Ok_0,
                )
            },
        },
{
    let name = naming.part_name(i, part);
    let bias_name: Option<String> = match bias {
        Some(bias) => Some(naming.part_name(i, bias)),
        None => None,
    };
    load_linear(weights, name.as_str(), bias_name, rows, cols, quantization, backend, encode)
}

/// The projections of an attention: query, key, value and output.
type Attention<'a, T> = (
    LinearLayer<'a, T>,
    LinearLayer<'a, T>,
    LinearLayer<'a, T>,
    LinearLayer<'a, T>,
);

/// The projections of a feed-forward part: gate, up and down.
type FeedForward<'a, T> = (LinearLayer<'a, T>, LinearLayer<'a, T>, LinearLayer<'a, T>);

/// Loads the attention of layer `i`.
fn load_attention<'a, T: Copy, B: KernelBackend<T>, F: Fn(QuantType, &[T]) -> BlockCodes>(
    weights: &Weights<'a>,
    naming: Naming,
    config: &LlamaConfig,
    i: usize,
    quantization: LoadQuantization,
    backend: &B,
    encode: &F,
) -> (result: Result<Attention<'a, T>, LoadError>)
    requires
        weights.ready(),
        config.valid(),
        quant::encoder(*encode),
    ensures
        match attention_fault(*weights, naming, *config, i as int) {
            Some(e) => result is Err && result->Err_0@ == e,
            None => result matches Ok(parts) && {
                &&& parts.0.sized(config.hidden_size as int, config.hidden_size as int)
                &&& parts.1.sized(config.kv_size(), config.hidden_size as int)
                &&& parts.2.sized(config.kv_size(), config.hidden_size as int)
                &&& parts.3.sized(config.hidden_size as int, config.hidden_size as int)
                &&& part_loaded(
                    *backend,
                    *encode,
                    quantization,
                    *weights,
                    naming,
                    i as int,
                    LayerPart::Query,
                    Some(LayerPart::QueryBias),
                    parts.0,
                )
                &&& part_loaded(
                    *backend,
                    *encode,
                    quantization,
                    *weights,
                    naming,
                    i as int,
                    LayerPart::Key,
                    Some(LayerPart::KeyBias),
                    parts.1,
                )
                &&& part_loaded(
                    *backend,
                    *encode,
                    quantization,
                    *weights,
                    naming,
                    i as int,
                    LayerPart::Value,
                    Some(LayerPart::ValueBias),
                    parts.2,
                )
                &&& part_loaded(
                    *backend,
                    *encode,
                    quantization,
                    *weights,
                    naming,
                    i as int,
                    LayerPart::Output,
                    None::<LayerPart>,
                    parts.3,
                )
            },
        },
{
    proof {
        config::valid_heads_fit(*config);
    }
    let hidden: usize = config.hidden_size;
    let kv: usize = config.kv_width();
    let q = match load_part(
        weights,
        naming,
        i,
        LayerPart::Query,
        Some(LayerPart::QueryBias),
        hidden,
        hidden,
        quantization,
        backend,
        encode,
    ) {
        Ok(layer) => layer,
        Err(e) => return Err(e),
    };
    let k = match load_part(
        weights,
        naming,
        i,
        LayerPart::Key,
        Some(LayerPart::KeyBias),
        kv,
        hidden,
        quantization,
        backend,
        encode,
    ) {
        Ok(layer) => layer,
        Err(e) => return Err(e),
    };
    let v = match load_part(
        weights,
        naming,
        i,
        LayerPart::Value,
        Some(LayerPart::ValueBias),
        kv,
        hidden,
        quantization,
        backend,
        encode,
    ) {
        Ok(layer) => layer,
        Err(e) => return Err(e),
    };
    let o = match load_part(
        weights,
        naming,
        i,
        LayerPart::Output,
        None,
        hidden,
        hidden,
        quantization,
        backend,
        encode,
    ) {
        Ok(layer) => layer,
        Err(e) => return Err(e),
    };
    Ok((q, k, v, o))
}

/// Loads the feed-forward part of layer `i`.
fn load_mlp<'a, T: Copy, B: KernelBackend<T>, F: Fn(QuantType, &[T]) -> BlockCodes>(
    weights: &Weights<'a>,
    naming: Naming,
    config: &LlamaConfig,
    i: usize,
    quantization: LoadQuantization,
    backend: &B,
    encode: &F,
) -> (result: Result<FeedForward<'a, T>, LoadError>)
    requires
        weights.ready(),
        config.valid(),
        quant::encoder(*encode),
    ensures
        match mlp_fault(*weights, naming, *config, i as int) {
            Some(e) => result is Err && result->Err_0@ == e,
            None => result matches Ok(parts) && {
                &&& parts.0.sized(config.intermediate_size as int, config.hidden_size as int)
                &&& parts.1.sized(config.intermediate_size as int, config.hidden_size as int)
                &&& parts.2.sized(config.hidden_size as int, config.intermediate_size as int)
                &&& part_loaded(
                    *backend,
                    *encode,
                    quantization,
                    *weights,
                    naming,
                    i as int,
                    LayerPart::Gate,
                    None::<LayerPart>,
                    parts.0,
                )
                &&& part_loaded(
                    *backend,
                    *encode,
                    quantization,
                    *weights,
                    naming,
                    i as int,
                    LayerPart::Up,
                    None::<LayerPart>,
                    parts.1,
                )
                &&& part_loaded(
                    *backend,
                    *encode,
                    quantization,
                    *weights,
                    naming,
                    i as int,
                    LayerPart::Down,
                    None::<LayerPart>,
                    parts.2,
                )
            },
        },
{
    let hidden: usize = config.hidden_size;
    let inner: usize = config.intermediate_size;
    let gate = match load_part(
        weights,
        naming,
        i,
        LayerPart::Gate,
        None,
        inner,
        hidden,
        quantization,
        backend,
        encode,
    ) {
        Ok(layer) => layer,
        Err(e) => return Err(e),
    };
    let up = match load_part(
        weights,
        naming,
        i,
        LayerPart::Up,
        None,
        inner,
        hidden,
        quantization,
        backend,
        encode,
    ) {
        Ok(layer) => layer,
        Err(e) => return Err(e),
    };
    let down = match load_part(
        weights,
        naming,
        i,
        LayerPart::Down,
        None,
        hidden,
        inner,
        quantization,
        backend,
        encode,
    ) {
        Ok(layer) => layer,
        Err(e) => return Err(e),
    };
    Ok((gate, up, down))
}

/// Loads layer `i`.
fn load_layer<'a, T: Copy, B: KernelBackend<T>, F: Fn(QuantType, &[T]) -> BlockCodes>(
    weights: &Weights<'a>,
    naming: Naming,
    config: &LlamaConfig,
    i: usize,
    quantization: LoadQuantization,
    backend: &B,
    encode: &F,
) -> (result: Result<TransformerBlock<'a, T>, LoadError>)
    requires
        weights.ready(),
        config.valid(),
        quant::encoder(*encode),
    ensures
        match layer_fault(*weights, naming, *config, i as int) {
            Some(e) => result is Err && result->Err_0@ == e,
            None => {
                &&& result is Ok
                &&& result->Ok_0.valid(*config)
                &&& layer_loaded(
                    *backend,
                    *encode,
                    quantization,
                    *weights,
                    naming,
                    *config,
                    i as int,
                    result->Ok_0,
                )
            },
        },
{
    let hidden: usize = config.hidden_size;
    let eps = config.rms_norm_eps;
    let input_name = naming.part_name(i, LayerPart::InputNorm);
    let post_name = naming.part_name(i, LayerPart::PostNorm);
    let input_layernorm = match load_norm(weights, input_name.as_str(), hidden, eps, backend) {
        Ok(norm) => norm,
        Err(e) => return Err(e),
    };
    let early: Option<RMSNorm<T>> = match naming {
        Naming::HuggingFace => match load_norm(weights, post_name.as_str(), hidden, eps, backend) {
            Ok(norm) => Some(norm),
            Err(e) => return Err(e),
        },
        Naming::Gguf => None,
    };
    let attention = match load_attention(
        weights,
        naming,
        config,
        i,
        quantization,
        backend,
        encode,
    ) {
        Ok(parts) => parts,
        Err(e) => return Err(e),
    };
    let post_attention_layernorm = match early {
        Some(norm) => norm,
        None => match load_norm(weights, post_name.as_str(), hidden, eps, backend) {
            Ok(norm) => norm,
            Err(e) => return Err(e),
        },
    };
    let mlp = match load_mlp(weights, naming, config, i, quantization, backend, encode) {
        Ok(parts) => parts,
        Err(e) => return Err(e),
    };
    Ok(
        TransformerBlock {
            input_layernorm,
            self_attn_q: attention.0,
            self_attn_k: attention.1,
            self_attn_v: attention.2,
            self_attn_o: attention.3,
            post_attention_layernorm,
            mlp_gate: mlp.0,
            mlp_up: mlp.1,
            mlp_down: mlp.2,
        },
    )
}

/// The first fault among some layers is the first among more.
proof fn lemma_layers_fault_stays<'a>(
    weights: Weights<'a>,
    naming: Naming,
    config: LlamaConfig,
    m: int,
    n: int,
)
    requires
        0 <= m <= n,
        layers_fault(weights, naming, config, m) is Some,
    ensures
        layers_fault(weights, naming, config, n) == layers_fault(weights, naming, config, m),
    decreases n,
{
    if m < n {
        lemma_layers_fault_stays(weights, naming, config, m, n - 1);
    }
}

/// Loads all layers.
fn load_layers<'a, T: Copy, B: KernelBackend<T>, F: Fn(QuantType, &[T]) -> BlockCodes>(
    weights: &Weights<'a>,
    naming: Naming,
    config: &LlamaConfig,
    quantization: LoadQuantization,
    backend: &B,
    encode: &F,
) -> (result: Result<Vec<TransformerBlock<'a, T>>, LoadError>)
    requires
        weights.ready(),
        config.valid(),
        quant::encoder(*encode),
    ensures
        match layers_fault(*weights, naming, *config, config.num_hidden_layers as int) {
            Some(e) => result is Err && result->Err_0@ == e,
            None => result matches Ok(layers) && {
                &&& layers@.len() == config.num_hidden_layers
                &&& forall|i: int|
                    0 <= i < layers@.len() ==> (#[trigger] layers@[i]).valid(*config)
                        && layer_loaded(
                        *backend,
                        *encode,
                        quantization,
                        *weights,
                        naming,
                        *config,
                        i,
                        layers@[i],
                    )
            },
        },
{
    let total: usize = config.num_hidden_layers;
    let mut layers: Vec<TransformerBlock<'a, T>> = Vec::new();
    for i in 0..total
        invariant
            weights.ready(),
            config.valid(),
            quant::encoder(*encode),
            total == config.num_hidden_layers,
            layers_fault(*weights, naming, *config, i as int) is None,
            layers@.len() == i,
            forall|k: int|
                0 <= k < layers@.len() ==> (#[trigger] layers@[k]).valid(*config) && layer_loaded(
                    *backend,
                    *encode,
                    quantization,
                    *weights,
                    naming,
                    *config,
                    k,
                    layers@[k],
                ),
    {
        match load_layer(weights, naming, config, i, quantization, backend, encode) {
            Ok(layer) => layers.push(layer),
            Err(e) => {
                proof {
                    assert(layers_fault(*weights, naming, *config, i + 1) == Some(e@));
                    lemma_layers_fault_stays(*weights, naming, *config, i + 1, total as int);
                }
                return Err(e);
            },
        }
    }
    Ok(layers)
}

/// Loads a model of the given configuration.
pub fn load_model<'a, T: Copy, B: KernelBackend<T>, F: Fn(QuantType, &[T]) -> BlockCodes>(
    weights: &Weights<'a>,
    naming: Naming,
    config: LlamaConfig,
    quantization: LoadQuantization,
    backend: B,
    encode: &F,
) -> (result: Result<LlamaModel<'a, T, B>, LoadError>)
    requires
        weights.ready(),
        config.valid(),
        quant::encoder(*encode),
    ensures
        match weights_fault(*weights, naming, config) {
            Some(e) => result is Err && result->Err_0@ == e,
            None => {
                &&& result is Ok
                &&& result->Ok_0.valid()
                &&& model_loaded(
                    backend,
                    *encode,
                    quantization,
                    *weights,
                    naming,
                    config,
                    result->Ok_0,
                )
            },
        },
{
    let vocab: usize = config.vocab_size;
    let hidden: usize = config.hidden_size;
    let embed_tokens = match load_matrix(
        weights,
        naming.embedding_name(),
        vocab,
        hidden,
        quantization,
        &backend,
        encode,
    ) {
        Ok(tensor) => tensor,
        Err(e) => return Err(e),
    };
    let norm = match load_norm(weights, naming.norm_name(), hidden, config.rms_norm_eps, &backend) {
        Ok(norm) => norm,
        Err(e) => return Err(e),
    };
    let layers = match load_layers(weights, naming, &config, quantization, &backend, encode) {
        Ok(layers) => layers,
        Err(e) => return Err(e),
    };
    let head = if weights.contains(naming.head_name()) {
        match load_matrix(
            weights,
            naming.head_name(),
            vocab,
            hidden,
            quantization,
            &backend,
            encode,
        ) {
            Ok(tensor) => tensor,
            Err(e) => return Err(e),
        }
    } else {
        embed_tokens.clone()
    };
    let lm_head = match LinearLayer::new(head, None) {
        Ok(layer) => layer,
        Err(_) => return Err(
            load_error(LoadFault::MatrixShape { rows: vocab, cols: hidden }, naming.head_name()),
        ),
    };
    Ok(Qwen2Model::new(embed_tokens, layers, norm, lm_head, config, backend))
}

/// A GGUF fault as a fault of loading.
pub open spec fn gguf_fault(fault: GgufFault, name: Seq<char>) -> Fault {
    (LoadFault::Gguf { fault }, name)
}

/// What is wrong with the family that a file names.
pub open spec fn family_fault(file: GgufView) -> Option<Fault> {
    let key = "general.architecture"@;
    let text = match file.value(key) {
        Some(value) => value.text(),
        None => None,
    };
    match text {
        None => Some(gguf_fault(GgufFault::MissingText, key)),
        Some(family) => if family == "qwen2"@ {
            None
        } else {
            Some((LoadFault::Architecture, family))
        },
    }
}

/// What is wrong with the entry of the token embeddings.
pub open spec fn embedding_fault(file: GgufView) -> Option<Fault> {
    let name = "token_embd.weight"@;
    match file.tensor_named(name) {
        None => Some(gguf_fault(GgufFault::MissingTensor, name)),
        Some(info) => if info.dimensions.len() != 2 {
            Some((LoadFault::EmbeddingRank, name))
        } else {
            None
        },
    }
}

/// A size in the metadata.
pub open spec fn size_of_key(file: GgufView, key: Seq<char>) -> Option<u64> {
    match file.value(key) {
        Some(value) => value.integer(),
        None => None,
    }
}

/// What is wrong with a size in the metadata.
pub open spec fn size_fault(file: GgufView, key: Seq<char>, label: Seq<char>) -> Option<Fault> {
    match size_of_key(file, key) {
        None => Some(gguf_fault(GgufFault::MissingInteger, key)),
        Some(value) => if value > usize::MAX {
            Some((LoadFault::DoesNotFit { value }, label))
        } else {
            None
        },
    }
}

/// A number in the metadata.
pub open spec fn number_of_key(file: GgufView, key: Seq<char>) -> Option<MetadataNumber> {
    match file.value(key) {
        Some(value) => value.number(),
        None => None,
    }
}

/// What is wrong with a number in the metadata.
pub open spec fn number_fault(file: GgufView, key: Seq<char>) -> Option<Fault> {
    match number_of_key(file, key) {
        None => Some(gguf_fault(GgufFault::MissingNumber, key)),
        Some(_) => None,
    }
}

/// What is wrong with the metadata of a model, the first that is met.
pub open spec fn metadata_fault(file: GgufView) -> Option<Fault> {
    first(
        family_fault(file),
        first(
            embedding_fault(file),
            first(
                size_fault(file, "qwen2.embedding_length"@, "embedding_length"@),
                first(
                    size_fault(file, "qwen2.feed_forward_length"@, "feed_forward_length"@),
                    first(
                        size_fault(file, "qwen2.attention.head_count"@, "head_count"@),
                        first(
                            size_fault(file, "qwen2.attention.head_count_kv"@, "head_count_kv"@),
                            first(
                                size_fault(file, "qwen2.block_count"@, "block_count"@),
                                first(
                                    number_fault(file, "qwen2.attention.layer_norm_rms_epsilon"@),
                                    size_fault(file, "qwen2.context_length"@, "context_length"@),
                                ),
                            ),
                        ),
                    ),
                ),
            ),
        ),
    )
}

/// The configuration that a file describes; the normalisation constant and the rotary base are given
/// in single precision.
pub open spec fn described_config(file: GgufView, eps: Single, theta: Single) -> LlamaConfig {
    LlamaConfig {
        hidden_size: size_of_key(file, "qwen2.embedding_length"@)->0 as usize,
        intermediate_size: size_of_key(file, "qwen2.feed_forward_length"@)->0 as usize,
        num_attention_heads: size_of_key(file, "qwen2.attention.head_count"@)->0 as usize,
        num_key_value_heads: size_of_key(file, "qwen2.attention.head_count_kv"@)->0 as usize,
        num_hidden_layers: size_of_key(file, "qwen2.block_count"@)->0 as usize,
        vocab_size: file.tensor_named("token_embd.weight"@)->0.dimensions[1],
        rms_norm_eps: eps,
        rope_theta: theta,
        max_position_embeddings: size_of_key(file, "qwen2.context_length"@)->0 as usize,
        head_dim: None,
        tie_word_embeddings: file.tensor_named("output.weight"@) is None,
    }
}

/// `eps` and `theta` are the constants of a file, rounded to single precision by `single`; a file
/// without a rotary base has ten thousand.
pub open spec fn rounded_constants<G: Fn(MetadataNumber) -> Single>(
    file: GgufView,
    single: G,
    eps: Single,
    theta: Single,
) -> bool {
    &&& call_ensures(
        single,
        (number_of_key(file, "qwen2.attention.layer_norm_rms_epsilon"@)->0,),
        eps,
    )
    &&& match number_of_key(file, "qwen2.rope.freq_base"@) {
        Some(number) => call_ensures(single, (number,), theta),
        None => theta.bits == 0x461c_4000,
    }
}

/// What is wrong with a configuration that a file describes.
pub open spec fn config_fault(file: GgufView, config: LlamaConfig) -> Option<Fault> {
    match config.fault() {
        Some(error) => Some((LoadFault::Config { error }, Seq::<char>::empty())),
        None => if file.tensor_named("token_embd.weight"@)->0.dimensions[0] != config.hidden_size {
            Some((LoadFault::EmbeddingWidth, "token_embd.weight"@))
        } else {
            None
        },
    }
}

/// An error of a GGUF file as an error of loading.
fn from_gguf(e: GgufError) -> (error: LoadError)
    ensures
        error@ == gguf_fault(e@.0, e@.1),
{
    LoadError { fault: LoadFault::Gguf { fault: e.fault }, name: e.name }
}

/// Narrows a number to the machine's address range.
pub fn as_usize(value: u64, label: &str) -> (result: Result<usize, LoadError>)
    ensures
        if value <= usize::MAX {
            result == Ok::<usize, LoadError>(value as usize)
        } else {
            result is Err && result->Err_0@ == (LoadFault::DoesNotFit { value }, label@)
        },
{
    if value <= usize::MAX as u64 {
        Ok(value as usize)
    } else {
        Err(load_error(LoadFault::DoesNotFit { value }, label))
    }
}

/// Reads a size from the metadata.
fn metadata_size<'a>(gguf: &GgufFile<'a>, key: &str, label: &str) -> (result: Result<
    usize,
    LoadError,
>)
    ensures
        match size_fault(gguf@, key@, label@) {
            Some(e) => result is Err && result->Err_0@ == e,
            None => result == Ok::<usize, LoadError>(size_of_key(gguf@, key@)->0 as usize),
        },
{
    match gguf.metadata_u64(key) {
        Ok(value) => as_usize(value, label),
        Err(e) => Err(from_gguf(e)),
    }
}

/// Reads the configuration that a GGUF file describes. `single` rounds a number to single
/// precision.
pub fn gguf_config<'a, G: Fn(MetadataNumber) -> Single>(gguf: &GgufFile<'a>, single: &G) -> (result:
    Result<LlamaConfig, LoadError>)
    requires
        gguf.valid(),
        forall|number: MetadataNumber| call_requires(*single, (number,)),
    ensures
        match metadata_fault(gguf@) {
            Some(e) => result is Err && result->Err_0@ == e,
            None => exists|eps: Single, theta: Single|
                #![trigger described_config(gguf@, eps, theta)]
                {
                    &&& rounded_constants(gguf@, *single, eps, theta)
                    &&& match config_fault(gguf@, described_config(gguf@, eps, theta)) {
                        Some(e) => result is Err && result->Err_0@ == e,
                        None => result == Ok::<LlamaConfig, LoadError>(
                            described_config(gguf@, eps, theta),
                        ),
                    }
                },
        },
{
    let family = match gguf.metadata_str("general.architecture") {
        Ok(family) => family,
        Err(e) => return Err(from_gguf(e)),
    };
    match ArchitectureKind::from_gguf_architecture(family) {
        Ok(_) => {},
        Err(_) => return Err(load_error(LoadFault::Architecture, family)),
    }
    let info = match gguf.tensor_info("token_embd.weight") {
        Ok(info) => info,
        Err(e) => return Err(from_gguf(e)),
    };
    if info.dimensions.len() != 2 {
        return Err(load_error(LoadFault::EmbeddingRank, "token_embd.weight"));
    }
    let hidden_size: usize = match metadata_size(
        gguf,
        "qwen2.embedding_length",
        "embedding_length",
    ) {
        Ok(n) => n,
        Err(e) => return Err(e),
    };
    let intermediate_size: usize = match metadata_size(
        gguf,
        "qwen2.feed_forward_length",
        "feed_forward_length",
    ) {
        Ok(n) => n,
        Err(e) => return Err(e),
    };
    let num_attention_heads: usize = match metadata_size(
        gguf,
        "qwen2.attention.head_count",
        "head_count",
    ) {
        Ok(n) => n,
        Err(e) => return Err(e),
    };
    let num_key_value_heads: usize = match metadata_size(
        gguf,
        "qwen2.attention.head_count_kv",
        "head_count_kv",
    ) {
        Ok(n) => n,
        Err(e) => return Err(e),
    };
    let num_hidden_layers: usize = match metadata_size(gguf, "qwen2.block_count", "block_count") {
        Ok(n) => n,
        Err(e) => return Err(e),
    };
    let rms_norm_eps = match gguf.metadata_f32("qwen2.attention.layer_norm_rms_epsilon") {
        Ok(number) => single(number),
        Err(e) => return Err(from_gguf(e)),
    };
    let rope_theta = match gguf.metadata_f32("qwen2.rope.freq_base") {
        Ok(number) => single(number),
        Err(_) => config::default_rope_theta(),
    };
    let max_position_embeddings: usize = match metadata_size(
        gguf,
        "qwen2.context_length",
        "context_length",
    ) {
        Ok(n) => n,
        Err(e) => return Err(e),
    };
    let config = LlamaConfig {
        hidden_size,
        intermediate_size,
        num_attention_heads,
        num_key_value_heads,
        num_hidden_layers,
        vocab_size: info.dimensions[1],
        rms_norm_eps,
        rope_theta,
        max_position_embeddings,
        head_dim: None,
        tie_word_embeddings: !gguf.has("output.weight"),
    };
    assert(config == described_config(gguf@, rms_norm_eps, rope_theta));
    match config.validate() {
        Ok(()) => {},
        Err(error) => return Err(
            LoadError { fault: LoadFault::Config { error }, name: String::new() },
        ),
    }
    if info.dimensions[0] != config.hidden_size {
        return Err(load_error(LoadFault::EmbeddingWidth, "token_embd.weight"));
    }
    Ok(config)
}

/// Loads Qwen2 models from GGUF files.
pub struct GgufLoader;

impl GgufLoader {
    /// Loads the model that a file holds.
    pub fn load<
        'a,
        T: Copy,
        B: KernelBackend<T>,
        F: Fn(QuantType, &[T]) -> BlockCodes,
        G: Fn(MetadataNumber) -> Single,
    >(mmap: &'a [u8], options: &LoadOptions, backend: B, encode: &F, single: &G) -> (result: Result<
        LlamaModel<'a, T, B>,
        LoadError,
    >)
        requires
            quant::encoder(*encode),
            forall|number: MetadataNumber| call_requires(*single, (number,)),
        ensures
            match crate::gguf::parse_file(mmap@) {
                Err(e) => result is Err && result->Err_0@ == gguf_fault(e.0, e.1),
                Ok(view) => match metadata_fault(view) {
                    Some(e) => result is Err && result->Err_0@ == e,
                    None => exists|file: GgufFile<'a>, eps: Single, theta: Single|
                        #![trigger opened(mmap, view, file), described_config(view, eps, theta)]
                        {
                            let config = described_config(view, eps, theta);
                            &&& opened(mmap, view, file)
                            &&& rounded_constants(view, *single, eps, theta)
                            &&& match first(
                                config_fault(view, config),
                                weights_fault(
                                    (Weights::Gguf { file }),
                                    Naming::Gguf,
                                    config,
                                ),
                            ) {
                                Some(e) => result is Err && result->Err_0@ == e,
                                None => {
                                    &&& result is Ok
                                    &&& result->Ok_0.valid()
                                    &&& model_loaded(
                                        backend,
                                        *encode,
                                        options.quantization,
                                        (Weights::Gguf { file }),
                                        Naming::Gguf,
                                        config,
                                        result->Ok_0,
                                    )
                                },
                            }
                        },
                },
            },
    {
        let gguf = match GgufFile::open(mmap) {
            Ok(gguf) => gguf,
            Err(e) => return Err(from_gguf(e)),
        };
        let ghost file = gguf;
        assert(opened(mmap, gguf@, file));
        let config = match gguf_config(&gguf, single) {
            Ok(config) => config,
            Err(e) => return Err(e),
        };
        let weights = Weights::Gguf { file: gguf };
        load_model(&weights, Naming::Gguf, config, options.quantization, backend, encode)
    }
}

/// The file is what opening the given bytes gives.
pub open spec fn opened<'a>(mmap: &'a [u8], view: GgufView, file: GgufFile<'a>) -> bool {
    file.mmap == mmap && file@ == view && file.valid()
}

/// Loads Qwen2 models from safetensors files.
pub struct SafetensorsLoader;

impl SafetensorsLoader {
    /// Loads the model of the given configuration that a store holds.
    pub fn load<'a, T: Copy, B: KernelBackend<T>, F: Fn(QuantType, &[T]) -> BlockCodes>(
        config: LlamaConfig,
        store: SafetensorStore<'a>,
        options: &LoadOptions,
        backend: B,
        encode: &F,
    ) -> (result: Result<LlamaModel<'a, T, B>, LoadError>)
        requires
            quant::encoder(*encode),
        ensures
            match config.fault() {
                Some(error) => result is Err && result->Err_0@ == (
                    LoadFault::Config { error },
                    Seq::<char>::empty(),
                ),
                None => match weights_fault(
                    (Weights::Safetensors { store }),
                    Naming::HuggingFace,
                    config,
                ) {
                    Some(e) => result is Err && result->Err_0@ == e,
                    None => {
                        &&& result is Ok
                        &&& result->Ok_0.valid()
                        &&& model_loaded(
                            backend,
                            *encode,
                            options.quantization,
                            (Weights::Safetensors { store }),
                            Naming::HuggingFace,
                            config,
                            result->Ok_0,
                        )
                    },
                },
            },
    {
        match config.validate() {
            Ok(()) => {},
            Err(error) => return Err(
                LoadError { fault: LoadFault::Config { error }, name: String::new() },
            ),
        }
        let weights = Weights::Safetensors { store };
        load_model(&weights, Naming::HuggingFace, config, options.quantization, backend, encode)
    }
}

/// Where the model at a path is.
#[derive(Clone, Copy, Debug, PartialEq, Eq, Structural)]
pub enum ModelFormat {
    /// The path is a GGUF file.
    GgufFile,
    /// The path is a safetensors file; the model is the directory that it lies in.
    SafetensorsFile,
    /// The path is a directory with a safetensors model.
    SafetensorsDirectory,
    /// The path is a directory with one GGUF file.
    GgufInDirectory,
}

/// What is known of a path.
#[derive(Debug)]
pub struct PathFacts {
    pub is_file: bool,
    pub is_dir: bool,
    pub extension: Option<String>,
    /// In a directory: there is a `model.safetensors` or a `model.safetensors.index.json`.
    pub has_safetensors: bool,
    /// In a directory: the number of files with the extension `gguf`.
    pub ggufs: usize,
}

/// The format of the model at a path, or why there is none.
pub open spec fn format_at(facts: PathFacts) -> Result<ModelFormat, LoadFault> {
    let extension = match facts.extension {
        Some(extension) => Some(extension@),
        None => None,
    };
    if facts.is_file && extension == Some("gguf"@) {
        Ok(ModelFormat::GgufFile)
    } else if facts.is_file && extension == Some("safetensors"@) {
        Ok(ModelFormat::SafetensorsFile)
    } else if facts.is_dir && facts.has_safetensors {
        Ok(ModelFormat::SafetensorsDirectory)
    } else if facts.is_dir && facts.ggufs == 1 {
        Ok(ModelFormat::GgufInDirectory)
    } else if facts.is_dir && facts.ggufs > 1 {
        Err(LoadFault::SeveralGgufs)
    } else {
        Err(LoadFault::UnknownFormat)
    }
}

/// Finds out which loader a path needs.
pub struct ModelLoader;

impl ModelLoader {
    /// Detects the format of the model at a path: a directory, a safetensors file or a GGUF file.
    pub fn detect(facts: &PathFacts) -> (result: Result<ModelFormat, LoadFault>)
        ensures
            result == format_at(*facts),
    {
        let (gguf, safetensors) = match &facts.extension {
            Some(extension) => (
                text::equals(extension.as_str(), "gguf"),
                text::equals(extension.as_str(), "safetensors"),
            ),
            None => (false, false),
        };
        if facts.is_file && gguf {
            return Ok(ModelFormat::GgufFile);
        }
        if facts.is_file && safetensors {
            return Ok(ModelFormat::SafetensorsFile);
        }
        if facts.is_dir {
            if facts.has_safetensors {
                return Ok(ModelFormat::SafetensorsDirectory);
            }
            if facts.ggufs == 1 {
                return Ok(ModelFormat::GgufInDirectory);
            }
            if facts.ggufs > 1 {
                return Err(LoadFault::SeveralGgufs);
            }
        }
        Err(LoadFault::UnknownFormat)
    }
}

/// Which tensor of a GGUF file each part of a loaded model comes from. The parts of layer `i` are
/// those whose names start with `blk.` and the number of the layer; a projection without a stored
/// bias has zeros where the family has one. A file without `output.weight` uses the token embeddings
/// as its projection to the vocabulary.
#[verifier::spinoff_prover]
#[verifier::rlimit(40)]
pub proof fn gguf_models_take_the_tensors_of_their_names<
    'a,
    T: Copy,
    B: KernelBackend<T>,
    F: Fn(QuantType, &[T]) -> BlockCodes,
>(
    backend: B,
    encode: F,
    quantization: LoadQuantization,
    weights: Weights<'a>,
    config: LlamaConfig,
    model: LlamaModel<'a, T, B>,
)
    requires
        model_loaded(backend, encode, quantization, weights, Naming::Gguf, config, model),
    ensures
        ({
            let matrix = |name: Seq<char>, tensor: QuantTensor<'a>|
                loaded(backend, encode, quantization, name, weights.found(name)->Ok_0, tensor);
            let vector = |name: Seq<char>| values_of(backend, weights.found(name)->Ok_0);
            &&& matrix("token_embd.weight"@, model.embed_tokens)
            &&& model.norm.weight@ == vector("output_norm.weight"@)
            &&& model.norm.eps == config.rms_norm_eps
            &&& model.lm_head.bias is None
            &&& weights.has("output.weight"@) ==> matrix(
                "output.weight"@,
                model.lm_head.weight,
            )
            &&& !weights.has("output.weight"@) ==> model.lm_head.weight.data
                == model.embed_tokens.data && model.lm_head.weight.shape@
                == model.embed_tokens.shape@ && model.lm_head.weight.quant_type
                == model.embed_tokens.quant_type
        }),
        model.layers@.len() == config.num_hidden_layers,
        forall|i: int|
            0 <= i < config.num_hidden_layers ==> {
                let block = #[trigger] model.layers@[i];
                let at = "blk."@ + text::decimal(i as nat);
                let matrix = |suffix: Seq<char>, tensor: QuantTensor<'a>|
                    loaded(
                        backend,
                        encode,
                        quantization,
                        at + suffix,
                        weights.found(at + suffix)->Ok_0,
                        tensor,
                    );
                let vector = |suffix: Seq<char>|
                    values_of(backend, weights.found(at + suffix)->Ok_0);
                let bias = |suffix: Seq<char>, layer: LinearLayer<'a, T>|
                    layer.bias is Some && layer.bias->0@ == (if weights.has(at + suffix) {
                        vector(suffix)
                    } else {
                        Seq::new(layer.out_features as nat, |k: int| backend.zero_value())
                    });
                &&& block.input_layernorm.weight@ == vector(".attn_norm.weight"@)
                &&& block.input_layernorm.eps == config.rms_norm_eps
                &&& block.post_attention_layernorm.weight@ == vector(
                    ".ffn_norm.weight"@,
                )
                &&& block.post_attention_layernorm.eps == config.rms_norm_eps
                &&& matrix(".attn_q.weight"@, block.self_attn_q.weight)
                &&& bias(".attn_q.bias"@, block.self_attn_q)
                &&& matrix(".attn_k.weight"@, block.self_attn_k.weight)
                &&& bias(".attn_k.bias"@, block.self_attn_k)
                &&& matrix(".attn_v.weight"@, block.self_attn_v.weight)
                &&& bias(".attn_v.bias"@, block.self_attn_v)
                &&& matrix(".attn_output.weight"@, block.self_attn_o.weight)
                &&& block.self_attn_o.bias is None
                &&& matrix(".ffn_gate.weight"@, block.mlp_gate.weight)
                &&& block.mlp_gate.bias is None
                &&& matrix(".ffn_up.weight"@, block.mlp_up.weight)
                &&& block.mlp_up.bias is None
                &&& matrix(".ffn_down.weight"@, block.mlp_down.weight)
                &&& block.mlp_down.bias is None
            },
{
    assert forall|i: int| 0 <= i < config.num_hidden_layers implies layer_loaded(
        backend,
        encode,
        quantization,
        weights,
        Naming::Gguf,
        config,
        i,
        #[trigger] model.layers@[i],
    ) by {}
}

/// Which tensor of a safetensors store each part of a loaded model comes from. The parts of layer
/// `i` are those whose names start with `model.layers.` and the number of the layer; a projection
/// without a stored bias has zeros where the family has one. A store without `lm_head.weight` uses
/// the token embeddings as its projection to the vocabulary.
#[verifier::spinoff_prover]
#[verifier::rlimit(40)]
pub proof fn safetensors_models_take_the_tensors_of_their_names<
    'a,
    T: Copy,
    B: KernelBackend<T>,
    F: Fn(QuantType, &[T]) -> BlockCodes,
>(
    backend: B,
    encode: F,
    quantization: LoadQuantization,
    weights: Weights<'a>,
    config: LlamaConfig,
    model: LlamaModel<'a, T, B>,
)
    requires
        model_loaded(backend, encode, quantization, weights, Naming::HuggingFace, config, model),
    ensures
        ({
            let matrix = |name: Seq<char>, tensor: QuantTensor<'a>|
                loaded(backend, encode, quantization, name, weights.found(name)->Ok_0, tensor);
            let vector = |name: Seq<char>| values_of(backend, weights.found(name)->Ok_0);
            &&& matrix("model.embed_tokens.weight"@, model.embed_tokens)
            &&& model.norm.weight@ == vector("model.norm.weight"@)
            &&& model.norm.eps == config.rms_norm_eps
            &&& model.lm_head.bias is None
            &&& weights.has("lm_head.weight"@) ==> matrix(
                "lm_head.weight"@,
                model.lm_head.weight,
            )
            &&& !weights.has("lm_head.weight"@) ==> model.lm_head.weight.data
                == model.embed_tokens.data && model.lm_head.weight.shape@
                == model.embed_tokens.shape@ && model.lm_head.weight.quant_type
                == model.embed_tokens.quant_type
        }),
        model.layers@.len() == config.num_hidden_layers,
        forall|i: int|
            0 <= i < config.num_hidden_layers ==> {
                let block = #[trigger] model.layers@[i];
                let at = "model.layers."@ + text::decimal(i as nat);
                let matrix = |suffix: Seq<char>, tensor: QuantTensor<'a>|
                    loaded(
                        backend,
                        encode,
                        quantization,
                        at + suffix,
                        weights.found(at + suffix)->Ok_0,
                        tensor,
                    );
                let vector = |suffix: Seq<char>|
                    values_of(backend, weights.found(at + suffix)->Ok_0);
                let bias = |suffix: Seq<char>, layer: LinearLayer<'a, T>|
                    layer.bias is Some && layer.bias->0@ == (if weights.has(at + suffix) {
                        vector(suffix)
                    } else {
                        Seq::new(layer.out_features as nat, |k: int| backend.zero_value())
                    });
                &&& block.input_layernorm.weight@ == vector(".input_layernorm.weight"@)
                &&& block.input_layernorm.eps == config.rms_norm_eps
                &&& block.post_attention_layernorm.weight@ == vector(
                    ".post_attention_layernorm.weight"@,
                )
                &&& block.post_attention_layernorm.eps == config.rms_norm_eps
                &&& matrix(".self_attn.q_proj.weight"@, block.self_attn_q.weight)
                &&& bias(".self_attn.q_proj.bias"@, block.self_attn_q)
                &&& matrix(".self_attn.k_proj.weight"@, block.self_attn_k.weight)
                &&& bias(".self_attn.k_proj.bias"@, block.self_attn_k)
                &&& matrix(".self_attn.v_proj.weight"@, block.self_attn_v.weight)
                &&& bias(".self_attn.v_proj.bias"@, block.self_attn_v)
                &&& matrix(".self_attn.o_proj.weight"@, block.self_attn_o.weight)
                &&& block.self_attn_o.bias is None
                &&& matrix(".mlp.gate_proj.weight"@, block.mlp_gate.weight)
                &&& block.mlp_gate.bias is None
                &&& matrix(".mlp.up_proj.weight"@, block.mlp_up.weight)
                &&& block.mlp_up.bias is None
                &&& matrix(".mlp.down_proj.weight"@, block.mlp_down.weight)
                &&& block.mlp_down.bias is None
            },
{
    assert forall|i: int| 0 <= i < config.num_hidden_layers implies layer_loaded(
        backend,
        encode,
        quantization,
        weights,
        Naming::HuggingFace,
        config,
        i,
        #[trigger] model.layers@[i],
    ) by {}
}

/// Two different parts of a layer never take the same tensor, and no part of one layer takes a
/// tensor of another layer.
#[verifier::spinoff_prover]
#[verifier::rlimit(50)]
pub proof fn parts_have_names_of_their_own(
    naming: Naming,
    i: nat,
    j: nat,
    a: LayerPart,
    b: LayerPart,
)
    requires
        naming.part(i as int, a) == naming.part(j as int, b),
    ensures
        i == j,
        a == b,
{
    lemma_suffixes(naming, a);
    lemma_suffixes(naming, b);
    let prefix = naming.prefix();
    let n = prefix.len() as int;
    let x = naming.part(i as int, a);
    let y = naming.part(j as int, b);
    let di = text::decimal(i);
    let dj = text::decimal(j);
    text::decimal_numbers_read_back(i);
    text::decimal_numbers_read_back(j);
    assert(x[n + di.len()] == naming.suffix(a)[0]);
    assert(y[n + dj.len()] == naming.suffix(b)[0]);
    if di.len() < dj.len() {
        assert(y[n + di.len()] == dj[di.len() as int]);
        assert('0' <= dj[di.len() as int]);
        assert(false);
    }
    if dj.len() < di.len() {
        assert(x[n + dj.len()] == di[dj.len() as int]);
        assert('0' <= di[dj.len() as int]);
        assert(false);
    }
    assert forall|k: int| 0 <= k < di.len() implies di[k] == dj[k] by {
        assert(x[n + k] == di[k]);
        assert(y[n + k] == dj[k]);
    }
    assert(di =~= dj);
    let sa = naming.suffix(a);
    let sb = naming.suffix(b);
    assert(x.len() == n + di.len() + sa.len());
    assert(y.len() == n + dj.len() + sb.len());
    assert forall|k: int| 0 <= k < sa.len() implies sa[k] == sb[k] by {
        assert(x[n + di.len() + k] == sa[k]);
        assert(y[n + dj.len() + k] == sb[k]);
    }
    assert(sa =~= sb);
    lemma_suffixes_differ(naming, a, b);
}

/// A suffix starts with a dot.
proof fn lemma_suffixes(naming: Naming, part: LayerPart)
    ensures
        naming.suffix(part).len() > 0,
        naming.suffix(part)[0] == '.',
{
    reveal_strlit(".attn_norm.weight");
    reveal_strlit(".attn_q.weight");
    reveal_strlit(".attn_q.bias");
    reveal_strlit(".attn_k.weight");
    reveal_strlit(".attn_k.bias");
    reveal_strlit(".attn_v.weight");
    reveal_strlit(".attn_v.bias");
    reveal_strlit(".attn_output.weight");
    reveal_strlit(".ffn_norm.weight");
    reveal_strlit(".ffn_gate.weight");
    reveal_strlit(".ffn_up.weight");
    reveal_strlit(".ffn_down.weight");
    reveal_strlit(".input_layernorm.weight");
    reveal_strlit(".self_attn.q_proj.weight");
    reveal_strlit(".self_attn.q_proj.bias");
    reveal_strlit(".self_attn.k_proj.weight");
    reveal_strlit(".self_attn.k_proj.bias");
    reveal_strlit(".self_attn.v_proj.weight");
    reveal_strlit(".self_attn.v_proj.bias");
    reveal_strlit(".self_attn.o_proj.weight");
    reveal_strlit(".post_attention_layernorm.weight");
    reveal_strlit(".mlp.gate_proj.weight");
    reveal_strlit(".mlp.up_proj.weight");
    reveal_strlit(".mlp.down_proj.weight");
}

/// Different parts have different suffixes.
#[verifier::spinoff_prover]
#[verifier::rlimit(50)]
proof fn lemma_suffixes_differ(naming: Naming, a: LayerPart, b: LayerPart)
    requires
        naming.suffix(a) == naming.suffix(b),
    ensures
        a == b,
{
    reveal_strlit(".attn_norm.weight");
    reveal_strlit(".attn_q.weight");
    reveal_strlit(".attn_q.bias");
    reveal_strlit(".attn_k.weight");
    reveal_strlit(".attn_k.bias");
    reveal_strlit(".attn_v.weight");
    reveal_strlit(".attn_v.bias");
    reveal_strlit(".attn_output.weight");
    reveal_strlit(".ffn_norm.weight");
    reveal_strlit(".ffn_gate.weight");
    reveal_strlit(".ffn_up.weight");
    reveal_strlit(".ffn_down.weight");
    reveal_strlit(".input_layernorm.weight");
    reveal_strlit(".self_attn.q_proj.weight");
    reveal_strlit(".self_attn.q_proj.bias");
    reveal_strlit(".self_attn.k_proj.weight");
    reveal_strlit(".self_attn.k_proj.bias");
    reveal_strlit(".self_attn.v_proj.weight");
    reveal_strlit(".self_attn.v_proj.bias");
    reveal_strlit(".self_attn.o_proj.weight");
    reveal_strlit(".post_attention_layernorm.weight");
    reveal_strlit(".mlp.gate_proj.weight");
    reveal_strlit(".mlp.up_proj.weight");
    reveal_strlit(".mlp.down_proj.weight");
    let s = naming.suffix(a);
    let t = naming.suffix(b);
    assert(s.len() == t.len());
    assert(s[1] == t[1] && s[2] == t[2] && s[3] == t[3] && s[4] == t[4] && s[5] == t[5]);
    assert(s.len() > 6 ==> s[6] == t[6]);
    assert(s.len() > 11 ==> s[11] == t[11]);
    assert(s.last() == t.last());
}

/// Which metadata entries of a GGUF file the configuration of its model comes from. The vocabulary
/// is the second dimension of the token embeddings, and a file without a projection to the
/// vocabulary ties it to the embeddings. A file without a rotary base has ten thousand.
pub proof fn the_configuration_comes_from_these_entries<G: Fn(MetadataNumber) -> Single>(
    file: GgufView,
    single: G,
    eps: Single,
    theta: Single,
)
    requires
        metadata_fault(file) is None,
        rounded_constants(file, single, eps, theta),
    ensures
        ({
            let config = described_config(file, eps, theta);
            let holds = |key: Seq<char>, size: usize|
                file.metadata.contains_key(key) && match file.metadata[key] {
                    MetadataView::Number { number: MetadataNumber::Unsigned { value } } => value
                        == size,
                    MetadataView::Number { number: MetadataNumber::Signed { value } } => value
                        == size,
                    _ => false,
                };
            &&& holds("qwen2.embedding_length"@, config.hidden_size)
            &&& holds("qwen2.feed_forward_length"@, config.intermediate_size)
            &&& holds("qwen2.attention.head_count"@, config.num_attention_heads)
            &&& holds("qwen2.attention.head_count_kv"@, config.num_key_value_heads)
            &&& holds("qwen2.block_count"@, config.num_hidden_layers)
            &&& holds("qwen2.context_length"@, config.max_position_embeddings)
            &&& file.metadata.contains_key("general.architecture"@)
            &&& file.metadata["general.architecture"@] == (MetadataView::Text { value: "qwen2"@ })
            &&& exists|k: int|
                0 <= k < file.tensors.len() && (#[trigger] file.tensors[k]).name
                    == "token_embd.weight"@ && file.tensors[k].dimensions.len() == 2
                    && file.tensors[k].dimensions[1] == config.vocab_size
            &&& config.tie_word_embeddings <==> forall|k: int|
                0 <= k < file.tensors.len() ==> (#[trigger] file.tensors[k]).name
                    != "output.weight"@
            &&& config.head_dim is None
            &&& config.rms_norm_eps == eps
            &&& config.rope_theta == theta
            &&& file.metadata.contains_key("qwen2.attention.layer_norm_rms_epsilon"@)
            &&& file.metadata["qwen2.attention.layer_norm_rms_epsilon"@] matches MetadataView::Number {
                number,
            } && call_ensures(single, (number,), eps)
            &&& !file.metadata.contains_key("qwen2.rope.freq_base"@) ==> theta.bits == 0x461c_4000
            &&& file.metadata.contains_key("qwen2.rope.freq_base"@) ==> (
            file.metadata["qwen2.rope.freq_base"@] matches MetadataView::Number { number }
                ==> call_ensures(single, (number,), theta))
        }),
{
    let name = "token_embd.weight"@;
    let k = choose|k: int| 0 <= k < file.tensors.len() && (#[trigger] file.tensors[k]).name == name;
    assert(file.tensors[k].dimensions.len() == 2);
}

/// What loading does with a tensor. Only a matrix that the file holds as plain numbers is quantized.
/// Four bits throughout, if that was asked for; the mixture keeps eight bits where the name tells an
/// embedding, a projection to the vocabulary or a value projection, six bits for a down projection,
/// and four bits elsewhere.
pub proof fn names_decide_the_quantizer(
    quantization: LoadQuantization,
    name: Seq<char>,
    rank: int,
    ty: QuantType,
)
    ensures
        rank != 2 ==> recipe_for(quantization, name, rank, ty) is None,
        recipe_for(quantization, name, rank, ty) is Some <==> rank == 2 && quantization
            != LoadQuantization::Keep && (ty == QuantType::F32 || ty == QuantType::F16 || ty
            == QuantType::BF16),
        recipe_for(LoadQuantization::Q4K, name, rank, ty) matches Some(recipe) ==> recipe
            == Recipe::Q4K,
        recipe_for(LoadQuantization::Q4KM, name, rank, ty) matches Some(recipe) ==> {
            let within = |part: Seq<char>|
                exists|at: int|
                    0 <= at && at + part.len() <= name.len() && #[trigger] name.subrange(
                        at,
                        at + part.len(),
                    ) == part;
            let eight = name == "token_embd.weight"@ || name == "lm_head.weight"@ || name
                == "output.weight"@ || within("embed_tokens"@) || within("attn.v_proj.weight"@)
                || within("attn_v.weight"@);
            let six = within("mlp.down_proj.weight"@) || within("ffn_down.weight"@);
            recipe == (if eight {
                Recipe::Q8_0
            } else if six {
                Recipe::Q6K
            } else {
                Recipe::Q4K
            })
        },
{
    lemma_occurs(name, "embed_tokens"@);
    lemma_occurs(name, "attn.v_proj.weight"@);
    lemma_occurs(name, "attn_v.weight"@);
    lemma_occurs(name, "mlp.down_proj.weight"@);
    lemma_occurs(name, "ffn_down.weight"@);
}

/// A part occurs in a text where some stretch of the text equals it.
proof fn lemma_occurs(name: Seq<char>, part: Seq<char>)
    ensures
        text::occurs(name, part) <==> exists|at: int|
            0 <= at && at + part.len() <= name.len() && #[trigger] name.subrange(
                at,
                at + part.len(),
            ) == part,
{
    if text::occurs(name, part) {
        let at = choose|at: int| text::occurs_at(name, part, at);
        assert(name.subrange(at, at + part.len()) == part);
    }
    if exists|at: int|
        0 <= at && at + part.len() <= name.len() && #[trigger] name.subrange(at, at + part.len())
            == part {
        let at = choose|at: int|
            0 <= at && at + part.len() <= name.len() && #[trigger] name.subrange(
                at,
                at + part.len(),
            ) == part;
        assert(text::occurs_at(name, part, at));
    }
}

/// The keys of one position are as wide as the key/value heads together.
proof fn lemma_kv_width(config: LlamaConfig)
    requires
        config.valid(),
    ensures
        config.kv_size() == config.num_key_value_heads * (config.hidden_size as int
            / config.num_attention_heads as int),
{
    let heads = config.num_attention_heads as int;
    let width = config.head_width();
    assert(heads * width / heads == width) by (nonlinear_arith)
        requires
            heads > 0,
    ;
}

/// No layer is bad where none of them is the first bad one.
#[verifier::spinoff_prover]
#[verifier::rlimit(80)]
proof fn lemma_layers_without_fault<'a>(
    weights: Weights<'a>,
    naming: Naming,
    config: LlamaConfig,
    n: int,
)
    ensures
        layers_fault(weights, naming, config, n) is None <==> forall|i: int|
            0 <= i < n ==> #[trigger] layer_fault(weights, naming, config, i) is None,
    decreases n,
{
    if n > 0 {
        lemma_layers_without_fault(weights, naming, config, n - 1);
        assert(layer_fault(weights, naming, config, n - 1) is None
            || layer_fault(weights, naming, config, n - 1) is Some);
    }
}

/// A GGUF file's weights make a model exactly where every tensor is there in its shape: a
/// projection has a row for each of its outputs, and the keys and values are as wide as the
/// key/value heads together. A bias and the projection to the vocabulary may be missing.
#[verifier::spinoff_prover]
#[verifier::rlimit(80)]
pub proof fn gguf_weights_must_have_these_shapes<'a>(weights: Weights<'a>, config: LlamaConfig)
    requires
        config.valid(),
    ensures
        weights_fault(weights, Naming::Gguf, config) is None <==> {
            let hidden = config.hidden_size;
            let inner = config.intermediate_size;
            let kv = (config.num_key_value_heads * (config.hidden_size as int
                / config.num_attention_heads as int)) as usize;
            &&& (weights.found("token_embd.weight"@) matches Ok(stored) && stored.shape == seq![config.vocab_size, hidden])
            &&& (weights.found("output_norm.weight"@) matches Ok(stored) && stored.shape == seq![hidden])
            &&& weights.has("output.weight"@) ==> (weights.found("output.weight"@) matches Ok(stored) && stored.shape == seq![config.vocab_size, hidden])
            &&& forall|i: nat|
                i < config.num_hidden_layers ==> {
                    let at = "blk."@ + #[trigger] text::decimal(i);
                    &&& (weights.found(at + ".attn_norm.weight"@) matches Ok(stored) && stored.shape == seq![hidden])
                    &&& (weights.found(at + ".ffn_norm.weight"@) matches Ok(stored) && stored.shape == seq![hidden])
                    &&& (weights.found(at + ".attn_q.weight"@) matches Ok(stored) && stored.shape == seq![hidden, hidden])
                    &&& (weights.has(at + ".attn_q.bias"@) ==> (weights.found(at + ".attn_q.bias"@) matches Ok(stored) && stored.shape == seq![hidden]))
                    &&& (weights.found(at + ".attn_k.weight"@) matches Ok(stored) && stored.shape == seq![kv, hidden])
                    &&& (weights.has(at + ".attn_k.bias"@) ==> (weights.found(at + ".attn_k.bias"@) matches Ok(stored) && stored.shape == seq![kv]))
                    &&& (weights.found(at + ".attn_v.weight"@) matches Ok(stored) && stored.shape == seq![kv, hidden])
                    &&& (weights.has(at + ".attn_v.bias"@) ==> (weights.found(at + ".attn_v.bias"@) matches Ok(stored) && stored.shape == seq![kv]))
                    &&& (weights.found(at + ".attn_output.weight"@) matches Ok(stored) && stored.shape == seq![hidden, hidden])
                    &&& (weights.found(at + ".ffn_gate.weight"@) matches Ok(stored) && stored.shape == seq![inner, hidden])
                    &&& (weights.found(at + ".ffn_up.weight"@) matches Ok(stored) && stored.shape == seq![inner, hidden])
                    &&& (weights.found(at + ".ffn_down.weight"@) matches Ok(stored) && stored.shape == seq![hidden, inner])
                }
        },
{
    lemma_kv_width(config);
    let n = config.num_hidden_layers as int;
    lemma_layers_without_fault(weights, Naming::Gguf, config, n);
    assert forall|i: int| 0 <= i < n implies (#[trigger] layer_fault(
        weights,
        Naming::Gguf,
        config,
        i,
    ) is None <==> {
        let hidden = config.hidden_size;
        let inner = config.intermediate_size;
        let kv = config.kv_size() as usize;
        let at = "blk."@ + text::decimal(i as nat);
            &&& (weights.found(at + ".attn_norm.weight"@) matches Ok(stored) && stored.shape == seq![hidden])
            &&& (weights.found(at + ".ffn_norm.weight"@) matches Ok(stored) && stored.shape == seq![hidden])
            &&& (weights.found(at + ".attn_q.weight"@) matches Ok(stored) && stored.shape == seq![hidden, hidden])
            &&& (weights.has(at + ".attn_q.bias"@) ==> (weights.found(at + ".attn_q.bias"@) matches Ok(stored) && stored.shape == seq![hidden]))
            &&& (weights.found(at + ".attn_k.weight"@) matches Ok(stored) && stored.shape == seq![kv, hidden])
            &&& (weights.has(at + ".attn_k.bias"@) ==> (weights.found(at + ".attn_k.bias"@) matches Ok(stored) && stored.shape == seq![kv]))
            &&& (weights.found(at + ".attn_v.weight"@) matches Ok(stored) && stored.shape == seq![kv, hidden])
            &&& (weights.has(at + ".attn_v.bias"@) ==> (weights.found(at + ".attn_v.bias"@) matches Ok(stored) && stored.shape == seq![kv]))
            &&& (weights.found(at + ".attn_output.weight"@) matches Ok(stored) && stored.shape == seq![hidden, hidden])
            &&& (weights.found(at + ".ffn_gate.weight"@) matches Ok(stored) && stored.shape == seq![inner, hidden])
            &&& (weights.found(at + ".ffn_up.weight"@) matches Ok(stored) && stored.shape == seq![inner, hidden])
            &&& (weights.found(at + ".ffn_down.weight"@) matches Ok(stored) && stored.shape == seq![hidden, inner])
    }) by {}
    if weights_fault(weights, Naming::Gguf, config) is None {
        assert forall|i: nat| i < n implies layer_fault(
            weights,
            Naming::Gguf,
            config,
            i as int,
        ) is None && #[trigger] text::decimal(i).len() >= 0 by {}
    } else {
        assert(layers_fault(weights, Naming::Gguf, config, n) is Some ==> exists|i: int|
            0 <= i < n && #[trigger] layer_fault(weights, Naming::Gguf, config, i) is Some
                && text::decimal(i as nat).len() >= 0);
    }
}

/// A safetensors store's weights make a model exactly where every tensor is there in its shape: a
/// projection has a row for each of its outputs, and the keys and values are as wide as the
/// key/value heads together. A bias and the projection to the vocabulary may be missing.
#[verifier::spinoff_prover]
#[verifier::rlimit(80)]
pub proof fn safetensors_weights_must_have_these_shapes<'a>(weights: Weights<'a>, config: LlamaConfig)
    requires
        config.valid(),
    ensures
        weights_fault(weights, Naming::HuggingFace, config) is None <==> {
            let hidden = config.hidden_size;
            let inner = config.intermediate_size;
            let kv = (config.num_key_value_heads * (config.hidden_size as int
                / config.num_attention_heads as int)) as usize;
            &&& (weights.found("model.embed_tokens.weight"@) matches Ok(stored) && stored.shape == seq![config.vocab_size, hidden])
            &&& (weights.found("model.norm.weight"@) matches Ok(stored) && stored.shape == seq![hidden])
            &&& weights.has("lm_head.weight"@) ==> (weights.found("lm_head.weight"@) matches Ok(stored) && stored.shape == seq![config.vocab_size, hidden])
            &&& forall|i: nat|
                i < config.num_hidden_layers ==> {
                    let at = "model.layers."@ + #[trigger] text::decimal(i);
                    &&& (weights.found(at + ".input_layernorm.weight"@) matches Ok(stored) && stored.shape == seq![hidden])
                    &&& (weights.found(at + ".post_attention_layernorm.weight"@) matches Ok(stored) && stored.shape == seq![hidden])
                    &&& (weights.found(at + ".self_attn.q_proj.weight"@) matches Ok(stored) && stored.shape == seq![hidden, hidden])
                    &&& (weights.has(at + ".self_attn.q_proj.bias"@) ==> (weights.found(at + ".self_attn.q_proj.bias"@) matches Ok(stored) && stored.shape == seq![hidden]))
                    &&& (weights.found(at + ".self_attn.k_proj.weight"@) matches Ok(stored) && stored.shape == seq![kv, hidden])
                    &&& (weights.has(at + ".self_attn.k_proj.bias"@) ==> (weights.found(at + ".self_attn.k_proj.bias"@) matches Ok(stored) && stored.shape == seq![kv]))
                    &&& (weights.found(at + ".self_attn.v_proj.weight"@) matches Ok(stored) && stored.shape == seq![kv, hidden])
                    &&& (weights.has(at + ".self_attn.v_proj.bias"@) ==> (weights.found(at + ".self_attn.v_proj.bias"@) matches Ok(stored) && stored.shape == seq![kv]))
                    &&& (weights.found(at + ".self_attn.o_proj.weight"@) matches Ok(stored) && stored.shape == seq![hidden, hidden])
                    &&& (weights.found(at + ".mlp.gate_proj.weight"@) matches Ok(stored) && stored.shape == seq![inner, hidden])
                    &&& (weights.found(at + ".mlp.up_proj.weight"@) matches Ok(stored) && stored.shape == seq![inner, hidden])
                    &&& (weights.found(at + ".mlp.down_proj.weight"@) matches Ok(stored) && stored.shape == seq![hidden, inner])
                }
        },
{
    lemma_kv_width(config);
    let n = config.num_hidden_layers as int;
    lemma_layers_without_fault(weights, Naming::HuggingFace, config, n);
    assert forall|i: int| 0 <= i < n implies (#[trigger] layer_fault(
        weights,
        Naming::HuggingFace,
        config,
        i,
    ) is None <==> {
        let hidden = config.hidden_size;
        let inner = config.intermediate_size;
        let kv = config.kv_size() as usize;
        let at = "model.layers."@ + text::decimal(i as nat);
            &&& (weights.found(at + ".input_layernorm.weight"@) matches Ok(stored) && stored.shape == seq![hidden])
            &&& (weights.found(at + ".post_attention_layernorm.weight"@) matches Ok(stored) && stored.shape == seq![hidden])
            &&& (weights.found(at + ".self_attn.q_proj.weight"@) matches Ok(stored) && stored.shape == seq![hidden, hidden])
            &&& (weights.has(at + ".self_attn.q_proj.bias"@) ==> (weights.found(at + ".self_attn.q_proj.bias"@) matches Ok(stored) && stored.shape == seq![hidden]))
            &&& (weights.found(at + ".self_attn.k_proj.weight"@) matches Ok(stored) && stored.shape == seq![kv, hidden])
            &&& (weights.has(at + ".self_attn.k_proj.bias"@) ==> (weights.found(at + ".self_attn.k_proj.bias"@) matches Ok(stored) && stored.shape == seq![kv]))
            &&& (weights.found(at + ".self_attn.v_proj.weight"@) matches Ok(stored) && stored.shape == seq![kv, hidden])
            &&& (weights.has(at + ".self_attn.v_proj.bias"@) ==> (weights.found(at + ".self_attn.v_proj.bias"@) matches Ok(stored) && stored.shape == seq![kv]))
            &&& (weights.found(at + ".self_attn.o_proj.weight"@) matches Ok(stored) && stored.shape == seq![hidden, hidden])
            &&& (weights.found(at + ".mlp.gate_proj.weight"@) matches Ok(stored) && stored.shape == seq![inner, hidden])
            &&& (weights.found(at + ".mlp.up_proj.weight"@) matches Ok(stored) && stored.shape == seq![inner, hidden])
            &&& (weights.found(at + ".mlp.down_proj.weight"@) matches Ok(stored) && stored.shape == seq![hidden, inner])
    }) by {}
    if weights_fault(weights, Naming::HuggingFace, config) is None {
        assert forall|i: nat| i < n implies layer_fault(
            weights,
            Naming::HuggingFace,
            config,
            i as int,
        ) is None && #[trigger] text::decimal(i).len() >= 0 by {}
    } else {
        assert(layers_fault(weights, Naming::HuggingFace, config, n) is Some ==> exists|i: int|
            0 <= i < n && #[trigger] layer_fault(weights, Naming::HuggingFace, config, i) is Some
                && text::decimal(i as nat).len() >= 0);
    }
}

/// The values of a stored tensor are its decoded elements, row after row.
pub proof fn stored_values_are_decoded_row_by_row<T: Copy, B: KernelBackend<T>>(
    backend: B,
    stored: Stored,
    row: int,
    col: int,
)
    requires
        0 < stored.shape.len() <= 2,
        0 <= row < quant::shape_rows(stored.shape),
        0 <= col < stored.shape.last(),
    ensures
        ({
            let cols = stored.shape.last() as int;
            let rows = if stored.shape.len() == 2 {
                stored.shape[0] as int
            } else {
                1
            };
            &&& values_of(backend, stored).len() == rows * cols
            &&& values_of(backend, stored)[row * cols + col] == backend.decoded(
                stored.code(row, col),
            )
        }),
{
    let cols = stored.shape.last() as int;
    let rows = quant::shape_rows(stored.shape);
    assert((row * cols + col) / cols == row && (row * cols + col) % cols == col
        && 0 <= row * cols + col < rows * cols) by (nonlinear_arith)
        requires
            0 <= col < cols,
            0 <= row < rows,
    ;
}

/// The element of a stored tensor is the one at its place in its block, of the block that lies that
/// many whole blocks behind the start of its row.
pub proof fn stored_elements_lie_in_their_blocks(stored: Stored, row: int, col: int)
    requires
        0 < stored.shape.len() <= 2,
        0 <= row < quant::shape_rows(stored.shape),
        0 <= col < stored.shape.last(),
        quant::tensor_fault(stored.data.len() as int, stored.shape, stored.quant_type) is None,
    ensures
        ({
            let ty = stored.quant_type;
            let width = stored.shape.last() as int / ty.block_len() * ty.block_bytes();
            let start = row * width + col / ty.block_len() * ty.block_bytes();
            stored.code(row, col) == quant::block_code(
                stored.data.subrange(start, start + ty.block_bytes()),
                ty,
                col % ty.block_len(),
            )
        }),
{
    let ty = stored.quant_type;
    let bytes = ty.block_bytes();
    let n = stored.shape.last() as int / ty.block_len();
    let width = n * bytes;
    let rows = quant::shape_rows(stored.shape);
    let b = col / ty.block_len();
    assert(0 <= b < n);
    assert(0 <= b * bytes && b * bytes + bytes <= width && (b + 1) * bytes == b * bytes + bytes)
        by (nonlinear_arith)
        requires
            0 <= b < n,
            bytes > 0,
            width == n * bytes,
    ;
    assert((row + 1) * width == row * width + width && 0 <= row * width && row * width + width
        <= rows * width) by (nonlinear_arith)
        requires
            0 <= row < rows,
            0 <= width,
    ;
    let line = stored.data.subrange(row * width, (row + 1) * width);
    assert(line.subrange(b * bytes, (b + 1) * bytes) =~= stored.data.subrange(
        row * width + b * bytes,
        row * width + b * bytes + bytes,
    ));
}

/// What loading makes of a stored tensor: where no quantizer is asked for, a tensor of the same
/// shape, format and bytes; otherwise a tensor of the same shape in the quantizer's format, whose
/// blocks hold what the encoder fitted to the decoded values.
pub proof fn loading_keeps_or_quantizes<
    'a,
    T: Copy,
    B: KernelBackend<T>,
    F: Fn(QuantType, &[T]) -> BlockCodes,
>(
    backend: B,
    encode: F,
    quantization: LoadQuantization,
    name: Seq<char>,
    stored: Stored,
    tensor: QuantTensor<'a>,
)
    requires
        loaded(backend, encode, quantization, name, stored, tensor),
    ensures
        tensor.shape@ == stored.shape,
        match recipe_for(quantization, name, stored.shape.len() as int, stored.quant_type) {
            None => tensor.quant_type == stored.quant_type && tensor.data.contents()
                == stored.data,
            Some(recipe) => {
                let cols = stored.shape.last() as int;
                let narrow = |ty: QuantType|
                    if cols % 32 == 0 {
                        ty
                    } else {
                        QuantType::F32
                    };
                &&& tensor.quant_type == match recipe {
                    Recipe::Q4K => if cols % 256 == 0 {
                        QuantType::Q4K
                    } else {
                        narrow(QuantType::Q5_0)
                    },
                    Recipe::Q6K => if cols % 256 == 0 {
                        QuantType::Q6K
                    } else {
                        narrow(QuantType::Q8_0)
                    },
                    Recipe::Q8_0 => narrow(QuantType::Q8_0),
                }
                &&& quant::encoded(
                    encode,
                    tensor.quant_type,
                    values_of(backend, stored),
                    tensor,
                )
            },
        },
{
}

/// The names of the quantizations.
pub proof fn quantizations_have_these_names(name: Seq<char>)
    ensures
        quantization_named("none"@) == Some(LoadQuantization::Keep),
        quantization_named("q4k"@) == Some(LoadQuantization::Q4K),
        quantization_named("q4_k"@) == Some(LoadQuantization::Q4K),
        quantization_named("q4km"@) == Some(LoadQuantization::Q4KM),
        quantization_named("q4_k_m"@) == Some(LoadQuantization::Q4KM),
        quantization_named(name) is Some ==> name == "none"@ || name == "q4k"@ || name == "q4_k"@
            || name == "q4km"@ || name == "q4_k_m"@,
{
    reveal_strlit("none");
    reveal_strlit("q4k");
    reveal_strlit("q4_k");
    reveal_strlit("q4km");
    reveal_strlit("q4_k_m");
    assert("none"@[0] == 'n' && "q4_k"@[0] == 'q' && "q4km"@[0] == 'q');
    assert("q4_k"@[2] == '_' && "q4km"@[2] == 'k');
    assert("q4k"@.len() == 3 && "q4_k_m"@.len() == 6);
}

/// Which format a path holds: a file by its extension; a directory by its safetensors files, and else
/// by its one GGUF file. Several GGUF files are refused, and so is all else.
pub proof fn paths_hold_these_formats(facts: PathFacts)
    ensures
        facts.is_file && facts.extension is Some && facts.extension->0@ == "gguf"@ ==> format_at(
            facts,
        ) == Ok::<ModelFormat, LoadFault>(ModelFormat::GgufFile),
        facts.is_file && facts.extension is Some && facts.extension->0@ == "safetensors"@
            ==> format_at(facts) == Ok::<ModelFormat, LoadFault>(ModelFormat::SafetensorsFile),
        !facts.is_file && facts.is_dir && facts.has_safetensors ==> format_at(facts) == Ok::<
            ModelFormat,
            LoadFault,
        >(ModelFormat::SafetensorsDirectory),
        !facts.is_file && facts.is_dir && !facts.has_safetensors && facts.ggufs == 1 ==> format_at(
            facts,
        ) == Ok::<ModelFormat, LoadFault>(ModelFormat::GgufInDirectory),
        !facts.is_file && facts.is_dir && !facts.has_safetensors && facts.ggufs > 1 ==> format_at(
            facts,
        ) == Err::<ModelFormat, LoadFault>(LoadFault::SeveralGgufs),
        !facts.is_file && (!facts.is_dir || (!facts.has_safetensors && facts.ggufs == 0))
            ==> format_at(facts) == Err::<ModelFormat, LoadFault>(LoadFault::UnknownFormat),
{
    reveal_strlit("gguf");
    reveal_strlit("safetensors");
    assert("gguf"@.len() != "safetensors"@.len());
}

/// Loading a GGUF file names what it misses: the family, then the token embeddings, then the sizes,
/// each by its key, in the order in which they are read.
pub proof fn missing_entries_are_named(file: GgufView)
    ensures
        !file.metadata.contains_key("general.architecture"@) ==> metadata_fault(file) == Some(
            (
                LoadFault::Gguf { fault: GgufFault::MissingText },
                "general.architecture"@,
            ),
        ),
        family_fault(file) is None && file.tensor_named("token_embd.weight"@) is None
            ==> metadata_fault(file) == Some(
            (LoadFault::Gguf { fault: GgufFault::MissingTensor }, "token_embd.weight"@),
        ),
        family_fault(file) is None && embedding_fault(file) is None ==> {
            let missing = |key: Seq<char>| !file.metadata.contains_key(key);
            let small = |key: Seq<char>|
                file.metadata.contains_key(key) && (file.metadata[key].integer() matches Some(n) && n
                    <= usize::MAX);
            let error = |key: Seq<char>|
                Some((LoadFault::Gguf { fault: GgufFault::MissingInteger }, key));
            &&& missing("qwen2.embedding_length"@) ==> metadata_fault(file) == error(
                "qwen2.embedding_length"@,
            )
            &&& small("qwen2.embedding_length"@) && missing("qwen2.feed_forward_length"@)
                ==> metadata_fault(file) == error("qwen2.feed_forward_length"@)
            &&& small("qwen2.embedding_length"@) && small("qwen2.feed_forward_length"@) && missing(
                "qwen2.attention.head_count"@,
            ) ==> metadata_fault(file) == error("qwen2.attention.head_count"@)
            &&& small("qwen2.embedding_length"@) && small("qwen2.feed_forward_length"@) && small(
                "qwen2.attention.head_count"@,
            ) && missing("qwen2.attention.head_count_kv"@) ==> metadata_fault(file) == error(
                "qwen2.attention.head_count_kv"@,
            )
            &&& small("qwen2.embedding_length"@) && small("qwen2.feed_forward_length"@) && small(
                "qwen2.attention.head_count"@,
            ) && small("qwen2.attention.head_count_kv"@) && missing("qwen2.block_count"@)
                ==> metadata_fault(file) == error("qwen2.block_count"@)
        },
{
}

/// Only the family `qwen2` is loaded.
pub proof fn other_families_are_refused(file: GgufView, family: Seq<char>)
    requires
        file.metadata.contains_key("general.architecture"@),
        file.metadata["general.architecture"@] == (MetadataView::Text { value: family }),
        family != "qwen2"@,
    ensures
        metadata_fault(file) == Some((LoadFault::Architecture, family)),
{
}

} // verus!
