use half::{bf16, f16};
use llama_rs::activation::{
    activation_layout, quantize_activation_q8_32, quantize_activation_q8k, ActivationLayout,
    BlockQ8K, BlockQ8_32, QK_K,
};
use llama_rs::architecture::{ArchitectureKind, CausalModel, LogitsMode, ModelError};
use llama_rs::backend::{BackendConfig, KernelKind};
use llama_rs::kernels::{Backend, Kernels};
use llama_rs::cache::{CacheError, InferenceBuffers, KVCache};
use llama_rs::config::{ConfigError, LlamaConfig};
use llama_rs::float::Single;
use llama_rs::model::{LinearLayer, Qwen2Model, RMSNorm, TransformerBlock};
use llama_rs::pack::BlockCodes;
use llama_rs::product::{begin, share_products, Activation, Job};
use llama_rs::quant::{dot_row, value_at, ElementCode, QuantError, QuantTensor, QuantType};
use llama_rs::simd::{dot_2rows_q8_32, dot_2rows_q8k, dot_q8_32, dot_q8k, BlockDot};
use llama_rs::tensor;
use llama_rs::benchmark::{median_round, repeated_prompt, InferenceMetrics};
use llama_rs::engine::{
    chat_prompt, collect_eos, find_eos_tokens, validate_sampling, EngineError, EngineOptions, InferenceEngine,
};
use llama_rs::float::Double;
use llama_rs::gguf::{GgufFault, MetadataNumber};
use llama_rs::loader::{
    as_usize, choose_recipe, maybe_quantize, GgufLoader, LoadOptions, LoadQuantization, ModelFormat,
    ModelLoader, PathFacts, Recipe, SafetensorsLoader,
};
use llama_rs::sampling::{
    argmax, nucleus, pick, rank, sample, Sampling, SamplingError, SamplingMath,
};
use llama_rs::store::{open_header, LoadFault, SafetensorStore, Shard};
use safetensors::tensor::{Dtype, TensorView};
use tokenizers::Tokenizer;

/// The value that a stored code stands for.
fn decode(code: ElementCode) -> f32 {
    let half = |bits: u16| f16::from_bits(bits).to_f32();
    match code {
        ElementCode::F32 { bits } => f32::from_bits(bits),
        ElementCode::F16 { bits } => half(bits),
        ElementCode::BF16 { bits } => bf16::from_bits(bits).to_f32(),
        ElementCode::Scaled { d, code } => half(d) * code as f32,
        ElementCode::Shifted { d, m, code } => half(d) * code as f32 + half(m),
        ElementCode::Grouped { d, dmin, scale, min, code } => {
            half(d) * scale as f32 * code as f32 - half(dmin) * min as f32
        }
        ElementCode::GroupScaled { d, scale, code } => half(d) * scale as f32 * code as f32,
    }
}

/// Fits one block of values to a format. The block has as many values as the format's blocks have.
fn encode(ty: QuantType, values: &[f32]) -> BlockCodes {
    match ty {
        QuantType::Q5_0 => fit_q5_0(values),
        QuantType::Q8_0 => fit_q8_0(values),
        QuantType::Q4K => fit_q4k(values),
        QuantType::Q6K => fit_q6k(values),
        _ => BlockCodes::F32 { bits: values[0].to_bits() },
    }
}

fn half_bits(value: f32) -> u16 {
    f16::from_f32(value).to_bits()
}

fn fit_q8_0(values: &[f32]) -> BlockCodes {
    let abs_max = values.iter().fold(0.0f32, |max, value| max.max(value.abs()));
    let d = abs_max / 127.0;
    let inv = if d == 0.0 { 0.0 } else { 1.0 / d };
    let mut codes = [0i8; 32];
    for (code, &value) in codes.iter_mut().zip(values) {
        *code = (value * inv).round().clamp(-127.0, 127.0) as i8;
    }
    BlockCodes::Q8_0 { d: half_bits(d), codes }
}

fn fit_q5_0(values: &[f32]) -> BlockCodes {
    let mut max_value = 0.0f32;
    let mut abs_max = 0.0f32;
    for &value in values {
        if value.abs() > abs_max {
            abs_max = value.abs();
            max_value = value;
        }
    }
    let d = if abs_max == 0.0 { 0.0 } else { max_value / -16.0 };
    let inv = if d == 0.0 { 0.0 } else { 1.0 / d };
    let mut codes = [0u8; 32];
    for (code, &value) in codes.iter_mut().zip(values) {
        *code = (value * inv + 16.5).floor().clamp(0.0, 31.0) as u8;
    }
    BlockCodes::Q5_0 { d: half_bits(d), codes }
}

fn fit_q6k(values: &[f32]) -> BlockCodes {
    let mut codes = [0u8; 256];
    let mut scales = [0.0f32; 16];
    let mut max_scale = 0.0f32;
    let mut max_abs_scale = 0.0f32;
    for group in 0..16 {
        let range = group * 16..group * 16 + 16;
        let scale = fit_signed_group(&values[range.clone()], &mut codes[range]);
        scales[group] = scale;
        if scale.abs() > max_abs_scale {
            max_abs_scale = scale.abs();
            max_scale = scale;
        }
    }
    if max_abs_scale < 1e-15 {
        return BlockCodes::Q6K { d: 0, scales: [0; 16], codes: [0; 256] };
    }
    let inv_scale = -128.0 / max_scale;
    let d = 1.0 / inv_scale;
    let rounded_d = f16::from_f32(d).to_f32();
    let mut scale_codes = [0i8; 16];
    for group in 0..16 {
        scale_codes[group] = (inv_scale * scales[group]).round().min(127.0) as i8;
        let group_d = rounded_d * scale_codes[group] as f32;
        if group_d == 0.0 {
            continue;
        }
        for i in 0..16 {
            let level = (values[group * 16 + i] / group_d).round().clamp(-32.0, 31.0) as i32;
            codes[group * 16 + i] = (level + 32) as u8;
        }
    }
    BlockCodes::Q6K { d: half_bits(d), scales: scale_codes, codes }
}

/// Fits sixteen values to 64 signed levels, with a weighted search over nearby scales.
fn fit_signed_group(values: &[f32], codes: &mut [u8]) -> f32 {
    let mut max = 0.0f32;
    let mut abs_max = 0.0f32;
    for &value in values {
        if value.abs() > abs_max {
            abs_max = value.abs();
            max = value;
        }
    }
    if abs_max < 1e-15 {
        codes.fill(0);
        return 0.0;
    }
    let mut inv_scale = -32.0 / max;
    let mut sum_lx = 0.0;
    let mut sum_l2 = 0.0;
    for i in 0..16 {
        let level = (inv_scale * values[i]).round().clamp(-32.0, 31.0) as i32;
        codes[i] = (level + 32) as u8;
        let weight = values[i] * values[i];
        sum_lx += weight * values[i] * level as f32;
        sum_l2 += weight * (level * level) as f32;
    }
    let mut scale = if sum_l2 > 0.0 { sum_lx / sum_l2 } else { 0.0 };
    let mut best = scale * sum_lx;
    for step in -9..=9 {
        if step == 0 {
            continue;
        }
        inv_scale = -(32.0 + 0.1 * step as f32) / max;
        sum_lx = 0.0;
        sum_l2 = 0.0;
        for &value in values {
            let level = (inv_scale * value).round().clamp(-32.0, 31.0) as i32;
            let weight = value * value;
            sum_lx += weight * value * level as f32;
            sum_l2 += weight * (level * level) as f32;
        }
        if sum_l2 > 0.0 && sum_lx * sum_lx > best * sum_l2 {
            for i in 0..16 {
                let level = (inv_scale * values[i]).round().clamp(-32.0, 31.0) as i32;
                codes[i] = (level + 32) as u8;
            }
            scale = sum_lx / sum_l2;
            best = scale * sum_lx;
        }
    }
    scale
}

fn fit_q4k(values: &[f32]) -> BlockCodes {
    let mut local_scales = [0.0f32; 8];
    let mut local_mins = [0.0f32; 8];
    let mut max_scale = 0.0f32;
    let mut max_min = 0.0f32;
    let mut codes = [0u8; 256];
    for group in 0..8 {
        let range = group * 32..group * 32 + 32;
        let group_values = &values[range.clone()];
        let sum_sq: f32 = group_values.iter().map(|v| v * v).sum();
        let average = (sum_sq / 32.0).sqrt();
        let mut weights = [0.0f32; 32];
        for i in 0..32 {
            weights[i] = average + group_values[i].abs();
        }
        let (scale, min) = fit_unsigned_group(group_values, &weights, &mut codes[range]);
        local_scales[group] = scale;
        local_mins[group] = min;
        max_scale = max_scale.max(scale);
        max_min = max_min.max(min);
    }
    let inv_scale = if max_scale > 0.0 { 63.0 / max_scale } else { 0.0 };
    let inv_min = if max_min > 0.0 { 63.0 / max_min } else { 0.0 };
    let mut scales = [0u8; 8];
    let mut mins = [0u8; 8];
    for group in 0..8 {
        scales[group] = (inv_scale * local_scales[group]).round().clamp(0.0, 63.0) as u8;
        mins[group] = (inv_min * local_mins[group]).round().clamp(0.0, 63.0) as u8;
    }
    let d = half_bits(max_scale / 63.0);
    let dmin = half_bits(max_min / 63.0);
    let d_value = f16::from_bits(d).to_f32();
    let dmin_value = f16::from_bits(dmin).to_f32();
    for group in 0..8 {
        let scale = d_value * scales[group] as f32;
        if scale == 0.0 {
            continue;
        }
        let min = dmin_value * mins[group] as f32;
        for i in 0..32 {
            codes[group * 32 + i] =
                ((values[group * 32 + i] + min) / scale).round().clamp(0.0, 15.0) as u8;
        }
    }
    BlockCodes::Q4K { d, dmin, scales, mins, codes }
}

/// Fits 32 values to sixteen levels above a minimum, with a weighted search over nearby scales.
fn fit_unsigned_group(values: &[f32], weights: &[f32], codes: &mut [u8]) -> (f32, f32) {
    let mut min = values[0];
    let mut max = values[0];
    let mut sum_weight = weights[0];
    let mut sum_value = weights[0] * values[0];
    for i in 1..32 {
        min = min.min(values[i]);
        max = max.max(values[i]);
        sum_weight += weights[i];
        sum_value += weights[i] * values[i];
    }
    min = min.min(0.0);
    if max == min {
        codes.fill(0);
        return (0.0, -min);
    }
    let range = max - min;
    let mut inv_scale = 15.0 / range;
    let mut scale = 1.0 / inv_scale;
    let mut best_error = 0.0;
    for i in 0..32 {
        let code = (inv_scale * (values[i] - min)).round().clamp(0.0, 15.0) as u8;
        codes[i] = code;
        let diff = scale * code as f32 + min - values[i];
        best_error += weights[i] * diff * diff;
    }
    let mut trial = [0u8; 32];
    for step in 0..=20 {
        inv_scale = (-1.0 + 0.1 * step as f32 + 15.0) / range;
        let mut sum_l = 0.0;
        let mut sum_l2 = 0.0;
        let mut sum_xl = 0.0;
        for i in 0..32 {
            let code = (inv_scale * (values[i] - min)).round().clamp(0.0, 15.0) as u8;
            trial[i] = code;
            let weighted_code = weights[i] * code as f32;
            sum_l += weighted_code;
            sum_l2 += weighted_code * code as f32;
            sum_xl += weighted_code * values[i];
        }
        let determinant = sum_weight * sum_l2 - sum_l * sum_l;
        if determinant > 0.0 {
            let mut candidate_scale = (sum_weight * sum_xl - sum_value * sum_l) / determinant;
            let mut candidate_min = (sum_l2 * sum_value - sum_l * sum_xl) / determinant;
            if candidate_min > 0.0 {
                candidate_min = 0.0;
                candidate_scale = sum_xl / sum_l2;
            }
            let mut error = 0.0;
            for i in 0..32 {
                let diff = candidate_scale * trial[i] as f32 + candidate_min - values[i];
                error += weights[i] * diff * diff;
            }
            if error < best_error {
                codes.copy_from_slice(&trial);
                best_error = error;
                scale = candidate_scale;
                min = candidate_min;
            }
        }
    }
    (scale, -min)
}

fn single(value: f32) -> Single {
    Single { bits: value.to_bits() }
}

fn step(sum: f32, code: ElementCode, x: f32) -> f32 {
    sum + decode(code) * x
}

fn round_block<const N: usize>(values: &[f32]) -> (Single, [i8; N]) {
    let amax = values.iter().fold(0.0f32, |max, v| max.max(v.abs()));
    let d = amax / 127.0;
    let inv = if d == 0.0 { 0.0 } else { 1.0 / d };
    let mut codes = [0i8; N];
    for (code, &value) in codes.iter_mut().zip(values) {
        *code = (value * inv).round().clamp(-127.0, 127.0) as i8;
    }
    (single(d), codes)
}

fn share(dot: &BlockDot) -> f32 {
    match *dot {
        BlockDot::Minimum { d, dmin, act, dot, mins } => {
            let act = f32::from_bits(act.bits);
            f16::from_bits(d).to_f32() * act * dot as f32
                - f16::from_bits(dmin).to_f32() * act * mins as f32
        }
        BlockDot::Offset { d, act, dot, offset, sum } => {
            let act = f32::from_bits(act.bits);
            f16::from_bits(d).to_f32() * act * (dot - offset * sum) as f32
        }
    }
}

fn row_value(dots: &[BlockDot]) -> f32 {
    dots.iter().map(share).sum()
}

#[derive(Clone, Copy)]
struct Scalar;

impl Kernels<f32> for Scalar {
    fn name(&self) -> &'static str {
        "scalar"
    }

    fn threads(&self) -> usize {
        1
    }

    fn zero(&self) -> f32 {
        0.0
    }

    fn decode(&self, code: ElementCode) -> f32 {
        decode(code)
    }

    fn products(&self, weight: &QuantTensor, input: &[f32]) -> Vec<f32> {
        (0..weight.rows())
            .map(|row| dot_row(weight.row_data(row), weight.quant_type, input, 0.0, &step))
            .collect()
    }

    fn added(&self, a: f32, b: f32) -> f32 {
        a + b
    }

    fn norm_factor(&self, hidden: &[f32], eps: Single) -> f32 {
        let mean_sq = hidden.iter().map(|x| x * x).sum::<f32>() / hidden.len() as f32;
        1.0 / (mean_sq + f32::from_bits(eps.bits)).sqrt()
    }

    fn normed(&self, value: f32, factor: f32, weight: f32) -> f32 {
        value * (factor * weight)
    }

    fn frequency(&self, theta: Single, i: usize, head_dim: usize) -> f32 {
        1.0 / f32::from_bits(theta.bits).powf(2.0 * i as f32 / head_dim as f32)
    }

    fn angle(&self, pos: usize, frequency: f32) -> (f32, f32) {
        let angle = pos as f32 * frequency;
        (angle.cos(), angle.sin())
    }

    fn turned(&self, a: f32, b: f32, cos: f32, sin: f32) -> (f32, f32) {
        (a * cos - b * sin, a * sin + b * cos)
    }

    fn score(&self, query: &[f32], key: &[f32]) -> f32 {
        let dot: f32 = query.iter().zip(key).map(|(&a, &b)| a * b).sum();
        dot / (query.len() as f32).sqrt()
    }

    fn weights(&self, scores: &[f32]) -> Vec<f32> {
        let max = scores.iter().copied().fold(f32::NEG_INFINITY, f32::max);
        let exps: Vec<f32> = scores.iter().map(|value| (value - max).exp()).collect();
        let sum: f32 = exps.iter().sum();
        exps.iter().map(|value| value / sum).collect()
    }

    fn mixed(&self, sum: f32, value: f32, weight: f32) -> f32 {
        sum + weight * value
    }

    fn gated(&self, gate: f32, up: f32) -> f32 {
        gate / (1.0 + (-gate).exp()) * up
    }
}

fn scalar() -> Backend<f32, Scalar> {
    Backend::new(Scalar)
}

#[test]
fn q4k_roundtrip_and_dot_are_consistent() {
    let values: Vec<f32> = (0..512)
        .map(|i| ((i as f32 * 0.17).sin() + (i as f32 * 0.03).cos()) * 0.3)
        .collect();
    let tensor = QuantTensor::quantize_q4k(&values, 2, 256, &encode).unwrap();
    assert_eq!(tensor.quant_type, QuantType::Q4K);
    let mut row = vec![0.0; 256];
    tensor.row_into(1, &mut row, &decode).unwrap();
    let mae: f32 = row
        .iter()
        .zip(&values[256..])
        .map(|(a, b)| (a - b).abs())
        .sum::<f32>()
        / 256.0;
    assert!(mae < 0.06, "mae={mae}");

    let input: Vec<f32> = (0..256).map(|i| (i as f32 * 0.11).cos()).collect();
    let expected: f32 = row.iter().zip(&input).map(|(a, b)| a * b).sum();
    let mut output = [0.0; 2];
    tensor.matvec(&input, &mut output, 0.0, &step).unwrap();
    assert!((output[1] - expected).abs() < 1e-4);
}

#[test]
fn q4k_shape_falls_back_like_llama_cpp() {
    let tensor = QuantTensor::quantize_q4k(&vec![0.0; 896], 1, 896, &encode).unwrap();
    assert_eq!(tensor.quant_type, QuantType::Q5_0);
}

#[test]
fn q6k_and_q8_roundtrip() {
    let values: Vec<f32> = (0..512)
        .map(|i| ((i as f32 * 0.071).sin() - (i as f32 * 0.19).cos()) * 0.2)
        .collect();
    for (tensor, max_mae) in [
        (QuantTensor::quantize_q6k(&values, 2, 256, &encode).unwrap(), 0.008),
        (QuantTensor::quantize_q8_0(&values, 2, 256, &encode).unwrap(), 0.003),
    ] {
        let decoded = tensor.to_vec_f32(&decode);
        let mae = decoded
            .iter()
            .zip(&values)
            .map(|(a, b)| (a - b).abs())
            .sum::<f32>()
            / values.len() as f32;
        assert!(mae < max_mae, "{} mae={mae}", tensor.quant_type.name());

        let input: Vec<f32> = (0..256).map(|i| (i as f32 * 0.13).sin()).collect();
        let expected: f32 = decoded[..256].iter().zip(&input).map(|(a, b)| a * b).sum();
        let mut output = [0.0; 2];
        tensor.matvec(&input, &mut output, 0.0, &step).unwrap();
        assert!((output[0] - expected).abs() < 1e-4);
    }
}

#[test]
fn rows_that_no_block_divides_stay_as_they_are() {
    let values: Vec<f32> = (0..20).map(|i| i as f32 * 0.5).collect();
    for tensor in [
        QuantTensor::quantize_q4k(&values, 2, 10, &encode).unwrap(),
        QuantTensor::quantize_q5_0(&values, 2, 10, &encode).unwrap(),
        QuantTensor::quantize_q8_0(&values, 2, 10, &encode).unwrap(),
        QuantTensor::quantize_q6k(&values, 2, 10, &encode).unwrap(),
    ] {
        assert_eq!(tensor.quant_type, QuantType::F32);
        assert_eq!(tensor.to_vec_f32(&decode), values);
    }
    assert_eq!(
        QuantTensor::quantize_q8_0(&values, 3, 10, &encode).err(),
        Some(QuantError::ShapeMismatch)
    );
}

#[test]
fn quantizers_fall_back_to_smaller_blocks() {
    let values = vec![0.25f32; 64];
    assert_eq!(
        QuantTensor::quantize_q6k(&values, 1, 64, &encode).unwrap().quant_type,
        QuantType::Q8_0
    );
    assert_eq!(
        QuantTensor::quantize_q5_0(&values, 2, 32, &encode).unwrap().quant_type,
        QuantType::Q5_0
    );
}

#[test]
fn one_hot_inputs_read_the_element_of_their_column() {
    for ty in [
        QuantType::F32,
        QuantType::F16,
        QuantType::BF16,
        QuantType::Q4_0,
        QuantType::Q4_1,
        QuantType::Q5_0,
        QuantType::Q5_1,
        QuantType::Q8_0,
        QuantType::Q4K,
        QuantType::Q5K,
        QuantType::Q6K,
    ] {
        let cols = 2 * ty.block_size();
        let row: Vec<u8> =
            (0..2 * ty.type_size()).map(|i| (i * 37 + 11) as u8 % 0x60).collect();
        for col in 0..cols {
            let mut input = vec![0.0f32; cols];
            input[col] = 1.0;
            let expected = decode(value_at(&row, ty, col));
            assert!(expected.is_finite());
            assert_eq!(dot_row(&row, ty, &input, 0.0, &step), expected, "{ty:?} {col}");
        }
    }
}

#[test]
fn plain_tensors_keep_their_values() {
    let values = [1.5f32, -2.0, 0.0, 3.25, 4.0, -0.5];
    let tensor = QuantTensor::from_f32(&values, vec![2, 3], &encode).unwrap();
    assert_eq!(tensor.rows(), 2);
    assert_eq!(tensor.cols(), 3);
    assert_eq!(tensor.row_bytes(), 12);
    assert_eq!(tensor.to_vec_f32(&decode), values);
    let mut output = [0.0; 2];
    tensor.matvec(&[1.0, 2.0, 3.0], &mut output, 0.0, &step).unwrap();
    assert_eq!(output, [-2.5, 9.75]);
    assert_eq!(
        QuantTensor::from_f32(&values, vec![7], &encode).err(),
        Some(QuantError::ShapeMismatch)
    );
    assert_eq!(
        QuantTensor::from_f32(&values, vec![1, 2, 3], &encode).err(),
        Some(QuantError::Rank)
    );
}

#[test]
fn products_of_mismatched_lengths_are_refused() {
    let tensor = QuantTensor::from_f32(&[1.0f32, 2.0], vec![1, 2], &encode).unwrap();
    let mut one = [0.0f32];
    let mut two = [0.0f32; 2];
    assert_eq!(
        tensor.matvec(&[1.0], &mut one, 0.0, &step).err(),
        Some(tensor.validate_matvec(1, 1).unwrap_err())
    );
    assert!(tensor.matvec(&[1.0, 1.0], &mut two, 0.0, &step).is_err());
    assert_eq!(two, [0.0; 2]);
    let vector = QuantTensor::from_f32(&[1.0f32, 2.0], vec![2], &encode).unwrap();
    assert!(vector.validate_matvec(2, 1).is_err());
    assert_eq!(
        tensor.row_into(1, &mut two, &decode).err(),
        Some(QuantError::RowOutOfBounds { row: 1 })
    );
    assert_eq!(tensor.row_into(0, &mut one, &decode).err(), Some(QuantError::OutputLength));
}

#[test]
fn q8k_activation_roundtrip_is_accurate() {
    let input: Vec<f32> = (0..QK_K).map(|i| (i as f32 * 0.037).sin() * 2.5).collect();
    let mut blocks: Vec<BlockQ8K> = Vec::new();
    quantize_activation_q8k(&input, &mut blocks, &round_block::<256>);
    assert_eq!(blocks.len(), 1);

    let block = &blocks[0];
    let d = f32::from_bits(block.d.bits);
    for (i, &original) in input.iter().enumerate() {
        let restored = d * block.qs[i] as f32;
        assert!((restored - original).abs() <= d, "index {i}: {restored} vs {original}");
    }

    for (group, &sum) in block.bsums.iter().enumerate() {
        let expected: i32 = block.qs[group * 16..group * 16 + 16].iter().map(|&q| q as i32).sum();
        assert_eq!(sum as i32, expected, "bsums[{group}]");
    }
}

#[test]
fn zero_activation_block_is_well_defined() {
    let mut blocks: Vec<BlockQ8K> = Vec::new();
    quantize_activation_q8k(&vec![0.0; QK_K], &mut blocks, &round_block::<256>);
    assert_eq!(blocks.len(), 1);
    assert_eq!(f32::from_bits(blocks[0].d.bits), 0.0);
    assert!(blocks[0].qs.iter().all(|&q| q == 0));
    assert!(blocks[0].bsums.iter().all(|&s| s == 0));
}

#[test]
fn partial_trailing_block_is_not_emitted() {
    let mut blocks: Vec<BlockQ8K> = Vec::new();
    quantize_activation_q8k(&vec![1.0; QK_K + 5], &mut blocks, &round_block::<256>);
    assert_eq!(blocks.len(), 1);
}

#[test]
fn q8_32_roundtrip_and_sum_are_correct() {
    let input: Vec<f32> = (0..96).map(|i| (i as f32 * 0.11).cos() * 3.0).collect();
    let mut blocks: Vec<BlockQ8_32> = Vec::new();
    quantize_activation_q8_32(&input, &mut blocks, &round_block::<32>);
    assert_eq!(blocks.len(), 3);

    for (b, block) in blocks.iter().enumerate() {
        let d = f32::from_bits(block.d.bits);
        for i in 0..32 {
            let restored = d * block.qs[i] as f32;
            let original = input[b * 32 + i];
            assert!(
                (restored - original).abs() <= d,
                "block {b} index {i}: {restored} vs {original}"
            );
        }
        let expected: i32 = block.qs.iter().map(|&q| q as i32).sum();
        assert_eq!(block.sum, expected, "block {b} sum");
    }
}

#[test]
fn layout_selection_covers_the_supported_formats() {
    assert_eq!(activation_layout(QuantType::Q4K), ActivationLayout::Q8K);
    assert_eq!(activation_layout(QuantType::Q5_0), ActivationLayout::Q8_32);
    assert_eq!(activation_layout(QuantType::Q8_0), ActivationLayout::Q8_32);
    assert_eq!(activation_layout(QuantType::Q4_0), ActivationLayout::Q8_32);
    // Formats without an integer kernel must fall back, not silently differ.
    assert_eq!(activation_layout(QuantType::Q5K), ActivationLayout::Plain);
    assert_eq!(activation_layout(QuantType::Q6K), ActivationLayout::Plain);
    assert_eq!(activation_layout(QuantType::Q4_1), ActivationLayout::Plain);
    assert_eq!(activation_layout(QuantType::F16), ActivationLayout::Plain);
}

#[test]
fn scales_are_reused_not_appended() {
    let mut blocks: Vec<BlockQ8_32> = Vec::new();
    quantize_activation_q8_32(&vec![1.0; 64], &mut blocks, &round_block::<32>);
    quantize_activation_q8_32(&vec![1.0; 32], &mut blocks, &round_block::<32>);
    assert_eq!(blocks.len(), 1, "buffer must be cleared between calls");
}

#[test]
fn test_2rows_q8_32_matches_1row() {
    let n = 64;
    let input: Vec<f32> = (0..n).map(|i| (i as f32) * 0.25 - 5.0).collect();
    let mut act: Vec<BlockQ8_32> = Vec::new();
    quantize_activation_q8_32(&input, &mut act, &round_block::<32>);

    for ty in [QuantType::Q8_0, QuantType::Q5_0, QuantType::Q4_0] {
        let row_bytes = n / ty.block_size() * ty.type_size();
        let row0 = vec![42u8; row_bytes];
        let row1 = vec![99u8; row_bytes];

        let (r0_2row, r1_2row) =
            dot_2rows_q8_32(&row0, &row1, ty, &act).expect("kernel should exist");
        let r0_1row = dot_q8_32(&row0, ty, &act).expect("kernel should exist");
        let r1_1row = dot_q8_32(&row1, ty, &act).expect("kernel should exist");

        assert_eq!(r0_2row, r0_1row, "row0 mismatch for {:?}", ty);
        assert_eq!(r1_2row, r1_1row, "row1 mismatch for {:?}", ty);
        assert!((row_value(&r0_2row) - row_value(&r0_1row)).abs() < 1e-4);
        assert!((row_value(&r1_2row) - row_value(&r1_1row)).abs() < 1e-4);
    }
}

#[test]
fn test_2rows_q8k_matches_1row() {
    let n = 256;
    let input: Vec<f32> = (0..n).map(|i| (i as f32) * 0.1 - 10.0).collect();
    let mut act: Vec<BlockQ8K> = Vec::new();
    quantize_activation_q8k(&input, &mut act, &round_block::<256>);

    for ty in [QuantType::Q4K, QuantType::Q5K, QuantType::Q6K] {
        let row_bytes = n / ty.block_size() * ty.type_size();
        let row0 = vec![17u8; row_bytes];
        let row1 = vec![83u8; row_bytes];

        let (r0_2row, r1_2row) = dot_2rows_q8k(&row0, &row1, ty, &act).expect("kernel should exist");
        let r0_1row = dot_q8k(&row0, ty, &act).expect("kernel should exist");
        let r1_1row = dot_q8k(&row1, ty, &act).expect("kernel should exist");

        assert_eq!(r0_2row, r0_1row, "row0 mismatch for {:?}", ty);
        assert_eq!(r1_2row, r1_1row, "row1 mismatch for {:?}", ty);
        assert!((row_value(&r0_2row) - row_value(&r0_1row)).abs() < 1e-4);
        assert!((row_value(&r1_2row) - row_value(&r1_1row)).abs() < 1e-4);
    }
}

#[test]
fn two_rows_need_a_kernel() {
    let wide = vec![BlockQ8K::default(); 2];
    let narrow = vec![BlockQ8_32::default(); 2];
    assert!(dot_2rows_q8k(&[], &[], QuantType::Q8_0, &wide).is_none());
    assert!(dot_2rows_q8_32(&[], &[], QuantType::Q4K, &narrow).is_none());
    assert!(dot_2rows_q8_32(&[], &[], QuantType::F32, &narrow).is_none());
}

#[test]
fn integer_kernels_match_the_decoded_product() {
    let values: Vec<f32> = (0..512).map(|i| (i as f32 * 0.21).sin()).collect();
    let input: Vec<f32> = (0..512).map(|i| (i as f32 * 0.07).cos()).collect();
    let mut wide: Vec<BlockQ8K> = Vec::new();
    quantize_activation_q8k(&input, &mut wide, &round_block::<256>);
    let mut narrow: Vec<BlockQ8_32> = Vec::new();
    quantize_activation_q8_32(&input, &mut narrow, &round_block::<32>);
    let rounded_wide: Vec<f32> = wide
        .iter()
        .flat_map(|b| b.qs.iter().map(|&q| f32::from_bits(b.d.bits) * q as f32).collect::<Vec<_>>())
        .collect();
    let rounded_narrow: Vec<f32> = narrow
        .iter()
        .flat_map(|b| b.qs.iter().map(|&q| f32::from_bits(b.d.bits) * q as f32).collect::<Vec<_>>())
        .collect();
    for tensor in [
        QuantTensor::quantize_q4k(&values, 1, 512, &encode).unwrap(),
        QuantTensor::quantize_q6k(&values, 1, 512, &encode).unwrap(),
    ] {
        let row = tensor.row_data(0);
        let dots = dot_q8k(row, tensor.quant_type, &wide).unwrap();
        let expected = dot_row(row, tensor.quant_type, &rounded_wide, 0.0, &step);
        assert!((row_value(&dots) - expected).abs() < 1e-3, "{:?}", tensor.quant_type);
    }
    for tensor in [
        QuantTensor::quantize_q5_0(&values, 1, 512, &encode).unwrap(),
        QuantTensor::quantize_q8_0(&values, 1, 512, &encode).unwrap(),
    ] {
        let row = tensor.row_data(0);
        let dots = dot_q8_32(row, tensor.quant_type, &narrow).unwrap();
        let expected = dot_row(row, tensor.quant_type, &rounded_narrow, 0.0, &step);
        assert!((row_value(&dots) - expected).abs() < 1e-3, "{:?}", tensor.quant_type);
        assert!(dot_q8k(row, tensor.quant_type, &wide).is_none());
    }
    assert!(dot_q8_32(&[0; 18], QuantType::F16, &narrow).is_none());
}

fn add_block(sum: f32, dot: BlockDot) -> f32 {
    sum + share(&dot)
}

fn begin_with(
    config: &BackendConfig,
    kind: KernelKind,
    weight: &QuantTensor,
    input: &[f32],
) -> Result<Job, QuantError> {
    begin(
        weight,
        input,
        weight.rows(),
        kind,
        config.threads,
        config.parallel_threshold,
        config.integer_activations,
        &round_block::<256>,
        &round_block::<32>,
    )
}

fn products_of(job: &Job, weight: &QuantTensor, input: &[f32]) -> Vec<f32> {
    (0..job.shares)
        .flat_map(|k| share_products(weight, input, job, k, 0.0, &step, &add_block))
        .collect()
}

#[test]
fn cpu_backend_multithreaded_matches_single_threaded() {
    let config_serial =
        BackendConfig { threads: 1, integer_activations: false, ..BackendConfig::default() };
    let config_parallel = BackendConfig {
        threads: 4,
        parallel_threshold: 0, // force parallel
        integer_activations: false,
        ..BackendConfig::default()
    };

    let rows = 64;
    let cols = 256;
    let input: Vec<f32> = (0..cols).map(|i| (i as f32 * 0.05).sin()).collect();
    let f32_data: Vec<f32> = (0..rows * cols).map(|i| (i as f32 * 0.03).cos()).collect();
    let tensor = QuantTensor::quantize_q4k(&f32_data, rows, cols, &encode).unwrap();

    let serial = begin_with(&config_serial, KernelKind::Avx2, &tensor, &input).unwrap();
    let parallel = begin_with(&config_parallel, KernelKind::Avx2, &tensor, &input).unwrap();
    assert_eq!((serial.shares, parallel.shares), (1, 4));

    let out_serial = products_of(&serial, &tensor, &input);
    let out_parallel = products_of(&parallel, &tensor, &input);
    assert_eq!((out_serial.len(), out_parallel.len()), (rows, rows));
    for (s, p) in out_serial.iter().zip(&out_parallel) {
        assert!((s - p).abs() < 1e-5, "serial {s} vs parallel {p}");
    }
}

#[test]
fn any_number_of_threads_gives_the_same_products() {
    let values: Vec<f32> = (0..13 * 256).map(|i| (i as f32 * 0.17).sin()).collect();
    let input: Vec<f32> = (0..256).map(|i| (i as f32 * 0.05).cos()).collect();
    for tensor in [
        QuantTensor::quantize_q4k(&values, 13, 256, &encode).unwrap(),
        QuantTensor::quantize_q8_0(&values, 13, 256, &encode).unwrap(),
        QuantTensor::quantize_q6k(&values, 13, 256, &encode).unwrap(),
    ] {
        let with = |threads: usize| {
            let config =
                BackendConfig { threads, parallel_threshold: 0, ..BackendConfig::default() };
            let job = begin_with(&config, KernelKind::Avx2, &tensor, &input).unwrap();
            assert_eq!(job.shares, threads);
            products_of(&job, &tensor, &input)
        };
        let alone = with(1);
        assert_eq!(alone.len(), 13);
        assert_eq!(with(2), alone);
        assert_eq!(with(5), alone);
        assert_eq!(with(6), alone);
    }
}

#[test]
fn products_use_integer_codes_where_they_can() {
    let config = BackendConfig { threads: 3, ..BackendConfig::default() };
    let values: Vec<f32> = (0..12 * 512).map(|i| (i as f32 * 0.21).sin()).collect();
    let input: Vec<f32> = (0..512).map(|i| (i as f32 * 0.07).cos()).collect();
    for (tensor, narrow) in [
        (QuantTensor::quantize_q4k(&values, 12, 512, &encode).unwrap(), false),
        (QuantTensor::quantize_q8_0(&values, 12, 512, &encode).unwrap(), true),
    ] {
        let job = begin_with(&config, KernelKind::Avx2, &tensor, &input).unwrap();
        assert_eq!(job.shares, 1);
        assert!(match &job.activation {
            Activation::Plain => false,
            Activation::Q8K { wide } => !narrow && wide.len() == 2,
            Activation::Q8_32 { narrow: blocks } => narrow && blocks.len() == 16,
        });
        let plain = begin_with(&config, KernelKind::Scalar, &tensor, &input).unwrap();
        assert!(matches!(plain.activation, Activation::Plain));
        let rounded = products_of(&job, &tensor, &input);
        let exact = products_of(&plain, &tensor, &input);
        assert_eq!(exact.len(), 12);
        assert!(rounded.iter().zip(&exact).any(|(a, b)| a != b));
        for (a, b) in rounded.iter().zip(&exact) {
            assert!((a - b).abs() < 0.2, "{a} vs {b}");
        }
        assert!(matches!(
            begin_with(&config, KernelKind::Scalar, &tensor, &input[1..]),
            Err(QuantError::MatvecInput { got: 511, expected: 512 })
        ));
    }
    let wide = BackendConfig { parallel_threshold: 12 * 512, ..config };
    let tensor = QuantTensor::quantize_q6k(&values, 12, 512, &encode).unwrap();
    let job = begin_with(&wide, KernelKind::Avx2, &tensor, &input).unwrap();
    assert_eq!(job.shares, 3);
    assert!(matches!(job.activation, Activation::Plain));
}

#[test]
fn chat_prompts_follow_the_template() {
    assert_eq!(
        chat_prompt("Be brief.", "Hello"),
        "<|im_start|>system\nBe brief.<|im_end|>\n<|im_start|>user\nHello<|im_end|>\n<|im_start|>assistant\n"
    );
}

#[test]
fn linear_layer_forward_batch_matches_single_forward() {
    let in_features = 64;
    let out_features = 32;
    let batch_size = 3;

    let weight_data: Vec<f32> =
        (0..out_features * in_features).map(|i| (i as f32 * 0.03).sin()).collect();
    let bias_data: Vec<f32> = (0..out_features).map(|i| i as f32 * 0.1).collect();
    let tensor =
        QuantTensor::quantize_q8_0(&weight_data, out_features, in_features, &encode).unwrap();
    let linear = LinearLayer::new(tensor, Some(bias_data)).unwrap();

    let inputs: Vec<f32> =
        (0..batch_size * in_features).map(|i| (i as f32 * 0.05).cos()).collect();

    let mut batched_out = vec![0.0f32; batch_size * out_features];
    linear.forward_batch(&scalar(), &inputs, &mut batched_out, batch_size).unwrap();

    for b in 0..batch_size {
        let in_b = &inputs[b * in_features..(b + 1) * in_features];
        let mut single_out = vec![0.0f32; out_features];
        linear.forward(&scalar(), in_b, &mut single_out).unwrap();
        let b_slice = &batched_out[b * out_features..(b + 1) * out_features];
        for (s, batch_v) in single_out.iter().zip(b_slice) {
            assert!((s - batch_v).abs() < 1e-4);
        }
    }
}

fn small_config(max_ctx: usize) -> LlamaConfig {
    LlamaConfig {
        hidden_size: 64,
        intermediate_size: 128,
        num_attention_heads: 4,
        num_key_value_heads: 2,
        num_hidden_layers: 1,
        vocab_size: 50,
        rms_norm_eps: single(1e-5),
        rope_theta: single(10000.0),
        max_position_embeddings: max_ctx,
        head_dim: None,
        tie_word_embeddings: false,
    }
}

fn waves(n: usize, speed: f32, cosine: bool) -> Vec<f32> {
    (0..n)
        .map(|i| {
            let x = i as f32 * speed;
            if cosine {
                x.cos()
            } else {
                x.sin()
            }
        })
        .collect()
}

fn linear(values: &[f32], rows: usize, cols: usize) -> LinearLayer<'static, f32> {
    LinearLayer::new(QuantTensor::quantize_q8_0(values, rows, cols, &encode).unwrap(), None).unwrap()
}

fn small_model(config: LlamaConfig) -> Qwen2Model<'static, f32, Backend<f32, Scalar>> {
    let hidden = 64;
    let kv_w = 32;
    let intermediate = 128;
    let vocab = 50;
    let embed =
        QuantTensor::quantize_q8_0(&waves(vocab * hidden, 0.02, false), vocab, hidden, &encode)
            .unwrap();
    let block = TransformerBlock {
        input_layernorm: RMSNorm::new(vec![1.0; hidden], single(1e-5)).unwrap(),
        self_attn_q: linear(&waves(hidden * hidden, 0.01, true), hidden, hidden),
        self_attn_k: linear(&waves(kv_w * hidden, 0.01, false), kv_w, hidden),
        self_attn_v: linear(&waves(kv_w * hidden, 0.02, true), kv_w, hidden),
        self_attn_o: linear(&waves(hidden * hidden, 0.02, false), hidden, hidden),
        post_attention_layernorm: RMSNorm::new(vec![1.0; hidden], single(1e-5)).unwrap(),
        mlp_gate: linear(&waves(intermediate * hidden, 0.01, false), intermediate, hidden),
        mlp_up: linear(&waves(intermediate * hidden, 0.01, true), intermediate, hidden),
        mlp_down: linear(&waves(hidden * intermediate, 0.02, false), hidden, intermediate),
    };
    let norm = RMSNorm::new(vec![1.0; hidden], single(1e-5)).unwrap();
    let lm_head = linear(&waves(vocab * hidden, 0.03, true), vocab, hidden);
    Qwen2Model::new(embed, vec![block], norm, lm_head, config, scalar())
}

#[test]
fn qwen2_prefill_matches_token_by_token_forward() {
    let kv_w = 32;
    let max_ctx = 64;
    let config = small_config(max_ctx);
    let model = small_model(config);
    let tokens = vec![3u32, 12, 45, 7];

    // 1. Sequential token-by-token
    let mut kv_seq = KVCache::new(&config, max_ctx, 0.0f32).unwrap();
    let mut buf_seq = InferenceBuffers::new(&config, max_ctx, 0.0f32);
    for (i, &t) in tokens.iter().enumerate() {
        let mode = if i + 1 == tokens.len() { LogitsMode::Compute } else { LogitsMode::Skip };
        model.forward_token(t, i, &mut kv_seq, &mut buf_seq, mode).unwrap();
    }

    // 2. Batched prefill
    let mut kv_batch = KVCache::new(&config, max_ctx, 0.0f32).unwrap();
    let mut buf_batch = InferenceBuffers::new(&config, max_ctx, 0.0f32);
    model.prefill(&tokens, 0, &mut kv_batch, &mut buf_batch).unwrap();

    // Compare KV cache
    let k_seq = &kv_seq.k_cache[0][..tokens.len() * kv_w];
    let k_batch = &kv_batch.k_cache[0][..tokens.len() * kv_w];
    for (a, b) in k_seq.iter().zip(k_batch) {
        assert!((a - b).abs() < 1e-4, "KV K mismatch: {a} vs {b}");
    }

    let v_seq = &kv_seq.v_cache[0][..tokens.len() * kv_w];
    let v_batch = &kv_batch.v_cache[0][..tokens.len() * kv_w];
    for (a, b) in v_seq.iter().zip(v_batch) {
        assert!((a - b).abs() < 1e-4, "KV V mismatch: {a} vs {b}");
    }

    // Compare final logits
    for (i, (s, b)) in buf_seq.logits.iter().zip(&buf_batch.logits).enumerate() {
        assert!((s - b).abs() < 1e-3, "Logits[{i}] mismatch: {s} vs {b}");
    }
}

#[test]
fn long_prompts_run_in_chunks_as_token_by_token() {
    let max_ctx = 80;
    let config = small_config(max_ctx);
    let model = small_model(config);
    let tokens: Vec<u32> = (0..70).map(|i| (i * 7 % 50) as u32).collect();
    let mut kv_seq = KVCache::new(&config, max_ctx, 0.0f32).unwrap();
    let mut buf_seq = InferenceBuffers::new(&config, max_ctx, 0.0f32);
    for (i, &t) in tokens.iter().enumerate() {
        model.forward_token(t, i, &mut kv_seq, &mut buf_seq, LogitsMode::Compute).unwrap();
    }
    let mut kv_batch = KVCache::new(&config, max_ctx, 0.0f32).unwrap();
    let mut buf_batch = InferenceBuffers::new(&config, max_ctx, 0.0f32);
    model.prefill(&tokens, 0, &mut kv_batch, &mut buf_batch).unwrap();
    assert_eq!(kv_seq.k_cache, kv_batch.k_cache);
    assert_eq!(kv_seq.v_cache, kv_batch.v_cache);
    assert_eq!(buf_seq.logits, buf_batch.logits);
}

#[test]
fn a_new_sequence_ignores_what_the_cache_held() {
    let max_ctx = 16;
    let config = small_config(max_ctx);
    let model = small_model(config);
    let mut clean = KVCache::new(&config, max_ctx, 0.0f32).unwrap();
    let mut used = KVCache::new(&config, max_ctx, 7.5f32).unwrap();
    let mut a = InferenceBuffers::new(&config, max_ctx, 0.0f32);
    let mut b = InferenceBuffers::new(&config, max_ctx, 0.0f32);
    model.prefill(&[4, 9, 1], 0, &mut clean, &mut a).unwrap();
    model.prefill(&[4, 9, 1], 0, &mut used, &mut b).unwrap();
    assert_eq!(a.logits, b.logits);
}

#[test]
fn positions_behind_a_token_never_matter() {
    let max_ctx = 16;
    let config = small_config(max_ctx);
    let model = small_model(config);
    let width = 32;
    let mut clean = KVCache::new(&config, max_ctx, 0.0f32).unwrap();
    let mut used = KVCache::new(&config, max_ctx, 7.5f32).unwrap();
    let mut a = InferenceBuffers::new(&config, max_ctx, 0.0f32);
    let mut b = InferenceBuffers::new(&config, max_ctx, 3.25f32);
    model.prefill(&[4, 9, 1], 0, &mut clean, &mut a).unwrap();
    used.k_cache[0][..3 * width].copy_from_slice(&clean.k_cache[0][..3 * width]);
    used.v_cache[0][..3 * width].copy_from_slice(&clean.v_cache[0][..3 * width]);
    model.forward_token(7, 3, &mut clean, &mut a, LogitsMode::Compute).unwrap();
    model.forward_token(7, 3, &mut used, &mut b, LogitsMode::Compute).unwrap();
    assert_eq!(a.logits, b.logits);
    assert_eq!(a.attention, b.attention);
    assert_eq!(clean.k_cache[0][..4 * width], used.k_cache[0][..4 * width]);
    assert_eq!(clean.v_cache[0][..4 * width], used.v_cache[0][..4 * width]);
    assert!(used.v_cache[0][4 * width..].iter().all(|&x| x == 7.5));
}

#[test]
fn heads_collect_the_values_of_their_group() {
    let config = LlamaConfig {
        hidden_size: 8,
        intermediate_size: 2,
        num_attention_heads: 4,
        num_key_value_heads: 2,
        num_hidden_layers: 1,
        vocab_size: 1,
        ..small_config(2)
    };
    let zeros = |rows: usize, cols: usize, bias: Option<Vec<f32>>| {
        let weight = QuantTensor::from_owned(to_bytes(&vec![0.0; rows * cols]), vec![rows, cols], QuantType::F32);
        LinearLayer::new(weight.unwrap(), bias).unwrap()
    };
    let norm = || RMSNorm::new(vec![1.0; 8], single(1e-5)).unwrap();
    let block = TransformerBlock {
        input_layernorm: norm(),
        self_attn_q: zeros(8, 8, None),
        self_attn_k: zeros(4, 8, None),
        self_attn_v: zeros(4, 8, Some(vec![1.0, 2.0, 3.0, 4.0])),
        self_attn_o: zeros(8, 8, None),
        post_attention_layernorm: norm(),
        mlp_gate: zeros(2, 8, None),
        mlp_up: zeros(2, 8, None),
        mlp_down: zeros(8, 2, None),
    };
    let embed =
        QuantTensor::from_owned(to_bytes(&[0.0; 8]), vec![1, 8], QuantType::F32).unwrap();
    let model = Qwen2Model::new(embed, vec![block], norm(), zeros(1, 8, None), config, scalar());
    let mut cache = KVCache::new(&config, 2, 0.0f32).unwrap();
    let mut buffers = InferenceBuffers::new(&config, 2, 0.0f32);
    model.forward_token(0, 0, &mut cache, &mut buffers, LogitsMode::Skip).unwrap();
    assert_eq!(buffers.attention, vec![1.0, 2.0, 1.0, 2.0, 3.0, 4.0, 3.0, 4.0]);
    assert_eq!(cache.v_cache[0], vec![1.0, 2.0, 3.0, 4.0, 0.0, 0.0, 0.0, 0.0]);
    assert_eq!(buffers.logits, vec![0.0]);
}

#[test]
fn a_prompt_over_the_end_of_the_context_is_stored_in_part() {
    let config = small_config(3);
    let model = small_model(config);
    let tokens = [3u32, 12, 45, 7];
    let mut whole = KVCache::new(&config, 3, 0.0f32).unwrap();
    let mut buffers = InferenceBuffers::new(&config, 3, 0.0f32);
    model.prefill(&tokens[..3], 0, &mut whole, &mut buffers).unwrap();

    let mut cache = KVCache::new(&config, 3, 0.0f32).unwrap();
    let mut buffers = InferenceBuffers::new(&config, 3, 0.0f32);
    assert_eq!(
        model.prefill(&tokens, 0, &mut cache, &mut buffers),
        Err(ModelError::Position { pos: 3, context: 3 })
    );
    for (a, b) in cache.k_cache[0].iter().zip(&whole.k_cache[0]) {
        assert!((a - b).abs() < 1e-6);
    }
    for (a, b) in cache.v_cache[0].iter().zip(&whole.v_cache[0]) {
        assert!((a - b).abs() < 1e-6);
    }
    assert!(buffers.logits.iter().all(|&x| x == 0.0));

    let mut cache = KVCache::new(&config, 3, 0.0f32).unwrap();
    assert_eq!(
        model.prefill(&[3, 50, 45, 7], 0, &mut cache, &mut buffers),
        Err(ModelError::Token { token: 50 })
    );
    assert!(cache.k_cache[0].iter().all(|&x| x == 0.0));
}

#[test]
fn models_refuse_what_lies_outside() {
    let config = small_config(8);
    let model = small_model(config);
    let mut cache = KVCache::new(&config, 8, 0.0f32).unwrap();
    let mut buffers = InferenceBuffers::new(&config, 8, 0.0f32);
    assert_eq!(
        model.forward_token(50, 0, &mut cache, &mut buffers, LogitsMode::Skip),
        Err(ModelError::Token { token: 50 })
    );
    assert_eq!(
        model.forward(0, 8, &mut cache, &mut buffers),
        Err(ModelError::Position { pos: 8, context: 8 })
    );
    assert_eq!(model.prefill(&[], 0, &mut cache, &mut buffers), Err(ModelError::EmptyPrefill));
    assert_eq!(
        model.prefill(&[1, 99], 0, &mut cache, &mut buffers),
        Err(ModelError::Token { token: 99 })
    );
    assert_eq!(model.architecture(), ArchitectureKind::Qwen2);
    assert_eq!(model.config().vocab_size, 50);
    assert_eq!(model.backend(), ("scalar", 1));
}

#[test]
fn model_parts_are_checked() {
    let vector = QuantTensor::from_f32(&[1.0f32, 2.0], vec![2], &encode).unwrap();
    assert_eq!(LinearLayer::<f32>::new(vector, None).err(), Some(ModelError::NotMatrix));
    let matrix = QuantTensor::from_f32(&[1.0f32, 2.0], vec![1, 2], &encode).unwrap();
    assert_eq!(LinearLayer::new(matrix, Some(vec![1.0f32; 2])).err(), Some(ModelError::BiasLength));
    assert_eq!(RMSNorm::<f32>::new(vec![], single(1e-5)).err(), Some(ModelError::EmptyNorm));
    assert_eq!(RMSNorm::new(vec![1.0f32], single(0.0)).err(), Some(ModelError::NormEpsilon));
    let norm = RMSNorm::new(vec![1.0f32, 2.0], single(0.5)).unwrap();
    let mut hidden = vec![0.5f32, 1.0, 1.0];
    assert_eq!(norm.forward(&scalar(), &mut hidden, 0, 3), Err(ModelError::NormShape));
    norm.forward(&scalar(), &mut hidden, 1, 2).unwrap();
    let inv = 1.0 / 1.5f32.sqrt();
    assert_eq!(hidden, vec![0.5, inv, inv * 2.0]);
}

#[test]
fn caches_are_checked_and_written() {
    let config = small_config(8);
    assert_eq!(KVCache::new(&config, 0, 0.0f32).err(), Some(CacheError::ZeroContext));
    assert_eq!(
        KVCache::new(&config, 9, 0.0f32).err(),
        Some(CacheError::ContextTooLong { requested: 9, limit: 8 })
    );
    let mut cache = KVCache::new(&config, 4, 0.0f32).unwrap();
    let key = vec![1.0f32; 32];
    let value = vec![2.0f32; 32];
    cache.update(0, 2, &key, &value).unwrap();
    assert_eq!(cache.k_cache[0][64..96], key);
    assert_eq!(cache.v_cache[0][64..96], value);
    assert!(cache.k_cache[0][..64].iter().all(|&x| x == 0.0));
    assert!(cache.k_cache[0][96..].iter().all(|&x| x == 0.0));
    assert_eq!(cache.update(1, 0, &key, &value), Err(CacheError::Layer));
    assert_eq!(
        cache.update(0, 4, &key, &value),
        Err(CacheError::Position { pos: 4, context: 4 })
    );
    assert_eq!(cache.update(0, 0, &key[..31], &value), Err(CacheError::Width));
    let before = cache.k_cache.clone();
    cache.reset();
    assert_eq!(cache.k_cache, before);
}

#[test]
fn configurations_are_checked() {
    let good = small_config(8);
    assert_eq!(good.validate(), Ok(()));
    assert_eq!(good.head_dim(), 16);
    assert_eq!(good.kv_width(), 32);
    let bad = |change: &dyn Fn(&mut LlamaConfig)| {
        let mut config = good;
        change(&mut config);
        config.validate().unwrap_err()
    };
    assert_eq!(bad(&|c| c.vocab_size = 0), ConfigError::ZeroDimension);
    assert_eq!(bad(&|c| c.hidden_size = 66), ConfigError::HiddenSize);
    assert_eq!(bad(&|c| c.num_key_value_heads = 3), ConfigError::KeyValueHeads);
    assert_eq!(bad(&|c| c.head_dim = Some(8)), ConfigError::HeadDim);
    assert_eq!(
        bad(&|c| {
            c.hidden_size = 60;
        }),
        ConfigError::OddHeadDim
    );
    assert_eq!(bad(&|c| c.rms_norm_eps = single(0.0)), ConfigError::RmsNormEps);
    assert_eq!(bad(&|c| c.rope_theta = single(f32::NAN)), ConfigError::RopeTheta);
    assert_eq!(llama_rs::config::default_max_position_embeddings(), 32_768);
    assert_eq!(llama_rs::config::default_rms_norm_eps(), single(1e-6));
    assert_eq!(llama_rs::config::default_rope_theta(), single(10_000.0));
}

#[test]
fn whole_tensors_are_quantized_to_eight_bits() {
    let src: Vec<f16> = [-1.0f32, 0.5, 1.0].iter().map(|&x| f16::from_f32(x)).collect();
    let fit = |values: &[f16]| {
        let min = values.iter().map(|x| x.to_f32()).fold(f32::INFINITY, f32::min);
        let max = values.iter().map(|x| x.to_f32()).fold(f32::NEG_INFINITY, f32::max);
        let scale = if max != min { (max - min) / 255.0 } else { 1.0 };
        let zero = if scale != 0.0 { -min / scale } else { 0.0 };
        tensor::Range { min, scale, zero }
    };
    let code = |value: f16, range: tensor::Range<f32>| {
        ((value.to_f32() - range.min) / range.scale).round().clamp(0.0, 255.0) as u8
    };
    let quantized = tensor::quantize_fp16_to_int8(&src, &fit, &code);
    assert_eq!(quantized.data, vec![0, 191, 255]);
    assert_eq!(quantized.scales, vec![2.0 / 255.0]);
    assert_eq!(quantized.zero_points, Some(vec![1.0 / (2.0 / 255.0)]));
    assert_eq!(quantized.shape, vec![3]);
    assert_eq!(quantized.quant_type, tensor::QuantType::Int8);
    let empty = tensor::quantize_fp16_to_int8(&[], &fit, &code);
    assert!(empty.data.is_empty() && empty.scales.is_empty() && empty.shape.is_empty());
    assert_eq!(empty.zero_points, None);
}

fn put_text(out: &mut Vec<u8>, value: &str) {
    out.extend_from_slice(&(value.len() as u64).to_le_bytes());
    out.extend_from_slice(value.as_bytes());
}

fn to_bytes(values: &[f32]) -> Vec<u8> {
    values.iter().flat_map(|v| v.to_le_bytes()).collect()
}

enum Meta {
    Text(&'static str),
    Size(u32),
    Real(f32),
    Huge(u64),
}

struct Blueprint {
    meta: Vec<(&'static str, Meta)>,
    tensors: Vec<(String, Vec<usize>, Vec<f32>)>,
}

impl Blueprint {
    /// Row-major shapes; a GGUF file lists the row width first.
    fn gguf(&self) -> Vec<u8> {
        let mut out = Vec::new();
        out.extend_from_slice(b"GGUF");
        out.extend_from_slice(&3u32.to_le_bytes());
        out.extend_from_slice(&(self.tensors.len() as u64).to_le_bytes());
        out.extend_from_slice(&(self.meta.len() as u64).to_le_bytes());
        for (key, value) in &self.meta {
            put_text(&mut out, key);
            match value {
                Meta::Text(text) => {
                    out.extend_from_slice(&8u32.to_le_bytes());
                    put_text(&mut out, text);
                }
                Meta::Size(n) => {
                    out.extend_from_slice(&4u32.to_le_bytes());
                    out.extend_from_slice(&n.to_le_bytes());
                }
                Meta::Real(x) => {
                    out.extend_from_slice(&6u32.to_le_bytes());
                    out.extend_from_slice(&x.to_le_bytes());
                }
                Meta::Huge(n) => {
                    out.extend_from_slice(&10u32.to_le_bytes());
                    out.extend_from_slice(&n.to_le_bytes());
                }
            }
        }
        let mut offset = 0u64;
        for (name, shape, values) in &self.tensors {
            put_text(&mut out, name);
            out.extend_from_slice(&(shape.len() as u32).to_le_bytes());
            for &dim in shape.iter().rev() {
                out.extend_from_slice(&(dim as u64).to_le_bytes());
            }
            out.extend_from_slice(&0u32.to_le_bytes());
            out.extend_from_slice(&offset.to_le_bytes());
            offset += (values.len() * 4) as u64;
        }
        while out.len() % 32 != 0 {
            out.push(0);
        }
        for (_, _, values) in &self.tensors {
            out.extend_from_slice(&to_bytes(values));
        }
        out
    }

    fn shard(&self, keep: &dyn Fn(&str) -> bool) -> Vec<u8> {
        let data: Vec<(String, Vec<usize>, Vec<u8>)> = self
            .tensors
            .iter()
            .filter(|(name, _, _)| keep(name))
            .map(|(name, shape, values)| (name.clone(), shape.clone(), to_bytes(values)))
            .collect();
        let views: Vec<(String, TensorView)> = data
            .iter()
            .map(|(name, shape, bytes)| {
                (name.clone(), TensorView::new(Dtype::F32, shape.clone(), bytes).unwrap())
            })
            .collect();
        safetensors::serialize(views, &None).unwrap()
    }

    fn remove(&mut self, name: &str) {
        self.tensors.retain(|(n, _, _)| n != name);
    }
}

const HIDDEN: usize = 4;
const INNER: usize = 8;
const KV: usize = 2;
const VOCAB: usize = 7;

fn tiny_meta() -> Vec<(&'static str, Meta)> {
    vec![
        ("general.architecture", Meta::Text("qwen2")),
        ("qwen2.embedding_length", Meta::Size(HIDDEN as u32)),
        ("qwen2.feed_forward_length", Meta::Size(INNER as u32)),
        ("qwen2.attention.head_count", Meta::Size(2)),
        ("qwen2.attention.head_count_kv", Meta::Size(1)),
        ("qwen2.block_count", Meta::Size(2)),
        ("qwen2.attention.layer_norm_rms_epsilon", Meta::Real(1e-6)),
        ("qwen2.context_length", Meta::Size(16)),
    ]
}

fn tiny_tensors(hugging_face: bool) -> Vec<(String, Vec<usize>, Vec<f32>)> {
    let mut seed = 0.0f32;
    let mut fill = |shape: Vec<usize>| {
        seed += 1.0;
        let n: usize = shape.iter().product();
        let values = (0..n).map(|i| ((i as f32 + 1.0) * 0.37 * seed).sin()).collect();
        (shape, values)
    };
    let name = |gguf: &str, hf: &str| if hugging_face { hf.to_string() } else { gguf.to_string() };
    let mut tensors = Vec::new();
    let mut push = |label: String, shape: Vec<usize>| {
        let (shape, values) = fill(shape);
        tensors.push((label, shape, values));
    };
    push(name("token_embd.weight", "model.embed_tokens.weight"), vec![VOCAB, HIDDEN]);
    push(name("output_norm.weight", "model.norm.weight"), vec![HIDDEN]);
    for i in 0..2 {
        let part = |gguf: &str, hf: &str| {
            if hugging_face {
                format!("model.layers.{i}.{hf}")
            } else {
                format!("blk.{i}.{gguf}")
            }
        };
        push(part("attn_norm.weight", "input_layernorm.weight"), vec![HIDDEN]);
        push(part("attn_q.weight", "self_attn.q_proj.weight"), vec![HIDDEN, HIDDEN]);
        push(part("attn_q.bias", "self_attn.q_proj.bias"), vec![HIDDEN]);
        push(part("attn_k.weight", "self_attn.k_proj.weight"), vec![KV, HIDDEN]);
        push(part("attn_v.weight", "self_attn.v_proj.weight"), vec![KV, HIDDEN]);
        push(part("attn_output.weight", "self_attn.o_proj.weight"), vec![HIDDEN, HIDDEN]);
        push(part("ffn_norm.weight", "post_attention_layernorm.weight"), vec![HIDDEN]);
        push(part("ffn_gate.weight", "mlp.gate_proj.weight"), vec![INNER, HIDDEN]);
        push(part("ffn_up.weight", "mlp.up_proj.weight"), vec![INNER, HIDDEN]);
        push(part("ffn_down.weight", "mlp.down_proj.weight"), vec![HIDDEN, INNER]);
    }
    tensors
}

fn tiny(hugging_face: bool) -> Blueprint {
    Blueprint { meta: tiny_meta(), tensors: tiny_tensors(hugging_face) }
}

fn rounded(number: MetadataNumber) -> Single {
    single(match number {
        MetadataNumber::Unsigned { value } => value as f32,
        MetadataNumber::Signed { value } => value as f32,
        MetadataNumber::Single { bits } => f32::from_bits(bits),
        MetadataNumber::Double { bits } => f64::from_bits(bits) as f32,
    })
}

type Model<'a> = Qwen2Model<'a, f32, Backend<f32, Scalar>>;

fn load_gguf(bytes: &[u8]) -> Result<Model<'_>, (LoadFault, String)> {
    GgufLoader::load(bytes, &LoadOptions::default(), scalar(), &encode, &rounded)
        .map_err(|e| (e.fault, e.name))
}

fn tiny_config() -> LlamaConfig {
    LlamaConfig {
        hidden_size: HIDDEN,
        intermediate_size: INNER,
        num_attention_heads: 2,
        num_key_value_heads: 1,
        num_hidden_layers: 2,
        vocab_size: VOCAB,
        rms_norm_eps: single(1e-6),
        rope_theta: single(10_000.0),
        max_position_embeddings: 16,
        head_dim: None,
        tie_word_embeddings: true,
    }
}

fn logits_of(model: &Model, tokens: &[u32]) -> Vec<f32> {
    let mut cache = KVCache::new(&model.config, 16, 0.0f32).unwrap();
    let mut buffers = InferenceBuffers::new(&model.config, 16, 0.0f32);
    model.prefill(tokens, 0, &mut cache, &mut buffers).unwrap();
    buffers.logits
}

fn open_shards<'a>(parts: &[(&str, &'a [u8])]) -> Result<SafetensorStore<'a>, (LoadFault, String)> {
    let shards = parts.iter().map(|&(path, mmap)| Shard { path: path.to_string(), mmap }).collect();
    SafetensorStore::open(shards).map_err(|e| (e.fault, e.name))
}

fn load_store<'a>(store: SafetensorStore<'a>) -> Result<Model<'a>, (LoadFault, String)> {
    SafetensorsLoader::load(tiny_config(), store, &LoadOptions::default(), scalar(), &encode)
        .map_err(|e| (e.fault, e.name))
}

#[test]
fn both_formats_load_the_same_model() {
    let bytes = tiny(false).gguf();
    let from_gguf = load_gguf(&bytes).unwrap();
    assert_eq!(from_gguf.config, tiny_config());
    assert_eq!(from_gguf.layers.len(), 2);
    assert_eq!(from_gguf.layers[1].self_attn_k.bias, Some(vec![0.0; KV]));
    assert_eq!(from_gguf.layers[0].self_attn_q.bias.as_ref().map(|b| b.len()), Some(HIDDEN));
    assert!(from_gguf.layers[0].self_attn_o.bias.is_none());

    let plan = tiny(true);
    let first = plan.shard(&|name| name.contains("layers.0"));
    let second = plan.shard(&|name| !name.contains("layers.0"));
    let store = open_shards(&[("a.safetensors", &first), ("b.safetensors", &second)]).unwrap();
    let from_shards = load_store(store).unwrap();
    assert_eq!(logits_of(&from_gguf, &[1, 5, 2]), logits_of(&from_shards, &[1, 5, 2]));
}

#[test]
fn a_separate_head_is_used_where_the_file_has_one() {
    let mut plan = tiny(false);
    let head: Vec<f32> = (0..VOCAB * HIDDEN).map(|i| i as f32 * 0.01).collect();
    plan.tensors.push(("output.weight".into(), vec![VOCAB, HIDDEN], head.clone()));
    let bytes = plan.gguf();
    let model = load_gguf(&bytes).unwrap();
    assert!(!model.config.tie_word_embeddings);
    assert_eq!(model.lm_head.weight.to_vec_f32(&decode), head);
    let tied = tiny(false).gguf();
    let model = load_gguf(&tied).unwrap();
    assert!(model.config.tie_word_embeddings);
    assert_eq!(
        model.lm_head.weight.to_vec_f32(&decode),
        model.embed_tokens.to_vec_f32(&decode)
    );
}

#[test]
fn gguf_loading_names_what_is_wrong() {
    let fault = |change: &dyn Fn(&mut Blueprint)| {
        let mut plan = tiny(false);
        change(&mut plan);
        let bytes = plan.gguf();
        load_gguf(&bytes).map(|_| ()).unwrap_err()
    };
    assert_eq!(load_gguf(b"GG").map(|_| ()).unwrap_err().1, "");
    assert_eq!(
        fault(&|p| p.meta[0].1 = Meta::Text("llama")),
        (LoadFault::Architecture, "llama".to_string())
    );
    assert_eq!(
        fault(&|p| p.meta[0].1 = Meta::Size(1)),
        (LoadFault::Gguf { fault: GgufFault::MissingText }, "general.architecture".to_string())
    );
    assert_eq!(
        fault(&|p| p.remove("token_embd.weight")),
        (LoadFault::Gguf { fault: GgufFault::MissingTensor }, "token_embd.weight".to_string())
    );
    assert_eq!(
        fault(&|p| p.tensors[0].1 = vec![VOCAB * HIDDEN]),
        (LoadFault::EmbeddingRank, "token_embd.weight".to_string())
    );
    assert_eq!(
        fault(&|p| p.meta[1].1 = Meta::Real(4.0)),
        (LoadFault::Gguf { fault: GgufFault::MissingInteger }, "qwen2.embedding_length".to_string())
    );
    assert_eq!(
        fault(&|p| p.meta[6].1 = Meta::Text("small")),
        (
            LoadFault::Gguf { fault: GgufFault::MissingNumber },
            "qwen2.attention.layer_norm_rms_epsilon".to_string()
        )
    );
    assert_eq!(
        fault(&|p| p.meta[3].1 = Meta::Size(3)),
        (LoadFault::Config { error: ConfigError::HiddenSize }, String::new())
    );
    assert_eq!(
        fault(&|p| p.tensors[0].1 = vec![2 * VOCAB, HIDDEN / 2]),
        (LoadFault::EmbeddingWidth, "token_embd.weight".to_string())
    );
    assert_eq!(
        fault(&|p| p.remove("blk.1.ffn_up.weight")),
        (LoadFault::Gguf { fault: GgufFault::MissingTensor }, "blk.1.ffn_up.weight".to_string())
    );
    assert_eq!(
        fault(&|p| p.tensors[1].1 = vec![2, 2]),
        (LoadFault::VectorShape { len: HIDDEN }, "output_norm.weight".to_string())
    );
    assert_eq!(
        fault(&|p| {
            for t in p.tensors.iter_mut() {
                if t.0 == "blk.0.attn_k.weight" {
                    t.1 = vec![HIDDEN, KV];
                }
            }
        }),
        (LoadFault::MatrixShape { rows: KV, cols: HIDDEN }, "blk.0.attn_k.weight".to_string())
    );
    assert_eq!(
        fault(&|p| {
            // The second norm of a layer is looked up after its attention.
            p.remove("blk.0.ffn_norm.weight");
            p.remove("blk.0.attn_v.weight");
        })
        .1,
        "blk.0.attn_v.weight"
    );
    assert_eq!(as_usize(7, "n").ok(), Some(7));
}

#[test]
fn the_rotary_base_defaults_to_ten_thousand() {
    let mut plan = tiny(false);
    plan.meta.push(("qwen2.rope.freq_base", Meta::Huge(1_000_000)));
    let bytes = plan.gguf();
    assert_eq!(load_gguf(&bytes).unwrap().config.rope_theta, single(1_000_000.0));
    let mut plan = tiny(false);
    plan.meta.push(("qwen2.rope.freq_base", Meta::Text("none")));
    let bytes = plan.gguf();
    assert_eq!(load_gguf(&bytes).unwrap().config.rope_theta, single(10_000.0));
}

#[test]
fn safetensors_stores_name_what_is_wrong() {
    let plan = tiny(true);
    let whole = plan.shard(&|_| true);
    assert_eq!(open_shards(&[]).map(|_| ()).unwrap_err(), (LoadFault::NoShards, String::new()));
    assert_eq!(
        open_shards(&[("a", &whole), ("broken", b"not a shard")]).map(|_| ()).unwrap_err(),
        (LoadFault::InvalidShard, "broken".to_string())
    );
    let one = plan.shard(&|name| name == "model.norm.weight");
    assert_eq!(
        open_shards(&[("a", &whole), ("b", &one)]).map(|_| ()).unwrap_err(),
        (LoadFault::DuplicateTensor, "model.norm.weight".to_string())
    );
    let store = open_shards(&[("a", &one)]).unwrap();
    assert!(store.contains("model.norm.weight"));
    assert!(!store.contains("lm_head.weight"));
    let tensor = store.tensor("model.norm.weight").unwrap();
    assert_eq!(tensor.to_vec_f32(&decode), plan.tensors[1].2);
    let e = store.tensor("lm_head.weight").err().unwrap();
    assert_eq!((e.fault, e.name.as_str()), (LoadFault::MissingTensor, "lm_head.weight"));
    assert_eq!(
        load_store(store).map(|_| ()).unwrap_err(),
        (LoadFault::MissingTensor, "model.embed_tokens.weight".to_string())
    );

    let shards = |path: &str| vec![Shard { path: path.to_string(), mmap: &one[..] }];
    let entry = |name: &str, path: &str| vec![(name.to_string(), path.to_string())];
    let indexed = SafetensorStore::from_index(entry("model.norm.weight", "a"), shards("a"));
    assert!(indexed.tensor("model.norm.weight").is_ok());
    let lost = SafetensorStore::from_index(entry("model.norm.weight", "b"), shards("a"));
    let e = lost.tensor("model.norm.weight").err().unwrap();
    assert_eq!((e.fault, e.name.as_str()), (LoadFault::MissingShard, "b"));
    let wrong = SafetensorStore::from_index(entry("other", "a"), shards("a"));
    let e = wrong.tensor("other").err().unwrap();
    assert_eq!((e.fault, e.name.as_str()), (LoadFault::NotInShard, "other"));
}

/// A safetensors file of a header and data.
fn shard_of(header: &str, data: &[u8]) -> Vec<u8> {
    let mut bytes = (header.len() as u64).to_le_bytes().to_vec();
    bytes.extend(header.as_bytes());
    bytes.extend(data);
    bytes
}

#[test]
fn shard_headers_are_checked() {
    let entry = |shape: &str, start: u64, end: u64| {
        format!(r#"{{"dtype": "U8", "shape": {shape}, "data_offsets": [{start}, {end}]}}"#)
    };
    let named = |bytes: &[u8]| -> Option<Vec<String>> {
        let (_, entries) = open_header(bytes)?;
        let mut names: Vec<String> = entries.into_iter().map(|entry| entry.name).collect();
        names.sort();
        Some(names)
    };
    let two = format!(r#"{{"b": {}, "a": {}}}"#, entry("[3]", 2, 5), entry("[2]", 0, 2));
    let bytes = shard_of(&two, &[1, 2, 3, 4, 5]);
    assert_eq!(named(&bytes), Some(vec!["a".to_string(), "b".to_string()]));
    let (len, entries) = open_header(&bytes).unwrap();
    assert_eq!(len, two.len());
    let b = entries.iter().find(|entry| entry.name == "b").unwrap();
    assert_eq!((b.dtype.as_str(), &b.shape[..], b.start, b.end), ("U8", &[3][..], 2, 5));

    assert_eq!(named(&[]), None);
    assert_eq!(named(&shard_of("no header", &[])), None);
    assert_eq!(named(&shard_of(&two, &[1, 2, 3, 4])), None, "too little data");
    assert_eq!(named(&shard_of(&two, &[1, 2, 3, 4, 5, 6])), None, "too much data");
    let gap = format!(r#"{{"a": {}, "b": {}}}"#, entry("[2]", 0, 2), entry("[3]", 3, 6));
    assert_eq!(named(&shard_of(&gap, &[0; 6])), None);
    let wide = format!(r#"{{"a": {}}}"#, entry("[2]", 0, 3));
    assert_eq!(named(&shard_of(&wide, &[0; 3])), None);

    let top = usize::MAX as u64;
    let beyond = format!(r#"{{"a": {}}}"#, entry(&format!("[{top}]"), 0, top));
    let beyond = shard_of(&beyond, &[]);
    assert_eq!(named(&beyond), None, "the data would end outside the address range");
    assert_eq!(
        open_shards(&[("far", &beyond)]).map(|_| ()).unwrap_err(),
        (LoadFault::InvalidShard, "far".to_string())
    );
}

#[test]
fn only_plain_element_types_are_read() {
    let bytes: Vec<u8> = (0..8).collect();
    let shard = |dtype: Dtype, shape: Vec<usize>| {
        let view = TensorView::new(dtype, shape, &bytes).unwrap();
        safetensors::serialize(vec![("x".to_string(), view)], &None).unwrap()
    };
    let half = shard(Dtype::F16, vec![2, 2]);
    let store = open_shards(&[("a", &half)]).unwrap();
    assert_eq!(store.tensor("x").unwrap().quant_type, QuantType::F16);
    let brain = shard(Dtype::BF16, vec![4]);
    let store = open_shards(&[("a", &brain)]).unwrap();
    assert_eq!(store.tensor("x").unwrap().quant_type, QuantType::BF16);
    let integers = shard(Dtype::I64, vec![1]);
    let store = open_shards(&[("a", &integers)]).unwrap();
    let e = store.tensor("x").err().unwrap();
    assert_eq!((e.fault, e.name.as_str()), (LoadFault::ElementType, "I64"));
    let deep = shard(Dtype::F16, vec![1, 2, 2]);
    let store = open_shards(&[("a", &deep)]).unwrap();
    let e = store.tensor("x").err().unwrap();
    assert_eq!((e.fault, e.name.as_str()), (LoadFault::Tensor { error: QuantError::Rank }, "x"));
}

#[test]
fn mixed_quantization_goes_by_name() {
    let km = LoadQuantization::Q4KM;
    let recipe = |name: &str| choose_recipe(km, name, 2, QuantType::F16);
    for name in [
        "model.embed_tokens.weight",
        "token_embd.weight",
        "lm_head.weight",
        "output.weight",
        "model.layers.3.self_attn.v_proj.weight",
        "blk.3.attn_v.weight",
    ] {
        assert_eq!(recipe(name), Some(Recipe::Q8_0), "{name}");
    }
    assert_eq!(recipe("model.layers.0.mlp.down_proj.weight"), Some(Recipe::Q6K));
    assert_eq!(recipe("blk.0.ffn_down.weight"), Some(Recipe::Q6K));
    assert_eq!(recipe("blk.0.attn_q.weight"), Some(Recipe::Q4K));
    assert_eq!(recipe("blk.0.attn_output.weight"), Some(Recipe::Q4K));
    assert_eq!(
        choose_recipe(LoadQuantization::Q4K, "output.weight", 2, QuantType::F32),
        Some(Recipe::Q4K)
    );
    assert_eq!(choose_recipe(LoadQuantization::Keep, "output.weight", 2, QuantType::F32), None);
    assert_eq!(choose_recipe(km, "output.weight", 1, QuantType::F32), None);
    assert_eq!(choose_recipe(km, "output.weight", 2, QuantType::Q5_0), None);
}

#[test]
fn quantized_tensors_are_never_quantized_again() {
    let values: Vec<f32> = (0..256).map(|i| (i as f32 * 0.3).sin()).collect();
    let tensor = QuantTensor::quantize_q8_0(&values, 1, 256, &encode).unwrap();
    let before = tensor.row_data(0).to_vec();
    let kept =
        maybe_quantize(tensor, LoadQuantization::Q4K, "w", &scalar(), &encode).unwrap();
    assert_eq!(kept.quant_type, QuantType::Q8_0);
    assert_eq!(kept.row_data(0), &before[..]);
    let plain = QuantTensor::from_f32(&values, vec![1, 256], &encode).unwrap();
    let made = maybe_quantize(plain, LoadQuantization::Q4K, "w", &scalar(), &encode).unwrap();
    assert_eq!(made.quant_type, QuantType::Q4K);
    let direct = QuantTensor::quantize_q4k(&values, 1, 256, &encode).unwrap();
    assert_eq!(made.row_data(0), direct.row_data(0));
}

#[test]
fn quantization_names_are_parsed() {
    assert_eq!(LoadQuantization::parse("none"), Some(LoadQuantization::Keep));
    assert_eq!(LoadQuantization::parse("Q4K"), Some(LoadQuantization::Q4K));
    assert_eq!(LoadQuantization::parse("q4_k"), Some(LoadQuantization::Q4K));
    assert_eq!(LoadQuantization::parse("q4km"), Some(LoadQuantization::Q4KM));
    assert_eq!(LoadQuantization::parse("Q4_K_M"), Some(LoadQuantization::Q4KM));
    assert_eq!(LoadQuantization::parse("q8"), None);
    assert_eq!(LoadQuantization::default(), LoadQuantization::Keep);
}

#[test]
fn formats_are_detected() {
    let facts = |is_file: bool, extension: &str, has_safetensors: bool, ggufs: usize| {
        ModelLoader::detect(&PathFacts {
            is_file,
            is_dir: !is_file,
            extension: Some(extension.to_string()),
            has_safetensors,
            ggufs,
        })
    };
    assert_eq!(facts(true, "gguf", false, 0), Ok(ModelFormat::GgufFile));
    assert_eq!(facts(true, "safetensors", false, 0), Ok(ModelFormat::SafetensorsFile));
    assert_eq!(facts(true, "bin", false, 0), Err(LoadFault::UnknownFormat));
    assert_eq!(facts(false, "gguf", true, 3), Ok(ModelFormat::SafetensorsDirectory));
    assert_eq!(facts(false, "", false, 1), Ok(ModelFormat::GgufInDirectory));
    assert_eq!(facts(false, "", false, 2), Err(LoadFault::SeveralGgufs));
    assert_eq!(facts(false, "", false, 0), Err(LoadFault::UnknownFormat));
}

/// Sampling in single precision, with a fixed place between zero and one for the random number.
struct Dice {
    place: f32,
}

impl SamplingMath<f32> for Dice {
    fn zero(&self) -> f32 {
        0.0
    }

    fn bits(&self, value: f32) -> Single {
        single(value)
    }

    fn penalised(&self, value: f32, penalty: Single) -> f32 {
        let penalty = f32::from_bits(penalty.bits);
        if value > 0.0 {
            value / penalty
        } else {
            value * penalty
        }
    }

    fn scaled(&self, value: f32, temperature: Single) -> f32 {
        value / f32::from_bits(temperature.bits)
    }

    fn cleaned(&self, value: f32) -> f32 {
        if value.is_finite() {
            value
        } else {
            f32::NEG_INFINITY
        }
    }

    fn exponential(&self, value: f32, max: f32) -> f32 {
        (value - max).exp()
    }

    fn total(&self, sum: f32, value: f32) -> f32 {
        sum + value
    }

    fn usable(&self, sum: f32) -> bool {
        sum.is_finite() && sum > 0.0
    }

    fn share(&self, weight: f32, sum: f32) -> f32 {
        weight / sum
    }

    fn reaches(&self, sum: f32, top_p: Single) -> bool {
        sum >= f32::from_bits(top_p.bits)
    }

    fn draw(&self, sum: f32) -> f32 {
        self.place * sum
    }

    fn spend(&self, left: f32, share: f32) -> f32 {
        left - share
    }

    fn spent(&self, left: f32) -> bool {
        left <= 0.0
    }
}

fn options(temperature: f32, top_p: f32, top_k: usize, penalty: f32) -> Sampling {
    Sampling {
        temperature: single(temperature),
        top_p: single(top_p),
        top_k,
        repetition_penalty: single(penalty),
    }
}

#[test]
fn sampling_options_are_checked() {
    assert_eq!(options(0.7, 0.9, 40, 1.1).validate(), Ok(()));
    assert_eq!(options(0.0, 1.0, 0, 1.0).validate(), Ok(()));
    assert_eq!(options(-0.0, 1.0, 0, 1.0).validate(), Ok(()));
    for bad in [-0.1, f32::NAN, f32::INFINITY, f32::NEG_INFINITY] {
        assert_eq!(options(bad, 0.9, 0, 1.0).validate(), Err(SamplingError::Temperature));
    }
    for bad in [0.0, -0.5, 1.000_001, f32::NAN, f32::INFINITY] {
        assert_eq!(options(0.5, bad, 0, 1.0).validate(), Err(SamplingError::TopP));
    }
    for bad in [0.0, -1.0, f32::NAN, f32::INFINITY] {
        assert_eq!(options(0.5, 0.9, 0, bad).validate(), Err(SamplingError::RepetitionPenalty));
    }
    let defaults = EngineOptions::default();
    assert_eq!(validate_sampling(&defaults), Ok(()));
    assert_eq!(defaults.temperature, single(0.7));
    assert_eq!(defaults.top_p, single(0.9));
    assert_eq!(defaults.repetition_penalty, single(1.1));
    assert_eq!((defaults.top_k, defaults.repeat_last_n, defaults.context_length), (40, 64, 4096));
}

#[test]
fn greedy_sampling_takes_the_largest_logit() {
    let dice = Dice { place: 0.5 };
    let mut flags = vec![false; 4];
    let logits = [0.5, 2.0, -1.0, 1.5];
    let token = sample(&dice, options(0.0, 1.0, 0, 1.0), &logits, &[], &mut flags);
    assert_eq!(token, 1);
    // A penalty of two turns the largest logit into the third.
    let token = sample(&dice, options(0.0, 1.0, 0, 2.0), &logits, &[1, 9], &mut flags);
    assert_eq!(token, 3);
    assert_eq!(flags, vec![false; 4]);
    let token = sample(&dice, options(0.0, 1.0, 0, 1.0), &[f32::NAN, -3.0], &[], &mut vec![false; 2]);
    assert_eq!(token, 1);
}

#[test]
fn sampling_stays_inside_the_nucleus() {
    let logits = [1.0f32, 3.0, 2.0, 0.0];
    let draw = |place: f32, top_p: f32, top_k: usize| {
        sample(
            &Dice { place },
            options(1.0, top_p, top_k, 1.0),
            &logits,
            &[],
            &mut vec![false; 4],
        )
    };
    assert_eq!(draw(0.0, 1.0, 0), 1);
    assert_eq!(draw(0.999_999, 1.0, 0), 3);
    assert_eq!(draw(0.999_999, 1.0, 2), 2);
    assert_eq!(draw(0.999_999, 0.5, 0), 1);
    assert_eq!(draw(0.999_999, 1.0, 1), 1);
    let unusable = sample(
        &Dice { place: 0.5 },
        options(1.0, 1.0, 0, 1.0),
        &[f32::NAN, f32::NAN],
        &[],
        &mut vec![false; 2],
    );
    assert!(unusable < 2);
}

#[test]
fn nucleus_and_pick_find_the_first_that_reaches() {
    let dice = Dice { place: 0.5 };
    assert_eq!(nucleus(&dice, single(0.75), &[0.5, 0.25, 0.25]), (2, 0.75));
    assert_eq!(nucleus(&dice, single(1.0), &[0.5, 0.25]), (2, 0.75));
    assert_eq!(nucleus(&dice, single(0.1), &[0.5, 0.25]), (1, 0.5));
    assert_eq!(pick(&dice, &[0.5, 0.25, 0.25], 3, 0.6), 1);
    assert_eq!(pick(&dice, &[0.5, 0.25, 0.25], 2, 9.0), 1);
    assert_eq!(pick(&dice, &[0.5, 0.25, 0.25], 3, 0.0), 0);
}

#[test]
fn values_are_ranked_in_their_total_order() {
    let values = [0.0f32, -0.0, 5.0, f32::NEG_INFINITY, f32::NAN, -2.0];
    let bits: Vec<Single> = values.iter().map(|&v| single(v)).collect();
    assert_eq!(rank(&bits), vec![4, 2, 0, 1, 5, 3]);
    let dice = Dice { place: 0.0 };
    assert_eq!(argmax(&dice, &[1.0f32, 7.0, 7.0, 3.0]), 2);
    assert_eq!(argmax(&dice, &[]), 0);
    assert!(Double { bits: 1.5f64.to_bits() }.is_above_zero());
    assert!(!Double { bits: (-1.5f64).to_bits() }.is_above_zero());
    assert!(!Double { bits: f64::NAN.to_bits() }.is_above_zero());
}

fn words() -> Tokenizer {
    let json = r#"{
        "version": "1.0",
        "truncation": null,
        "padding": null,
        "added_tokens": [
            {"id": 5, "content": "<|im_end|>", "single_word": false, "lstrip": false,
             "rstrip": false, "normalized": false, "special": true}
        ],
        "normalizer": null,
        "pre_tokenizer": {"type": "Whitespace"},
        "post_processor": null,
        "decoder": null,
        "model": {
            "type": "WordLevel",
            "vocab": {"zero": 0, "one": 1, "two": 2, "three": 3, "four": 4, "<|im_end|>": 5, "big": 99},
            "unk_token": "zero"
        }
    }"#;
    json.parse().unwrap()
}

type Engine<'a> = InferenceEngine<f32, Model<'a>>;

fn engine_for<'a>(bytes: &'a [u8], options: &EngineOptions, eos: Vec<u32>) -> Engine<'a> {
    let model = load_gguf(bytes).unwrap();
    InferenceEngine::from_parts(model, words(), eos, options, 0.0f32).unwrap()
}

fn greedy_options() -> EngineOptions {
    EngineOptions {
        context_length: 12,
        temperature: single(0.0),
        repetition_penalty: single(1.0),
        ..EngineOptions::default()
    }
}

#[test]
fn new_engines_are_empty() {
    let bytes = tiny(false).gguf();
    let model = load_gguf(&bytes).unwrap();
    let engine =
        InferenceEngine::from_parts(model, words(), vec![], &greedy_options(), 0.25f32).unwrap();
    assert!(engine.recent_tokens.is_empty());
    assert!(engine.kv_cache.k_cache.iter().flatten().all(|&x| x == 0.25));
    assert!(engine.kv_cache.v_cache.iter().flatten().all(|&x| x == 0.25));
    assert!(engine.buffers.logits.iter().all(|&x| x == 0.25));
    assert!(engine.buffers.attention.iter().all(|&x| x == 0.25));
}

#[test]
fn generation_follows_the_model_token_by_token() {
    let bytes = tiny(false).gguf();
    let dice = Dice { place: 0.5 };
    let mut engine = engine_for(&bytes, &greedy_options(), vec![]);
    let (answer, _, _) = engine.generate_tokens(&[1, 2, 3], 5, &dice).unwrap();
    assert_eq!(answer.len(), 5);

    let model = load_gguf(&bytes).unwrap();
    let mut tokens = vec![1u32, 2, 3];
    for &token in &answer {
        let logits = logits_of(&model, &tokens);
        let best = logits.iter().copied().fold(f32::NEG_INFINITY, f32::max);
        assert_eq!(logits[token as usize], best);
        tokens.push(token);
    }
    assert_eq!(engine.recent_tokens, tokens);

    let (again, _, _) = engine.generate_tokens(&[1, 2, 3], 5, &dice).unwrap();
    assert_eq!(again, answer, "a new conversation starts afresh");
}

#[test]
fn generation_ends_with_an_end_token_or_the_context() {
    let bytes = tiny(false).gguf();
    let dice = Dice { place: 0.5 };
    let mut engine = engine_for(&bytes, &greedy_options(), vec![]);
    let (free, _, _) = engine.generate_tokens(&[4, 1], 100, &dice).unwrap();
    assert_eq!(free.len(), 10, "context of twelve, prompt of two");
    let mut engine = engine_for(&bytes, &greedy_options(), vec![free[0]]);
    let (ended, _, _) = engine.generate_tokens(&[4, 1], 100, &dice).unwrap();
    assert_eq!(ended, free[..1]);
    let (none, _, _) = engine.generate_tokens(&[4, 1], 0, &dice).unwrap();
    assert!(none.is_empty());
}

#[test]
fn the_repetition_window_keeps_the_end() {
    let bytes = tiny(false).gguf();
    let dice = Dice { place: 0.5 };
    let mut options = greedy_options();
    options.repeat_last_n = 3;
    let mut engine = engine_for(&bytes, &options, vec![]);
    let (answer, _, _) = engine.generate_tokens(&[1, 2, 3, 4, 0], 2, &dice).unwrap();
    assert_eq!(engine.recent_tokens, vec![0, answer[0], answer[1]]);
    let next = engine.forward_step(2, 7, &dice).unwrap();
    assert_eq!(engine.recent_tokens, vec![answer[0], answer[1], next]);
    engine.reset();
    assert!(engine.recent_tokens.is_empty());
    options.repeat_last_n = 0;
    let mut engine = engine_for(&bytes, &options, vec![]);
    engine.generate_tokens(&[1, 2], 2, &dice).unwrap();
    assert!(engine.recent_tokens.is_empty());
}

#[test]
fn engines_refuse_what_does_not_fit() {
    let bytes = tiny(false).gguf();
    let dice = Dice { place: 0.5 };
    let mut engine = engine_for(&bytes, &greedy_options(), vec![]);
    assert!(matches!(engine.generate_tokens(&[], 1, &dice), Err(EngineError::EmptyPrompt)));
    assert!(matches!(
        engine.generate_tokens(&[1; 12], 1, &dice),
        Err(EngineError::PromptTooLong { tokens: 12, context: 12 })
    ));
    assert!(matches!(
        engine.generate_tokens(&[1, 99], 1, &dice),
        Err(EngineError::Model { error: ModelError::Token { token: 99 } })
    ));
    assert!(matches!(
        engine.forward_step(1, 12, &dice),
        Err(EngineError::Model { error: ModelError::Position { pos: 12, context: 12 } })
    ));
    assert!(matches!(engine.benchmark_tokens(&[], 1, &dice), Err(EngineError::EmptyBenchmark)));
    assert!(matches!(
        engine.benchmark_tokens(&[1; 8], 5, &dice),
        Err(EngineError::BenchmarkTooLong)
    ));
    assert!(matches!(
        engine.benchmark_tokens(&[99], 5, &dice),
        Err(EngineError::Model { .. })
    ));
    let refuse = |options: &EngineOptions| {
        InferenceEngine::from_parts(load_gguf(&bytes).unwrap(), words(), vec![], options, 0.0f32)
            .err()
            .unwrap()
    };
    let mut options = greedy_options();
    options.top_p = single(0.0);
    assert!(matches!(refuse(&options), EngineError::Sampling { error: SamplingError::TopP }));
    let mut options = greedy_options();
    options.context_length = 0;
    assert!(matches!(refuse(&options), EngineError::ZeroContext));
    let mut options = greedy_options();
    options.context_length = 1000;
    let long = engine_for(&bytes, &options, vec![]);
    assert_eq!(long.kv_cache.max_seq_len, 16);
}

#[test]
fn benchmarks_count_their_tokens() {
    let bytes = tiny(false).gguf();
    let dice = Dice { place: 0.5 };
    let mut engine = engine_for(&bytes, &greedy_options(), vec![]);
    let metrics = engine.benchmark_tokens(&[1, 2, 3], 4, &dice).unwrap();
    assert_eq!((metrics.prompt_tokens, metrics.generated_tokens), (3, 4));
    assert_eq!(engine.backend_summary(), "scalar / 1 threads");
    assert_eq!(repeated_prompt(&[7, 8, 9], 7), vec![7, 8, 9, 7, 8, 9, 7]);
}

#[test]
fn prompts_are_encoded_and_answers_decoded() {
    let bytes = tiny(false).gguf();
    let dice = Dice { place: 0.5 };
    let mut engine = engine_for(&bytes, &greedy_options(), vec![5]);
    let output = engine.generate_with_metrics("one two three", 4, &dice).unwrap();
    assert_eq!(output.metrics.prompt_tokens, 3);
    assert_eq!(output.metrics.generated_tokens, output.token_ids.len());
    let (answer, _, _) = engine.generate_tokens(&[1, 2, 3], 4, &dice).unwrap();
    assert_eq!(output.token_ids, answer);
    let same = engine.generate_from_tokens(&[1, 2, 3], 4, &dice).unwrap();
    assert_eq!((same.token_ids, &same.text), (answer.clone(), &output.text));
    let names = ["zero", "one", "two", "three", "four"];
    let expected: Vec<&str> =
        answer.iter().filter_map(|&id| names.get(id as usize).copied()).collect();
    assert_eq!(output.text, expected.join(" "));
    assert_eq!(engine.generate("one two three", 4, &dice).unwrap(), output.text);
    assert!(matches!(engine.generate("", 4, &dice), Err(EngineError::EmptyPrompt)));
    assert!(matches!(
        engine.generate("one big", 4, &dice),
        Err(EngineError::Model { error: ModelError::Token { token: 99 } })
    ));
}

#[test]
fn tokenizers_that_would_fail_in_use_are_refused() {
    let bytes = tiny(false).gguf();
    let dice = Dice { place: 0.5 };
    let engine_with = |truncation: &str, decoder: &str| {
        let json = words().to_string(false).unwrap();
        assert!(json.contains("\"truncation\":null") && json.contains("\"decoder\":null"));
        let json = json
            .replace("\"truncation\":null", &format!("\"truncation\":{truncation}"))
            .replace("\"decoder\":null", &format!("\"decoder\":{decoder}"));
        let tokenizer: Tokenizer = json.parse().unwrap();
        let model = load_gguf(&bytes).unwrap();
        InferenceEngine::from_parts(model, tokenizer, vec![5], &greedy_options(), 0.0f32).unwrap()
    };
    let window = |stride: u32| {
        format!(
            r#"{{"direction":"Right","max_length":2,"strategy":"LongestFirst","stride":{stride}}}"#
        )
    };
    let mut engine = engine_with(&window(1), "null");
    assert_eq!(engine.encode_prompt("one two three").unwrap(), vec![1, 2]);
    assert_eq!(engine.generate_with_metrics("one two three", 4, &dice).unwrap().metrics.prompt_tokens, 2);
    let mut engine = engine_with(&window(2), "null");
    assert!(matches!(engine.encode_prompt("one two"), Err(EngineError::EncoderSettings)));
    assert!(matches!(
        engine.generate_with_metrics("one two", 4, &dice),
        Err(EngineError::EncoderSettings)
    ));
    assert!(matches!(engine.generate("one two", 4, &dice), Err(EngineError::EncoderSettings)));
    assert!(engine.recent_tokens.is_empty());
    let known = engine.generate_from_tokens(&[1, 2, 3], 4, &dice).unwrap();

    let mut engine =
        engine_with("null", r#"{"type":"Strip","content":"o","start":0,"stop":9}"#);
    assert!(matches!(
        engine.generate_from_tokens(&[1, 2, 3], 4, &dice),
        Err(EngineError::DecoderSettings)
    ));
    let (answer, _, _) = engine.generate_tokens(&[1, 2, 3], 4, &dice).unwrap();
    assert_eq!(answer, known.token_ids);
    assert!(matches!(engine.generate("one two three", 4, &dice), Err(EngineError::DecoderSettings)));
    assert!(matches!(engine.generate("", 4, &dice), Err(EngineError::EmptyPrompt)));
}

#[test]
fn end_tokens_come_from_the_configuration_and_the_tokenizer() {
    let tokenizer = words();
    let find = |text: Option<&str>| find_eos_tokens(text, &tokenizer);
    assert_eq!(find(None).unwrap(), vec![5]);
    assert_eq!(find(Some(r#"{"eos_token_id": 7}"#)).unwrap(), vec![5, 7]);
    assert_eq!(find(Some(r#"{"eos_token_id": [9, 5, 3, 9, -1, 4294967296, "x"]}"#)).unwrap(), vec![3, 5, 9]);
    assert_eq!(find(Some(r#"{"eos_token_id": "x"}"#)).unwrap(), vec![5]);
    assert_eq!(find(Some(r#"{"other": 7}"#)).unwrap(), vec![5]);
    assert!(matches!(find(Some("{")), Err(EngineError::GenerationConfig)));
    assert_eq!(collect_eos(&[Some(4), None, Some(1)], Some(9), Some(1)), vec![1, 4, 9]);
}

#[test]
fn the_median_round_is_in_the_middle() {
    let round = |prefill: u64, decode: u64| InferenceMetrics {
        prompt_tokens: 1,
        generated_tokens: 1,
        prefill,
        decode,
    };
    let rounds = [round(5, 5), round(1, 1), round(2, 2), round(9, 9), round(3, 3)];
    assert_eq!(median_round(&rounds), 4);
    assert_eq!(median_round(&[round(1, 0)]), 0);
    assert_eq!(median_round(&[round(2, 0), round(1, 0)]), 0);
    assert_eq!(InferenceMetrics::default().prefill, 0);
}
