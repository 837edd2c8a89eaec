//! Integer row products: packed weight codes against eight-bit activation codes.
//!
//! For each block a kernel gives the integers from which the block's share of the row product
//! follows: the weighted sum of the codes, and the correction for minima or for a constant offset
//! of the codes, taken from the sums that the activation block carries.

use crate::activation;
use crate::activation::{BlockQ8K, BlockQ8_32};
use crate::bytes;
use crate::float::Single;
use crate::quant;
use crate::quant::{ElementCode, QuantType};
use vstd::prelude::*;

verus! {

/// The share of one block in a row product. The half-precision factors of the weights are given by
/// their bit patterns.
#[derive(Clone, Copy, Debug, PartialEq, Eq, Structural)]
pub enum BlockDot {
    /// The share `d * act * dot - dmin * act * mins`.
    Minimum { d: u16, dmin: u16, act: Single, dot: i32, mins: i32 },
    /// The share `d * act * dot - d * act * offset * sum`.
    Offset { d: u16, act: Single, dot: i32, offset: i32, sum: i32 },
}

impl BlockDot {
    /// The sum of the decoded codes times the activation codes.
    pub open spec fn code_part(self) -> int {
        match self {
            BlockDot::Minimum { d, dmin, act, dot, mins } => dot as int,
            BlockDot::Offset { d, act, dot, offset, sum } => dot - offset * sum,
        }
    }

    /// The sum of the minima times the activation codes.
    pub open spec fn min_part(self) -> int {
        match self {
            BlockDot::Minimum { d, dmin, act, dot, mins } => mins as int,
            BlockDot::Offset { d, act, dot, offset, sum } => 0,
        }
    }
}

/// The code of element `j` times its group scale, before any constant is subtracted from the code.
pub open spec fn raw_term(block: Seq<u8>, ty: QuantType, j: int) -> int {
    match ty {
        QuantType::Q4_0 => quant::nibble32(block, 2, j),
        QuantType::Q5_0 => quant::nibble32(block, 6, j) + 16 * bytes::bit_of(block[2 + j / 8], j % 8),
        QuantType::Q8_0 => bytes::signed8(block[2 + j]),
        QuantType::Q4K => quant::k4_scale(block, 4, j / 32) * quant::nibble256(block, 16, j),
        QuantType::Q5K => quant::k4_scale(block, 4, j / 32) * (quant::nibble256(block, 48, j) + 16
            * bytes::bit_of(block[16 + j % 32], j / 32)),
        _ => bytes::signed8(block[192 + j / 16]) * quant::q6k_code(block, j),
    }
}

/// The sum of the first `n` raw terms, each times its activation code.
pub open spec fn raw_dot(block: Seq<u8>, ty: QuantType, qs: Seq<i8>, n: int) -> int
    decreases n,
{
    if n <= 0 {
        0
    } else {
        raw_dot(block, ty, qs, n - 1) + raw_term(block, ty, n - 1) * qs[n - 1]
    }
}

/// The sum over the first `n` groups of 32 of the group's minimum times its activation sums.
pub open spec fn mins_sum(block: Seq<u8>, bsums: Seq<i16>, n: int) -> int
    decreases n,
{
    if n <= 0 {
        0
    } else {
        mins_sum(block, bsums, n - 1) + quant::k4_min(block, 4, n - 1) * (bsums[2 * (n - 1)]
            + bsums[2 * (n - 1) + 1])
    }
}

/// The sum over the first `n` groups of 16 of the group's signed scale times its activation sum.
pub open spec fn scale_sum(block: Seq<u8>, bsums: Seq<i16>, n: int) -> int
    decreases n,
{
    if n <= 0 {
        0
    } else {
        scale_sum(block, bsums, n - 1) + bytes::signed8(block[192 + (n - 1)]) * bsums[n - 1]
    }
}

/// The formats with a kernel against super-blocks of activations.
pub open spec fn has_q8k_kernel(ty: QuantType) -> bool {
    ty == QuantType::Q4K || ty == QuantType::Q5K || ty == QuantType::Q6K
}

/// The formats with a kernel against blocks of 32 activations.
pub open spec fn has_q8_32_kernel(ty: QuantType) -> bool {
    ty == QuantType::Q4_0 || ty == QuantType::Q5_0 || ty == QuantType::Q8_0
}

/// What a kernel against a super-block of activations gives for one block.
pub open spec fn q8k_dot(block: Seq<u8>, ty: QuantType, act: BlockQ8K) -> BlockDot {
    if ty == QuantType::Q6K {
        BlockDot::Offset {
            d: bytes::le16(block, 208) as u16,
            act: act.d,
            dot: raw_dot(block, ty, act.qs@, 256) as i32,
            offset: 32,
            sum: scale_sum(block, act.bsums@, 16) as i32,
        }
    } else {
        BlockDot::Minimum {
            d: bytes::le16(block, 0) as u16,
            dmin: bytes::le16(block, 2) as u16,
            act: act.d,
            dot: raw_dot(block, ty, act.qs@, 256) as i32,
            mins: mins_sum(block, act.bsums@, 8) as i32,
        }
    }
}

/// The constant that a format of 32 values subtracts from every code.
pub open spec fn code_offset(ty: QuantType) -> int {
    match ty {
        QuantType::Q4_0 => 8,
        QuantType::Q5_0 => 16,
        _ => 0,
    }
}

/// What a kernel against a block of 32 activations gives for one block.
pub open spec fn q8_32_dot(block: Seq<u8>, ty: QuantType, act: BlockQ8_32) -> BlockDot {
    BlockDot::Offset {
        d: bytes::le16(block, 0) as u16,
        act: act.d,
        dot: raw_dot(block, ty, act.qs@, 32) as i32,
        offset: code_offset(ty) as i32,
        sum: act.sum,
    }
}

/// The largest magnitude that a raw term of the format can have.
pub open spec fn term_bound(ty: QuantType) -> int {
    match ty {
        QuantType::Q4_0 => 15,
        QuantType::Q5_0 => 31,
        QuantType::Q8_0 => 128,
        QuantType::Q4K => 945,
        QuantType::Q5K => 1953,
        _ => 8064,
    }
}

/// The product of two numbers of bounded magnitude is bounded.
proof fn lemma_product_bound(a: int, b: int, m: int, n: int)
    requires
        -m <= a <= m,
        -n <= b <= n,
    ensures
        -(m * n) <= a * b <= m * n,
{
    assert(-(m * n) <= a * b <= m * n) by (nonlinear_arith)
        requires
            -m <= a <= m,
            -n <= b <= n,
    ;
}

/// The raw terms of the kernel formats are bounded.
proof fn lemma_term_bound(block: Seq<u8>, ty: QuantType, j: int)
    requires
        has_q8k_kernel(ty) || has_q8_32_kernel(ty),
        0 <= j < ty.block_len(),
    ensures
        -term_bound(ty) <= raw_term(block, ty, j) <= term_bound(ty),
{
    match ty {
        QuantType::Q4K => lemma_product_bound(
            quant::k4_scale(block, 4, j / 32),
            quant::nibble256(block, 16, j),
            63,
            15,
        ),
        QuantType::Q5K => lemma_product_bound(
            quant::k4_scale(block, 4, j / 32),
            quant::nibble256(block, 48, j) + 16 * bytes::bit_of(block[16 + j % 32], j / 32),
            63,
            31,
        ),
        QuantType::Q6K => {
            lemma_product_bound(
                bytes::signed8(block[192 + j / 16]),
                quant::q6k_code(block, j),
                128,
                63,
            );
        },
        _ => {},
    }
}

/// Partial sums of products stay far inside 32 bits.
proof fn lemma_dot_bound(block: Seq<u8>, ty: QuantType, qs: Seq<i8>, n: int)
    requires
        has_q8k_kernel(ty) || has_q8_32_kernel(ty),
        0 <= n <= ty.block_len(),
    ensures
        -(term_bound(ty) * 128 * n) <= raw_dot(block, ty, qs, n) <= term_bound(ty) * 128 * n,
        -264241152 <= raw_dot(block, ty, qs, n) <= 264241152,
    decreases n,
{
    if n > 0 {
        lemma_dot_bound(block, ty, qs, n - 1);
        lemma_term_bound(block, ty, n - 1);
        lemma_product_bound(raw_term(block, ty, n - 1), qs[n - 1] as int, term_bound(ty), 128);
        assert(term_bound(ty) * 128 * n == term_bound(ty) * 128 * (n - 1) + term_bound(ty) * 128)
            by (nonlinear_arith);
    } else {
        assert(term_bound(ty) * 128 * 0 == 0) by (nonlinear_arith);
    }
    assert(term_bound(ty) * 128 * n <= 264241152) by (nonlinear_arith)
        requires
            0 <= n <= ty.block_len(),
            ty.block_len() <= 256,
            0 <= term_bound(ty) <= 8064,
    ;
}

/// Reads the code of element `j` times its group scale.
fn read_raw_term(block: &[u8], ty: QuantType, j: usize) -> (term: i32)
    requires
        has_q8k_kernel(ty) || has_q8_32_kernel(ty),
        block@.len() == ty.block_bytes(),
        j < ty.block_len(),
    ensures
        term == raw_term(block@, ty, j as int),
{
    proof {
        lemma_term_bound(block@, ty, j as int);
    }
    match quant::decode_in_block(block, ty, j) {
        ElementCode::Scaled { d, code } => code as i32 + (if ty == QuantType::Q4_0 {
            8
        } else if ty == QuantType::Q5_0 {
            16
        } else {
            0i32
        }),
        ElementCode::Grouped { d, dmin, scale, min, code } => (scale as i32) * (code as i32),
        ElementCode::GroupScaled { d, scale, code } => (scale as i32) * (code as i32 + 32),
        _ => 0,
    }
}

/// Multiplies the codes of a block by the activation codes.
fn block_dot(block: &[u8], ty: QuantType, qs: &[i8]) -> (dot: i32)
    requires
        has_q8k_kernel(ty) || has_q8_32_kernel(ty),
        block@.len() == ty.block_bytes(),
        qs@.len() == ty.block_len(),
    ensures
        dot == raw_dot(block@, ty, qs@, ty.block_len()),
{
    let n: usize = ty.block_size();
    let mut dot: i32 = 0;
    for j in 0..n
        invariant
            has_q8k_kernel(ty) || has_q8_32_kernel(ty),
            block@.len() == ty.block_bytes(),
            qs@.len() == ty.block_len(),
            n == ty.block_len(),
            dot == raw_dot(block@, ty, qs@, j as int),
    {
        let term: i32 = read_raw_term(block, ty, j);
        proof {
            lemma_term_bound(block@, ty, j as int);
            lemma_product_bound(term as int, qs@[j as int] as int, 8064, 128);
            lemma_dot_bound(block@, ty, qs@, j as int);
            lemma_dot_bound(block@, ty, qs@, j + 1);
        }
        dot = dot + term * (qs[j] as i32);
    }
    dot
}

/// Multiplies one block by a super-block of activations.
pub fn dot_block_q8k(block: &[u8], ty: QuantType, act: &BlockQ8K) -> (r: BlockDot)
    requires
        has_q8k_kernel(ty),
        block@.len() == ty.block_bytes(),
        act.valid(),
    ensures
        r == q8k_dot(block@, ty, *act),
        r.code_part() == decoded_dot(block@, ty, act.qs@, 256),
        r.min_part() == decoded_min(block@, ty, act.qs@, 256),
{
    proof {
        q8k_kernel_is_the_dot_of_decoded_codes(block@, ty, *act);
    }
    let dot: i32 = block_dot(block, ty, &act.qs);
    if ty == QuantType::Q6K {
        let mut sum: i32 = 0;
        for g in 0usize..16
            invariant
                block@.len() == 210,
                act.valid(),
                sum == scale_sum(block@, act.bsums@, g as int),
                -262144 * g <= sum <= 262144 * g,
        {
            proof {
                activation::lemma_code_sum_bound(act.qs@, 16 * g, 16 * g + 16);
                lemma_product_bound(
                    bytes::signed8(block@[192 + g]),
                    act.bsums@[g as int] as int,
                    128,
                    2048,
                );
            }
            let scale: i32 = bytes::signed(block[192 + g]) as i32;
            sum = sum + scale * (act.bsums[g] as i32);
        }
        BlockDot::Offset { d: bytes::read_u16(block, 208), act: act.d, dot, offset: 32, sum }
    } else {
        let mut mins: i32 = 0;
        for g in 0usize..8
            invariant
                block@.len() >= 16,
                act.valid(),
                mins == mins_sum(block@, act.bsums@, g as int),
                -262144 * g <= mins <= 262144 * g,
        {
            let (scale, min) = quant::scale_min_k4(block, 4, g);
            proof {
                activation::lemma_code_sum_bound(act.qs@, 16 * (2 * g), 16 * (2 * g) + 16);
                activation::lemma_code_sum_bound(act.qs@, 16 * (2 * g + 1), 16 * (2 * g + 1) + 16);
                assert(act.bsums@[2 * g] == code_sum_of(act, 2 * g as int));
                assert(act.bsums@[2 * g + 1] == code_sum_of(act, 2 * g + 1));
                lemma_product_bound(
                    min as int,
                    act.bsums@[2 * g] + act.bsums@[2 * g + 1],
                    64,
                    4096,
                );
            }
            let sum: i32 = act.bsums[2 * g] as i32 + act.bsums[2 * g + 1] as i32;
            mins = mins + (min as i32) * sum;
        }
        BlockDot::Minimum {
            d: bytes::read_u16(block, 0),
            dmin: bytes::read_u16(block, 2),
            act: act.d,
            dot,
            mins,
        }
    }
}

/// The sum that group `g` of an activation block should carry.
spec fn code_sum_of(act: &BlockQ8K, g: int) -> int {
    activation::code_sum(act.qs@, 16 * g, 16 * g + 16)
}

/// Multiplies one block by a block of 32 activations.
pub fn dot_block_q8_32(block: &[u8], ty: QuantType, act: &BlockQ8_32) -> (r: BlockDot)
    requires
        has_q8_32_kernel(ty),
        block@.len() == ty.block_bytes(),
        act.valid(),
    ensures
        r == q8_32_dot(block@, ty, *act),
        r.code_part() == decoded_dot(block@, ty, act.qs@, 32),
        r.min_part() == decoded_min(block@, ty, act.qs@, 32),
{
    proof {
        q8_32_kernel_is_the_dot_of_decoded_codes(block@, ty, *act);
    }
    let dot: i32 = block_dot(block, ty, &act.qs);
    let offset: i32 = if ty == QuantType::Q4_0 {
        8
    } else if ty == QuantType::Q5_0 {
        16
    } else {
        0
    };
    BlockDot::Offset { d: bytes::read_u16(block, 0), act: act.d, dot, offset, sum: act.sum }
}

/// The decoded code of an element times its group scale.
pub open spec fn code_product(code: ElementCode) -> int {
    match code {
        ElementCode::Scaled { d, code } => code as int,
        ElementCode::Grouped { d, dmin, scale, min, code } => scale * code,
        ElementCode::GroupScaled { d, scale, code } => scale * code,
        _ => 0,
    }
}

/// The minimum that an element subtracts.
pub open spec fn code_min(code: ElementCode) -> int {
    match code {
        ElementCode::Grouped { d, dmin, scale, min, code } => min as int,
        _ => 0,
    }
}

/// The sum of the first `n` decoded codes, each times its activation code.
pub open spec fn decoded_dot(block: Seq<u8>, ty: QuantType, qs: Seq<i8>, n: int) -> int
    decreases n,
{
    if n <= 0 {
        0
    } else {
        decoded_dot(block, ty, qs, n - 1) + code_product(quant::block_code(block, ty, n - 1)) * qs[n
            - 1]
    }
}

/// The sum of the minima of the first `n` elements, each times its activation code.
pub open spec fn decoded_min(block: Seq<u8>, ty: QuantType, qs: Seq<i8>, n: int) -> int
    decreases n,
{
    if n <= 0 {
        0
    } else {
        decoded_min(block, ty, qs, n - 1) + code_min(quant::block_code(block, ty, n - 1)) * qs[n
            - 1]
    }
}

/// Two neighbouring sums make one.
proof fn lemma_code_sum_split(qs: Seq<i8>, from: int, mid: int, to: int)
    requires
        from <= mid <= to,
    ensures
        activation::code_sum(qs, from, to) == activation::code_sum(qs, from, mid)
            + activation::code_sum(qs, mid, to),
    decreases to - mid,
{
    if mid < to {
        lemma_code_sum_split(qs, from, mid, to - 1);
    }
}

/// The decoded parts of the elements of the kernel formats.
proof fn lemma_decoded_element(block: Seq<u8>, ty: QuantType, j: int)
    requires
        has_q8k_kernel(ty) || has_q8_32_kernel(ty),
        0 <= j < ty.block_len(),
    ensures
        ({
            let code = quant::block_code(block, ty, j);
            &&& ty == QuantType::Q4K || ty == QuantType::Q5K ==> code_product(code) == raw_term(
                block,
                ty,
                j,
            ) && code_min(code) == quant::k4_min(block, 4, j / 32)
            &&& ty == QuantType::Q6K ==> code_product(code) == raw_term(block, ty, j) - 32
                * bytes::signed8(block[192 + j / 16]) && code_min(code) == 0
            &&& has_q8_32_kernel(ty) ==> code_product(code) == raw_term(block, ty, j) - code_offset(
                ty,
            ) && code_min(code) == 0
        }),
{
    if ty == QuantType::Q6K {
        let scale = bytes::signed8(block[192 + j / 16]);
        let code = quant::q6k_code(block, j);
        assert(0 <= code < 64);
        assert(scale * (code - 32) == scale * code - 32 * scale) by (nonlinear_arith);
    }
}

/// Elements of formats with minima: the dot product is the raw one.
proof fn lemma_grouped_dot(block: Seq<u8>, ty: QuantType, qs: Seq<i8>, n: int)
    requires
        ty == QuantType::Q4K || ty == QuantType::Q5K,
        0 <= n <= 256,
    ensures
        decoded_dot(block, ty, qs, n) == raw_dot(block, ty, qs, n),
    decreases n,
{
    if n > 0 {
        lemma_grouped_dot(block, ty, qs, n - 1);
        lemma_decoded_element(block, ty, n - 1);
    }
}

/// The minima of one group factor out of the group's activation codes.
proof fn lemma_group_min(block: Seq<u8>, ty: QuantType, qs: Seq<i8>, g: int, k: int)
    requires
        ty == QuantType::Q4K || ty == QuantType::Q5K,
        0 <= g < 8,
        0 <= k <= 32,
    ensures
        decoded_min(block, ty, qs, 32 * g + k) == decoded_min(block, ty, qs, 32 * g)
            + quant::k4_min(block, 4, g) * activation::code_sum(qs, 32 * g, 32 * g + k),
    decreases k,
{
    let m = quant::k4_min(block, 4, g);
    if k > 0 {
        lemma_group_min(block, ty, qs, g, k - 1);
        let j = 32 * g + k - 1;
        lemma_decoded_element(block, ty, j);
        assert(j / 32 == g);
        let s = activation::code_sum(qs, 32 * g, 32 * g + k - 1);
        assert(m * (s + qs[j]) == m * s + m * qs[j]) by (nonlinear_arith);
    } else {
        assert(m * 0 == 0) by (nonlinear_arith);
    }
}

/// The minima of all groups, taken from the sums that the activation block carries.
proof fn lemma_all_mins(block: Seq<u8>, ty: QuantType, act: BlockQ8K, n: int)
    requires
        ty == QuantType::Q4K || ty == QuantType::Q5K,
        act.valid(),
        0 <= n <= 8,
    ensures
        decoded_min(block, ty, act.qs@, 32 * n) == mins_sum(block, act.bsums@, n),
    decreases n,
{
    if n > 0 {
        let g = n - 1;
        lemma_all_mins(block, ty, act, g);
        lemma_group_min(block, ty, act.qs@, g, 32);
        lemma_code_sum_split(act.qs@, 32 * g, 32 * g + 16, 32 * g + 32);
        assert(act.bsums@[2 * g] == activation::code_sum(act.qs@, 16 * (2 * g), 16 * (2 * g) + 16));
        assert(act.bsums@[2 * g + 1] == activation::code_sum(
            act.qs@,
            16 * (2 * g + 1),
            16 * (2 * g + 1) + 16,
        ));
    }
}

/// The offset of one Q6_K group factors out of the group's activation codes.
proof fn lemma_group_offset(block: Seq<u8>, qs: Seq<i8>, g: int, k: int)
    requires
        0 <= g < 16,
        0 <= k <= 16,
    ensures
        decoded_dot(block, QuantType::Q6K, qs, 16 * g + k) - decoded_dot(
            block,
            QuantType::Q6K,
            qs,
            16 * g,
        ) == raw_dot(block, QuantType::Q6K, qs, 16 * g + k) - raw_dot(
            block,
            QuantType::Q6K,
            qs,
            16 * g,
        ) - 32 * (bytes::signed8(block[192 + g]) * activation::code_sum(qs, 16 * g, 16 * g + k)),
    decreases k,
{
    let scale = bytes::signed8(block[192 + g]);
    if k > 0 {
        lemma_group_offset(block, qs, g, k - 1);
        let j = 16 * g + k - 1;
        lemma_decoded_element(block, QuantType::Q6K, j);
        assert(j / 16 == g);
        let s = activation::code_sum(qs, 16 * g, 16 * g + k - 1);
        let raw = raw_term(block, QuantType::Q6K, j);
        assert(scale * (s + qs[j]) == scale * s + scale * qs[j]) by (nonlinear_arith);
        assert((raw - 32 * scale) * qs[j] == raw * qs[j] - 32 * (scale * qs[j]))
            by (nonlinear_arith);
    } else {
        assert(scale * 0 == 0) by (nonlinear_arith);
    }
}

/// The offsets of all Q6_K groups, taken from the sums that the activation block carries.
proof fn lemma_all_offsets(block: Seq<u8>, act: BlockQ8K, n: int)
    requires
        act.valid(),
        0 <= n <= 16,
    ensures
        decoded_dot(block, QuantType::Q6K, act.qs@, 16 * n) == raw_dot(
            block,
            QuantType::Q6K,
            act.qs@,
            16 * n,
        ) - 32 * scale_sum(block, act.bsums@, n),
    decreases n,
{
    if n > 0 {
        let g = n - 1;
        lemma_all_offsets(block, act, g);
        lemma_group_offset(block, act.qs@, g, 16);
        assert(act.bsums@[g] == activation::code_sum(act.qs@, 16 * g, 16 * g + 16));
    }
}

/// Formats without minima subtract none.
proof fn lemma_no_mins(block: Seq<u8>, ty: QuantType, qs: Seq<i8>, n: int)
    requires
        ty == QuantType::Q6K || has_q8_32_kernel(ty),
        0 <= n <= ty.block_len(),
    ensures
        decoded_min(block, ty, qs, n) == 0,
    decreases n,
{
    if n > 0 {
        lemma_no_mins(block, ty, qs, n - 1);
        lemma_decoded_element(block, ty, n - 1);
    }
}

/// The constant offset of the formats of 32 values factors out of the activation codes.
proof fn lemma_constant_offset(block: Seq<u8>, ty: QuantType, qs: Seq<i8>, n: int)
    requires
        has_q8_32_kernel(ty),
        0 <= n <= 32,
    ensures
        decoded_dot(block, ty, qs, n) == raw_dot(block, ty, qs, n) - code_offset(ty)
            * activation::code_sum(qs, 0, n),
    decreases n,
{
    let c = code_offset(ty);
    if n > 0 {
        lemma_constant_offset(block, ty, qs, n - 1);
        lemma_decoded_element(block, ty, n - 1);
        let s = activation::code_sum(qs, 0, n - 1);
        let raw = raw_term(block, ty, n - 1);
        let q = qs[n - 1] as int;
        assert(c * (s + q) == c * s + c * q) by (nonlinear_arith);
        assert((raw - c) * q == raw * q - c * q) by (nonlinear_arith);
    } else {
        assert(c * 0 == 0) by (nonlinear_arith);
    }
}

/// The kernels against super-blocks compute, in integers, the dot product of the decoded codes with
/// the activation codes: the minima and the offset of the codes factor out into the sums that the
/// activation block carries.
pub proof fn q8k_kernel_is_the_dot_of_decoded_codes(block: Seq<u8>, ty: QuantType, act: BlockQ8K)
    requires
        has_q8k_kernel(ty),
        act.valid(),
    ensures
        decoded_dot(block, ty, act.qs@, 256) == raw_dot(block, ty, act.qs@, 256) - (if ty
            == QuantType::Q6K {
            32 * scale_sum(block, act.bsums@, 16)
        } else {
            0
        }),
        decoded_min(block, ty, act.qs@, 256) == (if ty == QuantType::Q6K {
            0
        } else {
            mins_sum(block, act.bsums@, 8)
        }),
{
    if ty == QuantType::Q6K {
        lemma_all_offsets(block, act, 16);
        lemma_no_mins(block, ty, act.qs@, 256);
    } else {
        lemma_grouped_dot(block, ty, act.qs@, 256);
        lemma_all_mins(block, ty, act, 8);
    }
}

/// The kernels against blocks of 32 compute, in integers, the dot product of the decoded codes with
/// the activation codes: the constant offset of the codes factors out into the sum of the
/// activation codes.
pub proof fn q8_32_kernel_is_the_dot_of_decoded_codes(
    block: Seq<u8>,
    ty: QuantType,
    act: BlockQ8_32,
)
    requires
        has_q8_32_kernel(ty),
        act.valid(),
    ensures
        decoded_dot(block, ty, act.qs@, 32) == raw_dot(block, ty, act.qs@, 32) - code_offset(ty)
            * act.sum,
        decoded_min(block, ty, act.qs@, 32) == 0,
{
    lemma_constant_offset(block, ty, act.qs@, 32);
    lemma_no_mins(block, ty, act.qs@, 32);
}

/// The number of blocks that a row and its activations have in common.
pub open spec fn common_blocks(row: Seq<u8>, ty: QuantType, activations: int) -> int {
    let blocks = row.len() as int / ty.block_bytes();
    if blocks < activations {
        blocks
    } else {
        activations
    }
}

/// The shares of the blocks of a row in its product with super-blocks of activations.
pub open spec fn row_dots_q8k(row: Seq<u8>, ty: QuantType, activation: Seq<BlockQ8K>) -> Seq<
    BlockDot,
> {
    Seq::new(
        common_blocks(row, ty, activation.len() as int) as nat,
        |b: int| q8k_dot(quant::block_of(row, ty, b), ty, activation[b]),
    )
}

/// The shares of the blocks of a row in its product with blocks of 32 activations.
pub open spec fn row_dots_q8_32(row: Seq<u8>, ty: QuantType, activation: Seq<BlockQ8_32>) -> Seq<
    BlockDot,
> {
    Seq::new(
        common_blocks(row, ty, activation.len() as int) as nat,
        |b: int| q8_32_dot(quant::block_of(row, ty, b), ty, activation[b]),
    )
}

/// A block counted among the whole blocks of a row lies inside the row.
proof fn lemma_block_in_row(len: int, width: int, b: int)
    requires
        width > 0,
        0 <= b < len / width,
    ensures
        0 <= b * width,
        (b + 1) * width == b * width + width,
        (b + 1) * width <= len,
{
    assert((b + 1) * width <= (len / width) * width && (len / width) * width <= len && 0 <= b * width
        && (b + 1) * width == b * width + width) by (nonlinear_arith)
        requires
            width > 0,
            0 <= b < len / width,
    ;
}

/// Block `b` of a row.
fn block_slice(row: &[u8], ty: QuantType, b: usize) -> (block: &[u8])
    requires
        b < row@.len() as int / ty.block_bytes(),
    ensures
        block@ == quant::block_of(row@, ty, b as int),
        block@.len() == ty.block_bytes(),
{
    let width: usize = ty.type_size();
    let total: usize = row.len();
    proof {
        lemma_block_in_row(total as int, width as int, b as int);
    }
    let start: usize = b * width;
    &row[start..start + width]
}

/// Multiplies a row by super-blocks of activations; `None` where the format has no such kernel.
pub fn dot_q8k(row: &[u8], ty: QuantType, activation: &[BlockQ8K]) -> (r: Option<Vec<BlockDot>>)
    requires
        forall|b: int| 0 <= b < activation@.len() ==> (#[trigger] activation@[b]).valid(),
    ensures
        match r {
            Some(dots) => has_q8k_kernel(ty) && dots@ == row_dots_q8k(row@, ty, activation@),
            None => !has_q8k_kernel(ty),
        },
{
    match ty {
        QuantType::Q4K | QuantType::Q5K | QuantType::Q6K => {},
        _ => return None,
    }
    let blocks: usize = row.len() / ty.type_size();
    let n: usize = if blocks < activation.len() {
        blocks
    } else {
        activation.len()
    };
    let mut dots: Vec<BlockDot> = Vec::new();
    for b in 0..n
        invariant
            has_q8k_kernel(ty),
            n == common_blocks(row@, ty, activation@.len() as int),
            forall|k: int| 0 <= k < activation@.len() ==> (#[trigger] activation@[k]).valid(),
            dots@ == row_dots_q8k(row@, ty, activation@).take(b as int),
    {
        assert(activation@[b as int].valid());
        dots.push(dot_block_q8k(block_slice(row, ty, b), ty, &activation[b]));
        assert(dots@ =~= row_dots_q8k(row@, ty, activation@).take(b + 1));
    }
    assert(dots@ =~= row_dots_q8k(row@, ty, activation@));
    Some(dots)
}

/// Multiplies two rows at once by super-blocks of activations: each row gets what it would get
/// alone.
pub fn dot_2rows_q8k(row0: &[u8], row1: &[u8], ty: QuantType, activation: &[BlockQ8K]) -> (r: Option<
    (Vec<BlockDot>, Vec<BlockDot>),
>)
    requires
        forall|b: int| 0 <= b < activation@.len() ==> (#[trigger] activation@[b]).valid(),
        has_q8k_kernel(ty) ==> activation@.len() <= row0@.len() as int / ty.block_bytes(),
        has_q8k_kernel(ty) ==> activation@.len() <= row1@.len() as int / ty.block_bytes(),
    ensures
        match r {
            Some(dots) => has_q8k_kernel(ty) && dots.0@ == row_dots_q8k(row0@, ty, activation@)
                && dots.1@ == row_dots_q8k(row1@, ty, activation@),
            None => !has_q8k_kernel(ty),
        },
{
    match ty {
        QuantType::Q4K | QuantType::Q5K | QuantType::Q6K => {},
        _ => return None,
    }
    let n: usize = activation.len();
    let mut first: Vec<BlockDot> = Vec::new();
    let mut second: Vec<BlockDot> = Vec::new();
    for b in 0..n
        invariant
            has_q8k_kernel(ty),
            n == activation@.len(),
            n <= row0@.len() as int / ty.block_bytes(),
            n <= row1@.len() as int / ty.block_bytes(),
            forall|k: int| 0 <= k < activation@.len() ==> (#[trigger] activation@[k]).valid(),
            first@ == row_dots_q8k(row0@, ty, activation@).take(b as int),
            second@ == row_dots_q8k(row1@, ty, activation@).take(b as int),
    {
        assert(activation@[b as int].valid());
        let act = &activation[b];
        first.push(dot_block_q8k(block_slice(row0, ty, b), ty, act));
        second.push(dot_block_q8k(block_slice(row1, ty, b), ty, act));
        assert(first@ =~= row_dots_q8k(row0@, ty, activation@).take(b + 1));
        assert(second@ =~= row_dots_q8k(row1@, ty, activation@).take(b + 1));
    }
    assert(first@ =~= row_dots_q8k(row0@, ty, activation@));
    assert(second@ =~= row_dots_q8k(row1@, ty, activation@));
    Some((first, second))
}

/// Multiplies a row by blocks of 32 activations; `None` where the format has no such kernel.
pub fn dot_q8_32(row: &[u8], ty: QuantType, activation: &[BlockQ8_32]) -> (r: Option<Vec<BlockDot>>)
    requires
        forall|b: int| 0 <= b < activation@.len() ==> (#[trigger] activation@[b]).valid(),
    ensures
        match r {
            Some(dots) => has_q8_32_kernel(ty) && dots@ == row_dots_q8_32(row@, ty, activation@),
            None => !has_q8_32_kernel(ty),
        },
{
    match ty {
        QuantType::Q8_0 | QuantType::Q5_0 | QuantType::Q4_0 => {},
        _ => return None,
    }
    let blocks: usize = row.len() / ty.type_size();
    let n: usize = if blocks < activation.len() {
        blocks
    } else {
        activation.len()
    };
    let mut dots: Vec<BlockDot> = Vec::new();
    for b in 0..n
        invariant
            has_q8_32_kernel(ty),
            n == common_blocks(row@, ty, activation@.len() as int),
            forall|k: int| 0 <= k < activation@.len() ==> (#[trigger] activation@[k]).valid(),
            dots@ == row_dots_q8_32(row@, ty, activation@).take(b as int),
    {
        assert(activation@[b as int].valid());
        dots.push(dot_block_q8_32(block_slice(row, ty, b), ty, &activation[b]));
        assert(dots@ =~= row_dots_q8_32(row@, ty, activation@).take(b + 1));
    }
    assert(dots@ =~= row_dots_q8_32(row@, ty, activation@));
    Some(dots)
}

/// Multiplies two rows at once by blocks of 32 activations: each row gets what it would get alone.
pub fn dot_2rows_q8_32(row0: &[u8], row1: &[u8], ty: QuantType, activation: &[BlockQ8_32]) -> (r:
    Option<(Vec<BlockDot>, Vec<BlockDot>)>)
    requires
        forall|b: int| 0 <= b < activation@.len() ==> (#[trigger] activation@[b]).valid(),
        has_q8_32_kernel(ty) ==> activation@.len() <= row0@.len() as int / ty.block_bytes(),
        has_q8_32_kernel(ty) ==> activation@.len() <= row1@.len() as int / ty.block_bytes(),
    ensures
        match r {
            Some(dots) => has_q8_32_kernel(ty) && dots.0@ == row_dots_q8_32(row0@, ty, activation@)
                && dots.1@ == row_dots_q8_32(row1@, ty, activation@),
            None => !has_q8_32_kernel(ty),
        },
{
    match ty {
        QuantType::Q8_0 | QuantType::Q5_0 | QuantType::Q4_0 => {},
        _ => return None,
    }
    let n: usize = activation.len();
    let mut first: Vec<BlockDot> = Vec::new();
    let mut second: Vec<BlockDot> = Vec::new();
    for b in 0..n
        invariant
            has_q8_32_kernel(ty),
            n == activation@.len(),
            n <= row0@.len() as int / ty.block_bytes(),
            n <= row1@.len() as int / ty.block_bytes(),
            forall|k: int| 0 <= k < activation@.len() ==> (#[trigger] activation@[k]).valid(),
            first@ == row_dots_q8_32(row0@, ty, activation@).take(b as int),
            second@ == row_dots_q8_32(row1@, ty, activation@).take(b as int),
    {
        assert(activation@[b as int].valid());
        let act = &activation[b];
        first.push(dot_block_q8_32(block_slice(row0, ty, b), ty, act));
        second.push(dot_block_q8_32(block_slice(row1, ty, b), ty, act));
        assert(first@ =~= row_dots_q8_32(row0@, ty, activation@).take(b + 1));
        assert(second@ =~= row_dots_q8_32(row1@, ty, activation@).take(b + 1));
    }
    assert(first@ =~= row_dots_q8_32(row0@, ty, activation@));
    assert(second@ =~= row_dots_q8_32(row1@, ty, activation@));
    Some((first, second))
}

/// Every format whose activations get a layout has a kernel for that layout.
pub proof fn layout_has_a_kernel(ty: QuantType)
    ensures
        activation::layout_of(ty) == activation::ActivationLayout::Q8K ==> has_q8k_kernel(ty),
        activation::layout_of(ty) == activation::ActivationLayout::Q8_32 ==> has_q8_32_kernel(ty),
{
}

/// A kernel takes the factors of the weights from where the elements have theirs, and the factor of
/// the activations from its block.
pub proof fn kernels_take_the_factors_of_the_elements(
    block: Seq<u8>,
    ty: QuantType,
    wide: BlockQ8K,
    narrow: BlockQ8_32,
    j: int,
)
    requires
        0 <= j < ty.block_len(),
    ensures
        ty == QuantType::Q4K || ty == QuantType::Q5K ==> match (
            quant::block_code(block, ty, j),
            q8k_dot(block, ty, wide),
        ) {
            (
                ElementCode::Grouped { d, dmin, .. },
                BlockDot::Minimum { d: e, dmin: f, act, .. },
            ) => d == e && dmin == f && act == wide.d,
            _ => false,
        },
        ty == QuantType::Q6K ==> match (quant::block_code(block, ty, j), q8k_dot(block, ty, wide)) {
            (ElementCode::GroupScaled { d, .. }, BlockDot::Offset { d: e, act, .. }) => d == e && act
                == wide.d,
            _ => false,
        },
        ty == QuantType::Q4_0 || ty == QuantType::Q5_0 || ty == QuantType::Q8_0 ==> match (
            quant::block_code(block, ty, j),
            q8_32_dot(block, ty, narrow),
        ) {
            (ElementCode::Scaled { d, .. }, BlockDot::Offset { d: e, act, .. }) => d == e && act
                == narrow.d,
            _ => false,
        },
{
}

/// The formats that have a kernel against each of the two activation layouts.
pub proof fn these_formats_have_kernels(ty: QuantType)
    ensures
        has_q8k_kernel(ty) <==> ty == QuantType::Q4K || ty == QuantType::Q5K || ty == QuantType::Q6K,
        has_q8_32_kernel(ty) <==> ty == QuantType::Q4_0 || ty == QuantType::Q5_0 || ty
            == QuantType::Q8_0,
{
}

/// The minima weighted by the activation sums stay far inside 32 bits.
proof fn lemma_mins_bound(block: Seq<u8>, act: BlockQ8K, n: int)
    requires
        act.valid(),
        0 <= n <= 8,
    ensures
        -258048 * n <= mins_sum(block, act.bsums@, n) <= 258048 * n,
    decreases n,
{
    if n > 0 {
        let g = n - 1;
        lemma_mins_bound(block, act, g);
        activation::lemma_code_sum_bound(act.qs@, 16 * (2 * g), 16 * (2 * g) + 16);
        activation::lemma_code_sum_bound(act.qs@, 16 * (2 * g + 1), 16 * (2 * g + 1) + 16);
        assert(act.bsums@[2 * g] == activation::code_sum(
            act.qs@,
            16 * (2 * g),
            16 * (2 * g) + 16,
        ));
        assert(act.bsums@[2 * g + 1] == activation::code_sum(
            act.qs@,
            16 * (2 * g + 1),
            16 * (2 * g + 1) + 16,
        ));
        lemma_product_bound(
            quant::k4_min(block, 4, g),
            act.bsums@[2 * g] + act.bsums@[2 * g + 1],
            63,
            4096,
        );
    }
}

/// The group scales weighted by the activation sums stay far inside 32 bits.
proof fn lemma_scales_bound(block: Seq<u8>, act: BlockQ8K, n: int)
    requires
        act.valid(),
        0 <= n <= 16,
    ensures
        -262144 * n <= scale_sum(block, act.bsums@, n) <= 262144 * n,
    decreases n,
{
    if n > 0 {
        let g = n - 1;
        lemma_scales_bound(block, act, g);
        activation::lemma_code_sum_bound(act.qs@, 16 * g, 16 * g + 16);
        lemma_product_bound(
            bytes::signed8(block[192 + g]),
            act.bsums@[g] as int,
            128,
            2048,
        );
    }
}

/// What a kernel gives for two blocks of activations that differ in one code differs by that code's
/// difference times what the weight in its place decodes to.
proof fn lemma_one_code(block: Seq<u8>, ty: QuantType, a: Seq<i8>, b: Seq<i8>, k: int, n: int)
    requires
        0 <= k,
        0 <= n,
        forall|j: int| 0 <= j < n && j != k ==> #[trigger] a[j] == b[j],
    ensures
        decoded_dot(block, ty, b, n) - decoded_dot(block, ty, a, n) == (if k < n {
            (b[k] - a[k]) * code_product(quant::block_code(block, ty, k))
        } else {
            0
        }),
        decoded_min(block, ty, b, n) - decoded_min(block, ty, a, n) == (if k < n {
            (b[k] - a[k]) * code_min(quant::block_code(block, ty, k))
        } else {
            0
        }),
    decreases n,
{
    if n > 0 {
        lemma_one_code(block, ty, a, b, k, n - 1);
        let p = code_product(quant::block_code(block, ty, n - 1));
        let m = code_min(quant::block_code(block, ty, n - 1));
        let x = a[n - 1] as int;
        let y = b[n - 1] as int;
        if k == n - 1 {
            assert(p * y - p * x == (y - x) * p && m * y - m * x == (y - x) * m)
                by (nonlinear_arith);
        } else {
            assert(x == y);
        }
    }
}

/// Zeros add nothing.
proof fn lemma_zero_codes(block: Seq<u8>, ty: QuantType, qs: Seq<i8>, n: int)
    requires
        forall|j: int| 0 <= j < n ==> #[trigger] qs[j] == 0,
    ensures
        decoded_dot(block, ty, qs, n) == 0,
        decoded_min(block, ty, qs, n) == 0,
    decreases n,
{
    if n > 0 {
        lemma_zero_codes(block, ty, qs, n - 1);
        let p = code_product(quant::block_code(block, ty, n - 1));
        let m = code_min(quant::block_code(block, ty, n - 1));
        assert(p * 0 == 0 && m * 0 == 0) by (nonlinear_arith);
    }
}

/// The kernels against super-blocks are sums over the elements. Zero activations give zero. Changing
/// the activation code of one element changes the weighted sum by the difference times the element's
/// group scale times its decoded code, and the sum of the minima by the difference times the
/// element's minimum.
pub proof fn super_block_kernels_weigh_each_code_by_its_element(
    block: Seq<u8>,
    ty: QuantType,
    act: BlockQ8K,
    other: BlockQ8K,
    k: int,
)
    requires
        ty == QuantType::Q4K || ty == QuantType::Q5K || ty == QuantType::Q6K,
        act.valid(),
        other.valid(),
        0 <= k < 256,
        forall|j: int| 0 <= j < 256 && j != k ==> #[trigger] act.qs@[j] == other.qs@[j],
    ensures
        ({
            let codes = |dot: BlockDot|
                match dot {
                    BlockDot::Minimum { dot, .. } => dot as int,
                    BlockDot::Offset { dot, offset, sum, .. } => dot - offset * sum,
                };
            let minima = |dot: BlockDot|
                match dot {
                    BlockDot::Minimum { mins, .. } => mins as int,
                    BlockDot::Offset { .. } => 0int,
                };
            let a = q8k_dot(block, ty, act);
            let b = q8k_dot(block, ty, other);
            let step = other.qs@[k] - act.qs@[k];
            &&& match quant::block_code(block, ty, k) {
                ElementCode::Grouped { scale, min, code, .. } => codes(b) - codes(a) == step * (scale
                    * code) && minima(b) - minima(a) == step * min,
                ElementCode::GroupScaled { scale, code, .. } => codes(b) - codes(a) == step * (scale
                    * code) && minima(b) - minima(a) == 0,
                _ => false,
            }
            &&& (forall|j: int| 0 <= j < 256 ==> #[trigger] act.qs@[j] == 0) ==> codes(a) == 0
                && minima(a) == 0
        }),
{
    lemma_kernel_parts(block, ty, act);
    lemma_kernel_parts(block, ty, other);
    lemma_one_code(block, ty, act.qs@, other.qs@, k, 256);
    if forall|j: int| 0 <= j < 256 ==> #[trigger] act.qs@[j] == 0 {
        lemma_zero_codes(block, ty, act.qs@, 256);
    }
    assert((other.qs@[k] - act.qs@[k]) * 0 == 0) by (nonlinear_arith);
}

/// What a kernel against a super-block gives is the dot product of the decoded codes.
proof fn lemma_kernel_parts(block: Seq<u8>, ty: QuantType, act: BlockQ8K)
    requires
        has_q8k_kernel(ty),
        act.valid(),
    ensures
        q8k_dot(block, ty, act).code_part() == decoded_dot(block, ty, act.qs@, 256),
        q8k_dot(block, ty, act).min_part() == decoded_min(block, ty, act.qs@, 256),
{
    q8k_kernel_is_the_dot_of_decoded_codes(block, ty, act);
    lemma_dot_bound(block, ty, act.qs@, 256);
    lemma_mins_bound(block, act, 8);
    lemma_scales_bound(block, act, 16);
}

/// The kernels against blocks of 32 are sums over the elements. Zero activations give zero, and
/// changing the activation code of one element changes the sum by the difference times the element's
/// decoded code.
pub proof fn narrow_kernels_weigh_each_code_by_its_element(
    block: Seq<u8>,
    ty: QuantType,
    act: BlockQ8_32,
    other: BlockQ8_32,
    k: int,
)
    requires
        ty == QuantType::Q4_0 || ty == QuantType::Q5_0 || ty == QuantType::Q8_0,
        act.valid(),
        other.valid(),
        0 <= k < 32,
        forall|j: int| 0 <= j < 32 && j != k ==> #[trigger] act.qs@[j] == other.qs@[j],
    ensures
        ({
            let codes = |dot: BlockDot|
                match dot {
                    BlockDot::Minimum { dot, .. } => dot as int,
                    BlockDot::Offset { dot, offset, sum, .. } => dot - offset * sum,
                };
            let a = q8_32_dot(block, ty, act);
            let b = q8_32_dot(block, ty, other);
            let step = other.qs@[k] - act.qs@[k];
            &&& match quant::block_code(block, ty, k) {
                ElementCode::Scaled { code, .. } => codes(b) - codes(a) == step * code,
                _ => false,
            }
            &&& (forall|j: int| 0 <= j < 32 ==> #[trigger] act.qs@[j] == 0) ==> codes(a) == 0
        }),
{
    q8_32_kernel_is_the_dot_of_decoded_codes(block, ty, act);
    q8_32_kernel_is_the_dot_of_decoded_codes(block, ty, other);
    lemma_dot_bound(block, ty, act.qs@, 32);
    lemma_dot_bound(block, ty, other.qs@, 32);
    lemma_one_code(block, ty, act.qs@, other.qs@, k, 32);
    if forall|j: int| 0 <= j < 32 ==> #[trigger] act.qs@[j] == 0 {
        lemma_zero_codes(block, ty, act.qs@, 32);
    }
}

/// A row is multiplied block by block: as many blocks as the row and the activations both have, each
/// with the activations in its place.
pub proof fn rows_are_multiplied_block_by_block(
    row: Seq<u8>,
    ty: QuantType,
    wide: Seq<BlockQ8K>,
    narrow: Seq<BlockQ8_32>,
    b: int,
)
    ensures
        row_dots_q8k(row, ty, wide).len() == (if row.len() as int / ty.block_bytes() < wide.len() {
            row.len() as int / ty.block_bytes()
        } else {
            wide.len() as int
        }),
        0 <= b < row_dots_q8k(row, ty, wide).len() ==> row_dots_q8k(row, ty, wide)[b] == q8k_dot(
            row.subrange(b * ty.block_bytes(), b * ty.block_bytes() + ty.block_bytes()),
            ty,
            wide[b],
        ),
        row_dots_q8_32(row, ty, narrow).len() == (if row.len() as int / ty.block_bytes()
            < narrow.len() {
            row.len() as int / ty.block_bytes()
        } else {
            narrow.len() as int
        }),
        0 <= b < row_dots_q8_32(row, ty, narrow).len() ==> row_dots_q8_32(row, ty, narrow)[b]
            == q8_32_dot(
            row.subrange(b * ty.block_bytes(), b * ty.block_bytes() + ty.block_bytes()),
            ty,
            narrow[b],
        ),
{
    let n = ty.block_bytes();
    assert((b + 1) * n == b * n + n) by (nonlinear_arith);
    assert(row.len() as int / n >= 0);
}

} // verus!
