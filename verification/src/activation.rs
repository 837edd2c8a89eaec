//! Activations quantized to eight bits for the integer kernels.
//!
//! An activation vector is quantized once per matrix product, so that the kernels multiply integer
//! codes by integer codes. Weight storage is untouched by this.

use crate::float::Single;
use crate::quant::QuantType;
use vstd::prelude::*;

verus! {

/// Length of a super-block, shared by the K formats and by [`BlockQ8K`].
pub const QK_K: usize = crate::quant::QK_K;

/// The sum of the codes `from .. to`.
pub open spec fn code_sum(qs: Seq<i8>, from: int, to: int) -> int
    decreases to - from,
{
    if to <= from {
        0
    } else {
        code_sum(qs, from, to - 1) + qs[to - 1]
    }
}

/// One super-block of activations: value `i` is about `d * qs[i]`.
///
/// `bsums` holds the sums of sixteen codes each. K formats subtract a minimum per group from every
/// code, and the sums keep that term out of the row loop.
#[derive(Clone, Copy, Debug)]
pub struct BlockQ8K {
    pub d: Single,
    pub qs: [i8; 256],
    pub bsums: [i16; 16],
}

impl BlockQ8K {
    /// The codes are symmetric about zero and the sums are theirs.
    pub open spec fn valid(&self) -> bool {
        &&& forall|i: int| 0 <= i < 256 ==> -127 <= #[trigger] self.qs@[i]
        &&& forall|g: int|
            0 <= g < 16 ==> #[trigger] self.bsums@[g] == code_sum(self.qs@, 16 * g, 16 * g + 16)
    }
}

impl Default for BlockQ8K {
    /// The block of zeros.
    fn default() -> (block: BlockQ8K)
        ensures
            block.d.bits == 0,
            forall|i: int| 0 <= i < 256 ==> #[trigger] block.qs@[i] == 0,
            forall|g: int| 0 <= g < 16 ==> #[trigger] block.bsums@[g] == 0,
    {
        BlockQ8K { d: Single { bits: 0 }, qs: [0i8; 256], bsums: [0i16; 16] }
    }
}

/// One block of 32 activations: value `i` is about `d * qs[i]`, and `sum` is the sum of the codes.
///
/// Q4_0 and Q5_0 subtract a constant from every code, which factors out into one product with the
/// sum per block.
#[allow(non_camel_case_types)]
#[derive(Clone, Copy, Debug)]
pub struct BlockQ8_32 {
    pub d: Single,
    pub qs: [i8; 32],
    pub sum: i32,
}

impl BlockQ8_32 {
    /// The codes are symmetric about zero and the sum is theirs.
    pub open spec fn valid(&self) -> bool {
        &&& forall|i: int| 0 <= i < 32 ==> -127 <= #[trigger] self.qs@[i]
        &&& self.sum == code_sum(self.qs@, 0, 32)
    }
}

impl Default for BlockQ8_32 {
    /// The block of zeros.
    fn default() -> (block: BlockQ8_32)
        ensures
            block.d.bits == 0,
            forall|i: int| 0 <= i < 32 ==> #[trigger] block.qs@[i] == 0,
            block.sum == 0,
    {
        BlockQ8_32 { d: Single { bits: 0 }, qs: [0i8; 32], sum: 0 }
    }
}

/// A sum of eight-bit codes is no larger than their number allows.
pub proof fn lemma_code_sum_bound(qs: Seq<i8>, from: int, to: int)
    requires
        from <= to,
    ensures
        -128 * (to - from) <= code_sum(qs, from, to) <= 127 * (to - from),
    decreases to - from,
{
    if from < to {
        lemma_code_sum_bound(qs, from, to - 1);
    }
}

/// Sums the codes `from .. to`.
fn sum_codes(qs: &[i8], from: usize, to: usize) -> (total: i32)
    requires
        from <= to <= qs@.len(),
        to <= 256,
    ensures
        total == code_sum(qs@, from as int, to as int),
{
    let mut total: i32 = 0;
    for i in from..to
        invariant
            to <= qs@.len(),
            to <= 256,
            total == code_sum(qs@, from as int, i as int),
    {
        proof {
            lemma_code_sum_bound(qs@, from as int, i as int);
        }
        total = total + qs[i] as i32;
    }
    total
}

/// `rounded` scales and rounds the values of one block to codes that are symmetric about zero.
pub open spec fn rounding<T, const N: usize, F: Fn(&[T]) -> (Single, [i8; N])>(rounded: F) -> bool {
    &&& forall|values: &[T]| values@.len() == N ==> #[trigger] call_requires(rounded, (values,))
    &&& forall|values: &[T], r: (Single, [i8; N]), i: int| #[trigger]
        call_ensures(rounded, (values,), r) && 0 <= i < N ==> -127 <= #[trigger] r.1@[i]
}

/// The scale and the codes are what `rounded` made of the values.
pub open spec fn rounded_to<T, const N: usize, F: Fn(&[T]) -> (Single, [i8; N])>(
    rounded: F,
    values: Seq<T>,
    d: Single,
    qs: [i8; N],
) -> bool {
    exists|chunk: &[T]| chunk@ == values && #[trigger] call_ensures(rounded, (chunk,), (d, qs))
}

/// `blocks` are the super-blocks that `rounded` makes of an input, as many as the input fills.
pub open spec fn rounded_q8k<T, F: Fn(&[T]) -> (Single, [i8; 256])>(
    rounded: F,
    input: Seq<T>,
    blocks: Seq<BlockQ8K>,
) -> bool {
    &&& blocks.len() == input.len() / 256
    &&& forall|b: int|
        0 <= b < blocks.len() ==> (#[trigger] blocks[b]).valid() && rounded_to(
            rounded,
            input.subrange(256 * b, 256 * b + 256),
            blocks[b].d,
            blocks[b].qs,
        )
}

/// Quantizes `input` into super-blocks. What `out` held before is dropped; a trailing part that
/// fills no block is left out.
pub fn quantize_activation_q8k<T, F: Fn(&[T]) -> (Single, [i8; 256])>(
    input: &[T],
    out: &mut Vec<BlockQ8K>,
    rounded: &F,
)
    requires
        rounding::<T, 256, F>(*rounded),
    ensures
        rounded_q8k(*rounded, input@, final(out)@),
{
    out.clear();
    let total: usize = input.len();
    let n: usize = total / 256;
    for b in 0..n
        invariant
            total == input@.len(),
            n == total / 256,
            rounding::<T, 256, F>(*rounded),
            out@.len() == b,
            forall|k: int|
                0 <= k < b ==> (#[trigger] out@[k]).valid() && rounded_to(
                    *rounded,
                    input@.subrange(256 * k, 256 * k + 256),
                    out@[k].d,
                    out@[k].qs,
                ),
    {
        let start: usize = 256 * b;
        let chunk = &input[start..start + 256];
        let (d, qs) = rounded(chunk);
        let mut bsums: [i16; 16] = [0i16; 16];
        for g in 0usize..16
            invariant
                forall|k: int|
                    0 <= k < g ==> #[trigger] bsums@[k] == code_sum(qs@, 16 * k, 16 * k + 16),
        {
            proof {
                lemma_code_sum_bound(qs@, 16 * g, 16 * g + 16);
            }
            bsums[g] = sum_codes(&qs, 16 * g, 16 * g + 16) as i16;
        }
        assert(rounded_to(*rounded, input@.subrange(256 * b, 256 * b + 256), d, qs));
        out.push(BlockQ8K { d, qs, bsums });
    }
}

/// `blocks` are the blocks of 32 that `rounded` makes of an input, as many as the input fills.
pub open spec fn rounded_q8_32<T, F: Fn(&[T]) -> (Single, [i8; 32])>(
    rounded: F,
    input: Seq<T>,
    blocks: Seq<BlockQ8_32>,
) -> bool {
    &&& blocks.len() == input.len() / 32
    &&& forall|b: int|
        0 <= b < blocks.len() ==> (#[trigger] blocks[b]).valid() && rounded_to(
            rounded,
            input.subrange(32 * b, 32 * b + 32),
            blocks[b].d,
            blocks[b].qs,
        )
}

/// Quantizes `input` into blocks of 32. What `out` held before is dropped; a trailing part that
/// fills no block is left out.
pub fn quantize_activation_q8_32<T, F: Fn(&[T]) -> (Single, [i8; 32])>(
    input: &[T],
    out: &mut Vec<BlockQ8_32>,
    rounded: &F,
)
    requires
        rounding::<T, 32, F>(*rounded),
    ensures
        rounded_q8_32(*rounded, input@, final(out)@),
{
    out.clear();
    let total: usize = input.len();
    let n: usize = total / 32;
    for b in 0..n
        invariant
            total == input@.len(),
            n == total / 32,
            rounding::<T, 32, F>(*rounded),
            out@.len() == b,
            forall|k: int|
                0 <= k < b ==> (#[trigger] out@[k]).valid() && rounded_to(
                    *rounded,
                    input@.subrange(32 * k, 32 * k + 32),
                    out@[k].d,
                    out@[k].qs,
                ),
    {
        let start: usize = 32 * b;
        let chunk = &input[start..start + 32];
        let (d, qs) = rounded(chunk);
        let sum: i32 = sum_codes(&qs, 0, 32);
        assert(rounded_to(*rounded, input@.subrange(32 * b, 32 * b + 32), d, qs));
        out.push(BlockQ8_32 { d, qs, sum });
    }
}

/// The activation layout that the integer kernel of a weight format expects.
#[allow(non_camel_case_types)]
#[derive(Clone, Copy, Debug, PartialEq, Eq, Structural)]
pub enum ActivationLayout {
    /// No integer kernel: the activations stay as they are.
    Plain,
    /// Super-blocks of 256 values, for the K formats.
    Q8K,
    /// Blocks of 32 values.
    Q8_32,
}

/// The layout for each weight format: Q4_K, and the formats of 32 values without a per-block
/// offset, have an integer kernel in use.
pub open spec fn layout_of(ty: QuantType) -> ActivationLayout {
    match ty {
        QuantType::Q4K => ActivationLayout::Q8K,
        QuantType::Q4_0 | QuantType::Q5_0 | QuantType::Q8_0 => ActivationLayout::Q8_32,
        _ => ActivationLayout::Plain,
    }
}

/// Decides whether a weight format has an integer kernel, and which layout it takes.
pub fn activation_layout(ty: QuantType) -> (layout: ActivationLayout)
    ensures
        layout == layout_of(ty),
{
    match ty {
        QuantType::Q4K => ActivationLayout::Q8K,
        QuantType::Q4_0 | QuantType::Q5_0 | QuantType::Q8_0 => ActivationLayout::Q8_32,
        _ => ActivationLayout::Plain,
    }
}

/// The sums that a block of activations carries are those of its codes: a super-block has one for
/// each sixteen codes, a block of 32 has one for all.
pub proof fn blocks_carry_the_sums_of_their_codes(wide: BlockQ8K, narrow: BlockQ8_32, g: int)
    requires
        wide.valid(),
        narrow.valid(),
        0 <= g < 16,
    ensures
        wide.bsums@[g] == wide.qs@.subrange(16 * g, 16 * g + 16).fold_left(
            0int,
            |sum: int, q: i8| sum + q,
        ),
        narrow.sum == narrow.qs@.fold_left(0int, |sum: int, q: i8| sum + q),
        forall|i: int| 0 <= i < 256 ==> -127 <= #[trigger] wide.qs@[i] <= 127,
        forall|i: int| 0 <= i < 32 ==> -127 <= #[trigger] narrow.qs@[i] <= 127,
{
    lemma_sum_folds(wide.qs@, 16 * g, 16 * g + 16);
    lemma_sum_folds(narrow.qs@, 0, 32);
    assert(narrow.qs@.subrange(0, 32) =~= narrow.qs@);
}

/// A sum of codes is a left fold.
proof fn lemma_sum_folds(qs: Seq<i8>, from: int, to: int)
    requires
        0 <= from <= to <= qs.len(),
    ensures
        code_sum(qs, from, to) == qs.subrange(from, to).fold_left(0int, |sum: int, q: i8| sum + q),
    decreases to - from,
{
    if from < to {
        lemma_sum_folds(qs, from, to - 1);
        assert(qs.subrange(from, to).drop_last() =~= qs.subrange(from, to - 1));
        assert(qs.subrange(from, to).last() == qs[to - 1]);
    }
}

/// Activations are rounded in blocks from the start of the input on: block `b` has the scale and the
/// codes that rounding gave for the values of its stretch, and a rest that fills no block is left
/// out.
pub proof fn activations_are_rounded_in_stretches<
    T,
    F: Fn(&[T]) -> (Single, [i8; 256]),
    G: Fn(&[T]) -> (Single, [i8; 32]),
>(
    wide: F,
    narrow: G,
    input: Seq<T>,
    super_blocks: Seq<BlockQ8K>,
    blocks: Seq<BlockQ8_32>,
    b: int,
)
    requires
        rounded_q8k(wide, input, super_blocks),
        rounded_q8_32(narrow, input, blocks),
    ensures
        256 * super_blocks.len() <= input.len() < 256 * super_blocks.len() + 256,
        32 * blocks.len() <= input.len() < 32 * blocks.len() + 32,
        0 <= b < super_blocks.len() ==> exists|chunk: &[T]|
            chunk@ == input.subrange(256 * b, 256 * b + 256) && #[trigger] call_ensures(
                wide,
                (chunk,),
                (super_blocks[b].d, super_blocks[b].qs),
            ),
        0 <= b < blocks.len() ==> exists|chunk: &[T]|
            chunk@ == input.subrange(32 * b, 32 * b + 32) && #[trigger] call_ensures(
                narrow,
                (chunk,),
                (blocks[b].d, blocks[b].qs),
            ),
{
    if 0 <= b < super_blocks.len() {
        assert(super_blocks[b].valid());
    }
    if 0 <= b < blocks.len() {
        assert(blocks[b].valid());
    }
}

/// Which formats multiply integer activations, and in which layout.
pub proof fn formats_have_these_layouts(ty: QuantType)
    ensures
        layout_of(ty) == ActivationLayout::Q8K <==> ty == QuantType::Q4K,
        layout_of(ty) == ActivationLayout::Q8_32 <==> ty == QuantType::Q4_0 || ty == QuantType::Q5_0
            || ty == QuantType::Q8_0,
{
}

} // verus!
