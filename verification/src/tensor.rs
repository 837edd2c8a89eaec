//! Linear quantization of a whole tensor to eight bits.

use vstd::prelude::*;

verus! {

/// The formats of linear quantization.
#[derive(Clone, Copy, Debug, PartialEq, Eq, Structural)]
pub enum QuantType {
    Int8,
    Int4,
}

/// A linearly quantized tensor: codes with their scales and zero points.
#[derive(Debug)]
pub struct QuantTensor<S> {
    pub data: Vec<u8>,
    pub scales: Vec<S>,
    pub zero_points: Option<Vec<S>>,
    pub shape: Vec<usize>,
    pub quant_type: QuantType,
}

impl<S> QuantTensor<S> {
    /// A tensor of its parts.
    pub fn new(
        data: Vec<u8>,
        scales: Vec<S>,
        zero_points: Option<Vec<S>>,
        shape: Vec<usize>,
        quant_type: QuantType,
    ) -> (tensor: QuantTensor<S>)
        ensures
            tensor == (QuantTensor { data, scales, zero_points, shape, quant_type }),
    {
        QuantTensor { data, scales, zero_points, shape, quant_type }
    }
}

/// The range of some values: the smallest one, the width of one code, and the code of zero.
#[derive(Clone, Copy, Debug)]
pub struct Range<S> {
    pub min: S,
    pub scale: S,
    pub zero: S,
}

/// Quantizes values to eight bits over their whole range. `fit` finds the range, and `code` the code
/// of a value in it.
pub fn quantize_fp16_to_int8<H: Copy, S: Copy, F: Fn(&[H]) -> Range<S>, G: Fn(H, Range<S>) -> u8>(
    src: &[H],
    fit: &F,
    code: &G,
) -> (tensor: QuantTensor<S>)
    requires
        src@.len() > 0 ==> call_requires(*fit, (src,)),
        forall|value: H, range: Range<S>| call_requires(*code, (value, range)),
    ensures
        tensor.quant_type == QuantType::Int8,
        src@.len() == 0 ==> {
            &&& tensor.data@ == Seq::<u8>::empty()
            &&& tensor.scales@ == Seq::<S>::empty()
            &&& tensor.zero_points is None
            &&& tensor.shape@ == Seq::<usize>::empty()
        },
        src@.len() > 0 ==> exists|range: Range<S>| #[trigger]
            call_ensures(*fit, (src,), range) && {
                &&& tensor.scales@ == seq![range.scale]
                &&& tensor.zero_points is Some
                &&& tensor.zero_points->0@ == seq![range.zero]
                &&& tensor.shape@ == seq![src@.len() as usize]
                &&& tensor.data@.len() == src@.len()
                &&& forall|i: int|
                    0 <= i < src@.len() ==> call_ensures(
                        *code,
                        (src@[i], range),
                        #[trigger] tensor.data@[i],
                    )
            },
{
    let n: usize = src.len();
    if n == 0 {
        return QuantTensor::new(Vec::new(), Vec::new(), None, Vec::new(), QuantType::Int8);
    }
    let range = fit(src);
    let mut data: Vec<u8> = Vec::new();
    for i in 0..n
        invariant
            n == src@.len(),
            forall|value: H, range: Range<S>| call_requires(*code, (value, range)),
            data@.len() == i,
            forall|k: int|
                0 <= k < i ==> call_ensures(*code, (src@[k], range), #[trigger] data@[k]),
    {
        data.push(code(src[i], range));
    }
    let scales = vec![range.scale];
    let zeros = vec![range.zero];
    let shape = vec![n];
    assert(scales@ =~= seq![range.scale]);
    assert(zeros@ =~= seq![range.zero]);
    assert(shape@ =~= seq![n]);
    QuantTensor::new(data, scales, Some(zeros), shape, QuantType::Int8)
}

} // verus!
