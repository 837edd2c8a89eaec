//! Matrix products: an input that is prepared once, and rows that are divided among threads.

use crate::activation;
use crate::activation::{ActivationLayout, BlockQ8K, BlockQ8_32};
use crate::backend;
use crate::backend::KernelKind;
use crate::float::Single;
use crate::quant;
use crate::quant::{ElementCode, QuantError, QuantTensor, QuantType};
use crate::simd;
use crate::simd::BlockDot;
use vstd::prelude::*;

verus! {

/// The input of a product in the layout that the kernel takes.
#[allow(non_camel_case_types)]
#[derive(Debug)]
pub enum Activation {
    /// The input as it is.
    Plain,
    /// Super-blocks of 256 values.
    Q8K { wide: Vec<BlockQ8K> },
    /// Blocks of 32 values.
    Q8_32 { narrow: Vec<BlockQ8_32> },
}

impl Activation {
    /// The blocks carry the sums of their codes.
    pub open spec fn valid(self) -> bool {
        match self {
            Activation::Plain => true,
            Activation::Q8K { wide: blocks } => forall|b: int|
                0 <= b < blocks@.len() ==> (#[trigger] blocks@[b]).valid(),
            Activation::Q8_32 { narrow: blocks } => forall|b: int|
                0 <= b < blocks@.len() ==> (#[trigger] blocks@[b]).valid(),
        }
    }
}

/// `activation` is the input in the given layout.
pub open spec fn prepared<
    T,
    F: Fn(&[T]) -> (Single, [i8; 256]),
    G: Fn(&[T]) -> (Single, [i8; 32]),
>(activation: Activation, layout: ActivationLayout, input: Seq<T>, wide: F, narrow: G) -> bool {
    match activation {
        Activation::Plain => layout == ActivationLayout::Plain,
        Activation::Q8K { wide: blocks } => layout == ActivationLayout::Q8K && activation::rounded_q8k(
            wide,
            input,
            blocks@,
        ),
        Activation::Q8_32 { narrow: blocks } => layout == ActivationLayout::Q8_32
            && activation::rounded_q8_32(narrow, input, blocks@),
    }
}

/// Brings an input into a layout: `wide` rounds super-blocks and `narrow` blocks of 32.
pub fn prepare<T, F: Fn(&[T]) -> (Single, [i8; 256]), G: Fn(&[T]) -> (Single, [i8; 32])>(
    layout: ActivationLayout,
    input: &[T],
    wide: &F,
    narrow: &G,
) -> (activation: Activation)
    requires
        activation::rounding::<T, 256, F>(*wide),
        activation::rounding::<T, 32, G>(*narrow),
    ensures
        prepared(activation, layout, input@, *wide, *narrow),
        activation.valid(),
{
    match layout {
        ActivationLayout::Plain => Activation::Plain,
        ActivationLayout::Q8K => {
            let mut blocks: Vec<BlockQ8K> = Vec::new();
            activation::quantize_activation_q8k(input, &mut blocks, wide);
            Activation::Q8K { wide: blocks }
        },
        ActivationLayout::Q8_32 => {
            let mut blocks: Vec<BlockQ8_32> = Vec::new();
            activation::quantize_activation_q8_32(input, &mut blocks, narrow);
            Activation::Q8_32 { narrow: blocks }
        },
    }
}

/// `trace` runs through the shares of blocks from its first value on, one call of `block` at a
/// time.
pub open spec fn adds_up<T, S: Fn(T, BlockDot) -> T>(
    block: S,
    dots: Seq<BlockDot>,
    trace: Seq<T>,
) -> bool {
    &&& trace.len() == dots.len() + 1
    &&& forall|k: int|
        0 <= k < dots.len() ==> call_ensures(block, (trace[k], #[trigger] dots[k]), trace[k + 1])
}

/// `total` is what adding the shares of blocks up from `zero` on gives.
pub open spec fn sum_of<T, S: Fn(T, BlockDot) -> T>(
    block: S,
    dots: Seq<BlockDot>,
    zero: T,
    total: T,
) -> bool {
    exists|trace: Seq<T>| #[trigger]
        adds_up(block, dots, trace) && trace.first() == zero && trace.last() == total
}

/// Adds the shares of blocks up.
pub fn add_up<T: Copy, S: Fn(T, BlockDot) -> T>(dots: &[BlockDot], zero: T, block: &S) -> (total: T)
    requires
        forall|t: T, dot: BlockDot| call_requires(*block, (t, dot)),
    ensures
        sum_of(*block, dots@, zero, total),
{
    let n: usize = dots.len();
    let mut total = zero;
    let ghost mut trace = seq![zero];
    for k in 0..n
        invariant
            n == dots@.len(),
            forall|t: T, dot: BlockDot| call_requires(*block, (t, dot)),
            adds_up(*block, dots@.take(k as int), trace),
            trace.first() == zero,
            trace.last() == total,
    {
        let before = total;
        total = block(before, dots[k]);
        proof {
            let longer = trace.push(total);
            assert forall|i: int| 0 <= i < k + 1 implies call_ensures(
                *block,
                (longer[i], #[trigger] dots@.take(k + 1)[i]),
                longer[i + 1],
            ) by {
                if i < k {
                    assert(dots@.take(k + 1)[i] == dots@.take(k as int)[i]);
                }
            }
            trace = longer;
        }
    }
    assert(dots@.take(n as int) =~= dots@);
    total
}

/// `total` is the product of a row with an input: over integer codes where the input is prepared
/// for a kernel that the format has, over decoded values otherwise.
pub open spec fn row_result<T, D: Fn(T, ElementCode, T) -> T, S: Fn(T, BlockDot) -> T>(
    row: Seq<u8>,
    ty: QuantType,
    input: Seq<T>,
    activation: Activation,
    zero: T,
    step: D,
    block: S,
    total: T,
) -> bool {
    match activation {
        Activation::Plain => quant::dot_result(step, row, ty, input, zero, total),
        Activation::Q8K { wide: blocks } => if simd::has_q8k_kernel(ty) {
            sum_of(block, simd::row_dots_q8k(row, ty, blocks@), zero, total)
        } else {
            quant::dot_result(step, row, ty, input, zero, total)
        },
        Activation::Q8_32 { narrow: blocks } => if simd::has_q8_32_kernel(ty) {
            sum_of(block, simd::row_dots_q8_32(row, ty, blocks@), zero, total)
        } else {
            quant::dot_result(step, row, ty, input, zero, total)
        },
    }
}

/// Multiplies a row by an input: `step` adds one decoded value times its input, and `block` adds
/// the share of one block of integer codes.
pub fn row_product<T: Copy, D: Fn(T, ElementCode, T) -> T, S: Fn(T, BlockDot) -> T>(
    row: &[u8],
    ty: QuantType,
    input: &[T],
    activation: &Activation,
    zero: T,
    step: &D,
    block: &S,
) -> (total: T)
    requires
        input@.len() as int % ty.block_len() == 0,
        row@.len() == quant::stride(input@.len() as int, ty),
        activation.valid(),
        forall|t: T, c: ElementCode, x: T| call_requires(*step, (t, c, x)),
        forall|t: T, dot: BlockDot| call_requires(*block, (t, dot)),
    ensures
        row_result(row@, ty, input@, *activation, zero, *step, *block, total),
{
    match activation {
        Activation::Plain => {},
        Activation::Q8K { wide: blocks } => {
            match simd::dot_q8k(row, ty, blocks.as_slice()) {
                Some(dots) => return add_up(dots.as_slice(), zero, block),
                None => {},
            }
        },
        Activation::Q8_32 { narrow: blocks } => {
            match simd::dot_q8_32(row, ty, blocks.as_slice()) {
                Some(dots) => return add_up(dots.as_slice(), zero, block),
                None => {},
            }
        },
    }
    quant::dot_row(row, ty, input, zero, step)
}

/// A product that has been checked and prepared.
#[derive(Debug)]
pub struct Job {
    pub activation: Activation,
    /// The number of shares that the rows are divided into.
    pub shares: usize,
}

/// Checks the lengths of a product, brings the input into the layout that the kernels take, and
/// decides into how many shares the rows are divided.
pub fn begin<T, F: Fn(&[T]) -> (Single, [i8; 256]), G: Fn(&[T]) -> (Single, [i8; 32])>(
    weight: &QuantTensor,
    input: &[T],
    output: usize,
    kind: KernelKind,
    threads: usize,
    parallel_threshold: usize,
    integer_activations: bool,
    wide: &F,
    narrow: &G,
) -> (result: Result<Job, QuantError>)
    requires
        weight.valid(),
        activation::rounding::<T, 256, F>(*wide),
        activation::rounding::<T, 32, G>(*narrow),
    ensures
        match weight.matvec_fault(input@.len() as int, output as int) {
            Some(fault) => result == Err::<Job, QuantError>(fault),
            None => {
                &&& result is Ok
                &&& result->Ok_0.activation.valid()
                &&& prepared(
                    result->Ok_0.activation,
                    backend::layout_for(
                        kind,
                        integer_activations,
                        weight.quant_type,
                        weight.n_cols(),
                    ),
                    input@,
                    *wide,
                    *narrow,
                )
                &&& result->Ok_0.shares == (if backend::worth_dividing(
                    threads as int,
                    weight.n_rows(),
                    weight.n_cols(),
                    parallel_threshold as int,
                ) {
                    threads
                } else {
                    1
                })
            },
        },
{
    let plan = match backend::plan_matvec(
        weight,
        input.len(),
        output,
        kind,
        threads,
        parallel_threshold,
        integer_activations,
    ) {
        Err(fault) => return Err(fault),
        Ok(plan) => plan,
    };
    let activation = prepare(plan.layout, input, wide, narrow);
    let shares: usize = if plan.parallel {
        threads
    } else {
        1
    };
    Ok(Job { activation, shares })
}

/// `products` are the products of the rows in one share of several.
pub open spec fn is_share<T, D: Fn(T, ElementCode, T) -> T, S: Fn(T, BlockDot) -> T>(
    weight: QuantTensor,
    input: Seq<T>,
    activation: Activation,
    share: int,
    shares: int,
    zero: T,
    step: D,
    block: S,
    products: Seq<T>,
) -> bool {
    let start = backend::share_start(share, weight.n_rows(), shares);
    &&& products.len() == backend::share_start(share + 1, weight.n_rows(), shares) - start
    &&& forall|i: int|
        0 <= i < products.len() ==> row_result(
            weight.row_seq(start + i),
            weight.quant_type,
            input,
            activation,
            zero,
            step,
            block,
            #[trigger] products[i],
        )
}

/// Multiplies the rows of one share by an input.
pub fn share_products<T: Copy, D: Fn(T, ElementCode, T) -> T, S: Fn(T, BlockDot) -> T>(
    weight: &QuantTensor,
    input: &[T],
    job: &Job,
    share: usize,
    zero: T,
    step: &D,
    block: &S,
) -> (products: Vec<T>)
    requires
        weight.valid(),
        input@.len() == weight.n_cols(),
        job.activation.valid(),
        share < job.shares,
        forall|t: T, c: ElementCode, x: T| call_requires(*step, (t, c, x)),
        forall|t: T, dot: BlockDot| call_requires(*block, (t, dot)),
    ensures
        is_share(
            *weight,
            input@,
            job.activation,
            share as int,
            job.shares as int,
            zero,
            *step,
            *block,
            products@,
        ),
{
    let rows: usize = weight.rows();
    let (start, end) = backend::partition(share, rows, job.shares);
    let mut products: Vec<T> = Vec::new();
    for row in start..end
        invariant
            weight.valid(),
            rows == weight.n_rows(),
            start <= end <= rows,
            input@.len() == weight.n_cols(),
            job.activation.valid(),
            forall|t: T, c: ElementCode, x: T| call_requires(*step, (t, c, x)),
            forall|t: T, dot: BlockDot| call_requires(*block, (t, dot)),
            products@.len() == row - start,
            forall|i: int|
                0 <= i < products@.len() ==> row_result(
                    weight.row_seq(start + i),
                    weight.quant_type,
                    input@,
                    job.activation,
                    zero,
                    *step,
                    *block,
                    #[trigger] products@[i],
                ),
    {
        proof {
            weight.lemma_row_range(row as int);
        }
        products.push(
            row_product(
                weight.row_data(row),
                weight.quant_type,
                input,
                &job.activation,
                zero,
                step,
                block,
            ),
        );
    }
    products
}

/// The first shares together hold the products of the first rows.
proof fn lemma_first_shares<T, D: Fn(T, ElementCode, T) -> T, S: Fn(T, BlockDot) -> T>(
    weight: QuantTensor,
    input: Seq<T>,
    activation: Activation,
    shares: int,
    zero: T,
    step: D,
    block: S,
    parts: Seq<Seq<T>>,
)
    requires
        weight.n_rows() >= 0,
        parts.len() <= shares,
        0 < shares,
        forall|k: int|
            0 <= k < parts.len() ==> is_share(
                weight,
                input,
                activation,
                k,
                shares,
                zero,
                step,
                block,
                #[trigger] parts[k],
            ),
    ensures
        parts.flatten_alt().len() == backend::share_start(
            parts.len() as int,
            weight.n_rows(),
            shares,
        ),
        forall|r: int|
            0 <= r < parts.flatten_alt().len() ==> row_result(
                weight.row_seq(r),
                weight.quant_type,
                input,
                activation,
                zero,
                step,
                block,
                #[trigger] parts.flatten_alt()[r],
            ),
    decreases parts.len(),
{
    backend::shares_cover_all_items(weight.n_rows(), shares, 0);
    if parts.len() > 0 {
        let before = parts.drop_last();
        assert forall|k: int| 0 <= k < before.len() implies is_share(
            weight,
            input,
            activation,
            k,
            shares,
            zero,
            step,
            block,
            #[trigger] before[k],
        ) by {
            assert(before[k] == parts[k]);
        }
        lemma_first_shares(weight, input, activation, shares, zero, step, block, before);
        let last = parts[parts.len() - 1];
        assert(is_share(
            weight,
            input,
            activation,
            parts.len() - 1,
            shares,
            zero,
            step,
            block,
            last,
        ));
        assert(parts.flatten_alt() == before.flatten_alt() + last);
        let start = before.flatten_alt().len();
        assert forall|r: int| 0 <= r < parts.flatten_alt().len() implies row_result(
            weight.row_seq(r),
            weight.quant_type,
            input,
            activation,
            zero,
            step,
            block,
            #[trigger] parts.flatten_alt()[r],
        ) by {
            if r < start {
                assert(parts.flatten_alt()[r] == before.flatten_alt()[r]);
            } else {
                assert(parts.flatten_alt()[r] == last[r - start]);
            }
        }
    }
}

/// Dividing the rows changes nothing: the shares of any number of threads, one after the other,
/// are products of all rows as a single share gives them.
pub proof fn products_do_not_depend_on_threads<
    T,
    D: Fn(T, ElementCode, T) -> T,
    S: Fn(T, BlockDot) -> T,
>(
    weight: QuantTensor,
    input: Seq<T>,
    activation: Activation,
    zero: T,
    step: D,
    block: S,
    parts: Seq<Seq<T>>,
)
    requires
        weight.valid(),
        parts.len() > 0,
        forall|k: int|
            0 <= k < parts.len() ==> is_share(
                weight,
                input,
                activation,
                k,
                parts.len() as int,
                zero,
                step,
                block,
                #[trigger] parts[k],
            ),
    ensures
        is_share(weight, input, activation, 0, 1, zero, step, block, parts.flatten_alt()),
{
    let shares = parts.len() as int;
    lemma_first_shares(weight, input, activation, shares, zero, step, block, parts);
    backend::shares_cover_all_items(weight.n_rows(), shares, 0);
    backend::shares_cover_all_items(weight.n_rows(), 1, 0);
}

/// A step gives one result for the same arguments.
pub open spec fn single_step<T, D: Fn(T, ElementCode, T) -> T>(step: D) -> bool {
    forall|t: T, c: ElementCode, x: T, a: T, b: T| #[trigger]
        call_ensures(step, (t, c, x), a) && #[trigger] call_ensures(step, (t, c, x), b) ==> a == b
}

/// Adding the share of a block gives one result for the same arguments.
pub open spec fn single_block<T, S: Fn(T, BlockDot) -> T>(block: S) -> bool {
    forall|t: T, dot: BlockDot, a: T, b: T| #[trigger]
        call_ensures(block, (t, dot), a) && #[trigger] call_ensures(block, (t, dot), b) ==> a == b
}

/// Steps that give one result each take one course.
proof fn lemma_one_course<T, D: Fn(T, ElementCode, T) -> T>(
    step: D,
    steps: Seq<(ElementCode, T)>,
    a: Seq<T>,
    b: Seq<T>,
    k: int,
)
    requires
        single_step(step),
        quant::accumulates(step, steps, a),
        quant::accumulates(step, steps, b),
        a.first() == b.first(),
        0 <= k <= steps.len(),
    ensures
        a[k] == b[k],
    decreases k,
{
    if k > 0 {
        lemma_one_course(step, steps, a, b, k - 1);
        let (code, x) = (steps[k - 1].0, steps[k - 1].1);
        assert(call_ensures(step, (a[k - 1], code, x), a[k]));
        assert(call_ensures(step, (b[k - 1], code, x), b[k]));
    }
}

/// Blocks that add one share each add up to one sum.
proof fn lemma_one_sum<T, S: Fn(T, BlockDot) -> T>(
    block: S,
    dots: Seq<BlockDot>,
    a: Seq<T>,
    b: Seq<T>,
    k: int,
)
    requires
        single_block(block),
        adds_up(block, dots, a),
        adds_up(block, dots, b),
        a.first() == b.first(),
        0 <= k <= dots.len(),
    ensures
        a[k] == b[k],
    decreases k,
{
    if k > 0 {
        lemma_one_sum(block, dots, a, b, k - 1);
        assert(call_ensures(block, (a[k - 1], dots[k - 1]), a[k]));
        assert(call_ensures(block, (b[k - 1], dots[k - 1]), b[k]));
    }
}

/// A row has one product, where single steps and single blocks have one result each.
pub proof fn a_row_has_one_product<T, D: Fn(T, ElementCode, T) -> T, S: Fn(T, BlockDot) -> T>(
    row: Seq<u8>,
    ty: QuantType,
    input: Seq<T>,
    activation: Activation,
    zero: T,
    step: D,
    block: S,
    a: T,
    b: T,
)
    requires
        single_step(step),
        single_block(block),
        row_result(row, ty, input, activation, zero, step, block, a),
        row_result(row, ty, input, activation, zero, step, block, b),
    ensures
        a == b,
{
    if quant::dot_result(step, row, ty, input, zero, a) && quant::dot_result(
        step,
        row,
        ty,
        input,
        zero,
        b,
    ) {
        let steps = quant::visits(row, ty, input);
        let x = choose|trace: Seq<T>| #[trigger]
            quant::accumulates(step, steps, trace) && trace.first() == zero && trace.last() == a;
        let y = choose|trace: Seq<T>| #[trigger]
            quant::accumulates(step, steps, trace) && trace.first() == zero && trace.last() == b;
        lemma_one_course(step, steps, x, y, steps.len() as int);
    } else {
        let dots = match activation {
            Activation::Q8K { wide } => simd::row_dots_q8k(row, ty, wide@),
            Activation::Q8_32 { narrow } => simd::row_dots_q8_32(row, ty, narrow@),
            Activation::Plain => Seq::empty(),
        };
        let x = choose|trace: Seq<T>| #[trigger]
            adds_up(block, dots, trace) && trace.first() == zero && trace.last() == a;
        let y = choose|trace: Seq<T>| #[trigger]
            adds_up(block, dots, trace) && trace.first() == zero && trace.last() == b;
        lemma_one_sum(block, dots, x, y, dots.len() as int);
    }
}

/// Two numbers of threads give the same products, value for value, where single steps and single
/// blocks have one result each.
pub proof fn any_threads_give_the_same_products<
    T,
    D: Fn(T, ElementCode, T) -> T,
    S: Fn(T, BlockDot) -> T,
>(
    weight: QuantTensor,
    input: Seq<T>,
    activation: Activation,
    zero: T,
    step: D,
    block: S,
    parts: Seq<Seq<T>>,
    others: Seq<Seq<T>>,
)
    requires
        weight.valid(),
        single_step(step),
        single_block(block),
        parts.len() > 0,
        others.len() > 0,
        forall|k: int|
            0 <= k < parts.len() ==> is_share(
                weight,
                input,
                activation,
                k,
                parts.len() as int,
                zero,
                step,
                block,
                #[trigger] parts[k],
            ),
        forall|k: int|
            0 <= k < others.len() ==> is_share(
                weight,
                input,
                activation,
                k,
                others.len() as int,
                zero,
                step,
                block,
                #[trigger] others[k],
            ),
    ensures
        parts.flatten_alt() == others.flatten_alt(),
{
    products_do_not_depend_on_threads(weight, input, activation, zero, step, block, parts);
    products_do_not_depend_on_threads(weight, input, activation, zero, step, block, others);
    let a = parts.flatten_alt();
    let b = others.flatten_alt();
    assert forall|i: int| 0 <= i < a.len() implies a[i] == b[i] by {
        let start = backend::share_start(0, weight.n_rows(), 1);
        a_row_has_one_product(
            weight.row_seq(start + i),
            weight.quant_type,
            input,
            activation,
            zero,
            step,
            block,
            a[i],
            b[i],
        );
    }
    assert(a =~= b);
}

/// The product of a row with prepared activations adds the shares of its blocks up, first block
/// first, from zero on: where adding a share is a function of its arguments, the product is the left
/// fold of the shares.
pub proof fn prepared_products_fold_the_shares<
    T,
    D: Fn(T, ElementCode, T) -> T,
    S: Fn(T, BlockDot) -> T,
>(
    row: Seq<u8>,
    ty: QuantType,
    input: Seq<T>,
    activation: Activation,
    zero: T,
    step: D,
    block: S,
    total: T,
    share: spec_fn(T, BlockDot) -> T,
)
    requires
        forall|t: T, dot: BlockDot, r: T| #[trigger]
            call_ensures(block, (t, dot), r) ==> r == share(t, dot),
        row_result(row, ty, input, activation, zero, step, block, total),
    ensures
        ty == QuantType::Q4K || ty == QuantType::Q5K || ty == QuantType::Q6K ==> (
        activation matches Activation::Q8K { wide } ==> total == simd::row_dots_q8k(
            row,
            ty,
            wide@,
        ).fold_left(zero, share)),
        ty == QuantType::Q4_0 || ty == QuantType::Q5_0 || ty == QuantType::Q8_0 ==> (
        activation matches Activation::Q8_32 { narrow } ==> total == simd::row_dots_q8_32(
            row,
            ty,
            narrow@,
        ).fold_left(zero, share)),
        activation is Plain ==> quant::dot_result(step, row, ty, input, zero, total),
{
    match activation {
        Activation::Plain => {},
        Activation::Q8K { wide } => {
            if simd::has_q8k_kernel(ty) {
                lemma_shares_fold(block, simd::row_dots_q8k(row, ty, wide@), zero, total, share);
            }
        },
        Activation::Q8_32 { narrow } => {
            if simd::has_q8_32_kernel(ty) {
                lemma_shares_fold(
                    block,
                    simd::row_dots_q8_32(row, ty, narrow@),
                    zero,
                    total,
                    share,
                );
            }
        },
    }
}

/// A sum of shares is a left fold.
proof fn lemma_shares_fold<T, S: Fn(T, BlockDot) -> T>(
    block: S,
    dots: Seq<BlockDot>,
    zero: T,
    total: T,
    share: spec_fn(T, BlockDot) -> T,
)
    requires
        forall|t: T, dot: BlockDot, r: T| #[trigger]
            call_ensures(block, (t, dot), r) ==> r == share(t, dot),
        sum_of(block, dots, zero, total),
    ensures
        total == dots.fold_left(zero, share),
{
    let trace = choose|trace: Seq<T>| #[trigger]
        adds_up(block, dots, trace) && trace.first() == zero && trace.last() == total;
    lemma_trace_of_shares(block, dots, zero, trace, share, dots.len() as int);
    assert(dots.take(dots.len() as int) =~= dots);
}

/// A running sum of shares is the left fold of the shares so far.
proof fn lemma_trace_of_shares<T, S: Fn(T, BlockDot) -> T>(
    block: S,
    dots: Seq<BlockDot>,
    zero: T,
    trace: Seq<T>,
    share: spec_fn(T, BlockDot) -> T,
    k: int,
)
    requires
        forall|t: T, dot: BlockDot, r: T| #[trigger]
            call_ensures(block, (t, dot), r) ==> r == share(t, dot),
        adds_up(block, dots, trace),
        trace.first() == zero,
        0 <= k <= dots.len(),
    ensures
        trace[k] == dots.take(k).fold_left(zero, share),
    decreases k,
{
    if k > 0 {
        lemma_trace_of_shares(block, dots, zero, trace, share, k - 1);
        assert(dots.take(k).drop_last() =~= dots.take(k - 1));
        assert(dots.take(k).last() == dots[k - 1]);
        assert(call_ensures(block, (trace[k - 1], dots[k - 1]), trace[k]));
    }
}

/// An input is prepared in the layout that was asked for, and in no other.
pub proof fn inputs_are_prepared_as_asked<
    T,
    F: Fn(&[T]) -> (Single, [i8; 256]),
    G: Fn(&[T]) -> (Single, [i8; 32]),
>(activation: Activation, layout: ActivationLayout, input: Seq<T>, wide: F, narrow: G)
    requires
        prepared(activation, layout, input, wide, narrow),
    ensures
        layout == ActivationLayout::Plain <==> activation is Plain,
        layout == ActivationLayout::Q8K ==> (activation matches Activation::Q8K { wide: blocks }
            && activation::rounded_q8k(wide, input, blocks@)),
        layout == ActivationLayout::Q8_32 ==> (activation matches Activation::Q8_32 {
            narrow: blocks,
        } && activation::rounded_q8_32(narrow, input, blocks@)),
{
}

} // verus!
