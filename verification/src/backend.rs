//! Kernel selection, work partitioning, and the boundary between model architectures and numerical
//! kernels.

use crate::activation;
use crate::activation::{ActivationLayout, QK_K};
use crate::cache;
use crate::float::Single;
use crate::quant::{ElementCode, QuantError, QuantTensor, QuantType};
use crate::text;
use vstd::prelude::*;

verus! {

/// The kernel family that a user asks for.
#[derive(Clone, Copy, Debug, PartialEq, Eq, Structural)]
pub enum KernelPreference {
    /// The best family that the processor supports.
    Auto,
    Scalar,
    Avx2,
    Neon,
}

impl Default for KernelPreference {
    fn default() -> (preference: KernelPreference)
        ensures
            preference == KernelPreference::Auto,
    {
        KernelPreference::Auto
    }
}

/// Why a backend cannot be made.
#[derive(Debug)]
pub enum BackendError {
    /// No kernel family has that name; the name is in small letters.
    UnknownKernel { name: String },
    /// AVX2 and FMA were asked for, and the processor lacks them.
    Avx2Unavailable,
    /// NEON was asked for, and the processor lacks it.
    NeonUnavailable,
    /// The number of threads must be positive.
    ZeroThreads,
}

/// The family that a name in small letters means.
pub open spec fn preference_named(name: Seq<char>) -> Option<KernelPreference> {
    if name == "auto"@ {
        Some(KernelPreference::Auto)
    } else if name == "scalar"@ {
        Some(KernelPreference::Scalar)
    } else if name == "avx2"@ {
        Some(KernelPreference::Avx2)
    } else if name == "neon"@ {
        Some(KernelPreference::Neon)
    } else {
        None
    }
}

impl KernelPreference {
    /// The family that a name means, whatever the case of its letters.
    pub fn parse(value: &str) -> (result: Result<KernelPreference, BackendError>)
        ensures
            match preference_named(text::lower(value@)) {
                Some(preference) => result == Ok::<KernelPreference, BackendError>(preference),
                None => result matches Err(BackendError::UnknownKernel { name }) && name@
                    == text::lower(value@),
            },
    {
        let name = text::ascii_lowercase(value);
        if text::equals(name.as_str(), "auto") {
            Ok(KernelPreference::Auto)
        } else if text::equals(name.as_str(), "scalar") {
            Ok(KernelPreference::Scalar)
        } else if text::equals(name.as_str(), "avx2") {
            Ok(KernelPreference::Avx2)
        } else if text::equals(name.as_str(), "neon") {
            Ok(KernelPreference::Neon)
        } else {
            Err(BackendError::UnknownKernel { name })
        }
    }
}

/// The kernel family in use.
#[derive(Clone, Copy, Debug, PartialEq, Eq, Structural)]
pub enum KernelKind {
    Scalar,
    Avx2,
    Neon,
}

impl KernelKind {
    /// The family's name.
    pub fn name(self) -> (name: &'static str)
        ensures
            name@ == (match self {
                KernelKind::Scalar => "scalar"@,
                KernelKind::Avx2 => "avx2+fma"@,
                KernelKind::Neon => "neon"@,
            }),
    {
        match self {
            KernelKind::Scalar => "scalar",
            KernelKind::Avx2 => "avx2+fma",
            KernelKind::Neon => "neon",
        }
    }
}

/// How matrix products are computed.
#[derive(Clone, Copy, Debug, PartialEq, Eq, Structural)]
pub struct BackendConfig {
    /// Zero means all processors that the process sees.
    pub threads: usize,
    pub kernel: KernelPreference,
    /// Matrices with fewer multiplications run on the calling thread.
    pub parallel_threshold: usize,
    /// Quantize activations to eight bits, so that integer kernels can be used. Rounding the
    /// activation costs some accuracy.
    pub integer_activations: bool,
}

impl Default for BackendConfig {
    fn default() -> (config: BackendConfig)
        ensures
            config == (BackendConfig {
                threads: 0,
                kernel: KernelPreference::Auto,
                parallel_threshold: 131072,
                integer_activations: true,
            }),
    {
        BackendConfig {
            threads: 0,
            kernel: KernelPreference::Auto,
            parallel_threshold: 128 * 1024,
            integer_activations: true,
        }
    }
}

impl BackendConfig {
    /// The default configuration, except that activations are never quantized.
    pub fn reference() -> (config: BackendConfig)
        ensures
            config == (BackendConfig {
                threads: 0,
                kernel: KernelPreference::Auto,
                parallel_threshold: 131072,
                integer_activations: false,
            }),
    {
        let default = BackendConfig::default();
        BackendConfig {
            threads: default.threads,
            kernel: default.kernel,
            parallel_threshold: default.parallel_threshold,
            integer_activations: false,
        }
    }
}

/// The family is one that the processor supports.
pub open spec fn supported(kind: KernelKind, avx2: bool, neon: bool) -> bool {
    match kind {
        KernelKind::Scalar => true,
        KernelKind::Avx2 => avx2,
        KernelKind::Neon => neon,
    }
}

/// Selects the kernel family for a preference on a processor with the given features. No family is
/// ever selected that the processor lacks.
pub fn select_kernel(preference: KernelPreference, avx2: bool, neon: bool) -> (result: Result<
    KernelKind,
    BackendError,
>)
    ensures
        match preference {
            KernelPreference::Auto => result == Ok::<KernelKind, BackendError>(
                if avx2 {
                    KernelKind::Avx2
                } else if neon {
                    KernelKind::Neon
                } else {
                    KernelKind::Scalar
                },
            ),
            KernelPreference::Scalar => result == Ok::<KernelKind, BackendError>(
                KernelKind::Scalar,
            ),
            KernelPreference::Avx2 => result == (if avx2 {
                Ok::<KernelKind, BackendError>(KernelKind::Avx2)
            } else {
                Err(BackendError::Avx2Unavailable)
            }),
            KernelPreference::Neon => result == (if neon {
                Ok::<KernelKind, BackendError>(KernelKind::Neon)
            } else {
                Err(BackendError::NeonUnavailable)
            }),
        },
        result is Ok ==> supported(result->Ok_0, avx2, neon),
{
    match preference {
        KernelPreference::Auto => {
            if avx2 {
                Ok(KernelKind::Avx2)
            } else if neon {
                Ok(KernelKind::Neon)
            } else {
                Ok(KernelKind::Scalar)
            }
        },
        KernelPreference::Scalar => Ok(KernelKind::Scalar),
        KernelPreference::Avx2 => {
            if avx2 {
                Ok(KernelKind::Avx2)
            } else {
                Err(BackendError::Avx2Unavailable)
            }
        },
        KernelPreference::Neon => {
            if neon {
                Ok(KernelKind::Neon)
            } else {
                Err(BackendError::NeonUnavailable)
            }
        },
    }
}

/// The number of threads: the requested number, or all that are available where zero was requested.
pub fn thread_count(requested: usize, available: usize) -> (result: Result<usize, BackendError>)
    ensures
        result == (if requested > 0 {
            Ok::<usize, BackendError>(requested)
        } else if available > 0 {
            Ok(available)
        } else {
            Err(BackendError::ZeroThreads)
        }),
{
    let threads: usize = if requested == 0 {
        available
    } else {
        requested
    };
    if threads == 0 {
        return Err(BackendError::ZeroThreads);
    }
    Ok(threads)
}

/// The activation layout of a product with a matrix of `cols` columns: an integer layout needs the
/// AVX2 kernels, a format that has an integer kernel, and rows of whole blocks.
pub open spec fn layout_for(
    kind: KernelKind,
    integer_activations: bool,
    ty: QuantType,
    cols: int,
) -> ActivationLayout {
    if !integer_activations || kind != KernelKind::Avx2 {
        ActivationLayout::Plain
    } else if activation::layout_of(ty) == ActivationLayout::Q8K && cols % 256 == 0 {
        ActivationLayout::Q8K
    } else if activation::layout_of(ty) == ActivationLayout::Q8_32 && cols % 32 == 0 {
        ActivationLayout::Q8_32
    } else {
        ActivationLayout::Plain
    }
}

/// Decides which activation layout a product takes.
pub fn integer_layout(
    kind: KernelKind,
    integer_activations: bool,
    ty: QuantType,
    cols: usize,
) -> (layout: ActivationLayout)
    ensures
        layout == layout_for(kind, integer_activations, ty, cols as int),
{
    if !integer_activations || kind != KernelKind::Avx2 {
        return ActivationLayout::Plain;
    }
    match activation::activation_layout(ty) {
        ActivationLayout::Q8K => {
            if cols % QK_K == 0 {
                ActivationLayout::Q8K
            } else {
                ActivationLayout::Plain
            }
        },
        ActivationLayout::Q8_32 => {
            if cols % 32 == 0 {
                ActivationLayout::Q8_32
            } else {
                ActivationLayout::Plain
            }
        },
        ActivationLayout::Plain => ActivationLayout::Plain,
    }
}

/// How one matrix product is carried out.
#[derive(Clone, Copy, Debug, PartialEq, Eq, Structural)]
pub struct MatvecPlan {
    pub layout: ActivationLayout,
    /// The rows are divided among the threads.
    pub parallel: bool,
}

/// A product is worth dividing: there are two rows for each of several threads, and enough
/// multiplications.
pub open spec fn worth_dividing(threads: int, rows: int, cols: int, threshold: int) -> bool {
    threads > 1 && rows >= 2 * threads && rows * cols >= threshold
}

/// Checks the lengths of a matrix product and decides how it is carried out.
pub fn plan_matvec(
    weight: &QuantTensor,
    input: usize,
    output: usize,
    kind: KernelKind,
    threads: usize,
    parallel_threshold: usize,
    integer_activations: bool,
) -> (result: Result<MatvecPlan, QuantError>)
    requires
        weight.valid(),
    ensures
        match weight.matvec_fault(input as int, output as int) {
            Some(fault) => result == Err::<MatvecPlan, QuantError>(fault),
            None => result == Ok::<MatvecPlan, QuantError>(
                MatvecPlan {
                    layout: layout_for(kind, integer_activations, weight.quant_type, weight.n_cols()),
                    parallel: worth_dividing(
                        threads as int,
                        weight.n_rows(),
                        weight.n_cols(),
                        parallel_threshold as int,
                    ),
                },
            ),
        },
{
    match weight.validate_matvec(input, output) {
        Err(fault) => return Err(fault),
        Ok(()) => {},
    }
    let rows: usize = weight.rows();
    let cols: usize = weight.cols();
    let enough: bool = match rows.checked_mul(cols) {
        Some(work) => work >= parallel_threshold,
        None => true,
    };
    let parallel: bool = threads > 1 && rows / 2 >= threads && enough;
    let layout = integer_layout(kind, integer_activations, weight.quant_type, cols);
    Ok(MatvecPlan { layout, parallel })
}

/// Where the share of thread `thread` starts when `items` are divided among `threads`.
pub open spec fn share_start(thread: int, items: int, threads: int) -> int {
    thread * items / threads
}

/// The share of one thread: the items from the first number up to, and without, the second.
pub fn partition(thread: usize, items: usize, threads: usize) -> (share: (usize, usize))
    requires
        thread < threads,
    ensures
        share.0 == share_start(thread as int, items as int, threads as int),
        share.1 == share_start(thread + 1, items as int, threads as int),
        share.0 <= share.1 <= items,
{
    proof {
        shares_cover_all_items(items as int, threads as int, thread as int);
        assert(thread * items <= (thread + 1) * items && (thread + 1) * items <= 0xffff_ffff_ffff_ffff
            * 0xffff_ffff_ffff_ffff && thread * items >= 0) by (nonlinear_arith)
            requires
                0 <= thread,
                thread + 1 <= 0xffff_ffff_ffff_ffff,
                0 <= items <= 0xffff_ffff_ffff_ffff,
        ;
    }
    let n: u128 = items as u128;
    let t: u128 = threads as u128;
    let start: u128 = (thread as u128) * n / t;
    let end: u128 = (thread as u128 + 1) * n / t;
    (start as usize, end as usize)
}

/// The shares of the threads follow one another without gap or overlap: the first starts with the
/// first item, each ends where the next one starts, and the last ends with the last item.
pub proof fn shares_cover_all_items(items: int, threads: int, thread: int)
    requires
        items >= 0,
        0 <= thread < threads,
    ensures
        share_start(0, items, threads) == 0,
        share_start(threads, items, threads) == items,
        0 <= share_start(thread, items, threads) <= share_start(thread + 1, items, threads) <= items,
{
    assert(0 * items / threads == 0) by (nonlinear_arith)
        requires
            threads > 0,
    ;
    assert(threads * items / threads == items) by (nonlinear_arith)
        requires
            threads > 0,
    ;
    assert(0 <= thread * items <= (thread + 1) * items <= threads * items) by (nonlinear_arith)
        requires
            items >= 0,
            0 <= thread < threads,
    ;
    vstd::arithmetic::div_mod::lemma_div_is_ordered(0, thread * items, threads);
    vstd::arithmetic::div_mod::lemma_div_is_ordered(thread * items, (thread + 1) * items, threads);
    vstd::arithmetic::div_mod::lemma_div_is_ordered(
        (thread + 1) * items,
        threads * items,
        threads,
    );
    assert(0int / threads == 0) by (nonlinear_arith)
        requires
            threads > 0,
    ;
}

/// The boundary between model architectures and numerical kernels over values of type `T`.
///
/// The spec functions name what each kernel computes as a function of its arguments. Architecture
/// code is written over those names and does not know which kernels stand behind them.
pub trait KernelBackend<T: Copy> {
    /// The name of the kernels and the number of threads that matrix products are divided among.
    spec fn label(&self) -> (Seq<char>, usize);

    /// Zero.
    spec fn zero_value(&self) -> T;

    /// The value that a stored code stands for.
    spec fn decoded(&self, code: ElementCode) -> T;

    /// The product of a stored row with an input.
    spec fn row_product(&self, row: Seq<u8>, ty: QuantType, input: Seq<T>) -> T;

    /// A sum of two values.
    spec fn added(&self, a: T, b: T) -> T;

    /// A hidden state after normalisation.
    spec fn normed(&self, hidden: Seq<T>, weight: Seq<T>, eps: Single) -> Seq<T>;

    /// The rotary frequency of pair `i` of a head.
    spec fn frequency_of(&self, theta: Single, i: usize, head_dim: usize) -> T;

    /// The cosine of a position's rotary angle.
    spec fn angle_cos(&self, pos: usize, frequency: T) -> T;

    /// The sine of a position's rotary angle.
    spec fn angle_sin(&self, pos: usize, frequency: T) -> T;

    /// The first value of a rotated pair.
    spec fn turned_first(&self, a: T, b: T, cos: T, sin: T) -> T;

    /// The second value of a rotated pair.
    spec fn turned_second(&self, a: T, b: T, cos: T, sin: T) -> T;

    /// How well a key answers a query.
    spec fn score_of(&self, query: Seq<T>, key: Seq<T>) -> T;

    /// The weights that scores give.
    spec fn weights_of(&self, scores: Seq<T>) -> Seq<T>;

    /// A weighted value added to a running sum.
    spec fn mixed(&self, sum: T, value: T, weight: T) -> T;

    /// A gated value.
    spec fn gated(&self, gate: T, up: T) -> T;

    /// The name of the kernels.
    fn name(&self) -> (name: &'static str)
        ensures
            name@ == self.label().0,
    ;

    /// The number of threads that matrix products are divided among.
    fn threads(&self) -> (threads: usize)
        ensures
            threads == self.label().1,
    ;

    /// Zero.
    fn zero(&self) -> (r: T)
        ensures
            r == self.zero_value(),
    ;

    /// Decodes a stored code.
    fn decode(&self, code: ElementCode) -> (r: T)
        ensures
            r == self.decoded(code),
    ;

    /// Multiplies a matrix by `input` and writes the products from `at` on.
    fn matvec(&self, weight: &QuantTensor, input: &[T], output: &mut Vec<T>, at: usize)
        requires
            weight.valid(),
            input@.len() == weight.n_cols(),
            at + weight.n_rows() <= old(output)@.len(),
        ensures
            final(output)@ == cache::splice(
                old(output)@,
                at as int,
                Seq::new(
                    weight.n_rows() as nat,
                    |r: int| self.row_product(weight.row_seq(r), weight.quant_type, input@),
                ),
            ),
    ;

    /// Adds `src` to the values from `at` on.
    fn add_into(&self, dst: &mut Vec<T>, at: usize, src: &[T])
        requires
            at + src@.len() <= old(dst)@.len(),
        ensures
            final(dst)@ == cache::splice(
                old(dst)@,
                at as int,
                Seq::new(src@.len(), |i: int| self.added(old(dst)@[at + i], src@[i])),
            ),
    ;

    /// Normalises the values from `at` on, as many as there are weights.
    fn rmsnorm(&self, hidden: &mut Vec<T>, at: usize, weight: &[T], eps: Single)
        requires
            at + weight@.len() <= old(hidden)@.len(),
        ensures
            ({
                let before = old(hidden)@.subrange(at as int, at + weight@.len());
                &&& self.normed(before, weight@, eps).len() == weight@.len()
                &&& final(hidden)@ == cache::splice(
                    old(hidden)@,
                    at as int,
                    self.normed(before, weight@, eps),
                )
            }),
    ;

    /// The rotary frequency of pair `i` of a head.
    fn frequency(&self, theta: Single, i: usize, head_dim: usize) -> (r: T)
        ensures
            r == self.frequency_of(theta, i, head_dim),
    ;

    /// The cosine and the sine of a position's rotary angle.
    fn angle(&self, pos: usize, frequency: T) -> (r: (T, T))
        ensures
            r.0 == self.angle_cos(pos, frequency),
            r.1 == self.angle_sin(pos, frequency),
    ;

    /// Rotates one head, which starts at `at`: value `i` of its first half forms a pair with value
    /// `i` of its second half.
    fn rope(&self, x: &mut Vec<T>, at: usize, cos: &[T], sin: &[T])
        requires
            cos@.len() == sin@.len(),
            at + 2 * cos@.len() <= old(x)@.len(),
        ensures
            final(x)@ == cache::splice(
                old(x)@,
                at as int,
                Seq::new(
                    2 * cos@.len(),
                    |i: int|
                        if i < cos@.len() {
                            self.turned_first(
                                old(x)@[at + i],
                                old(x)@[at + i + cos@.len()],
                                cos@[i],
                                sin@[i],
                            )
                        } else {
                            self.turned_second(
                                old(x)@[at + i - cos@.len()],
                                old(x)@[at + i],
                                cos@[i - cos@.len()],
                                sin@[i - cos@.len()],
                            )
                        },
                ),
            ),
    ;

    /// How well a key answers a query.
    fn score(&self, query: &[T], key: &[T]) -> (r: T)
        requires
            query@.len() == key@.len(),
        ensures
            r == self.score_of(query@, key@),
    ;

    /// Turns the `len` scores from `at` on into weights.
    fn softmax(&self, values: &mut Vec<T>, at: usize, len: usize)
        requires
            len > 0,
            at + len <= old(values)@.len(),
        ensures
            ({
                let before = old(values)@.subrange(at as int, at + len);
                &&& self.weights_of(before).len() == len
                &&& final(values)@ == cache::splice(old(values)@, at as int, self.weights_of(before))
            }),
    ;

    /// Adds weighted values to the running sums from `at` on.
    fn mad(&self, dst: &mut Vec<T>, at: usize, src: &[T], weight: T)
        requires
            at + src@.len() <= old(dst)@.len(),
        ensures
            final(dst)@ == cache::splice(
                old(dst)@,
                at as int,
                Seq::new(src@.len(), |i: int| self.mixed(old(dst)@[at + i], src@[i], weight)),
            ),
    ;

    /// Gates the values from `at` on.
    fn swiglu(&self, gate: &mut Vec<T>, at: usize, up: &[T])
        requires
            at + up@.len() <= old(gate)@.len(),
        ensures
            final(gate)@ == cache::splice(
                old(gate)@,
                at as int,
                Seq::new(up@.len(), |i: int| self.gated(old(gate)@[at + i], up@[i])),
            ),
    ;
}

/// A product takes integer activations only where they are wanted, on the AVX2 kernels, in the
/// layout of its format, and with rows of whole activation blocks.
pub proof fn integer_layouts_need_whole_blocks(
    kind: KernelKind,
    integer_activations: bool,
    ty: QuantType,
    cols: int,
)
    ensures
        layout_for(kind, integer_activations, ty, cols) == ActivationLayout::Q8K <==> {
            integer_activations && kind == KernelKind::Avx2 && ty == QuantType::Q4K && cols % 256
                == 0
        },
        layout_for(kind, integer_activations, ty, cols) == ActivationLayout::Q8_32 <==> {
            integer_activations && kind == KernelKind::Avx2 && (ty == QuantType::Q4_0 || ty
                == QuantType::Q5_0 || ty == QuantType::Q8_0) && cols % 32 == 0
        },
{
}

/// Small products are not divided: division needs several threads, two rows for each of them, and as
/// many multiplications as the threshold says.
pub proof fn small_products_are_not_divided(threads: int, rows: int, cols: int, threshold: int)
    ensures
        threads <= 1 || rows < 2 * threads || rows * cols < threshold ==> !worth_dividing(
            threads,
            rows,
            cols,
            threshold,
        ),
        threads >= 2 && rows >= 2 * threads && rows * cols >= threshold ==> worth_dividing(
            threads,
            rows,
            cols,
            threshold,
        ),
{
}

/// The shares of the threads differ by one item at most.
pub proof fn shares_are_even(items: int, threads: int, thread: int)
    requires
        items >= 0,
        0 <= thread < threads,
    ensures
        items / threads <= share_start(thread + 1, items, threads) - share_start(
            thread,
            items,
            threads,
        ) <= items / threads + 1,
{
    let a = thread * items;
    let b = (thread + 1) * items;
    let x = a / threads;
    let y = b / threads;
    let q = items / threads;
    assert(b == a + items) by (nonlinear_arith)
        requires
            a == thread * items,
            b == (thread + 1) * items,
    ;
    vstd::arithmetic::div_mod::lemma_fundamental_div_mod(a, threads);
    vstd::arithmetic::div_mod::lemma_fundamental_div_mod(b, threads);
    vstd::arithmetic::div_mod::lemma_fundamental_div_mod(items, threads);
    assert(q <= y - x <= q + 1) by (nonlinear_arith)
        requires
            threads > 0,
            b == a + items,
            a == threads * x + a % threads,
            b == threads * y + b % threads,
            items == threads * q + items % threads,
            0 <= a % threads < threads,
            0 <= b % threads < threads,
            0 <= items % threads < threads,
    ;
}

/// The names of the kernel families.
pub proof fn families_have_these_names(name: Seq<char>)
    ensures
        preference_named("auto"@) == Some(KernelPreference::Auto),
        preference_named("scalar"@) == Some(KernelPreference::Scalar),
        preference_named("avx2"@) == Some(KernelPreference::Avx2),
        preference_named("neon"@) == Some(KernelPreference::Neon),
        preference_named(name) is Some ==> name == "auto"@ || name == "scalar"@ || name == "avx2"@
            || name == "neon"@,
{
    reveal_strlit("auto");
    reveal_strlit("scalar");
    reveal_strlit("avx2");
    reveal_strlit("neon");
    assert("auto"@[0] != "avx2"@[1] && "auto"@[1] != "avx2"@[1]);
    assert("neon"@[0] != "auto"@[0] && "neon"@[0] != "avx2"@[0]);
    assert("scalar"@.len() != "auto"@.len());
}

} // verus!
