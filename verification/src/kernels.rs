//! Kernels from outside: plain numerical functions, made into a backend.

use crate::backend::KernelBackend;
use crate::cache;
use crate::float::Single;
use crate::quant::{ElementCode, QuantTensor, QuantType};
use vstd::prelude::*;

verus! {

/// The numerical functions that a backend is made of. The trait itself presumes nothing of them.
pub trait Kernels<T: Copy> {
    /// The name of the kernels.
    fn name(&self) -> &'static str;

    /// The number of threads that matrix products are divided among.
    fn threads(&self) -> usize;

    /// Zero.
    fn zero(&self) -> T;

    /// The value that a stored code stands for.
    fn decode(&self, code: ElementCode) -> T;

    /// The products of the rows of a matrix with an input.
    fn products(&self, weight: &QuantTensor, input: &[T]) -> Vec<T>;

    /// A sum of two values.
    fn added(&self, a: T, b: T) -> T;

    /// The factor by which a hidden state is normalised.
    fn norm_factor(&self, hidden: &[T], eps: Single) -> T;

    /// A value of a hidden state after normalisation.
    fn normed(&self, value: T, factor: T, weight: T) -> T;

    /// The rotary frequency of pair `i` of a head.
    fn frequency(&self, theta: Single, i: usize, head_dim: usize) -> T;

    /// The cosine and the sine of a position's rotary angle.
    fn angle(&self, pos: usize, frequency: T) -> (T, T);

    /// A rotated pair.
    fn turned(&self, a: T, b: T, cos: T, sin: T) -> (T, T);

    /// How well a key answers a query.
    fn score(&self, query: &[T], key: &[T]) -> T;

    /// The weights that scores give.
    fn weights(&self, scores: &[T]) -> Vec<T>;

    /// A weighted value added to a running sum.
    fn mixed(&self, sum: T, value: T, weight: T) -> T;

    /// A gated value.
    fn gated(&self, gate: T, up: T) -> T;
}

/// `v` is a product that the kernels give for a row of that content and format with that input,
/// in whatever matrix the row stands.
pub open spec fn is_product<T: Copy, K: Kernels<T>>(
    kernels: K,
    row: Seq<u8>,
    ty: QuantType,
    input: Seq<T>,
    v: T,
) -> bool {
    exists|weight: &QuantTensor, x: &[T], out: Vec<T>, r: int|
        {
            &&& weight.valid()
            &&& weight.quant_type == ty
            &&& x@ == input
            &&& input.len() == weight.n_cols()
            &&& #[trigger] gives_products(kernels, weight, x, out)
            &&& 0 <= r < weight.n_rows()
            &&& #[trigger] weight.row_seq(r) == row
            &&& out@[r] == v
        }
}

/// `out` are products of a matrix with an input.
pub open spec fn gives_products<T: Copy, K: Kernels<T>>(
    kernels: K,
    weight: &QuantTensor,
    input: &[T],
    out: Vec<T>,
) -> bool {
    call_ensures(K::products, (&kernels, weight, input), out)
}

/// `r` is a score of a query and a key.
pub open spec fn is_score<T: Copy, K: Kernels<T>>(kernels: K, query: Seq<T>, key: Seq<T>, r: T) -> bool {
    exists|a: &[T], b: &[T]|
        a@ == query && b@ == key && #[trigger] call_ensures(K::score, (&kernels, a, b), r)
}

/// `r` are weights of some scores.
pub open spec fn are_weights<T: Copy, K: Kernels<T>>(kernels: K, scores: Seq<T>, r: Seq<T>) -> bool {
    exists|a: &[T], v: Vec<T>|
        a@ == scores && v@ == r && #[trigger] call_ensures(K::weights, (&kernels, a), v)
}

/// `r` is a normalisation factor of a hidden state.
pub open spec fn is_norm_factor<T: Copy, K: Kernels<T>>(
    kernels: K,
    hidden: Seq<T>,
    eps: Single,
    r: T,
) -> bool {
    exists|a: &[T]| a@ == hidden && #[trigger] call_ensures(K::norm_factor, (&kernels, a, eps), r)
}

/// `r` is the kernels' name and number of threads.
pub open spec fn is_label<T: Copy, K: Kernels<T>>(kernels: K, r: (Seq<char>, usize)) -> bool {
    &&& exists|name: &'static str|
        name@ == r.0 && #[trigger] call_ensures(K::name, (&kernels,), name)
    &&& call_ensures(K::threads, (&kernels,), r.1)
}

/// The kernels are functions: called again with the same values, they give the same results. A
/// product of a row depends on the row and the input and not on the other rows, and vectors come
/// out as long as they should.
#[verifier::opaque]
pub open spec fn lawful<T: Copy, K: Kernels<T>>(kernels: K) -> bool {
    &&& forall|a: (Seq<char>, usize), b: (Seq<char>, usize)| #[trigger]
        is_label(kernels, a) && #[trigger] is_label(kernels, b) ==> a == b
    &&& forall|a: T, b: T| #[trigger]
        call_ensures(K::zero, (&kernels,), a) && #[trigger] call_ensures(K::zero, (&kernels,), b)
            ==> a == b
    &&& forall|code: ElementCode, a: T, b: T| #[trigger]
        call_ensures(K::decode, (&kernels, code), a) && #[trigger] call_ensures(
            K::decode,
            (&kernels, code),
            b,
        ) ==> a == b
    &&& forall|weight: &QuantTensor, x: &[T], out: Vec<T>| #[trigger]
        gives_products(kernels, weight, x, out) && weight.valid() && x@.len() == weight.n_cols()
            ==> out@.len() == weight.n_rows()
    &&& forall|row: Seq<u8>, ty: QuantType, input: Seq<T>, a: T, b: T| #[trigger]
        is_product(kernels, row, ty, input, a) && #[trigger] is_product(kernels, row, ty, input, b)
            ==> a == b
    &&& forall|x: T, y: T, a: T, b: T| #[trigger]
        call_ensures(K::added, (&kernels, x, y), a) && #[trigger] call_ensures(
            K::added,
            (&kernels, x, y),
            b,
        ) ==> a == b
    &&& forall|hidden: Seq<T>, eps: Single, a: T, b: T| #[trigger]
        is_norm_factor(kernels, hidden, eps, a) && #[trigger] is_norm_factor(kernels, hidden, eps, b)
            ==> a == b
    &&& forall|x: T, y: T, z: T, a: T, b: T| #[trigger]
        call_ensures(K::normed, (&kernels, x, y, z), a) && #[trigger] call_ensures(
            K::normed,
            (&kernels, x, y, z),
            b,
        ) ==> a == b
    &&& forall|theta: Single, i: usize, n: usize, a: T, b: T| #[trigger]
        call_ensures(K::frequency, (&kernels, theta, i, n), a) && #[trigger] call_ensures(
            K::frequency,
            (&kernels, theta, i, n),
            b,
        ) ==> a == b
    &&& forall|pos: usize, x: T, a: (T, T), b: (T, T)| #[trigger]
        call_ensures(K::angle, (&kernels, pos, x), a) && #[trigger] call_ensures(
            K::angle,
            (&kernels, pos, x),
            b,
        ) ==> a == b
    &&& forall|x: T, y: T, c: T, s: T, a: (T, T), b: (T, T)| #[trigger]
        call_ensures(K::turned, (&kernels, x, y, c, s), a) && #[trigger] call_ensures(
            K::turned,
            (&kernels, x, y, c, s),
            b,
        ) ==> a == b
    &&& forall|query: Seq<T>, key: Seq<T>, a: T, b: T| #[trigger]
        is_score(kernels, query, key, a) && #[trigger] is_score(kernels, query, key, b) ==> a == b
    &&& forall|scores: Seq<T>, a: Seq<T>, b: Seq<T>| #[trigger]
        are_weights(kernels, scores, a) && #[trigger] are_weights(kernels, scores, b) ==> a == b
    &&& forall|scores: Seq<T>, a: Seq<T>| #[trigger]
        are_weights(kernels, scores, a) ==> a.len() == scores.len()
    &&& forall|x: T, y: T, z: T, a: T, b: T| #[trigger]
        call_ensures(K::mixed, (&kernels, x, y, z), a) && #[trigger] call_ensures(
            K::mixed,
            (&kernels, x, y, z),
            b,
        ) ==> a == b
    &&& forall|x: T, y: T, a: T, b: T| #[trigger]
        call_ensures(K::gated, (&kernels, x, y), a) && #[trigger] call_ensures(
            K::gated,
            (&kernels, x, y),
            b,
        ) ==> a == b
}

/// A backend of kernels that are functions.
pub struct Backend<T: Copy, K: Kernels<T>> {
    kernels: K,
    values: core::marker::PhantomData<T>,
}

impl<T: Copy, K: Kernels<T>> Backend<T, K> {
    /// The kernels are functions.
    #[verifier::type_invariant]
    closed spec fn sound(self) -> bool {
        lawful::<T, K>(self.kernels)
    }

    /// The kernels of the backend.
    pub closed spec fn source(self) -> K {
        self.kernels
    }

    /// Makes a backend of kernels that are functions.
    pub fn new(kernels: K) -> (backend: Backend<T, K>)
        requires
            lawful::<T, K>(kernels),
        ensures
            backend.source() == kernels,
    {
        Backend { kernels, values: core::marker::PhantomData }
    }
}

impl<T: Copy, K: Kernels<T>> KernelBackend<T> for Backend<T, K> {
    closed spec fn label(&self) -> (Seq<char>, usize) {
        choose|r: (Seq<char>, usize)| is_label(self.kernels, r)
    }

    closed spec fn zero_value(&self) -> T {
        choose|r: T| call_ensures(K::zero, (&self.kernels,), r)
    }

    closed spec fn decoded(&self, code: ElementCode) -> T {
        choose|r: T| call_ensures(K::decode, (&self.kernels, code), r)
    }

    closed spec fn row_product(&self, row: Seq<u8>, ty: QuantType, input: Seq<T>) -> T {
        choose|r: T| is_product(self.kernels, row, ty, input, r)
    }

    closed spec fn added(&self, a: T, b: T) -> T {
        choose|r: T| call_ensures(K::added, (&self.kernels, a, b), r)
    }

    closed spec fn normed(&self, hidden: Seq<T>, weight: Seq<T>, eps: Single) -> Seq<T> {
        let factor = choose|r: T| is_norm_factor(self.kernels, hidden, eps, r);
        Seq::new(
            weight.len(),
            |i: int|
                choose|r: T|
                    call_ensures(K::normed, (&self.kernels, hidden[i], factor, weight[i]), r),
        )
    }

    closed spec fn frequency_of(&self, theta: Single, i: usize, head_dim: usize) -> T {
        choose|r: T| call_ensures(K::frequency, (&self.kernels, theta, i, head_dim), r)
    }

    closed spec fn angle_cos(&self, pos: usize, frequency: T) -> T {
        (choose|r: (T, T)| call_ensures(K::angle, (&self.kernels, pos, frequency), r)).0
    }

    closed spec fn angle_sin(&self, pos: usize, frequency: T) -> T {
        (choose|r: (T, T)| call_ensures(K::angle, (&self.kernels, pos, frequency), r)).1
    }

    closed spec fn turned_first(&self, a: T, b: T, cos: T, sin: T) -> T {
        (choose|r: (T, T)| call_ensures(K::turned, (&self.kernels, a, b, cos, sin), r)).0
    }

    closed spec fn turned_second(&self, a: T, b: T, cos: T, sin: T) -> T {
        (choose|r: (T, T)| call_ensures(K::turned, (&self.kernels, a, b, cos, sin), r)).1
    }

    closed spec fn score_of(&self, query: Seq<T>, key: Seq<T>) -> T {
        choose|r: T| is_score(self.kernels, query, key, r)
    }

    closed spec fn weights_of(&self, scores: Seq<T>) -> Seq<T> {
        choose|r: Seq<T>| are_weights(self.kernels, scores, r)
    }

    closed spec fn mixed(&self, sum: T, value: T, weight: T) -> T {
        choose|r: T| call_ensures(K::mixed, (&self.kernels, sum, value, weight), r)
    }

    closed spec fn gated(&self, gate: T, up: T) -> T {
        choose|r: T| call_ensures(K::gated, (&self.kernels, gate, up), r)
    }

    fn name(&self) -> (name: &'static str) {
        proof {
            use_type_invariant(self);
            reveal(lawful);
        }
        let threads: usize = self.kernels.threads();
        let name = self.kernels.name();
        assert(is_label(self.kernels, (name@, threads)));
        name
    }

    fn threads(&self) -> (threads: usize) {
        proof {
            use_type_invariant(self);
            reveal(lawful);
        }
        let name = self.kernels.name();
        let threads: usize = self.kernels.threads();
        assert(is_label(self.kernels, (name@, threads)));
        threads
    }

    fn zero(&self) -> (r: T) {
        proof {
            use_type_invariant(self);
            reveal(lawful);
        }
        self.kernels.zero()
    }

    fn decode(&self, code: ElementCode) -> (r: T) {
        proof {
            use_type_invariant(self);
            reveal(lawful);
        }
        self.kernels.decode(code)
    }

    fn matvec(&self, weight: &QuantTensor, input: &[T], output: &mut Vec<T>, at: usize) {
        let products = self.kernels.products(weight, input);
        proof {
            use_type_invariant(self);
            reveal(lawful);
            assert(gives_products(self.kernels, weight, input, products));
            assert forall|r: int| 0 <= r < weight.n_rows() implies #[trigger] products@[r]
                == self.row_product(weight.row_seq(r), weight.quant_type, input@) by {
                assert(is_product(
                    self.kernels,
                    weight.row_seq(r),
                    weight.quant_type,
                    input@,
                    products@[r],
                ));
            }
        }
        cache::write_at(output, at, products.as_slice());
        assert(products@ =~= Seq::new(
            weight.n_rows() as nat,
            |r: int| self.row_product(weight.row_seq(r), weight.quant_type, input@),
        ));
    }

    fn add_into(&self, dst: &mut Vec<T>, at: usize, src: &[T]) {
        let ghost before = dst@;
        let total: usize = dst.len();
        for i in 0..src.len()
            invariant
                at + src@.len() <= before.len(),
                dst@.len() == before.len(),
                total == before.len(),
                forall|k: int|
                    0 <= k < before.len() ==> #[trigger] dst@[k] == (if at <= k < at + i {
                        self.added(before[k], src@[k - at])
                    } else {
                        before[k]
                    }),
        {
            let sum = self.added_value(dst[at + i], src[i]);
            dst.set(at + i, sum);
        }
        assert(dst@ =~= cache::splice(
            before,
            at as int,
            Seq::new(src@.len(), |i: int| self.added(before[at + i], src@[i])),
        ));
    }

    fn rmsnorm(&self, hidden: &mut Vec<T>, at: usize, weight: &[T], eps: Single) {
        let ghost before = hidden@;
        let total: usize = hidden.len();
        let n: usize = weight.len();
        let ghost part = before.subrange(at as int, at + n);
        let factor = self.norm_factor_of(
            vstd::slice::slice_subrange(hidden.as_slice(), at, at + n),
            eps,
        );
        for i in 0..n
            invariant
                n == weight@.len(),
                at + n <= before.len(),
                part == before.subrange(at as int, at + n),
                hidden@.len() == before.len(),
                total == before.len(),
                factor == self.factor(part, eps),
                forall|k: int|
                    0 <= k < before.len() ==> #[trigger] hidden@[k] == (if at <= k < at + i {
                        self.normed_one(before[k], factor, weight@[k - at])
                    } else {
                        before[k]
                    }),
        {
            let value = self.normed_value(hidden[at + i], factor, weight[i]);
            hidden.set(at + i, value);
        }
        assert(hidden@ =~= cache::splice(before, at as int, self.normed(part, weight@, eps)));
    }

    fn frequency(&self, theta: Single, i: usize, head_dim: usize) -> (r: T) {
        proof {
            use_type_invariant(self);
            reveal(lawful);
        }
        self.kernels.frequency(theta, i, head_dim)
    }

    fn angle(&self, pos: usize, frequency: T) -> (r: (T, T)) {
        proof {
            use_type_invariant(self);
            reveal(lawful);
        }
        self.kernels.angle(pos, frequency)
    }

    fn rope(&self, x: &mut Vec<T>, at: usize, cos: &[T], sin: &[T]) {
        let ghost before = x@;
        let total: usize = x.len();
        let n: usize = cos.len();
        for i in 0..n
            invariant
                n == cos@.len(),
                n == sin@.len(),
                at + 2 * n <= before.len(),
                x@.len() == before.len(),
                total == before.len(),
                forall|k: int|
                    0 <= k < before.len() ==> #[trigger] x@[k] == (if at <= k < at + i {
                        self.turned_first(before[k], before[k + n], cos@[k - at], sin@[k - at])
                    } else if at + n <= k < at + n + i {
                        self.turned_second(
                            before[k - n],
                            before[k],
                            cos@[k - at - n],
                            sin@[k - at - n],
                        )
                    } else {
                        before[k]
                    }),
        {
            let (a, b) = self.turned_pair(x[at + i], x[at + i + n], cos[i], sin[i]);
            x.set(at + i, a);
            x.set(at + i + n, b);
        }
        assert(x@ =~= cache::splice(
            before,
            at as int,
            Seq::new(
                2 * cos@.len(),
                |i: int|
                    if i < cos@.len() {
                        self.turned_first(
                            before[at + i],
                            before[at + i + cos@.len()],
                            cos@[i],
                            sin@[i],
                        )
                    } else {
                        self.turned_second(
                            before[at + i - cos@.len()],
                            before[at + i],
                            cos@[i - cos@.len()],
                            sin@[i - cos@.len()],
                        )
                    },
            ),
        ));
    }

    fn score(&self, query: &[T], key: &[T]) -> (r: T) {
        proof {
            use_type_invariant(self);
            reveal(lawful);
        }
        let r = self.kernels.score(query, key);
        assert(is_score(self.kernels, query@, key@, r));
        r
    }

    fn softmax(&self, values: &mut Vec<T>, at: usize, len: usize) {
        let total: usize = values.len();
        let ghost part = values@.subrange(at as int, at + len);
        let weights = self.kernels.weights(
            vstd::slice::slice_subrange(values.as_slice(), at, at + len),
        );
        proof {
            use_type_invariant(self);
            reveal(lawful);
            assert(are_weights(self.kernels, part, weights@));
        }
        cache::write_at(values, at, weights.as_slice());
    }

    fn mad(&self, dst: &mut Vec<T>, at: usize, src: &[T], weight: T) {
        let ghost before = dst@;
        let total: usize = dst.len();
        for i in 0..src.len()
            invariant
                at + src@.len() <= before.len(),
                dst@.len() == before.len(),
                total == before.len(),
                forall|k: int|
                    0 <= k < before.len() ==> #[trigger] dst@[k] == (if at <= k < at + i {
                        self.mixed(before[k], src@[k - at], weight)
                    } else {
                        before[k]
                    }),
        {
            let sum = self.mixed_value(dst[at + i], src[i], weight);
            dst.set(at + i, sum);
        }
        assert(dst@ =~= cache::splice(
            before,
            at as int,
            Seq::new(src@.len(), |i: int| self.mixed(before[at + i], src@[i], weight)),
        ));
    }

    fn swiglu(&self, gate: &mut Vec<T>, at: usize, up: &[T]) {
        let ghost before = gate@;
        let total: usize = gate.len();
        for i in 0..up.len()
            invariant
                at + up@.len() <= before.len(),
                gate@.len() == before.len(),
                total == before.len(),
                forall|k: int|
                    0 <= k < before.len() ==> #[trigger] gate@[k] == (if at <= k < at + i {
                        self.gated(before[k], up@[k - at])
                    } else {
                        before[k]
                    }),
        {
            let value = self.gated_value(gate[at + i], up[i]);
            gate.set(at + i, value);
        }
        assert(gate@ =~= cache::splice(
            before,
            at as int,
            Seq::new(up@.len(), |i: int| self.gated(before[at + i], up@[i])),
        ));
    }
}

impl<T: Copy, K: Kernels<T>> Backend<T, K> {
    spec fn factor(&self, hidden: Seq<T>, eps: Single) -> T {
        choose|r: T| is_norm_factor(self.kernels, hidden, eps, r)
    }

    spec fn normed_one(&self, value: T, factor: T, weight: T) -> T {
        choose|r: T| call_ensures(K::normed, (&self.kernels, value, factor, weight), r)
    }

    fn added_value(&self, a: T, b: T) -> (r: T)
        ensures
            r == self.added(a, b),
    {
        proof {
            use_type_invariant(self);
            reveal(lawful);
        }
        self.kernels.added(a, b)
    }

    fn norm_factor_of(&self, hidden: &[T], eps: Single) -> (r: T)
        ensures
            r == self.factor(hidden@, eps),
    {
        proof {
            use_type_invariant(self);
            reveal(lawful);
        }
        let r = self.kernels.norm_factor(hidden, eps);
        assert(is_norm_factor(self.kernels, hidden@, eps, r));
        r
    }

    fn normed_value(&self, value: T, factor: T, weight: T) -> (r: T)
        ensures
            r == self.normed_one(value, factor, weight),
    {
        proof {
            use_type_invariant(self);
            reveal(lawful);
        }
        self.kernels.normed(value, factor, weight)
    }

    fn turned_pair(&self, a: T, b: T, cos: T, sin: T) -> (r: (T, T))
        ensures
            r.0 == self.turned_first(a, b, cos, sin),
            r.1 == self.turned_second(a, b, cos, sin),
    {
        proof {
            use_type_invariant(self);
            reveal(lawful);
        }
        self.kernels.turned(a, b, cos, sin)
    }

    fn mixed_value(&self, sum: T, value: T, weight: T) -> (r: T)
        ensures
            r == self.mixed(sum, value, weight),
    {
        proof {
            use_type_invariant(self);
            reveal(lawful);
        }
        self.kernels.mixed(sum, value, weight)
    }

    fn gated_value(&self, gate: T, up: T) -> (r: T)
        ensures
            r == self.gated(gate, up),
    {
        proof {
            use_type_invariant(self);
            reveal(lawful);
        }
        self.kernels.gated(gate, up)
    }
}

/// What a backend of kernels computes is what the kernels give.
pub proof fn backends_compute_with_their_kernels<T: Copy, K: Kernels<T>>(backend: Backend<T, K>)
    requires
        lawful::<T, K>(backend.source()),
    ensures
        forall|r: T| #[trigger]
            call_ensures(K::zero, (&backend.source(),), r) ==> r == backend.zero_value(),
        forall|code: ElementCode, r: T| #[trigger]
            call_ensures(K::decode, (&backend.source(), code), r) ==> r == backend.decoded(code),
        forall|row: Seq<u8>, ty: QuantType, input: Seq<T>, r: T| #[trigger]
            is_product(backend.source(), row, ty, input, r) ==> r == backend.row_product(
                row,
                ty,
                input,
            ),
        forall|a: T, b: T, r: T| #[trigger]
            call_ensures(K::added, (&backend.source(), a, b), r) ==> r == backend.added(a, b),
        forall|query: Seq<T>, key: Seq<T>, r: T| #[trigger]
            is_score(backend.source(), query, key, r) ==> r == backend.score_of(query, key),
        forall|scores: Seq<T>, r: Seq<T>| #[trigger]
            are_weights(backend.source(), scores, r) ==> r == backend.weights_of(scores),
        forall|sum: T, value: T, weight: T, r: T| #[trigger]
            call_ensures(K::mixed, (&backend.source(), sum, value, weight), r) ==> r
                == backend.mixed(sum, value, weight),
        forall|gate: T, up: T, r: T| #[trigger]
            call_ensures(K::gated, (&backend.source(), gate, up), r) ==> r == backend.gated(
                gate,
                up,
            ),
{
    reveal(lawful);
}

/// Whatever a kernel gives when it is called is what the backend computes with: one product for each
/// row, the factor of a normalisation and the values that it makes, the two halves of an angle and
/// of a rotated pair, each in its place.
#[verifier::spinoff_prover]
#[verifier::rlimit(40)]
pub proof fn kernel_results_are_the_backends<T: Copy, K: Kernels<T>>(backend: Backend<T, K>)
    requires
        lawful::<T, K>(backend.source()),
    ensures
        forall|weight: &QuantTensor, x: &[T], out: Vec<T>, r: int|
            #![trigger call_ensures(K::products, (&backend.source(), weight, x), out), out@[r]]
            call_ensures(K::products, (&backend.source(), weight, x), out) && weight.valid()
                && x@.len() == weight.n_cols() && 0 <= r < weight.n_rows() ==> out@[r]
                == backend.row_product(weight.row_seq(r), weight.quant_type, x@),
        forall|query: &[T], key: &[T], r: T| #[trigger]
            call_ensures(K::score, (&backend.source(), query, key), r) ==> r == backend.score_of(
                query@,
                key@,
            ),
        forall|scores: &[T], r: Vec<T>| #[trigger]
            call_ensures(K::weights, (&backend.source(), scores), r) ==> r@ == backend.weights_of(
                scores@,
            ),
        forall|theta: Single, i: usize, n: usize, r: T| #[trigger]
            call_ensures(K::frequency, (&backend.source(), theta, i, n), r) ==> r
                == backend.frequency_of(theta, i, n),
        forall|pos: usize, frequency: T, r: (T, T)| #[trigger]
            call_ensures(K::angle, (&backend.source(), pos, frequency), r) ==> r == (
                backend.angle_cos(pos, frequency),
                backend.angle_sin(pos, frequency),
            ),
        forall|a: T, b: T, cos: T, sin: T, r: (T, T)| #[trigger]
            call_ensures(K::turned, (&backend.source(), a, b, cos, sin), r) ==> r == (
                backend.turned_first(a, b, cos, sin),
                backend.turned_second(a, b, cos, sin),
            ),
        forall|hidden: &[T], weight: Seq<T>, eps: Single, factor: T, i: int, r: T|
            #![trigger call_ensures(K::norm_factor, (&backend.source(), hidden, eps), factor), call_ensures(K::normed, (&backend.source(), hidden@[i], factor, weight[i]), r)]
            call_ensures(K::norm_factor, (&backend.source(), hidden, eps), factor) && call_ensures(
                K::normed,
                (&backend.source(), hidden@[i], factor, weight[i]),
                r,
            ) && 0 <= i < weight.len() ==> r == backend.normed(hidden@, weight, eps)[i],
        forall|name: &'static str, threads: usize|
            #![trigger call_ensures(K::name, (&backend.source(),), name), call_ensures(K::threads, (&backend.source(),), threads)]
            call_ensures(K::name, (&backend.source(),), name) && call_ensures(
                K::threads,
                (&backend.source(),),
                threads,
            ) ==> backend.label() == (name@, threads),
{
    reveal(lawful);
    let source = backend.source();
    assert forall|weight: &QuantTensor, x: &[T], out: Vec<T>, r: int|
        #![trigger call_ensures(K::products, (&backend.source(), weight, x), out), out@[r]]
        call_ensures(K::products, (&backend.source(), weight, x), out) && weight.valid() && x@.len()
            == weight.n_cols() && 0 <= r < weight.n_rows() implies out@[r] == backend.row_product(
        weight.row_seq(r),
        weight.quant_type,
        x@,
    ) by {
        assert(gives_products(source, weight, x, out));
        assert(is_product(source, weight.row_seq(r), weight.quant_type, x@, out@[r]));
    }
    assert forall|query: &[T], key: &[T], r: T| #[trigger]
        call_ensures(K::score, (&backend.source(), query, key), r) implies r == backend.score_of(
        query@,
        key@,
    ) by {
        assert(is_score(source, query@, key@, r));
    }
    assert forall|scores: &[T], r: Vec<T>| #[trigger]
        call_ensures(K::weights, (&backend.source(), scores), r) implies r@ == backend.weights_of(
        scores@,
    ) by {
        assert(are_weights(source, scores@, r@));
    }
    assert forall|hidden: &[T], weight: Seq<T>, eps: Single, factor: T, i: int, r: T|
        #![trigger call_ensures(K::norm_factor, (&backend.source(), hidden, eps), factor), call_ensures(K::normed, (&backend.source(), hidden@[i], factor, weight[i]), r)]
        call_ensures(K::norm_factor, (&backend.source(), hidden, eps), factor) && call_ensures(
            K::normed,
            (&backend.source(), hidden@[i], factor, weight[i]),
            r,
        ) && 0 <= i < weight.len() implies r == backend.normed(hidden@, weight, eps)[i] by {
        assert(is_norm_factor(source, hidden@, eps, factor));
    }
    assert forall|name: &'static str, threads: usize|
        #![trigger call_ensures(K::name, (&backend.source(),), name), call_ensures(K::threads, (&backend.source(),), threads)]
        call_ensures(K::name, (&backend.source(),), name) && call_ensures(
            K::threads,
            (&backend.source(),),
            threads,
        ) implies backend.label() == (name@, threads) by {
        assert(is_label(source, (name@, threads)));
    }
}

} // verus!
