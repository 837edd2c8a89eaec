//! Measurements of one inference, and the choice of the round to report.

use vstd::prelude::*;

verus! {

/// What one inference took. Durations are in nanoseconds.
#[derive(Clone, Copy, Debug, PartialEq, Eq, Structural)]
pub struct InferenceMetrics {
    pub prompt_tokens: usize,
    pub generated_tokens: usize,
    pub prefill: u64,
    pub decode: u64,
}

impl Default for InferenceMetrics {
    fn default() -> (metrics: InferenceMetrics)
        ensures
            metrics == (InferenceMetrics {
                prompt_tokens: 0,
                generated_tokens: 0,
                prefill: 0,
                decode: 0,
            }),
    {
        InferenceMetrics { prompt_tokens: 0, generated_tokens: 0, prefill: 0, decode: 0 }
    }
}

/// A generated text with its tokens and measurements.
#[derive(Debug)]
pub struct GenerationOutput {
    pub text: String,
    pub token_ids: Vec<u32>,
    pub metrics: InferenceMetrics,
}

/// The time of a whole round.
pub open spec fn total_time(metrics: InferenceMetrics) -> int {
    metrics.prefill + metrics.decode
}

/// Round `j` comes before round `i` when the rounds are sorted by time, equal ones in their order.
pub open spec fn comes_before(rounds: Seq<InferenceMetrics>, j: int, i: int) -> bool {
    total_time(rounds[j]) < total_time(rounds[i]) || (total_time(rounds[j]) == total_time(rounds[i])
        && j < i)
}

/// How many of the first `n` rounds come before round `i`.
pub open spec fn rank(rounds: Seq<InferenceMetrics>, i: int, n: int) -> int
    decreases n,
{
    if n <= 0 {
        0
    } else {
        rank(rounds, i, n - 1) + (if comes_before(rounds, n - 1, i) {
            1int
        } else {
            0
        })
    }
}

/// How many rounds come before round `i`.
spec fn rank_of(rounds: Seq<InferenceMetrics>, i: int) -> int {
    rank(rounds, i, rounds.len() as int)
}

/// A rank counts no more rounds than there are.
proof fn lemma_rank_bound(rounds: Seq<InferenceMetrics>, i: int, n: int)
    requires
        0 <= n,
    ensures
        0 <= rank(rounds, i, n) <= n,
    decreases n,
{
    if n > 0 {
        lemma_rank_bound(rounds, i, n - 1);
    }
}

/// A round that comes before another has the smaller rank.
proof fn lemma_rank_grows(rounds: Seq<InferenceMetrics>, i: int, j: int, n: int)
    requires
        0 <= i < rounds.len(),
        0 <= j < rounds.len(),
        comes_before(rounds, i, j),
        0 <= n <= rounds.len(),
    ensures
        rank(rounds, i, n) <= rank(rounds, j, n),
        i < n ==> rank(rounds, i, n) < rank(rounds, j, n),
    decreases n,
{
    if n > 0 {
        lemma_rank_grows(rounds, i, j, n - 1);
    }
}

/// Some round has the middle rank.
proof fn lemma_median_exists(rounds: Seq<InferenceMetrics>)
    requires
        rounds.len() > 0,
    ensures
        exists|i: int| 0 <= i < rounds.len() && rank_of(rounds, i) == rounds.len() / 2,
{
    let n = rounds.len();
    let all = Seq::new(n, |i: int| rank_of(rounds, i));
    assert forall|i: int, j: int| 0 <= i < n && 0 <= j < n && i != j implies #[trigger] all[i]
        != #[trigger] all[j] by {
        if comes_before(rounds, i, j) {
            lemma_rank_grows(rounds, i, j, n as int);
        } else {
            lemma_rank_grows(rounds, j, i, n as int);
        }
    }
    assert forall|i: int| 0 <= i < n implies 0 <= #[trigger] all[i] < n by {
        lemma_rank_bound(rounds, i, n as int);
        lemma_rank_below(rounds, i, n as int);
    }
    assert(all.no_duplicates());
    let hit = all.to_set();
    let range = vstd::set_lib::set_int_range(0, n as int);
    vstd::set_lib::lemma_int_range(0, n as int);
    all.unique_seq_to_set();
    assert(hit.subset_of(range)) by {
        assert forall|x: int| hit.contains(x) implies range.contains(x) by {
            let i = choose|i: int| 0 <= i < n && all[i] == x;
            assert(all[i] == x);
        }
    }
    vstd::set_lib::lemma_subset_equality(hit, range);
    assert(hit.contains((n / 2) as int));
    let i = choose|i: int| 0 <= i < n && all[i] == (n / 2) as int;
    assert(rank_of(rounds, i) == n / 2);
}

/// A round does not come before itself, so its rank is below the number of rounds.
proof fn lemma_rank_below(rounds: Seq<InferenceMetrics>, i: int, n: int)
    requires
        0 <= i < n <= rounds.len(),
    ensures
        rank(rounds, i, n) < n,
    decreases n,
{
    if i < n - 1 {
        lemma_rank_below(rounds, i, n - 1);
    } else {
        lemma_rank_bound(rounds, i, n - 1);
    }
}

/// Finds the median round: the one in the middle when the rounds are sorted by their whole time.
pub fn median_round(rounds: &[InferenceMetrics]) -> (at: usize)
    requires
        rounds@.len() > 0,
    ensures
        at < rounds@.len(),
        rank(rounds@, at as int, rounds@.len() as int) == rounds@.len() / 2,
{
    let n: usize = rounds.len();
    for i in 0..n
        invariant
            n == rounds@.len(),
            n > 0,
            forall|k: int| 0 <= k < i ==> #[trigger] rank_of(rounds@, k) != rounds@.len() / 2,
    {
        let mut count: usize = 0;
        let mine: u128 = rounds[i].prefill as u128 + rounds[i].decode as u128;
        for j in 0..n
            invariant
                n == rounds@.len(),
                i < n,
                mine == total_time(rounds@[i as int]),
                count == rank(rounds@, i as int, j as int),
                count <= j,
        {
            let other: u128 = rounds[j].prefill as u128 + rounds[j].decode as u128;
            if other < mine || (other == mine && j < i) {
                count = count + 1;
            }
        }
        if count == n / 2 {
            return i;
        }
        assert(rank_of(rounds@, i as int) != rounds@.len() / 2);
    }
    proof {
        lemma_median_exists(rounds@);
        let k = choose|k: int| 0 <= k < rounds@.len() && rank_of(rounds@, k) == rounds@.len() / 2;
        assert(rank_of(rounds@, k) != rounds@.len() / 2);
    }
    0
}

/// A prompt of `n` tokens that repeats the given ones.
pub fn repeated_prompt(seed: &[u32], n: usize) -> (prompt: Vec<u32>)
    requires
        seed@.len() > 0,
    ensures
        prompt@ == Seq::new(n as nat, |i: int| seed@[i % seed@.len() as int]),
{
    let len: usize = seed.len();
    let mut prompt: Vec<u32> = Vec::new();
    for k in 0..n
        invariant
            len == seed@.len(),
            len > 0,
            prompt@ == Seq::new(k as nat, |i: int| seed@[i % seed@.len() as int]),
    {
        prompt.push(seed[k % len]);
        assert(prompt@ =~= Seq::new((k + 1) as nat, |i: int| seed@[i % seed@.len() as int]));
    }
    prompt
}

/// How many of the first rounds are faster than a time, and how many are no slower.
proof fn lemma_rank_between(rounds: Seq<InferenceMetrics>, i: int, n: int)
    requires
        0 <= i < rounds.len(),
        0 <= n <= rounds.len(),
    ensures
        ({
            let time = rounds[i].prefill + rounds[i].decode;
            let first = rounds.take(n);
            &&& first.filter(|r: InferenceMetrics| r.prefill + r.decode < time).len() <= rank(
                rounds,
                i,
                n,
            )
            &&& rank(rounds, i, n) + (if i < n {
                1int
            } else {
                0
            }) <= first.filter(|r: InferenceMetrics| r.prefill + r.decode <= time).len()
        }),
    decreases n,
{
    reveal(Seq::filter);
    if n > 0 {
        lemma_rank_between(rounds, i, n - 1);
        assert(rounds.take(n).drop_last() =~= rounds.take(n - 1));
        assert(rounds.take(n).last() == rounds[n - 1]);
    }
}

/// The median splits the rounds: no more than half of them took less time, prefill and decoding
/// together, and more than half took no more.
pub proof fn the_median_splits_the_rounds(rounds: Seq<InferenceMetrics>, at: int)
    requires
        0 <= at < rounds.len(),
        rank(rounds, at, rounds.len() as int) == rounds.len() / 2,
    ensures
        ({
            let time = rounds[at].prefill + rounds[at].decode;
            &&& rounds.filter(|r: InferenceMetrics| r.prefill + r.decode < time).len()
                <= rounds.len() / 2
            &&& rounds.filter(|r: InferenceMetrics| r.prefill + r.decode <= time).len()
                > rounds.len() / 2
        }),
{
    lemma_rank_between(rounds, at, rounds.len() as int);
    assert(rounds.take(rounds.len() as int) =~= rounds);
}

} // verus!
