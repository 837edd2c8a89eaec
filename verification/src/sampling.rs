//! Choosing the next token from the logits.

use crate::float::Single;
use vstd::prelude::*;

verus! {

/// How tokens are sampled.
#[derive(Clone, Copy, Debug, PartialEq, Eq, Structural)]
pub struct Sampling {
    /// Zero means greedy decoding.
    pub temperature: Single,
    pub top_p: Single,
    /// Zero means all tokens.
    pub top_k: usize,
    pub repetition_penalty: Single,
}

/// What is wrong with sampling options.
#[derive(Clone, Copy, Debug, PartialEq, Eq, Structural)]
pub enum SamplingError {
    /// The temperature must be finite and not negative.
    Temperature,
    /// The nucleus must be above zero and at most one.
    TopP,
    /// The repetition penalty must be finite and positive.
    RepetitionPenalty,
}

impl Sampling {
    /// What the options are refused for.
    pub open spec fn fault(self) -> Option<SamplingError> {
        if !self.temperature.finite() || (self.temperature.at_most_zero()
            && self.temperature.bits % 0x8000_0000 != 0) {
            Some(SamplingError::Temperature)
        } else if !(self.top_p.positive() && self.top_p.bits <= 0x3f80_0000) {
            Some(SamplingError::TopP)
        } else if !self.repetition_penalty.positive() {
            Some(SamplingError::RepetitionPenalty)
        } else {
            None
        }
    }

    /// Checks the options.
    pub fn validate(self) -> (result: Result<(), SamplingError>)
        ensures
            result == (match self.fault() {
                Some(e) => Err::<(), SamplingError>(e),
                None => Ok::<(), SamplingError>(()),
            }),
    {
        if !self.temperature.is_finite() || (self.temperature.is_at_most_zero()
            && self.temperature.bits % 0x8000_0000 != 0) {
            return Err(SamplingError::Temperature);
        }
        if !self.top_p.is_positive_finite() || self.top_p.bits > 0x3f80_0000 {
            return Err(SamplingError::TopP);
        }
        if !self.repetition_penalty.is_positive_finite() {
            return Err(SamplingError::RepetitionPenalty);
        }
        Ok(())
    }

    /// How many of `n` ranked tokens stay.
    pub open spec fn kept(self, n: int) -> int {
        if 0 < self.top_k < n {
            self.top_k as int
        } else {
            n
        }
    }
}

/// The arithmetic of sampling and its randomness. Nothing is presumed of the results: sampling is
/// verified whatever they are.
pub trait SamplingMath<T: Copy> {
    /// Zero.
    fn zero(&self) -> T;

    /// The bit pattern of a value in single precision.
    fn bits(&self, value: T) -> Single;

    /// A logit after the repetition penalty: a positive one is divided, another one multiplied.
    fn penalised(&self, value: T, penalty: Single) -> T;

    /// A logit divided by the temperature.
    fn scaled(&self, value: T, temperature: Single) -> T;

    /// The value itself where it is finite, negative infinity otherwise.
    fn cleaned(&self, value: T) -> T;

    /// The exponential of a logit's distance to the largest one.
    fn exponential(&self, value: T, max: T) -> T;

    /// A running sum with one value more.
    fn total(&self, sum: T, value: T) -> T;

    /// Decides whether a sum of weights is finite and positive.
    fn usable(&self, sum: T) -> bool;

    /// A weight's share of the sum of weights.
    fn share(&self, weight: T, sum: T) -> T;

    /// Decides whether a sum of shares reaches the nucleus.
    fn reaches(&self, sum: T, top_p: Single) -> bool;

    /// A random number between zero and `sum`.
    fn draw(&self, sum: T) -> T;

    /// What is left of a random number after a share.
    fn spend(&self, left: T, share: T) -> T;

    /// Decides whether nothing is left of a random number.
    fn spent(&self, left: T) -> bool;
}

/// The token is among the given ones.
pub open spec fn is_recent(recent: Seq<u32>, token: int) -> bool {
    exists|k: int| 0 <= k < recent.len() && #[trigger] recent[k] == token
}

/// The bit pattern of one.
pub const ONE: u32 = 0x3f80_0000;

/// `value` is what the options make of a logit; a token that occurred recently is penalised.
pub open spec fn adjusts<T: Copy, M: SamplingMath<T>>(
    math: M,
    options: Sampling,
    raw: T,
    seen: bool,
    value: T,
) -> bool {
    exists|penalised: T, scaled: T|
        {
            &&& if seen && options.repetition_penalty.bits != ONE {
                call_ensures(
                    M::penalised,
                    (&math, raw, options.repetition_penalty),
                    penalised,
                )
            } else {
                penalised == raw
            }
            &&& if options.temperature.above_zero() {
                call_ensures(M::scaled, (&math, penalised, options.temperature), scaled)
            } else {
                scaled == penalised
            }
            &&& #[trigger] cleans(math, penalised, scaled, value)
        }
}

/// `value` is the cleaned form of `scaled`.
pub open spec fn cleans<T: Copy, M: SamplingMath<T>>(math: M, penalised: T, scaled: T, value: T) -> bool {
    call_ensures(M::cleaned, (&math, scaled), value)
}

/// `order` lists all positions, each once, the largest keys first.
pub open spec fn ranking(bits: Seq<Single>, order: Seq<usize>) -> bool {
    &&& order.len() == bits.len()
    &&& order.no_duplicates()
    &&& forall|i: int| 0 <= i < order.len() ==> #[trigger] order[i] < bits.len()
    &&& forall|i: int, j: int|
        0 <= i < j < order.len() ==> bits[#[trigger] order[i] as int].order()
            >= bits[#[trigger] order[j] as int].order()
}

/// The running sums of some values, from zero on.
pub open spec fn running<T: Copy, M: SamplingMath<T>>(math: M, values: Seq<T>, sums: Seq<T>) -> bool {
    &&& sums.len() == values.len() + 1
    &&& call_ensures(M::zero, (&math,), sums[0])
    &&& forall|i: int|
        0 <= i < values.len() ==> call_ensures(
            M::total,
            (&math, sums[i], #[trigger] values[i]),
            sums[i + 1],
        )
}

/// One way of sampling a token: every value that was computed on the way.
pub struct Run<T> {
    /// The logits after penalty and temperature, and their bit patterns.
    pub values: Seq<T>,
    pub bits: Seq<Single>,
    /// The tokens, the likeliest first.
    pub order: Seq<usize>,
    /// The weights of those that stay, their running sums, and whether the sum can be used.
    pub weights: Seq<T>,
    pub sums: Seq<T>,
    pub usable: bool,
    /// The shares of those that stay, and their running sums up to the nucleus.
    pub shares: Seq<T>,
    pub cumulative: Seq<T>,
    /// What is left of the random number after each token.
    pub left: Seq<T>,
}

impl<T: Copy> Run<T> {
    /// The values are those of the logits, and the tokens are ranked by them.
    pub open spec fn ranks<M: SamplingMath<T>>(
        self,
        math: M,
        options: Sampling,
        logits: Seq<T>,
        recent: Seq<u32>,
    ) -> bool {
        &&& self.values.len() == logits.len()
        &&& self.bits.len() == logits.len()
        &&& forall|i: int|
            0 <= i < logits.len() ==> adjusts(
                math,
                options,
                #[trigger] logits[i],
                is_recent(recent, i),
                self.values[i],
            ) && call_ensures(M::bits, (&math, self.values[i]), self.bits[i])
        &&& ranking(self.bits, self.order)
    }

    /// The first `n` tokens are weighed.
    pub open spec fn weighs<M: SamplingMath<T>>(self, math: M, n: int) -> bool {
        &&& self.weights.len() == n
        &&& forall|i: int|
            0 <= i < n ==> call_ensures(
                M::exponential,
                (
                    &math,
                    self.values[self.order[i] as int],
                    self.values[self.order[0] as int],
                ),
                #[trigger] self.weights[i],
            )
        &&& running(math, self.weights, self.sums)
        &&& call_ensures(M::usable, (&math, self.sums[n]), self.usable)
    }

    /// The size of the nucleus.
    pub open spec fn cutoff(self) -> int {
        self.cumulative.len() - 1
    }

    /// The nucleus is the shortest start of the first `n` tokens whose shares reach it, or all of
    /// them.
    pub open spec fn cuts<M: SamplingMath<T>>(self, math: M, top_p: Single, n: int) -> bool {
        &&& self.shares.len() == n
        &&& forall|i: int|
            0 <= i < n ==> call_ensures(
                M::share,
                (&math, self.weights[i], self.sums[n]),
                #[trigger] self.shares[i],
            )
        &&& 1 <= self.cutoff() <= n
        &&& nucleus_run(math, top_p, self.shares, self.cumulative)
    }

    /// The random number is spent on the tokens of the nucleus, one after the other; the one that
    /// spends the rest is picked, or the last one.
    pub open spec fn picks<M: SamplingMath<T>>(self, math: M, pick: int) -> bool {
        &&& 0 <= pick < self.cutoff()
        &&& self.left.len() == pick + 2
        &&& call_ensures(M::draw, (&math, self.cumulative[self.cutoff()]), self.left[0])
        &&& spending_run(math, self.shares, self.cutoff(), self.left)
    }
}

/// The running sums of the shares of a nucleus: only the last one reaches it, unless none does.
pub open spec fn nucleus_run<T: Copy, M: SamplingMath<T>>(
    math: M,
    top_p: Single,
    shares: Seq<T>,
    cumulative: Seq<T>,
) -> bool {
    let cutoff = cumulative.len() - 1;
    &&& running(math, shares.take(cutoff), cumulative)
    &&& forall|i: int|
        1 <= i < cutoff ==> call_ensures(M::reaches, (&math, #[trigger] cumulative[i], top_p), false)
    &&& cutoff < shares.len() ==> call_ensures(M::reaches, (&math, cumulative[cutoff], top_p), true)
}

/// What is left of a random number after each token of a nucleus of `cutoff` tokens: only the last
/// one spends it, unless none does.
pub open spec fn spending_run<T: Copy, M: SamplingMath<T>>(
    math: M,
    shares: Seq<T>,
    cutoff: int,
    left: Seq<T>,
) -> bool {
    let pick = left.len() - 2;
    &&& forall|i: int|
        0 <= i <= pick ==> call_ensures(
            M::spend,
            (&math, left[i], #[trigger] shares[i]),
            left[i + 1],
        )
    &&& forall|i: int|
        1 <= i <= pick ==> call_ensures(M::spent, (&math, #[trigger] left[i]), false)
    &&& pick + 1 < cutoff ==> call_ensures(M::spent, (&math, left[pick + 1]), true)
}

/// `token` can be sampled from the logits: there is a run that leads to it. Greedy decoding, and a
/// sum of weights that cannot be used, give the first of the ranked tokens.
pub open spec fn sampled<T: Copy, M: SamplingMath<T>>(
    math: M,
    options: Sampling,
    logits: Seq<T>,
    recent: Seq<u32>,
    token: u32,
) -> bool {
    exists|run: Run<T>, pick: int| #[trigger]
        leads_to(math, options, logits, recent, run, pick) && token == run.order[pick] as u32
}

/// The run is one of the logits, and it picks the ranked token at `pick`.
pub open spec fn leads_to<T: Copy, M: SamplingMath<T>>(
    math: M,
    options: Sampling,
    logits: Seq<T>,
    recent: Seq<u32>,
    run: Run<T>,
    pick: int,
) -> bool {
    let n = options.kept(logits.len() as int);
    &&& 0 <= pick < logits.len()
    &&& run.ranks(math, options, logits, recent)
    &&& if options.temperature.at_most_zero() {
        pick == 0
    } else {
        &&& run.weighs(math, n)
        &&& if run.usable {
            run.cuts(math, options.top_p, n) && run.picks(math, pick)
        } else {
            pick == 0
        }
    }
}

/// Sorts pairs with `slice::sort_unstable`. Its documentation says that the slice is sorted in
/// ascending order, which for pairs of integers goes by the first component and then by the second;
/// the contract claims that, and that nothing is lost or added.
#[verifier::external_body]
fn sort_pairs(pairs: &mut Vec<(i64, usize)>)
    ensures
        final(pairs)@.to_multiset() == old(pairs)@.to_multiset(),
        forall|i: int, j: int|
            0 <= i < j < final(pairs)@.len() ==> {
                let (a, b) = (#[trigger] final(pairs)@[i], #[trigger] final(pairs)@[j]);
                a.0 < b.0 || a.0 == b.0 && a.1 <= b.1
            },
{
    pairs.sort_unstable();
}

/// Ranks values by their place in the total order, the largest first.
pub fn rank(bits: &[Single]) -> (order: Vec<usize>)
    ensures
        ranking(bits@, order@),
{
    let n: usize = bits.len();
    let mut pairs: Vec<(i64, usize)> = Vec::new();
    for i in 0..n
        invariant
            n == bits@.len(),
            pairs@.len() == i,
            forall|k: int|
                0 <= k < i ==> (#[trigger] pairs@[k]).0 == -bits@[k].order() && pairs@[k].1 == k,
    {
        pairs.push((-(bits[i].order_key() as i64), i));
    }
    let ghost before = pairs@;
    assert(before.no_duplicates());
    sort_pairs(&mut pairs);
    let ghost after = pairs@;
    proof {
        lemma_rearranged(before, after);
    }
    let mut order: Vec<usize> = Vec::new();
    for i in 0..n
        invariant
            n == bits@.len(),
            n == pairs@.len(),
            order@.len() == i,
            forall|k: int| 0 <= k < i ==> #[trigger] order@[k] == pairs@[k].1,
    {
        order.push(pairs[i].1);
    }
    proof {
        assert forall|i: int| 0 <= i < n implies #[trigger] order@[i] < n && bits@[order@[i] as int].order()
            == -after[i].0 by {
            assert(before.contains(after[i]));
        }
        assert forall|i: int, j: int| 0 <= i < n && 0 <= j < n && i != j implies order@[i]
            != order@[j] by {
            assert(before.contains(after[i]));
            assert(before.contains(after[j]));
            assert(after[i] != after[j]);
        }
        assert(order@.no_duplicates());
    }
    order
}

/// A rearranged sequence without duplicates has none either, and the same elements.
proof fn lemma_rearranged<A>(before: Seq<A>, after: Seq<A>)
    requires
        before.no_duplicates(),
        after.to_multiset() == before.to_multiset(),
    ensures
        after.len() == before.len(),
        after.no_duplicates(),
        forall|i: int| 0 <= i < after.len() ==> before.contains(#[trigger] after[i]),
{
    before.to_multiset_ensures();
    after.to_multiset_ensures();
    before.lemma_multiset_has_no_duplicates();
    after.lemma_multiset_has_no_duplicates_conv();
    assert forall|i: int| 0 <= i < after.len() implies before.contains(#[trigger] after[i]) by {
        assert(after.contains(after[i]));
        assert(after.to_multiset().count(after[i]) > 0);
    }
}

/// Sets the flags of the given tokens; a token without a flag is passed over.
fn mark(flags: &mut Vec<bool>, tokens: &[u32], value: bool)
    ensures
        final(flags)@ == Seq::new(
            old(flags)@.len(),
            |i: int|
                if is_recent(tokens@, i) {
                    value
                } else {
                    old(flags)@[i]
                },
        ),
{
    for k in 0..tokens.len()
        invariant
            flags@ == Seq::new(
                old(flags)@.len(),
                |i: int|
                    if is_recent(tokens@.take(k as int), i) {
                        value
                    } else {
                        old(flags)@[i]
                    },
            ),
    {
        let token = tokens[k];
        let ghost before = flags@;
        proof {
            assert forall|i: int| #[trigger] is_recent(tokens@.take(k + 1), i) <==> (is_recent(
                tokens@.take(k as int),
                i,
            ) || i == token) by {
                let now = tokens@.take(k + 1);
                assert(now[k as int] == token);
                if is_recent(tokens@.take(k as int), i) {
                    let j = choose|j: int|
                        0 <= j < tokens@.take(k as int).len() && #[trigger] tokens@.take(k as int)[j]
                            == i;
                    assert(now[j] == i);
                }
                if is_recent(now, i) && i != token {
                    let j = choose|j: int| 0 <= j < now.len() && #[trigger] now[j] == i;
                    assert(tokens@.take(k as int)[j] == i);
                }
            }
        }
        let len: usize = flags.len();
        if (token as u64) < (len as u64) {
            flags.set(token as usize, value);
            assert(flags@ =~= before.update(token as int, value));
        }
        assert(flags@ =~= Seq::new(
            old(flags)@.len(),
            |i: int|
                if is_recent(tokens@.take(k + 1), i) {
                    value
                } else {
                    old(flags)@[i]
                },
        ));
    }
    assert(tokens@.take(tokens@.len() as int) =~= tokens@);
}

/// Applies the options to one logit.
fn adjust<T: Copy, M: SamplingMath<T>>(math: &M, options: Sampling, raw: T, seen: bool) -> (value: T)
    ensures
        adjusts(*math, options, raw, seen, value),
{
    let penalised: T = if seen && options.repetition_penalty.bits != ONE {
        math.penalised(raw, options.repetition_penalty)
    } else {
        raw
    };
    let scaled: T = if options.temperature.is_above_zero() {
        math.scaled(penalised, options.temperature)
    } else {
        penalised
    };
    let value = math.cleaned(scaled);
    assert(cleans(*math, penalised, scaled, value));
    value
}

/// Applies the options to all logits, and gives the bit patterns of the results too.
fn adjust_all<T: Copy, M: SamplingMath<T>>(
    math: &M,
    options: Sampling,
    logits: &[T],
    flags: &Vec<bool>,
    recent: &[u32],
) -> (r: (Vec<T>, Vec<Single>))
    requires
        flags@.len() == logits@.len(),
        forall|i: int| 0 <= i < flags@.len() ==> #[trigger] flags@[i] == is_recent(recent@, i),
    ensures
        r.0@.len() == logits@.len(),
        r.1@.len() == logits@.len(),
        forall|i: int|
            0 <= i < logits@.len() ==> adjusts(
                *math,
                options,
                #[trigger] logits@[i],
                is_recent(recent@, i),
                r.0@[i],
            ) && call_ensures(M::bits, (math, r.0@[i]), r.1@[i]),
{
    let n: usize = logits.len();
    let mut values: Vec<T> = Vec::new();
    let mut bits: Vec<Single> = Vec::new();
    let mut at: usize = 0;
    while at < n
        invariant
            n == logits@.len(),
            at <= n,
            flags@.len() == n,
            forall|i: int| 0 <= i < flags@.len() ==> #[trigger] flags@[i] == is_recent(recent@, i),
            values@.len() == at,
            bits@.len() == at,
            forall|i: int|
                0 <= i < at ==> adjusts(
                    *math,
                    options,
                    #[trigger] logits@[i],
                    is_recent(recent@, i),
                    values@[i],
                ) && call_ensures(M::bits, (math, values@[i]), bits@[i]),
        decreases n - at,
    {
        let value = adjust(math, options, logits[at], flags[at]);
        values.push(value);
        bits.push(math.bits(value));
        at = at + 1;
    }
    (values, bits)
}

/// Finds the nucleus: how many tokens it has, and the sum of their shares.
pub fn nucleus<T: Copy, M: SamplingMath<T>>(math: &M, top_p: Single, shares: &[T]) -> (r: (usize, T))
    requires
        shares@.len() > 0,
    ensures
        1 <= r.0 <= shares@.len(),
        exists|cumulative: Seq<T>|
            cumulative.len() == r.0 + 1 && cumulative[r.0 as int] == r.1 && #[trigger] nucleus_run(
                *math,
                top_p,
                shares@,
                cumulative,
            ),
{
    let n: usize = shares.len();
    let mut sum: T = math.zero();
    let ghost mut cumulative: Seq<T> = seq![sum];
    let mut at: usize = 0;
    let mut found: bool = false;
    while at < n && !found
        invariant
            n == shares@.len(),
            n > 0,
            at <= n,
            found ==> at > 0,
            cumulative.len() == at + 1,
            cumulative[at as int] == sum,
            running(*math, shares@.take(at as int), cumulative),
            forall|i: int|
                1 <= i < at ==> call_ensures(
                    M::reaches,
                    (math, #[trigger] cumulative[i], top_p),
                    false,
                ),
            at > 0 ==> call_ensures(M::reaches, (math, cumulative[at as int], top_p), found),
        decreases n - at, if found { 0int } else { 1int },
    {
        let ghost before = cumulative;
        let share = shares[at];
        sum = math.total(sum, share);
        found = math.reaches(sum, top_p);
        proof {
            cumulative = before.push(sum);
            let more = shares@.take(at + 1);
            assert forall|i: int| 0 <= i < more.len() implies call_ensures(
                M::total,
                (math, cumulative[i], #[trigger] more[i]),
                cumulative[i + 1],
            ) by {
                if i < at {
                    assert(shares@.take(at as int)[i] == more[i]);
                }
            }
        }
        at = at + 1;
    }
    assert(nucleus_run(*math, top_p, shares@, cumulative));
    (at, sum)
}

/// Spends a random number on the tokens of a nucleus and picks the one that spends the rest, or the
/// last one.
pub fn pick<T: Copy, M: SamplingMath<T>>(math: &M, shares: &[T], cutoff: usize, random: T) -> (r:
    usize)
    requires
        0 < cutoff <= shares@.len(),
    ensures
        r < cutoff,
        exists|left: Seq<T>|
            left.len() == r + 2 && left[0] == random && #[trigger] spending_run(
                *math,
                shares@,
                cutoff as int,
                left,
            ),
{
    let mut rest: T = random;
    let ghost mut left: Seq<T> = seq![random];
    let mut at: usize = 0;
    let mut done: bool = false;
    while at < cutoff && !done
        invariant
            0 < cutoff <= shares@.len(),
            at <= cutoff,
            done ==> at > 0,
            left.len() == at + 1,
            left[0] == random,
            left[at as int] == rest,
            forall|i: int|
                0 <= i < at ==> call_ensures(
                    M::spend,
                    (math, left[i], #[trigger] shares@[i]),
                    left[i + 1],
                ),
            forall|i: int|
                1 <= i < at ==> call_ensures(M::spent, (math, #[trigger] left[i]), false),
            at > 0 ==> call_ensures(M::spent, (math, left[at as int]), done),
        decreases cutoff - at, if done { 0int } else { 1int },
    {
        let ghost before = left;
        let share = shares[at];
        rest = math.spend(rest, share);
        done = math.spent(rest);
        proof {
            left = before.push(rest);
        }
        at = at + 1;
    }
    assert(spending_run(*math, shares@, cutoff as int, left));
    at - 1
}

/// Adds up values from zero on.
fn sum_of<T: Copy, M: SamplingMath<T>>(math: &M, values: &[T]) -> (sum: T)
    ensures
        exists|sums: Seq<T>| #[trigger]
            running(*math, values@, sums) && sums[values@.len() as int] == sum,
{
    let n: usize = values.len();
    let mut sum: T = math.zero();
    let ghost mut sums: Seq<T> = seq![sum];
    for at in 0..n
        invariant
            n == values@.len(),
            sums.len() == at + 1,
            sums[at as int] == sum,
            call_ensures(M::zero, (math,), sums[0]),
            forall|i: int|
                0 <= i < at ==> call_ensures(
                    M::total,
                    (math, sums[i], #[trigger] values@[i]),
                    sums[i + 1],
                ),
    {
        let ghost before = sums;
        sum = math.total(sum, values[at]);
        proof {
            sums = before.push(sum);
        }
    }
    assert(running(*math, values@, sums));
    sum
}

/// Samples a token from the logits. The flags, one per token, serve to look up the recent tokens and
/// are all clear before and after.
pub fn sample<T: Copy, M: SamplingMath<T>>(
    math: &M,
    options: Sampling,
    logits: &[T],
    recent: &[u32],
    flags: &mut Vec<bool>,
) -> (token: u32)
    requires
        logits@.len() > 0,
        old(flags)@ == Seq::new(logits@.len(), |i: int| false),
    ensures
        final(flags)@ == old(flags)@,
        sampled(*math, options, logits@, recent@, token),
        token < logits@.len(),
{
    mark(flags, recent, true);
    let (values, bits) = adjust_all(math, options, logits, flags, recent);
    mark(flags, recent, false);
    assert(flags@ =~= old(flags)@);
    let order = rank(bits.as_slice());
    let ghost start = Run {
        values: values@,
        bits: bits@,
        order: order@,
        weights: Seq::empty(),
        sums: Seq::empty(),
        usable: false,
        shares: Seq::empty(),
        cumulative: Seq::empty(),
        left: Seq::empty(),
    };
    assert(start.ranks(*math, options, logits@, recent@));
    let at = choose_ranked(math, options, logits, recent, &values, &order, Ghost(start));
    narrow(order[at])
}

/// A position as a token number.
fn narrow(position: usize) -> (token: u32)
    ensures
        token == position as u32,
        token <= position,
{
    let wide: u64 = position as u64;
    assert((wide as u32) <= wide) by (bit_vector);
    assert(position as u32 == wide as u32);
    position as u32
}

/// Chooses among the ranked tokens.
fn choose_ranked<T: Copy, M: SamplingMath<T>>(
    math: &M,
    options: Sampling,
    logits: &[T],
    recent: &[u32],
    values: &Vec<T>,
    order: &Vec<usize>,
    Ghost(start): Ghost<Run<T>>,
) -> (at: usize)
    requires
        logits@.len() > 0,
        start.values == values@,
        start.order == order@,
        start.ranks(*math, options, logits@, recent@),
    ensures
        at < order@.len(),
        exists|run: Run<T>| #[trigger]
            leads_to(*math, options, logits@, recent@, run, at as int) && run.order == order@,
{
    if options.temperature.is_at_most_zero() {
        assert(leads_to(*math, options, logits@, recent@, start, 0));
        return 0;
    }
    let all: usize = order.len();
    let n: usize = if 0 < options.top_k && options.top_k < all {
        options.top_k
    } else {
        all
    };
    assert(n == options.kept(logits@.len() as int));
    let max = values[order[0]];
    let mut weights: Vec<T> = Vec::new();
    for i in 0..n
        invariant
            0 < n <= order@.len(),
            order@.len() == values@.len(),
            forall|k: int| 0 <= k < order@.len() ==> #[trigger] order@[k] < values@.len(),
            max == values@[order@[0] as int],
            weights@.len() == i,
            forall|k: int|
                0 <= k < i ==> call_ensures(
                    M::exponential,
                    (math, values@[order@[k] as int], max),
                    #[trigger] weights@[k],
                ),
    {
        weights.push(math.exponential(values[order[i]], max));
    }
    let sum = sum_of(math, weights.as_slice());
    let ghost sums = choose|sums: Seq<T>| #[trigger]
        running(*math, weights@, sums) && sums[weights@.len() as int] == sum;
    let usable = math.usable(sum);
    let ghost weighed = Run { weights: weights@, sums, usable, ..start };
    assert(weighed.weighs(*math, n as int));
    assert(weighed.ranks(*math, options, logits@, recent@));
    if !usable {
        assert(leads_to(*math, options, logits@, recent@, weighed, 0));
        return 0;
    }
    let mut shares: Vec<T> = Vec::new();
    for i in 0..n
        invariant
            n == weights@.len(),
            shares@.len() == i,
            forall|k: int|
                0 <= k < i ==> call_ensures(
                    M::share,
                    (math, weights@[k], sum),
                    #[trigger] shares@[k],
                ),
    {
        shares.push(math.share(weights[i], sum));
    }
    let (cutoff, kept_sum) = nucleus(math, options.top_p, shares.as_slice());
    let ghost cumulative = choose|cumulative: Seq<T>|
        cumulative.len() == cutoff + 1 && cumulative[cutoff as int] == kept_sum
            && #[trigger] nucleus_run(*math, options.top_p, shares@, cumulative);
    let random = math.draw(kept_sum);
    let at = pick(math, shares.as_slice(), cutoff, random);
    proof {
        let left = choose|left: Seq<T>|
            left.len() == at + 2 && left[0] == random && #[trigger] spending_run(
                *math,
                shares@,
                cutoff as int,
                left,
            );
        let run = Run { shares: shares@, cumulative, left, ..weighed };
        assert(run.weighs(*math, n as int));
        assert(run.ranks(*math, options, logits@, recent@));
        assert(run.cuts(*math, options.top_p, n as int));
        assert(run.picks(*math, at as int));
        assert(leads_to(*math, options, logits@, recent@, run, at as int));
    }
    at
}

/// Position `at` holds the last of the largest values.
pub open spec fn is_last_largest(bits: Seq<Single>, at: int) -> bool {
    &&& 0 <= at < bits.len()
    &&& forall|i: int| 0 <= i <= at ==> (#[trigger] bits[i]).order() <= bits[at].order()
    &&& forall|i: int| at < i < bits.len() ==> (#[trigger] bits[i]).order() < bits[at].order()
}

/// `bits` are the bit patterns of the logits.
pub open spec fn bits_of<T: Copy, M: SamplingMath<T>>(math: M, logits: Seq<T>, bits: Seq<Single>) -> bool {
    &&& bits.len() == logits.len()
    &&& forall|i: int|
        0 <= i < logits.len() ==> call_ensures(M::bits, (&math, #[trigger] logits[i]), bits[i])
}

/// `token` is the likeliest token: the last of the largest logits, or zero where there is none.
pub open spec fn likeliest<T: Copy, M: SamplingMath<T>>(math: M, logits: Seq<T>, token: u32) -> bool {
    if logits.len() == 0 {
        token == 0
    } else {
        exists|bits: Seq<Single>, at: int| #[trigger]
            bits_of(math, logits, bits) && #[trigger] is_last_largest(bits, at) && token == at as u32
    }
}

/// Finds the likeliest token.
pub fn argmax<T: Copy, M: SamplingMath<T>>(math: &M, logits: &[T]) -> (token: u32)
    ensures
        likeliest(*math, logits@, token),
        logits@.len() > 0 ==> token < logits@.len(),
{
    let n: usize = logits.len();
    if n == 0 {
        return 0;
    }
    let first = math.bits(logits[0]);
    let mut best: usize = 0;
    let mut key: i32 = first.order_key();
    let ghost mut bits: Seq<Single> = seq![first];
    let mut at: usize = 1;
    while at < n
        invariant
            n == logits@.len(),
            1 <= at <= n,
            bits.len() == at,
            forall|i: int|
                0 <= i < at ==> call_ensures(M::bits, (math, #[trigger] logits@[i]), bits[i]),
            is_last_largest(bits, best as int),
            key == bits[best as int].order(),
        decreases n - at,
    {
        let ghost before = bits;
        let pattern = math.bits(logits[at]);
        let next: i32 = pattern.order_key();
        proof {
            bits = before.push(pattern);
            assert forall|i: int| 0 <= i < at implies #[trigger] bits[i] == before[i] by {}
        }
        if next >= key {
            best = at;
            key = next;
        }
        assert(is_last_largest(bits, best as int));
        at = at + 1;
    }
    assert(bits_of(*math, logits@, bits));
    narrow(best)
}

/// A ranking lists every position.
proof fn lemma_ranking_is_complete(bits: Seq<Single>, order: Seq<usize>, j: int)
    requires
        ranking(bits, order),
        0 <= j < bits.len(),
    ensures
        exists|i: int| 0 <= i < order.len() && #[trigger] order[i] == j,
{
    let n = bits.len();
    let places = order.map_values(|x: usize| x as int);
    assert forall|a: int, b: int| 0 <= a < n && 0 <= b < n && a != b implies #[trigger] places[a]
        != #[trigger] places[b] by {
        assert(order[a] != order[b]);
    }
    assert(places.no_duplicates());
    places.unique_seq_to_set();
    let hit = places.to_set();
    let range = vstd::set_lib::set_int_range(0, n as int);
    vstd::set_lib::lemma_int_range(0, n as int);
    assert forall|x: int| hit.contains(x) implies range.contains(x) by {
        let a = choose|a: int| 0 <= a < n && places[a] == x;
        assert(order[a] < n);
    }
    vstd::set_lib::lemma_subset_equality(hit, range);
    assert(hit.contains(j));
    let a = choose|a: int| 0 <= a < n && places[a] == j;
    assert(order[a] == j);
}

/// Whatever the randomness, the sampled token is one of the `top_k` first of the ranking, and no
/// token outside those first ones has a larger value. Greedy decoding takes a token with a largest
/// value.
pub proof fn sampled_tokens_rank_high<T: Copy, M: SamplingMath<T>>(
    math: M,
    options: Sampling,
    logits: Seq<T>,
    recent: Seq<u32>,
    run: Run<T>,
    pick: int,
)
    requires
        leads_to(math, options, logits, recent, run, pick),
    ensures
        0 <= pick < options.kept(logits.len() as int),
        forall|i: int, j: int|
            0 <= i < options.kept(logits.len() as int) <= j < logits.len()
                ==> run.bits[#[trigger] run.order[i] as int].order()
                >= run.bits[#[trigger] run.order[j] as int].order(),
        options.temperature.at_most_zero() ==> forall|j: int|
            0 <= j < logits.len() ==> (#[trigger] run.bits[j]).order()
                <= run.bits[run.order[pick] as int].order(),
{
    if options.temperature.at_most_zero() {
        assert forall|j: int| 0 <= j < logits.len() implies (#[trigger] run.bits[j]).order()
            <= run.bits[run.order[pick] as int].order() by {
            lemma_ranking_is_complete(run.bits, run.order, j);
            let i = choose|i: int| 0 <= i < run.order.len() && #[trigger] run.order[i] == j;
            if i > 0 {
                assert(run.bits[run.order[0] as int].order() >= run.bits[run.order[i] as int].order());
            }
        }
    }
}

/// Running sums are left folds.
proof fn lemma_running_folds<T: Copy, M: SamplingMath<T>>(
    math: M,
    values: Seq<T>,
    sums: Seq<T>,
    zero: T,
    total: spec_fn(T, T) -> T,
    k: int,
)
    requires
        running(math, values, sums),
        forall|r: T| call_ensures(M::zero, (&math,), r) ==> r == zero,
        forall|s: T, v: T, r: T|
            #![trigger call_ensures(M::total, (&math, s, v), r)]
            call_ensures(M::total, (&math, s, v), r) ==> r == total(s, v),
        0 <= k <= values.len(),
    ensures
        sums[k] == values.take(k).fold_left(zero, total),
    decreases k,
{
    if k > 0 {
        lemma_running_folds(math, values, sums, zero, total, k - 1);
        assert(values.take(k).drop_last() =~= values.take(k - 1));
        assert(values.take(k).last() == values[k - 1]);
        assert(call_ensures(M::total, (&math, sums[k - 1], values[k - 1]), sums[k]));
    }
}

/// What is left of a random number is a left fold of the shares.
proof fn lemma_spending_folds<T: Copy, M: SamplingMath<T>>(
    math: M,
    shares: Seq<T>,
    cutoff: int,
    left: Seq<T>,
    spend: spec_fn(T, T) -> T,
    k: int,
)
    requires
        spending_run(math, shares, cutoff, left),
        forall|s: T, v: T, r: T|
            #![trigger call_ensures(M::spend, (&math, s, v), r)]
            call_ensures(M::spend, (&math, s, v), r) ==> r == spend(s, v),
        0 <= k < left.len(),
        left.len() <= shares.len() + 1,
    ensures
        left[k] == shares.take(k).fold_left(left[0], spend),
    decreases k,
{
    if k > 0 {
        lemma_spending_folds(math, shares, cutoff, left, spend, k - 1);
        assert(shares.take(k).drop_last() =~= shares.take(k - 1));
        assert(shares.take(k).last() == shares[k - 1]);
        assert(call_ensures(M::spend, (&math, left[k - 1], shares[k - 1]), left[k]));
    }
}

/// What sampling computes, where the arithmetic is that of the given functions. A recent token's
/// logit takes the repetition penalty, unless that is one; above a temperature of zero every logit
/// is divided by the temperature; what comes out is cleaned. The tokens are ranked by the bit
/// patterns of these values. Greedy decoding takes the first of the ranking. Otherwise the first
/// `top_k` tokens, or all, are weighed by the exponential of the distance between their value and
/// the largest; where the weights have no usable sum the first token is taken. The nucleus is the
/// shortest start of the ranking whose shares of that sum add up to `top_p`, or all that stayed. A
/// number drawn below the nucleus' sum is spent on the shares in turn, and the token that exhausts
/// it is taken, or the last of the nucleus.
#[verifier::spinoff_prover]
#[verifier::rlimit(40)]
pub proof fn sampling_follows_the_tempered_logits<T: Copy, M: SamplingMath<T>>(
    math: M,
    options: Sampling,
    logits: Seq<T>,
    recent: Seq<u32>,
    run: Run<T>,
    pick: int,
    zero: T,
    pattern: spec_fn(T) -> Single,
    penalised: spec_fn(T, Single) -> T,
    scaled: spec_fn(T, Single) -> T,
    cleaned: spec_fn(T) -> T,
    exponential: spec_fn(T, T) -> T,
    total: spec_fn(T, T) -> T,
    usable: spec_fn(T) -> bool,
    share: spec_fn(T, T) -> T,
    reaches: spec_fn(T, Single) -> bool,
    spend: spec_fn(T, T) -> T,
    spent: spec_fn(T) -> bool,
)
    requires
        forall|r: T| call_ensures(M::zero, (&math,), r) ==> r == zero,
        forall|v: T, r: Single| call_ensures(M::bits, (&math, v), r) ==> r == pattern(v),
        forall|v: T, p: Single, r: T|
            #![trigger call_ensures(M::penalised, (&math, v, p), r)]
            call_ensures(M::penalised, (&math, v, p), r) ==> r == penalised(v, p),
        forall|v: T, t: Single, r: T|
            #![trigger call_ensures(M::scaled, (&math, v, t), r)]
            call_ensures(M::scaled, (&math, v, t), r) ==> r == scaled(v, t),
        forall|v: T, r: T|
            #![trigger call_ensures(M::cleaned, (&math, v), r)]
            call_ensures(M::cleaned, (&math, v), r) ==> r == cleaned(v),
        forall|v: T, m: T, r: T|
            #![trigger call_ensures(M::exponential, (&math, v, m), r)]
            call_ensures(M::exponential, (&math, v, m), r) ==> r == exponential(v, m),
        forall|s: T, v: T, r: T|
            #![trigger call_ensures(M::total, (&math, s, v), r)]
            call_ensures(M::total, (&math, s, v), r) ==> r == total(s, v),
        forall|s: T, r: bool|
            #![trigger call_ensures(M::usable, (&math, s), r)]
            call_ensures(M::usable, (&math, s), r) ==> r == usable(s),
        forall|w: T, s: T, r: T|
            #![trigger call_ensures(M::share, (&math, w, s), r)]
            call_ensures(M::share, (&math, w, s), r) ==> r == share(w, s),
        forall|s: T, p: Single, r: bool|
            #![trigger call_ensures(M::reaches, (&math, s, p), r)]
            call_ensures(M::reaches, (&math, s, p), r) ==> r == reaches(s, p),
        forall|s: T, v: T, r: T|
            #![trigger call_ensures(M::spend, (&math, s, v), r)]
            call_ensures(M::spend, (&math, s, v), r) ==> r == spend(s, v),
        forall|s: T, r: bool|
            #![trigger call_ensures(M::spent, (&math, s), r)]
            call_ensures(M::spent, (&math, s), r) ==> r == spent(s),
        leads_to(math, options, logits, recent, run, pick),
    ensures
        ({
            let value = |i: int|
                {
                    let raw = if (exists|k: int| 0 <= k < recent.len() && #[trigger] recent[k] == i)
                        && options.repetition_penalty.bits != 0x3f80_0000 {
                        penalised(logits[i], options.repetition_penalty)
                    } else {
                        logits[i]
                    };
                    cleaned(
                        if 0 < options.temperature.bits <= 0x7f80_0000 {
                            scaled(raw, options.temperature)
                        } else {
                            raw
                        },
                    )
                };
            let kept = if 0 < options.top_k < logits.len() {
                options.top_k as int
            } else {
                logits.len() as int
            };
            let order = run.order;
            let weights = Seq::new(
                kept as nat,
                |i: int| exponential(value(order[i] as int), value(order[0] as int)),
            );
            let sum = weights.fold_left(zero, total);
            let shares = run.shares;
            let cutoff = run.cumulative.len() - 1;
            let number = run.left[0];
            &&& order.len() == logits.len()
            &&& order.no_duplicates()
            &&& forall|i: int| 0 <= i < logits.len() ==> #[trigger] order[i] < logits.len()
            &&& forall|i: int, j: int|
                0 <= i < j < logits.len() ==> pattern(value(#[trigger] order[i] as int)).order()
                    >= pattern(value(#[trigger] order[j] as int)).order()
            &&& 0 <= pick < kept
            &&& options.temperature.bits == 0 || 0x8000_0000 <= options.temperature.bits
                <= 0xff80_0000 ==> pick == 0
            &&& 0 < options.temperature.bits <= 0x7f80_0000 && !usable(sum) ==> pick == 0
            &&& 0 < options.temperature.bits <= 0x7f80_0000 && usable(sum) ==> {
                &&& shares == weights.map_values(|w: T| share(w, sum))
                &&& pick < cutoff <= kept
                &&& forall|i: int|
                    1 <= i < cutoff ==> !reaches(
                        (#[trigger] shares.take(i)).fold_left(zero, total),
                        options.top_p,
                    )
                &&& cutoff < kept ==> reaches(
                    shares.take(cutoff).fold_left(zero, total),
                    options.top_p,
                )
                &&& call_ensures(
                    M::draw,
                    (&math, shares.take(cutoff).fold_left(zero, total)),
                    number,
                )
                &&& forall|i: int|
                    1 <= i <= pick ==> !spent((#[trigger] shares.take(i)).fold_left(number, spend))
                &&& pick + 1 < cutoff ==> spent(shares.take(pick + 1).fold_left(number, spend))
            }
        }),
{
    let value = |i: int|
        {
            let raw = if (exists|k: int| 0 <= k < recent.len() && #[trigger] recent[k] == i)
                && options.repetition_penalty.bits != 0x3f80_0000 {
                penalised(logits[i], options.repetition_penalty)
            } else {
                logits[i]
            };
            cleaned(
                if 0 < options.temperature.bits <= 0x7f80_0000 {
                    scaled(raw, options.temperature)
                } else {
                    raw
                },
            )
        };
    let kept = if 0 < options.top_k < logits.len() {
        options.top_k as int
    } else {
        logits.len() as int
    };
    let order = run.order;
    assert forall|i: int| 0 <= i < logits.len() implies #[trigger] run.values[i] == value(i)
        && run.bits[i] == pattern(value(i)) by {
        assert(adjusts(math, options, logits[i], is_recent(recent, i), run.values[i]));
    }
    assert forall|i: int, j: int| 0 <= i < j < logits.len() implies pattern(
        value(#[trigger] order[i] as int),
    ).order() >= pattern(value(#[trigger] order[j] as int)).order() by {
        assert(run.bits[order[i] as int].order() >= run.bits[order[j] as int].order());
        assert(run.values[order[i] as int] == value(order[i] as int));
        assert(run.values[order[j] as int] == value(order[j] as int));
    }
    sampled_tokens_rank_high(math, options, logits, recent, run, pick);
    if 0 < options.temperature.bits <= 0x7f80_0000 {
        let weights = Seq::new(
            kept as nat,
            |i: int| exponential(value(order[i] as int), value(order[0] as int)),
        );
        assert forall|i: int| 0 <= i < kept implies run.weights[i] == weights[i] by {
            assert(run.values[order[i] as int] == value(order[i] as int));
            assert(run.values[order[0] as int] == value(order[0] as int));
        }
        assert(run.weights =~= weights);
        let sum = weights.fold_left(zero, total);
        lemma_running_folds(math, weights, run.sums, zero, total, kept);
        assert(weights.take(kept) =~= weights);
        if usable(sum) {
            let shares = run.shares;
            assert(shares =~= weights.map_values(|w: T| share(w, sum)));
            let cutoff = run.cumulative.len() - 1;
            let start = shares.take(cutoff);
            assert forall|i: int| 0 <= i <= cutoff implies run.cumulative[i] == (#[trigger]
                shares.take(i)).fold_left(zero, total) by {
                lemma_running_folds(math, start, run.cumulative, zero, total, i);
                assert(start.take(i) =~= shares.take(i));
            }
            assert forall|i: int| 0 <= i <= pick + 1 implies run.left[i] == (#[trigger]
                shares.take(i)).fold_left(run.left[0], spend) by {
                lemma_spending_folds(math, shares, cutoff, run.left, spend, i);
            }
            assert forall|i: int| 1 <= i < cutoff implies !reaches(
                (#[trigger] shares.take(i)).fold_left(zero, total),
                options.top_p,
            ) by {
                assert(call_ensures(
                    M::reaches,
                    (&math, run.cumulative[i], options.top_p),
                    false,
                ));
            }
            assert forall|i: int| 1 <= i <= pick implies !spent(
                (#[trigger] shares.take(i)).fold_left(run.left[0], spend),
            ) by {
                assert(call_ensures(M::spent, (&math, run.left[i]), false));
            }
            assert(shares.take(pick + 1).len() == pick + 1);
        }
    }
}

/// Which options are refused: a temperature that is below zero, infinite or a NaN, then a nucleus
/// that is not above zero and at most one, then a repetition penalty that is not finite and above
/// zero. A temperature of zero may have either sign.
pub proof fn options_are_refused_in_turn(options: Sampling)
    ensures
        options.fault() is None <==> {
            &&& options.temperature.bits < 0x7f80_0000 || options.temperature.bits == 0x8000_0000
            &&& 0 < options.top_p.bits <= 0x3f80_0000
            &&& 0 < options.repetition_penalty.bits < 0x7f80_0000
        },
        options.fault() == Some(SamplingError::Temperature) <==> options.temperature.bits
            >= 0x7f80_0000 && options.temperature.bits != 0x8000_0000,
        options.fault() == Some(SamplingError::TopP) <==> {
            &&& options.temperature.bits < 0x7f80_0000 || options.temperature.bits == 0x8000_0000
            &&& options.top_p.bits == 0 || options.top_p.bits > 0x3f80_0000
        },
{
}

/// The likeliest token is the last of those whose logit no other exceeds in the order of the bit
/// patterns.
pub proof fn the_likeliest_token_has_the_largest_logit<T: Copy, M: SamplingMath<T>>(
    math: M,
    logits: Seq<T>,
    token: u32,
    pattern: spec_fn(T) -> Single,
)
    requires
        forall|v: T, r: Single|
            #![trigger call_ensures(M::bits, (&math, v), r)]
            call_ensures(M::bits, (&math, v), r) ==> r == pattern(v),
        likeliest(math, logits, token),
        0 < logits.len() <= 0x1_0000_0000,
    ensures
        token < logits.len(),
        forall|i: int|
            0 <= i <= token ==> pattern(#[trigger] logits[i]).order() <= pattern(
                logits[token as int],
            ).order(),
        forall|i: int|
            token < i < logits.len() ==> pattern(#[trigger] logits[i]).order() < pattern(
                logits[token as int],
            ).order(),
{
    let (bits, at) = choose|bits: Seq<Single>, at: int| #[trigger]
        bits_of(math, logits, bits) && #[trigger] is_last_largest(bits, at) && token == at as u32;
    assert forall|i: int| 0 <= i < logits.len() implies bits[i] == pattern(
        #[trigger] logits[i],
    ) by {
        assert(call_ensures(M::bits, (&math, logits[i]), bits[i]));
    }
}

} // verus!
