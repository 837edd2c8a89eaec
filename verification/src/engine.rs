//! The inference engine: options, the repetition window, generation and benchmarks.

use crate::architecture;
use crate::architecture::{CausalModel, Flow, LogitsMode, ModelError};
use crate::backend::{BackendConfig, KernelPreference};
use crate::benchmark::{GenerationOutput, InferenceMetrics};
use crate::cache::{CacheError, CacheView, InferenceBuffers, KVCache};
use crate::config;
use crate::float::Single;
use crate::json;
use crate::loader::{LoadOptions, LoadQuantization};
use crate::sampling;
use crate::sampling::{Sampling, SamplingError, SamplingMath};
use crate::settings;
use crate::text;
use tokenizers::Tokenizer;
use vstd::prelude::*;
use vstd::string::*;

verus! {

/// How an engine is set up.
#[derive(Clone, Copy, Debug, PartialEq, Eq, Structural)]
pub struct EngineOptions {
    pub load: LoadOptions,
    pub context_length: usize,
    pub temperature: Single,
    pub top_p: Single,
    pub top_k: usize,
    pub repetition_penalty: Single,
    pub repeat_last_n: usize,
}

impl Default for EngineOptions {
    /// A context of 4096 tokens, a temperature of 0.7, a nucleus of 0.9 over 40 tokens, and a
    /// penalty of 1.1 for the last 64 tokens.
    fn default() -> (options: EngineOptions)
        ensures
            options.load.quantization == LoadQuantization::Keep,
            options.load.backend == (BackendConfig {
                threads: 0,
                kernel: KernelPreference::Auto,
                parallel_threshold: 131072,
                integer_activations: true,
            }),
            options.context_length == 4096,
            options.temperature.bits == 0x3f33_3333,
            options.top_p.bits == 0x3f66_6666,
            options.top_k == 40,
            options.repetition_penalty.bits == 0x3f8c_cccd,
            options.repeat_last_n == 64,
            options.sampling().fault() is None,
    {
        EngineOptions {
            load: LoadOptions::default(),
            context_length: 4096,
            temperature: Single { bits: 0x3f33_3333 },
            top_p: Single { bits: 0x3f66_6666 },
            top_k: 40,
            repetition_penalty: Single { bits: 0x3f8c_cccd },
            repeat_last_n: 64,
        }
    }
}

impl EngineOptions {
    /// How tokens are sampled.
    pub open spec fn sampling(self) -> Sampling {
        Sampling {
            temperature: self.temperature,
            top_p: self.top_p,
            top_k: self.top_k,
            repetition_penalty: self.repetition_penalty,
        }
    }
}

/// Checks the sampling options.
pub fn validate_sampling(options: &EngineOptions) -> (result: Result<(), SamplingError>)
    ensures
        result == (match options.sampling().fault() {
            Some(e) => Err::<(), SamplingError>(e),
            None => Ok::<(), SamplingError>(()),
        }),
{
    Sampling {
        temperature: options.temperature,
        top_p: options.top_p,
        top_k: options.top_k,
        repetition_penalty: options.repetition_penalty,
    }.validate()
}

/// What can go wrong in an engine.
#[allow(inconsistent_fields)]
#[derive(Debug)]
pub enum EngineError {
    /// The sampling options are not in order.
    Sampling { error: SamplingError },
    /// The context must be positive.
    ZeroContext,
    /// The cache cannot be made.
    Cache { error: CacheError },
    /// The model refuses a token.
    Model { error: ModelError },
    /// The prompt has no token.
    EmptyPrompt,
    /// The prompt leaves no room for an answer.
    PromptTooLong { tokens: usize, context: usize },
    /// A benchmark needs a prompt.
    EmptyBenchmark,
    /// A benchmark does not fit the context.
    BenchmarkTooLong,
    /// The tokenizer cannot encode the prompt.
    Encode { message: String },
    /// The tokenizer cannot decode the answer.
    Decode { message: String },
    /// The tokenizer's settings rule encoding out.
    EncoderSettings,
    /// The tokenizer's settings rule decoding out.
    DecoderSettings,
    /// The generation configuration is no JSON.
    GenerationConfig,
}

/// The last `window` tokens of a history.
pub open spec fn window_of(history: Seq<u32>, window: usize) -> Seq<u32> {
    if history.len() <= window {
        history
    } else {
        history.skip(history.len() - window)
    }
}

/// The window after one token more.
pub open spec fn remembered(recent: Seq<u32>, window: usize, token: u32) -> Seq<u32> {
    if window == 0 {
        recent
    } else if recent.len() >= window {
        recent.push(token).drop_first()
    } else {
        recent.push(token)
    }
}

/// Remembering tokens one by one keeps the end of the history, and no more than the window holds.
pub proof fn window_holds_the_end_of_the_history(history: Seq<u32>, window: usize, token: u32)
    ensures
        remembered(window_of(history, window), window, token) == window_of(
            history.push(token),
            window,
        ),
        window_of(history, window).len() <= window,
{
    let recent = window_of(history, window);
    if window == 0 {
        assert(recent =~= window_of(history.push(token), window));
    } else {
        assert(remembered(recent, window, token) =~= window_of(history.push(token), window));
    }
}

/// The declared type of tokenizers.
#[verifier::external_type_specification]
#[verifier::external_body]
pub struct ExTokenizer(Tokenizer);

/// The declared type of points in time.
#[verifier::external_type_specification]
#[verifier::external_body]
pub struct ExInstant(std::time::Instant);

/// The tokens that a tokenizer knows, with their numbers.
pub uninterp spec fn vocabulary(tokenizer: Tokenizer) -> Map<Seq<char>, u32>;

/// Looks a token up with `Tokenizer::token_to_id`, which gives the number of a known token and
/// nothing for another text. The contract says so over a name for what the tokenizer knows.
#[verifier::external_body]
fn token_to_id(tokenizer: &Tokenizer, token: &str) -> (id: Option<u32>)
    ensures
        id == (if vocabulary(*tokenizer).contains_key(token@) {
            Some(vocabulary(*tokenizer)[token@])
        } else {
            None::<u32>
        }),
{
    tokenizer.token_to_id(token)
}

/// Encodes a text with `Tokenizer::encode`, without special tokens. A tokenizer may drop merges at
/// random, so nothing is claimed of the numbers. Settings with which the call can panic are left
/// out: in `Encoding::truncate`, a stride that is not below the length; in `pad_encodings`, lengths
/// that overflow; in `Precompiled::transform`, a damaged map; in `NormalizedString::transform_range`,
/// characters in front of the first one that belong to none; in `NormalizedString::split` and
/// `NormalizedString::replace`, and in `fancy_regex` under them, a pattern with `\K` or with a
/// reference back to a group; in `TemplateProcessing`, a piece without a text, or a number of texts
/// other than one and two; in `AddedVocabulary`, tokens that claim the same white space, and tokens
/// of which the normalizer leaves nothing.
#[verifier::external_body]
fn encode(tokenizer: &Tokenizer, prompt: &str) -> (result: Result<Vec<u32>, String>)
    requires
        settings::can_encode(*tokenizer),
{
    match tokenizer.encode(prompt, false) {
        Ok(encoding) => Ok(encoding.get_ids().to_vec()),
        Err(e) => Err(e.to_string()),
    }
}

/// Encoding a prompt with a tokenizer can end in that result.
pub closed spec fn may_encode_to(
    tokenizer: Tokenizer,
    prompt: &str,
    result: Result<Vec<u32>, String>,
) -> bool {
    call_ensures(encode, (&tokenizer, prompt), result)
}

/// The text that a tokenizer decodes numbers to without special tokens; nothing where it cannot.
pub uninterp spec fn decoded_text(tokenizer: Tokenizer, ids: Seq<u32>) -> Option<Seq<char>>;

/// Decodes numbers with `Tokenizer::decode`, passing over special tokens. What comes out depends on
/// the tokenizer and the numbers alone; the contract names it. Decoders with which the call can
/// panic are left out: `Strip` counts below zero on a token that it uses up from the end,
/// `BPEDecoder` where there is no token, and `Replace` slices a token backwards by a pattern with
/// `\K` or with a reference back to a group.
#[verifier::external_body]
fn decode(tokenizer: &Tokenizer, ids: &[u32]) -> (result: Result<String, String>)
    requires
        settings::can_decode(*tokenizer),
    ensures
        match result {
            Ok(text) => decoded_text(*tokenizer, ids@) == Some(text@),
            Err(_) => decoded_text(*tokenizer, ids@) is None,
        },
{
    match tokenizer.decode(ids, true) {
        Ok(text) => Ok(text),
        Err(e) => Err(e.to_string()),
    }
}

/// Reads the clock with `std::time::Instant::now`.
#[verifier::external_body]
fn start_clock() -> (now: std::time::Instant)
{
    std::time::Instant::now()
}

/// The nanoseconds since a point in time, by `std::time::Instant::elapsed`.
#[verifier::external_body]
fn nanoseconds_since(start: &std::time::Instant) -> (nanoseconds: u64)
{
    start.elapsed().as_nanos() as u64
}

/// The numbers that an entry gives: its own, or those of its elements.
pub open spec fn entry_numbers(number: Option<u64>, elements: Option<Seq<Option<u64>>>) -> Seq<
    Option<u64>,
> {
    match (number, elements) {
        (Some(id), _) => seq![Some(id)],
        (None, Some(list)) => list,
        (None, None) => Seq::empty(),
    }
}

/// The numbers are in ascending order, and each occurs once.
pub open spec fn ascending(ids: Seq<u32>) -> bool {
    forall|i: int, j: int| 0 <= i < j < ids.len() ==> #[trigger] ids[i] < #[trigger] ids[j]
}

/// Adds a number to ascending ones, unless it is there.
fn add_ascending(ids: &mut Vec<u32>, id: u32)
    requires
        ascending(old(ids)@),
    ensures
        ascending(final(ids)@),
        forall|x: u32| final(ids)@.contains(x) <==> old(ids)@.contains(x) || x == id,
{
    let n: usize = ids.len();
    let mut at: usize = 0;
    while at < n && ids[at] < id
        invariant
            at <= n,
            n == ids@.len(),
            ids@ == old(ids)@,
            forall|i: int| 0 <= i < at ==> #[trigger] ids@[i] < id,
        decreases n - at,
    {
        at = at + 1;
    }
    let ghost before = ids@;
    if at < n && ids[at] == id {
        assert(before.contains(id));
        return;
    }
    ids.insert(at, id);
    proof {
        let after = ids@;
        assert(after == before.insert(at as int, id));
        assert forall|x: u32| after.contains(x) <==> before.contains(x) || x == id by {
            if before.contains(x) {
                let i = choose|i: int| 0 <= i < before.len() && before[i] == x;
                assert(after[if i < at {
                    i
                } else {
                    i + 1
                }] == x);
            }
            if x == id {
                assert(after[at as int] == x);
            }
            if after.contains(x) && x != id {
                let i = choose|i: int| 0 <= i < after.len() && after[i] == x;
                assert(before[if i < at {
                    i
                } else {
                    i - 1
                }] == x);
            }
        }
    }
}

/// A number in a generation configuration ends an answer.
pub open spec fn configured(numbers: Seq<Option<u64>>, id: u32) -> bool {
    exists|i: int| 0 <= i < numbers.len() && #[trigger] numbers[i] == Some(id as u64)
}

/// The token ends an answer: the generation configuration names it, or it is one of the two end
/// tokens that the tokenizer knows.
pub open spec fn ends_answer(
    numbers: Seq<Option<u64>>,
    known: Map<Seq<char>, u32>,
    id: u32,
) -> bool {
    ||| configured(numbers, id)
    ||| known.contains_key("<|im_end|>"@) && known["<|im_end|>"@] == id
    ||| known.contains_key("<|endoftext|>"@) && known["<|endoftext|>"@] == id
}

/// Collects the tokens that end an answer, from the numbers of a generation configuration and the
/// numbers of the two end tokens.
pub fn collect_eos(numbers: &[Option<u64>], im_end: Option<u32>, endoftext: Option<u32>) -> (ids:
    Vec<u32>)
    ensures
        ascending(ids@),
        forall|id: u32|
            ids@.contains(id) <==> configured(numbers@, id) || im_end == Some(id) || endoftext
                == Some(id),
{
    let mut ids: Vec<u32> = Vec::new();
    for i in 0..numbers.len()
        invariant
            ascending(ids@),
            forall|id: u32| ids@.contains(id) <==> configured(numbers@.take(i as int), id),
    {
        let ghost before = numbers@.take(i as int);
        let ghost now = numbers@.take(i + 1);
        proof {
            assert forall|id: u32| configured(now, id) <==> configured(before, id) || numbers@[i as int]
                == Some(id as u64) by {
                if configured(before, id) {
                    let k = choose|k: int|
                        0 <= k < before.len() && #[trigger] before[k] == Some(id as u64);
                    assert(now[k] == Some(id as u64));
                }
                if numbers@[i as int] == Some(id as u64) {
                    assert(now[i as int] == Some(id as u64));
                }
                if configured(now, id) {
                    let k = choose|k: int|
                        0 <= k < now.len() && #[trigger] now[k] == Some(id as u64);
                    if k < i {
                        assert(before[k] == Some(id as u64));
                    }
                }
            }
        }
        if let Some(number) = numbers[i] {
            if number <= 0xffff_ffff {
                add_ascending(&mut ids, number as u32);
            }
        }
    }
    assert(numbers@.take(numbers@.len() as int) =~= numbers@);
    if let Some(id) = im_end {
        add_ascending(&mut ids, id);
    }
    if let Some(id) = endoftext {
        add_ascending(&mut ids, id);
    }
    ids
}

/// Finds the tokens that end an answer, in the generation configuration, where there is one, and in
/// the tokenizer.
pub fn find_eos_tokens(generation_config: Option<&str>, tokenizer: &Tokenizer) -> (result: Result<
    Vec<u32>,
    EngineError,
>)
    ensures
        match generation_config {
            Some(text) => match json::json_entry(text@, "eos_token_id"@) {
                None => result matches Err(EngineError::GenerationConfig),
                Some(entry) => result matches Ok(ids) && ascending(ids@) && forall|id: u32|
                    ids@.contains(id) <==> ends_answer(
                        entry_numbers(entry.0, entry.1),
                        vocabulary(*tokenizer),
                        id,
                    ),
            },
            None => result matches Ok(ids) && ascending(ids@) && forall|id: u32|
                ids@.contains(id) <==> ends_answer(
                    Seq::<Option<u64>>::empty(),
                    vocabulary(*tokenizer),
                    id,
                ),
        },
{
    let numbers: Vec<Option<u64>> = match generation_config {
        Some(text) => match json::entry_under(text, "eos_token_id") {
            Some((Some(id), _)) => vec![Some(id)],
            Some((None, Some(elements))) => elements,
            Some((None, None)) => Vec::new(),
            None => return Err(EngineError::GenerationConfig),
        },
        None => Vec::new(),
    };
    proof {
        match generation_config {
            Some(text) => {
                let entry = json::json_entry(text@, "eos_token_id"@)->Some_0;
                assert(numbers@ =~= entry_numbers(entry.0, entry.1));
            },
            None => {
                assert(numbers@ =~= Seq::<Option<u64>>::empty());
            },
        }
    }
    let im_end = token_to_id(tokenizer, "<|im_end|>");
    let endoftext = token_to_id(tokenizer, "<|endoftext|>");
    Ok(collect_eos(numbers.as_slice(), im_end, endoftext))
}

/// A model with a tokenizer, a cache and the state of a conversation.
pub struct InferenceEngine<T: Copy, M: CausalModel<T>> {
    pub model: M,
    pub tokenizer: Tokenizer,
    pub kv_cache: KVCache<T>,
    pub buffers: InferenceBuffers<T>,
    pub temperature: Single,
    pub top_p: Single,
    pub top_k: usize,
    pub repetition_penalty: Single,
    pub max_repeat_window: usize,
    pub eos_token_ids: Vec<u32>,
    pub recent_tokens: Vec<u32>,
    /// One flag per token, all clear between calls.
    pub seen_tokens: Vec<bool>,
}

/// The state of a model after a prompt.
pub open spec fn prompt_flow<T: Copy, M: CausalModel<T>>(
    model: M,
    prompt: Seq<u32>,
    cache: CacheView<T>,
) -> Flow<T> {
    let last = prompt.len() - 1;
    model.token_result(prompt[last], last, model.sequence_result(prompt, 0, cache, last))
}

/// The state of a model after a prompt and the tokens of an answer.
pub open spec fn answer_flow<T: Copy, M: CausalModel<T>>(
    model: M,
    prompt: Seq<u32>,
    cache: CacheView<T>,
    answer: Seq<u32>,
) -> Flow<T>
    decreases answer.len(),
{
    if answer.len() == 0 {
        prompt_flow(model, prompt, cache)
    } else {
        model.token_result(
            answer.last(),
            prompt.len() + answer.len() - 1,
            answer_flow(model, prompt, cache, answer.drop_last()).cache,
        )
    }
}

/// The logits after a prompt and the tokens of an answer.
pub open spec fn answer_logits<T: Copy, M: CausalModel<T>>(
    model: M,
    prompt: Seq<u32>,
    cache: CacheView<T>,
    answer: Seq<u32>,
) -> Seq<T> {
    model.logits_result(answer_flow(model, prompt, cache, answer).residual)
}

/// Every token of the answer was sampled from the logits that the prompt and the tokens before it
/// give, with a penalty for the last tokens of the conversation.
pub open spec fn answers<T: Copy, M: CausalModel<T>, S: SamplingMath<T>>(
    model: M,
    math: S,
    options: Sampling,
    window: usize,
    prompt: Seq<u32>,
    cache: CacheView<T>,
    answer: Seq<u32>,
) -> bool {
    forall|i: int|
        0 <= i < answer.len() ==> sampling::sampled(
            math,
            options,
            answer_logits(model, prompt, cache, answer.take(i)),
            window_of(prompt + answer.take(i), window),
            #[trigger] answer[i],
        )
}

/// The number of tokens that an answer may have.
pub open spec fn room(max_new_tokens: usize, context: usize, prompt: int) -> int {
    if max_new_tokens <= context - prompt {
        max_new_tokens as int
    } else {
        context - prompt
    }
}

/// The answer ends with the first end token, or where there is no more room.
pub open spec fn well_ended(answer: Seq<u32>, eos: Seq<u32>, room: int) -> bool {
    &&& answer.len() <= room
    &&& forall|i: int| 0 <= i < answer.len() - 1 ==> !eos.contains(#[trigger] answer[i])
    &&& answer.len() == room || (answer.len() > 0 && eos.contains(answer.last()))
}

/// Decides whether a token is among the given ones.
fn is_listed(tokens: &[u32], token: u32) -> (r: bool)
    ensures
        r == tokens@.contains(token),
{
    for i in 0..tokens.len()
        invariant
            forall|k: int| 0 <= k < i ==> tokens@[k] != token,
    {
        if tokens[i] == token {
            assert(tokens@.contains(tokens@[i as int]));
            return true;
        }
    }
    false
}

impl<T: Copy, M: CausalModel<T>> InferenceEngine<T, M> {
    /// How tokens are sampled.
    pub open spec fn sampling(&self) -> Sampling {
        Sampling {
            temperature: self.temperature,
            top_p: self.top_p,
            top_k: self.top_k,
            repetition_penalty: self.repetition_penalty,
        }
    }

    /// The model can be run: its parts belong together, and the buffers of a chunk of tokens can be
    /// addressed.
    pub open spec fn runnable(model: M) -> bool {
        &&& model.ready()
        &&& model.dimensions().valid()
        &&& 32 * model.dimensions().hidden_size <= usize::MAX
        &&& 32 * model.dimensions().intermediate_size <= usize::MAX
    }

    /// The parts belong together.
    pub open spec fn valid(&self) -> bool {
        &&& Self::runnable(self.model)
        &&& self.kv_cache.fits(self.model.dimensions())
        &&& self.buffers.fits(self.model.dimensions(), self.kv_cache.max_seq_len as int)
        &&& self.seen_tokens@ == Seq::new(
            self.model.dimensions().vocab_size as nat,
            |i: int| false,
        )
        &&& self.recent_tokens@.len() <= self.max_repeat_window
    }

    /// Nothing but the state of the conversation differs.
    pub open spec fn same_setup(&self, other: &Self) -> bool {
        &&& self.model == other.model
        &&& self.tokenizer == other.tokenizer
        &&& self.sampling() == other.sampling()
        &&& self.max_repeat_window == other.max_repeat_window
        &&& self.eos_token_ids == other.eos_token_ids
        &&& self.kv_cache.max_seq_len == other.kv_cache.max_seq_len
    }

    /// The state of the conversation is the same.
    pub open spec fn same_state(&self, other: &Self) -> bool {
        &&& self.kv_cache == other.kv_cache
        &&& self.buffers == other.buffers
        &&& self.recent_tokens == other.recent_tokens
    }

    /// The prompt leaves room in the context, and its tokens lie in the vocabulary.
    pub open spec fn accepts(&self, prompt: Seq<u32>) -> bool {
        &&& 0 < prompt.len() < self.kv_cache.max_seq_len
        &&& architecture::acceptable(
            prompt,
            0,
            self.model.dimensions().vocab_size,
            self.kv_cache.max_seq_len,
        )
    }

    /// What the first token of a prompt that the model refuses is refused for.
    pub open spec fn prompt_fault(&self, prompt: Seq<u32>) -> Option<ModelError> {
        architecture::first_token_fault(
            prompt,
            0,
            self.model.dimensions().vocab_size,
            self.kv_cache.max_seq_len,
            prompt.len() as int,
        )
    }

    /// Some start of the prompt has run.
    pub open spec fn ran_part(&self, prompt: Seq<u32>, after: &Self) -> bool {
        exists|k: int|
            0 <= k < prompt.len() && after.kv_cache@ == #[trigger] self.model.sequence_result(
                prompt,
                0,
                self.kv_cache@,
                k,
            )
    }

    /// The prompt is refused with that error: one without tokens or without room for an answer
    /// leaves everything as it is, and one that the model refuses may have run in part.
    pub open spec fn refused(&self, prompt: Seq<u32>, after: &Self, error: EngineError) -> bool {
        if prompt.len() == 0 {
            error is EmptyPrompt && after.same_state(self)
        } else if prompt.len() >= self.kv_cache.max_seq_len {
            &&& error matches EngineError::PromptTooLong { tokens, context }
            &&& tokens == prompt.len()
            &&& context == self.kv_cache.max_seq_len
            &&& after.same_state(self)
        } else {
            &&& error matches EngineError::Model { error: e }
            &&& self.prompt_fault(prompt) == Some(e)
            &&& self.ran_part(prompt, after)
            &&& after.recent_tokens@ == window_of(prompt, self.max_repeat_window)
        }
    }

    /// The answer's tokens were sampled one after the other, and it ends where it should. The
    /// prompt and the answer have run, but for an end token, and the repetition window holds their
    /// end.
    pub open spec fn answered<S: SamplingMath<T>>(
        &self,
        math: S,
        max_new_tokens: usize,
        prompt: Seq<u32>,
        after: &Self,
        answer: Seq<u32>,
    ) -> bool {
        let ended = answer.len() > 0 && self.eos_token_ids@.contains(answer.last());
        &&& answers(
            self.model,
            math,
            self.sampling(),
            self.max_repeat_window,
            prompt,
            self.kv_cache@,
            answer,
        )
        &&& well_ended(
            answer,
            self.eos_token_ids@,
            room(max_new_tokens, self.kv_cache.max_seq_len, prompt.len() as int),
        )
        &&& after.kv_cache@ == answer_flow(
            self.model,
            prompt,
            self.kv_cache@,
            if ended {
                answer.drop_last()
            } else {
                answer
            },
        ).cache
        &&& after.recent_tokens@ == window_of(prompt + answer, self.max_repeat_window)
    }

    /// The tokenizer can encode prompts.
    pub open spec fn encodes(&self) -> bool {
        settings::can_encode(self.tokenizer)
    }

    /// The tokenizer can decode answers.
    pub open spec fn decodes(&self) -> bool {
        settings::can_decode(self.tokenizer)
    }

    /// What comes out of a prompt of the given token numbers: an answer with the text that the
    /// tokenizer makes of it, an answer that the tokenizer cannot decode, or a refusal.
    pub open spec fn outcome<S: SamplingMath<T>>(
        &self,
        math: S,
        max_new_tokens: usize,
        prompt: Seq<u32>,
        after: &Self,
        result: Result<GenerationOutput, EngineError>,
    ) -> bool {
        if self.accepts(prompt) {
            match result {
                Ok(output) => {
                    &&& self.decodes()
                    &&& self.answered(math, max_new_tokens, prompt, after, output.token_ids@)
                    &&& decoded_text(self.tokenizer, output.token_ids@) == Some(output.text@)
                    &&& output.metrics.prompt_tokens == prompt.len()
                    &&& output.metrics.generated_tokens == output.token_ids@.len()
                },
                Err(error) => exists|answer: Seq<u32>| #[trigger]
                    self.answered(math, max_new_tokens, prompt, after, answer) && if self.decodes() {
                        error is Decode && decoded_text(self.tokenizer, answer) is None
                    } else {
                        error is DecoderSettings
                    },
            }
        } else {
            result matches Err(error) && self.refused(prompt, after, error)
        }
    }

    /// The context of an engine: what was asked for, as far as the model supports it.
    pub open spec fn context_for(model: M, options: EngineOptions) -> usize {
        if options.context_length <= model.dimensions().max_position_embeddings {
            options.context_length
        } else {
            model.dimensions().max_position_embeddings
        }
    }

    /// An engine of a loaded model and its tokenizer. `zero` fills the cache and the buffers.
    pub fn from_parts(
        model: M,
        tokenizer: Tokenizer,
        eos_token_ids: Vec<u32>,
        options: &EngineOptions,
        zero: T,
    ) -> (result: Result<InferenceEngine<T, M>, EngineError>)
        requires
            Self::runnable(model),
            Self::context_for(model, *options) * model.dimensions().num_attention_heads
                <= usize::MAX,
        ensures
            match options.sampling().fault() {
                Some(error) => result matches Err(EngineError::Sampling { error: e }) && e == error,
                None => if Self::context_for(model, *options) == 0 {
                    result matches Err(EngineError::ZeroContext)
                } else {
                    match KVCache::<T>::request_fault(
                        model.dimensions(),
                        Self::context_for(model, *options),
                    ) {
                        Some(error) => result matches Err(EngineError::Cache { error: e }) && e
                            == error,
                        None => {
                            &&& result is Ok
                            &&& result->Ok_0.valid()
                            &&& result->Ok_0.model == model
                            &&& result->Ok_0.tokenizer == tokenizer
                            &&& result->Ok_0.kv_cache.max_seq_len == Self::context_for(
                                model,
                                *options,
                            )
                            &&& result->Ok_0.sampling() == options.sampling()
                            &&& result->Ok_0.max_repeat_window == options.repeat_last_n
                            &&& result->Ok_0.eos_token_ids == eos_token_ids
                            &&& result->Ok_0.recent_tokens@ == Seq::<u32>::empty()
                            &&& result->Ok_0.buffers.cleared(
                                model.dimensions(),
                                Self::context_for(model, *options) as int,
                                zero,
                            )
                            &&& forall|l: int, i: int|
                                0 <= l < model.dimensions().num_hidden_layers && 0 <= i
                                    < Self::context_for(model, *options)
                                    * model.dimensions().kv_size()
                                    ==> result->Ok_0.kv_cache.k_cache@[l]@[i] == zero
                                    && result->Ok_0.kv_cache.v_cache@[l]@[i] == zero
                        },
                    }
                },
            },
    {
        match validate_sampling(options) {
            Ok(()) => {},
            Err(error) => return Err(EngineError::Sampling { error }),
        }
        let config = *model.config();
        let context: usize = if options.context_length <= config.max_position_embeddings {
            options.context_length
        } else {
            config.max_position_embeddings
        };
        if context == 0 {
            return Err(EngineError::ZeroContext);
        }
        proof {
            config::valid_heads_fit(config);
        }
        let kv_cache = match KVCache::new(&config, context, zero) {
            Ok(cache) => cache,
            Err(error) => return Err(EngineError::Cache { error }),
        };
        let buffers = InferenceBuffers::new(&config, context, zero);
        let mut seen_tokens: Vec<bool> = Vec::new();
        for i in 0..config.vocab_size
            invariant
                seen_tokens@ == Seq::new(i as nat, |i: int| false),
        {
            seen_tokens.push(false);
            assert(seen_tokens@ =~= Seq::new((i + 1) as nat, |i: int| false));
        }
        Ok(
            InferenceEngine {
                model,
                tokenizer,
                kv_cache,
                buffers,
                temperature: options.temperature,
                top_p: options.top_p,
                top_k: options.top_k,
                repetition_penalty: options.repetition_penalty,
                max_repeat_window: options.repeat_last_n,
                eos_token_ids,
                recent_tokens: Vec::new(),
                seen_tokens,
            },
        )
    }

    /// How tokens are sampled.
    fn sampling_options(&self) -> (options: Sampling)
        ensures
            options == self.sampling(),
    {
        Sampling {
            temperature: self.temperature,
            top_p: self.top_p,
            top_k: self.top_k,
            repetition_penalty: self.repetition_penalty,
        }
    }

    /// Starts a new conversation.
    pub fn reset(&mut self)
        ensures
            final(self).same_setup(old(self)),
            old(self).valid() ==> final(self).valid(),
            final(self).kv_cache == old(self).kv_cache,
            final(self).buffers == old(self).buffers,
            final(self).recent_tokens@ == Seq::<u32>::empty(),
    {
        self.kv_cache.reset();
        self.recent_tokens = Vec::new();
    }

    /// Adds a token to the repetition window.
    fn remember(&mut self, token: u32)
        requires
            old(self).recent_tokens@.len() <= old(self).max_repeat_window,
        ensures
            final(self).same_setup(old(self)),
            old(self).valid() ==> final(self).valid(),
            final(self).kv_cache == old(self).kv_cache,
            final(self).buffers == old(self).buffers,
            final(self).recent_tokens@ == remembered(
                old(self).recent_tokens@,
                old(self).max_repeat_window,
                token,
            ),
            final(self).recent_tokens@.len() <= final(self).max_repeat_window,
    {
        if self.max_repeat_window == 0 {
            return;
        }
        self.recent_tokens.push(token);
        if self.recent_tokens.len() > self.max_repeat_window {
            self.recent_tokens.remove(0);
            assert(self.recent_tokens@ =~= old(self).recent_tokens@.push(token).drop_first());
        }
    }

    /// Samples a token from the current logits.
    fn sample_current_logits<S: SamplingMath<T>>(&mut self, math: &S) -> (token: u32)
        requires
            old(self).valid(),
        ensures
            final(self).same_setup(old(self)),
            final(self).valid(),
            final(self).kv_cache == old(self).kv_cache,
            final(self).buffers == old(self).buffers,
            final(self).recent_tokens == old(self).recent_tokens,
            sampling::sampled(
                *math,
                old(self).sampling(),
                old(self).buffers.logits@,
                old(self).recent_tokens@,
                token,
            ),
            token < old(self).model.dimensions().vocab_size,
    {
        let options = self.sampling_options();
        sampling::sample(
            math,
            options,
            self.buffers.logits.as_slice(),
            self.recent_tokens.as_slice(),
            &mut self.seen_tokens,
        )
    }

    /// Finds the likeliest token of the current logits.
    fn argmax_current_logits<S: SamplingMath<T>>(&self, math: &S) -> (token: u32)
        requires
            self.valid(),
        ensures
            sampling::likeliest(*math, self.buffers.logits@, token),
            token < self.model.dimensions().vocab_size,
    {
        sampling::argmax(math, self.buffers.logits.as_slice())
    }

    /// Runs the model on one token at a position and samples its successor.
    pub fn forward_step<S: SamplingMath<T>>(&mut self, token_id: u32, pos: usize, math: &S) -> (result:
        Result<u32, EngineError>)
        requires
            old(self).valid(),
        ensures
            final(self).valid(),
            final(self).same_setup(old(self)),
            match architecture::token_fault(
                token_id,
                pos,
                old(self).model.dimensions().vocab_size,
                old(self).kv_cache.max_seq_len,
            ) {
                Some(e) => {
                    &&& result matches Err(EngineError::Model { error }) && error == e
                    &&& final(self).same_state(old(self))
                },
                None => {
                    let after = old(self).model.token_result(
                        token_id,
                        pos as int,
                        old(self).kv_cache@,
                    );
                    &&& result is Ok
                    &&& sampling::sampled(
                        *math,
                        old(self).sampling(),
                        old(self).model.logits_result(after.residual),
                        old(self).recent_tokens@,
                        result->Ok_0,
                    )
                    &&& final(self).kv_cache@ == after.cache
                    &&& final(self).recent_tokens@ == remembered(
                        old(self).recent_tokens@,
                        old(self).max_repeat_window,
                        result->Ok_0,
                    )
                },
            },
    {
        match self.model.forward_token(
            token_id,
            pos,
            &mut self.kv_cache,
            &mut self.buffers,
            LogitsMode::Compute,
        ) {
            Ok(()) => {},
            Err(error) => return Err(EngineError::Model { error }),
        }
        let next = self.sample_current_logits(math);
        self.remember(next);
        Ok(next)
    }
}

impl<T: Copy, M: CausalModel<T>> InferenceEngine<T, M> {
    /// Starts a new conversation with the end of a prompt in the repetition window.
    fn begin(&mut self, prompt: &[u32])
        requires
            old(self).valid(),
        ensures
            final(self).valid(),
            final(self).same_setup(old(self)),
            final(self).kv_cache == old(self).kv_cache,
            final(self).buffers == old(self).buffers,
            final(self).recent_tokens@ == window_of(prompt@, old(self).max_repeat_window),
    {
        self.reset();
        let total: usize = prompt.len();
        let window: usize = self.max_repeat_window;
        let start: usize = if total > window {
            total - window
        } else {
            0
        };
        let mut at: usize = start;
        assert(self.recent_tokens@ =~= prompt@.subrange(start as int, at as int));
        while at < total
            invariant
                total == prompt@.len(),
                window == self.max_repeat_window,
                start <= at <= total,
                total - start <= window,
                self.valid(),
                self.same_setup(old(self)),
                self.kv_cache == old(self).kv_cache,
                self.buffers == old(self).buffers,
                self.recent_tokens@ == prompt@.subrange(start as int, at as int),
            decreases total - at,
        {
            self.remember(prompt[at]);
            assert(self.recent_tokens@ =~= prompt@.subrange(start as int, at + 1));
            at = at + 1;
        }
        assert(self.recent_tokens@ =~= window_of(prompt@, window));
    }

    /// Samples the tokens of an answer, one after the other, after the prompt has run.
    #[verifier::spinoff_prover]
    fn decode_loop<S: SamplingMath<T>>(
        &mut self,
        prompt: &[u32],
        count: usize,
        math: &S,
        Ghost(cache): Ghost<CacheView<T>>,
    ) -> (answer: Vec<u32>)
        requires
            old(self).valid(),
            prompt@.len() > 0,
            prompt@.len() + count <= old(self).kv_cache.max_seq_len,
            old(self).recent_tokens@ == window_of(prompt@, old(self).max_repeat_window),
            old(self).kv_cache@ == prompt_flow(old(self).model, prompt@, cache).cache,
            old(self).buffers.logits@ == answer_logits(
                old(self).model,
                prompt@,
                cache,
                Seq::<u32>::empty(),
            ),
        ensures
            final(self).valid(),
            final(self).same_setup(old(self)),
            answers(
                old(self).model,
                *math,
                old(self).sampling(),
                old(self).max_repeat_window,
                prompt@,
                cache,
                answer@,
            ),
            well_ended(answer@, old(self).eos_token_ids@, count as int),
            final(self).recent_tokens@ == window_of(
                prompt@ + answer@,
                old(self).max_repeat_window,
            ),
            final(self).kv_cache@ == answer_flow(
                old(self).model,
                prompt@,
                cache,
                if answer@.len() > 0 && old(self).eos_token_ids@.contains(answer@.last()) {
                    answer@.drop_last()
                } else {
                    answer@
                },
            ).cache,
    {
        let mut answer: Vec<u32> = Vec::new();
        let mut ended: bool = false;
        let ghost window = self.max_repeat_window;
        let ghost model = self.model;
        let ghost eos = self.eos_token_ids@;
        assert(prompt@ + Seq::<u32>::empty() =~= prompt@);
        assert(answer@ =~= Seq::<u32>::empty());
        while answer.len() < count && !ended
            invariant
                self.valid(),
                self.same_setup(old(self)),
                model == old(self).model,
                eos == old(self).eos_token_ids@,
                window == old(self).max_repeat_window,
                prompt@.len() > 0,
                prompt@.len() + count <= self.kv_cache.max_seq_len,
                answer@.len() <= count,
                ended ==> answer@.len() > 0,
                answers(
                    model,
                    *math,
                    old(self).sampling(),
                    window,
                    prompt@,
                    cache,
                    answer@,
                ),
                self.recent_tokens@ == window_of(prompt@ + answer@, window),
                forall|i: int| 0 <= i < answer@.len() - 1 ==> !eos.contains(#[trigger] answer@[i]),
                answer@.len() > 0 ==> (ended <==> eos.contains(answer@.last())),
                !ended ==> self.kv_cache@ == answer_flow(model, prompt@, cache, answer@).cache,
                !ended ==> self.buffers.logits@ == answer_logits(model, prompt@, cache, answer@),
                ended ==> self.kv_cache@ == answer_flow(
                    model,
                    prompt@,
                    cache,
                    answer@.drop_last(),
                ).cache,
            decreases count - answer@.len(), if ended { 0int } else { 1int },
        {
            let ghost before = answer@;
            let token = self.sample_current_logits(math);
            proof {
                window_holds_the_end_of_the_history(prompt@ + before, window, token);
                assert((prompt@ + before).push(token) =~= prompt@ + before.push(token));
            }
            answer.push(token);
            self.remember(token);
            proof {
                let now = answer@;
                assert(now.drop_last() =~= before);
                assert forall|i: int| 0 <= i < now.len() implies sampling::sampled(
                    *math,
                    old(self).sampling(),
                    answer_logits(model, prompt@, cache, now.take(i)),
                    window_of(prompt@ + now.take(i), window),
                    #[trigger] now[i],
                ) by {
                    if i < before.len() {
                        assert(now.take(i) =~= before.take(i));
                        assert(now[i] == before[i]);
                    } else {
                        assert(now.take(i) =~= before);
                    }
                }
                assert forall|i: int| 0 <= i < now.len() - 1 implies !eos.contains(
                    #[trigger] now[i],
                ) by {
                    assert(now[i] == before[i]);
                    if i == before.len() - 1 {
                        assert(before.last() == before[i]);
                    }
                }
            }
            if is_listed(self.eos_token_ids.as_slice(), token) {
                ended = true;
            } else {
                let pos: usize = prompt.len() + answer.len() - 1;
                let step = self.model.forward_token(
                    token,
                    pos,
                    &mut self.kv_cache,
                    &mut self.buffers,
                    LogitsMode::Compute,
                );
                assert(step is Ok);
            }
        }
        answer
    }

    /// Runs a prompt of token numbers through the model and answers it. Gives the answer and the
    /// nanoseconds that the prompt and the answer took.
    pub fn generate_tokens<S: SamplingMath<T>>(
        &mut self,
        prompt: &[u32],
        max_new_tokens: usize,
        math: &S,
    ) -> (result: Result<(Vec<u32>, u64, u64), EngineError>)
        requires
            old(self).valid(),
        ensures
            final(self).valid(),
            final(self).same_setup(old(self)),
            match result {
                Ok((answer, _, _)) => old(self).accepts(prompt@) && old(self).answered(
                    *math,
                    max_new_tokens,
                    prompt@,
                    final(self),
                    answer@,
                ),
                Err(error) => !old(self).accepts(prompt@) && old(self).refused(
                    prompt@,
                    final(self),
                    error,
                ),
            },
    {
        let total: usize = prompt.len();
        let context: usize = self.kv_cache.max_seq_len;
        if total == 0 {
            return Err(EngineError::EmptyPrompt);
        }
        if total >= context {
            return Err(EngineError::PromptTooLong { tokens: total, context });
        }
        let ghost cache = self.kv_cache@;
        self.begin(prompt);
        let prefill_started = start_clock();
        match self.model.prefill(prompt, 0, &mut self.kv_cache, &mut self.buffers) {
            Ok(()) => {},
            Err(error) => return Err(EngineError::Model { error }),
        }
        let prefill: u64 = nanoseconds_since(&prefill_started);
        let available: usize = context - total;
        let count: usize = if max_new_tokens <= available {
            max_new_tokens
        } else {
            available
        };
        let decode_started = start_clock();
        let answer = self.decode_loop(prompt, count, math, Ghost(cache));
        let decode: u64 = nanoseconds_since(&decode_started);
        Ok((answer, prefill, decode))
    }

    /// Answers a prompt of token numbers. The text holds only the newly generated tokens.
    pub fn generate_from_tokens<S: SamplingMath<T>>(
        &mut self,
        prompt: &[u32],
        max_new_tokens: usize,
        math: &S,
    ) -> (result: Result<GenerationOutput, EngineError>)
        requires
            old(self).valid(),
        ensures
            final(self).valid(),
            final(self).same_setup(old(self)),
            old(self).outcome(*math, max_new_tokens, prompt@, final(self), result),
    {
        let (token_ids, prefill, decode_time) = match self.generate_tokens(
            prompt,
            max_new_tokens,
            math,
        ) {
            Ok(answer) => answer,
            Err(e) => return Err(e),
        };
        assert(old(self).answered(*math, max_new_tokens, prompt@, self, token_ids@));
        if !settings::decodes(&self.tokenizer) {
            return Err(EngineError::DecoderSettings);
        }
        let text = match decode(&self.tokenizer, token_ids.as_slice()) {
            Ok(text) => text,
            Err(message) => return Err(EngineError::Decode { message }),
        };
        let metrics = InferenceMetrics {
            prompt_tokens: prompt.len(),
            generated_tokens: token_ids.len(),
            prefill,
            decode: decode_time,
        };
        Ok(GenerationOutput { text, token_ids, metrics })
    }

    /// Encodes a prompt, without special tokens.
    pub fn encode_prompt(&self, prompt: &str) -> (result: Result<Vec<u32>, EngineError>)
        ensures
            if self.encodes() {
                match result {
                    Ok(ids) => may_encode_to(self.tokenizer, prompt, Ok(ids)),
                    Err(error) => error matches EngineError::Encode { message } && may_encode_to(
                        self.tokenizer,
                        prompt,
                        Err(message),
                    ),
                }
            } else {
                result matches Err(EngineError::EncoderSettings)
            },
    {
        if !settings::encodes(&self.tokenizer) {
            return Err(EngineError::EncoderSettings);
        }
        let encoded = encode(&self.tokenizer, prompt);
        assert(may_encode_to(self.tokenizer, prompt, encoded));
        match encoded {
            Ok(ids) => Ok(ids),
            Err(message) => Err(EngineError::Encode { message }),
        }
    }

    /// Answers a prompt: the tokenizer encodes it, and its token numbers are answered.
    pub fn generate_with_metrics<S: SamplingMath<T>>(
        &mut self,
        prompt: &str,
        max_new_tokens: usize,
        math: &S,
    ) -> (result: Result<GenerationOutput, EngineError>)
        requires
            old(self).valid(),
        ensures
            final(self).valid(),
            final(self).same_setup(old(self)),
            if old(self).encodes() {
                match result {
                    Err(EngineError::Encode { message }) => final(self).same_state(old(self))
                        && may_encode_to(old(self).tokenizer, prompt, Err(message)),
                    _ => exists|ids: Vec<u32>| #[trigger]
                        may_encode_to(old(self).tokenizer, prompt, Ok(ids)) && old(self).outcome(
                            *math,
                            max_new_tokens,
                            ids@,
                            final(self),
                            result,
                        ),
                }
            } else {
                result matches Err(EngineError::EncoderSettings) && final(self).same_state(
                    old(self),
                )
            },
    {
        let ids = match self.encode_prompt(prompt) {
            Ok(ids) => ids,
            Err(e) => return Err(e),
        };
        self.generate_from_tokens(ids.as_slice(), max_new_tokens, math)
    }

    /// Answers a prompt and gives the text alone.
    pub fn generate<S: SamplingMath<T>>(&mut self, prompt: &str, max_new_tokens: usize, math: &S) -> (
        result: Result<String, EngineError>)
        requires
            old(self).valid(),
        ensures
            final(self).valid(),
            final(self).same_setup(old(self)),
            if old(self).encodes() {
                match result {
                    Err(EngineError::Encode { message }) => final(self).same_state(old(self))
                        && may_encode_to(old(self).tokenizer, prompt, Err(message)),
                    Err(error) => exists|ids: Vec<u32>| #[trigger]
                        may_encode_to(old(self).tokenizer, prompt, Ok(ids)) && old(self).outcome(
                            *math,
                            max_new_tokens,
                            ids@,
                            final(self),
                            Err(error),
                        ),
                    Ok(text) => exists|ids: Vec<u32>, output: GenerationOutput|
                        #![trigger may_encode_to(old(self).tokenizer, prompt, Ok(ids)),
                            old(self).outcome(*math, max_new_tokens, ids@, final(self), Ok(output))]
                        may_encode_to(old(self).tokenizer, prompt, Ok(ids)) && old(self).outcome(
                            *math,
                            max_new_tokens,
                            ids@,
                            final(self),
                            Ok(output),
                        ) && output.text == text,
                }
            } else {
                result matches Err(EngineError::EncoderSettings) && final(self).same_state(
                    old(self),
                )
            },
    {
        match self.generate_with_metrics(prompt, max_new_tokens, math) {
            Ok(output) => Ok(output.text),
            Err(e) => Err(e),
        }
    }

    /// Runs the likeliest token a given number of times, after the prompt has run.
    #[verifier::spinoff_prover]
    fn greedy_loop<S: SamplingMath<T>>(
        &mut self,
        prompt: &[u32],
        count: usize,
        math: &S,
        Ghost(cache): Ghost<CacheView<T>>,
    )
        requires
            old(self).valid(),
            prompt@.len() > 0,
            prompt@.len() + count <= old(self).kv_cache.max_seq_len,
            old(self).kv_cache@ == prompt_flow(old(self).model, prompt@, cache).cache,
            old(self).buffers.logits@ == answer_logits(
                old(self).model,
                prompt@,
                cache,
                Seq::<u32>::empty(),
            ),
        ensures
            final(self).valid(),
            final(self).same_setup(old(self)),
            final(self).recent_tokens == old(self).recent_tokens,
            exists|answer: Seq<u32>| #[trigger]
                greedy(old(self).model, *math, prompt@, cache, answer) && answer.len() == count
                    && final(self).kv_cache@ == answer_flow(
                    old(self).model,
                    prompt@,
                    cache,
                    answer,
                ).cache,
    {
        let total: usize = prompt.len();
        let ghost model = self.model;
        let ghost mut answer = Seq::<u32>::empty();
        let mut step: usize = 0;
        while step < count
            invariant
                self.valid(),
                self.same_setup(old(self)),
                self.recent_tokens == old(self).recent_tokens,
                model == old(self).model,
                self.model == model,
                total == prompt@.len(),
                total > 0,
                total + count <= self.kv_cache.max_seq_len,
                step <= count,
                answer.len() == step,
                greedy(model, *math, prompt@, cache, answer),
                self.kv_cache@ == answer_flow(model, prompt@, cache, answer).cache,
                self.buffers.logits@ == answer_logits(model, prompt@, cache, answer),
            decreases count - step,
        {
            let token = self.argmax_current_logits(math);
            proof {
                let now = answer.push(token);
                assert(now.drop_last() =~= answer);
                assert forall|i: int| 0 <= i < now.len() implies sampling::likeliest(
                    *math,
                    answer_logits(model, prompt@, cache, now.take(i)),
                    #[trigger] now[i],
                ) by {
                    if i < answer.len() {
                        assert(now.take(i) =~= answer.take(i));
                        assert(now[i] == answer[i]);
                    } else {
                        assert(now.take(i) =~= answer);
                    }
                }
                answer = now;
            }
            let done = self.model.forward_token(
                token,
                total + step,
                &mut self.kv_cache,
                &mut self.buffers,
                LogitsMode::Compute,
            );
            assert(done is Ok);
            step = step + 1;
        }
    }

    /// Runs a prompt of token numbers and then the likeliest token, a given number of times.
    pub fn benchmark_tokens<S: SamplingMath<T>>(
        &mut self,
        prompt: &[u32],
        decode_tokens: usize,
        math: &S,
    ) -> (result: Result<InferenceMetrics, EngineError>)
        requires
            old(self).valid(),
        ensures
            final(self).valid(),
            final(self).same_setup(old(self)),
            if prompt@.len() == 0 {
                result matches Err(EngineError::EmptyBenchmark) && final(self).same_state(old(self))
            } else if prompt@.len() + decode_tokens > old(self).kv_cache.max_seq_len {
                result matches Err(EngineError::BenchmarkTooLong) && final(self).same_state(
                    old(self),
                )
            } else if old(self).prompt_fault(prompt@) is Some {
                &&& result matches Err(EngineError::Model { error }) && old(self).prompt_fault(
                    prompt@,
                ) == Some(error)
                &&& old(self).ran_part(prompt@, final(self))
                &&& final(self).recent_tokens@ == Seq::<u32>::empty()
            } else {
                result matches Ok(metrics) && {
                    &&& final(self).recent_tokens@ == Seq::<u32>::empty()
                    &&& metrics.prompt_tokens == prompt@.len()
                    &&& metrics.generated_tokens == decode_tokens
                    &&& exists|answer: Seq<u32>| #[trigger]
                        greedy(
                            old(self).model,
                            *math,
                            prompt@,
                            old(self).kv_cache@,
                            answer,
                        ) && answer.len() == decode_tokens && final(self).kv_cache@ == answer_flow(
                            old(self).model,
                            prompt@,
                            old(self).kv_cache@,
                            answer,
                        ).cache
                }
            },
    {
        let total: usize = prompt.len();
        if total == 0 {
            return Err(EngineError::EmptyBenchmark);
        }
        let context: usize = self.kv_cache.max_seq_len;
        if total > context || decode_tokens > context - total {
            return Err(EngineError::BenchmarkTooLong);
        }
        let ghost cache = self.kv_cache@;
        proof {
            architecture::acceptable_tokens_have_no_fault(
                prompt@,
                0,
                self.model.dimensions().vocab_size,
                context,
            );
        }
        self.reset();
        let prefill_started = start_clock();
        match self.model.prefill(prompt, 0, &mut self.kv_cache, &mut self.buffers) {
            Ok(()) => {},
            Err(error) => return Err(EngineError::Model { error }),
        }
        let prefill: u64 = nanoseconds_since(&prefill_started);
        let decode_started = start_clock();
        self.greedy_loop(prompt, decode_tokens, math, Ghost(cache));
        let decode_time: u64 = nanoseconds_since(&decode_started);
        Ok(
            InferenceMetrics {
                prompt_tokens: total,
                generated_tokens: decode_tokens,
                prefill,
                decode: decode_time,
            },
        )
    }

    /// The kernels that the model computes with, in words.
    pub fn backend_summary(&self) -> (summary: String)
        ensures
            summary@ == self.model.kernels().0 + " / "@ + text::decimal(
                self.model.kernels().1 as nat,
            ) + " threads"@,
    {
        let (name, threads) = self.model.backend();
        let mut summary = String::new();
        summary.append(name);
        summary.append(" / ");
        text::push_decimal(&mut summary, threads as u64);
        summary.append(" threads");
        assert(summary@ =~= self.model.kernels().0 + " / "@ + text::decimal(
            self.model.kernels().1 as nat,
        ) + " threads"@);
        summary
    }
}

/// The text that asks for an answer to one message.
pub open spec fn chat_text(system: Seq<char>, message: Seq<char>) -> Seq<char> {
    "<|im_start|>system\n"@ + system + "<|im_end|>\n<|im_start|>user\n"@ + message
        + "<|im_end|>\n<|im_start|>assistant\n"@
}

/// Renders the text that asks for an answer to one message.
pub fn chat_prompt(system: &str, message: &str) -> (prompt: String)
    ensures
        prompt@ == chat_text(system@, message@),
{
    let mut prompt = String::new();
    prompt.append("<|im_start|>system\n");
    prompt.append(system);
    prompt.append("<|im_end|>\n<|im_start|>user\n");
    prompt.append(message);
    prompt.append("<|im_end|>\n<|im_start|>assistant\n");
    assert(prompt@ =~= chat_text(system@, message@));
    prompt
}

/// Every token of the answer is the likeliest after the prompt and the tokens before it.
pub open spec fn greedy<T: Copy, M: CausalModel<T>, S: SamplingMath<T>>(
    model: M,
    math: S,
    prompt: Seq<u32>,
    cache: CacheView<T>,
    answer: Seq<u32>,
) -> bool {
    forall|i: int|
        0 <= i < answer.len() ==> sampling::likeliest(
            math,
            answer_logits(model, prompt, cache, answer.take(i)),
            #[trigger] answer[i],
        )
}

/// The repetition window is the end of the history: the last tokens of it, as many as the window
/// holds, or all where there are fewer.
pub proof fn windows_end_with_the_history(history: Seq<u32>, window: usize)
    ensures
        window_of(history, window) == history.subrange(
            if history.len() > window {
                history.len() - window
            } else {
                0
            },
            history.len() as int,
        ),
{
    assert(history.subrange(0, history.len() as int) =~= history);
}

/// The states of a conversation: the first is that after the last token of the prompt, whose other
/// tokens have run before it, and each further one is that after one token more of the answer, at
/// the position behind the one before it.
proof fn lemma_answer_states<T: Copy, M: CausalModel<T>>(
    model: M,
    prompt: Seq<u32>,
    cache: CacheView<T>,
    answer: Seq<u32>,
    states: Seq<Flow<T>>,
    k: int,
)
    requires
        0 <= k <= answer.len(),
        prompt.len() > 0,
        states.len() == answer.len() + 1,
        states[0] == model.token_result(
            prompt.last(),
            prompt.len() - 1,
            model.sequence_result(prompt, 0, cache, prompt.len() - 1),
        ),
        forall|i: int|
            0 <= i < answer.len() ==> states[i + 1] == model.token_result(
                answer[i],
                prompt.len() + i,
                (#[trigger] states[i]).cache,
            ),
    ensures
        answer_flow(model, prompt, cache, answer.take(k)) == states[k],
    decreases k,
{
    if k > 0 {
        lemma_answer_states(model, prompt, cache, answer, states, k - 1);
        assert(answer.take(k).drop_last() =~= answer.take(k - 1));
        assert(answer.take(k).last() == answer[k - 1]);
        assert(states[k - 1 + 1] == model.token_result(
            answer[k - 1],
            prompt.len() + (k - 1),
            states[k - 1].cache,
        ));
    }
}

/// The window of the repetition penalty before a token of an answer.
proof fn lemma_window_before(prompt: Seq<u32>, answer: Seq<u32>, window: usize, i: int)
    requires
        0 <= i <= answer.len(),
    ensures
        ({
            let n = prompt.len() + i;
            window_of(prompt + answer.take(i), window) == (prompt + answer).subrange(
                if n > window {
                    n - window
                } else {
                    0
                },
                n,
            )
        }),
{
    let so_far = prompt + answer.take(i);
    let n = prompt.len() + i;
    let from = if n > window {
        n - window
    } else {
        0
    };
    windows_end_with_the_history(so_far, window);
    assert(so_far.len() == n);
    assert(so_far.subrange(from, n) =~= (prompt + answer).subrange(from, n));
}

/// What an answer is. Each of its tokens was sampled from the logits of the state that the prompt and
/// the tokens before it left, with the end of the conversation up to there as the window of the
/// repetition penalty. It has no more tokens than were asked for and than the context has room for;
/// an end token is its last one, and without an end token it fills that room. An end token does not
/// run; the others have.
#[verifier::spinoff_prover]
#[verifier::rlimit(40)]
pub proof fn answers_are_sampled_until_they_end<T: Copy, M: CausalModel<T>, S: SamplingMath<T>>(
    engine: InferenceEngine<T, M>,
    math: S,
    max_new_tokens: usize,
    prompt: Seq<u32>,
    after: InferenceEngine<T, M>,
    answer: Seq<u32>,
    states: Seq<Flow<T>>,
    i: int,
)
    requires
        engine.answered(math, max_new_tokens, prompt, &after, answer),
        0 < prompt.len() <= engine.kv_cache.max_seq_len,
        states.len() == answer.len() + 1,
        states[0] == engine.model.token_result(
            prompt.last(),
            prompt.len() - 1,
            engine.model.sequence_result(prompt, 0, engine.kv_cache@, prompt.len() - 1),
        ),
        forall|k: int|
            0 <= k < answer.len() ==> states[k + 1] == engine.model.token_result(
                answer[k],
                prompt.len() + k,
                (#[trigger] states[k]).cache,
            ),
    ensures
        ({
            let spoken = prompt + answer;
            let window = engine.max_repeat_window as int;
            let recent = |n: int|
                spoken.subrange(
                    if n > window {
                        n - window
                    } else {
                        0
                    },
                    n,
                );
            let ends = |token: u32| engine.eos_token_ids@.contains(token);
            &&& answer.len() <= max_new_tokens
            &&& prompt.len() + answer.len() <= engine.kv_cache.max_seq_len
            &&& 0 <= i < answer.len() ==> sampling::sampled(
                math,
                (Sampling {
                    temperature: engine.temperature,
                    top_p: engine.top_p,
                    top_k: engine.top_k,
                    repetition_penalty: engine.repetition_penalty,
                }),
                engine.model.logits_result(states[i].residual),
                recent(prompt.len() + i),
                answer[i],
            )
            &&& 0 <= i < answer.len() - 1 ==> !ends(answer[i])
            &&& answer.len() < max_new_tokens && prompt.len() + answer.len()
                < engine.kv_cache.max_seq_len ==> answer.len() > 0 && ends(answer.last())
            &&& answer.len() > 0 && ends(answer.last()) ==> after.kv_cache@
                == states[answer.len() - 1].cache
            &&& !(answer.len() > 0 && ends(answer.last())) ==> after.kv_cache@
                == states[answer.len() as int].cache
            &&& after.recent_tokens@ == recent(spoken.len() as int)
        }),
{
    let n = answer.len() as int;
    lemma_answer_states(engine.model, prompt, engine.kv_cache@, answer, states, n);
    assert(answer.take(n) =~= answer);
    lemma_window_before(prompt, answer, engine.max_repeat_window, n);
    if n > 0 {
        lemma_answer_states(engine.model, prompt, engine.kv_cache@, answer, states, n - 1);
        assert(answer.take(n - 1) =~= answer.drop_last());
    }
    if 0 <= i < n {
        lemma_answer_states(engine.model, prompt, engine.kv_cache@, answer, states, i);
        lemma_window_before(prompt, answer, engine.max_repeat_window, i);
        assert(sampling::sampled(
            math,
            engine.sampling(),
            answer_logits(engine.model, prompt, engine.kv_cache@, answer.take(i)),
            window_of(prompt + answer.take(i), engine.max_repeat_window),
            answer[i],
        ));
    }
}

/// Which prompts are answered: those with a token, with room for one more token in the context, and
/// with every token in the vocabulary. A prompt that is refused is refused for having no token, then
/// for its length, then for its first token outside the vocabulary.
pub proof fn prompts_are_refused_in_turn<T: Copy, M: CausalModel<T>>(
    engine: InferenceEngine<T, M>,
    prompt: Seq<u32>,
    after: InferenceEngine<T, M>,
    error: EngineError,
    k: int,
)
    requires
        engine.refused(prompt, &after, error),
    ensures
        engine.accepts(prompt) <==> 0 < prompt.len() < engine.kv_cache.max_seq_len && forall|i: int|
            0 <= i < prompt.len() ==> #[trigger] prompt[i] < engine.model.dimensions().vocab_size,
        prompt.len() == 0 ==> error is EmptyPrompt,
        0 < prompt.len() && prompt.len() >= engine.kv_cache.max_seq_len ==> (
        error matches EngineError::PromptTooLong { tokens, context } && tokens == prompt.len()
            && context == engine.kv_cache.max_seq_len),
        0 <= k < prompt.len() < engine.kv_cache.max_seq_len && prompt[k]
            >= engine.model.dimensions().vocab_size && (forall|i: int|
            0 <= i < k ==> #[trigger] prompt[i] < engine.model.dimensions().vocab_size) ==> (
        error matches EngineError::Model { error: e } && e == (ModelError::Token {
            token: prompt[k],
        })),
{
    let vocab = engine.model.dimensions().vocab_size;
    let context = engine.kv_cache.max_seq_len;
    if 0 <= k < prompt.len() < context && prompt[k] >= vocab && (forall|i: int|
        0 <= i < k ==> #[trigger] prompt[i] < vocab) {
        architecture::the_first_refused_token_is_reported(
            prompt,
            0,
            vocab,
            context,
            prompt.len() as int,
            k,
        );
    }
}

/// What a finished answer reports: its text is what the tokenizer decodes its tokens to, and it
/// counts the tokens of the prompt and of the answer.
pub proof fn outputs_report_their_answer<T: Copy, M: CausalModel<T>, S: SamplingMath<T>>(
    engine: InferenceEngine<T, M>,
    math: S,
    max_new_tokens: usize,
    prompt: Seq<u32>,
    after: InferenceEngine<T, M>,
    result: Result<GenerationOutput, EngineError>,
)
    requires
        engine.outcome(math, max_new_tokens, prompt, &after, result),
    ensures
        !engine.accepts(prompt) ==> result is Err,
        result matches Ok(output) ==> {
            &&& engine.answered(math, max_new_tokens, prompt, &after, output.token_ids@)
            &&& decoded_text(engine.tokenizer, output.token_ids@) == Some(output.text@)
            &&& output.metrics.prompt_tokens == prompt.len()
            &&& output.metrics.generated_tokens == output.token_ids@.len()
        },
        engine.accepts(prompt) && result is Err ==> result->Err_0 is Decode || result->Err_0
            is DecoderSettings,
        engine.accepts(prompt) && result is Err && result->Err_0 is DecoderSettings
            ==> !settings::can_decode(engine.tokenizer),
{
}

/// Which tokens end an answer: those that the generation configuration lists, alone or in a list,
/// and the two that the tokenizer knows as ends.
pub proof fn answers_end_with_these_tokens(
    number: Option<u64>,
    elements: Option<Seq<Option<u64>>>,
    known: Map<Seq<char>, u32>,
    id: u32,
)
    ensures
        ends_answer(entry_numbers(number, elements), known, id) <==> {
            ||| number == Some(id as u64)
            ||| number is None && elements is Some && exists|i: int|
                0 <= i < elements->0.len() && #[trigger] elements->0[i] == Some(id as u64)
            ||| known.contains_key("<|im_end|>"@) && known["<|im_end|>"@] == id
            ||| known.contains_key("<|endoftext|>"@) && known["<|endoftext|>"@] == id
        },
{
    if number == Some(id as u64) {
        assert(entry_numbers(number, elements)[0] == Some(id as u64));
    }
    if number is None && elements is Some {
        assert(entry_numbers(number, elements) == elements->0);
    }
}

/// The context of an engine is the shorter of what was asked for and what the model supports.
pub proof fn contexts_stay_in_the_model<T: Copy, M: CausalModel<T>>(
    model: M,
    options: EngineOptions,
)
    ensures
        ({
            let context = InferenceEngine::<T, M>::context_for(model, options);
            let limit = model.dimensions().max_position_embeddings;
            &&& context <= options.context_length
            &&& context <= limit
            &&& context == options.context_length || context == limit
        }),
        options.sampling() == (Sampling {
            temperature: options.temperature,
            top_p: options.top_p,
            top_k: options.top_k,
            repetition_penalty: options.repetition_penalty,
        }),
{
}

/// The text that asks for an answer: the system's text stands in the first turn, the message in the
/// second, which is the user's, and the assistant's turn is left open.
pub proof fn chats_have_three_turns(system: Seq<char>, message: Seq<char>)
    ensures
        ({
            let text = chat_text(system, message);
            let first = "<|im_start|>system\n"@;
            let second = "<|im_end|>\n<|im_start|>user\n"@;
            let third = "<|im_end|>\n<|im_start|>assistant\n"@;
            let a = first.len() as int;
            let b = a + system.len();
            let c = b + second.len();
            let d = c + message.len();
            &&& text.len() == d + third.len()
            &&& text.subrange(0, a) == first
            &&& text.subrange(a, b) == system
            &&& text.subrange(b, c) == second
            &&& text.subrange(c, d) == message
            &&& text.subrange(d, text.len() as int) == third
        }),
{
    let text = chat_text(system, message);
    let first = "<|im_start|>system\n"@;
    let second = "<|im_end|>\n<|im_start|>user\n"@;
    let third = "<|im_end|>\n<|im_start|>assistant\n"@;
    let a = first.len() as int;
    let b = a + system.len();
    let c = b + second.len();
    let d = c + message.len();
    assert(text.subrange(0, a) =~= first);
    assert(text.subrange(a, b) =~= system);
    assert(text.subrange(b, c) =~= second);
    assert(text.subrange(c, d) =~= message);
    assert(text.subrange(d, text.len() as int) =~= third);
}

/// A benchmark runs the likeliest token again and again: each token is the likeliest by the logits
/// of the state that the prompt and the tokens before it left.
pub proof fn benchmarks_run_the_likeliest_tokens<T: Copy, M: CausalModel<T>, S: SamplingMath<T>>(
    model: M,
    math: S,
    prompt: Seq<u32>,
    cache: CacheView<T>,
    answer: Seq<u32>,
    states: Seq<Flow<T>>,
    i: int,
)
    requires
        greedy(model, math, prompt, cache, answer),
        0 <= i < answer.len(),
        prompt.len() > 0,
        states.len() == answer.len() + 1,
        states[0] == model.token_result(
            prompt.last(),
            prompt.len() - 1,
            model.sequence_result(prompt, 0, cache, prompt.len() - 1),
        ),
        forall|k: int|
            0 <= k < answer.len() ==> states[k + 1] == model.token_result(
                answer[k],
                prompt.len() + k,
                (#[trigger] states[k]).cache,
            ),
    ensures
        sampling::likeliest(math, model.logits_result(states[i].residual), answer[i]),
        answer_flow(model, prompt, cache, answer).cache == states[answer.len() as int].cache,
{
    lemma_answer_states(model, prompt, cache, answer, states, i);
    lemma_answer_states(model, prompt, cache, answer, states, answer.len() as int);
    assert(answer.take(answer.len() as int) =~= answer);
    assert(sampling::likeliest(
        math,
        answer_logits(model, prompt, cache, answer.take(i)),
        answer[i],
    ));
}

} // verus!
