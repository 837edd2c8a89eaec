//! What a tokenizer is set up to do around its model, and whether a prompt can be encoded and an
//! answer decoded with those settings.
//!
//! A tokenizer file may ask for a truncation whose windows do not move on, for padding beyond what
//! can be addressed, for a normalizer that loses track of the prompt, for a pattern that moves the
//! start of what it finds, for a template over a second text that is not there, or for a decoder
//! that counts below zero. Such tokenizers load, and fail only in use; the functions here tell them
//! apart from the others beforehand.

use crate::json;
use crate::json::{field, flag, items, items_at, number_at, string, text_is};
use crate::text;
use serde_json::Value;
use tokenizers::{NormalizedString, Normalizer, Tokenizer};
use vstd::prelude::*;
use vstd::string::*;

verus! {

/// The deepest nesting of settings that is looked into. JSON texts that nest deeper do not parse.
pub const DEEPEST: u32 = 128;

/// The longest padding, in tokens, and the largest multiple to pad to.
pub const LONGEST_PADDING: u64 = 16_777_216;

/// The settings of a tokenizer as a JSON array: its truncation, its padding, its normalizer, its
/// pre-tokenizer, its post-processor, its decoder and its added tokens in the order of their numbers,
/// each as it is written to a tokenizer file.
pub uninterp spec fn settings_of(tokenizer: Tokenizer) -> Option<Value>;

/// Writes the settings of a tokenizer with `serde_json::to_value`; nothing where that fails. What
/// comes out depends on the tokenizer alone, its added tokens being written in the order of their
/// numbers; the contract names it.
#[verifier::external_body]
fn read_settings(tokenizer: &Tokenizer) -> (settings: Option<Value>)
    ensures
        settings == settings_of(*tokenizer),
{
    serde_json::to_value((
        tokenizer.get_truncation(),
        tokenizer.get_padding(),
        tokenizer.get_normalizer(),
        tokenizer.get_pre_tokenizer(),
        tokenizer.get_post_processor(),
        tokenizer.get_decoder(),
        tokenizer.get_added_vocabulary(),
    )).ok()
}

/// The texts of the added tokens.
pub uninterp spec fn added_texts(tokenizer: Tokenizer) -> Set<Seq<char>>;

/// Lists the keys of `AddedVocabulary::get_vocab`, the texts of the added tokens. Which they are
/// depends on the tokenizer alone; the contract names them as a set, and leaves the order of the list
/// open.
#[verifier::external_body]
fn list_added_texts(tokenizer: &Tokenizer) -> (list: Vec<String>)
    ensures
        forall|text: Seq<char>| #[trigger]
            added_texts(*tokenizer).contains(text) ==> exists|i: int|
                0 <= i < list@.len() && (#[trigger] list@[i])@ == text,
        forall|i: int|
            0 <= i < list@.len() ==> added_texts(*tokenizer).contains((#[trigger] list@[i])@),
{
    tokenizer.get_added_vocabulary().get_vocab().keys().cloned().collect()
}

/// What the normalizer of a tokenizer makes of a text, and the text itself where there is none;
/// nothing where the normalizer fails.
pub uninterp spec fn normalized_text(tokenizer: Tokenizer, text: Seq<char>) -> Option<Seq<char>>;

/// Normalizes a text with `Normalizer::normalize`. What comes out depends on the tokenizer and the
/// text alone; the contract names it. Normalizers with which the call can panic are left out.
#[verifier::external_body]
fn normalize(tokenizer: &Tokenizer, text: &str) -> (result: Option<String>)
    requires
        has_usable_normalizer(*tokenizer),
    ensures
        match result {
            Some(s) => normalized_text(*tokenizer, text@) == Some(s@),
            None => normalized_text(*tokenizer, text@) is None,
        },
{
    let mut normalized = NormalizedString::from(text);
    match tokenizer.get_normalizer() {
        Some(normalizer) => normalizer.normalize(&mut normalized).ok()?,
        None => {},
    }
    Some(normalized.get().to_owned())
}

/// A truncation can be used: none, one to nothing, or one whose windows overlap in part.
pub open spec fn truncates(setting: Value) -> bool {
    match (json::number_under(setting, "max_length"@), json::number_under(setting, "stride"@)) {
        (Some(length), Some(stride)) => length == 0 || stride < length,
        _ => true,
    }
}

/// Decides whether a truncation can be used.
fn can_truncate(setting: &Value) -> (r: bool)
    ensures
        r == truncates(*setting),
{
    match (number_at(setting, "max_length"), number_at(setting, "stride")) {
        (Some(length), Some(stride)) => length == 0 || stride < length,
        _ => true,
    }
}

/// The length that a padding fixes.
pub open spec fn fixed_length(setting: Value) -> Option<u64> {
    match json::field_of(setting, "strategy"@) {
        Some(strategy) => json::number_under(strategy, "Fixed"@),
        None => None,
    }
}

/// A number of tokens to pad to is absent, or one that can be addressed.
pub open spec fn paddable(length: Option<u64>) -> bool {
    length is Some ==> length->Some_0 <= LONGEST_PADDING
}

/// A padding can be used: none, or one to a length that can be addressed.
pub open spec fn pads(setting: Value) -> bool {
    paddable(fixed_length(setting)) && paddable(json::number_under(setting, "pad_to_multiple_of"@))
}

/// Decides whether a padding can be used.
fn can_pad(setting: &Value) -> (r: bool)
    ensures
        r == pads(*setting),
{
    let fixed = match field(setting, "strategy") {
        Some(strategy) => number_at(strategy, "Fixed"),
        None => None,
    };
    let multiple = number_at(setting, "pad_to_multiple_of");
    (match fixed {
        Some(length) => length <= LONGEST_PADDING,
        None => true,
    }) && (match multiple {
        Some(length) => length <= LONGEST_PADDING,
        None => true,
    })
}

/// A character behind a backslash that moves the start of a match, or refers back to a group.
pub open spec fn reaches_back(c: char) -> bool {
    c == 'K' || c == 'k' || '0' <= c <= '9'
}

/// A regular expression finds one stretch of a text after the other: nothing in it moves the start
/// of a match, and nothing refers back to a group.
pub open spec fn finds_in_turn(expression: Seq<char>) -> bool {
    &&& forall|i: int|
        0 <= i < expression.len() - 1 && #[trigger] expression[i] == '\\' ==> !reaches_back(
            expression[i + 1],
        )
    &&& !text::occurs(expression, "?P="@)
}

/// Decides whether a regular expression finds one stretch of a text after the other.
pub fn is_found_in_turn(expression: &str) -> (r: bool)
    ensures
        r == finds_in_turn(expression@),
{
    if text::contains(expression, "?P=") {
        return false;
    }
    let chars = text::chars_of(expression);
    let n: usize = chars.len();
    if n == 0 {
        return true;
    }
    let last: usize = n - 1;
    for i in 0..last
        invariant
            last == chars@.len() - 1,
            chars@ == expression@,
            !text::occurs(expression@, "?P="@),
            forall|k: int|
                0 <= k < i && #[trigger] chars@[k] == '\\' ==> !reaches_back(chars@[k + 1]),
    {
        let next = chars[i + 1];
        if chars[i] == '\\' && (next == 'K' || next == 'k' || '0' <= next && next <= '9') {
            assert(expression@[i as int] == '\\' && reaches_back(expression@[i + 1]));
            return false;
        }
    }
    true
}

/// The pattern of a part can be used: a given text, or a regular expression that finds one stretch
/// after the other.
pub open spec fn has_usable_pattern(part: Value) -> bool {
    match json::field_of(part, "pattern"@) {
        Some(pattern) => match json::text_under(pattern, "Regex"@) {
            Some(expression) => finds_in_turn(expression),
            None => true,
        },
        None => true,
    }
}

/// Decides whether the pattern of a part can be used.
fn can_use_pattern(part: &Value) -> (r: bool)
    ensures
        r == has_usable_pattern(*part),
{
    let pattern = match field(part, "pattern") {
        Some(pattern) => pattern,
        None => return true,
    };
    match field(pattern, "Regex") {
        Some(inner) => match string(inner) {
            Some(expression) => is_found_in_turn(expression),
            None => true,
        },
        None => true,
    }
}

/// A replacement puts nothing in where it has found nothing: it puts nothing in at all, or it looks
/// for a given text.
pub open spec fn replaces_something(part: Value) -> bool {
    json::text_under(part, "content"@) == Some(""@) || match json::field_of(part, "pattern"@) {
        Some(pattern) => {
            &&& json::text_under(pattern, "String"@) is Some
            &&& json::text_under(pattern, "String"@) != Some(""@)
        },
        None => false,
    }
}

/// Decides whether a replacement puts nothing in where it has found nothing.
fn replaces(part: &Value) -> (r: bool)
    ensures
        r == replaces_something(*part),
{
    if text_is(part, "content", "") {
        return true;
    }
    let pattern = match field(part, "pattern") {
        Some(pattern) => pattern,
        None => return false,
    };
    match field(pattern, "String") {
        Some(inner) => match string(inner) {
            Some(s) => !text::equals(s, ""),
            None => false,
        },
        None => false,
    }
}

/// A normalizer can be used: it is no compiled character map, its pattern can be used, and it puts
/// nothing in front of a prompt that belongs to no character of it. A sequence can be used where each
/// of its normalizers can.
pub open spec fn normalizes(part: Value, depth: nat) -> bool
    decreases depth,
{
    let kind = json::text_under(part, "type"@);
    let inner = json::items_under(part, "normalizers"@);
    &&& depth > 0
    &&& kind != Some("Precompiled"@)
    &&& kind == Some("Prepend"@) ==> json::text_under(part, "prepend"@) != Some(""@)
    &&& kind == Some("Replace"@) ==> replaces_something(part) && has_usable_pattern(part)
    &&& kind == Some("Sequence"@) ==> forall|i: int|
        0 <= i < inner.len() ==> normalizes(#[trigger] inner[i], (depth - 1) as nat)
}

/// Decides whether a normalizer can be used.
fn can_normalize(part: &Value, depth: u32) -> (r: bool)
    ensures
        r == normalizes(*part, depth as nat),
    decreases depth,
{
    if depth == 0 || text_is(part, "type", "Precompiled") {
        return false;
    }
    if text_is(part, "type", "Prepend") && text_is(part, "prepend", "") {
        return false;
    }
    if text_is(part, "type", "Replace") && !(replaces(part) && can_use_pattern(part)) {
        return false;
    }
    if !text_is(part, "type", "Sequence") {
        return true;
    }
    let list = match items_at(part, "normalizers") {
        Some(list) => list,
        None => return true,
    };
    let n: usize = list.len();
    for i in 0..n
        invariant
            n == list@.len(),
            depth > 0,
            list@ == json::items_under(*part, "normalizers"@),
            json::text_under(*part, "type"@) == Some("Sequence"@),
            forall|k: int| 0 <= k < i ==> normalizes(#[trigger] list@[k], (depth - 1) as nat),
    {
        if !can_normalize(&list[i], depth - 1) {
            assert(!normalizes(list@[i as int], (depth - 1) as nat));
            return false;
        }
    }
    true
}

/// A pre-tokenizer can be used: its pattern can be used. A sequence can be used where each of its
/// pre-tokenizers can.
pub open spec fn splits(part: Value, depth: nat) -> bool
    decreases depth,
{
    let kind = json::text_under(part, "type"@);
    let inner = json::items_under(part, "pretokenizers"@);
    &&& depth > 0
    &&& kind == Some("Split"@) ==> has_usable_pattern(part)
    &&& kind == Some("Sequence"@) ==> forall|i: int|
        0 <= i < inner.len() ==> splits(#[trigger] inner[i], (depth - 1) as nat)
}

/// Decides whether a pre-tokenizer can be used.
fn can_split(part: &Value, depth: u32) -> (r: bool)
    ensures
        r == splits(*part, depth as nat),
    decreases depth,
{
    if depth == 0 {
        return false;
    }
    if text_is(part, "type", "Split") && !can_use_pattern(part) {
        return false;
    }
    if !text_is(part, "type", "Sequence") {
        return true;
    }
    let list = match items_at(part, "pretokenizers") {
        Some(list) => list,
        None => return true,
    };
    let n: usize = list.len();
    for i in 0..n
        invariant
            n == list@.len(),
            depth > 0,
            list@ == json::items_under(*part, "pretokenizers"@),
            json::text_under(*part, "type"@) == Some("Sequence"@),
            forall|k: int| 0 <= k < i ==> splits(#[trigger] list@[k], (depth - 1) as nat),
    {
        if !can_split(&list[i], depth - 1) {
            assert(!splits(list@[i as int], (depth - 1) as nat));
            return false;
        }
    }
    true
}

/// A decoder can be used: its pattern can be used, it strips nothing from the end of a token, and it
/// does not look for the last of the tokens. A sequence can be used where each of its decoders can.
pub open spec fn reads(part: Value, depth: nat) -> bool
    decreases depth,
{
    let kind = json::text_under(part, "type"@);
    let inner = json::items_under(part, "decoders"@);
    &&& depth > 0
    &&& kind != Some("BPEDecoder"@)
    &&& kind == Some("Replace"@) ==> has_usable_pattern(part)
    &&& kind == Some("Strip"@) ==> json::number_under(part, "stop"@) == Some(0u64)
    &&& kind == Some("Sequence"@) ==> forall|i: int|
        0 <= i < inner.len() ==> reads(#[trigger] inner[i], (depth - 1) as nat)
}

/// Decides whether a decoder can be used.
fn can_read(part: &Value, depth: u32) -> (r: bool)
    ensures
        r == reads(*part, depth as nat),
    decreases depth,
{
    if depth == 0 || text_is(part, "type", "BPEDecoder") {
        return false;
    }
    if text_is(part, "type", "Replace") && !can_use_pattern(part) {
        return false;
    }
    if text_is(part, "type", "Strip") {
        match number_at(part, "stop") {
            Some(0) => {},
            _ => return false,
        }
    }
    if !text_is(part, "type", "Sequence") {
        return true;
    }
    let list = match items_at(part, "decoders") {
        Some(list) => list,
        None => return true,
    };
    let n: usize = list.len();
    for i in 0..n
        invariant
            n == list@.len(),
            depth > 0,
            list@ == json::items_under(*part, "decoders"@),
            json::text_under(*part, "type"@) == Some("Sequence"@),
            forall|k: int| 0 <= k < i ==> reads(#[trigger] list@[k], (depth - 1) as nat),
    {
        if !can_read(&list[i], depth - 1) {
            assert(!reads(list@[i as int], (depth - 1) as nat));
            return false;
        }
    }
    true
}

/// The texts that the first `k` pieces of a template put into its result, where `given` texts go
/// in; nothing where a piece asks for the second of fewer.
pub open spec fn placed(pieces: Seq<Value>, given: nat, k: int) -> Option<nat>
    decreases k,
{
    if k <= 0 {
        Some(0)
    } else {
        match (placed(pieces, given, k - 1), json::field_of(pieces[k - 1], "Sequence"@)) {
            (None, _) => None,
            (Some(before), None) => Some(before),
            (Some(before), Some(piece)) => if json::text_under(piece, "id"@) == Some("A"@) || given >= 2 {
                Some(before + 1)
            } else {
                None
            },
        }
    }
}

/// Counts the texts that a template puts into its result.
fn count_placed(template: &Value, key: &str, given: usize) -> (count: Option<usize>)
    ensures
        match count {
            Some(n) => placed(
                json::items_under(*template, key@),
                given as nat,
                json::items_under(*template, key@).len() as int,
            ) == Some(n as nat),
            None => placed(
                json::items_under(*template, key@),
                given as nat,
                json::items_under(*template, key@).len() as int,
            ) is None,
        },
{
    let pieces = match items_at(template, key) {
        Some(list) => list,
        None => return Some(0),
    };
    let n: usize = pieces.len();
    let mut count: usize = 0;
    for i in 0..n
        invariant
            n == pieces@.len(),
            pieces@ == json::items_under(*template, key@),
            count <= i,
            placed(pieces@, given as nat, i as int) == Some(count as nat),
    {
        match field(&pieces[i], "Sequence") {
            Some(piece) => {
                if text_is(piece, "id", "A") || given >= 2 {
                    count = count + 1;
                } else {
                    proof {
                        lemma_never_placed(pieces@, given as nat, i + 1, n as int);
                    }
                    return None;
                }
            },
            None => {},
        }
    }
    Some(count)
}

/// A piece that asks for a missing text spoils the template.
proof fn lemma_never_placed(pieces: Seq<Value>, given: nat, k: int, n: int)
    requires
        k <= n,
        placed(pieces, given, k) is None,
    ensures
        placed(pieces, given, n) is None,
    decreases n - k,
{
    if k < n {
        lemma_never_placed(pieces, given, k + 1, n);
    }
}

/// The texts that a post-processor makes of the given ones. A template takes one text or two; a
/// sequence runs its processors one after the other; the others keep the number of texts. Nothing
/// where a template is given another number, or asks for a text that is not there.
pub open spec fn processed(part: Value, given: nat, depth: nat) -> Option<nat>
    decreases depth, 0nat,
{
    let kind = json::text_under(part, "type"@);
    if depth == 0 {
        None
    } else if kind == Some("TemplateProcessing"@) {
        if given == 1 {
            let pieces = json::items_under(part, "single"@);
            placed(pieces, given, pieces.len() as int)
        } else if given == 2 {
            let pieces = json::items_under(part, "pair"@);
            placed(pieces, given, pieces.len() as int)
        } else {
            None
        }
    } else if kind == Some("Sequence"@) {
        let parts = json::items_under(part, "processors"@);
        processed_by(parts, given, parts.len(), (depth - 1) as nat)
    } else {
        Some(given)
    }
}

/// The texts that the first `k` processors make of the given ones.
pub open spec fn processed_by(parts: Seq<Value>, given: nat, k: nat, depth: nat) -> Option<nat>
    decreases depth, k + 1,
{
    if k == 0 {
        Some(given)
    } else {
        match processed_by(parts, given, (k - 1) as nat, depth) {
            Some(before) => processed(parts[k - 1], before, depth),
            None => None,
        }
    }
}

/// A processor that fails stops the sequence.
proof fn lemma_never_processed(parts: Seq<Value>, given: nat, k: nat, n: nat, depth: nat)
    requires
        k <= n,
        processed_by(parts, given, k, depth) is None,
    ensures
        processed_by(parts, given, n, depth) is None,
    decreases n - k,
{
    if k < n {
        lemma_never_processed(parts, given, k + 1, n, depth);
    }
}

/// Counts the texts that a post-processor makes of the given ones.
fn count_processed(part: &Value, given: usize, depth: u32) -> (count: Option<usize>)
    ensures
        match count {
            Some(n) => processed(*part, given as nat, depth as nat) == Some(n as nat),
            None => processed(*part, given as nat, depth as nat) is None,
        },
    decreases depth,
{
    if depth == 0 {
        return None;
    }
    if text_is(part, "type", "TemplateProcessing") {
        if given == 1 {
            return count_placed(part, "single", given);
        } else if given == 2 {
            return count_placed(part, "pair", given);
        } else {
            return None;
        }
    }
    if !text_is(part, "type", "Sequence") {
        return Some(given);
    }
    let parts = match items_at(part, "processors") {
        Some(list) => list,
        None => return Some(given),
    };
    let n: usize = parts.len();
    let mut count: usize = given;
    for i in 0..n
        invariant
            n == parts@.len(),
            depth > 0,
            processed_by(parts@, given as nat, i as nat, (depth - 1) as nat) == Some(count as nat),
            processed(*part, given as nat, depth as nat) == processed_by(
                parts@,
                given as nat,
                n as nat,
                (depth - 1) as nat,
            ),
    {
        match count_processed(&parts[i], count, depth - 1) {
            Some(after) => {
                count = after;
            },
            None => {
                proof {
                    lemma_never_processed(
                        parts@,
                        given as nat,
                        (i + 1) as nat,
                        n as nat,
                        (depth - 1) as nat,
                    );
                }
                return None;
            },
        }
    }
    Some(count)
}

/// Some added token takes in the white space on the side that `key` names.
pub open spec fn strips(tokens: Seq<Value>, key: Seq<char>) -> bool {
    exists|i: int|
        0 <= i < tokens.len() && match json::field_of(#[trigger] tokens[i], key) {
            Some(inner) => json::flag_of(inner) == Some(true),
            None => false,
        }
}

/// Decides whether some added token takes in the white space on a side.
fn some_strips(tokens: &Vec<Value>, key: &str) -> (r: bool)
    ensures
        r == strips(tokens@, key@),
{
    let n: usize = tokens.len();
    for i in 0..n
        invariant
            n == tokens@.len(),
            forall|k: int|
                0 <= k < i ==> match json::field_of(#[trigger] tokens@[k], key@) {
                    Some(inner) => json::flag_of(inner) != Some(true),
                    None => true,
                },
    {
        match field(&tokens[i], key) {
            Some(inner) => match flag(inner) {
                Some(true) => {
                    assert(json::flag_of(*inner) == Some(true));
                    assert(json::field_of(tokens@[i as int], key@) == Some(*inner));
                    return true;
                },
                _ => {},
            },
            None => {},
        }
    }
    false
}

/// Added tokens do not claim the same white space: not both sides' is taken in.
pub open spec fn separable(setting: Value) -> bool {
    match json::items_of(setting) {
        Some(tokens) => !(strips(tokens, "lstrip"@) && strips(tokens, "rstrip"@)),
        None => true,
    }
}

/// Decides whether added tokens do not claim the same white space.
fn can_separate(setting: &Value) -> (r: bool)
    ensures
        r == separable(*setting),
{
    match items(setting) {
        Some(tokens) => !(some_strips(tokens, "lstrip") && some_strips(tokens, "rstrip")),
        None => true,
    }
}

/// The normalizer leaves something of every added token, so that each can be found between
/// characters of a prompt.
pub open spec fn findable(tokenizer: Tokenizer) -> bool {
    forall|text: Seq<char>| #[trigger]
        added_texts(tokenizer).contains(text) ==> normalized_text(tokenizer, text) is Some
            && normalized_text(tokenizer, text) != Some(""@)
}

/// Decides whether the normalizer leaves something of every added token.
fn can_find(tokenizer: &Tokenizer) -> (r: bool)
    requires
        has_usable_normalizer(*tokenizer),
    ensures
        r == findable(*tokenizer),
{
    let list = list_added_texts(tokenizer);
    let n: usize = list.len();
    for i in 0..n
        invariant
            n == list@.len(),
            has_usable_normalizer(*tokenizer),
            forall|k: int|
                0 <= k < list@.len() ==> added_texts(*tokenizer).contains((#[trigger] list@[k])@),
            forall|k: int|
                0 <= k < i ==> normalized_text(*tokenizer, (#[trigger] list@[k])@) is Some
                    && normalized_text(*tokenizer, list@[k]@) != Some(""@),
    {
        assert(added_texts(*tokenizer).contains(list@[i as int]@));
        match normalize(tokenizer, list[i].as_str()) {
            Some(s) => if text::equals(s.as_str(), "") {
                return false;
            },
            None => return false,
        }
    }
    true
}

/// The parts of the settings of a tokenizer, seven of them; nothing where they cannot be told.
pub open spec fn parts_of(tokenizer: Tokenizer) -> Option<Seq<Value>> {
    match settings_of(tokenizer) {
        Some(value) => match json::items_of(value) {
            Some(parts) => if parts.len() == 7 {
                Some(parts)
            } else {
                None
            },
            None => None,
        },
        None => None,
    }
}

/// The normalizer of a tokenizer can be used.
pub open spec fn has_usable_normalizer(tokenizer: Tokenizer) -> bool {
    match parts_of(tokenizer) {
        Some(parts) => normalizes(parts[2], DEEPEST as nat),
        None => false,
    }
}

/// A tokenizer can encode prompts: its truncation, its padding, its normalizer and its pre-tokenizer
/// can be used, its post-processor works on one text, and its added tokens can be found and do not
/// claim the same white space.
pub open spec fn can_encode(tokenizer: Tokenizer) -> bool {
    match parts_of(tokenizer) {
        Some(parts) => {
            &&& truncates(parts[0])
            &&& pads(parts[1])
            &&& normalizes(parts[2], DEEPEST as nat)
            &&& splits(parts[3], DEEPEST as nat)
            &&& processed(parts[4], 1, DEEPEST as nat) is Some
            &&& separable(parts[6])
            &&& findable(tokenizer)
        },
        None => false,
    }
}

/// A tokenizer can decode answers: its decoder can be used.
pub open spec fn can_decode(tokenizer: Tokenizer) -> bool {
    match parts_of(tokenizer) {
        Some(parts) => reads(parts[5], DEEPEST as nat),
        None => false,
    }
}

/// Decides whether a tokenizer can encode prompts.
pub fn encodes(tokenizer: &Tokenizer) -> (r: bool)
    ensures
        r == can_encode(*tokenizer),
{
    let value = match read_settings(tokenizer) {
        Some(value) => value,
        None => return false,
    };
    let parts = match items(&value) {
        Some(parts) => parts,
        None => return false,
    };
    parts.len() == 7 && can_truncate(&parts[0]) && can_pad(&parts[1]) && can_normalize(
        &parts[2],
        DEEPEST,
    ) && can_split(&parts[3], DEEPEST) && count_processed(&parts[4], 1, DEEPEST).is_some()
        && can_separate(&parts[6]) && can_find(tokenizer)
}

/// Decides whether a tokenizer can decode answers.
pub fn decodes(tokenizer: &Tokenizer) -> (r: bool)
    ensures
        r == can_decode(*tokenizer),
{
    let value = match read_settings(tokenizer) {
        Some(value) => value,
        None => return false,
    };
    let parts = match items(&value) {
        Some(parts) => parts,
        None => return false,
    };
    parts.len() == 7 && can_read(&parts[5], DEEPEST)
}

/// Which truncations and paddings can be used: a truncation to nothing, or one whose stride is below
/// its length; a padding to a length, fixed or a multiple, of at most 16777216 tokens.
pub proof fn lengths_must_be_in_order(
    setting: Value,
    length: Value,
    stride: Value,
    strategy: Value,
    fixed: Value,
    multiple: Value,
    a: u64,
    b: u64,
)
    ensures
        json::field_of(setting, "max_length"@) == Some(length) && json::number_of(length) == Some(a)
            && json::field_of(setting, "stride"@) == Some(stride) && json::number_of(stride) == Some(
            b,
        ) ==> (truncates(setting) <==> a == 0 || b < a),
        json::field_of(setting, "max_length"@) is None || json::field_of(setting, "stride"@) is None
            ==> truncates(setting),
        json::field_of(setting, "strategy"@) == Some(strategy) && json::field_of(
            strategy,
            "Fixed"@,
        ) == Some(fixed) && json::number_of(fixed) == Some(a) && a > 16_777_216 ==> !pads(setting),
        json::field_of(setting, "pad_to_multiple_of"@) == Some(multiple) && json::number_of(
            multiple,
        ) == Some(b) && b > 16_777_216 ==> !pads(setting),
        json::field_of(setting, "strategy"@) is None && json::field_of(
            setting,
            "pad_to_multiple_of"@,
        ) is None ==> pads(setting),
{
}

/// Which regular expressions are used: one in which a backslash stands before `K`, `k` or a digit,
/// or which refers back to a named group, is not.
pub proof fn expressions_must_not_reach_back(expression: Seq<char>, i: int)
    ensures
        0 <= i < expression.len() - 1 && expression[i] == '\\' && (expression[i + 1] == 'K'
            || expression[i + 1] == 'k' || '0' <= expression[i + 1] <= '9') ==> !finds_in_turn(
            expression,
        ),
        0 <= i <= expression.len() - 3 && expression.subrange(i, i + 3) == "?P="@
            ==> !finds_in_turn(expression),
        (forall|k: int| 0 <= k < expression.len() ==> #[trigger] expression[k] != '\\') && (
        forall|k: int| 0 <= k < expression.len() ==> #[trigger] expression[k] != '?')
            ==> finds_in_turn(expression),
{
    reveal_strlit("?P=");
    if 0 <= i <= expression.len() - 3 && expression.subrange(i, i + 3) == "?P="@ {
        assert(text::occurs_at(expression, "?P="@, i));
    }
    if text::occurs(expression, "?P="@) {
        let at = choose|at: int| text::occurs_at(expression, "?P="@, at);
        assert(expression.subrange(at, at + 3)[0] == expression[at]);
        assert(expression[at] == '?');
    }
}

/// Which kinds of normalizers, pre-tokenizers and decoders are never used, which are used where their
/// pattern or their text allows it, and that a sequence is used where each of its parts is.
#[verifier::spinoff_prover]
#[verifier::rlimit(40)]
pub proof fn kinds_decide_what_is_used(part: Value, kind: Value, depth: nat)
    requires
        depth > 0,
        json::field_of(part, "type"@) == Some(kind),
    ensures
        json::text_of(kind) == Some("Precompiled"@) ==> !normalizes(part, depth),
        json::text_of(kind) == Some("Prepend"@) ==> (normalizes(part, depth) <==> json::text_under(
            part,
            "prepend"@,
        ) != Some(""@)),
        json::text_of(kind) == Some("Replace"@) ==> (normalizes(part, depth) <==> replaces_something(
            part,
        ) && has_usable_pattern(part)),
        json::text_of(kind) == Some("Lowercase"@) ==> normalizes(part, depth),
        json::text_of(kind) == Some("Split"@) ==> (splits(part, depth) <==> has_usable_pattern(part)),
        json::text_of(kind) == Some("ByteLevel"@) ==> splits(part, depth) && reads(part, depth)
            && processed(part, 1, depth) == Some(1nat),
        json::text_of(kind) == Some("BPEDecoder"@) ==> !reads(part, depth),
        json::text_of(kind) == Some("Replace"@) ==> (reads(part, depth) <==> has_usable_pattern(part)),
        json::text_of(kind) == Some("Strip"@) ==> (reads(part, depth) <==> json::number_under(
            part,
            "stop"@,
        ) == Some(0u64)),
        json::text_of(kind) == Some("Sequence"@) ==> {
            &&& normalizes(part, depth) <==> forall|i: int|
                0 <= i < json::items_under(part, "normalizers"@).len() ==> normalizes(
                    #[trigger] json::items_under(part, "normalizers"@)[i],
                    (depth - 1) as nat,
                )
            &&& splits(part, depth) <==> forall|i: int|
                0 <= i < json::items_under(part, "pretokenizers"@).len() ==> splits(
                    #[trigger] json::items_under(part, "pretokenizers"@)[i],
                    (depth - 1) as nat,
                )
            &&& reads(part, depth) <==> forall|i: int|
                0 <= i < json::items_under(part, "decoders"@).len() ==> reads(
                    #[trigger] json::items_under(part, "decoders"@)[i],
                    (depth - 1) as nat,
                )
        },
{
    reveal_strlit("Precompiled");
    reveal_strlit("Prepend");
    reveal_strlit("Replace");
    reveal_strlit("Lowercase");
    reveal_strlit("Split");
    reveal_strlit("ByteLevel");
    reveal_strlit("BPEDecoder");
    reveal_strlit("Strip");
    reveal_strlit("Sequence");
    reveal_strlit("TemplateProcessing");
    assert("Prepend"@[0] == 'P' && "Replace"@[0] == 'R');
    assert("Lowercase"@[0] == 'L' && "ByteLevel"@[0] == 'B');
    assert("Split"@[1] == 'p' && "Strip"@[1] == 't');
    assert("BPEDecoder"@.len() == 10 && "Sequence"@.len() == 8 && "Precompiled"@.len() == 11);
    assert("TemplateProcessing"@.len() == 18);
}

/// Which settings of a tokenizer each question looks at: of its seven parts, truncation, padding,
/// normalizer, pre-tokenizer, post-processor, decoder and added tokens, the decoder alone decides on
/// decoding, and the others on encoding.
pub proof fn parts_answer_for_themselves(tokenizer: Tokenizer, value: Value, parts: Seq<Value>)
    requires
        settings_of(tokenizer) == Some(value),
        json::items_of(value) == Some(parts),
        parts.len() == 7,
    ensures
        can_decode(tokenizer) <==> reads(parts[5], 128),
        can_encode(tokenizer) <==> {
            &&& truncates(parts[0])
            &&& pads(parts[1])
            &&& normalizes(parts[2], 128)
            &&& splits(parts[3], 128)
            &&& processed(parts[4], 1, 128) is Some
            &&& separable(parts[6])
            &&& forall|text: Seq<char>| #[trigger]
                added_texts(tokenizer).contains(text) ==> (normalized_text(
                    tokenizer,
                    text,
                ) matches Some(rest) && rest != ""@)
        },
{
}

/// How many texts a post-processor makes of one. A template puts in the given text for each of its
/// pieces that asks for the first, and fails where one asks for the second; the pieces that are
/// special tokens count nothing. A sequence hands the texts on from one processor to the next.
pub proof fn templates_place_their_texts(
    part: Value,
    kind: Value,
    pieces: Seq<Value>,
    depth: nat,
    k: int,
    piece: Value,
)
    requires
        depth > 0,
        json::field_of(part, "type"@) == Some(kind),
        json::text_of(kind) == Some("TemplateProcessing"@),
        json::items_under(part, "single"@) == pieces,
    ensures
        processed(part, 0, depth) is None,
        processed(part, 3, depth) is None,
        (forall|i: int|
            0 <= i < pieces.len() ==> json::field_of(#[trigger] pieces[i], "Sequence"@) is None)
            ==> processed(part, 1, depth) == Some(0nat),
        0 <= k < pieces.len() && json::field_of(pieces[k], "Sequence"@) == Some(piece)
            && json::text_under(piece, "id"@) != Some("A"@) ==> processed(part, 1, depth) is None,
        0 <= k < pieces.len() && json::field_of(pieces[k], "Sequence"@) == Some(piece)
            && json::text_under(piece, "id"@) == Some("A"@) && (forall|i: int|
            0 <= i < pieces.len() && i != k ==> json::field_of(
                #[trigger] pieces[i],
                "Sequence"@,
            ) is None) ==> processed(part, 1, depth) == Some(1nat),
{
    let n = pieces.len() as int;
    if 0 <= k < n && json::field_of(pieces[k], "Sequence"@) == Some(piece) && json::text_under(
        piece,
        "id"@,
    ) != Some("A"@) {
        assert(placed(pieces, 1, k + 1) is None);
        lemma_never_placed(pieces, 1, k + 1, n);
    }
    if forall|i: int|
        0 <= i < n && i != k ==> json::field_of(#[trigger] pieces[i], "Sequence"@) is None {
        lemma_one_placed(pieces, k, n);
    }
    if forall|i: int| 0 <= i < n ==> json::field_of(#[trigger] pieces[i], "Sequence"@) is None {
        lemma_one_placed(pieces, n, n);
    }
}

/// The pieces but one ask for no text.
proof fn lemma_one_placed(pieces: Seq<Value>, k: int, n: int)
    requires
        n <= pieces.len(),
        forall|i: int|
            0 <= i < n && i != k ==> json::field_of(#[trigger] pieces[i], "Sequence"@) is None,
    ensures
        n <= k ==> placed(pieces, 1, n) == Some(0nat),
        0 <= k < n && json::field_of(pieces[k], "Sequence"@) is Some && json::text_under(
            json::field_of(pieces[k], "Sequence"@)->0,
            "id"@,
        ) == Some("A"@) ==> placed(pieces, 1, n) == Some(1nat),
    decreases n,
{
    if n > 0 {
        lemma_one_placed(pieces, k, n - 1);
    }
}

/// When added tokens cannot be told apart: one of them takes in the white space on its left and one
/// of them, the same or another, that on its right.
pub proof fn added_tokens_must_not_share_white_space(
    setting: Value,
    tokens: Seq<Value>,
    i: int,
    j: int,
    left: Value,
    right: Value,
)
    requires
        json::items_of(setting) == Some(tokens),
    ensures
        0 <= i < tokens.len() && 0 <= j < tokens.len() && json::field_of(tokens[i], "lstrip"@)
            == Some(left) && json::flag_of(left) == Some(true) && json::field_of(
            tokens[j],
            "rstrip"@,
        ) == Some(right) && json::flag_of(right) == Some(true) ==> !separable(setting),
        (forall|k: int|
            0 <= k < tokens.len() ==> json::field_of(#[trigger] tokens[k], "lstrip"@) is None)
            ==> separable(setting),
        (forall|k: int|
            0 <= k < tokens.len() ==> json::field_of(#[trigger] tokens[k], "rstrip"@) is None)
            ==> separable(setting),
{
}

/// Which patterns and replacements can be used: a given text always; a regular expression where it
/// finds one stretch after the other. A replacement must put nothing in, or look for a given text
/// that is not empty.
pub proof fn patterns_decide_what_is_replaced(
    part: Value,
    pattern: Value,
    inner: Value,
    content: Value,
    expression: Seq<char>,
    replacement: Seq<char>,
)
    requires
        json::field_of(part, "pattern"@) == Some(pattern),
        json::field_of(part, "content"@) == Some(content),
        json::text_of(content) == Some(replacement),
    ensures
        json::field_of(pattern, "Regex"@) == Some(inner) && json::text_of(inner) == Some(expression)
            ==> (has_usable_pattern(part) <==> finds_in_turn(expression)),
        json::field_of(pattern, "Regex"@) is None ==> has_usable_pattern(part),
        replacement == ""@ ==> replaces_something(part),
        replacement != ""@ && json::field_of(pattern, "String"@) is None ==> !replaces_something(part),
        replacement != ""@ && json::field_of(pattern, "String"@) == Some(inner) && json::text_of(
            inner,
        ) == Some(expression) ==> (replaces_something(part) <==> expression != ""@),
{
}

} // verus!
