//! Tokenizer settings: which of them let prompts be encoded and answers be decoded.

use llama_rs::json::entry_under;
use llama_rs::settings::{decodes, encodes, is_found_in_turn};
use tokenizers::Tokenizer;

const PLAIN: &str = r#"{
    "version": "1.0",
    "truncation": null,
    "padding": null,
    "added_tokens": [],
    "normalizer": null,
    "pre_tokenizer": {"type": "Whitespace"},
    "post_processor": null,
    "decoder": null,
    "model": {"type": "WordLevel", "vocab": {"zero": 0, "one": 1, "two": 2}, "unk_token": "zero"}
}"#;

fn with(key: &str, value: &str) -> Tokenizer {
    let absent = format!("\"{key}\": null");
    assert!(PLAIN.contains(&absent));
    PLAIN.replace(&absent, &format!("\"{key}\": {value}")).parse().unwrap()
}

fn with_added(first: (bool, bool), second: (bool, bool)) -> Tokenizer {
    let token = |id: u32, content: &str, sides: (bool, bool)| {
        format!(
            r#"{{"id": {id}, "content": "{content}", "single_word": false, "lstrip": {},
                "rstrip": {}, "normalized": false, "special": false}}"#,
            sides.0, sides.1
        )
    };
    let list = format!("[{}, {}]", token(3, "<a>", first), token(4, "<b>", second));
    PLAIN.replace("\"added_tokens\": []", &format!("\"added_tokens\": {list}")).parse().unwrap()
}

fn ids(tokenizer: &Tokenizer, text: &str) -> Vec<u32> {
    tokenizer.encode(text, false).unwrap().get_ids().to_vec()
}

#[test]
fn plain_settings_are_accepted() {
    let tokenizer: Tokenizer = PLAIN.parse().unwrap();
    assert!(encodes(&tokenizer));
    assert!(decodes(&tokenizer));
    assert_eq!(ids(&tokenizer, "one two one"), vec![1, 2, 1]);
}

#[test]
fn truncation_needs_windows_that_move_on() {
    let truncation = |length: u64, stride: u64| {
        with(
            "truncation",
            &format!(
                r#"{{"direction": "Right", "max_length": {length}, "strategy": "LongestFirst",
                    "stride": {stride}}}"#
            ),
        )
    };
    let sound = truncation(2, 1);
    assert!(encodes(&sound) && decodes(&sound));
    assert_eq!(ids(&sound, "one two one two"), vec![1, 2]);
    let nothing = truncation(0, 5);
    assert!(encodes(&nothing));
    assert!(ids(&nothing, "one two").is_empty());
    assert!(!encodes(&truncation(2, 2)));
    assert!(!encodes(&truncation(2, 9)));
    assert!(decodes(&truncation(2, 2)), "a prompt that cannot be cut says nothing of answers");
}

#[test]
fn padding_has_a_longest_length() {
    let padding = |strategy: &str, multiple: &str| {
        with(
            "padding",
            &format!(
                r#"{{"strategy": {strategy}, "direction": "Right", "pad_to_multiple_of": {multiple},
                    "pad_id": 0, "pad_type_id": 0, "pad_token": "zero"}}"#
            ),
        )
    };
    let fixed = padding(r#"{"Fixed": 5}"#, "null");
    assert!(encodes(&fixed));
    assert_eq!(ids(&fixed, "one two"), vec![1, 2, 0, 0, 0]);
    let rounded = padding(r#""BatchLongest""#, "4");
    assert!(encodes(&rounded));
    assert_eq!(ids(&rounded, "one two"), vec![1, 2, 0, 0]);
    assert!(encodes(&padding(r#"{"Fixed": 16777216}"#, "null")));
    assert!(!encodes(&padding(r#"{"Fixed": 16777217}"#, "null")));
    assert!(!encodes(&padding(r#""BatchLongest""#, "18446744073709551615")));
}

#[test]
fn compiled_character_maps_are_refused() {
    assert!(encodes(&with("normalizer", r#"{"type": "NFC"}"#)));
    assert!(encodes(&with(
        "normalizer",
        r#"{"type": "Strip", "strip_left": true, "strip_right": true}"#
    )));
    let map = r#"{"type": "Precompiled", "precompiled_charsmap": "BAAAAAAAAAA="}"#;
    assert!(!encodes(&with("normalizer", map)));
    let nested = format!(
        r#"{{"type": "Sequence", "normalizers": [{{"type": "NFC"}},
            {{"type": "Sequence", "normalizers": [{map}]}}]}}"#
    );
    assert!(!encodes(&with("normalizer", &nested)));
    assert!(decodes(&with("normalizer", &nested)));
}

#[test]
fn normalizers_put_nothing_in_for_nothing() {
    let replace = |pattern: &str, content: &str| {
        format!(r#"{{"type": "Replace", "pattern": {pattern}, "content": "{content}"}}"#)
    };
    let named = with("normalizer", &replace(r#"{"String": "uno"}"#, "one"));
    assert!(encodes(&named));
    assert_eq!(ids(&named, "uno two"), vec![1, 2]);
    assert!(encodes(&with("normalizer", &replace(r#"{"Regex": "[0-9]*"}"#, ""))));
    assert!(!encodes(&with("normalizer", &replace(r#"{"String": ""}"#, "one"))));
    assert!(!encodes(&with("normalizer", &replace(r#"{"Regex": "^"}"#, "one "))));
    assert!(encodes(&with("normalizer", r#"{"type": "Prepend", "prepend": "_"}"#)));
    assert!(!encodes(&with("normalizer", r#"{"type": "Prepend", "prepend": ""}"#)));
    let sequence = format!(
        r#"{{"type": "Sequence", "normalizers": [{}, {{"type": "Lowercase"}}]}}"#,
        replace(r#"{"Regex": "^"}"#, "one ")
    );
    assert!(!encodes(&with("normalizer", &sequence)));
}

fn template(single: &[&str], pair: &[&str]) -> String {
    let pieces = |ids: &[&str]| {
        let list: Vec<String> = ids
            .iter()
            .map(|id| match *id {
                "A" | "B" => format!(r#"{{"Sequence": {{"id": "{id}", "type_id": 0}}}}"#),
                other => format!(r#"{{"SpecialToken": {{"id": "{other}", "type_id": 0}}}}"#),
            })
            .collect();
        format!("[{}]", list.join(", "))
    };
    format!(
        r#"{{"type": "TemplateProcessing", "single": {}, "pair": {}, "special_tokens":
            {{"one": {{"id": "one", "ids": [1], "tokens": ["one"]}}}}}}"#,
        pieces(single),
        pieces(pair)
    )
}

fn processors(list: &[String]) -> Tokenizer {
    with(
        "post_processor",
        &format!(r#"{{"type": "Sequence", "processors": [{}]}}"#, list.join(", ")),
    )
}

#[test]
fn templates_get_the_texts_that_they_ask_for() {
    let byte_level =
        r#"{"type": "ByteLevel", "add_prefix_space": false, "trim_offsets": false, "use_regex": false}"#
            .to_string();
    assert!(encodes(&with("post_processor", &byte_level)));
    let usual = with("post_processor", &template(&["one", "A"], &["A", "B"]));
    assert!(encodes(&usual));
    assert_eq!(ids(&usual, "two"), vec![2], "special tokens are left out");
    let doubled = template(&["A", "A"], &["B", "A"]);
    assert!(encodes(&with("post_processor", &doubled)));
    assert!(!encodes(&with("post_processor", &template(&["A", "B"], &["A", "B"]))));

    let once = template(&["A"], &["A", "B"]);
    assert!(encodes(&processors(&[byte_level.clone(), once.clone(), once.clone()])));
    let twice = processors(&[doubled.clone(), doubled.clone()]);
    assert!(encodes(&twice));
    assert_eq!(ids(&twice, "one two"), vec![1, 2, 1, 2]);
    let thrice = template(&["A", "A", "A"], &["A", "B"]);
    assert!(encodes(&processors(&[once.clone(), thrice.clone()])));
    assert!(!encodes(&processors(&[thrice, once.clone()])));
    assert!(!encodes(&processors(&[template(&["one"], &["A"]), once])));
}

#[test]
fn added_tokens_take_in_white_space_on_one_side() {
    assert!(encodes(&with_added((false, false), (false, false))));
    assert!(encodes(&with_added((true, false), (true, false))));
    assert!(encodes(&with_added((false, true), (false, true))));
    assert!(!encodes(&with_added((true, false), (false, true))));
    assert!(!encodes(&with_added((true, true), (false, false))));
}

#[test]
fn decoders_that_cut_from_the_end_are_refused() {
    let strip = |start: u32, stop: u32| {
        format!(r#"{{"type": "Strip", "content": " ", "start": {start}, "stop": {stop}}}"#)
    };
    let sound = with("decoder", &strip(1, 0));
    assert!(decodes(&sound) && encodes(&sound));
    assert!(!decodes(&with("decoder", &strip(1, 1))));
    assert!(encodes(&with("decoder", &strip(1, 1))));
    assert!(!decodes(&with("decoder", r#"{"type": "BPEDecoder", "suffix": "</w>"}"#)));
    let sequence = |part: &str| {
        with(
            "decoder",
            &format!(r#"{{"type": "Sequence", "decoders": [{{"type": "Fuse"}}, {part}]}}"#),
        )
    };
    let joined = sequence(&strip(1, 0));
    assert!(decodes(&joined));
    assert_eq!(joined.decode(&[1, 2], true).unwrap(), "onetwo");
    assert!(!decodes(&sequence(&strip(0, 3))));
}

/// The pattern that Qwen2 tokenizers split by.
const WORDS: &str = r"(?i:'s|'t|'re|'ve|'m|'ll|'d)|[^\r\n\p{L}\p{N}]?\p{L}+|\p{N}| ?[^\s\p{L}\p{N}]+[\r\n]*|\s*[\r\n]+|\s+(?!\S)|\s+";

/// A pattern whose second match on `ab` starts before the first one ends.
const BACKWARDS: &str = r"a|b(?<=\Kab)";

/// A pattern that looks for a group inside the group itself.
const INSIDE_ITSELF: &str = r"(?:(a|b\1)c)+";

fn regex(expression: &str) -> String {
    let escaped = expression.replace('\\', "\\\\");
    format!(r#"{{"Regex": "{escaped}"}}"#)
}

#[test]
fn patterns_find_one_stretch_after_the_other() {
    assert!(is_found_in_turn(""));
    assert!(is_found_in_turn("a"));
    assert!(is_found_in_turn(WORDS));
    assert!(is_found_in_turn(r"(?P<word>\w+)K1"));
    assert!(!is_found_in_turn(BACKWARDS));
    assert!(!is_found_in_turn(INSIDE_ITSELF));
    assert!(!is_found_in_turn(r"(?<x>a)\k<x>"));
    assert!(!is_found_in_turn(r"(?P<x>a)(?P=x)"));
    assert!(!is_found_in_turn(r"\K"));
}

#[test]
fn splits_by_patterns_that_move_backwards_are_refused() {
    let split = |expression: &str| {
        format!(
            r#"{{"type": "Split", "pattern": {}, "behavior": "Isolated", "invert": false}}"#,
            regex(expression)
        )
    };
    let whitespace = r#""pre_tokenizer": {"type": "Whitespace"}"#;
    let cut = |part: &str| -> Tokenizer {
        assert!(PLAIN.contains(whitespace));
        PLAIN.replace(whitespace, &format!(r#""pre_tokenizer": {part}"#)).parse().unwrap()
    };
    let sequence =
        |part: &str| format!(r#"{{"type": "Sequence", "pretokenizers": [{part}, {{"type": "WhitespaceSplit"}}]}}"#);
    let usual = cut(&sequence(&split(WORDS)));
    assert!(encodes(&usual));
    assert_eq!(ids(&usual, "one two"), vec![1, 2]);
    assert!(encodes(&cut(&split(WORDS))));
    assert!(encodes(&cut("null")));
    for expression in [BACKWARDS, INSIDE_ITSELF] {
        assert!(!encodes(&cut(&split(expression))));
        assert!(!encodes(&cut(&sequence(&split(expression)))));
        assert!(decodes(&cut(&split(expression))));
    }
    let text = r#"{"type": "Split", "pattern": {"String": "\\K"}, "behavior": "Isolated", "invert": false}"#;
    assert!(encodes(&cut(text)), "a given text is no expression");
}

#[test]
fn replacements_by_patterns_that_move_backwards_are_refused() {
    let replace = |expression: &str| {
        format!(r#"{{"type": "Replace", "pattern": {}, "content": ""}}"#, regex(expression))
    };
    let normalizers = |part: &str| format!(r#"{{"type": "Sequence", "normalizers": [{part}]}}"#);
    let decoders = |part: &str| format!(r#"{{"type": "Sequence", "decoders": [{part}]}}"#);
    let kept = replace("[0-9]+");
    let tokenizer = with("normalizer", &kept);
    assert!(encodes(&tokenizer));
    assert_eq!(ids(&tokenizer, "o1n2e two"), vec![1, 2]);
    let tokenizer = with("decoder", &replace("n"));
    assert!(decodes(&tokenizer));
    assert_eq!(tokenizer.decode(&[1, 2], true).unwrap(), "oetwo");
    for expression in [BACKWARDS, INSIDE_ITSELF] {
        let part = replace(expression);
        assert!(!encodes(&with("normalizer", &part)));
        assert!(!encodes(&with("normalizer", &normalizers(&part))));
        assert!(decodes(&with("normalizer", &part)));
        assert!(!decodes(&with("decoder", &part)));
        assert!(!decodes(&with("decoder", &decoders(&part))));
        assert!(encodes(&with("decoder", &part)));
    }
}

#[test]
fn something_is_left_of_every_added_token() {
    let with_token = |content: &str, normalized: bool, normalizer: &str| -> Tokenizer {
        let token = format!(
            r#"[{{"id": 3, "content": "{content}", "single_word": false, "lstrip": false,
                "rstrip": false, "normalized": {normalized}, "special": false}}]"#
        );
        PLAIN
            .replace("\"added_tokens\": []", &format!("\"added_tokens\": {token}"))
            .replace("\"normalizer\": null", &format!("\"normalizer\": {normalizer}"))
            .parse()
            .unwrap()
    };
    let strip = r#"{"type": "Strip", "strip_left": true, "strip_right": true}"#;
    let kept = with_token("<a>", true, strip);
    assert!(encodes(&kept));
    assert_eq!(ids(&kept, "one<a> two"), vec![1, 3, 2]);
    assert!(encodes(&with_token(" ", true, "null")));
    assert!(!encodes(&with_token(" ", true, strip)));
    assert!(decodes(&with_token(" ", true, strip)));
}

#[test]
fn json_entries_are_numbers_or_lists_of_numbers() {
    let text = r#"{"a": 7, "b": [1, -1, "x", 2], "c": "y"}"#;
    assert_eq!(entry_under(text, "a"), Some((Some(7), None)));
    assert_eq!(entry_under(text, "b"), Some((None, Some(vec![Some(1), None, None, Some(2)]))));
    assert_eq!(entry_under(text, "c"), Some((None, None)));
    assert_eq!(entry_under(text, "d"), Some((None, None)));
    assert_eq!(entry_under("[1, 2]", "a"), Some((None, None)));
    assert_eq!(entry_under("{", "a"), None);
}
