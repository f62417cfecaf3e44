use ladder::store::{CategoryEntry, WordPair, Words};

fn pair(word: &str, answer: &str) -> WordPair {
    WordPair { word: word.to_string(), answer: answer.to_string() }
}

fn category(name: &str, pairs: Vec<WordPair>) -> CategoryEntry {
    CategoryEntry { name: name.to_string(), words: pairs }
}

fn food_store() -> Words {
    Words {
        learn: vec![category("food", vec![pair("apple", "苹果")])],
        complete: vec![],
    }
}

#[test]
fn complete_word_moves_the_word() {
    let mut w = food_store();
    let r = w.complete_word("food", "apple", "苹果".to_string());
    assert!(r.is_some());
    assert_eq!(w.remaining_words("food"), 0);
    assert_eq!(w.completed_words("food"), 1);
    assert_eq!(w.complete.len(), 1);
    assert_eq!(w.complete[0].name, "food");
    assert_eq!(w.complete[0].words.len(), 1);
    assert_eq!(w.complete[0].words[0].word, "apple");
    assert_eq!(w.complete[0].words[0].answer, "苹果");
}

#[test]
fn complete_word_twice_is_a_noop_the_second_time() {
    let mut w = food_store();
    assert!(w.complete_word("food", "apple", "苹果".to_string()).is_some());
    assert!(w.complete_word("food", "apple", "苹果".to_string()).is_none());
    assert_eq!(w.completed_words("food"), 1);
}

#[test]
fn complete_word_on_absent_word_leaves_the_store_unchanged() {
    let mut w = food_store();
    let before = w.to_json();
    assert!(w.complete_word("food", "pear", "梨".to_string()).is_none());
    assert!(w.complete_word("drink", "tea", "茶".to_string()).is_none());
    assert_eq!(w.to_json(), before);
    assert_eq!(w.remaining_words("food"), 1);
    assert_eq!(w.completed_words("food"), 0);
}

#[test]
fn review_moves_everything_back_and_keeps_empty_categories() {
    let mut w = Words {
        learn: vec![],
        complete: vec![category("food", vec![pair("apple", "苹果")])],
    };
    w.review();
    assert_eq!(w.remaining_words("food"), 1);
    assert_eq!(w.completed_words("food"), 0);
    // the complete pool keeps the category, emptied
    assert_eq!(w.complete.len(), 1);
    assert_eq!(w.complete[0].name, "food");
    assert!(w.complete[0].words.is_empty());
    assert_eq!(w.learn.len(), 1);
    assert_eq!(w.learn[0].words[0].word, "apple");
    assert_eq!(w.learn[0].words[0].answer, "苹果");
    assert_eq!(
        w.to_json(),
        "{\"learn\":{\"food\":{\"apple\":\"苹果\"}},\"complete\":{\"food\":{}}}"
    );
}

#[test]
fn review_applies_to_every_category() {
    let mut w = Words {
        learn: vec![category("food", vec![pair("apple", "苹果")])],
        complete: vec![
            category("food", vec![pair("bread", "面包")]),
            category("drink", vec![pair("tea", "茶"), pair("water", "水")]),
        ],
    };
    w.review();
    assert_eq!(w.remaining_words("food"), 2);
    assert_eq!(w.remaining_words("drink"), 2);
    assert_eq!(w.completed_words("food"), 0);
    assert_eq!(w.completed_words("drink"), 0);
}

#[test]
fn counters_report_live_sizes_and_zero_for_absent_categories() {
    let w = Words {
        learn: vec![category("food", vec![pair("apple", "苹果"), pair("bread", "面包")])],
        complete: vec![category("drink", vec![pair("tea", "茶")])],
    };
    assert_eq!(w.remaining_words("food"), 2);
    assert_eq!(w.remaining_words("drink"), 0);
    assert_eq!(w.remaining_words("nothing"), 0);
    assert_eq!(w.completed_words("drink"), 1);
    assert_eq!(w.completed_words("food"), 0);
    assert_eq!(w.completed_words("nothing"), 0);
}

#[test]
fn to_json_writes_the_exact_record() {
    let w = food_store();
    assert_eq!(
        w.to_json(),
        "{\"learn\":{\"food\":{\"apple\":\"苹果\"}},\"complete\":{}}"
    );
}

#[test]
fn to_json_escapes_quotes_backslashes_and_controls() {
    let w = Words {
        learn: vec![category("odd", vec![pair("a\"b", "c\\d"), pair("e\nf", "g\u{1}h")])],
        complete: vec![],
    };
    assert_eq!(
        w.to_json(),
        "{\"learn\":{\"odd\":{\"a\\\"b\":\"c\\\\d\",\"e\\u000af\":\"g\\u0001h\"}},\"complete\":{}}"
    );
}

#[test]
fn save_then_load_round_trip_restores_the_store() {
    let w = Words {
        learn: vec![
            category("food", vec![pair("apple", "苹果"), pair("bread", "面包")]),
            category("odd", vec![pair("a\"b", "c\\d"), pair("nl\n", "tab\t"), pair("emoji", "🙂")]),
        ],
        complete: vec![category("drink", vec![pair("tea", "茶")])],
    };
    let text = w.to_json();
    let back = Words::from_json(&text).expect("the emitted text parses");
    assert_eq!(back.to_json(), text);
    assert_eq!(back.remaining_words("food"), 2);
    assert_eq!(back.remaining_words("odd"), 3);
    assert_eq!(back.completed_words("drink"), 1);
}

#[test]
fn from_json_accepts_whitespace_escapes_and_either_field_order() {
    let text = " {\n\t\"complete\": { } ,\r\n \"learn\" : { \"pets\" : { \"cat\\u0041\" : \"\\u732b\" } } } ";
    let w = Words::from_json(text).expect("parses");
    assert_eq!(w.remaining_words("pets"), 1);
    assert_eq!(w.completed_words("pets"), 0);
    assert_eq!(w.learn[0].words[0].word, "catA");
    assert_eq!(w.learn[0].words[0].answer, "猫");
}

#[test]
fn from_json_takes_the_last_value_for_a_repeated_key() {
    let text = "{\"learn\":{\"food\":{\"apple\":\"first\",\"apple\":\"second\"}},\"complete\":{}}";
    let w = Words::from_json(text).expect("parses");
    assert_eq!(w.remaining_words("food"), 1);
    assert_eq!(w.learn[0].words[0].answer, "second");
}

#[test]
fn from_json_rejects_malformed_text() {
    assert!(Words::from_json("").is_none());
    assert!(Words::from_json("not json").is_none());
    assert!(Words::from_json("{").is_none());
    assert!(Words::from_json("{\"learn\":{}}").is_none());
    assert!(Words::from_json("{\"learn\":{},\"complete\":{}} extra").is_none());
    assert!(Words::from_json("{\"learn\":{},\"junk\":{}}").is_none());
    assert!(Words::from_json("{\"learn\":{\"a\":{\"b\":\"c\"}},\"complete\":{},}").is_none());
    // an unescaped control character inside a string
    assert!(Words::from_json("{\"learn\":{\"a\nb\":{}},\"complete\":{}}").is_none());
    // a lone surrogate escape names no character
    assert!(Words::from_json("{\"learn\":{\"\\ud800\":{}},\"complete\":{}}").is_none());
    // a bad escape letter
    assert!(Words::from_json("{\"learn\":{\"\\x\":{}},\"complete\":{}}").is_none());
}

#[test]
fn new_store_is_empty() {
    let w = Words::new();
    assert_eq!(w.to_json(), "{\"learn\":{},\"complete\":{}}");
    assert_eq!(w.remaining_words("anything"), 0);
    assert_eq!(w.completed_words("anything"), 0);
}
