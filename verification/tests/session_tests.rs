use ladder::session::{Level, Session};
use ladder::store::{CategoryEntry, WordPair, Words};

fn food_store() -> Words {
    Words {
        learn: vec![CategoryEntry {
            name: "food".to_string(),
            words: vec![WordPair { word: "apple".to_string(), answer: "苹果".to_string() }],
        }],
        complete: vec![],
    }
}

#[test]
fn a_fresh_session_is_blank() {
    let s = Session::new(Words::new());
    assert_eq!(s.text, "");
    assert_eq!(s.category, "");
    assert_eq!(s.question, "");
    assert_eq!(s.answer, "");
    assert_eq!(s.correct_rate, 0);
    assert_eq!(s.error_rate, 0);
    assert_eq!(s.level, Level::Low);
    assert!(!s.hint);
}

#[test]
fn selecting_a_category_draws_its_question() {
    let mut s = Session::new(food_store());
    s.select_category("food".to_string());
    assert_eq!(s.category, "food");
    assert_eq!(s.question, "apple");
    assert_eq!(s.answer, "苹果");
    assert_eq!(s.correct_rate, 0);
    assert_eq!(s.error_rate, 0);
}

#[test]
fn a_correct_submission_completes_the_word() {
    let mut s = Session::new(food_store());
    s.select_category("food".to_string());
    assert_eq!(s.question, "apple");
    s.text = "苹果".to_string();
    let correct = s.submit_word();
    assert!(correct);
    assert_eq!(s.correct_rate, 1);
    assert_eq!(s.error_rate, 0);
    assert_eq!(s.text, "");
    assert_eq!(s.words.remaining_words("food"), 0);
    assert_eq!(s.words.completed_words("food"), 1);
    assert_eq!(s.words.complete[0].words[0].word, "apple");
    assert_eq!(s.words.complete[0].words[0].answer, "苹果");
    // the learn pool is empty now, so the next question is blank
    assert_eq!(s.question, "");
    assert_eq!(s.answer, "");
}

#[test]
fn a_wrong_submission_keeps_the_word_and_counts_the_error() {
    let mut s = Session::new(food_store());
    s.select_category("food".to_string());
    s.text = "xyz".to_string();
    let correct = s.submit_word();
    assert!(!correct);
    assert_eq!(s.error_rate, 1);
    assert_eq!(s.correct_rate, 0);
    assert_eq!(s.text, "");
    assert_eq!(s.words.remaining_words("food"), 1);
    assert_eq!(s.words.completed_words("food"), 0);
    // the word is drawn again
    assert_eq!(s.question, "apple");
}

#[test]
fn selecting_again_resets_the_counters() {
    let mut s = Session::new(food_store());
    s.select_category("food".to_string());
    s.text = "xyz".to_string();
    s.submit_word();
    assert_eq!(s.error_rate, 1);
    s.select_category("food".to_string());
    assert_eq!(s.error_rate, 0);
    assert_eq!(s.correct_rate, 0);
}

#[test]
fn selecting_an_absent_category_keeps_the_question() {
    let mut s = Session::new(food_store());
    s.select_category("food".to_string());
    let q = s.question.clone();
    s.select_category("drinks".to_string());
    assert_eq!(s.question, q);
}

#[test]
fn reload_replaces_the_store_and_resets_the_counters() {
    let mut s = Session::new(Words::new());
    s.select_category("food".to_string());
    s.text = "x".to_string();
    s.submit_word();
    s.reload(food_store());
    assert_eq!(s.correct_rate, 0);
    assert_eq!(s.error_rate, 0);
    assert_eq!(s.words.remaining_words("food"), 1);
    assert_eq!(s.question, "apple");
}

#[test]
fn review_through_the_session_recycles_completed_words() {
    let mut s = Session::new(food_store());
    s.select_category("food".to_string());
    s.text = "苹果".to_string();
    s.submit_word();
    assert_eq!(s.words.remaining_words("food"), 0);
    s.review();
    assert_eq!(s.words.remaining_words("food"), 1);
    assert_eq!(s.words.completed_words("food"), 0);
}

#[test]
fn audio_is_wanted_only_at_low_level_with_a_question() {
    let mut s = Session::new(food_store());
    assert!(!s.wants_audio());
    s.select_category("food".to_string());
    assert!(s.wants_audio());
    s.level = Level::High;
    assert!(!s.wants_audio());
    s.level = Level::Media;
    assert!(!s.wants_audio());
}

#[test]
fn submitting_with_no_question_matches_empty_strings() {
    let mut s = Session::new(Words::new());
    let correct = s.submit_word();
    assert!(correct);
    assert_eq!(s.correct_rate, 1);
    assert_eq!(s.words.completed_words(""), 0);
}

#[test]
fn default_level_is_low() {
    assert_eq!(Level::default(), Level::Low);
}

#[test]
fn the_drawn_question_is_always_a_learn_word_of_the_category() {
    let words = Words {
        learn: vec![CategoryEntry {
            name: "food".to_string(),
            words: vec![
                WordPair { word: "apple".to_string(), answer: "苹果".to_string() },
                WordPair { word: "bread".to_string(), answer: "面包".to_string() },
                WordPair { word: "tea".to_string(), answer: "茶".to_string() },
            ],
        }],
        complete: vec![],
    };
    let mut s = Session::new(words);
    for _ in 0..50 {
        s.select_category("food".to_string());
        let expected = match s.question.as_str() {
            "apple" => "苹果",
            "bread" => "面包",
            "tea" => "茶",
            other => panic!("question {} is not a learn word", other),
        };
        assert_eq!(s.answer, expected);
    }
}
