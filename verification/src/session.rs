//! The session controller: the current category, question, answer, input
//! text and the two counters, together with the actions the user can take.

use crate::store::{
    lemma_pool_map_at, lemma_pool_map_dom, lemma_words_map_at, lemma_words_map_len, pool_at,
    random_sample, Words,
};
use vstd::prelude::*;

verus! {

/// Difficulty level; at `Low` the answer of each new question is spoken.
#[derive(PartialEq, Eq, Structural, Debug)]
pub enum Level {
    Low,
    Media,
    High,
}

impl Default for Level {
    fn default() -> (r: Self)
        ensures
            r == Level::Low,
    {
        Level::Low
    }
}

/// How a freshly drawn question/answer pair relates to the learn pool:
/// with the category present it is some entry of that category (the empty
/// pair where the category is empty); with the category absent the old
/// pair is kept.
pub open spec fn drawn_from(
    lm: Map<Seq<char>, Map<Seq<char>, Seq<char>>>,
    c: Seq<char>,
    q: Seq<char>,
    a: Seq<char>,
    old_q: Seq<char>,
    old_a: Seq<char>,
) -> bool {
    if lm.contains_key(c) {
        if lm[c].len() == 0 {
            q == Seq::<char>::empty() && a == Seq::<char>::empty()
        } else {
            lm[c].contains_key(q) && lm[c][q] == a
        }
    } else {
        q == old_q && a == old_a
    }
}

/// How the store's two mappings change when a word is submitted
/// correctly: the word moves out of `learn[c]` into `complete[c]` with
/// the given answer; where `learn[c]` does not hold the word, nothing
/// changes.
pub open spec fn completed_store(
    old_lm: Map<Seq<char>, Map<Seq<char>, Seq<char>>>,
    old_cm: Map<Seq<char>, Map<Seq<char>, Seq<char>>>,
    new_lm: Map<Seq<char>, Map<Seq<char>, Seq<char>>>,
    new_cm: Map<Seq<char>, Map<Seq<char>, Seq<char>>>,
    c: Seq<char>,
    w: Seq<char>,
    a: Seq<char>,
) -> bool {
    if old_lm.contains_key(c) && old_lm[c].contains_key(w) {
        &&& new_lm == old_lm.insert(c, old_lm[c].remove(w))
        &&& new_cm == old_cm.insert(c, pool_at(old_cm, c).insert(w, a))
    } else {
        new_lm == old_lm && new_cm == old_cm
    }
}

/// The ephemeral state of one sitting with the flashcards.
pub struct Session {
    pub words: Words,
    pub text: String,
    pub category: String,
    pub question: String,
    pub answer: String,
    pub correct_rate: i32,
    pub error_rate: i32,
    pub level: Level,
    pub hint: bool,
}

impl Session {
    /// The underlying store is well formed.
    pub open spec fn wf(&self) -> bool {
        self.words.wf()
    }

    /// A fresh session over the given store.
    pub fn new(words: Words) -> (s: Session)
        requires
            words.wf(),
        ensures
            s.wf(),
            s.words == words,
            s.text@ == Seq::<char>::empty(),
            s.category@ == Seq::<char>::empty(),
            s.question@ == Seq::<char>::empty(),
            s.answer@ == Seq::<char>::empty(),
            s.correct_rate == 0,
            s.error_rate == 0,
            s.level == Level::Low,
            s.hint == false,
    {
        Session {
            words,
            text: String::new(),
            category: String::new(),
            question: String::new(),
            answer: String::new(),
            correct_rate: 0,
            error_rate: 0,
            level: Level::default(),
            hint: false,
        }
    }

    /// Draw a new question at random from the current category's learn
    /// pool; with the category absent the question is kept, with the
    /// category empty it becomes the empty pair.
    pub fn choice_word(&mut self)
        requires
            old(self).wf(),
        ensures
            final(self).wf(),
            final(self).words == old(self).words,
            final(self).text == old(self).text,
            final(self).category == old(self).category,
            final(self).correct_rate == old(self).correct_rate,
            final(self).error_rate == old(self).error_rate,
            final(self).level == old(self).level,
            final(self).hint == old(self).hint,
            drawn_from(
                old(self).words.learn_map(),
                old(self).category@,
                final(self).question@,
                final(self).answer@,
                old(self).question@,
                old(self).answer@,
            ),
    {
        let ghost cs = self.words.learn@;
        match crate::store::find_category(&self.words.learn, self.category.as_str()) {
            Some(i) => {
                proof {
                    lemma_pool_map_at(cs, i as int);
                    lemma_words_map_len(cs[i as int].words@);
                }
                let ws = &self.words.learn[i].words;
                let sample = random_sample(ws);
                proof {
                    if ws@.len() == 0 {
                        assert(self.words.learn_map()[self.category@].dom() =~= Set::<
                            Seq<char>,
                        >::empty());
                    } else {
                        let j = choose|j: int|
                            0 <= j < ws@.len() && #[trigger] ws@[j].word@ == sample.0@
                                && ws@[j].answer@ == sample.1@;
                        lemma_words_map_at(cs[i as int].words@, j);
                    }
                }
                self.question = sample.0;
                self.answer = sample.1;
            },
            None => {
                proof {
                    lemma_pool_map_dom(cs);
                }
            },
        }
    }

    /// Compare the input text to the current answer. On a match the
    /// correct counter rises and the word is completed; on a mismatch
    /// the error counter rises. Either way the input is cleared and the
    /// next question is drawn from the (possibly smaller) learn pool.
    pub fn submit_word(&mut self) -> (correct: bool)
        requires
            old(self).wf(),
            old(self).correct_rate < i32::MAX,
            old(self).error_rate < i32::MAX,
        ensures
            final(self).wf(),
            correct == (old(self).text@ == old(self).answer@),
            final(self).text@ == Seq::<char>::empty(),
            final(self).category == old(self).category,
            final(self).level == old(self).level,
            final(self).hint == old(self).hint,
            correct ==> final(self).correct_rate == old(self).correct_rate + 1
                && final(self).error_rate == old(self).error_rate && completed_store(
                old(self).words.learn_map(),
                old(self).words.complete_map(),
                final(self).words.learn_map(),
                final(self).words.complete_map(),
                old(self).category@,
                old(self).question@,
                old(self).answer@,
            ),
            !correct ==> final(self).error_rate == old(self).error_rate + 1
                && final(self).correct_rate == old(self).correct_rate && final(self).words == old(self).words,
            drawn_from(
                final(self).words.learn_map(),
                old(self).category@,
                final(self).question@,
                final(self).answer@,
                old(self).question@,
                old(self).answer@,
            ),
    {
        let correct = crate::ext::str_eq(self.text.as_str(), self.answer.as_str());
        if correct {
            self.correct_rate = self.correct_rate + 1;
            let answer = self.answer.clone();
            let _ = self.words.complete_word(
                self.category.as_str(),
                self.question.as_str(),
                answer,
            );
        } else {
            self.error_rate = self.error_rate + 1;
        }
        self.text = String::new();
        self.choice_word();
        correct
    }

    /// Draw a new question and reset both counters.
    pub fn reload_question(&mut self)
        requires
            old(self).wf(),
        ensures
            final(self).wf(),
            final(self).words == old(self).words,
            final(self).text == old(self).text,
            final(self).category == old(self).category,
            final(self).level == old(self).level,
            final(self).hint == old(self).hint,
            final(self).correct_rate == 0,
            final(self).error_rate == 0,
            drawn_from(
                old(self).words.learn_map(),
                old(self).category@,
                final(self).question@,
                final(self).answer@,
                old(self).question@,
                old(self).answer@,
            ),
    {
        self.choice_word();
        self.correct_rate = 0;
        self.error_rate = 0;
    }

    /// Make the given category current, draw a question from it and
    /// reset both counters.
    pub fn select_category(&mut self, name: String)
        requires
            old(self).wf(),
        ensures
            final(self).wf(),
            final(self).words == old(self).words,
            final(self).text == old(self).text,
            final(self).category@ == name@,
            final(self).level == old(self).level,
            final(self).hint == old(self).hint,
            final(self).correct_rate == 0,
            final(self).error_rate == 0,
            drawn_from(
                old(self).words.learn_map(),
                name@,
                final(self).question@,
                final(self).answer@,
                old(self).question@,
                old(self).answer@,
            ),
    {
        self.category = name;
        self.reload_question();
    }

    /// Replace the store (as re-read from persistent storage), draw a
    /// question and reset both counters.
    pub fn reload(&mut self, words: Words)
        requires
            old(self).wf(),
            words.wf(),
        ensures
            final(self).wf(),
            final(self).words == words,
            final(self).text == old(self).text,
            final(self).category == old(self).category,
            final(self).level == old(self).level,
            final(self).hint == old(self).hint,
            final(self).correct_rate == 0,
            final(self).error_rate == 0,
            drawn_from(
                words.learn_map(),
                old(self).category@,
                final(self).question@,
                final(self).answer@,
                old(self).question@,
                old(self).answer@,
            ),
    {
        self.words = words;
        self.reload_question();
    }

    /// Move every completed word of every category back into the learn
    /// pool; see [`Words::review`].
    pub fn review(&mut self)
        requires
            old(self).wf(),
        ensures
            final(self).wf(),
            final(self).text == old(self).text,
            final(self).category == old(self).category,
            final(self).question == old(self).question,
            final(self).answer == old(self).answer,
            final(self).correct_rate == old(self).correct_rate,
            final(self).error_rate == old(self).error_rate,
            final(self).level == old(self).level,
            final(self).hint == old(self).hint,
            final(self).words.complete_map().dom() == old(self).words.complete_map().dom(),
            forall|c: Seq<char>|
                final(self).words.complete_map().contains_key(c) ==> final(self).words.complete_map()[c] == Map::<Seq<char>, Seq<char>>::empty(),
            final(self).words.learn_map().dom() == old(self).words.learn_map().dom().union(
                old(self).words.complete_map().dom(),
            ),
            forall|c: Seq<char>|
                old(self).words.complete_map().contains_key(c) ==> final(self).words.learn_map()[c]
                    == pool_at(old(self).words.learn_map(), c).union_prefer_right(
                    old(self).words.complete_map()[c],
                ),
            forall|c: Seq<char>|
                old(self).words.learn_map().contains_key(c) && !old(self).words.complete_map().contains_key(c) ==> final(self).words.learn_map()[c] == old(self).words.learn_map()[c],
    {
        self.words.review();
    }

    /// Whether the current answer should be spoken aloud: only at the
    /// low level, and only with a question on display.
    pub fn wants_audio(&self) -> (r: bool)
        ensures
            r == (self.level == Level::Low && self.question@ != Seq::<char>::empty()),
    {
        let no_question = self.question.as_str().is_empty();
        proof {
            if self.question@.len() == 0 {
                assert(self.question@ =~= Seq::<char>::empty());
            }
        }
        self.level == Level::Low && !no_question
    }
}

} // verus!
