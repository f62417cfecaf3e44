//! The progress store: two pools (`learn` and `complete`), each a mapping
//! from category name to a mapping from word to answer.
//!
//! Pools are kept as vectors of entries with unique keys; contracts speak
//! of the corresponding `Map` abstractions.

use crate::ext::str_eq;
use vstd::prelude::*;

verus! {

/// One word/answer pair inside a category.
pub struct WordPair {
    pub word: String,
    pub answer: String,
}

/// A named category: a mapping from word to answer, kept as a vector of
/// pairs with pairwise-distinct words.
pub struct CategoryEntry {
    pub name: String,
    pub words: Vec<WordPair>,
}

/// The mapping a sequence of word/answer pairs stands for. A later pair
/// with the same word wins, matching insertion order.
pub open spec fn words_map(ws: Seq<WordPair>) -> Map<Seq<char>, Seq<char>>
    decreases ws.len(),
{
    if ws.len() == 0 {
        Map::empty()
    } else {
        words_map(ws.drop_last()).insert(ws.last().word@, ws.last().answer@)
    }
}

/// The words of a category are pairwise distinct.
pub open spec fn words_wf(ws: Seq<WordPair>) -> bool {
    forall|i: int, j: int| 0 <= i < j < ws.len() ==> ws[i].word@ != ws[j].word@
}

/// The two-level mapping a pool stands for.
pub open spec fn pool_map(cs: Seq<CategoryEntry>) -> Map<Seq<char>, Map<Seq<char>, Seq<char>>>
    decreases cs.len(),
{
    if cs.len() == 0 {
        Map::empty()
    } else {
        pool_map(cs.drop_last()).insert(cs.last().name@, words_map(cs.last().words@))
    }
}

/// Category names are pairwise distinct and every category is well formed.
pub open spec fn pool_wf(cs: Seq<CategoryEntry>) -> bool {
    &&& forall|i: int, j: int| 0 <= i < j < cs.len() ==> cs[i].name@ != cs[j].name@
    &&& forall|i: int| 0 <= i < cs.len() ==> words_wf(#[trigger] cs[i].words@)
}

/// Every key of `words_map` is the word of some pair.
pub proof fn lemma_words_map_dom(ws: Seq<WordPair>)
    ensures
        forall|k: Seq<char>|
            words_map(ws).contains_key(k) <==> exists|i: int|
                0 <= i < ws.len() && #[trigger] ws[i].word@ == k,
    decreases ws.len(),
{
    if ws.len() > 0 {
        let pre = ws.drop_last();
        lemma_words_map_dom(pre);
        assert forall|k: Seq<char>| words_map(ws).contains_key(k) implies exists|i: int|
            0 <= i < ws.len() && #[trigger] ws[i].word@ == k by {
            if k == ws.last().word@ {
                assert(ws[ws.len() - 1].word@ == k);
            } else {
                assert(words_map(pre).contains_key(k));
                let i = choose|i: int| 0 <= i < pre.len() && #[trigger] pre[i].word@ == k;
                assert(pre[i] == ws[i]);
                assert(ws[i].word@ == k);
            }
        }
        assert forall|k: Seq<char>|
            (exists|i: int| 0 <= i < ws.len() && #[trigger] ws[i].word@ == k) implies words_map(
            ws,
        ).contains_key(k) by {
            let i = choose|i: int| 0 <= i < ws.len() && #[trigger] ws[i].word@ == k;
            if i < ws.len() - 1 {
                assert(pre[i] == ws[i]);
                assert(pre[i].word@ == k);
                assert(words_map(pre).contains_key(k));
            }
        }
    }
}

/// In a well-formed sequence, each pair gives the value of its word.
pub proof fn lemma_words_map_at(ws: Seq<WordPair>, i: int)
    requires
        words_wf(ws),
        0 <= i < ws.len(),
    ensures
        words_map(ws).contains_key(ws[i].word@),
        words_map(ws)[ws[i].word@] == ws[i].answer@,
    decreases ws.len(),
{
    if i == ws.len() - 1 {
    } else {
        lemma_words_map_at(ws.drop_last(), i);
        assert(ws.drop_last()[i] == ws[i]);
    }
}

/// Every key of `pool_map` is the name of some entry.
pub proof fn lemma_pool_map_dom(cs: Seq<CategoryEntry>)
    ensures
        forall|k: Seq<char>|
            pool_map(cs).contains_key(k) <==> exists|i: int|
                0 <= i < cs.len() && #[trigger] cs[i].name@ == k,
    decreases cs.len(),
{
    if cs.len() > 0 {
        let pre = cs.drop_last();
        lemma_pool_map_dom(pre);
        assert forall|k: Seq<char>| pool_map(cs).contains_key(k) implies exists|i: int|
            0 <= i < cs.len() && #[trigger] cs[i].name@ == k by {
            if k == cs.last().name@ {
                assert(cs[cs.len() - 1].name@ == k);
            } else {
                assert(pool_map(pre).contains_key(k));
                let i = choose|i: int| 0 <= i < pre.len() && #[trigger] pre[i].name@ == k;
                assert(pre[i] == cs[i]);
                assert(cs[i].name@ == k);
            }
        }
        assert forall|k: Seq<char>|
            (exists|i: int| 0 <= i < cs.len() && #[trigger] cs[i].name@ == k) implies pool_map(
            cs,
        ).contains_key(k) by {
            let i = choose|i: int| 0 <= i < cs.len() && #[trigger] cs[i].name@ == k;
            if i < cs.len() - 1 {
                assert(pre[i] == cs[i]);
                assert(pre[i].name@ == k);
                assert(pool_map(pre).contains_key(k));
            }
        }
    }
}

/// In a well-formed pool, each entry gives the value of its name.
pub proof fn lemma_pool_map_at(cs: Seq<CategoryEntry>, i: int)
    requires
        forall|i: int, j: int| 0 <= i < j < cs.len() ==> cs[i].name@ != cs[j].name@,
        0 <= i < cs.len(),
    ensures
        pool_map(cs).contains_key(cs[i].name@),
        pool_map(cs)[cs[i].name@] == words_map(cs[i].words@),
    decreases cs.len(),
{
    if i == cs.len() - 1 {
    } else {
        lemma_pool_map_at(cs.drop_last(), i);
        assert(cs.drop_last()[i] == cs[i]);
    }
}

/// Removing a pair removes exactly its word from the mapping.
pub proof fn lemma_words_map_remove(ws: Seq<WordPair>, i: int)
    requires
        words_wf(ws),
        0 <= i < ws.len(),
    ensures
        words_wf(ws.remove(i)),
        words_map(ws.remove(i)) == words_map(ws).remove(ws[i].word@),
    decreases ws.len(),
{
    let k = ws[i].word@;
    ws.remove_ensures(i);
    assert(words_wf(ws.remove(i)));
    lemma_words_map_dom(ws);
    lemma_words_map_dom(ws.drop_last());
    if i == ws.len() - 1 {
        assert(ws.remove(i) =~= ws.drop_last());
        if words_map(ws.drop_last()).contains_key(k) {
            let j = choose|j: int|
                0 <= j < ws.drop_last().len() && #[trigger] ws.drop_last()[j].word@ == k;
            assert(ws[j].word@ == k);
            assert(false);
        }
        assert(words_map(ws.drop_last()) =~= words_map(ws).remove(k));
    } else {
        let pre = ws.drop_last();
        lemma_words_map_remove(pre, i);
        assert(ws.remove(i).drop_last() =~= pre.remove(i));
        assert(ws.remove(i).last() == ws.last());
        assert(ws[i].word@ != ws.last().word@);
        assert(words_map(ws.remove(i)) == words_map(pre).remove(k).insert(
            ws.last().word@,
            ws.last().answer@,
        ));
        assert(words_map(pre).remove(k).insert(ws.last().word@, ws.last().answer@)
            =~= words_map(ws).remove(k));
    }
}

/// Removing an entry removes exactly its name from the pool mapping.
pub proof fn lemma_pool_map_remove(cs: Seq<CategoryEntry>, i: int)
    requires
        pool_wf(cs),
        0 <= i < cs.len(),
    ensures
        pool_wf(cs.remove(i)),
        pool_map(cs.remove(i)) == pool_map(cs).remove(cs[i].name@),
    decreases cs.len(),
{
    let k = cs[i].name@;
    cs.remove_ensures(i);
    assert(pool_wf(cs.remove(i)));
    lemma_pool_map_dom(cs);
    lemma_pool_map_dom(cs.drop_last());
    if i == cs.len() - 1 {
        assert(cs.remove(i) =~= cs.drop_last());
        if pool_map(cs.drop_last()).contains_key(k) {
            let j = choose|j: int|
                0 <= j < cs.drop_last().len() && #[trigger] cs.drop_last()[j].name@ == k;
            assert(cs[j].name@ == k);
            assert(false);
        }
        assert(pool_map(cs.drop_last()) =~= pool_map(cs).remove(k));
    } else {
        let pre = cs.drop_last();
        lemma_pool_map_remove(pre, i);
        assert(cs.remove(i).drop_last() =~= pre.remove(i));
        assert(cs.remove(i).last() == cs.last());
        assert(cs[i].name@ != cs.last().name@);
        assert(pool_map(cs.remove(i)) == pool_map(pre).remove(k).insert(
            cs.last().name@,
            words_map(cs.last().words@),
        ));
        assert(pool_map(pre).remove(k).insert(cs.last().name@, words_map(cs.last().words@))
            =~= pool_map(cs).remove(k));
    }
}

/// Appending a pair inserts exactly its word into the mapping.
pub proof fn lemma_words_map_push(ws: Seq<WordPair>, p: WordPair)
    ensures
        words_map(ws.push(p)) == words_map(ws).insert(p.word@, p.answer@),
{
    assert(ws.push(p).drop_last() =~= ws);
    assert(ws.push(p).last() == p);
}

/// Appending an entry inserts exactly its name into the pool mapping.
pub proof fn lemma_pool_map_push(cs: Seq<CategoryEntry>, e: CategoryEntry)
    ensures
        pool_map(cs.push(e)) == pool_map(cs).insert(e.name@, words_map(e.words@)),
{
    assert(cs.push(e).drop_last() =~= cs);
    assert(cs.push(e).last() == e);
}

/// In a well-formed sequence the mapping has exactly one key per pair.
pub proof fn lemma_words_map_len(ws: Seq<WordPair>)
    requires
        words_wf(ws),
    ensures
        words_map(ws).dom().finite(),
        words_map(ws).dom().len() == ws.len(),
    decreases ws.len(),
{
    if ws.len() > 0 {
        let pre = ws.drop_last();
        lemma_words_map_len(pre);
        lemma_words_map_dom(pre);
        let k = ws.last().word@;
        if words_map(pre).contains_key(k) {
            let j = choose|j: int| 0 <= j < pre.len() && #[trigger] pre[j].word@ == k;
            assert(ws[j].word@ == k);
            assert(false);
        }
        vstd::set::axiom_set_insert_finite(words_map(pre).dom(), k);
        vstd::set::axiom_set_insert_len(words_map(pre).dom(), k);
    }
}

/// Find the index of a word within a category's pairs.
fn find_word(ws: &Vec<WordPair>, word: &str) -> (r: Option<usize>)
    ensures
        match r {
            Some(i) => i < ws.len() && ws@[i as int].word@ == word@,
            None => forall|i: int| 0 <= i < ws@.len() ==> ws@[i].word@ != word@,
        },
{
    let n = ws.len();
    let mut i: usize = 0;
    while i < n
        invariant
            i <= n,
            n == ws.len(),
            forall|j: int| 0 <= j < i ==> ws@[j].word@ != word@,
        decreases n - i,
    {
        if str_eq(ws[i].word.as_str(), word) {
            return Some(i);
        }
        i += 1;
    }
    None
}

/// Find the index of a category by name.
pub fn find_category(cs: &Vec<CategoryEntry>, name: &str) -> (r: Option<usize>)
    ensures
        match r {
            Some(i) => i < cs.len() && cs@[i as int].name@ == name@,
            None => forall|i: int| 0 <= i < cs@.len() ==> cs@[i].name@ != name@,
        },
{
    let n = cs.len();
    let mut i: usize = 0;
    while i < n
        invariant
            i <= n,
            n == cs.len(),
            forall|j: int| 0 <= j < i ==> cs@[j].name@ != name@,
        decreases n - i,
    {
        if str_eq(cs[i].name.as_str(), name) {
            return Some(i);
        }
        i += 1;
    }
    None
}

/// Sequences of pairs with equal words and answers stand for equal mappings.
pub proof fn lemma_words_map_congruence(a: Seq<WordPair>, b: Seq<WordPair>)
    requires
        a.len() == b.len(),
        forall|i: int|
            0 <= i < a.len() ==> #[trigger] a[i].word@ == b[i].word@ && a[i].answer@
                == b[i].answer@,
    ensures
        words_map(a) == words_map(b),
    decreases a.len(),
{
    if a.len() > 0 {
        lemma_words_map_congruence(a.drop_last(), b.drop_last());
        assert(a.drop_last().len() == b.drop_last().len());
        assert(words_map(a) == words_map(a.drop_last()).insert(a.last().word@, a.last().answer@));
        assert(a.last().word@ == b.last().word@ && a.last().answer@ == b.last().answer@);
    }
}

/// Insert a pair, replacing any pair with the same word.
pub(crate) fn words_insert(ws: &mut Vec<WordPair>, word: String, answer: String)
    requires
        words_wf(old(ws)@),
    ensures
        words_wf(final(ws)@),
        words_map(final(ws)@) == words_map(old(ws)@).insert(word@, answer@),
{
    let ghost orig = ws@;
    let ghost w = word@;
    let ghost a = answer@;
    match find_word(ws, word.as_str()) {
        Some(i) => {
            let ghost ii = i as int;
            let _ = ws.remove(i);
            proof {
                lemma_words_map_remove(orig, ii);
                orig.remove_ensures(ii);
                assert forall|j: int| 0 <= j < ws@.len() implies ws@[j].word@ != w by {
                    if j < ii {
                        assert(ws@[j] == orig[j]);
                    } else {
                        assert(ws@[j] == orig[j + 1]);
                    }
                }
            }
            let ghost mid = ws@;
            ws.push(WordPair { word, answer });
            proof {
                lemma_words_map_push(mid, ws@.last());
                assert(words_map(ws@) =~= words_map(orig).insert(w, a));
                assert(words_wf(ws@));
            }
        },
        None => {
            let ghost mid = ws@;
            ws.push(WordPair { word, answer });
            proof {
                lemma_words_map_push(mid, ws@.last());
                assert(words_map(ws@) =~= words_map(orig).insert(w, a));
                assert(words_wf(ws@));
            }
        },
    }
}

/// Copy a category's pairs.
fn clone_words(ws: &Vec<WordPair>) -> (r: Vec<WordPair>)
    ensures
        r@.len() == ws@.len(),
        forall|i: int|
            0 <= i < ws@.len() ==> #[trigger] r@[i].word@ == ws@[i].word@ && r@[i].answer@
                == ws@[i].answer@,
{
    let mut r: Vec<WordPair> = Vec::new();
    let n = ws.len();
    let mut i: usize = 0;
    while i < n
        invariant
            i <= n,
            n == ws.len(),
            r@.len() == i,
            forall|j: int|
                0 <= j < i ==> #[trigger] r@[j].word@ == ws@[j].word@ && r@[j].answer@
                    == ws@[j].answer@,
        decreases n - i,
    {
        r.push(WordPair { word: ws[i].word.clone(), answer: ws[i].answer.clone() });
        i += 1;
    }
    r
}

/// The word/answer mapping of a category of the pool, or empty where the
/// pool has no such category.
pub open spec fn pool_at(
    m: Map<Seq<char>, Map<Seq<char>, Seq<char>>>,
    c: Seq<char>,
) -> Map<Seq<char>, Seq<char>> {
    if m.contains_key(c) {
        m[c]
    } else {
        Map::empty()
    }
}

/// Merge the given pairs into the pool's category of the given name,
/// creating the category if absent; pairs replace equal words.
fn merge_into_pool(cs: &mut Vec<CategoryEntry>, name: String, ws: &Vec<WordPair>)
    requires
        pool_wf(old(cs)@),
        words_wf(ws@),
    ensures
        pool_wf(final(cs)@),
        pool_map(final(cs)@) == pool_map(old(cs)@).insert(
            name@,
            pool_at(pool_map(old(cs)@), name@).union_prefer_right(words_map(ws@)),
        ),
{
    let ghost orig = cs@;
    let ghost nm = name@;
    let mut entry = match find_category(cs, name.as_str()) {
        Some(i) => {
            let ghost ii = i as int;
            let e = cs.remove(i);
            proof {
                lemma_pool_map_at(orig, ii);
                lemma_pool_map_remove(orig, ii);
                orig.remove_ensures(ii);
                assert forall|j: int| 0 <= j < cs@.len() implies cs@[j].name@ != nm by {
                    if j < ii {
                        assert(cs@[j] == orig[j]);
                    } else {
                        assert(cs@[j] == orig[j + 1]);
                    }
                }
            }
            e
        },
        None => {
            proof {
                lemma_pool_map_dom(orig);
            }
            CategoryEntry { name, words: Vec::new() }
        },
    };
    let ghost base = words_map(entry.words@);
    proof {
        assert(base == pool_at(pool_map(orig), nm));
    }
    let n = ws.len();
    let mut i: usize = 0;
    while i < n
        invariant
            i <= n,
            n == ws.len(),
            words_wf(ws@),
            words_wf(entry.words@),
            entry.name@ == nm,
            words_map(entry.words@) == base.union_prefer_right(words_map(ws@.take(i as int))),
        decreases n - i,
    {
        let ghost before = words_map(entry.words@);
        words_insert(&mut entry.words, ws[i].word.clone(), ws[i].answer.clone());
        proof {
            let t1 = ws@.take(i as int);
            let t2 = ws@.take(i + 1 as int);
            assert(t2.drop_last() =~= t1);
            assert(t2.last() == ws@[i as int]);
            assert(words_map(t2) == words_map(t1).insert(ws@[i as int].word@, ws@[i as int].answer@));
            assert(before.insert(ws@[i as int].word@, ws@[i as int].answer@)
                =~= base.union_prefer_right(words_map(t2)));
        }
        i += 1;
    }
    proof {
        assert(ws@.take(n as int) =~= ws@);
    }
    let ghost mid = cs@;
    let ghost ewords = entry.words@;
    cs.push(entry);
    proof {
        lemma_pool_map_push(mid, cs@.last());
        assert(cs@.last().name@ == nm && cs@.last().words@ == ewords);
        assert(pool_map(cs@) =~= pool_map(orig).insert(
            nm,
            pool_at(pool_map(orig), nm).union_prefer_right(words_map(ws@)),
        ));
        assert forall|a: int, b: int| 0 <= a < b < cs@.len() implies cs@[a].name@ != cs@[b].name@ by {
            if b < cs@.len() - 1 {
                assert(cs@[a] == mid[a] && cs@[b] == mid[b]);
            } else {
                assert(cs@[a] == mid[a]);
            }
        }
        assert forall|a: int| 0 <= a < cs@.len() implies words_wf(#[trigger] cs@[a].words@) by {
            if a < cs@.len() - 1 {
                assert(cs@[a] == mid[a]);
            }
        }
    }
}

/// Insert a category with the given pairs, replacing any category of
/// the same name.
pub(crate) fn pool_insert(cs: &mut Vec<CategoryEntry>, name: String, ws: Vec<WordPair>)
    requires
        pool_wf(old(cs)@),
        words_wf(ws@),
    ensures
        pool_wf(final(cs)@),
        pool_map(final(cs)@) == pool_map(old(cs)@).insert(name@, words_map(ws@)),
{
    let ghost orig = cs@;
    let ghost nm = name@;
    match find_category(cs, name.as_str()) {
        Some(i) => {
            let ghost ii = i as int;
            let _ = cs.remove(i);
            proof {
                lemma_pool_map_remove(orig, ii);
                orig.remove_ensures(ii);
                assert forall|j: int| 0 <= j < cs@.len() implies cs@[j].name@ != nm by {
                    if j < ii {
                        assert(cs@[j] == orig[j]);
                    } else {
                        assert(cs@[j] == orig[j + 1]);
                    }
                }
            }
        },
        None => {
            proof {
                lemma_pool_map_dom(orig);
            }
        },
    }
    let ghost mid = cs@;
    cs.push(CategoryEntry { name, words: ws });
    proof {
        lemma_pool_map_push(mid, cs@.last());
        assert(cs@.last().name@ == nm);
        assert(pool_map(cs@) =~= pool_map(orig).insert(nm, words_map(cs@.last().words@)));
        assert forall|a: int, b: int| 0 <= a < b < cs@.len() implies cs@[a].name@ != cs@[b].name@ by {
            if b < cs@.len() - 1 {
                assert(cs@[a] == mid[a] && cs@[b] == mid[b]);
            } else {
                assert(cs@[a] == mid[a]);
            }
        }
        assert forall|a: int| 0 <= a < cs@.len() implies words_wf(#[trigger] cs@[a].words@) by {
            if a < cs@.len() - 1 {
                assert(cs@[a] == mid[a]);
            }
        }
    }
}

/// Pick one word/answer pair uniformly at random; the empty pair when
/// there is none to pick.
pub fn random_sample(ws: &Vec<WordPair>) -> (r: (String, String))
    ensures
        ws@.len() == 0 ==> r.0@ == Seq::<char>::empty() && r.1@ == Seq::<char>::empty(),
        ws@.len() > 0 ==> exists|i: int|
            0 <= i < ws@.len() && #[trigger] ws@[i].word@ == r.0@ && ws@[i].answer@ == r.1@,
{
    if ws.len() == 0 {
        (String::new(), String::new())
    } else {
        let i = crate::rng::random_below(ws.len());
        let r = (ws[i].word.clone(), ws[i].answer.clone());
        proof {
            assert(ws@[i as int].word@ == r.0@ && ws@[i as int].answer@ == r.1@);
        }
        r
    }
}

/// Completing a word moves it: for any store whose learn pool holds the
/// word under the category, the mappings that [`Words::complete_word`]
/// produces have the word absent from the learn category and present in
/// the complete category with the submitted answer.
pub proof fn lemma_complete_word_moves(
    lm: Map<Seq<char>, Map<Seq<char>, Seq<char>>>,
    cm: Map<Seq<char>, Map<Seq<char>, Seq<char>>>,
    c: Seq<char>,
    w: Seq<char>,
    a: Seq<char>,
)
    requires
        lm.contains_key(c),
        lm[c].contains_key(w),
    ensures
        !lm.insert(c, lm[c].remove(w))[c].contains_key(w),
        cm.insert(c, pool_at(cm, c).insert(w, a))[c].contains_key(w),
        cm.insert(c, pool_at(cm, c).insert(w, a))[c][w] == a,
{
}

/// A review restores every formerly completed entry: the learn category
/// that [`Words::review`] produces holds each completed word with its
/// completed answer.
pub proof fn lemma_review_restores(
    lm: Map<Seq<char>, Map<Seq<char>, Seq<char>>>,
    cm: Map<Seq<char>, Map<Seq<char>, Seq<char>>>,
    c: Seq<char>,
    w: Seq<char>,
)
    requires
        cm.contains_key(c),
        cm[c].contains_key(w),
    ensures
        pool_at(lm, c).union_prefer_right(cm[c]).contains_key(w),
        pool_at(lm, c).union_prefer_right(cm[c])[w] == cm[c][w],
{
}

/// A given (category, word) pair is present in at most one of the two
/// pools.
pub open spec fn pools_disjoint(
    lm: Map<Seq<char>, Map<Seq<char>, Seq<char>>>,
    cm: Map<Seq<char>, Map<Seq<char>, Seq<char>>>,
) -> bool {
    forall|c: Seq<char>, w: Seq<char>|
        #![trigger lm[c].contains_key(w), cm[c].contains_key(w)]
        lm.contains_key(c) && cm.contains_key(c) && lm[c].contains_key(w) ==> !cm[c].contains_key(
            w,
        )
}

/// Completing a word keeps the two pools disjoint: the word leaves the
/// learn category as it enters the complete category.
pub proof fn lemma_complete_word_keeps_disjoint(
    lm: Map<Seq<char>, Map<Seq<char>, Seq<char>>>,
    cm: Map<Seq<char>, Map<Seq<char>, Seq<char>>>,
    c: Seq<char>,
    w: Seq<char>,
    a: Seq<char>,
)
    requires
        pools_disjoint(lm, cm),
        lm.contains_key(c),
        lm[c].contains_key(w),
    ensures
        pools_disjoint(
            lm.insert(c, lm[c].remove(w)),
            cm.insert(c, pool_at(cm, c).insert(w, a)),
        ),
{
    let lm2 = lm.insert(c, lm[c].remove(w));
    let cm2 = cm.insert(c, pool_at(cm, c).insert(w, a));
    assert forall|c2: Seq<char>, w2: Seq<char>|
        lm2.contains_key(c2) && cm2.contains_key(c2) && #[trigger] lm2[c2].contains_key(
            w2,
        ) implies !#[trigger] cm2[c2].contains_key(w2) by {
        if c2 == c {
            assert(lm2[c2] == lm[c].remove(w));
            assert(w2 != w);
            assert(lm[c].contains_key(w2));
            if cm.contains_key(c) {
                assert(!cm[c].contains_key(w2));
            }
        } else {
            assert(lm2[c2] == lm[c2] && cm2[c2] == cm[c2]);
            assert(lm[c2].contains_key(w2) ==> !cm[c2].contains_key(w2));
        }
    }
}

/// A review leaves the two pools disjoint: every complete category ends
/// empty.
pub proof fn lemma_review_keeps_disjoint(
    lm: Map<Seq<char>, Map<Seq<char>, Seq<char>>>,
    cm: Map<Seq<char>, Map<Seq<char>, Seq<char>>>,
)
    requires
        forall|c: Seq<char>|
            cm.contains_key(c) ==> cm[c] == Map::<Seq<char>, Seq<char>>::empty(),
    ensures
        pools_disjoint(lm, cm),
{
}

/// The progress store: the `learn` pool and the `complete` pool.
pub struct Words {
    pub learn: Vec<CategoryEntry>,
    pub complete: Vec<CategoryEntry>,
}

impl Words {
    /// Both pools have unique category names and unique words per category.
    pub open spec fn wf(&self) -> bool {
        pool_wf(self.learn@) && pool_wf(self.complete@)
    }

    /// The learn pool as a two-level mapping.
    pub open spec fn learn_map(&self) -> Map<Seq<char>, Map<Seq<char>, Seq<char>>> {
        pool_map(self.learn@)
    }

    /// The complete pool as a two-level mapping.
    pub open spec fn complete_map(&self) -> Map<Seq<char>, Map<Seq<char>, Seq<char>>> {
        pool_map(self.complete@)
    }

    /// The empty store.
    pub fn new() -> (w: Words)
        ensures
            w.wf(),
            w.learn_map() == Map::<Seq<char>, Map<Seq<char>, Seq<char>>>::empty(),
            w.complete_map() == Map::<Seq<char>, Map<Seq<char>, Seq<char>>>::empty(),
    {
        Words { learn: Vec::new(), complete: Vec::new() }
    }

    /// Move a word out of `learn[category]` into `complete[category]`,
    /// recording the given answer; a no-op returning `None` when the
    /// category or the word is absent from the learn pool.
    pub fn complete_word(&mut self, category: &str, word: &str, answer: String) -> (r: Option<()>)
        requires
            old(self).wf(),
        ensures
            final(self).wf(),
            ({
                let c = category@;
                let w = word@;
                if old(self).learn_map().contains_key(c) && old(self).learn_map()[c].contains_key(
                    w,
                ) {
                    &&& r is Some
                    &&& final(self).learn_map() == old(self).learn_map().insert(
                        c,
                        old(self).learn_map()[c].remove(w),
                    )
                    &&& final(self).complete_map() == old(self).complete_map().insert(
                        c,
                        pool_at(old(self).complete_map(), c).insert(w, answer@),
                    )
                } else {
                    r is None && *final(self) == *old(self)
                }
            }),
    {
        let ghost olearn = self.learn@;
        let ghost c = category@;
        let ghost w = word@;
        let ci = match find_category(&self.learn, category) {
            Some(i) => i,
            None => {
                proof {
                    lemma_pool_map_dom(olearn);
                }
                return None;
            },
        };
        let wi = match find_word(&self.learn[ci].words, word) {
            Some(i) => i,
            None => {
                proof {
                    lemma_pool_map_at(olearn, ci as int);
                    lemma_words_map_dom(olearn[ci as int].words@);
                }
                return None;
            },
        };
        proof {
            lemma_pool_map_at(olearn, ci as int);
            lemma_words_map_at(olearn[ci as int].words@, wi as int);
        }
        let mut entry = self.learn.remove(ci);
        proof {
            lemma_pool_map_remove(olearn, ci as int);
            olearn.remove_ensures(ci as int);
            assert forall|j: int| 0 <= j < self.learn@.len() implies self.learn@[j].name@ != c by {
                if j < ci as int {
                    assert(self.learn@[j] == olearn[j]);
                } else {
                    assert(self.learn@[j] == olearn[j + 1]);
                }
            }
        }
        let ghost mwords = entry.words@;
        let _ = entry.words.remove(wi);
        proof {
            lemma_words_map_remove(mwords, wi as int);
        }
        let ghost mid = self.learn@;
        let ghost ewords = entry.words@;
        self.learn.push(entry);
        proof {
            lemma_pool_map_push(mid, self.learn@.last());
            assert(self.learn@.last().name@ == c && self.learn@.last().words@ == ewords);
            assert(pool_map(self.learn@) =~= pool_map(olearn).insert(
                c,
                pool_map(olearn)[c].remove(w),
            ));
            assert forall|a: int, b: int|
                0 <= a < b < self.learn@.len() implies self.learn@[a].name@
                != self.learn@[b].name@ by {
                if b < self.learn@.len() - 1 {
                    assert(self.learn@[a] == mid[a] && self.learn@[b] == mid[b]);
                } else {
                    assert(self.learn@[a] == mid[a]);
                }
            }
            assert forall|a: int|
                0 <= a < self.learn@.len() implies words_wf(#[trigger] self.learn@[a].words@) by {
                if a < self.learn@.len() - 1 {
                    assert(self.learn@[a] == mid[a]);
                }
            }
        }
        let ghost ocomp = self.complete@;
        let mut centry = match find_category(&self.complete, category) {
            Some(i) => {
                let ghost ii = i as int;
                let e = self.complete.remove(i);
                proof {
                    lemma_pool_map_at(ocomp, ii);
                    lemma_pool_map_remove(ocomp, ii);
                    ocomp.remove_ensures(ii);
                    assert forall|j: int|
                        0 <= j < self.complete@.len() implies self.complete@[j].name@ != c by {
                        if j < ii {
                            assert(self.complete@[j] == ocomp[j]);
                        } else {
                            assert(self.complete@[j] == ocomp[j + 1]);
                        }
                    }
                }
                e
            },
            None => {
                proof {
                    lemma_pool_map_dom(ocomp);
                }
                CategoryEntry { name: String::from_str(category), words: Vec::new() }
            },
        };
        words_insert(&mut centry.words, String::from_str(word), answer);
        let ghost cmid = self.complete@;
        let ghost cwords = centry.words@;
        self.complete.push(centry);
        proof {
            lemma_pool_map_push(cmid, self.complete@.last());
            assert(self.complete@.last().name@ == c && self.complete@.last().words@ == cwords);
            assert(pool_map(self.complete@) =~= pool_map(ocomp).insert(
                c,
                pool_at(pool_map(ocomp), c).insert(w, answer@),
            ));
            assert forall|a: int, b: int|
                0 <= a < b < self.complete@.len() implies self.complete@[a].name@
                != self.complete@[b].name@ by {
                if b < self.complete@.len() - 1 {
                    assert(self.complete@[a] == cmid[a] && self.complete@[b] == cmid[b]);
                } else {
                    assert(self.complete@[a] == cmid[a]);
                }
            }
            assert forall|a: int|
                0 <= a < self.complete@.len() implies words_wf(
                #[trigger] self.complete@[a].words@,
            ) by {
                if a < self.complete@.len() - 1 {
                    assert(self.complete@[a] == cmid[a]);
                }
            }
        }
        Some(())
    }

    /// How many words are left to learn in the category: the size of
    /// `learn[category]`, or 0 where the category is absent.
    pub fn remaining_words(&self, category: &str) -> (r: usize)
        requires
            self.wf(),
        ensures
            r == if self.learn_map().contains_key(category@) {
                self.learn_map()[category@].dom().len() as int
            } else {
                0
            },
    {
        match find_category(&self.learn, category) {
            Some(i) => {
                proof {
                    lemma_pool_map_at(self.learn@, i as int);
                    lemma_words_map_len(self.learn@[i as int].words@);
                }
                self.learn[i].words.len()
            },
            None => {
                proof {
                    lemma_pool_map_dom(self.learn@);
                }
                0
            },
        }
    }

    /// How many words are completed in the category: the size of
    /// `complete[category]`, or 0 where the category is absent.
    pub fn completed_words(&self, category: &str) -> (r: usize)
        requires
            self.wf(),
        ensures
            r == if self.complete_map().contains_key(category@) {
                self.complete_map()[category@].dom().len() as int
            } else {
                0
            },
    {
        match find_category(&self.complete, category) {
            Some(i) => {
                proof {
                    lemma_pool_map_at(self.complete@, i as int);
                    lemma_words_map_len(self.complete@[i as int].words@);
                }
                self.complete[i].words.len()
            },
            None => {
                proof {
                    lemma_pool_map_dom(self.complete@);
                }
                0
            },
        }
    }

    /// Move every completed word of every category back into the learn
    /// pool; every `complete` category remains, emptied.
    pub fn review(&mut self)
        requires
            old(self).wf(),
        ensures
            final(self).wf(),
            final(self).complete_map().dom() == old(self).complete_map().dom(),
            forall|c: Seq<char>|
                final(self).complete_map().contains_key(c) ==> final(self).complete_map()[c] == Map::<
                    Seq<char>,
                    Seq<char>,
                >::empty(),
            final(self).learn_map().dom() == old(self).learn_map().dom().union(
                old(self).complete_map().dom(),
            ),
            forall|c: Seq<char>|
                old(self).complete_map().contains_key(c) ==> final(self).learn_map()[c] == pool_at(
                    old(self).learn_map(),
                    c,
                ).union_prefer_right(old(self).complete_map()[c]),
            forall|c: Seq<char>|
                old(self).learn_map().contains_key(c) && !old(self).complete_map().contains_key(c)
                    ==> final(self).learn_map()[c] == old(self).learn_map()[c],
    {
        let ghost olm = pool_map(old(self).learn@);
        let ghost ocs = old(self).complete@;
        let n = self.complete.len();
        let mut new_complete: Vec<CategoryEntry> = Vec::new();
        let mut i: usize = 0;
        while i < n
            invariant
                i <= n,
                n == self.complete.len(),
                self.complete@ == ocs,
                old(self).wf(),
                olm == pool_map(old(self).learn@),
                ocs == old(self).complete@,
                pool_wf(self.learn@),
                new_complete@.len() == i,
                forall|j: int|
                    0 <= j < i ==> #[trigger] new_complete@[j].name@ == ocs[j].name@
                        && new_complete@[j].words@.len() == 0,
                forall|c: Seq<char>|
                    pool_map(self.learn@).contains_key(c) <==> (olm.contains_key(c) || exists|j: int|
                        0 <= j < i && #[trigger] ocs[j].name@ == c),
                forall|j: int|
                    0 <= j < i ==> pool_map(self.learn@)[#[trigger] ocs[j].name@] == pool_at(
                        olm,
                        ocs[j].name@,
                    ).union_prefer_right(words_map(ocs[j].words@)),
                forall|c: Seq<char>|
                    olm.contains_key(c) && !(exists|j: int| 0 <= j < i && #[trigger] ocs[j].name@
                        == c) ==> pool_map(self.learn@)[c] == olm[c],
            decreases n - i,
        {
            let ghost lbefore = pool_map(self.learn@);
            let name = self.complete[i].name.clone();
            let ws = clone_words(&self.complete[i].words);
            proof {
                assert(words_wf(ws@)) by {
                    assert(words_wf(ocs[i as int].words@));
                }
                lemma_words_map_congruence(ws@, ocs[i as int].words@);
            }
            merge_into_pool(&mut self.learn, name, &ws);
            new_complete.push(CategoryEntry { name: self.complete[i].name.clone(), words: Vec::new() });
            proof {
                let nm = ocs[i as int].name@;
                // the category being merged was not processed before
                assert forall|j: int| 0 <= j < i implies ocs[j].name@ != nm by {}
                assert(pool_at(lbefore, nm) == pool_at(olm, nm));
                assert forall|c: Seq<char>|
                    pool_map(self.learn@).contains_key(c) <==> (olm.contains_key(c) || exists|j: int|
                        0 <= j < i + 1 && #[trigger] ocs[j].name@ == c) by {
                    if c == nm {
                        assert(ocs[i as int].name@ == c);
                    }
                }
            }
            i += 1;
        }
        let ghost ncs = new_complete@;
        self.complete = new_complete;
        proof {
            assert(self.complete@ == ncs);
            assert(ncs.len() == ocs.len());
            lemma_pool_map_dom(ocs);
            lemma_pool_map_dom(ncs);
            // well-formedness of the rebuilt complete pool
            assert forall|a: int, b: int|
                0 <= a < b < ncs.len() implies ncs[a].name@ != ncs[b].name@ by {
                assert(ncs[a].name@ == ocs[a].name@);
                assert(ncs[b].name@ == ocs[b].name@);
                assert(ocs[a].name@ != ocs[b].name@);
            }
            assert forall|a: int|
                0 <= a < ncs.len() implies words_wf(#[trigger] ncs[a].words@) by {
                assert(ncs[a].name@ == ocs[a].name@ && ncs[a].words@.len() == 0);
            }
            // the complete pool keeps its categories, each emptied
            assert forall|c: Seq<char>|
                pool_map(ncs).contains_key(c) implies pool_map(ocs).contains_key(c) by {
                let j = choose|j: int| 0 <= j < ncs.len() && #[trigger] ncs[j].name@ == c;
                assert(ncs[j].name@ == ocs[j].name@);
                assert(ocs[j].name@ == c);
            }
            assert forall|c: Seq<char>|
                pool_map(ocs).contains_key(c) implies pool_map(ncs).contains_key(c) by {
                let j = choose|j: int| 0 <= j < ocs.len() && #[trigger] ocs[j].name@ == c;
                assert(ncs[j].name@ == ocs[j].name@);
                assert(ncs[j].name@ == c);
            }
            assert(pool_map(self.complete@).dom() =~= pool_map(ocs).dom());
            assert forall|c: Seq<char>|
                pool_map(self.complete@).contains_key(c) implies pool_map(self.complete@)[c]
                == Map::<Seq<char>, Seq<char>>::empty() by {
                let j = choose|j: int| 0 <= j < ncs.len() && #[trigger] ncs[j].name@ == c;
                assert(ncs[j].name@ == ocs[j].name@ && ncs[j].words@.len() == 0);
                lemma_pool_map_at(ncs, j);
                assert(ncs[j].words@ =~= Seq::<WordPair>::empty());
                assert(words_map(ncs[j].words@) =~= Map::<Seq<char>, Seq<char>>::empty());
            }
            // the learn pool gained exactly the completed categories
            assert(pool_map(self.learn@).dom() =~= olm.dom().union(pool_map(ocs).dom()));
            assert forall|c: Seq<char>|
                pool_map(ocs).contains_key(c) implies pool_map(self.learn@)[c] == pool_at(
                olm,
                c,
            ).union_prefer_right(pool_map(ocs)[c]) by {
                let j = choose|j: int| 0 <= j < ocs.len() && #[trigger] ocs[j].name@ == c;
                lemma_pool_map_at(ocs, j);
            }
        }
    }
}

impl Default for Words {
    /// The empty store.
    fn default() -> (w: Words)
        ensures
            w.wf(),
            w.learn_map() == Map::<Seq<char>, Map<Seq<char>, Seq<char>>>::empty(),
            w.complete_map() == Map::<Seq<char>, Map<Seq<char>, Seq<char>>>::empty(),
    {
        Words::new()
    }
}

} // verus!
