//! Persistence codec: the store is written as a two-field record
//! (`learn`, `complete`) of nested string-keyed objects, and read back.
//! The emitted text is pinned down character by character by spec
//! functions, the parser by a spec parser, and parsing what was emitted
//! provably restores the store's mappings.

use crate::ext::{char_from_u32, push_char, str_eq};
use crate::store::{
    pool_insert, pool_map, pool_wf, words_insert, words_map, words_wf, CategoryEntry, WordPair,
    Words,
};
use vstd::prelude::*;

verus! {

/// The lower-case hexadecimal digit for a value below 16.
pub open spec fn hex_digit(n: int) -> char {
    if n == 0 {
        '0'
    } else if n == 1 {
        '1'
    } else if n == 2 {
        '2'
    } else if n == 3 {
        '3'
    } else if n == 4 {
        '4'
    } else if n == 5 {
        '5'
    } else if n == 6 {
        '6'
    } else if n == 7 {
        '7'
    } else if n == 8 {
        '8'
    } else if n == 9 {
        '9'
    } else if n == 10 {
        'a'
    } else if n == 11 {
        'b'
    } else if n == 12 {
        'c'
    } else if n == 13 {
        'd'
    } else if n == 14 {
        'e'
    } else {
        'f'
    }
}

/// How one character is written inside a quoted string: quote and
/// backslash get a backslash, control characters a `\u` escape, and
/// everything else stands for itself.
pub open spec fn esc_char(c: char) -> Seq<char> {
    if c == '"' {
        seq!['\\', '"']
    } else if c == '\\' {
        seq!['\\', '\\']
    } else if (c as u32) < 0x20 {
        seq!['\\', 'u', '0', '0', hex_digit((c as u32) as int / 16), hex_digit(
            (c as u32) as int % 16,
        )]
    } else {
        seq![c]
    }
}

/// A whole character sequence, escaped.
pub open spec fn esc_str(s: Seq<char>) -> Seq<char>
    decreases s.len(),
{
    if s.len() == 0 {
        Seq::empty()
    } else {
        esc_str(s.drop_last()) + esc_char(s.last())
    }
}

/// A quoted, escaped string.
pub open spec fn json_string(s: Seq<char>) -> Seq<char> {
    seq!['"'] + esc_str(s) + seq!['"']
}

/// One member of a category object.
pub open spec fn json_word_member(w: WordPair) -> Seq<char> {
    json_string(w.word@) + seq![':'] + json_string(w.answer@)
}

/// The members of a category object, comma-separated.
pub open spec fn json_words_body(ws: Seq<WordPair>) -> Seq<char>
    decreases ws.len(),
{
    if ws.len() == 0 {
        Seq::empty()
    } else if ws.len() == 1 {
        json_word_member(ws[0])
    } else {
        json_words_body(ws.drop_last()) + seq![','] + json_word_member(ws.last())
    }
}

/// A category object.
pub open spec fn json_words(ws: Seq<WordPair>) -> Seq<char> {
    seq!['{'] + json_words_body(ws) + seq!['}']
}

/// One member of a pool object.
pub open spec fn json_pool_member(e: CategoryEntry) -> Seq<char> {
    json_string(e.name@) + seq![':'] + json_words(e.words@)
}

/// The members of a pool object, comma-separated.
pub open spec fn json_pool_body(cs: Seq<CategoryEntry>) -> Seq<char>
    decreases cs.len(),
{
    if cs.len() == 0 {
        Seq::empty()
    } else if cs.len() == 1 {
        json_pool_member(cs[0])
    } else {
        json_pool_body(cs.drop_last()) + seq![','] + json_pool_member(cs.last())
    }
}

/// A pool object.
pub open spec fn json_pool(cs: Seq<CategoryEntry>) -> Seq<char> {
    seq!['{'] + json_pool_body(cs) + seq!['}']
}

/// The field name of the learn pool.
pub open spec fn learn_key() -> Seq<char> {
    seq!['l', 'e', 'a', 'r', 'n']
}

/// The field name of the complete pool.
pub open spec fn complete_key() -> Seq<char> {
    seq!['c', 'o', 'm', 'p', 'l', 'e', 't', 'e']
}

/// The whole persisted record.
pub open spec fn json_store(learn: Seq<CategoryEntry>, complete: Seq<CategoryEntry>) -> Seq<
    char,
> {
    seq!['{'] + json_string(learn_key()) + seq![':'] + json_pool(learn) + seq![','] + json_string(
        complete_key(),
    ) + seq![':'] + json_pool(complete) + seq!['}']
}

/// The lower-case hexadecimal digit of a value below 16.
fn hex_digit_exec(n: u32) -> (c: char)
    requires
        n < 16,
    ensures
        c == hex_digit(n as int),
{
    if n == 0 {
        '0'
    } else if n == 1 {
        '1'
    } else if n == 2 {
        '2'
    } else if n == 3 {
        '3'
    } else if n == 4 {
        '4'
    } else if n == 5 {
        '5'
    } else if n == 6 {
        '6'
    } else if n == 7 {
        '7'
    } else if n == 8 {
        '8'
    } else if n == 9 {
        '9'
    } else if n == 10 {
        'a'
    } else if n == 11 {
        'b'
    } else if n == 12 {
        'c'
    } else if n == 13 {
        'd'
    } else if n == 14 {
        'e'
    } else {
        'f'
    }
}

/// Append one escaped character.
fn emit_char(out: &mut String, c: char)
    ensures
        final(out)@ == old(out)@ + esc_char(c),
{
    if c == '"' {
        push_char(out, '\\');
        push_char(out, '"');
        proof {
            assert(final(out)@ =~= old(out)@ + esc_char(c));
        }
    } else if c == '\\' {
        push_char(out, '\\');
        push_char(out, '\\');
        proof {
            assert(final(out)@ =~= old(out)@ + esc_char(c));
        }
    } else if (c as u32) < 0x20 {
        let u = c as u32;
        push_char(out, '\\');
        push_char(out, 'u');
        push_char(out, '0');
        push_char(out, '0');
        push_char(out, hex_digit_exec(u / 16));
        push_char(out, hex_digit_exec(u % 16));
        proof {
            assert(final(out)@ =~= old(out)@ + esc_char(c));
        }
    } else {
        push_char(out, c);
        proof {
            assert(final(out)@ =~= old(out)@ + esc_char(c));
        }
    }
}

/// Append a quoted, escaped string.
fn emit_string(out: &mut String, s: &str)
    ensures
        final(out)@ == old(out)@ + json_string(s@),
{
    push_char(out, '"');
    let n = s.unicode_len();
    let mut i: usize = 0;
    while i < n
        invariant
            i <= n,
            n == s@.len(),
            out@ == old(out)@ + seq!['"'] + esc_str(s@.take(i as int)),
        decreases n - i,
    {
        let c = s.get_char(i);
        emit_char(out, c);
        proof {
            let t1 = s@.take(i as int);
            let t2 = s@.take(i + 1 as int);
            assert(t2.drop_last() =~= t1);
            assert(t2.last() == s@[i as int]);
            assert(old(out)@ + seq!['"'] + esc_str(t1) + esc_char(s@[i as int]) =~= old(out)@
                + seq!['"'] + esc_str(t2));
        }
        i += 1;
    }
    proof {
        assert(s@.take(n as int) =~= s@);
    }
    push_char(out, '"');
    proof {
        assert(final(out)@ =~= old(out)@ + json_string(s@));
    }
}

/// Append a category object.
fn emit_words(out: &mut String, ws: &Vec<WordPair>)
    ensures
        final(out)@ == old(out)@ + json_words(ws@),
{
    push_char(out, '{');
    let n = ws.len();
    let mut i: usize = 0;
    while i < n
        invariant
            i <= n,
            n == ws@.len(),
            out@ == old(out)@ + seq!['{'] + json_words_body(ws@.take(i as int)),
        decreases n - i,
    {
        if i > 0 {
            push_char(out, ',');
        }
        emit_string(out, ws[i].word.as_str());
        push_char(out, ':');
        emit_string(out, ws[i].answer.as_str());
        proof {
            let t1 = ws@.take(i as int);
            let t2 = ws@.take(i + 1 as int);
            assert(t2.drop_last() =~= t1);
            assert(t2.last() == ws@[i as int]);
            if i == 0 {
                assert(out@ =~= old(out)@ + seq!['{'] + json_words_body(t2));
            } else {
                assert(out@ =~= old(out)@ + seq!['{'] + json_words_body(t2));
            }
        }
        i += 1;
    }
    proof {
        assert(ws@.take(n as int) =~= ws@);
    }
    push_char(out, '}');
    proof {
        assert(final(out)@ =~= old(out)@ + json_words(ws@));
    }
}

/// Append a pool object.
fn emit_pool(out: &mut String, cs: &Vec<CategoryEntry>)
    ensures
        final(out)@ == old(out)@ + json_pool(cs@),
{
    push_char(out, '{');
    let n = cs.len();
    let mut i: usize = 0;
    while i < n
        invariant
            i <= n,
            n == cs@.len(),
            out@ == old(out)@ + seq!['{'] + json_pool_body(cs@.take(i as int)),
        decreases n - i,
    {
        if i > 0 {
            push_char(out, ',');
        }
        emit_string(out, cs[i].name.as_str());
        push_char(out, ':');
        emit_words(out, &cs[i].words);
        proof {
            let t1 = cs@.take(i as int);
            let t2 = cs@.take(i + 1 as int);
            assert(t2.drop_last() =~= t1);
            assert(t2.last() == cs@[i as int]);
            assert(out@ =~= old(out)@ + seq!['{'] + json_pool_body(t2));
        }
        i += 1;
    }
    proof {
        assert(cs@.take(n as int) =~= cs@);
    }
    push_char(out, '}');
    proof {
        assert(final(out)@ =~= old(out)@ + json_pool(cs@));
    }
}

impl Words {
    /// Write the whole store as one record; [`Words::from_json`] reads
    /// it back.
    pub fn to_json(&self) -> (r: String)
        ensures
            r@ == json_store(self.learn@, self.complete@),
    {
        let mut out = String::new();
        push_char(&mut out, '{');
        emit_string(&mut out, "learn");
        proof {
            reveal_strlit("learn");
            assert("learn"@ =~= learn_key());
        }
        push_char(&mut out, ':');
        emit_pool(&mut out, &self.learn);
        push_char(&mut out, ',');
        emit_string(&mut out, "complete");
        proof {
            reveal_strlit("complete");
            assert("complete"@ =~= complete_key());
        }
        push_char(&mut out, ':');
        emit_pool(&mut out, &self.complete);
        push_char(&mut out, '}');
        proof {
            assert(out@ =~= json_store(self.learn@, self.complete@));
        }
        out
    }
}

/// A whitespace character of the persisted format.
pub open spec fn ws_char(c: char) -> bool {
    c == ' ' || c == '\n' || c == '\t' || c == '\r'
}

/// The input with its leading whitespace removed.
pub open spec fn skip_ws(s: Seq<char>) -> Seq<char>
    decreases s.len(),
{
    if s.len() > 0 && ws_char(s[0]) {
        skip_ws(s.drop_first())
    } else {
        s
    }
}

/// The character a one-letter escape stands for.
pub open spec fn esc_code(c: char) -> Option<char> {
    if c == '"' {
        Some('"')
    } else if c == '\\' {
        Some('\\')
    } else if c == '/' {
        Some('/')
    } else if c == 'b' {
        Some('\u{0008}')
    } else if c == 'f' {
        Some('\u{000C}')
    } else if c == 'n' {
        Some('\n')
    } else if c == 'r' {
        Some('\r')
    } else if c == 't' {
        Some('\t')
    } else {
        None
    }
}

/// The value of a hexadecimal digit, or -1.
pub open spec fn hex_val(c: char) -> int {
    let u = c as u32;
    if 48 <= u <= 57 {
        u - 48
    } else if 97 <= u <= 102 {
        u - 87
    } else if 65 <= u <= 70 {
        u - 55
    } else {
        -1
    }
}

/// A code that names a Unicode scalar value (not a surrogate, not past
/// the maximum).
pub open spec fn valid_code(h: int) -> bool {
    0 <= h && !(0xD800 <= h < 0xE000) && h <= 0x10FFFF
}

/// Parse the inside of a quoted string up to and including the closing
/// quote: the decoded characters and the rest of the input.
pub open spec fn parse_string_body(s: Seq<char>) -> Option<(Seq<char>, Seq<char>)>
    decreases s.len(),
{
    if s.len() == 0 {
        None
    } else if s[0] == '"' {
        Some((Seq::empty(), s.drop_first()))
    } else if s[0] == '\\' {
        if s.len() >= 2 && s[1] == 'u' {
            if s.len() >= 6 && hex_val(s[2]) >= 0 && hex_val(s[3]) >= 0 && hex_val(s[4]) >= 0
                && hex_val(s[5]) >= 0 {
                let h = hex_val(s[2]) * 4096 + hex_val(s[3]) * 256 + hex_val(s[4]) * 16 + hex_val(
                    s[5],
                );
                if valid_code(h) {
                    match parse_string_body(s.skip(6)) {
                        Some((t, r)) => Some((seq![((h as u32) as char)] + t, r)),
                        None => None,
                    }
                } else {
                    None
                }
            } else {
                None
            }
        } else if s.len() >= 2 {
            match esc_code(s[1]) {
                Some(c) => match parse_string_body(s.skip(2)) {
                    Some((t, r)) => Some((seq![c] + t, r)),
                    None => None,
                },
                None => None,
            }
        } else {
            None
        }
    } else if (s[0] as u32) < 0x20 {
        None
    } else {
        match parse_string_body(s.drop_first()) {
            Some((t, r)) => Some((seq![s[0]] + t, r)),
            None => None,
        }
    }
}

/// Parse a quoted string after optional whitespace.
pub open spec fn parse_string(s: Seq<char>) -> Option<(Seq<char>, Seq<char>)> {
    let t = skip_ws(s);
    if t.len() > 0 && t[0] == '"' {
        parse_string_body(t.drop_first())
    } else {
        None
    }
}

/// Skipping whitespace never lengthens the input.
pub proof fn lemma_skip_ws_len(s: Seq<char>)
    ensures
        skip_ws(s).len() <= s.len(),
    decreases s.len(),
{
    if s.len() > 0 && ws_char(s[0]) {
        lemma_skip_ws_len(s.drop_first());
    }
}

/// A parsed string body consumes at least the closing quote.
pub proof fn lemma_parse_string_body_len(s: Seq<char>)
    ensures
        parse_string_body(s) matches Some(p) ==> p.1.len() < s.len(),
    decreases s.len(),
{
    if s.len() == 0 {
    } else if s[0] == '"' {
    } else if s[0] == '\\' {
        if s.len() >= 2 && s[1] == 'u' {
            if s.len() >= 6 {
                lemma_parse_string_body_len(s.skip(6));
            }
        } else if s.len() >= 2 {
            lemma_parse_string_body_len(s.skip(2));
        }
    } else {
        lemma_parse_string_body_len(s.drop_first());
    }
}

/// A parsed string consumes at least its quotes.
pub proof fn lemma_parse_string_len(s: Seq<char>)
    ensures
        parse_string(s) matches Some(p) ==> p.1.len() < s.len(),
{
    lemma_skip_ws_len(s);
    let t = skip_ws(s);
    if t.len() > 0 && t[0] == '"' {
        lemma_parse_string_body_len(t.drop_first());
    }
}

/// Parse the members of a category object from the first key onward,
/// accumulating into `acc`; ends past the closing brace.
pub open spec fn parse_words_entries(s: Seq<char>, acc: Map<Seq<char>, Seq<char>>) -> Option<
    (Map<Seq<char>, Seq<char>>, Seq<char>),
>
    decreases s.len(),
    via parse_words_entries_dec
{
    match parse_string(s) {
        Some((k, r1)) => {
            let r2 = skip_ws(r1);
            if r2.len() > 0 && r2[0] == ':' {
                match parse_string(r2.drop_first()) {
                    Some((val, r4)) => {
                        let r5 = skip_ws(r4);
                        if r5.len() > 0 && r5[0] == ',' {
                            parse_words_entries(r5.drop_first(), acc.insert(k, val))
                        } else if r5.len() > 0 && r5[0] == '}' {
                            Some((acc.insert(k, val), r5.drop_first()))
                        } else {
                            None
                        }
                    },
                    None => None,
                }
            } else {
                None
            }
        },
        None => None,
    }
}

#[via_fn]
proof fn parse_words_entries_dec(s: Seq<char>, acc: Map<Seq<char>, Seq<char>>) {
    lemma_parse_string_len(s);
    match parse_string(s) {
        Some((k, r1)) => {
            lemma_skip_ws_len(r1);
            let r2 = skip_ws(r1);
            if r2.len() > 0 && r2[0] == ':' {
                lemma_parse_string_len(r2.drop_first());
                match parse_string(r2.drop_first()) {
                    Some((val, r4)) => {
                        lemma_skip_ws_len(r4);
                    },
                    None => {},
                }
            }
        },
        None => {},
    }
}

/// Parse a category object: a brace-delimited mapping from word to
/// answer; a later member with an equal key wins.
pub open spec fn parse_words_obj(s: Seq<char>) -> Option<(Map<Seq<char>, Seq<char>>, Seq<char>)> {
    let t = skip_ws(s);
    if t.len() > 0 && t[0] == '{' {
        let u = skip_ws(t.drop_first());
        if u.len() > 0 && u[0] == '}' {
            Some((Map::empty(), u.drop_first()))
        } else {
            parse_words_entries(t.drop_first(), Map::empty())
        }
    } else {
        None
    }
}

/// Parsed category members consume at least the closing brace.
pub proof fn lemma_parse_words_entries_len(s: Seq<char>, acc: Map<Seq<char>, Seq<char>>)
    ensures
        parse_words_entries(s, acc) matches Some(p) ==> p.1.len() < s.len(),
    decreases s.len(),
{
    lemma_parse_string_len(s);
    match parse_string(s) {
        Some((k, r1)) => {
            lemma_skip_ws_len(r1);
            let r2 = skip_ws(r1);
            if r2.len() > 0 && r2[0] == ':' {
                lemma_parse_string_len(r2.drop_first());
                match parse_string(r2.drop_first()) {
                    Some((val, r4)) => {
                        lemma_skip_ws_len(r4);
                        let r5 = skip_ws(r4);
                        if r5.len() > 0 && r5[0] == ',' {
                            lemma_parse_words_entries_len(r5.drop_first(), acc.insert(k, val));
                        }
                    },
                    None => {},
                }
            }
        },
        None => {},
    }
}

/// A parsed category object consumes at least its braces.
pub proof fn lemma_parse_words_obj_len(s: Seq<char>)
    ensures
        parse_words_obj(s) matches Some(p) ==> p.1.len() < s.len(),
{
    lemma_skip_ws_len(s);
    let t = skip_ws(s);
    if t.len() > 0 && t[0] == '{' {
        lemma_skip_ws_len(t.drop_first());
        lemma_parse_words_entries_len(t.drop_first(), Map::empty());
    }
}

/// Parse the members of a pool object from the first key onward,
/// accumulating into `acc`; ends past the closing brace.
pub open spec fn parse_pool_entries(
    s: Seq<char>,
    acc: Map<Seq<char>, Map<Seq<char>, Seq<char>>>,
) -> Option<(Map<Seq<char>, Map<Seq<char>, Seq<char>>>, Seq<char>)>
    decreases s.len(),
    via parse_pool_entries_dec
{
    match parse_string(s) {
        Some((k, r1)) => {
            let r2 = skip_ws(r1);
            if r2.len() > 0 && r2[0] == ':' {
                match parse_words_obj(r2.drop_first()) {
                    Some((m, r4)) => {
                        let r5 = skip_ws(r4);
                        if r5.len() > 0 && r5[0] == ',' {
                            parse_pool_entries(r5.drop_first(), acc.insert(k, m))
                        } else if r5.len() > 0 && r5[0] == '}' {
                            Some((acc.insert(k, m), r5.drop_first()))
                        } else {
                            None
                        }
                    },
                    None => None,
                }
            } else {
                None
            }
        },
        None => None,
    }
}

#[via_fn]
proof fn parse_pool_entries_dec(s: Seq<char>, acc: Map<Seq<char>, Map<Seq<char>, Seq<char>>>) {
    lemma_parse_string_len(s);
    match parse_string(s) {
        Some((k, r1)) => {
            lemma_skip_ws_len(r1);
            let r2 = skip_ws(r1);
            if r2.len() > 0 && r2[0] == ':' {
                lemma_parse_words_obj_len(r2.drop_first());
                match parse_words_obj(r2.drop_first()) {
                    Some((m, r4)) => {
                        lemma_skip_ws_len(r4);
                    },
                    None => {},
                }
            }
        },
        None => {},
    }
}

/// Parse a pool object: a brace-delimited mapping from category name to
/// category object.
pub open spec fn parse_pool_obj(s: Seq<char>) -> Option<
    (Map<Seq<char>, Map<Seq<char>, Seq<char>>>, Seq<char>),
> {
    let t = skip_ws(s);
    if t.len() > 0 && t[0] == '{' {
        let u = skip_ws(t.drop_first());
        if u.len() > 0 && u[0] == '}' {
            Some((Map::empty(), u.drop_first()))
        } else {
            parse_pool_entries(t.drop_first(), Map::empty())
        }
    } else {
        None
    }
}

/// Parse the whole persisted record: the two pools, under their two
/// field names in either order, with nothing but whitespace after.
pub open spec fn parse_store(s: Seq<char>) -> Option<
    (Map<Seq<char>, Map<Seq<char>, Seq<char>>>, Map<Seq<char>, Map<Seq<char>, Seq<char>>>),
> {
    let t = skip_ws(s);
    if t.len() > 0 && t[0] == '{' {
        match parse_string(t.drop_first()) {
            Some((k1, r1)) => {
                let r2 = skip_ws(r1);
                if r2.len() > 0 && r2[0] == ':' {
                    match parse_pool_obj(r2.drop_first()) {
                        Some((m1, r3)) => {
                            let r4 = skip_ws(r3);
                            if r4.len() > 0 && r4[0] == ',' {
                                match parse_string(r4.drop_first()) {
                                    Some((k2, r5)) => {
                                        let r6 = skip_ws(r5);
                                        if r6.len() > 0 && r6[0] == ':' {
                                            match parse_pool_obj(r6.drop_first()) {
                                                Some((m2, r7)) => {
                                                    let r8 = skip_ws(r7);
                                                    if r8.len() > 0 && r8[0] == '}' && skip_ws(
                                                        r8.drop_first(),
                                                    ).len() == 0 {
                                                        if k1 == learn_key() && k2
                                                            == complete_key() {
                                                            Some((m1, m2))
                                                        } else if k1 == complete_key() && k2
                                                            == learn_key() {
                                                            Some((m2, m1))
                                                        } else {
                                                            None
                                                        }
                                                    } else {
                                                        None
                                                    }
                                                },
                                                None => None,
                                            }
                                        } else {
                                            None
                                        }
                                    },
                                    None => None,
                                }
                            } else {
                                None
                            }
                        },
                        None => None,
                    }
                } else {
                    None
                }
            },
            None => None,
        }
    } else {
        None
    }
}

/// The characters of a string slice, one by one.
fn to_chars(s: &str) -> (r: Vec<char>)
    ensures
        r@ == s@,
{
    let n = s.unicode_len();
    let mut r: Vec<char> = Vec::new();
    let mut i: usize = 0;
    while i < n
        invariant
            i <= n,
            n == s@.len(),
            r@ == s@.take(i as int),
        decreases n - i,
    {
        let c = s.get_char(i);
        r.push(c);
        proof {
            assert(r@ =~= s@.take(i + 1 as int));
        }
        i += 1;
    }
    proof {
        assert(s@.take(n as int) =~= s@);
    }
    r
}

/// Advance past whitespace.
fn skip_ws_exec(v: &Vec<char>, i: usize) -> (j: usize)
    requires
        i <= v.len(),
    ensures
        i <= j <= v.len(),
        skip_ws(v@.skip(i as int)) == v@.skip(j as int),
{
    let mut j = i;
    while j < v.len() && (v[j] == ' ' || v[j] == '\n' || v[j] == '\t' || v[j] == '\r')
        invariant
            i <= j <= v.len(),
            skip_ws(v@.skip(i as int)) == skip_ws(v@.skip(j as int)),
        decreases v.len() - j,
    {
        proof {
            assert(v@.skip(j as int).len() > 0);
            assert(v@.skip(j as int)[0] == v@[j as int]);
            assert(v@.skip(j as int).drop_first() =~= v@.skip(j + 1 as int));
        }
        j += 1;
    }
    proof {
        if j < v.len() {
            assert(v@.skip(j as int)[0] == v@[j as int]);
        }
        assert(skip_ws(v@.skip(j as int)) == v@.skip(j as int));
    }
    j
}

/// The value of a hexadecimal digit.
fn hex_val_exec(c: char) -> (r: Option<u32>)
    ensures
        match r {
            Some(h) => h < 16 && hex_val(c) == h as int,
            None => hex_val(c) == -1,
        },
{
    let u = c as u32;
    if u >= 48 && u <= 57 {
        Some(u - 48)
    } else if u >= 97 && u <= 102 {
        Some(u - 87)
    } else if u >= 65 && u <= 70 {
        Some(u - 55)
    } else {
        None
    }
}

/// The character a one-letter escape stands for.
fn esc_code_exec(c: char) -> (r: Option<char>)
    ensures
        r == esc_code(c),
{
    if c == '"' {
        Some('"')
    } else if c == '\\' {
        Some('\\')
    } else if c == '/' {
        Some('/')
    } else if c == 'b' {
        Some('\u{0008}')
    } else if c == 'f' {
        Some('\u{000C}')
    } else if c == 'n' {
        Some('\n')
    } else if c == 'r' {
        Some('\r')
    } else if c == 't' {
        Some('\t')
    } else {
        None
    }
}

/// Decode a quoted string's body starting at `i` (just past the opening
/// quote); on success the index is just past the closing quote.
fn parse_string_body_exec(v: &Vec<char>, i: usize) -> (r: Option<(String, usize)>)
    requires
        i <= v.len(),
    ensures
        match r {
            Some(p) => p.1 <= v.len() && parse_string_body(v@.skip(i as int)) == Some(
                (p.0@, v@.skip(p.1 as int)),
            ),
            None => parse_string_body(v@.skip(i as int)) is None,
        },
{
    let mut out = String::new();
    let mut cur = i;
    loop
        invariant
            i <= cur <= v.len(),
            parse_string_body(v@.skip(i as int)) == (match parse_string_body(
                v@.skip(cur as int),
            ) {
                Some((t, rest)) => Some((out@ + t, rest)),
                None => None::<(Seq<char>, Seq<char>)>,
            }),
        decreases v.len() - cur,
    {
        if cur >= v.len() {
            proof {
                assert(v@.skip(cur as int).len() == 0);
            }
            return None;
        }
        let c = v[cur];
        proof {
            assert(v@.skip(cur as int).len() == v@.len() - cur);
            assert(v@.skip(cur as int)[0] == v@[cur as int]);
        }
        if c == '"' {
            proof {
                assert(v@.skip(cur as int).drop_first() =~= v@.skip(cur + 1 as int));
                assert(out@ + Seq::<char>::empty() =~= out@);
            }
            return Some((out, cur + 1));
        } else if c == '\\' {
            if cur + 1 >= v.len() {
                return None;
            }
            let e = v[cur + 1];
            proof {
                assert(v@.skip(cur as int)[1] == v@[cur + 1 as int]);
            }
            if e == 'u' {
                if v.len() - cur < 6 {
                    return None;
                }
                proof {
                    assert(v@.skip(cur as int)[2] == v@[cur + 2 as int]);
                    assert(v@.skip(cur as int)[3] == v@[cur + 3 as int]);
                    assert(v@.skip(cur as int)[4] == v@[cur + 4 as int]);
                    assert(v@.skip(cur as int)[5] == v@[cur + 5 as int]);
                }
                let h1 = match hex_val_exec(v[cur + 2]) {
                    Some(h) => h,
                    None => {
                        return None;
                    },
                };
                let h2 = match hex_val_exec(v[cur + 3]) {
                    Some(h) => h,
                    None => {
                        return None;
                    },
                };
                let h3 = match hex_val_exec(v[cur + 4]) {
                    Some(h) => h,
                    None => {
                        return None;
                    },
                };
                let h4 = match hex_val_exec(v[cur + 5]) {
                    Some(h) => h,
                    None => {
                        return None;
                    },
                };
                let h = h1 * 4096 + h2 * 256 + h3 * 16 + h4;
                let c2 = match char_from_u32(h) {
                    Some(c2) => c2,
                    None => {
                        return None;
                    },
                };
                let ghost out0 = out@;
                push_char(&mut out, c2);
                proof {
                    vstd::utf8::char_u32_cast(c2, h);
                    assert(v@.skip(cur as int).skip(6) =~= v@.skip(cur + 6 as int));
                    match parse_string_body(v@.skip(cur + 6 as int)) {
                        Some((t, rest)) => {
                            assert(out0 + (seq![c2] + t) =~= (out0 + seq![c2]) + t);
                            assert(out@ =~= out0 + seq![c2]);
                        },
                        None => {},
                    }
                }
                cur = cur + 6;
            } else {
                let c2 = match esc_code_exec(e) {
                    Some(c2) => c2,
                    None => {
                        return None;
                    },
                };
                let ghost out0 = out@;
                push_char(&mut out, c2);
                proof {
                    assert(v@.skip(cur as int).skip(2) =~= v@.skip(cur + 2 as int));
                    match parse_string_body(v@.skip(cur + 2 as int)) {
                        Some((t, rest)) => {
                            assert(out0 + (seq![c2] + t) =~= (out0 + seq![c2]) + t);
                            assert(out@ =~= out0 + seq![c2]);
                        },
                        None => {},
                    }
                }
                cur = cur + 2;
            }
        } else if (c as u32) < 0x20 {
            return None;
        } else {
            let ghost out0 = out@;
            push_char(&mut out, c);
            proof {
                assert(v@.skip(cur as int).drop_first() =~= v@.skip(cur + 1 as int));
                match parse_string_body(v@.skip(cur + 1 as int)) {
                    Some((t, rest)) => {
                        assert(out0 + (seq![c] + t) =~= (out0 + seq![c]) + t);
                        assert(out@ =~= out0 + seq![c]);
                    },
                    None => {},
                }
            }
            cur = cur + 1;
        }
    }
}

/// Parse a quoted string after optional whitespace.
fn parse_string_exec(v: &Vec<char>, i: usize) -> (r: Option<(String, usize)>)
    requires
        i <= v.len(),
    ensures
        match r {
            Some(p) => p.1 <= v.len() && parse_string(v@.skip(i as int)) == Some(
                (p.0@, v@.skip(p.1 as int)),
            ),
            None => parse_string(v@.skip(i as int)) is None,
        },
{
    let j = skip_ws_exec(v, i);
    if j < v.len() {
        proof {
            assert(v@.skip(j as int)[0] == v@[j as int]);
            assert(v@.skip(j as int).len() > 0);
        }
        let c = v[j];
        if c == '"' {
            proof {
                assert(v@.skip(j as int).drop_first() =~= v@.skip(j + 1 as int));
            }
            parse_string_body_exec(v, j + 1)
        } else {
            None
        }
    } else {
        proof {
            assert(v@.skip(j as int).len() == 0);
        }
        None
    }
}

/// Parse a category object into a well-formed vector of pairs.
fn parse_words_exec(v: &Vec<char>, i: usize) -> (r: Option<(Vec<WordPair>, usize)>)
    requires
        i <= v.len(),
    ensures
        match r {
            Some(p) => p.1 <= v.len() && words_wf(p.0@) && parse_words_obj(v@.skip(i as int))
                == Some((words_map(p.0@), v@.skip(p.1 as int))),
            None => parse_words_obj(v@.skip(i as int)) is None,
        },
{
    let t = skip_ws_exec(v, i);
    if t >= v.len() {
        proof {
            assert(v@.skip(t as int).len() == 0);
        }
        return None;
    }
    proof {
        assert(v@.skip(t as int)[0] == v@[t as int]);
        assert(v@.skip(t as int).len() > 0);
    }
    if v[t] != '{' {
        return None;
    }
    proof {
        assert(v@.skip(t as int).drop_first() =~= v@.skip(t + 1 as int));
    }
    let u = skip_ws_exec(v, t + 1);
    proof {
        if u < v.len() {
            assert(v@.skip(u as int)[0] == v@[u as int]);
        } else {
            assert(v@.skip(u as int).len() == 0);
        }
    }
    if u < v.len() && v[u] == '}' {
        let empty: Vec<WordPair> = Vec::new();
        proof {
            assert(v@.skip(u as int).drop_first() =~= v@.skip(u + 1 as int));
            assert(words_map(empty@) =~= Map::<Seq<char>, Seq<char>>::empty());
        }
        return Some((empty, u + 1));
    }
    let mut acc: Vec<WordPair> = Vec::new();
    let mut cur = t + 1;
    proof {
        assert(words_map(acc@) =~= Map::<Seq<char>, Seq<char>>::empty());
    }
    loop
        invariant
            cur <= v.len(),
            words_wf(acc@),
            parse_words_obj(v@.skip(i as int)) == parse_words_entries(
                v@.skip(cur as int),
                words_map(acc@),
            ),
        decreases v.len() - cur,
    {
        let ghost acc0 = words_map(acc@);
        let (k, c2) = match parse_string_exec(v, cur) {
            Some(p) => p,
            None => {
                return None;
            },
        };
        proof {
            lemma_parse_string_len(v@.skip(cur as int));
            assert(v@.skip(c2 as int).len() == v@.len() - c2);
        }
        let c3 = skip_ws_exec(v, c2);
        if c3 >= v.len() {
            proof {
                assert(v@.skip(c3 as int).len() == 0);
            }
            return None;
        }
        proof {
            assert(v@.skip(c3 as int)[0] == v@[c3 as int]);
        }
        if v[c3] != ':' {
            return None;
        }
        proof {
            assert(v@.skip(c3 as int).drop_first() =~= v@.skip(c3 + 1 as int));
        }
        let (val, c4) = match parse_string_exec(v, c3 + 1) {
            Some(p) => p,
            None => {
                return None;
            },
        };
        proof {
            lemma_parse_string_len(v@.skip(c3 + 1 as int));
            assert(v@.skip(c4 as int).len() == v@.len() - c4);
        }
        let ghost kk = k@;
        let ghost vv = val@;
        words_insert(&mut acc, k, val);
        let c5 = skip_ws_exec(v, c4);
        proof {
            if c5 < v.len() {
                assert(v@.skip(c5 as int)[0] == v@[c5 as int]);
            } else {
                assert(v@.skip(c5 as int).len() == 0);
            }
        }
        if c5 < v.len() && v[c5] == ',' {
            proof {
                assert(v@.skip(c5 as int).drop_first() =~= v@.skip(c5 + 1 as int));
            }
            cur = c5 + 1;
        } else if c5 < v.len() && v[c5] == '}' {
            proof {
                assert(v@.skip(c5 as int).drop_first() =~= v@.skip(c5 + 1 as int));
            }
            return Some((acc, c5 + 1));
        } else {
            return None;
        }
    }
}

/// Parse a pool object into a well-formed vector of categories.
fn parse_pool_exec(v: &Vec<char>, i: usize) -> (r: Option<(Vec<CategoryEntry>, usize)>)
    requires
        i <= v.len(),
    ensures
        match r {
            Some(p) => p.1 <= v.len() && pool_wf(p.0@) && parse_pool_obj(v@.skip(i as int)) == Some(
                (pool_map(p.0@), v@.skip(p.1 as int)),
            ),
            None => parse_pool_obj(v@.skip(i as int)) is None,
        },
{
    let t = skip_ws_exec(v, i);
    if t >= v.len() {
        proof {
            assert(v@.skip(t as int).len() == 0);
        }
        return None;
    }
    proof {
        assert(v@.skip(t as int)[0] == v@[t as int]);
        assert(v@.skip(t as int).len() > 0);
    }
    if v[t] != '{' {
        return None;
    }
    proof {
        assert(v@.skip(t as int).drop_first() =~= v@.skip(t + 1 as int));
    }
    let u = skip_ws_exec(v, t + 1);
    proof {
        if u < v.len() {
            assert(v@.skip(u as int)[0] == v@[u as int]);
        } else {
            assert(v@.skip(u as int).len() == 0);
        }
    }
    if u < v.len() && v[u] == '}' {
        let empty: Vec<CategoryEntry> = Vec::new();
        proof {
            assert(v@.skip(u as int).drop_first() =~= v@.skip(u + 1 as int));
            assert(pool_map(empty@) =~= Map::<Seq<char>, Map<Seq<char>, Seq<char>>>::empty());
        }
        return Some((empty, u + 1));
    }
    let mut acc: Vec<CategoryEntry> = Vec::new();
    let mut cur = t + 1;
    proof {
        assert(pool_map(acc@) =~= Map::<Seq<char>, Map<Seq<char>, Seq<char>>>::empty());
    }
    loop
        invariant
            cur <= v.len(),
            pool_wf(acc@),
            parse_pool_obj(v@.skip(i as int)) == parse_pool_entries(
                v@.skip(cur as int),
                pool_map(acc@),
            ),
        decreases v.len() - cur,
    {
        let ghost acc0 = pool_map(acc@);
        let (k, c2) = match parse_string_exec(v, cur) {
            Some(p) => p,
            None => {
                return None;
            },
        };
        proof {
            lemma_parse_string_len(v@.skip(cur as int));
            assert(v@.skip(c2 as int).len() == v@.len() - c2);
        }
        let c3 = skip_ws_exec(v, c2);
        if c3 >= v.len() {
            proof {
                assert(v@.skip(c3 as int).len() == 0);
            }
            return None;
        }
        proof {
            assert(v@.skip(c3 as int)[0] == v@[c3 as int]);
        }
        if v[c3] != ':' {
            return None;
        }
        proof {
            assert(v@.skip(c3 as int).drop_first() =~= v@.skip(c3 + 1 as int));
        }
        let (ws, c4) = match parse_words_exec(v, c3 + 1) {
            Some(p) => p,
            None => {
                return None;
            },
        };
        proof {
            lemma_parse_words_obj_len(v@.skip(c3 + 1 as int));
            assert(v@.skip(c4 as int).len() == v@.len() - c4);
        }
        let ghost kk = k@;
        let ghost mm = words_map(ws@);
        pool_insert(&mut acc, k, ws);
        let c5 = skip_ws_exec(v, c4);
        proof {
            if c5 < v.len() {
                assert(v@.skip(c5 as int)[0] == v@[c5 as int]);
            } else {
                assert(v@.skip(c5 as int).len() == 0);
            }
        }
        if c5 < v.len() && v[c5] == ',' {
            proof {
                assert(v@.skip(c5 as int).drop_first() =~= v@.skip(c5 + 1 as int));
            }
            cur = c5 + 1;
        } else if c5 < v.len() && v[c5] == '}' {
            proof {
                assert(v@.skip(c5 as int).drop_first() =~= v@.skip(c5 + 1 as int));
            }
            return Some((acc, c5 + 1));
        } else {
            return None;
        }
    }
}

impl Words {
    /// Read a store back from the persisted text, as
    /// [`Words::to_json`] writes it (whitespace between tokens and the
    /// usual string escapes are accepted; the two fields may come in
    /// either order). `None` exactly where the text does not parse.
    #[verifier::rlimit(100)]
    pub fn from_json(s: &str) -> (r: Option<Words>)
        ensures
            match parse_store(s@) {
                Some(p) => r matches Some(w) && w.wf() && w.learn_map() == p.0 && w.complete_map()
                    == p.1,
                None => r is None,
            },
    {
        let v = to_chars(s);
        proof {
            assert(v@.skip(0) =~= s@);
        }
        let t = skip_ws_exec(&v, 0);
        if t >= v.len() {
            proof {
                assert(v@.skip(t as int).len() == 0);
            }
            return None;
        }
        proof {
            assert(v@.skip(t as int)[0] == v@[t as int]);
            assert(v@.skip(t as int).len() > 0);
        }
        if v[t] != '{' {
            return None;
        }
        proof {
            assert(v@.skip(t as int).drop_first() =~= v@.skip(t + 1 as int));
        }
        let (k1, c1) = match parse_string_exec(&v, t + 1) {
            Some(p) => p,
            None => {
                return None;
            },
        };
        let c2 = skip_ws_exec(&v, c1);
        if c2 >= v.len() {
            proof {
                assert(v@.skip(c2 as int).len() == 0);
            }
            return None;
        }
        proof {
            assert(v@.skip(c2 as int)[0] == v@[c2 as int]);
        }
        if v[c2] != ':' {
            return None;
        }
        proof {
            assert(v@.skip(c2 as int).drop_first() =~= v@.skip(c2 + 1 as int));
        }
        let (p1, c3) = match parse_pool_exec(&v, c2 + 1) {
            Some(p) => p,
            None => {
                return None;
            },
        };
        let c4 = skip_ws_exec(&v, c3);
        if c4 >= v.len() {
            proof {
                assert(v@.skip(c4 as int).len() == 0);
            }
            return None;
        }
        proof {
            assert(v@.skip(c4 as int)[0] == v@[c4 as int]);
        }
        if v[c4] != ',' {
            return None;
        }
        proof {
            assert(v@.skip(c4 as int).drop_first() =~= v@.skip(c4 + 1 as int));
        }
        let (k2, c5) = match parse_string_exec(&v, c4 + 1) {
            Some(p) => p,
            None => {
                return None;
            },
        };
        let c6 = skip_ws_exec(&v, c5);
        if c6 >= v.len() {
            proof {
                assert(v@.skip(c6 as int).len() == 0);
            }
            return None;
        }
        proof {
            assert(v@.skip(c6 as int)[0] == v@[c6 as int]);
        }
        if v[c6] != ':' {
            return None;
        }
        proof {
            assert(v@.skip(c6 as int).drop_first() =~= v@.skip(c6 + 1 as int));
        }
        let (p2, c7) = match parse_pool_exec(&v, c6 + 1) {
            Some(p) => p,
            None => {
                return None;
            },
        };
        let c8 = skip_ws_exec(&v, c7);
        if c8 >= v.len() {
            proof {
                assert(v@.skip(c8 as int).len() == 0);
            }
            return None;
        }
        proof {
            assert(v@.skip(c8 as int)[0] == v@[c8 as int]);
        }
        if v[c8] != '}' {
            return None;
        }
        proof {
            assert(v@.skip(c8 as int).drop_first() =~= v@.skip(c8 + 1 as int));
        }
        let c9 = skip_ws_exec(&v, c8 + 1);
        if c9 < v.len() {
            proof {
                assert(v@.skip(c9 as int).len() > 0);
            }
            return None;
        }
        proof {
            assert(v@.skip(c9 as int).len() == 0);
            reveal_strlit("learn");
            reveal_strlit("complete");
            assert("learn"@ =~= learn_key());
            assert("complete"@ =~= complete_key());
        }
        let k1_learn = str_eq(k1.as_str(), "learn");
        let k1_complete = str_eq(k1.as_str(), "complete");
        let k2_learn = str_eq(k2.as_str(), "learn");
        let k2_complete = str_eq(k2.as_str(), "complete");
        if k1_learn && k2_complete {
            Some(Words { learn: p1, complete: p2 })
        } else if k1_complete && k2_learn {
            Some(Words { learn: p2, complete: p1 })
        } else {
            None
        }
    }
}

/// The hexadecimal digit of a value below 16 reads back as that value.
proof fn lemma_hex_digit_val(n: int)
    requires
        0 <= n < 16,
    ensures
        hex_val(hex_digit(n)) == n,
{
}

/// Escaping decomposes at the front.
proof fn lemma_esc_str_first(s: Seq<char>)
    requires
        s.len() > 0,
    ensures
        esc_str(s) == esc_char(s[0]) + esc_str(s.drop_first()),
    decreases s.len(),
{
    if s.len() == 1 {
        assert(s.drop_last() =~= Seq::<char>::empty());
        assert(s.drop_first() =~= Seq::<char>::empty());
        assert(esc_char(s[0]) + esc_str(s.drop_first()) =~= esc_char(s.last()));
    } else {
        let pre = s.drop_last();
        lemma_esc_str_first(pre);
        assert(pre[0] == s[0]);
        assert(pre.drop_first() =~= s.drop_first().drop_last());
        assert(s.drop_first().last() == s.last());
        assert(esc_str(s.drop_first()) == esc_str(pre.drop_first()) + esc_char(s.last()));
        assert((esc_char(s[0]) + esc_str(pre.drop_first())) + esc_char(s.last()) =~= esc_char(s[0])
            + (esc_str(pre.drop_first()) + esc_char(s.last())));
    }
}

/// Parsing an escaped string body undoes the escaping exactly.
proof fn lemma_parse_body_esc(s: Seq<char>, tail: Seq<char>)
    ensures
        parse_string_body(esc_str(s) + seq!['"'] + tail) == Some((s, tail)),
    decreases s.len(),
{
    let input = esc_str(s) + seq!['"'] + tail;
    if s.len() == 0 {
        assert(esc_str(s) =~= Seq::<char>::empty());
        assert(input =~= seq!['"'] + tail);
        assert(input[0] == '"');
        assert(input.drop_first() =~= tail);
        assert(Seq::<char>::empty() =~= s);
    } else {
        lemma_esc_str_first(s);
        lemma_parse_body_esc(s.drop_first(), tail);
        let c = s[0];
        let rest_input = esc_str(s.drop_first()) + seq!['"'] + tail;
        assert(input =~= esc_char(c) + rest_input);
        assert(seq![c] + s.drop_first() =~= s);
        if c == '"' {
            assert(input[0] == '\\' && input[1] == '"');
            assert(input.len() >= 2);
            assert(esc_code(input[1]) == Some('"'));
            assert(input.skip(2) =~= rest_input);
        } else if c == '\\' {
            assert(input[0] == '\\' && input[1] == '\\');
            assert(esc_code(input[1]) == Some('\\'));
            assert(input.skip(2) =~= rest_input);
        } else if (c as u32) < 0x20 {
            let u = (c as u32) as int;
            assert(input[0] == '\\' && input[1] == 'u');
            assert(input[2] == '0' && input[3] == '0');
            assert(input[4] == hex_digit(u / 16) && input[5] == hex_digit(u % 16));
            lemma_hex_digit_val(u / 16);
            lemma_hex_digit_val(u % 16);
            assert(hex_val(input[2]) == 0 && hex_val(input[3]) == 0);
            assert(hex_val(input[2]) * 4096 + hex_val(input[3]) * 256 + hex_val(input[4]) * 16
                + hex_val(input[5]) == u);
            assert(valid_code(u));
            assert(input.skip(6) =~= rest_input);
            vstd::utf8::char_u32_cast(c, c as u32);
            assert(((u as u32) as char) == c);
        } else {
            assert(input[0] == c);
            assert(input.drop_first() =~= rest_input);
        }
    }
}

/// Parsing a quoted string undoes the quoting exactly.
proof fn lemma_parse_json_string(s: Seq<char>, tail: Seq<char>)
    ensures
        parse_string(json_string(s) + tail) == Some((s, tail)),
{
    let input = json_string(s) + tail;
    assert(input[0] == '"');
    assert(!ws_char('"'));
    assert(skip_ws(input) == input);
    assert(input.drop_first() =~= esc_str(s) + seq!['"'] + tail);
    lemma_parse_body_esc(s, tail);
}

/// The mapping of a pair sequence decomposes at the front.
proof fn lemma_words_map_first(ws: Seq<WordPair>)
    requires
        ws.len() > 0,
    ensures
        words_map(ws) == Map::<Seq<char>, Seq<char>>::empty().insert(
            ws[0].word@,
            ws[0].answer@,
        ).union_prefer_right(words_map(ws.drop_first())),
    decreases ws.len(),
{
    let single = Map::<Seq<char>, Seq<char>>::empty().insert(ws[0].word@, ws[0].answer@);
    if ws.len() == 1 {
        assert(ws.drop_last() =~= Seq::<WordPair>::empty());
        assert(ws.drop_first() =~= Seq::<WordPair>::empty());
        assert(ws.last() == ws[0]);
        assert(single.union_prefer_right(words_map(ws.drop_first())) =~= words_map(ws));
    } else {
        let pre = ws.drop_last();
        lemma_words_map_first(pre);
        assert(pre[0] == ws[0]);
        assert(pre.drop_first() =~= ws.drop_first().drop_last());
        assert(ws.drop_first().last() == ws.last());
        assert(words_map(ws.drop_first()) == words_map(pre.drop_first()).insert(
            ws.last().word@,
            ws.last().answer@,
        ));
        assert(single.union_prefer_right(words_map(pre.drop_first())).insert(
            ws.last().word@,
            ws.last().answer@,
        ) =~= single.union_prefer_right(
            words_map(pre.drop_first()).insert(ws.last().word@, ws.last().answer@),
        ));
    }
}

/// The mapping of an entry sequence decomposes at the front.
proof fn lemma_pool_map_first(cs: Seq<CategoryEntry>)
    requires
        cs.len() > 0,
    ensures
        pool_map(cs) == Map::<Seq<char>, Map<Seq<char>, Seq<char>>>::empty().insert(
            cs[0].name@,
            words_map(cs[0].words@),
        ).union_prefer_right(pool_map(cs.drop_first())),
    decreases cs.len(),
{
    let single = Map::<Seq<char>, Map<Seq<char>, Seq<char>>>::empty().insert(
        cs[0].name@,
        words_map(cs[0].words@),
    );
    if cs.len() == 1 {
        assert(cs.drop_last() =~= Seq::<CategoryEntry>::empty());
        assert(cs.drop_first() =~= Seq::<CategoryEntry>::empty());
        assert(cs.last() == cs[0]);
        assert(single.union_prefer_right(pool_map(cs.drop_first())) =~= pool_map(cs));
    } else {
        let pre = cs.drop_last();
        lemma_pool_map_first(pre);
        assert(pre[0] == cs[0]);
        assert(pre.drop_first() =~= cs.drop_first().drop_last());
        assert(cs.drop_first().last() == cs.last());
        assert(pool_map(cs.drop_first()) == pool_map(pre.drop_first()).insert(
            cs.last().name@,
            words_map(cs.last().words@),
        ));
        assert(single.union_prefer_right(pool_map(pre.drop_first())).insert(
            cs.last().name@,
            words_map(cs.last().words@),
        ) =~= single.union_prefer_right(
            pool_map(pre.drop_first()).insert(cs.last().name@, words_map(cs.last().words@)),
        ));
    }
}

/// A category body decomposes at the front.
proof fn lemma_json_words_body_first(ws: Seq<WordPair>)
    requires
        ws.len() > 0,
    ensures
        ws.len() == 1 ==> json_words_body(ws) == json_word_member(ws[0]),
        ws.len() > 1 ==> json_words_body(ws) == json_word_member(ws[0]) + seq![',']
            + json_words_body(ws.drop_first()),
    decreases ws.len(),
{
    if ws.len() == 1 {
    } else {
        let pre = ws.drop_last();
        lemma_json_words_body_first(pre);
        assert(pre[0] == ws[0]);
        if pre.len() == 1 {
            assert(ws.drop_first() =~= seq![ws.last()]);
            assert(json_words_body(ws.drop_first()) == json_word_member(ws.last()));
            assert((json_word_member(ws[0])) + seq![','] + json_word_member(ws.last())
                =~= json_words_body(ws));
        } else {
            assert(pre.drop_first() =~= ws.drop_first().drop_last());
            assert(ws.drop_first().last() == ws.last());
            assert(ws.drop_first().len() > 1);
            assert(json_words_body(ws.drop_first()) == json_words_body(pre.drop_first())
                + seq![','] + json_word_member(ws.last()));
            assert((json_word_member(ws[0]) + seq![','] + json_words_body(pre.drop_first()))
                + seq![','] + json_word_member(ws.last()) =~= json_word_member(ws[0]) + seq![',']
                + (json_words_body(pre.drop_first()) + seq![','] + json_word_member(ws.last())));
        }
    }
}

/// A pool body decomposes at the front.
proof fn lemma_json_pool_body_first(cs: Seq<CategoryEntry>)
    requires
        cs.len() > 0,
    ensures
        cs.len() == 1 ==> json_pool_body(cs) == json_pool_member(cs[0]),
        cs.len() > 1 ==> json_pool_body(cs) == json_pool_member(cs[0]) + seq![',']
            + json_pool_body(cs.drop_first()),
    decreases cs.len(),
{
    if cs.len() == 1 {
    } else {
        let pre = cs.drop_last();
        lemma_json_pool_body_first(pre);
        assert(pre[0] == cs[0]);
        if pre.len() == 1 {
            assert(cs.drop_first() =~= seq![cs.last()]);
            assert(json_pool_body(cs.drop_first()) == json_pool_member(cs.last()));
            assert((json_pool_member(cs[0])) + seq![','] + json_pool_member(cs.last())
                =~= json_pool_body(cs));
        } else {
            assert(pre.drop_first() =~= cs.drop_first().drop_last());
            assert(cs.drop_first().last() == cs.last());
            assert(cs.drop_first().len() > 1);
            assert(json_pool_body(cs.drop_first()) == json_pool_body(pre.drop_first()) + seq![',']
                + json_pool_member(cs.last()));
            assert((json_pool_member(cs[0]) + seq![','] + json_pool_body(pre.drop_first()))
                + seq![','] + json_pool_member(cs.last()) =~= json_pool_member(cs[0]) + seq![',']
                + (json_pool_body(pre.drop_first()) + seq![','] + json_pool_member(cs.last())));
        }
    }
}

/// Parsing emitted category members folds them into the accumulator.
#[verifier::rlimit(100)]
proof fn lemma_parse_words_entries_emit(
    ws: Seq<WordPair>,
    tail: Seq<char>,
    acc: Map<Seq<char>, Seq<char>>,
)
    requires
        ws.len() > 0,
    ensures
        parse_words_entries(json_words_body(ws) + seq!['}'] + tail, acc) == Some(
            (acc.union_prefer_right(words_map(ws)), tail),
        ),
    decreases ws.len(),
{
    let input = json_words_body(ws) + seq!['}'] + tail;
    lemma_json_words_body_first(ws);
    let w = ws[0];
    if ws.len() == 1 {
        let t1 = seq![':'] + (json_string(w.answer@) + (seq!['}'] + tail));
        assert(input =~= json_string(w.word@) + t1);
        lemma_parse_json_string(w.word@, t1);
        assert(t1[0] == ':');
        assert(!ws_char(':'));
        assert(skip_ws(t1) == t1);
        let t2 = json_string(w.answer@) + (seq!['}'] + tail);
        assert(t1.drop_first() =~= t2);
        lemma_parse_json_string(w.answer@, seq!['}'] + tail);
        let t3 = seq!['}'] + tail;
        assert(t3[0] == '}');
        assert(!ws_char('}'));
        assert(skip_ws(t3) == t3);
        assert(t3.drop_first() =~= tail);
        assert(ws.drop_last() =~= Seq::<WordPair>::empty());
        assert(ws.last() == w);
        assert(words_map(ws.drop_last()) =~= Map::<Seq<char>, Seq<char>>::empty());
        assert(words_map(ws) == words_map(ws.drop_last()).insert(w.word@, w.answer@));
        assert(acc.insert(w.word@, w.answer@) =~= acc.union_prefer_right(words_map(ws)));
    } else {
        let rest = json_words_body(ws.drop_first()) + seq!['}'] + tail;
        let t1 = seq![':'] + (json_string(w.answer@) + (seq![','] + rest));
        assert(input =~= json_string(w.word@) + t1);
        lemma_parse_json_string(w.word@, t1);
        assert(t1[0] == ':');
        assert(skip_ws(t1) == t1);
        let t2 = json_string(w.answer@) + (seq![','] + rest);
        assert(t1.drop_first() =~= t2);
        lemma_parse_json_string(w.answer@, seq![','] + rest);
        let t3 = seq![','] + rest;
        assert(t3[0] == ',');
        assert(!ws_char(','));
        assert(skip_ws(t3) == t3);
        assert(t3.drop_first() =~= rest);
        lemma_parse_words_entries_emit(ws.drop_first(), tail, acc.insert(w.word@, w.answer@));
        lemma_words_map_first(ws);
        assert(acc.insert(w.word@, w.answer@).union_prefer_right(words_map(ws.drop_first()))
            =~= acc.union_prefer_right(words_map(ws)));
    }
}

/// Parsing an emitted category object yields its mapping.
proof fn lemma_parse_words_emit(ws: Seq<WordPair>, tail: Seq<char>)
    ensures
        parse_words_obj(json_words(ws) + tail) == Some((words_map(ws), tail)),
{
    let input = json_words(ws) + tail;
    assert(input[0] == '{');
    assert(!ws_char('{'));
    assert(skip_ws(input) == input);
    let body = json_words_body(ws) + seq!['}'] + tail;
    assert(input.drop_first() =~= body);
    if ws.len() == 0 {
        assert(json_words_body(ws) =~= Seq::<char>::empty());
        assert(body =~= seq!['}'] + tail);
        assert(body[0] == '}');
        assert(skip_ws(body) == body);
        assert(body.drop_first() =~= tail);
        assert(words_map(ws) =~= Map::<Seq<char>, Seq<char>>::empty());
    } else {
        lemma_json_words_body_first(ws);
        assert(json_words_body(ws)[0] == '"');
        assert(body[0] == '"');
        assert(skip_ws(body) == body);
        lemma_parse_words_entries_emit(ws, tail, Map::empty());
        assert(Map::<Seq<char>, Seq<char>>::empty().union_prefer_right(words_map(ws))
            =~= words_map(ws));
    }
}

/// Parsing emitted pool members folds them into the accumulator.
#[verifier::rlimit(100)]
proof fn lemma_parse_pool_entries_emit(
    cs: Seq<CategoryEntry>,
    tail: Seq<char>,
    acc: Map<Seq<char>, Map<Seq<char>, Seq<char>>>,
)
    requires
        cs.len() > 0,
    ensures
        parse_pool_entries(json_pool_body(cs) + seq!['}'] + tail, acc) == Some(
            (acc.union_prefer_right(pool_map(cs)), tail),
        ),
    decreases cs.len(),
{
    let input = json_pool_body(cs) + seq!['}'] + tail;
    lemma_json_pool_body_first(cs);
    let e = cs[0];
    if cs.len() == 1 {
        let t1 = seq![':'] + (json_words(e.words@) + (seq!['}'] + tail));
        assert(input =~= json_string(e.name@) + t1);
        lemma_parse_json_string(e.name@, t1);
        assert(t1[0] == ':');
        assert(!ws_char(':'));
        assert(skip_ws(t1) == t1);
        let t2 = json_words(e.words@) + (seq!['}'] + tail);
        assert(t1.drop_first() =~= t2);
        lemma_parse_words_emit(e.words@, seq!['}'] + tail);
        let t3 = seq!['}'] + tail;
        assert(t3[0] == '}');
        assert(skip_ws(t3) == t3);
        assert(t3.drop_first() =~= tail);
        assert(cs.drop_last() =~= Seq::<CategoryEntry>::empty());
        assert(cs.last() == e);
        assert(pool_map(cs.drop_last()) =~= Map::<Seq<char>, Map<Seq<char>, Seq<char>>>::empty());
        assert(pool_map(cs) == pool_map(cs.drop_last()).insert(e.name@, words_map(e.words@)));
        assert(acc.insert(e.name@, words_map(e.words@)) =~= acc.union_prefer_right(pool_map(cs)));
    } else {
        let rest = json_pool_body(cs.drop_first()) + seq!['}'] + tail;
        let t1 = seq![':'] + (json_words(e.words@) + (seq![','] + rest));
        assert(input =~= json_string(e.name@) + t1);
        lemma_parse_json_string(e.name@, t1);
        assert(t1[0] == ':');
        assert(skip_ws(t1) == t1);
        let t2 = json_words(e.words@) + (seq![','] + rest);
        assert(t1.drop_first() =~= t2);
        lemma_parse_words_emit(e.words@, seq![','] + rest);
        let t3 = seq![','] + rest;
        assert(t3[0] == ',');
        assert(!ws_char(','));
        assert(skip_ws(t3) == t3);
        assert(t3.drop_first() =~= rest);
        lemma_parse_pool_entries_emit(
            cs.drop_first(),
            tail,
            acc.insert(e.name@, words_map(e.words@)),
        );
        lemma_pool_map_first(cs);
        assert(acc.insert(e.name@, words_map(e.words@)).union_prefer_right(
            pool_map(cs.drop_first()),
        ) =~= acc.union_prefer_right(pool_map(cs)));
    }
}

/// Parsing an emitted pool object yields its mapping.
proof fn lemma_parse_pool_emit(cs: Seq<CategoryEntry>, tail: Seq<char>)
    ensures
        parse_pool_obj(json_pool(cs) + tail) == Some((pool_map(cs), tail)),
{
    let input = json_pool(cs) + tail;
    assert(input[0] == '{');
    assert(!ws_char('{'));
    assert(skip_ws(input) == input);
    let body = json_pool_body(cs) + seq!['}'] + tail;
    assert(input.drop_first() =~= body);
    if cs.len() == 0 {
        assert(json_pool_body(cs) =~= Seq::<char>::empty());
        assert(body =~= seq!['}'] + tail);
        assert(body[0] == '}');
        assert(skip_ws(body) == body);
        assert(body.drop_first() =~= tail);
        assert(pool_map(cs) =~= Map::<Seq<char>, Map<Seq<char>, Seq<char>>>::empty());
    } else {
        lemma_json_pool_body_first(cs);
        assert(json_pool_body(cs)[0] == '"');
        assert(body[0] == '"');
        assert(skip_ws(body) == body);
        lemma_parse_pool_entries_emit(cs, tail, Map::empty());
        assert(Map::<Seq<char>, Map<Seq<char>, Seq<char>>>::empty().union_prefer_right(
            pool_map(cs),
        ) =~= pool_map(cs));
    }
}

/// Writing a store and parsing the text back restores exactly the two
/// mappings: the save-then-load round trip loses nothing and invents
/// nothing.
#[verifier::rlimit(100)]
pub proof fn lemma_store_round_trip(learn: Seq<CategoryEntry>, complete: Seq<CategoryEntry>)
    ensures
        parse_store(json_store(learn, complete)) == Some((pool_map(learn), pool_map(complete))),
{
    let input = json_store(learn, complete);
    assert(input[0] == '{');
    assert(!ws_char('{'));
    assert(skip_ws(input) == input);
    let t1 = seq![':'] + (json_pool(learn) + (seq![','] + (json_string(complete_key()) + (seq![
        ':',
    ] + (json_pool(complete) + seq!['}'])))));
    assert(input.drop_first() =~= json_string(learn_key()) + t1);
    lemma_parse_json_string(learn_key(), t1);
    assert(t1[0] == ':');
    assert(!ws_char(':'));
    assert(skip_ws(t1) == t1);
    let t2 = json_pool(learn) + (seq![','] + (json_string(complete_key()) + (seq![':'] + (
    json_pool(complete) + seq!['}']))));
    assert(t1.drop_first() =~= t2);
    let t3 = seq![','] + (json_string(complete_key()) + (seq![':'] + (json_pool(complete) + seq![
        '}',
    ])));
    lemma_parse_pool_emit(learn, t3);
    assert(t2 =~= json_pool(learn) + t3);
    assert(t3[0] == ',');
    assert(!ws_char(','));
    assert(skip_ws(t3) == t3);
    let t4 = json_string(complete_key()) + (seq![':'] + (json_pool(complete) + seq!['}']));
    assert(t3.drop_first() =~= t4);
    let t5 = seq![':'] + (json_pool(complete) + seq!['}']);
    lemma_parse_json_string(complete_key(), t5);
    assert(t5[0] == ':');
    assert(skip_ws(t5) == t5);
    let t6 = json_pool(complete) + seq!['}'];
    assert(t5.drop_first() =~= t6);
    lemma_parse_pool_emit(complete, seq!['}']);
    let t7 = seq!['}'];
    assert(t7[0] == '}');
    assert(!ws_char('}'));
    assert(skip_ws(t7) == t7);
    assert(t7.drop_first() =~= Seq::<char>::empty());
    assert(skip_ws(Seq::<char>::empty()).len() == 0);
    assert(learn_key() != complete_key());
}

impl Words {
    /// The save-then-load round trip on this store: the text that
    /// [`Words::to_json`] writes parses back (see [`Words::from_json`])
    /// to exactly this store's two mappings.
    pub proof fn lemma_round_trip(&self)
        ensures
            parse_store(json_store(self.learn@, self.complete@)) == Some(
                (self.learn_map(), self.complete_map()),
            ),
    {
        lemma_store_round_trip(self.learn@, self.complete@);
    }
}

} // verus!
