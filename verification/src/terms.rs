//! Turning the words of a query into terms: case folding, punctuation
//! stripping, stop words and stemming.

use crate::sequences::lemma_filter_push;
use crate::text::{
    alnum, chars_of, ends_with, fold_chars, folded, has_suffix, is_alnum, prefix, same_chars,
};
use vstd::prelude::*;

verus! {

/// The shortest stem that stripping a suffix may leave.
pub const MIN_STEM: usize = 3;

/// The characters that words are made of: the letters and digits of ASCII,
/// `_`, and every character beyond ASCII, so that words of other scripts
/// stay whole.
pub open spec fn is_word_char(c: char) -> bool {
    is_alnum(c) || c == '_' || c > '\x7f'
}

/// Decides whether `c` is a character that words are made of.
pub fn word_char(c: char) -> (r: bool)
    ensures
        r == is_word_char(c),
{
    alnum(c) || c == '_' || c > '\x7f'
}

/// `is_word_char` as a predicate value.
pub open spec fn word_chars() -> spec_fn(char) -> bool {
    |c: char| is_word_char(c)
}

/// `s` without its punctuation.
pub open spec fn stripped(s: Seq<char>) -> Seq<char> {
    s.filter(word_chars())
}

/// Removes everything but the characters that words are made of.
pub fn strip_punctuation(chars: &Vec<char>) -> (out: Vec<char>)
    ensures
        out@ == stripped(chars@),
{
    let mut out: Vec<char> = Vec::new();
    let mut i: usize = 0;
    proof {
        reveal(Seq::filter);
        assert(chars@.take(0) =~= Seq::<char>::empty());
    }
    while i < chars.len()
        invariant
            i <= chars.len(),
            out@ == stripped(chars@.take(i as int)),
        decreases chars.len() - i,
    {
        let c = chars[i];
        proof {
            lemma_filter_push(chars@.take(i as int), c, word_chars());
            assert(chars@.take(i + 1) =~= chars@.take(i as int).push(c));
        }
        if word_char(c) {
            out.push(c);
        }
        i += 1;
    }
    assert(chars@.take(chars.len() as int) =~= chars@);
    out
}

/// The views of a list of string slices.
pub open spec fn slices(v: Seq<&'static str>) -> Seq<Seq<char>> {
    v.map_values(|s: &'static str| s@)
}

/// The words that carry no meaning of their own in a code search: common
/// English words and a few keywords that nearly every file holds.
pub open spec fn stop_words() -> Seq<Seq<char>> {
    seq![
        "a"@,
        "an"@,
        "and"@,
        "are"@,
        "as"@,
        "at"@,
        "be"@,
        "by"@,
        "for"@,
        "from"@,
        "if"@,
        "in"@,
        "is"@,
        "it"@,
        "of"@,
        "on"@,
        "or"@,
        "that"@,
        "the"@,
        "this"@,
        "to"@,
        "was"@,
        "with"@,
        "else"@,
        "let"@,
        "var"@,
        "return"@,
    ]
}

fn stop_list() -> (out: Vec<&'static str>)
    ensures
        slices(out@) == stop_words(),
{
    let out = vec![
        "a", "an", "and", "are", "as", "at", "be", "by", "for", "from", "if", "in", "is", "it",
        "of", "on", "or", "that", "the", "this", "to", "was", "with", "else", "let", "var",
        "return",
    ];
    assert(slices(out@) =~= stop_words());
    out
}

/// `w` is a stop word.
pub open spec fn is_stop_word(w: Seq<char>) -> bool {
    stop_words().contains(w)
}

fn among(w: &Vec<char>, list: &Vec<&'static str>) -> (r: bool)
    ensures
        r == slices(list@).contains(w@),
{
    let mut i: usize = 0;
    while i < list.len()
        invariant
            i <= list.len(),
            forall|k: int| 0 <= k < i ==> slices(list@)[k] != w@,
        decreases list.len() - i,
    {
        let candidate = chars_of(list[i]);
        assert(candidate@ == slices(list@)[i as int]);
        if same_chars(w, &candidate) {
            return true;
        }
        i += 1;
    }
    false
}

/// Decides whether `w` is a stop word.
pub fn stop_word(w: &Vec<char>) -> (r: bool)
    ensures
        r == is_stop_word(w@),
{
    let list = stop_list();
    among(w, &list)
}

/// The suffix may be stripped: the word ends with it and a stem of at least
/// three characters is left.
pub open spec fn strippable(w: Seq<char>, suffix: Seq<char>) -> bool {
    ends_with(w, suffix) && w.len() - suffix.len() >= MIN_STEM
}

/// `w` without the first suffix of `rules[k..]` that may be stripped.
pub open spec fn strip_first(w: Seq<char>, rules: Seq<Seq<char>>, k: int) -> Seq<char>
    decreases rules.len() - k,
{
    if k < 0 || k >= rules.len() {
        w
    } else if strippable(w, rules[k]) {
        w.take(w.len() - rules[k].len())
    } else {
        strip_first(w, rules, k + 1)
    }
}

/// The derivational suffixes, longest first.
pub open spec fn suffix_rules() -> Seq<Seq<char>> {
    seq![
        "ization"@,
        "ation"@,
        "ement"@,
        "ingly"@,
        "able"@,
        "ible"@,
        "ment"@,
        "ness"@,
        "edly"@,
        "ing"@,
        "ion"@,
        "ity"@,
        "ive"@,
        "ize"@,
        "ful"@,
        "ed"@,
        "er"@,
        "ly"@,
        "al"@,
    ]
}

fn suffix_list() -> (out: Vec<&'static str>)
    ensures
        slices(out@) == suffix_rules(),
{
    let out = vec![
        "ization", "ation", "ement", "ingly", "able", "ible", "ment", "ness", "edly", "ing",
        "ion", "ity", "ive", "ize", "ful", "ed", "er", "ly", "al",
    ];
    assert(slices(out@) =~= suffix_rules());
    out
}

/// The endings after which a final `s` is no plural.
pub open spec fn plural_exceptions() -> Seq<Seq<char>> {
    seq!["ss"@, "us"@, "is"@]
}

fn exception_list() -> (out: Vec<&'static str>)
    ensures
        slices(out@) == plural_exceptions(),
{
    let out = vec!["ss", "us", "is"];
    assert(slices(out@) =~= plural_exceptions());
    out
}

/// `w` ends with one of `endings`.
pub open spec fn ends_with_any(w: Seq<char>, endings: Seq<Seq<char>>) -> bool {
    exists|k: int| 0 <= k < endings.len() && ends_with(w, #[trigger] endings[k])
}

/// The number of characters that the plural step keeps: `sses` and `ies` lose
/// two, a plain final `s` is dropped unless the word ends in `ss`, `us` or `is`.
pub open spec fn singular_len(w: Seq<char>) -> int {
    if strippable(w, "sses"@) || strippable(w, "ies"@) {
        w.len() - 2
    } else if !ends_with_any(w, plural_exceptions()) && strippable(w, "s"@) {
        w.len() - 1
    } else {
        w.len() as int
    }
}

/// The stem of a word: the plural step, then the first derivational suffix
/// that may go, then a final `e`.
pub open spec fn stem(w: Seq<char>) -> Seq<char> {
    let single = w.take(singular_len(w));
    let base = strip_first(single, suffix_rules(), 0);
    if strippable(base, "e"@) {
        base.take(base.len() - 1)
    } else {
        base
    }
}

fn can_strip(w: &Vec<char>, suffix: &str) -> (r: bool)
    ensures
        r == strippable(w@, suffix@),
{
    let s = chars_of(suffix);
    has_suffix(w, &s) && w.len() - s.len() >= MIN_STEM
}

fn ends_with_one_of(w: &Vec<char>, endings: &Vec<&'static str>) -> (r: bool)
    ensures
        r == ends_with_any(w@, slices(endings@)),
{
    let mut i: usize = 0;
    while i < endings.len()
        invariant
            i <= endings.len(),
            forall|k: int| 0 <= k < i ==> !ends_with(w@, #[trigger] slices(endings@)[k]),
        decreases endings.len() - i,
    {
        let e = chars_of(endings[i]);
        assert(e@ == slices(endings@)[i as int]);
        if has_suffix(w, &e) {
            return true;
        }
        i += 1;
    }
    false
}

fn strip_suffix(w: &Vec<char>, rules: &Vec<&'static str>) -> (out: Vec<char>)
    ensures
        out@ == strip_first(w@, slices(rules@), 0),
{
    let ghost all = slices(rules@);
    let mut k: usize = 0;
    while k < rules.len()
        invariant
            k <= rules.len(),
            all == slices(rules@),
            strip_first(w@, all, 0) == strip_first(w@, all, k as int),
        decreases rules.len() - k,
    {
        let s = chars_of(rules[k]);
        assert(s@ == all[k as int]);
        if has_suffix(w, &s) && w.len() - s.len() >= MIN_STEM {
            return prefix(w, w.len() - s.len());
        }
        k += 1;
    }
    let out = prefix(w, w.len());
    assert(w@.take(w.len() as int) =~= w@);
    out
}

/// Computes the stem of a word.
pub fn stem_of(w: &Vec<char>) -> (out: Vec<char>)
    ensures
        out@ == stem(w@),
{
    let keep: usize = if can_strip(w, "sses") || can_strip(w, "ies") {
        w.len() - 2
    } else {
        let exceptions = exception_list();
        if !ends_with_one_of(w, &exceptions) && can_strip(w, "s") {
            w.len() - 1
        } else {
            w.len()
        }
    };
    let single = prefix(w, keep);
    let rules = suffix_list();
    let base = strip_suffix(&single, &rules);
    if can_strip(&base, "e") {
        prefix(&base, base.len() - 1)
    } else {
        base
    }
}

/// Stripping a suffix leaves a beginning of the word.
pub proof fn lemma_strip_first_is_prefix(w: Seq<char>, rules: Seq<Seq<char>>, k: int)
    ensures
        strip_first(w, rules, k).len() <= w.len(),
        strip_first(w, rules, k) == w.take(strip_first(w, rules, k).len() as int),
        w.len() > 0 ==> strip_first(w, rules, k).len() > 0,
    decreases rules.len() - k,
{
    if k < 0 || k >= rules.len() {
        assert(w.take(w.len() as int) =~= w);
    } else if strippable(w, rules[k]) {
        let n = w.len() - rules[k].len();
        assert(w.take(n).take(n) =~= w.take(n));
    } else {
        lemma_strip_first_is_prefix(w, rules, k + 1);
    }
}

/// The stem of a word is a beginning of the word, and it is empty only if the
/// word is. So a text that holds the word also holds its stem.
pub proof fn lemma_stem_is_prefix(w: Seq<char>)
    ensures
        stem(w).len() <= w.len(),
        stem(w) == w.take(stem(w).len() as int),
        w.len() > 0 ==> stem(w).len() > 0,
{
    let n = singular_len(w);
    let single = w.take(n);
    lemma_strip_first_is_prefix(single, suffix_rules(), 0);
    let base = strip_first(single, suffix_rules(), 0);
    let m = base.len() as int;
    assert(base == single.take(m));
    assert(single.take(m) =~= w.take(m));
    if strippable(base, "e"@) {
        assert(base.take(m - 1) =~= w.take(m - 1));
    }
    if n == w.len() {
        assert(single =~= w);
    }
}

/// The key under which a word of the query becomes a term, or `None` if the
/// word is dropped. In exact mode the text is taken as it is. Otherwise a
/// quoted text is only folded to lower case, and a bare word is folded,
/// stripped of punctuation, dropped if it is a stop word, and stemmed.
pub open spec fn term_key(text: Seq<char>, quoted: bool, exact: bool) -> Option<Seq<char>> {
    if exact {
        if text.len() == 0 {
            None
        } else {
            Some(text)
        }
    } else if quoted {
        if text.len() == 0 {
            None
        } else {
            Some(folded(text))
        }
    } else {
        let w = stripped(folded(text));
        if w.len() == 0 || is_stop_word(w) {
            None
        } else {
            Some(stem(w))
        }
    }
}

/// The key of an optional vector.
pub open spec fn key_view(k: Option<Vec<char>>) -> Option<Seq<char>> {
    match k {
        Some(v) => Some(v@),
        None => None,
    }
}

/// Computes the key of a word of the query.
pub fn key_of(text: &Vec<char>, quoted: bool, exact: bool) -> (out: Option<Vec<char>>)
    ensures
        key_view(out) == term_key(text@, quoted, exact),
{
    if exact {
        if text.len() == 0 {
            None
        } else {
            let out = prefix(text, text.len());
            assert(text@.take(text.len() as int) =~= text@);
            Some(out)
        }
    } else if quoted {
        if text.len() == 0 {
            None
        } else {
            Some(fold_chars(text))
        }
    } else {
        let w = strip_punctuation(&fold_chars(text));
        if w.len() == 0 || stop_word(&w) {
            None
        } else {
            Some(stem_of(&w))
        }
    }
}

} // verus!
