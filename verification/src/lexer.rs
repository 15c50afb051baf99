//! Splitting a query into tokens. A token records its kind and the span of
//! its text in the query, so that tokens are plain values.

use crate::text::{is_space, space};
use vstd::prelude::*;

verus! {

/// What a token is.
#[derive(Clone, Copy, PartialEq, Eq, Structural, Debug)]
pub enum TokenKind {
    /// A bare word.
    Word,
    /// Text between double quotes; the span leaves the quotes out.
    Quoted,
    /// `AND` or `&`.
    And,
    /// `OR` or `|`.
    Or,
    /// `NOT`, or `-` in front of a token.
    Not,
    /// `(`.
    Open,
    /// `)`.
    Close,
}

/// A token: its kind and the characters `start..end` of the query.
#[derive(Clone, Copy, Debug)]
pub struct Token {
    pub kind: TokenKind,
    pub start: usize,
    pub end: usize,
}

/// A character that ends a bare word.
pub open spec fn is_delimiter(c: char) -> bool {
    is_space(c) || c == '(' || c == ')' || c == '"' || c == '&' || c == '|'
}

fn delimiter(c: char) -> (r: bool)
    ensures
        r == is_delimiter(c),
{
    space(c) || c == '(' || c == ')' || c == '"' || c == '&' || c == '|'
}

/// The first position at or after `from` that holds a delimiter, or the length.
pub open spec fn word_end(s: Seq<char>, from: int) -> int
    decreases s.len() - from,
{
    if from >= s.len() {
        s.len() as int
    } else if from >= 0 && is_delimiter(s[from]) {
        from
    } else {
        word_end(s, from + 1)
    }
}

/// The first position at or after `from` that holds a double quote, or the length.
pub open spec fn quote_end(s: Seq<char>, from: int) -> int
    decreases s.len() - from,
{
    if from >= s.len() {
        s.len() as int
    } else if from >= 0 && s[from] == '"' {
        from
    } else {
        quote_end(s, from + 1)
    }
}

/// The upper-case words `AND`, `OR` and `NOT` are operators; any other word is a term.
pub open spec fn word_kind(w: Seq<char>) -> TokenKind {
    if w == seq!['A', 'N', 'D'] {
        TokenKind::And
    } else if w == seq!['O', 'R'] {
        TokenKind::Or
    } else if w == seq!['N', 'O', 'T'] {
        TokenKind::Not
    } else {
        TokenKind::Word
    }
}

/// The token of kind `kind` over `start..end`.
pub open spec fn token(kind: TokenKind, start: int, end: int) -> Token {
    Token { kind, start: start as usize, end: end as usize }
}

/// The tokens of `s` from position `from` on. White space separates tokens;
/// parentheses, `&` and `|` are tokens of their own; a double quote opens a
/// quoted token that runs to the next double quote or to the end; `-` at the
/// start of a token is a negation; everything else is a word up to the next
/// delimiter.
pub open spec fn lex_from(s: Seq<char>, from: int) -> Seq<Token>
    decreases s.len() - from,
{
    if from < 0 || from >= s.len() {
        seq![]
    } else {
        let c = s[from];
        if is_space(c) {
            lex_from(s, from + 1)
        } else if c == '(' {
            seq![token(TokenKind::Open, from, from + 1)] + lex_from(s, from + 1)
        } else if c == ')' {
            seq![token(TokenKind::Close, from, from + 1)] + lex_from(s, from + 1)
        } else if c == '&' {
            seq![token(TokenKind::And, from, from + 1)] + lex_from(s, from + 1)
        } else if c == '|' {
            seq![token(TokenKind::Or, from, from + 1)] + lex_from(s, from + 1)
        } else if c == '-' {
            seq![token(TokenKind::Not, from, from + 1)] + lex_from(s, from + 1)
        } else if c == '"' {
            let e = quote_end(s, from + 1);
            if from < e < s.len() {
                seq![token(TokenKind::Quoted, from + 1, e)] + lex_from(s, e + 1)
            } else {
                seq![token(TokenKind::Quoted, from + 1, s.len() as int)]
            }
        } else {
            let e = word_end(s, from);
            if from < e <= s.len() {
                seq![token(word_kind(s.subrange(from, e)), from, e)] + lex_from(s, e)
            } else {
                seq![]
            }
        }
    }
}

/// The tokens of a query.
pub open spec fn tokens_of(s: Seq<char>) -> Seq<Token> {
    lex_from(s, 0)
}

/// Every token of a query lies inside the query.
pub open spec fn spans_within(tokens: Seq<Token>, len: nat) -> bool {
    forall|i: int|
        0 <= i < tokens.len() ==> (#[trigger] tokens[i]).start <= tokens[i].end <= len
}

fn kind_of_word(chars: &Vec<char>, from: usize, to: usize) -> (k: TokenKind)
    requires
        from <= to <= chars.len(),
    ensures
        k == word_kind(chars@.subrange(from as int, to as int)),
{
    let ghost w = chars@.subrange(from as int, to as int);
    let n: usize = to - from;
    if n == 3 && chars[from] == 'A' && chars[from + 1] == 'N' && chars[from + 2] == 'D' {
        assert(w =~= seq!['A', 'N', 'D']);
        TokenKind::And
    } else if n == 2 && chars[from] == 'O' && chars[from + 1] == 'R' {
        assert(w =~= seq!['O', 'R']);
        TokenKind::Or
    } else if n == 3 && chars[from] == 'N' && chars[from + 1] == 'O' && chars[from + 2] == 'T' {
        assert(w =~= seq!['N', 'O', 'T']);
        TokenKind::Not
    } else {
        proof {
            let and = seq!['A', 'N', 'D'];
            let or = seq!['O', 'R'];
            let not = seq!['N', 'O', 'T'];
            if w == and {
                assert(w.len() == 3 && w[0] == and[0] && w[1] == and[1] && w[2] == and[2]);
            }
            if w == or {
                assert(w.len() == 2 && w[0] == or[0] && w[1] == or[1]);
            }
            if w == not {
                assert(w.len() == 3 && w[0] == not[0] && w[1] == not[1] && w[2] == not[2]);
            }
        }
        TokenKind::Word
    }
}

/// Splits the characters of a query into tokens.
pub fn tokenize(chars: &Vec<char>) -> (out: Vec<Token>)
    ensures
        out@ == tokens_of(chars@),
        spans_within(out@, chars@.len()),
{
    let ghost s = chars@;
    let n: usize = chars.len();
    let mut out: Vec<Token> = Vec::new();
    let mut pos: usize = 0;
    assert(out@ + lex_from(s, 0) =~= lex_from(s, 0));
    while pos < n
        invariant
            s == chars@,
            n == chars.len(),
            pos <= n,
            out@ + lex_from(s, pos as int) == lex_from(s, 0),
            spans_within(out@, s.len()),
        decreases n - pos,
    {
        let c = chars[pos];
        let ghost before = out@;
        if space(c) {
            pos += 1;
        } else if c == '(' || c == ')' || c == '&' || c == '|' || c == '-' {
            let kind = if c == '(' {
                TokenKind::Open
            } else if c == ')' {
                TokenKind::Close
            } else if c == '&' {
                TokenKind::And
            } else if c == '|' {
                TokenKind::Or
            } else {
                TokenKind::Not
            };
            out.push(Token { kind, start: pos, end: pos + 1 });
            assert(out@ + lex_from(s, pos + 1) =~= before + lex_from(s, pos as int));
            pos += 1;
        } else if c == '"' {
            let mut e: usize = pos + 1;
            while e < n && chars[e] != '"'
                invariant
                    s == chars@,
                    n == chars.len(),
                    pos < e <= n,
                    quote_end(s, pos + 1) == quote_end(s, e as int),
                decreases n - e,
            {
                e += 1;
            }
            assert(quote_end(s, pos + 1) == e);
            out.push(Token { kind: TokenKind::Quoted, start: pos + 1, end: e });
            if e < n {
                assert(out@ + lex_from(s, e + 1) =~= before + lex_from(s, pos as int));
                pos = e + 1;
            } else {
                assert(out@ + lex_from(s, n as int) =~= before + lex_from(s, pos as int));
                pos = n;
            }
        } else {
            let mut e: usize = pos + 1;
            assert(word_end(s, pos as int) == word_end(s, pos + 1));
            while e < n && !delimiter(chars[e])
                invariant
                    s == chars@,
                    n == chars.len(),
                    pos < e <= n,
                    word_end(s, pos as int) == word_end(s, e as int),
                decreases n - e,
            {
                e += 1;
            }
            let kind = kind_of_word(chars, pos, e);
            out.push(Token { kind, start: pos, end: e });
            assert(out@ + lex_from(s, e as int) =~= before + lex_from(s, pos as int));
            pos = e;
        }
    }
    assert(out@ + lex_from(s, pos as int) =~= out@);
    out
}

/// A bare word that stands for itself: it has a character, none that ends a
/// word, no `-` in front, and it is none of `AND`, `OR` and `NOT`.
pub open spec fn plain_word(w: Seq<char>) -> bool {
    &&& w.len() > 0
    &&& forall|i: int| 0 <= i < w.len() ==> !is_delimiter(#[trigger] w[i])
    &&& w[0] != '-'
    &&& word_kind(w) is Word
}

/// The query that `head` makes with ` NOT ` and a word behind it.
pub open spec fn with_not(head: Seq<char>, word: Seq<char>) -> Seq<char> {
    head + seq![' ', 'N', 'O', 'T', ' '] + word
}

/// The last two tokens are `NOT` and the word over `start..end`.
pub open spec fn ends_negated(ts: Seq<Token>, start: int, end: int) -> bool {
    &&& ts.len() >= 2
    &&& ts[ts.len() - 2].kind is Not
    &&& ts[ts.len() - 1] == token(TokenKind::Word, start, end)
}

proof fn lemma_word_end_before(s: Seq<char>, from: int, stop: int)
    requires
        0 <= from <= stop < s.len(),
        is_delimiter(s[stop]),
    ensures
        from <= word_end(s, from) <= stop,
    decreases stop - from,
{
    if !is_delimiter(s[from]) {
        lemma_word_end_before(s, from + 1, stop);
    }
}

proof fn lemma_word_end_at_end(s: Seq<char>, from: int)
    requires
        0 <= from <= s.len(),
        forall|i: int| from <= i < s.len() ==> !is_delimiter(#[trigger] s[i]),
    ensures
        word_end(s, from) == s.len(),
    decreases s.len() - from,
{
    if from < s.len() {
        lemma_word_end_at_end(s, from + 1);
    }
}

proof fn lemma_lex_tail(s: Seq<char>, stop: int)
    requires
        0 <= stop,
        stop + 5 < s.len(),
        s.subrange(stop, stop + 5) == seq![' ', 'N', 'O', 'T', ' '],
        plain_word(s.subrange(stop + 5, s.len() as int)),
    ensures
        lex_from(s, stop) == seq![
            token(TokenKind::Not, stop + 1, stop + 4),
            token(TokenKind::Word, stop + 5, s.len() as int),
        ],
{
    let mid = s.subrange(stop, stop + 5);
    let word = s.subrange(stop + 5, s.len() as int);
    assert(s[stop] == mid[0] && s[stop + 1] == mid[1] && s[stop + 2] == mid[2] && s[stop + 3]
        == mid[3] && s[stop + 4] == mid[4]);
    assert forall|i: int| stop + 5 <= i < s.len() implies !is_delimiter(#[trigger] s[i]) by {
        assert(s[i] == word[i - (stop + 5)]);
    }
    assert(s[stop + 5] == word[0]);
    lemma_word_end_at_end(s, stop + 5);
    assert(word_end(s, stop + 4) == stop + 4);
    assert(word_end(s, stop + 3) == stop + 4);
    assert(word_end(s, stop + 2) == stop + 4);
    assert(word_end(s, stop + 1) == stop + 4);
    assert(s.subrange(stop + 1, stop + 4) =~= seq!['N', 'O', 'T']);
    assert(lex_from(s, s.len() as int) == Seq::<Token>::empty());
    let last = lex_from(s, stop + 5);
    assert(last == seq![token(TokenKind::Word, stop + 5, s.len() as int)] + Seq::<Token>::empty());
    assert(lex_from(s, stop + 4) == last);
    assert(lex_from(s, stop + 1) == seq![token(TokenKind::Not, stop + 1, stop + 4)] + last);
    assert(lex_from(s, stop) == lex_from(s, stop + 1));
    assert(lex_from(s, stop) =~= seq![
        token(TokenKind::Not, stop + 1, stop + 4),
        token(TokenKind::Word, stop + 5, s.len() as int),
    ]);
}

proof fn lemma_lex_reaches(s: Seq<char>, from: int, stop: int, start: int, end: int)
    requires
        0 <= from <= stop < s.len(),
        is_delimiter(s[stop]),
        forall|i: int| from <= i < stop ==> #[trigger] s[i] != '"',
        ends_negated(lex_from(s, stop), start, end),
    ensures
        ends_negated(lex_from(s, from), start, end),
    decreases stop - from,
{
    if from < stop {
        let c = s[from];
        let next = if is_space(c) || c == '(' || c == ')' || c == '&' || c == '|' || c == '-' {
            from + 1
        } else {
            word_end(s, from)
        };
        if !(is_space(c) || c == '(' || c == ')' || c == '&' || c == '|' || c == '-') {
            assert(!is_delimiter(c));
            lemma_word_end_before(s, from + 1, stop);
        }
        assert(from < next <= stop);
        lemma_lex_reaches(s, next, stop, start, end);
        let rest = lex_from(s, next);
        let all = lex_from(s, from);
        assert(all == rest || (all.len() == rest.len() + 1 && forall|k: int|
            0 <= k < rest.len() ==> all[k + 1] == rest[k]));
    }
}

/// A query has at most as many tokens as characters.
pub proof fn lemma_token_count(s: Seq<char>, from: int)
    requires
        0 <= from <= s.len(),
    ensures
        lex_from(s, from).len() <= s.len() - from,
    decreases s.len() - from,
{
    if from < s.len() {
        let c = s[from];
        if is_space(c) || c == '(' || c == ')' || c == '&' || c == '|' || c == '-' {
            lemma_token_count(s, from + 1);
        } else if c == '"' {
            let e = quote_end(s, from + 1);
            if from < e < s.len() {
                lemma_token_count(s, e + 1);
            }
        } else {
            let e = word_end(s, from);
            if from < e <= s.len() {
                lemma_token_count(s, e);
            }
        }
    }
}

/// A query that ends in ` NOT ` and a plain word, with no double quote
/// before them, has `NOT` and that word as its last two tokens.
pub proof fn lemma_trailing_not(head: Seq<char>, word: Seq<char>)
    requires
        forall|i: int| 0 <= i < head.len() ==> #[trigger] head[i] != '"',
        plain_word(word),
    ensures
        ends_negated(
            tokens_of(with_not(head, word)),
            head.len() as int + 5,
            with_not(head, word).len() as int,
        ),
{
    let s = with_not(head, word);
    let stop = head.len() as int;
    assert(s.subrange(stop, stop + 5) =~= seq![' ', 'N', 'O', 'T', ' ']);
    assert(s.subrange(stop + 5, s.len() as int) =~= word);
    lemma_lex_tail(s, stop);
    assert(s[stop] == ' ');
    assert forall|i: int| 0 <= i < stop implies #[trigger] s[i] != '"' by {
        assert(s[i] == head[i]);
    }
    lemma_lex_reaches(s, 0, stop, stop + 5, s.len() as int);
}

} // verus!
