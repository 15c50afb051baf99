//! The query plan: the expression over term indices, the terms in the order
//! in which the query mentions them, and the scan patterns made from them.

use crate::ast::Expr;
use crate::engine::{escape, escaped};
use crate::lexer::{spans_within, tokenize, tokens_of, Token, TokenKind};
use crate::parser::{
    atoms_within, is_atom_token, lemma_word_behind_not_is_negated, negates, parse, parse_tokens,
    ParseError, Syntax,
};
use crate::terms::{key_of, key_view, term_key};
use crate::text::{chars_of, same_chars, slice_chars, string_of, texts};
use vstd::prelude::*;
use vstd::string::StringExecFns;

verus! {

/// A term of the query.
pub struct Term {
    /// The text as the query first wrote it.
    pub text: String,
    /// The key that the scan looks for: the stem, or the text itself in exact mode.
    pub stem: String,
    /// The stable index of the term within its plan.
    pub index: usize,
    /// The expression cannot hold unless this term is matched.
    pub required: bool,
    /// The expression excludes this term somewhere.
    pub excluded: bool,
}

/// A parsed query.
pub struct QueryPlan {
    pub ast: Expr,
    /// The terms; the term with index `i` stands at position `i`.
    pub terms: Vec<Term>,
    /// Terms are matched verbatim, as whole words.
    pub exact: bool,
}

/// The terms found so far: their keys and, for each, the token that brought it.
pub struct Vocabulary {
    pub keys: Seq<Seq<char>>,
    pub firsts: Seq<usize>,
}

/// The executable vocabulary.
pub struct Words {
    pub keys: Vec<Vec<char>>,
    pub firsts: Vec<usize>,
}

impl View for Words {
    type V = Vocabulary;

    open spec fn view(&self) -> Vocabulary {
        Vocabulary { keys: self.keys@.map_values(|k: Vec<char>| k@), firsts: self.firsts@ }
    }
}

impl Vocabulary {
    /// No key occurs twice, and every key has its token, which is one of `n`.
    pub open spec fn wf(self, n: nat) -> bool {
        &&& self.keys.len() == self.firsts.len()
        &&& forall|i: int| 0 <= i < self.firsts.len() ==> #[trigger] self.firsts[i] < n
        &&& forall|i: int, j: int|
            0 <= i < j < self.keys.len() ==> #[trigger] self.keys[i] != #[trigger] self.keys[j]
    }
}

/// The text of a token.
pub open spec fn token_text(q: Seq<char>, t: Token) -> Seq<char> {
    q.subrange(t.start as int, t.end as int)
}

/// The key of the atom that token `token` is.
pub open spec fn atom_key(q: Seq<char>, ts: Seq<Token>, token: usize, exact: bool) -> Option<
    Seq<char>,
> {
    term_key(token_text(q, ts[token as int]), ts[token as int].kind is Quoted, exact)
}

/// The first position at or after `from` that holds `k`, or the length.
pub open spec fn position_of(keys: Seq<Seq<char>>, k: Seq<char>, from: int) -> int
    decreases keys.len() - from,
{
    if from < 0 || from >= keys.len() {
        keys.len() as int
    } else if keys[from] == k {
        from
    } else {
        position_of(keys, k, from + 1)
    }
}

/// Two optional operands joined; a side that was dropped leaves the other.
pub open spec fn join(and: bool, a: Option<Expr>, b: Option<Expr>) -> Option<Expr> {
    match (a, b) {
        (Some(x), Some(y)) => Some(
            if and {
                Expr::And(Box::new(x), Box::new(y))
            } else {
                Expr::Or(Box::new(x), Box::new(y))
            },
        ),
        (Some(x), None) => Some(x),
        (None, y) => y,
    }
}

/// The expression of a syntax tree, and the vocabulary after it. Atoms are
/// visited from left to right; an atom whose key is new gets the next index,
/// one whose key is known gets the index of that key, and one without a key
/// is dropped.
pub open spec fn build(tree: Syntax, q: Seq<char>, ts: Seq<Token>, exact: bool, v: Vocabulary) -> (
    Option<Expr>,
    Vocabulary,
)
    decreases tree,
{
    match tree {
        Syntax::Atom { token, negated } => match atom_key(q, ts, token, exact) {
            None => (None, v),
            Some(k) => {
                let i = position_of(v.keys, k, 0);
                let e = Expr::Term { index: i as usize, excluded: negated };
                if i < v.keys.len() {
                    (Some(e), v)
                } else {
                    (Some(e), Vocabulary { keys: v.keys.push(k), firsts: v.firsts.push(token) })
                }
            },
        },
        Syntax::And(l, r) => {
            let (a, v1) = build(*l, q, ts, exact, v);
            let (b, v2) = build(*r, q, ts, exact, v1);
            (join(true, a, b), v2)
        },
        Syntax::Or(l, r) => {
            let (a, v1) = build(*l, q, ts, exact, v);
            let (b, v2) = build(*r, q, ts, exact, v1);
            (join(false, a, b), v2)
        },
    }
}

/// The plan of a query: its expression and its vocabulary, or the reason why
/// there is none. A query whose words are all dropped is empty.
pub open spec fn planned(query: Seq<char>, exact: bool) -> Result<(Expr, Vocabulary), ParseError> {
    let ts = tokens_of(query);
    match parse_tokens(ts) {
        Err(e) => Err(e),
        Ok(tree) => {
            let (ast, v) = build(tree, query, ts, exact, Vocabulary { keys: seq![], firsts: seq![] });
            match ast {
                None => Err(ParseError::EmptyExpression),
                Some(e) => Ok((e, v)),
            }
        },
    }
}

/// Every term index of the expression is below `n`.
pub open spec fn within(e: Expr, n: nat) -> bool
    decreases e,
{
    match e {
        Expr::Term { index, excluded } => index < n,
        Expr::And(l, r) => within(*l, n) && within(*r, n),
        Expr::Or(l, r) => within(*l, n) && within(*r, n),
    }
}

/// Indices that are below `n` are below anything larger.
pub proof fn lemma_within_grows(e: Expr, n: nat, m: nat)
    requires
        within(e, n),
        n <= m,
    ensures
        within(e, m),
    decreases e,
{
    match e {
        Expr::Term { index, excluded } => {},
        Expr::And(l, r) => {
            lemma_within_grows(*l, n, m);
            lemma_within_grows(*r, n, m);
        },
        Expr::Or(l, r) => {
            lemma_within_grows(*l, n, m);
            lemma_within_grows(*r, n, m);
        },
    }
}

proof fn lemma_position_of(keys: Seq<Seq<char>>, k: Seq<char>, from: int)
    requires
        0 <= from <= keys.len(),
    ensures
        from <= position_of(keys, k, from) <= keys.len(),
        position_of(keys, k, from) < keys.len() ==> keys[position_of(keys, k, from)] == k,
        forall|i: int| from <= i < position_of(keys, k, from) ==> keys[i] != k,
    decreases keys.len() - from,
{
    if from < keys.len() && keys[from] != k {
        lemma_position_of(keys, k, from + 1);
    }
}

/// Building keeps a vocabulary well formed and only ever extends it, and the
/// expression it gives speaks of terms of the vocabulary only.
pub proof fn lemma_build(tree: Syntax, q: Seq<char>, ts: Seq<Token>, exact: bool, v: Vocabulary)
    requires
        v.wf(ts.len()),
        atoms_within(tree, ts),
    ensures
        build(tree, q, ts, exact, v).1.wf(ts.len()),
        v.keys.len() <= build(tree, q, ts, exact, v).1.keys.len(),
        build(tree, q, ts, exact, v).0 matches Some(e) ==> within(
            e,
            build(tree, q, ts, exact, v).1.keys.len(),
        ),
    decreases tree,
{
    match tree {
        Syntax::Atom { token, negated } => {
            match atom_key(q, ts, token, exact) {
                None => {},
                Some(k) => {
                    lemma_position_of(v.keys, k, 0);
                },
            }
        },
        Syntax::And(l, r) => {
            lemma_build(*l, q, ts, exact, v);
            let (a, v1) = build(*l, q, ts, exact, v);
            lemma_build(*r, q, ts, exact, v1);
            let (b, v2) = build(*r, q, ts, exact, v1);
            if let Some(x) = a {
                lemma_within_grows(x, v1.keys.len(), v2.keys.len());
            }
        },
        Syntax::Or(l, r) => {
            lemma_build(*l, q, ts, exact, v);
            let (a, v1) = build(*l, q, ts, exact, v);
            lemma_build(*r, q, ts, exact, v1);
            let (b, v2) = build(*r, q, ts, exact, v1);
            if let Some(x) = a {
                lemma_within_grows(x, v1.keys.len(), v2.keys.len());
            }
        },
    }
}

/// Building only adds keys: the keys that were there stay where they are.
pub proof fn lemma_build_extends(tree: Syntax, q: Seq<char>, ts: Seq<Token>, exact: bool, v: Vocabulary)
    ensures
        v.keys.len() <= build(tree, q, ts, exact, v).1.keys.len(),
        forall|i: int|
            0 <= i < v.keys.len() ==> build(tree, q, ts, exact, v).1.keys[i] == #[trigger] v.keys[i],
    decreases tree,
{
    match tree {
        Syntax::Atom { token, negated } => {},
        Syntax::And(l, r) => {
            lemma_build_extends(*l, q, ts, exact, v);
            lemma_build_extends(*r, q, ts, exact, build(*l, q, ts, exact, v).1);
        },
        Syntax::Or(l, r) => {
            lemma_build_extends(*l, q, ts, exact, v);
            lemma_build_extends(*r, q, ts, exact, build(*l, q, ts, exact, v).1);
        },
    }
}

/// A key keeps its position when keys are added behind.
proof fn lemma_position_stays(a: Seq<Seq<char>>, b: Seq<Seq<char>>, k: Seq<char>)
    requires
        a.len() <= b.len(),
        forall|i: int| 0 <= i < a.len() ==> b[i] == #[trigger] a[i],
        position_of(a, k, 0) < a.len(),
    ensures
        position_of(b, k, 0) == position_of(a, k, 0),
{
    lemma_position_of(a, k, 0);
    lemma_position_of(b, k, 0);
    let i = position_of(a, k, 0);
    let j = position_of(b, k, 0);
    assert(a[i] == k);
    assert(b[i] == a[i]);
    if j < i {
        assert(b[j] == a[j]);
    }
}

/// A word that the query negates is excluded by its expression: where the
/// tree holds the atom of a token negated, and the token has a key, the
/// expression built excludes the term of that key.
pub proof fn lemma_negated_atom_is_excluded(
    tree: Syntax,
    q: Seq<char>,
    ts: Seq<Token>,
    exact: bool,
    v: Vocabulary,
    token: usize,
)
    requires
        negates(tree, token),
        atom_key(q, ts, token, exact) is Some,
    ensures
        ({
            let (e, w) = build(tree, q, ts, exact, v);
            let at = position_of(w.keys, atom_key(q, ts, token, exact)->Some_0, 0);
            &&& at < w.keys.len()
            &&& e matches Some(x) && x.excludes(at as usize)
        }),
    decreases tree,
{
    let k = atom_key(q, ts, token, exact)->Some_0;
    match tree {
        Syntax::Atom { token: t, negated } => {
            let i = position_of(v.keys, k, 0);
            lemma_position_of(v.keys, k, 0);
            if i >= v.keys.len() {
                let more = v.keys.push(k);
                lemma_position_of(more, k, 0);
                let j = position_of(more, k, 0);
                if j < v.keys.len() {
                    assert(more[j] == v.keys[j]);
                }
                assert(more[v.keys.len() as int] == k);
            }
        },
        Syntax::And(l, r) => {
            let (a, v1) = build(*l, q, ts, exact, v);
            let (b, v2) = build(*r, q, ts, exact, v1);
            if negates(*l, token) {
                lemma_negated_atom_is_excluded(*l, q, ts, exact, v, token);
                lemma_build_extends(*r, q, ts, exact, v1);
                lemma_position_stays(v1.keys, v2.keys, k);
            } else {
                lemma_negated_atom_is_excluded(*r, q, ts, exact, v1, token);
            }
        },
        Syntax::Or(l, r) => {
            let (a, v1) = build(*l, q, ts, exact, v);
            let (b, v2) = build(*r, q, ts, exact, v1);
            if negates(*l, token) {
                lemma_negated_atom_is_excluded(*l, q, ts, exact, v, token);
                lemma_build_extends(*r, q, ts, exact, v1);
                lemma_position_stays(v1.keys, v2.keys, k);
            } else {
                lemma_negated_atom_is_excluded(*r, q, ts, exact, v1, token);
            }
        },
    }
}

/// A query that negates a word has a plan, and its expression excludes the
/// term of that word.
pub proof fn lemma_negated_word_is_excluded(query: Seq<char>, exact: bool, token: usize)
    requires
        parse_tokens(tokens_of(query)) matches Ok(tree) && negates(tree, token),
        atom_key(query, tokens_of(query), token, exact) is Some,
    ensures
        planned(query, exact) matches Ok((ast, v)) && ast.excludes(
            position_of(v.keys, atom_key(query, tokens_of(query), token, exact)->Some_0, 0) as usize,
        ),
{
    let ts = tokens_of(query);
    let tree = parse_tokens(ts)->Ok_0;
    lemma_negated_atom_is_excluded(
        tree,
        query,
        ts,
        exact,
        Vocabulary { keys: seq![], firsts: seq![] },
        token,
    );
}

/// A query in which `NOT` stands before a word has a plan, if it parses and
/// the word has a key, and its expression excludes the term of that word.
pub proof fn lemma_word_behind_not_is_excluded(query: Seq<char>, exact: bool, p: int)
    requires
        parse_tokens(tokens_of(query)) is Ok,
        0 < p,
        is_atom_token(tokens_of(query), p),
        tokens_of(query)[p - 1].kind is Not,
        atom_key(query, tokens_of(query), p as usize, exact) is Some,
    ensures
        planned(query, exact) matches Ok((ast, v)) && ast.excludes(
            position_of(v.keys, atom_key(query, tokens_of(query), p as usize, exact)->Some_0, 0) as usize,
        ),
{
    lemma_word_behind_not_is_negated(tokens_of(query), p);
    lemma_negated_word_is_excluded(query, exact, p as usize);
}

fn find_key(keys: &Vec<Vec<char>>, k: &Vec<char>) -> (i: usize)
    ensures
        i == position_of(keys@.map_values(|k: Vec<char>| k@), k@, 0),
        i <= keys.len(),
{
    let ghost all = keys@.map_values(|k: Vec<char>| k@);
    let mut i: usize = 0;
    while i < keys.len()
        invariant
            i <= keys.len(),
            all == keys@.map_values(|k: Vec<char>| k@),
            position_of(all, k@, 0) == position_of(all, k@, i as int),
        decreases keys.len() - i,
    {
        assert(all[i as int] == keys@[i as int]@);
        if same_chars(&keys[i], k) {
            return i;
        }
        i += 1;
    }
    i
}

fn join_operands(and: bool, a: Option<Expr>, b: Option<Expr>) -> (out: Option<Expr>)
    ensures
        out == join(and, a, b),
{
    match a {
        Some(x) => match b {
            Some(y) => Some(
                if and {
                    Expr::And(Box::new(x), Box::new(y))
                } else {
                    Expr::Or(Box::new(x), Box::new(y))
                },
            ),
            None => Some(x),
        },
        None => b,
    }
}

fn build_expr(tree: &Syntax, q: &Vec<char>, ts: &Vec<Token>, exact: bool, words: &mut Words) -> (out:
    Option<Expr>)
    requires
        atoms_within(*tree, ts@),
        spans_within(ts@, q@.len()),
    ensures
        (out, final(words)@) == build(*tree, q@, ts@, exact, old(words)@),
    decreases tree,
{
    match tree {
        Syntax::Atom { token, negated } => {
            let t = ts[*token];
            let text = slice_chars(q, t.start, t.end);
            let quoted = match t.kind {
                TokenKind::Quoted => true,
                _ => false,
            };
            let key = key_of(&text, quoted, exact);
            assert(key_view(key) == atom_key(q@, ts@, *token, exact));
            match key {
                None => None,
                Some(k) => {
                    let i = find_key(&words.keys, &k);
                    let e = Expr::Term { index: i, excluded: *negated };
                    if i >= words.keys.len() {
                        let ghost before = words@;
                        let ghost kv = k@;
                        words.keys.push(k);
                        words.firsts.push(*token);
                        assert(words@.keys =~= before.keys.push(kv));
                    }
                    Some(e)
                },
            }
        },
        Syntax::And(l, r) => {
            let a = build_expr(l, q, ts, exact, words);
            let b = build_expr(r, q, ts, exact, words);
            join_operands(true, a, b)
        },
        Syntax::Or(l, r) => {
            let a = build_expr(l, q, ts, exact, words);
            let b = build_expr(r, q, ts, exact, words);
            join_operands(false, a, b)
        },
    }
}

/// The texts of the terms with the given indices, in the order of the
/// indices; an index that names no term is passed over.
pub open spec fn keywords_of(terms: Seq<Term>, indices: Seq<usize>) -> Seq<Seq<char>>
    decreases indices.len(),
{
    if indices.len() == 0 {
        seq![]
    } else {
        let rest = keywords_of(terms, indices.drop_last());
        if indices.last() < terms.len() {
            rest.push(terms[indices.last() as int].text@)
        } else {
            rest
        }
    }
}

impl QueryPlan {
    /// The plan holds the expression `ast` and describes the terms of `v`:
    /// term `i` has index `i`, the key `v.keys[i]`, the text of the token that
    /// brought the key, and the flags that the expression gives it.
    pub open spec fn realizes(&self, ast: Expr, v: Vocabulary, query: Seq<char>) -> bool {
        &&& self.ast == ast
        &&& self.terms@.len() == v.keys.len()
        &&& forall|i: int|
            0 <= i < self.terms@.len() ==> {
                let t = #[trigger] self.terms@[i];
                &&& t.index == i
                &&& t.stem@ == v.keys[i]
                &&& t.text@ == token_text(query, tokens_of(query)[v.firsts[i] as int])
                &&& t.required == ast.demands(i as usize)
                &&& t.excluded == ast.excludes(i as usize)
            }
    }

    /// Every index in the expression names a term, and each term stands at
    /// the position of its index.
    pub open spec fn wf(&self) -> bool {
        &&& within(self.ast, self.terms@.len())
        &&& forall|i: int| 0 <= i < self.terms@.len() ==> (#[trigger] self.terms@[i]).index == i
    }

    /// The texts of the terms with the given indices, as the query wrote
    /// them: the matched keywords of a block.
    pub fn matched_keywords(&self, indices: &Vec<usize>) -> (out: Vec<String>)
        ensures
            texts(out@) == keywords_of(self.terms@, indices@),
    {
        let mut out: Vec<String> = Vec::new();
        let mut i: usize = 0;
        proof {
            assert(indices@.take(0) =~= Seq::<usize>::empty());
            assert(texts(out@) =~= Seq::<Seq<char>>::empty());
        }
        while i < indices.len()
            invariant
                i <= indices.len(),
                texts(out@) == keywords_of(self.terms@, indices@.take(i as int)),
            decreases indices.len() - i,
        {
            let t = indices[i];
            let ghost before = texts(out@);
            proof {
                assert(indices@.take(i + 1).drop_last() =~= indices@.take(i as int));
                assert(indices@.take(i + 1).last() == t);
            }
            if t < self.terms.len() {
                out.push(self.terms[t].text.clone());
                assert(texts(out@) =~= before.push(self.terms@[t as int].text@));
            }
            i += 1;
        }
        assert(indices@.take(indices.len() as int) =~= indices@);
        out
    }

    /// The index of the term with key `key`, if the plan has one.
    pub fn term_index(&self, key: &str) -> (out: Option<usize>)
        ensures
            match out {
                Some(i) => i < self.terms@.len() && self.terms@[i as int].stem@ == key@ && forall|
                    j: int,
                |
                    0 <= j < i ==> self.terms@[j].stem@ != key@,
                None => forall|j: int| 0 <= j < self.terms@.len() ==> self.terms@[j].stem@ != key@,
            },
    {
        let wanted = chars_of(key);
        let mut i: usize = 0;
        while i < self.terms.len()
            invariant
                i <= self.terms.len(),
                wanted@ == key@,
                forall|j: int| 0 <= j < i ==> self.terms@[j].stem@ != key@,
            decreases self.terms.len() - i,
        {
            let have = chars_of(self.terms[i].stem.as_str());
            if same_chars(&have, &wanted) {
                return Some(i);
            }
            i += 1;
        }
        None
    }
}

/// Parses a query into a plan. The outcome is the one that `planned` gives:
/// the same error, or a plan that realizes the planned expression and
/// vocabulary.
pub fn create_query_plan(query: &str, exact: bool) -> (r: Result<QueryPlan, ParseError>)
    ensures
        match r {
            Ok(plan) => planned(query@, exact) matches Ok((ast, v)) && plan.exact == exact
                && plan.realizes(ast, v, query@) && plan.wf(),
            Err(e) => planned(query@, exact) == Err::<(Expr, Vocabulary), ParseError>(e),
        },
{
    let q = chars_of(query);
    let ts = tokenize(&q);
    match parse(&ts) {
        Err(e) => Err(e),
        Ok(tree) => {
            let mut words = Words { keys: Vec::new(), firsts: Vec::new() };
            let ghost start = Vocabulary { keys: seq![], firsts: seq![] };
            assert(words@.keys =~= start.keys);
            proof {
                lemma_build(tree, q@, ts@, exact, start);
            }
            match build_expr(&tree, &q, &ts, exact, &mut words) {
                None => Err(ParseError::EmptyExpression),
                Some(ast) => {
                    let ghost v = words@;
                    let mut terms: Vec<Term> = Vec::new();
                    let mut i: usize = 0;
                    while i < words.keys.len()
                        invariant
                            i <= words.keys.len(),
                            v == words@,
                            v.wf(ts@.len()),
                            ts@ == tokens_of(q@),
                            q@ == query@,
                            spans_within(ts@, q@.len()),
                            terms@.len() == i,
                            forall|j: int|
                                0 <= j < i ==> {
                                    let t = #[trigger] terms@[j];
                                    &&& t.index == j
                                    &&& t.stem@ == v.keys[j]
                                    &&& t.text@ == token_text(q@, ts@[v.firsts[j] as int])
                                    &&& t.required == ast.demands(j as usize)
                                    &&& t.excluded == ast.excludes(j as usize)
                                },
                        decreases words.keys.len() - i,
                    {
                        assert(v.keys[i as int] == words.keys@[i as int]@);
                        assert(v.firsts[i as int] < ts@.len());
                        let tok = ts[words.firsts[i]];
                        let text = slice_chars(&q, tok.start, tok.end);
                        let term = Term {
                            text: string_of(&text),
                            stem: string_of(&words.keys[i]),
                            index: i,
                            required: ast.is_required(i),
                            excluded: ast.is_excluded(i),
                        };
                        terms.push(term);
                        i += 1;
                    }
                    Ok(QueryPlan { ast, terms, exact })
                },
            }
        },
    }
}

/// The pattern text for a key: the key with its meta characters escaped,
/// between word boundaries in exact mode.
pub open spec fn pattern_source(key: Seq<char>, exact: bool) -> Seq<char> {
    if exact {
        seq!['\\', 'b'] + escaped(key) + seq!['\\', 'b']
    } else {
        escaped(key)
    }
}

/// The scan patterns of a plan: one entry for each term, in index order,
/// holding the pattern of the term's key and the term's index.
pub fn create_structured_patterns(plan: &QueryPlan) -> (out: Vec<(String, Vec<usize>)>)
    ensures
        out@.len() == plan.terms@.len(),
        forall|i: int|
            0 <= i < out@.len() ==> (#[trigger] out@[i]).0@ == pattern_source(
                plan.terms@[i].stem@,
                plan.exact,
            ) && out@[i].1@ == seq![plan.terms@[i].index],
{
    let mut out: Vec<(String, Vec<usize>)> = Vec::new();
    let mut i: usize = 0;
    while i < plan.terms.len()
        invariant
            i <= plan.terms.len(),
            out@.len() == i,
            forall|j: int|
                0 <= j < i ==> (#[trigger] out@[j]).0@ == pattern_source(
                    plan.terms@[j].stem@,
                    plan.exact,
                ) && out@[j].1@ == seq![plan.terms@[j].index],
        decreases plan.terms.len() - i,
    {
        let literal = escape(plan.terms[i].stem.as_str());
        let mut source = String::new();
        if plan.exact {
            source.push('\\');
            source.push('b');
            source.append(literal.as_str());
            source.push('\\');
            source.push('b');
            assert(source@ =~= pattern_source(plan.terms@[i as int].stem@, true));
        } else {
            source.append(literal.as_str());
            assert(source@ =~= pattern_source(plan.terms@[i as int].stem@, false));
        }
        let mut set: Vec<usize> = Vec::new();
        set.push(plan.terms[i].index);
        assert(set@ =~= seq![plan.terms@[i as int].index]);
        out.push((source, set));
        i += 1;
    }
    out
}

} // verus!
