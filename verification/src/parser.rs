//! The recursive-descent parser of the query grammar
//!
//! ```text
//! expr     := or_expr
//! or_expr  := and_expr ( OR and_expr )*
//! and_expr := unary ( AND? unary )*
//! unary    := NOT unary | atom
//! atom     := QUOTED | WORD | '(' expr ')'
//! ```
//!
//! Operators associate to the left; adjacent operands are joined by an
//! implicit AND; a negation in front of a group negates every atom in it.

use crate::lexer::{Token, TokenKind};
use vstd::prelude::*;

verus! {

/// Why a query could not be parsed.
#[derive(Clone, Copy, PartialEq, Eq, Structural, Debug)]
pub enum ParseError {
    /// There is no operand where the expression, or a group, should start.
    EmptyExpression,
    /// A parenthesis has no partner.
    UnbalancedParentheses,
    /// An operator is not followed by an operand.
    TrailingOperator,
    /// `AND` or `OR` has no operand in front of it.
    MissingOperand,
}

/// The syntax tree of a query. An atom names its token by position.
pub enum Syntax {
    Atom { token: usize, negated: bool },
    And(Box<Syntax>, Box<Syntax>),
    Or(Box<Syntax>, Box<Syntax>),
}

/// A tree together with the position of the first token after it.
pub type Parsed = Result<(Syntax, usize), ParseError>;

/// The same, with the position as a mathematical integer.
pub type SpecParsed = Result<(Syntax, int), ParseError>;

/// `AND`, `OR` or `NOT`.
pub open spec fn is_operator(k: TokenKind) -> bool {
    k is And || k is Or || k is Not
}

/// A token that an operand can start with.
pub open spec fn starts_operand(k: TokenKind) -> bool {
    k is Word || k is Quoted || k is Open || k is Not
}

/// The error for a missing operand at position `p`.
pub open spec fn operand_error(ts: Seq<Token>, p: int) -> ParseError {
    if 0 < p <= ts.len() && is_operator(ts[p - 1].kind) {
        ParseError::TrailingOperator
    } else if 0 <= p < ts.len() && (ts[p].kind is And || ts[p].kind is Or) {
        ParseError::MissingOperand
    } else if p == 0 && p < ts.len() && ts[p].kind is Close {
        ParseError::UnbalancedParentheses
    } else {
        ParseError::EmptyExpression
    }
}

/// `atom` at position `p`.
pub open spec fn parse_atom(ts: Seq<Token>, p: int, negated: bool) -> SpecParsed
    decreases ts.len() - p, 1int,
{
    if p < 0 || p >= ts.len() {
        Err(operand_error(ts, p))
    } else {
        match ts[p].kind {
            TokenKind::Word | TokenKind::Quoted => Ok(
                (Syntax::Atom { token: p as usize, negated }, p + 1),
            ),
            TokenKind::Open => match parse_or(ts, p + 1, negated) {
                Err(e) => Err(e),
                Ok((inner, q)) => if 0 <= q < ts.len() && ts[q].kind is Close {
                    Ok((inner, q + 1))
                } else {
                    Err(ParseError::UnbalancedParentheses)
                },
            },
            _ => Err(operand_error(ts, p)),
        }
    }
}

/// `unary` at position `p`.
pub open spec fn parse_unary(ts: Seq<Token>, p: int, negated: bool) -> SpecParsed
    decreases ts.len() - p, 2int,
{
    if 0 <= p < ts.len() && ts[p].kind is Not {
        parse_unary(ts, p + 1, true)
    } else {
        parse_atom(ts, p, negated)
    }
}

/// The rest of an `and_expr` whose operands so far make up `left`.
pub open spec fn and_tail(ts: Seq<Token>, left: Syntax, q: int, negated: bool) -> SpecParsed
    decreases ts.len() - q, 3int,
{
    if 0 <= q < ts.len() && ts[q].kind is And {
        match parse_unary(ts, q + 1, negated) {
            Err(e) => Err(e),
            Ok((right, r)) => if q < r <= ts.len() {
                and_tail(ts, Syntax::And(Box::new(left), Box::new(right)), r, negated)
            } else {
                Err(ParseError::EmptyExpression)
            },
        }
    } else if 0 <= q < ts.len() && starts_operand(ts[q].kind) {
        match parse_unary(ts, q, negated) {
            Err(e) => Err(e),
            Ok((right, r)) => if q < r <= ts.len() {
                and_tail(ts, Syntax::And(Box::new(left), Box::new(right)), r, negated)
            } else {
                Err(ParseError::EmptyExpression)
            },
        }
    } else {
        Ok((left, q))
    }
}

/// `and_expr` at position `p`.
pub open spec fn parse_and(ts: Seq<Token>, p: int, negated: bool) -> SpecParsed
    decreases ts.len() - p, 4int,
{
    match parse_unary(ts, p, negated) {
        Err(e) => Err(e),
        Ok((left, q)) => if p < q <= ts.len() {
            and_tail(ts, left, q, negated)
        } else {
            Err(ParseError::EmptyExpression)
        },
    }
}

/// The rest of an `or_expr` whose operands so far make up `left`.
pub open spec fn or_tail(ts: Seq<Token>, left: Syntax, q: int, negated: bool) -> SpecParsed
    decreases ts.len() - q, 5int,
{
    if 0 <= q < ts.len() && ts[q].kind is Or {
        match parse_and(ts, q + 1, negated) {
            Err(e) => Err(e),
            Ok((right, r)) => if q < r <= ts.len() {
                or_tail(ts, Syntax::Or(Box::new(left), Box::new(right)), r, negated)
            } else {
                Err(ParseError::EmptyExpression)
            },
        }
    } else {
        Ok((left, q))
    }
}

/// `or_expr` at position `p`.
pub open spec fn parse_or(ts: Seq<Token>, p: int, negated: bool) -> SpecParsed
    decreases ts.len() - p, 6int,
{
    match parse_and(ts, p, negated) {
        Err(e) => Err(e),
        Ok((left, q)) => if p < q <= ts.len() {
            or_tail(ts, left, q, negated)
        } else {
            Err(ParseError::EmptyExpression)
        },
    }
}

/// The syntax tree of a whole token sequence. What is left over after a
/// complete expression can only be a closing parenthesis without a partner.
pub open spec fn parse_tokens(ts: Seq<Token>) -> Result<Syntax, ParseError> {
    match parse_or(ts, 0, false) {
        Err(e) => Err(e),
        Ok((tree, q)) => if q == ts.len() {
            Ok(tree)
        } else {
            Err(ParseError::UnbalancedParentheses)
        },
    }
}

/// The tree holds the atom of the token, negated.
pub open spec fn negates(tree: Syntax, token: usize) -> bool
    decreases tree,
{
    match tree {
        Syntax::Atom { token: t, negated } => negated && t == token,
        Syntax::And(l, r) => negates(*l, token) || negates(*r, token),
        Syntax::Or(l, r) => negates(*l, token) || negates(*r, token),
    }
}

/// The token at position `i` is a word or a quoted text.
pub open spec fn is_atom_token(ts: Seq<Token>, i: int) -> bool {
    0 <= i < ts.len() && (ts[i].kind is Word || ts[i].kind is Quoted)
}

/// The tree of the tokens `lo..hi` negates what the tokens negate: every
/// word among them where all are negated, and else every word behind `NOT`.
pub open spec fn negations_kept(tree: Syntax, ts: Seq<Token>, lo: int, hi: int, negated: bool) -> bool {
    forall|i: int|
        lo <= i < hi && #[trigger] is_atom_token(ts, i) && (negated || (lo < i && ts[i - 1].kind is Not))
            ==> negates(tree, i as usize)
}

/// The tokens `lo..hi` are some, and the last of them is no `NOT`.
pub open spec fn complete(ts: Seq<Token>, lo: int, hi: int) -> bool {
    0 <= lo < hi <= ts.len() && !(ts[hi - 1].kind is Not)
}

proof fn lemma_atom_negations(ts: Seq<Token>, p: int, negated: bool)
    requires
        parse_atom(ts, p, negated) is Ok,
    ensures
        complete(ts, p, parse_atom(ts, p, negated)->Ok_0.1),
        negations_kept(
            parse_atom(ts, p, negated)->Ok_0.0,
            ts,
            p,
            parse_atom(ts, p, negated)->Ok_0.1,
            negated,
        ),
    decreases ts.len() - p, 1int,
{
    match ts[p].kind {
        TokenKind::Open => {
            lemma_or_negations(ts, p + 1, negated);
        },
        _ => {},
    }
}

proof fn lemma_unary_negations(ts: Seq<Token>, p: int, negated: bool)
    requires
        parse_unary(ts, p, negated) is Ok,
    ensures
        complete(ts, p, parse_unary(ts, p, negated)->Ok_0.1),
        negations_kept(
            parse_unary(ts, p, negated)->Ok_0.0,
            ts,
            p,
            parse_unary(ts, p, negated)->Ok_0.1,
            negated,
        ),
    decreases ts.len() - p, 2int,
{
    if 0 <= p < ts.len() && ts[p].kind is Not {
        lemma_unary_negations(ts, p + 1, true);
    } else {
        lemma_atom_negations(ts, p, negated);
    }
}

proof fn lemma_and_tail_negations(ts: Seq<Token>, left: Syntax, lo: int, q: int, negated: bool)
    requires
        complete(ts, lo, q),
        negations_kept(left, ts, lo, q, negated),
        and_tail(ts, left, q, negated) is Ok,
    ensures
        complete(ts, lo, and_tail(ts, left, q, negated)->Ok_0.1),
        negations_kept(
            and_tail(ts, left, q, negated)->Ok_0.0,
            ts,
            lo,
            and_tail(ts, left, q, negated)->Ok_0.1,
            negated,
        ),
    decreases ts.len() - q, 3int,
{
    if 0 <= q < ts.len() && (ts[q].kind is And || starts_operand(ts[q].kind)) {
        let from = if ts[q].kind is And {
            q + 1
        } else {
            q
        };
        lemma_unary_negations(ts, from, negated);
        let (right, r) = parse_unary(ts, from, negated)->Ok_0;
        let both = Syntax::And(Box::new(left), Box::new(right));
        assert forall|i: int|
            lo <= i < r && #[trigger] is_atom_token(ts, i) && (negated || (lo < i && ts[i - 1].kind
                is Not)) implies negates(both, i as usize) by {
            if i < q {
                assert(negates(left, i as usize));
            } else {
                assert(negates(right, i as usize));
            }
        }
        lemma_and_tail_negations(ts, both, lo, r, negated);
    }
}

proof fn lemma_and_negations(ts: Seq<Token>, p: int, negated: bool)
    requires
        parse_and(ts, p, negated) is Ok,
    ensures
        complete(ts, p, parse_and(ts, p, negated)->Ok_0.1),
        negations_kept(
            parse_and(ts, p, negated)->Ok_0.0,
            ts,
            p,
            parse_and(ts, p, negated)->Ok_0.1,
            negated,
        ),
    decreases ts.len() - p, 4int,
{
    lemma_unary_negations(ts, p, negated);
    let (left, q) = parse_unary(ts, p, negated)->Ok_0;
    lemma_and_tail_negations(ts, left, p, q, negated);
}

proof fn lemma_or_tail_negations(ts: Seq<Token>, left: Syntax, lo: int, q: int, negated: bool)
    requires
        complete(ts, lo, q),
        negations_kept(left, ts, lo, q, negated),
        or_tail(ts, left, q, negated) is Ok,
    ensures
        complete(ts, lo, or_tail(ts, left, q, negated)->Ok_0.1),
        negations_kept(
            or_tail(ts, left, q, negated)->Ok_0.0,
            ts,
            lo,
            or_tail(ts, left, q, negated)->Ok_0.1,
            negated,
        ),
    decreases ts.len() - q, 5int,
{
    if 0 <= q < ts.len() && ts[q].kind is Or {
        lemma_and_negations(ts, q + 1, negated);
        let (right, r) = parse_and(ts, q + 1, negated)->Ok_0;
        let both = Syntax::Or(Box::new(left), Box::new(right));
        assert forall|i: int|
            lo <= i < r && #[trigger] is_atom_token(ts, i) && (negated || (lo < i && ts[i - 1].kind
                is Not)) implies negates(both, i as usize) by {
            if i < q {
                assert(negates(left, i as usize));
            } else {
                assert(negates(right, i as usize));
            }
        }
        lemma_or_tail_negations(ts, both, lo, r, negated);
    }
}

proof fn lemma_or_negations(ts: Seq<Token>, p: int, negated: bool)
    requires
        parse_or(ts, p, negated) is Ok,
    ensures
        complete(ts, p, parse_or(ts, p, negated)->Ok_0.1),
        negations_kept(
            parse_or(ts, p, negated)->Ok_0.0,
            ts,
            p,
            parse_or(ts, p, negated)->Ok_0.1,
            negated,
        ),
    decreases ts.len() - p, 6int,
{
    lemma_and_negations(ts, p, negated);
    let (left, q) = parse_and(ts, p, negated)->Ok_0;
    lemma_or_tail_negations(ts, left, p, q, negated);
}

/// A word that stands behind `NOT` is a negated atom of the tree of the
/// query.
pub proof fn lemma_word_behind_not_is_negated(ts: Seq<Token>, p: int)
    requires
        parse_tokens(ts) is Ok,
        0 < p,
        is_atom_token(ts, p),
        ts[p - 1].kind is Not,
    ensures
        negates(parse_tokens(ts)->Ok_0, p as usize),
{
    lemma_or_negations(ts, 0, false);
}

/// The executable outcome `r` is the outcome `s` of the grammar.
pub open spec fn agrees(r: Parsed, s: SpecParsed) -> bool {
    match r {
        Ok((tree, q)) => s == Ok::<(Syntax, int), ParseError>((tree, q as int)),
        Err(e) => s == Err::<(Syntax, int), ParseError>(e),
    }
}

/// Every atom of the tree names a word or quoted token of `ts`.
pub open spec fn atoms_within(tree: Syntax, ts: Seq<Token>) -> bool
    decreases tree,
{
    match tree {
        Syntax::Atom { token, negated } => token < ts.len() && (ts[token as int].kind is Word
            || ts[token as int].kind is Quoted),
        Syntax::And(l, r) => atoms_within(*l, ts) && atoms_within(*r, ts),
        Syntax::Or(l, r) => atoms_within(*l, ts) && atoms_within(*r, ts),
    }
}

fn operand_failure(ts: &Vec<Token>, p: usize) -> (e: ParseError)
    ensures
        e == operand_error(ts@, p as int),
{
    if 0 < p && p <= ts.len() && (match ts[p - 1].kind {
        TokenKind::And | TokenKind::Or | TokenKind::Not => true,
        _ => false,
    }) {
        ParseError::TrailingOperator
    } else if p < ts.len() && (match ts[p].kind {
        TokenKind::And | TokenKind::Or => true,
        _ => false,
    }) {
        ParseError::MissingOperand
    } else if p < ts.len() && p == 0 && (match ts[p].kind {
        TokenKind::Close => true,
        _ => false,
    }) {
        ParseError::UnbalancedParentheses
    } else {
        ParseError::EmptyExpression
    }
}

fn atom(ts: &Vec<Token>, p: usize, negated: bool) -> (r: Parsed)
    ensures
        agrees(r, parse_atom(ts@, p as int, negated)),
        r matches Ok((tree, q)) ==> p < q <= ts.len() && atoms_within(tree, ts@),
    decreases ts.len() - p, 1int,
{
    if p >= ts.len() {
        return Err(operand_failure(ts, p));
    }
    match ts[p].kind {
        TokenKind::Word | TokenKind::Quoted => Ok((Syntax::Atom { token: p, negated }, p + 1)),
        TokenKind::Open => match or_expr(ts, p + 1, negated) {
            Err(e) => Err(e),
            Ok((inner, q)) => {
                if q < ts.len() && (match ts[q].kind {
                    TokenKind::Close => true,
                    _ => false,
                }) {
                    Ok((inner, q + 1))
                } else {
                    Err(ParseError::UnbalancedParentheses)
                }
            },
        },
        _ => Err(operand_failure(ts, p)),
    }
}

fn unary(ts: &Vec<Token>, p: usize, negated: bool) -> (r: Parsed)
    ensures
        agrees(r, parse_unary(ts@, p as int, negated)),
        r matches Ok((tree, q)) ==> p < q <= ts.len() && atoms_within(tree, ts@),
    decreases ts.len() - p, 2int,
{
    if p < ts.len() && (match ts[p].kind {
        TokenKind::Not => true,
        _ => false,
    }) {
        unary(ts, p + 1, true)
    } else {
        atom(ts, p, negated)
    }
}

fn and_rest(ts: &Vec<Token>, left: Syntax, q: usize, negated: bool) -> (r: Parsed)
    requires
        q <= ts.len(),
        atoms_within(left, ts@),
    ensures
        agrees(r, and_tail(ts@, left, q as int, negated)),
        r matches Ok((tree, end)) ==> q <= end <= ts.len() && atoms_within(tree, ts@),
    decreases ts.len() - q, 3int,
{
    if q < ts.len() && (match ts[q].kind {
        TokenKind::And => true,
        _ => false,
    }) {
        match unary(ts, q + 1, negated) {
            Err(e) => Err(e),
            Ok((right, r)) => and_rest(
                ts,
                Syntax::And(Box::new(left), Box::new(right)),
                r,
                negated,
            ),
        }
    } else if q < ts.len() && (match ts[q].kind {
        TokenKind::Word | TokenKind::Quoted | TokenKind::Open | TokenKind::Not => true,
        _ => false,
    }) {
        match unary(ts, q, negated) {
            Err(e) => Err(e),
            Ok((right, r)) => and_rest(
                ts,
                Syntax::And(Box::new(left), Box::new(right)),
                r,
                negated,
            ),
        }
    } else {
        Ok((left, q))
    }
}

fn and_expr(ts: &Vec<Token>, p: usize, negated: bool) -> (r: Parsed)
    ensures
        agrees(r, parse_and(ts@, p as int, negated)),
        r matches Ok((tree, q)) ==> p < q <= ts.len() && atoms_within(tree, ts@),
    decreases ts.len() - p, 4int,
{
    match unary(ts, p, negated) {
        Err(e) => Err(e),
        Ok((left, q)) => and_rest(ts, left, q, negated),
    }
}

fn or_rest(ts: &Vec<Token>, left: Syntax, q: usize, negated: bool) -> (r: Parsed)
    requires
        q <= ts.len(),
        atoms_within(left, ts@),
    ensures
        agrees(r, or_tail(ts@, left, q as int, negated)),
        r matches Ok((tree, end)) ==> q <= end <= ts.len() && atoms_within(tree, ts@),
    decreases ts.len() - q, 5int,
{
    if q < ts.len() && (match ts[q].kind {
        TokenKind::Or => true,
        _ => false,
    }) {
        match and_expr(ts, q + 1, negated) {
            Err(e) => Err(e),
            Ok((right, r)) => or_rest(ts, Syntax::Or(Box::new(left), Box::new(right)), r, negated),
        }
    } else {
        Ok((left, q))
    }
}

fn or_expr(ts: &Vec<Token>, p: usize, negated: bool) -> (r: Parsed)
    ensures
        agrees(r, parse_or(ts@, p as int, negated)),
        r matches Ok((tree, q)) ==> p < q <= ts.len() && atoms_within(tree, ts@),
    decreases ts.len() - p, 6int,
{
    match and_expr(ts, p, negated) {
        Err(e) => Err(e),
        Ok((left, q)) => or_rest(ts, left, q, negated),
    }
}

/// Parses a token sequence into a syntax tree.
pub fn parse(ts: &Vec<Token>) -> (r: Result<Syntax, ParseError>)
    ensures
        r == parse_tokens(ts@),
        r matches Ok(tree) ==> atoms_within(tree, ts@),
{
    match or_expr(ts, 0, false) {
        Err(e) => Err(e),
        Ok((tree, q)) => {
            if q == ts.len() {
                Ok(tree)
            } else {
                Err(ParseError::UnbalancedParentheses)
            }
        },
    }
}

} // verus!
