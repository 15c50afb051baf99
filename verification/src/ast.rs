//! The query expression and its evaluation against a set of matched terms.

use crate::hits::member;
use vstd::prelude::*;

verus! {

/// A boolean expression over term indices.
pub enum Expr {
    /// The term with this index; an excluded term must be absent.
    Term { index: usize, excluded: bool },
    /// Both sides hold.
    And(Box<Expr>, Box<Expr>),
    /// One side holds.
    Or(Box<Expr>, Box<Expr>),
}

impl Expr {
    /// The expression holds of the matched terms when exclusions are left
    /// aside: an excluded term asks for nothing.
    pub open spec fn holds(self, matched: Seq<usize>) -> bool
        decreases self,
    {
        match self {
            Expr::Term { index, excluded } => excluded || matched.contains(index),
            Expr::And(l, r) => l.holds(matched) && r.holds(matched),
            Expr::Or(l, r) => l.holds(matched) || r.holds(matched),
        }
    }

    /// The expression excludes the term with index `i` somewhere.
    pub open spec fn excludes(self, i: usize) -> bool
        decreases self,
    {
        match self {
            Expr::Term { index, excluded } => excluded && index == i,
            Expr::And(l, r) => l.excludes(i) || r.excludes(i),
            Expr::Or(l, r) => l.excludes(i) || r.excludes(i),
        }
    }

    /// Every set of terms of which the expression holds contains the term `i`.
    pub open spec fn demands(self, i: usize) -> bool
        decreases self,
    {
        match self {
            Expr::Term { index, excluded } => !excluded && index == i,
            Expr::And(l, r) => l.demands(i) || r.demands(i),
            Expr::Or(l, r) => l.demands(i) && r.demands(i),
        }
    }

    /// Some excluded term is among the matched terms.
    pub open spec fn barred(self, matched: Seq<usize>) -> bool
        decreases self,
    {
        match self {
            Expr::Term { index, excluded } => excluded && matched.contains(index),
            Expr::And(l, r) => l.barred(matched) || r.barred(matched),
            Expr::Or(l, r) => l.barred(matched) || r.barred(matched),
        }
    }

    /// The value of the expression on a set of matched terms. With exclusions
    /// honoured, one excluded term among them makes the whole expression false.
    pub open spec fn value(self, matched: Seq<usize>, honor_exclusions: bool) -> bool {
        !(honor_exclusions && self.barred(matched)) && self.holds(matched)
    }

    fn holds_of(&self, matched: &Vec<usize>) -> (r: bool)
        ensures
            r == self.holds(matched@),
        decreases self,
    {
        match self {
            Expr::Term { index, excluded } => *excluded || member(matched, *index),
            Expr::And(l, r) => l.holds_of(matched) && r.holds_of(matched),
            Expr::Or(l, r) => l.holds_of(matched) || r.holds_of(matched),
        }
    }

    fn barred_by(&self, matched: &Vec<usize>) -> (r: bool)
        ensures
            r == self.barred(matched@),
        decreases self,
    {
        match self {
            Expr::Term { index, excluded } => *excluded && member(matched, *index),
            Expr::And(l, r) => l.barred_by(matched) || r.barred_by(matched),
            Expr::Or(l, r) => l.barred_by(matched) || r.barred_by(matched),
        }
    }

    /// Evaluates the expression on the matched terms.
    pub fn evaluate(&self, matched: &Vec<usize>, honor_exclusions: bool) -> (r: bool)
        ensures
            r == self.value(matched@, honor_exclusions),
    {
        if honor_exclusions && self.barred_by(matched) {
            false
        } else {
            self.holds_of(matched)
        }
    }

    /// Evaluates the expression with exclusions honoured.
    pub fn matches(&self, matched: &Vec<usize>) -> (r: bool)
        ensures
            r == self.value(matched@, true),
    {
        self.evaluate(matched, true)
    }

    /// Would the expression match if its negations were ignored?
    pub fn matches_ignoring_exclusions(&self, matched: &Vec<usize>) -> (r: bool)
        ensures
            r == self.value(matched@, false),
    {
        self.evaluate(matched, false)
    }

    /// Whether the expression excludes the term `i`.
    pub fn is_excluded(&self, i: usize) -> (r: bool)
        ensures
            r == self.excludes(i),
        decreases self,
    {
        match self {
            Expr::Term { index, excluded } => *excluded && *index == i,
            Expr::And(l, r) => l.is_excluded(i) || r.is_excluded(i),
            Expr::Or(l, r) => l.is_excluded(i) || r.is_excluded(i),
        }
    }

    /// Whether the expression cannot hold without the term `i`.
    pub fn is_required(&self, i: usize) -> (r: bool)
        ensures
            r == self.demands(i),
        decreases self,
    {
        match self {
            Expr::Term { index, excluded } => !*excluded && *index == i,
            Expr::And(l, r) => l.is_required(i) || r.is_required(i),
            Expr::Or(l, r) => l.is_required(i) && r.is_required(i),
        }
    }
}

/// An excluded term that is matched bars the expression.
pub proof fn lemma_excluded_term_bars(e: Expr, i: usize, matched: Seq<usize>)
    requires
        e.excludes(i),
        matched.contains(i),
    ensures
        e.barred(matched),
        !e.value(matched, true),
    decreases e,
{
    match e {
        Expr::Term { index, excluded } => {},
        Expr::And(l, r) => {
            if l.excludes(i) {
                lemma_excluded_term_bars(*l, i, matched);
            } else {
                lemma_excluded_term_bars(*r, i, matched);
            }
        },
        Expr::Or(l, r) => {
            if l.excludes(i) {
                lemma_excluded_term_bars(*l, i, matched);
            } else {
                lemma_excluded_term_bars(*r, i, matched);
            }
        },
    }
}

/// Adding `NOT t` to a query makes it false on every set of matched terms that
/// contains `t`, whatever the query was.
pub proof fn lemma_added_exclusion_rejects(query: Expr, t: usize, matched: Seq<usize>)
    requires
        matched.contains(t),
    ensures
        !Expr::And(
            Box::new(query),
            Box::new(Expr::Term { index: t, excluded: true }),
        ).value(matched, true),
{
    let added = Expr::Term { index: t, excluded: true };
    assert(added.barred(matched));
}

/// A term that the expression demands is in every set of which it holds.
pub proof fn lemma_demanded_term_is_matched(e: Expr, i: usize, matched: Seq<usize>)
    requires
        e.demands(i),
        e.holds(matched),
    ensures
        matched.contains(i),
    decreases e,
{
    match e {
        Expr::Term { index, excluded } => {},
        Expr::And(l, r) => {
            if l.demands(i) {
                lemma_demanded_term_is_matched(*l, i, matched);
            } else {
                lemma_demanded_term_is_matched(*r, i, matched);
            }
        },
        Expr::Or(l, r) => {
            if l.holds(matched) {
                lemma_demanded_term_is_matched(*l, i, matched);
            } else {
                lemma_demanded_term_is_matched(*r, i, matched);
            }
        },
    }
}

/// The value of an expression depends on which terms are matched, not on the
/// order or number of times they are listed.
pub proof fn lemma_value_of_same_terms(e: Expr, a: Seq<usize>, b: Seq<usize>, honor: bool)
    requires
        forall|i: usize| a.contains(i) <==> b.contains(i),
    ensures
        e.holds(a) == e.holds(b),
        e.barred(a) == e.barred(b),
        e.value(a, honor) == e.value(b, honor),
    decreases e,
{
    match e {
        Expr::Term { index, excluded } => {},
        Expr::And(l, r) => {
            lemma_value_of_same_terms(*l, a, b, honor);
            lemma_value_of_same_terms(*r, a, b, honor);
        },
        Expr::Or(l, r) => {
            lemma_value_of_same_terms(*l, a, b, honor);
            lemma_value_of_same_terms(*r, a, b, honor);
        },
    }
}

/// An expression that holds of a set of terms holds of every larger set,
/// exclusions aside.
pub proof fn lemma_holds_of_more(e: Expr, a: Seq<usize>, b: Seq<usize>)
    requires
        e.holds(a),
        forall|t: usize| a.contains(t) ==> b.contains(t),
    ensures
        e.holds(b),
    decreases e,
{
    match e {
        Expr::Term { index, excluded } => {},
        Expr::And(l, r) => {
            lemma_holds_of_more(*l, a, b);
            lemma_holds_of_more(*r, a, b);
        },
        Expr::Or(l, r) => {
            if l.holds(a) {
                lemma_holds_of_more(*l, a, b);
            } else {
                lemma_holds_of_more(*r, a, b);
            }
        },
    }
}

/// Terms that bar an expression bar it among more terms too.
pub proof fn lemma_barred_of_more(e: Expr, a: Seq<usize>, b: Seq<usize>)
    requires
        e.barred(a),
        forall|t: usize| a.contains(t) ==> b.contains(t),
    ensures
        e.barred(b),
    decreases e,
{
    match e {
        Expr::Term { index, excluded } => {},
        Expr::And(l, r) => {
            if l.barred(a) {
                lemma_barred_of_more(*l, a, b);
            } else {
                lemma_barred_of_more(*r, a, b);
            }
        },
        Expr::Or(l, r) => {
            if l.barred(a) {
                lemma_barred_of_more(*l, a, b);
            } else {
                lemma_barred_of_more(*r, a, b);
            }
        },
    }
}

/// Matched terms bar an expression only through a term that it excludes.
pub proof fn lemma_barred_by_a_term(e: Expr, matched: Seq<usize>)
    requires
        e.barred(matched),
    ensures
        exists|t: usize| e.excludes(t) && matched.contains(t),
    decreases e,
{
    match e {
        Expr::Term { index, excluded } => {
            assert(e.excludes(index) && matched.contains(index));
        },
        Expr::And(l, r) => {
            if l.barred(matched) {
                lemma_barred_by_a_term(*l, matched);
                let t = choose|t: usize| l.excludes(t) && matched.contains(t);
                assert(e.excludes(t) && matched.contains(t));
            } else {
                lemma_barred_by_a_term(*r, matched);
                let t = choose|t: usize| r.excludes(t) && matched.contains(t);
                assert(e.excludes(t) && matched.contains(t));
            }
        },
        Expr::Or(l, r) => {
            if l.barred(matched) {
                lemma_barred_by_a_term(*l, matched);
                let t = choose|t: usize| l.excludes(t) && matched.contains(t);
                assert(e.excludes(t) && matched.contains(t));
            } else {
                lemma_barred_by_a_term(*r, matched);
                let t = choose|t: usize| r.excludes(t) && matched.contains(t);
                assert(e.excludes(t) && matched.contains(t));
            }
        },
    }
}

} // verus!
