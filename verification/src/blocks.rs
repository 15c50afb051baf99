//! The block extractor: from the hit lines of a file to the smallest
//! structural regions around them, with their term statistics.

use crate::ast::{lemma_barred_of_more, lemma_holds_of_more, Expr};
use crate::hits::{
    increasing, lemma_increasing_unique, lemma_with_number, member, with_number, TermLines,
};
use crate::models::{MatchStats, ResultView, SearchResult};
use crate::scan::{lines_of, split_lines};
use crate::sequences::{lemma_filter_empty, lemma_filter_push};
use crate::text::texts;
use vstd::prelude::*;
use vstd::string::StringExecFns;

verus! {

/// A structural region of a file, as the parser of its language reports it:
/// the first and last line, counted from 1, and the kind of node.
pub struct Region {
    pub start: usize,
    pub end: usize,
    pub kind: String,
}

/// The line range of a block and the region it comes from; a block without a
/// region is a single line that no region encloses.
#[derive(Clone, Copy, Debug)]
pub struct Span {
    pub start: usize,
    pub end: usize,
    pub region: Option<usize>,
}

/// The region lies within a file of `n` lines and encloses line `l`.
pub open spec fn candidate(r: Region, n: nat, l: usize) -> bool {
    1 <= r.start && r.start <= l && l <= r.end && r.end <= n
}

/// The number of lines of a region, less one.
pub open spec fn extent(r: Region) -> int {
    r.end - r.start
}

/// The smallest region among the first `upto` that encloses line `l`, the
/// first one of that size; -1 if none encloses the line.
pub open spec fn best(regions: Seq<Region>, n: nat, l: usize, upto: int) -> int
    decreases upto,
{
    if upto <= 0 || upto > regions.len() {
        -1
    } else {
        let b = best(regions, n, l, upto - 1);
        let r = regions[upto - 1];
        if candidate(r, n, l) && (b < 0 || extent(r) < extent(regions[b])) {
            upto - 1
        } else {
            b
        }
    }
}

/// What `best` finds: an enclosing region that no enclosing region is smaller
/// than and no earlier enclosing region is as small as.
pub proof fn lemma_best(regions: Seq<Region>, n: nat, l: usize, upto: int)
    requires
        0 <= upto <= regions.len(),
    ensures
        -1 <= best(regions, n, l, upto) < upto,
        best(regions, n, l, upto) >= 0 ==> candidate(regions[best(regions, n, l, upto)], n, l),
        forall|j: int|
            0 <= j < upto && candidate(#[trigger] regions[j], n, l) ==> {
                let b = best(regions, n, l, upto);
                &&& b >= 0
                &&& extent(regions[b]) <= extent(regions[j])
                &&& (j < b ==> extent(regions[b]) < extent(regions[j]))
            },
    decreases upto,
{
    if upto > 0 {
        lemma_best(regions, n, l, upto - 1);
    }
}

/// The block of a hit line: the smallest region that encloses it, or the line
/// alone.
pub open spec fn span_of(regions: Seq<Region>, n: nat, l: usize) -> Span {
    let b = best(regions, n, l, regions.len() as int);
    if b >= 0 {
        Span { start: regions[b].start, end: regions[b].end, region: Some(b as usize) }
    } else {
        Span { start: l, end: l, region: None }
    }
}

/// The blocks of the hit lines `lines`, each once, in the order in which the
/// lines first reach them. Lines outside the file are passed over.
pub open spec fn block_spans(regions: Seq<Region>, n: nat, lines: Seq<usize>) -> Seq<Span>
    decreases lines.len(),
{
    if lines.len() == 0 {
        seq![]
    } else {
        let rest = block_spans(regions, n, lines.drop_last());
        let l = lines.last();
        if 1 <= l <= n && !rest.contains(span_of(regions, n, l)) {
            rest.push(span_of(regions, n, l))
        } else {
            rest
        }
    }
}

/// `lines` holds, in increasing order, the lines that have a hit.
pub open spec fn is_hit_lines(lines: Seq<usize>, pairs: Seq<(usize, usize)>) -> bool {
    increasing(lines) && forall|l: usize| #[trigger]
        lines.contains(l) <==> exists|t: usize| pairs.contains((t, l))
}

/// The lines that have a hit; `is_hit_lines` admits one sequence at most.
pub open spec fn hit_lines(pairs: Seq<(usize, usize)>) -> Seq<usize> {
    choose|lines: Seq<usize>| is_hit_lines(lines, pairs)
}

/// The terms with a hit on a line from `s` to `e`, each once, in the order of
/// the hits.
pub open spec fn terms_within(pairs: Seq<(usize, usize)>, s: usize, e: usize) -> Seq<usize>
    decreases pairs.len(),
{
    if pairs.len() == 0 {
        seq![]
    } else {
        let rest = terms_within(pairs.drop_last(), s, e);
        let p = pairs.last();
        if s <= p.1 <= e && !rest.contains(p.0) {
            rest.push(p.0)
        } else {
            rest
        }
    }
}

/// The number of hits on the lines from `s` to `e`.
pub open spec fn hits_within(pairs: Seq<(usize, usize)>, s: usize, e: usize) -> nat
    decreases pairs.len(),
{
    if pairs.len() == 0 {
        0
    } else {
        let rest = hits_within(pairs.drop_last(), s, e);
        if s <= pairs.last().1 <= e {
            rest + 1
        } else {
            rest
        }
    }
}

/// `terms_within` holds exactly the terms that have a hit in the range, and
/// none twice; there are at most as many as hits in the range.
pub proof fn lemma_terms_within(pairs: Seq<(usize, usize)>, s: usize, e: usize)
    ensures
        forall|t: usize| #[trigger]
            terms_within(pairs, s, e).contains(t) <==> exists|l: usize|
                s <= l <= e && pairs.contains((t, l)),
        terms_within(pairs, s, e).no_duplicates(),
        terms_within(pairs, s, e).len() <= hits_within(pairs, s, e) <= pairs.len(),
    decreases pairs.len(),
{
    let out = terms_within(pairs, s, e);
    if pairs.len() > 0 {
        let init = pairs.drop_last();
        let rest = terms_within(init, s, e);
        let p = pairs.last();
        lemma_terms_within(init, s, e);
        assert forall|t: usize| #[trigger]
            out.contains(t) <==> exists|l: usize| s <= l <= e && pairs.contains((t, l)) by {
            if out.contains(t) {
                if rest.contains(t) {
                    let l = choose|l: usize| s <= l <= e && init.contains((t, l));
                    let k = choose|k: int| 0 <= k < init.len() && init[k] == (t, l);
                    assert(pairs[k] == (t, l));
                    assert(s <= l <= e && pairs.contains((t, l)));
                } else {
                    let k = choose|k: int| 0 <= k < out.len() && out[k] == t;
                    assert(t == p.0);
                    assert(pairs[pairs.len() - 1] == (t, p.1));
                    assert(s <= p.1 <= e && pairs.contains((t, p.1)));
                }
            }
            if exists|l: usize| s <= l <= e && pairs.contains((t, l)) {
                let l = choose|l: usize| s <= l <= e && pairs.contains((t, l));
                let k = choose|k: int| 0 <= k < pairs.len() && pairs[k] == (t, l);
                if k < init.len() {
                    assert(init[k] == (t, l));
                    assert(s <= l <= e && init.contains((t, l)));
                    assert(rest.contains(t));
                    let a = choose|a: int| 0 <= a < rest.len() && rest[a] == t;
                    assert(out[a] == t);
                } else {
                    if rest.contains(t) {
                        let a = choose|a: int| 0 <= a < rest.len() && rest[a] == t;
                        assert(out[a] == t);
                    } else {
                        assert(out[out.len() - 1] == t);
                    }
                }
            }
        }
    }
}

/// The lines `from..to` of a file, counted from 0, joined by line feeds.
pub open spec fn joined(lines: Seq<Seq<char>>, from: int, to: int) -> Seq<char>
    decreases to - from,
{
    if to <= from || from < 0 || to > lines.len() {
        seq![]
    } else if to == from + 1 {
        lines[from]
    } else {
        joined(lines, from, to - 1) + seq!['\n'] + lines[to - 1]
    }
}

/// The kind of a block: that of its region, or `line`.
pub open spec fn kind_of(regions: Seq<Region>, sp: Span) -> Seq<char> {
    match sp.region {
        Some(k) => regions[k as int].kind@,
        None => "line"@,
    }
}

/// The statistics of a block of a file with the hits `pairs`. The place of
/// the file among all files is not known yet and stands as 0.
pub open spec fn stats_of(pairs: Seq<(usize, usize)>, s: usize, e: usize) -> MatchStats {
    MatchStats {
        file_unique_terms: terms_within(pairs, 0, usize::MAX).len() as usize,
        file_total_matches: pairs.len() as usize,
        file_match_rank: 0,
        block_unique_terms: terms_within(pairs, s, e).len() as usize,
        block_total_matches: hits_within(pairs, s, e) as usize,
    }
}

/// The result for the block `sp` of the file, the block with number `k` of
/// the file with number `file_id`.
pub open spec fn block_view(
    path: Seq<char>,
    lines: Seq<Seq<char>>,
    regions: Seq<Region>,
    pairs: Seq<(usize, usize)>,
    file_id: usize,
    sp: Span,
    k: int,
) -> ResultView {
    ResultView {
        file: path,
        lines: (sp.start, sp.end),
        node_type: kind_of(regions, sp),
        code: joined(lines, sp.start - 1, sp.end as int),
        matched_by_filename: false,
        matched_terms: terms_within(pairs, sp.start, sp.end),
        stats: Some(stats_of(pairs, sp.start, sp.end)),
        ranking: None,
        parent_file_id: file_id,
        block_id: k as usize,
    }
}

/// The result for a file that was selected by its name: the whole file.
pub open spec fn file_view(
    path: Seq<char>,
    lines: Seq<Seq<char>>,
    pairs: Seq<(usize, usize)>,
    file_id: usize,
) -> ResultView {
    ResultView {
        file: path,
        lines: (1, lines.len() as usize),
        node_type: "file"@,
        code: joined(lines, 0, lines.len() as int),
        matched_by_filename: true,
        matched_terms: terms_within(pairs, 1, lines.len() as usize),
        stats: Some(stats_of(pairs, 1, lines.len() as usize)),
        ranking: None,
        parent_file_id: file_id,
        block_id: 0,
    }
}

/// The blocks whose matched terms satisfy the expression, exclusions honoured.
pub open spec fn satisfying(ast: Expr, pairs: Seq<(usize, usize)>) -> spec_fn(Span) -> bool {
    |sp: Span| ast.value(terms_within(pairs, sp.start, sp.end), true)
}

/// The blocks of a file. A file selected by its name alone gives one block,
/// the whole file, if it has a line. Any other file gives the blocks of its
/// hit lines whose matched terms satisfy the expression.
pub open spec fn extracted(
    path: Seq<char>,
    content: Seq<char>,
    regions: Seq<Region>,
    pairs: Seq<(usize, usize)>,
    ast: Expr,
    by_filename: bool,
    file_id: usize,
) -> Seq<ResultView> {
    let lines = lines_of(content);
    if by_filename {
        if lines.len() > 0 {
            seq![file_view(path, lines, pairs, file_id)]
        } else {
            seq![]
        }
    } else {
        let kept = block_spans(regions, lines.len(), hit_lines(pairs)).filter(
            satisfying(ast, pairs),
        );
        Seq::new(kept.len(), |i: int| block_view(path, lines, regions, pairs, file_id, kept[i], i))
    }
}

/// The lines of the hits, each once, in increasing order.
pub open spec fn lines_among(pairs: Seq<(usize, usize)>) -> Seq<usize>
    decreases pairs.len(),
{
    if pairs.len() == 0 {
        seq![]
    } else {
        with_number(lines_among(pairs.drop_last()), pairs.last().1)
    }
}

proof fn lemma_lines_among(pairs: Seq<(usize, usize)>)
    ensures
        is_hit_lines(lines_among(pairs), pairs),
    decreases pairs.len(),
{
    let out = lines_among(pairs);
    if pairs.len() > 0 {
        let init = pairs.drop_last();
        let p = pairs.last();
        let rest = lines_among(init);
        lemma_lines_among(init);
        lemma_with_number(rest, p.1);
        assert forall|l: usize| #[trigger]
            out.contains(l) <==> exists|t: usize| pairs.contains((t, l)) by {
            if out.contains(l) {
                if l == p.1 {
                    assert(pairs[pairs.len() - 1] == (p.0, l));
                    assert(pairs.contains((p.0, l)));
                } else {
                    assert(rest.contains(l));
                    let t = choose|t: usize| init.contains((t, l));
                    let k = choose|k: int| 0 <= k < init.len() && init[k] == (t, l);
                    assert(pairs[k] == (t, l));
                    assert(pairs.contains((t, l)));
                }
            }
            if exists|t: usize| pairs.contains((t, l)) {
                let t = choose|t: usize| pairs.contains((t, l));
                let k = choose|k: int| 0 <= k < pairs.len() && pairs[k] == (t, l);
                if k < init.len() {
                    assert(init[k] == (t, l));
                    assert(init.contains((t, l)));
                    assert(rest.contains(l));
                }
            }
        }
    }
}

/// Every list of hits has its hit lines: `hit_lines` holds, in increasing
/// order, exactly the lines with a hit.
pub proof fn lemma_hit_lines(pairs: Seq<(usize, usize)>)
    ensures
        is_hit_lines(hit_lines(pairs), pairs),
{
    lemma_lines_among(pairs);
}

/// The block is that of one of the lines, a line of the file.
pub open spec fn span_from(regions: Seq<Region>, n: nat, lines: Seq<usize>, sp: Span) -> bool {
    exists|l: usize| #[trigger] lines.contains(l) && 1 <= l <= n && span_of(regions, n, l) == sp
}

/// `block_spans` holds exactly the blocks of the lines that are lines of the
/// file.
pub proof fn lemma_block_spans(regions: Seq<Region>, n: nat, lines: Seq<usize>)
    ensures
        forall|sp: Span| #[trigger]
            block_spans(regions, n, lines).contains(sp) <==> span_from(regions, n, lines, sp),
    decreases lines.len(),
{
    let out = block_spans(regions, n, lines);
    if lines.len() > 0 {
        let init = lines.drop_last();
        let last = lines.last();
        let rest = block_spans(regions, n, init);
        lemma_block_spans(regions, n, init);
        let own = span_of(regions, n, last);
        let grows = 1 <= last <= n && !rest.contains(own);
        assert(out == if grows {
            rest.push(own)
        } else {
            rest
        });
        assert(lines[lines.len() - 1] == last);
        assert(lines.contains(last));
        assert forall|sp: Span| #[trigger] out.contains(sp) <==> span_from(regions, n, lines, sp) by {
            if out.contains(sp) {
                if rest.contains(sp) {
                    assert(span_from(regions, n, init, sp));
                    let l = choose|l: usize| #[trigger]
                        init.contains(l) && 1 <= l <= n && span_of(regions, n, l) == sp;
                    let k = choose|k: int| 0 <= k < init.len() && init[k] == l;
                    assert(lines[k] == l);
                    assert(lines.contains(l));
                } else {
                    let k = choose|k: int| 0 <= k < out.len() && out[k] == sp;
                    if k < rest.len() {
                        assert(rest[k] == sp);
                    }
                    assert(grows && sp == own);
                    assert(lines.contains(last) && 1 <= last <= n && span_of(regions, n, last) == sp);
                }
            }
            if span_from(regions, n, lines, sp) {
                let l = choose|l: usize| #[trigger]
                    lines.contains(l) && 1 <= l <= n && span_of(regions, n, l) == sp;
                let k = choose|k: int| 0 <= k < lines.len() && lines[k] == l;
                if k < init.len() {
                    assert(init[k] == l);
                    assert(init.contains(l));
                    assert(span_from(regions, n, init, sp));
                    assert(rest.contains(sp));
                    let a = choose|a: int| 0 <= a < rest.len() && rest[a] == sp;
                    assert(out[a] == sp);
                } else {
                    assert(l == last);
                    if rest.contains(sp) {
                        let a = choose|a: int| 0 <= a < rest.len() && rest[a] == sp;
                        assert(out[a] == sp);
                    } else {
                        assert(grows);
                        assert(out[out.len() - 1] == sp);
                    }
                }
            }
        }
    } else {
        assert forall|sp: Span| #[trigger] out.contains(sp) <==> span_from(regions, n, lines, sp) by {
            if span_from(regions, n, lines, sp) {
                let l = choose|l: usize| #[trigger]
                    lines.contains(l) && 1 <= l <= n && span_of(regions, n, l) == sp;
                assert(false);
            }
        }
    }
}

/// The lines are those of the block of a hit that lies on a line of the file.
pub open spec fn spanned(
    lines: (usize, usize),
    regions: Seq<Region>,
    n: nat,
    pairs: Seq<(usize, usize)>,
) -> bool {
    exists|t: usize, l: usize| #[trigger]
        pairs.contains((t, l)) && 1 <= l <= n && span_of(regions, n, l).start == lines.0 && span_of(
            regions,
            n,
            l,
        ).end == lines.1
}

/// The block `b` is one that a file with `n` lines and with the hits `pairs`
/// gives: the whole file, if the file is there for its name; else the block
/// of a hit, with terms that satisfy the expression.
pub open spec fn block_from(
    b: ResultView,
    path: Seq<char>,
    n: nat,
    regions: Seq<Region>,
    pairs: Seq<(usize, usize)>,
    ast: Expr,
    by_filename: bool,
) -> bool {
    &&& b.file == path
    &&& if by_filename {
        n > 0 && b.lines == (1usize, n as usize)
    } else {
        spanned(b.lines, regions, n, pairs) && ast.value(
            terms_within(pairs, b.lines.0, b.lines.1),
            true,
        )
    }
}

/// Every block that is extracted from a file is one that the file gives.
pub proof fn lemma_extracted_from(
    path: Seq<char>,
    content: Seq<char>,
    regions: Seq<Region>,
    pairs: Seq<(usize, usize)>,
    ast: Expr,
    by_filename: bool,
    file_id: usize,
    i: int,
)
    requires
        0 <= i < extracted(path, content, regions, pairs, ast, by_filename, file_id).len(),
    ensures
        block_from(
            extracted(path, content, regions, pairs, ast, by_filename, file_id)[i],
            path,
            lines_of(content).len(),
            regions,
            pairs,
            ast,
            by_filename,
        ),
{
    let n = lines_of(content).len();
    if !by_filename {
        let all = block_spans(regions, n, hit_lines(pairs));
        let kept = all.filter(satisfying(ast, pairs));
        let sp = kept[i];
        all.lemma_filter_pred(satisfying(ast, pairs), i);
        assert(kept.contains(sp));
        all.lemma_filter_contains_rev(satisfying(ast, pairs), sp);
        lemma_block_spans(regions, n, hit_lines(pairs));
        assert(span_from(regions, n, hit_lines(pairs), sp));
        let l = choose|l: usize| #[trigger]
            hit_lines(pairs).contains(l) && 1 <= l <= n && span_of(regions, n, l) == sp;
        lemma_hit_lines(pairs);
        let t = choose|t: usize| pairs.contains((t, l));
        assert(pairs.contains((t, l)) && 1 <= l <= n && span_of(regions, n, l).start == sp.start
            && span_of(regions, n, l).end == sp.end);
    }
}

/// Every block that a file gives is extracted from it: a block of the file
/// with these lines is among the blocks extracted.
pub proof fn lemma_extracted_has(
    b: ResultView,
    path: Seq<char>,
    content: Seq<char>,
    regions: Seq<Region>,
    pairs: Seq<(usize, usize)>,
    ast: Expr,
    by_filename: bool,
    file_id: usize,
) -> (i: int)
    requires
        block_from(b, path, lines_of(content).len(), regions, pairs, ast, by_filename),
    ensures
        0 <= i < extracted(path, content, regions, pairs, ast, by_filename, file_id).len(),
        extracted(path, content, regions, pairs, ast, by_filename, file_id)[i].file == b.file,
        extracted(path, content, regions, pairs, ast, by_filename, file_id)[i].lines == b.lines,
{
    let n = lines_of(content).len();
    if by_filename {
        assert(extracted(path, content, regions, pairs, ast, by_filename, file_id) == seq![
            file_view(path, lines_of(content), pairs, file_id),
        ]);
        0
    } else {
        let all = block_spans(regions, n, hit_lines(pairs));
        let kept = all.filter(satisfying(ast, pairs));
        let (t, l) = choose|t: usize, l: usize| #[trigger]
            pairs.contains((t, l)) && 1 <= l <= n && span_of(regions, n, l).start == b.lines.0
                && span_of(regions, n, l).end == b.lines.1;
        let sp = span_of(regions, n, l);
        lemma_hit_lines(pairs);
        assert(hit_lines(pairs).contains(l));
        assert(span_from(regions, n, hit_lines(pairs), sp));
        lemma_block_spans(regions, n, hit_lines(pairs));
        assert(all.contains(sp));
        let k = choose|k: int| 0 <= k < all.len() && all[k] == sp;
        assert(satisfying(ast, pairs)(sp));
        all.lemma_filter_contains(satisfying(ast, pairs), k);
        let j = choose|j: int| 0 <= j < kept.len() && kept[j] == sp;
        j
    }
}

/// A file gives a block still when it has more hits, as long as no term of
/// its hits is excluded: the terms of the block are then more, and satisfy
/// the expression as before.
pub proof fn lemma_block_from_more(
    b: ResultView,
    path: Seq<char>,
    n: nat,
    regions: Seq<Region>,
    few: Seq<(usize, usize)>,
    many: Seq<(usize, usize)>,
    ast: Expr,
    by_filename: bool,
)
    requires
        block_from(b, path, n, regions, few, ast, by_filename),
        forall|p: (usize, usize)| few.contains(p) ==> many.contains(p),
        forall|t: usize, l: usize| many.contains((t, l)) ==> !ast.excludes(t),
    ensures
        block_from(b, path, n, regions, many, ast, by_filename),
{
    if !by_filename {
        let (t, l) = choose|t: usize, l: usize| #[trigger]
            few.contains((t, l)) && 1 <= l <= n && span_of(regions, n, l).start == b.lines.0
                && span_of(regions, n, l).end == b.lines.1;
        assert(many.contains((t, l)));
        let a = terms_within(few, b.lines.0, b.lines.1);
        let c = terms_within(many, b.lines.0, b.lines.1);
        lemma_terms_within(few, b.lines.0, b.lines.1);
        lemma_terms_within(many, b.lines.0, b.lines.1);
        assert forall|t: usize| a.contains(t) implies c.contains(t) by {
            let l = choose|l: usize| b.lines.0 <= l <= b.lines.1 && few.contains((t, l));
            assert(b.lines.0 <= l <= b.lines.1 && many.contains((t, l)));
        }
        lemma_holds_of_more(ast, a, c);
        if ast.barred(c) {
            crate::ast::lemma_barred_by_a_term(ast, c);
            let t = choose|t: usize| ast.excludes(t) && c.contains(t);
            let l = choose|l: usize| b.lines.0 <= l <= b.lines.1 && many.contains((t, l));
            assert(false);
        }
    }
}

/// A block that a file gives holds a hit of the file. Of a file that is there
/// for its name this asks that the file has a hit and that its hits lie on
/// its lines.
pub proof fn lemma_block_from_hit(
    b: ResultView,
    path: Seq<char>,
    n: nat,
    regions: Seq<Region>,
    pairs: Seq<(usize, usize)>,
    ast: Expr,
    by_filename: bool,
) -> (hit: (usize, usize))
    requires
        block_from(b, path, n, regions, pairs, ast, by_filename),
        n <= usize::MAX,
        by_filename ==> pairs.len() > 0 && crate::hits::within_lines(pairs, n),
    ensures
        pairs.contains(hit),
        b.lines.0 <= hit.1 <= b.lines.1,
{
    if by_filename {
        let hit = pairs[0];
        assert(pairs.contains(hit));
        assert(hit == (hit.0, hit.1));
        assert(pairs.contains((hit.0, hit.1)));
        hit
    } else {
        let (t, l) = choose|t: usize, l: usize| #[trigger]
            pairs.contains((t, l)) && 1 <= l <= n && span_of(regions, n, l).start == b.lines.0
                && span_of(regions, n, l).end == b.lines.1;
        lemma_best(regions, n, l, regions.len() as int);
        (t, l)
    }
}

/// Two lines of a file whose blocks have the same first and last line have
/// the same block.
pub proof fn lemma_span_by_lines(regions: Seq<Region>, n: nat, a: usize, b: usize)
    requires
        1 <= a <= n,
        1 <= b <= n,
        span_of(regions, n, a).start == span_of(regions, n, b).start,
        span_of(regions, n, a).end == span_of(regions, n, b).end,
    ensures
        span_of(regions, n, a) == span_of(regions, n, b),
{
    let len = regions.len() as int;
    lemma_best(regions, n, a, len);
    lemma_best(regions, n, b, len);
    let x = best(regions, n, a, len);
    let y = best(regions, n, b, len);
    if x >= 0 && y >= 0 {
        assert(candidate(regions[y], n, a));
        assert(candidate(regions[x], n, b));
    } else if x >= 0 {
        assert(candidate(regions[x], n, b));
    } else if y >= 0 {
        assert(candidate(regions[y], n, a));
    }
}

/// No block occurs twice among the blocks of the hit lines.
pub proof fn lemma_block_spans_distinct(regions: Seq<Region>, n: nat, lines: Seq<usize>)
    ensures
        block_spans(regions, n, lines).no_duplicates(),
    decreases lines.len(),
{
    if lines.len() > 0 {
        lemma_block_spans_distinct(regions, n, lines.drop_last());
    }
}

/// No two blocks that are extracted from a file have the same lines.
pub proof fn lemma_extracted_distinct(
    path: Seq<char>,
    content: Seq<char>,
    regions: Seq<Region>,
    pairs: Seq<(usize, usize)>,
    ast: Expr,
    by_filename: bool,
    file_id: usize,
)
    ensures
        crate::models::distinct_places(
            extracted(path, content, regions, pairs, ast, by_filename, file_id),
        ),
{
    let n = lines_of(content).len();
    let out = extracted(path, content, regions, pairs, ast, by_filename, file_id);
    if !by_filename {
        let all = block_spans(regions, n, hit_lines(pairs));
        let keep = satisfying(ast, pairs);
        let kept = all.filter(keep);
        lemma_block_spans_distinct(regions, n, hit_lines(pairs));
        crate::sequences::lemma_filter_no_duplicates(all, keep);
        lemma_block_spans(regions, n, hit_lines(pairs));
        assert forall|a: int, b: int| 0 <= a < b < out.len() implies !crate::models::same_place(
            #[trigger] out[a],
            #[trigger] out[b],
        ) by {
            assert(kept[a] != kept[b]);
            assert(kept.contains(kept[a]) && kept.contains(kept[b]));
            all.lemma_filter_contains_rev(keep, kept[a]);
            all.lemma_filter_contains_rev(keep, kept[b]);
            assert(span_from(regions, n, hit_lines(pairs), kept[a]));
            assert(span_from(regions, n, hit_lines(pairs), kept[b]));
            let la = choose|l: usize| #[trigger]
                hit_lines(pairs).contains(l) && 1 <= l <= n && span_of(regions, n, l) == kept[a];
            let lb = choose|l: usize| #[trigger]
                hit_lines(pairs).contains(l) && 1 <= l <= n && span_of(regions, n, l) == kept[b];
            if out[a].lines == out[b].lines {
                lemma_span_by_lines(regions, n, la, lb);
            }
        }
    }
}

/// The lines of a block that a file gives are in order, and counted from 1.
pub proof fn lemma_block_from_lines(
    b: ResultView,
    path: Seq<char>,
    n: nat,
    regions: Seq<Region>,
    pairs: Seq<(usize, usize)>,
    ast: Expr,
    by_filename: bool,
)
    requires
        block_from(b, path, n, regions, pairs, ast, by_filename),
        n <= usize::MAX,
    ensures
        1 <= b.lines.0 <= b.lines.1,
{
    if !by_filename {
        let (t, l) = choose|t: usize, l: usize| #[trigger]
            pairs.contains((t, l)) && 1 <= l <= n && span_of(regions, n, l).start == b.lines.0
                && span_of(regions, n, l).end == b.lines.1;
        lemma_best(regions, n, l, regions.len() as int);
    }
}

/// Finds the smallest region that encloses line `l` of a file of `n` lines.
pub fn smallest_enclosing(regions: &Vec<Region>, n: usize, l: usize) -> (out: Option<usize>)
    ensures
        match out {
            Some(k) => k == best(regions@, n as nat, l, regions@.len() as int) && k < regions@.len()
                && candidate(regions@[k as int], n as nat, l),
            None => best(regions@, n as nat, l, regions@.len() as int) == -1,
        },
{
    let mut found: Option<usize> = None;
    let mut k: usize = 0;
    while k < regions.len()
        invariant
            k <= regions.len(),
            match found {
                Some(b) => b == best(regions@, n as nat, l, k as int) && b < k && candidate(
                    regions@[b as int],
                    n as nat,
                    l,
                ),
                None => best(regions@, n as nat, l, k as int) == -1,
            },
        decreases regions.len() - k,
    {
        let r = &regions[k];
        if 1 <= r.start && r.start <= l && l <= r.end && r.end <= n {
            let better = match found {
                Some(b) => r.end - r.start < regions[b].end - regions[b].start,
                None => true,
            };
            if better {
                found = Some(k);
            }
        }
        k += 1;
    }
    proof {
        lemma_best(regions@, n as nat, l, regions@.len() as int);
    }
    found
}

fn span_for(regions: &Vec<Region>, n: usize, l: usize) -> (sp: Span)
    requires
        1 <= l <= n,
    ensures
        sp == span_of(regions@, n as nat, l),
        1 <= sp.start <= sp.end <= n,
        sp.region matches Some(k) ==> k < regions@.len(),
{
    match smallest_enclosing(regions, n, l) {
        Some(k) => Span { start: regions[k].start, end: regions[k].end, region: Some(k) },
        None => Span { start: l, end: l, region: None },
    }
}

fn has_span(spans: &Vec<Span>, sp: Span) -> (r: bool)
    ensures
        r == spans@.contains(sp),
{
    let mut i: usize = 0;
    while i < spans.len()
        invariant
            i <= spans.len(),
            forall|k: int| 0 <= k < i ==> spans@[k] != sp,
        decreases spans.len() - i,
    {
        let x = spans[i];
        let same_region = match x.region {
            Some(a) => match sp.region {
                Some(b) => a == b,
                None => false,
            },
            None => sp.region.is_none(),
        };
        if x.start == sp.start && x.end == sp.end && same_region {
            assert(x == sp);
            return true;
        }
        i += 1;
    }
    false
}

/// The blocks of a list of hit lines.
pub fn spans_for(regions: &Vec<Region>, n: usize, lines: &Vec<usize>) -> (out: Vec<Span>)
    ensures
        out@ == block_spans(regions@, n as nat, lines@),
        forall|i: int|
            0 <= i < out@.len() ==> 1 <= (#[trigger] out@[i]).start <= out@[i].end <= n && (
            out@[i].region matches Some(k) ==> k < regions@.len()),
{
    let mut out: Vec<Span> = Vec::new();
    let mut i: usize = 0;
    assert(lines@.take(0) =~= Seq::<usize>::empty());
    while i < lines.len()
        invariant
            i <= lines.len(),
            out@ == block_spans(regions@, n as nat, lines@.take(i as int)),
            forall|j: int|
                0 <= j < out@.len() ==> 1 <= (#[trigger] out@[j]).start <= out@[j].end <= n && (
                out@[j].region matches Some(k) ==> k < regions@.len()),
        decreases lines.len() - i,
    {
        let l = lines[i];
        proof {
            assert(lines@.take(i + 1).drop_last() =~= lines@.take(i as int));
            assert(lines@.take(i + 1).last() == l);
        }
        if 1 <= l && l <= n {
            let sp = span_for(regions, n, l);
            if !has_span(&out, sp) {
                out.push(sp);
            }
        }
        i += 1;
    }
    assert(lines@.take(lines.len() as int) =~= lines@);
    out
}

/// The terms with a hit on the lines from `s` to `e`.
pub fn terms_in_range(hits: &TermLines, s: usize, e: usize) -> (out: Vec<usize>)
    ensures
        out@ == terms_within(hits.pairs@, s, e),
{
    let mut out: Vec<usize> = Vec::new();
    let mut i: usize = 0;
    assert(hits.pairs@.take(0) =~= Seq::<(usize, usize)>::empty());
    while i < hits.pairs.len()
        invariant
            i <= hits.pairs.len(),
            out@ == terms_within(hits.pairs@.take(i as int), s, e),
        decreases hits.pairs.len() - i,
    {
        let p = hits.pairs[i];
        proof {
            assert(hits.pairs@.take(i + 1).drop_last() =~= hits.pairs@.take(i as int));
            assert(hits.pairs@.take(i + 1).last() == p);
        }
        if s <= p.1 && p.1 <= e && !member(&out, p.0) {
            out.push(p.0);
        }
        i += 1;
    }
    assert(hits.pairs@.take(hits.pairs.len() as int) =~= hits.pairs@);
    out
}

/// The number of hits on the lines from `s` to `e`.
pub fn hits_in_range(hits: &TermLines, s: usize, e: usize) -> (out: usize)
    ensures
        out == hits_within(hits.pairs@, s, e),
{
    let mut out: usize = 0;
    let mut i: usize = 0;
    assert(hits.pairs@.take(0) =~= Seq::<(usize, usize)>::empty());
    while i < hits.pairs.len()
        invariant
            i <= hits.pairs.len(),
            out == hits_within(hits.pairs@.take(i as int), s, e),
            out <= i,
        decreases hits.pairs.len() - i,
    {
        let p = hits.pairs[i];
        proof {
            assert(hits.pairs@.take(i + 1).drop_last() =~= hits.pairs@.take(i as int));
            assert(hits.pairs@.take(i + 1).last() == p);
        }
        if s <= p.1 && p.1 <= e {
            out += 1;
        }
        i += 1;
    }
    assert(hits.pairs@.take(hits.pairs.len() as int) =~= hits.pairs@);
    out
}

/// The text of the lines `s..=e`, counted from 1, joined by line feeds.
pub fn code_between(lines: &Vec<String>, s: usize, e: usize) -> (out: String)
    requires
        1 <= s <= e <= lines@.len(),
    ensures
        out@ == joined(texts(lines@), s - 1, e as int),
{
    let ghost all = texts(lines@);
    let mut out = String::new();
    out.append(lines[s - 1].as_str());
    assert(out@ =~= joined(all, s - 1, s as int));
    let mut i: usize = s;
    while i < e
        invariant
            s <= i <= e <= lines@.len(),
            1 <= s,
            all == texts(lines@),
            out@ == joined(all, s - 1, i as int),
        decreases e - i,
    {
        out.push('\n');
        out.append(lines[i].as_str());
        assert(out@ =~= joined(all, s - 1, i + 1));
        i += 1;
    }
    out
}

fn stats_for(hits: &TermLines, unique: usize, s: usize, e: usize) -> (out: (Vec<usize>, MatchStats))
    requires
        unique == terms_within(hits.pairs@, 0, usize::MAX).len(),
    ensures
        out.0@ == terms_within(hits.pairs@, s, e),
        out.1 == stats_of(hits.pairs@, s, e),
{
    let terms = terms_in_range(hits, s, e);
    let total = hits_in_range(hits, s, e);
    let stats = MatchStats {
        file_unique_terms: unique,
        file_total_matches: hits.pairs.len(),
        file_match_rank: 0,
        block_unique_terms: terms.len(),
        block_total_matches: total,
    };
    (terms, stats)
}

/// Extracts the blocks of one file: the smallest regions around its hit
/// lines, each with its code and term statistics, those dropped whose matched
/// terms do not satisfy the query. A file selected by its name alone gives
/// the whole file as one block. Every block that is returned for a file with
/// hits in its text satisfies the query.
pub fn extract_blocks(
    path: &String,
    content: &str,
    regions: &Vec<Region>,
    hits: &TermLines,
    ast: &Expr,
    by_filename: bool,
    file_id: usize,
) -> (out: Vec<SearchResult>)
    requires
        hits.wf(),
    ensures
        crate::models::views(out@) == extracted(
            path@,
            content@,
            regions@,
            hits.pairs@,
            *ast,
            by_filename,
            file_id,
        ),
        lines_of(content@).len() <= usize::MAX,
        forall|i: int|
            0 <= i < out@.len() ==> {
                let r = #[trigger] out@[i];
                &&& r.wf()
                &&& r.lines.1 <= lines_of(content@).len()
                &&& r.file@ == path@
                &&& r.code@ == joined(lines_of(content@), r.lines.0 - 1, r.lines.1 as int)
                &&& r.matched_by_filename == by_filename
                &&& (by_filename || ast.value(r.matched_terms@, true))
            },
{
    let lines = split_lines(content);
    let n: usize = lines.len();
    let ghost all = texts(lines@);
    let ghost pairs = hits.pairs@;
    let unique: usize = terms_in_range(hits, 0, usize::MAX).len();
    let mut out: Vec<SearchResult> = Vec::new();
    if by_filename {
        if n > 0 {
            let (terms, stats) = stats_for(hits, unique, 1, n);
            out.push(
                SearchResult {
                    file: path.clone(),
                    lines: (1, n),
                    node_type: String::from_str("file"),
                    code: code_between(&lines, 1, n),
                    matched_by_filename: true,
                    matched_terms: terms,
                    stats: Some(stats),
                    ranking: None,
                    parent_file_id: file_id,
                    block_id: 0,
                },
            );
            assert(crate::models::views(out@) =~= seq![file_view(path@, all, pairs, file_id)]);
        } else {
            assert(crate::models::views(out@) =~= Seq::<ResultView>::empty());
        }
        return out;
    }
    let hit = hits.lines();
    proof {
        assert forall|l: usize| #[trigger] hit@.contains(l) <==> exists|t: usize|
            pairs.contains((t, l)) by {
            assert(hit@.contains(l) <==> hits.has_line(l));
            if hits.has_line(l) {
                let t = choose|t: usize| hits.has(t, l);
                assert(pairs.contains((t, l)));
            }
            if exists|t: usize| pairs.contains((t, l)) {
                let t = choose|t: usize| pairs.contains((t, l));
                assert(hits.has(t, l));
            }
        }
        assert(is_hit_lines(hit@, pairs));
        let chosen = hit_lines(pairs);
        assert(is_hit_lines(chosen, pairs));
        lemma_increasing_unique(hit@, chosen);
    }
    let spans = spans_for(regions, n, &hit);
    let ghost keep = satisfying(*ast, pairs);
    let ghost kept = spans@.filter(keep);
    let mut i: usize = 0;
    proof {
        lemma_filter_empty(keep);
        assert(spans@.take(0) =~= Seq::<Span>::empty());
    }
    while i < spans.len()
        invariant
            i <= spans.len(),
            n == lines@.len(),
            all == texts(lines@),
            pairs == hits.pairs@,
            keep == satisfying(*ast, pairs),
            unique == terms_within(pairs, 0, usize::MAX).len(),
            forall|j: int|
                0 <= j < spans@.len() ==> 1 <= (#[trigger] spans@[j]).start <= spans@[j].end <= n
                    && (spans@[j].region matches Some(k) ==> k < regions@.len()),
            out@.len() == spans@.take(i as int).filter(keep).len(),
            forall|j: int|
                0 <= j < out@.len() ==> (#[trigger] out@[j])@ == block_view(
                    path@,
                    all,
                    regions@,
                    pairs,
                    file_id,
                    spans@.take(i as int).filter(keep)[j],
                    j,
                ),
            forall|j: int|
                0 <= j < out@.len() ==> {
                    let r = #[trigger] out@[j];
                    &&& r.wf()
                    &&& r.lines.1 <= n
                    &&& r.file@ == path@
                    &&& r.code@ == joined(all, r.lines.0 - 1, r.lines.1 as int)
                    &&& !r.matched_by_filename
                    &&& ast.value(r.matched_terms@, true)
                },
        decreases spans.len() - i,
    {
        let sp = spans[i];
        let ghost before = spans@.take(i as int).filter(keep);
        proof {
            lemma_filter_push(spans@.take(i as int), sp, keep);
            assert(spans@.take(i + 1) =~= spans@.take(i as int).push(sp));
        }
        let (terms, stats) = stats_for(hits, unique, sp.start, sp.end);
        if ast.evaluate(&terms, true) {
            let kind = match sp.region {
                Some(k) => regions[k].kind.clone(),
                None => String::from_str("line"),
            };
            out.push(
                SearchResult {
                    file: path.clone(),
                    lines: (sp.start, sp.end),
                    node_type: kind,
                    code: code_between(&lines, sp.start, sp.end),
                    matched_by_filename: false,
                    matched_terms: terms,
                    stats: Some(stats),
                    ranking: None,
                    parent_file_id: file_id,
                    block_id: out.len(),
                },
            );
            proof {
                let after = spans@.take(i + 1).filter(keep);
                assert(after == before.push(sp));
                assert forall|j: int| 0 <= j < out@.len() implies (#[trigger] out@[j])@
                    == block_view(path@, all, regions@, pairs, file_id, after[j], j) by {
                    if j < before.len() {
                        assert(after[j] == before[j]);
                    }
                }
            }
        }
        i += 1;
    }
    proof {
        assert(spans@.take(spans.len() as int) =~= spans@);
        assert(crate::models::views(out@) =~= extracted(
            path@,
            content@,
            regions@,
            pairs,
            *ast,
            false,
            file_id,
        ));
    }
    out
}

} // verus!
