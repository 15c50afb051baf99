//! Merging blocks of one file that lie close to each other.

use crate::blocks::joined;
use crate::cache::{capped_sum, clamp};
use crate::ast::Expr;
use crate::hits::{
    increasing, insert_sorted, lemma_increasing_unique, lemma_with_number, with_number,
};
use crate::models::{views, MatchStats, Ranking, ResultView, SearchResult};
use crate::ranking::{
    is_ranking, key_views, lemma_ranking_unique, order_by_key, ranking_of, KeyView, SortKey,
};
use crate::scan::{lines_of, split_lines, SourceFile};
use vstd::pervasive::VecAdditionalExecFns;
use vstd::prelude::*;

verus! {

/// The gap, in lines, up to which two blocks of a file are merged when no
/// other threshold is given.
pub const DEFAULT_MERGE_THRESHOLD: usize = 5;

/// A group of blocks of one file that are merged into one.
#[derive(Clone, Copy, Debug)]
pub struct Cluster {
    /// The first line of the group.
    pub start: usize,
    /// The last line of the group.
    pub end: usize,
    /// The position, in the list of results, of the member that stands first there.
    pub first: usize,
    /// The number of members.
    pub size: usize,
    /// The hits of the members together.
    pub total: usize,
    /// The best rank, the highest score and the best places of the members.
    pub ranking: Option<Ranking>,
}

/// The keys that bring the blocks of each file together, in the order of
/// their first lines.
pub open spec fn position_keys(results: Seq<ResultView>) -> Seq<KeyView> {
    Seq::new(
        results.len(),
        |i: int| KeyView { major: 0, minor: 0, path: results[i].file, line: results[i].lines.0 },
    )
}

/// The hits that a block counts.
pub open spec fn block_total(r: ResultView) -> usize {
    match r.stats {
        Some(s) => s.block_total_matches,
        None => 0,
    }
}

/// The better of two rankings: the lower rank and places, the higher scores.
pub open spec fn better(a: Option<Ranking>, b: Option<Ranking>) -> Option<Ranking> {
    match (a, b) {
        (Some(x), Some(y)) => Some(
            Ranking {
                rank: if x.rank <= y.rank {
                    x.rank
                } else {
                    y.rank
                },
                score: if x.score >= y.score {
                    x.score
                } else {
                    y.score
                },
                tfidf_rank: if x.tfidf_rank <= y.tfidf_rank {
                    x.tfidf_rank
                } else {
                    y.tfidf_rank
                },
                bm25_rank: if x.bm25_rank <= y.bm25_rank {
                    x.bm25_rank
                } else {
                    y.bm25_rank
                },
                tfidf_score: if x.tfidf_score >= y.tfidf_score {
                    x.tfidf_score
                } else {
                    y.tfidf_score
                },
                bm25_score: if x.bm25_score >= y.bm25_score {
                    x.bm25_score
                } else {
                    y.bm25_score
                },
            },
        ),
        (Some(x), None) => Some(x),
        (None, y) => y,
    }
}

/// The group of one block, the one at position `i`.
pub open spec fn single(r: ResultView, i: usize) -> Cluster {
    Cluster {
        start: r.lines.0,
        end: r.lines.1,
        first: i,
        size: 1,
        total: block_total(r),
        ranking: r.ranking,
    }
}

/// The group `c` with the block at position `i` taken in: the range grows to
/// hold the block, the hits add up, the better ranking stays.
pub open spec fn absorb(c: Cluster, r: ResultView, i: usize) -> Cluster {
    Cluster {
        start: if r.lines.0 < c.start {
            r.lines.0
        } else {
            c.start
        },
        end: if r.lines.1 > c.end {
            r.lines.1
        } else {
            c.end
        },
        first: if i < c.first {
            i
        } else {
            c.first
        },
        size: clamp((c.size + 1) as nat),
        total: clamp((c.total + block_total(r)) as nat),
        ranking: better(c.ranking, r.ranking),
    }
}

/// The block starts at most `threshold` lines after the end of the group:
/// the gap is the number of lines strictly between the two.
pub open spec fn near(end: usize, start: usize, threshold: usize) -> bool {
    start - end - 1 <= threshold
}

/// The block belongs to the group: same file, and near enough.
pub open spec fn joins(results: Seq<ResultView>, c: Cluster, r: ResultView, threshold: usize) -> bool {
    results[c.first as int].file == r.file && near(c.end, r.lines.0, threshold)
}

/// The groups after the first `k` blocks of `order` were swept: each block
/// joins the group before it if it belongs to it, and opens a new one if not.
pub open spec fn sweep(results: Seq<ResultView>, order: Seq<usize>, threshold: usize, k: int) -> Seq<
    Cluster,
>
    decreases k,
{
    if k <= 0 {
        seq![]
    } else {
        let prev = sweep(results, order, threshold, k - 1);
        let i = order[k - 1];
        let r = results[i as int];
        if prev.len() > 0 && joins(results, prev.last(), r, threshold) {
            prev.drop_last().push(absorb(prev.last(), r, i))
        } else {
            prev.push(single(r, i))
        }
    }
}

/// The members of the groups of `sweep`, group by group.
pub open spec fn members(results: Seq<ResultView>, order: Seq<usize>, threshold: usize, k: int) -> Seq<
    Seq<usize>,
>
    decreases k,
{
    if k <= 0 {
        seq![]
    } else {
        let prev = sweep(results, order, threshold, k - 1);
        let before = members(results, order, threshold, k - 1);
        let i = order[k - 1];
        let r = results[i as int];
        if prev.len() > 0 && joins(results, prev.last(), r, threshold) {
            before.drop_last().push(before.last().push(i))
        } else {
            before.push(seq![i])
        }
    }
}

/// The last of the first `upto` groups whose first member stands at `i`, or -1.
pub open spec fn cluster_for(clusters: Seq<Cluster>, i: usize, upto: int) -> int
    decreases upto,
{
    if upto <= 0 || upto > clusters.len() {
        -1
    } else if clusters[upto - 1].first == i {
        upto - 1
    } else {
        cluster_for(clusters, i, upto - 1)
    }
}

/// The groups in the order of their first members, as far as these stand
/// among the first `i` results.
pub open spec fn arranged(clusters: Seq<Cluster>, i: int) -> Seq<Cluster>
    decreases i,
{
    if i <= 0 {
        seq![]
    } else {
        let prev = arranged(clusters, i - 1);
        let j = cluster_for(clusters, (i - 1) as usize, clusters.len() as int);
        if j >= 0 {
            prev.push(clusters[j])
        } else {
            prev
        }
    }
}

/// The position of the first source at or after `from` with the path, or the length.
pub open spec fn source_position(sources: Seq<SourceFile>, path: Seq<char>, from: int) -> int
    decreases sources.len() - from,
{
    if from < 0 || from >= sources.len() {
        sources.len() as int
    } else if sources[from].path@ == path {
        from
    } else {
        source_position(sources, path, from + 1)
    }
}

/// The text of the first file with the path; empty if the file is not at hand.
pub open spec fn source_content(sources: Seq<SourceFile>, path: Seq<char>) -> Seq<char> {
    let k = source_position(sources, path, 0);
    if 0 <= k < sources.len() {
        sources[k].content@
    } else {
        seq![]
    }
}

/// The lines of the file with the path; none if the file is not at hand.
pub open spec fn source_lines(sources: Seq<SourceFile>, path: Seq<char>) -> Seq<Seq<char>> {
    lines_of(source_content(sources, path))
}

/// The block belongs to the file and lies within the lines `s..=e`.
pub open spec fn inside(r: ResultView, file: Seq<char>, s: usize, e: usize) -> bool {
    r.file == file && s <= r.lines.0 && r.lines.1 <= e
}

/// `terms` holds, in increasing order, the terms of the blocks inside the range.
pub open spec fn is_term_union(
    terms: Seq<usize>,
    results: Seq<ResultView>,
    file: Seq<char>,
    s: usize,
    e: usize,
) -> bool {
    increasing(terms) && forall|t: usize| #[trigger]
        terms.contains(t) <==> exists|i: int|
            0 <= i < results.len() && inside(#[trigger] results[i], file, s, e)
                && results[i].matched_terms.contains(t)
}

/// The terms of the blocks inside the range; `is_term_union` admits one
/// sequence at most.
pub open spec fn term_union(results: Seq<ResultView>, file: Seq<char>, s: usize, e: usize) -> Seq<
    usize,
> {
    choose|terms: Seq<usize>| is_term_union(terms, results, file, s, e)
}

/// The numbers of `s` together with those of `more`, each in its place.
pub open spec fn with_numbers(s: Seq<usize>, more: Seq<usize>) -> Seq<usize>
    decreases more.len(),
{
    if more.len() == 0 {
        s
    } else {
        with_number(with_numbers(s, more.drop_last()), more.last())
    }
}

proof fn lemma_with_numbers(s: Seq<usize>, more: Seq<usize>)
    requires
        increasing(s),
    ensures
        increasing(with_numbers(s, more)),
        forall|y: usize|
            #[trigger] with_numbers(s, more).contains(y) <==> s.contains(y) || more.contains(y),
    decreases more.len(),
{
    if more.len() > 0 {
        let init = more.drop_last();
        lemma_with_numbers(s, init);
        lemma_with_number(with_numbers(s, init), more.last());
        assert forall|y: usize|
            #[trigger] with_numbers(s, more).contains(y) <==> s.contains(y) || more.contains(
                y,
            ) by {
            if init.contains(y) {
                let k = choose|k: int| 0 <= k < init.len() && init[k] == y;
                assert(more[k] == y);
            }
            if more.contains(y) {
                let k = choose|k: int| 0 <= k < more.len() && more[k] == y;
                if k < init.len() {
                    assert(init[k] == y);
                }
            }
            if y == more.last() {
                assert(more[more.len() - 1] == y);
            }
        }
    }
}

/// The terms of the first `k` blocks that lie inside the range, in order.
pub open spec fn union_first(
    results: Seq<ResultView>,
    file: Seq<char>,
    s: usize,
    e: usize,
    k: int,
) -> Seq<usize>
    decreases k,
{
    if k <= 0 || k > results.len() {
        seq![]
    } else {
        let prev = union_first(results, file, s, e, k - 1);
        if inside(results[k - 1], file, s, e) {
            with_numbers(prev, results[k - 1].matched_terms)
        } else {
            prev
        }
    }
}

proof fn lemma_union_first(results: Seq<ResultView>, file: Seq<char>, s: usize, e: usize, k: int)
    requires
        0 <= k <= results.len(),
    ensures
        increasing(union_first(results, file, s, e, k)),
        forall|t: usize|
            #[trigger] union_first(results, file, s, e, k).contains(t) <==> exists|i: int|
                0 <= i < k && inside(#[trigger] results[i], file, s, e)
                    && results[i].matched_terms.contains(t),
    decreases k,
{
    if k > 0 {
        lemma_union_first(results, file, s, e, k - 1);
        let prev = union_first(results, file, s, e, k - 1);
        let out = union_first(results, file, s, e, k);
        let r = results[k - 1];
        if inside(r, file, s, e) {
            lemma_with_numbers(prev, r.matched_terms);
        }
        assert forall|t: usize|
            #[trigger] out.contains(t) <==> exists|i: int|
                0 <= i < k && inside(#[trigger] results[i], file, s, e)
                    && results[i].matched_terms.contains(t) by {
            assert(prev.contains(t) <==> exists|i: int|
                0 <= i < k - 1 && inside(#[trigger] results[i], file, s, e)
                    && results[i].matched_terms.contains(t));
            if prev.contains(t) {
                let i = choose|i: int|
                    0 <= i < k - 1 && inside(#[trigger] results[i], file, s, e)
                        && results[i].matched_terms.contains(t);
                assert(0 <= i < k && inside(results[i], file, s, e));
            }
            if inside(r, file, s, e) && r.matched_terms.contains(t) {
                assert(0 <= k - 1 < k && inside(results[k - 1], file, s, e));
            }
            if exists|i: int|
                0 <= i < k && inside(#[trigger] results[i], file, s, e)
                    && results[i].matched_terms.contains(t) {
                let i = choose|i: int|
                    0 <= i < k && inside(#[trigger] results[i], file, s, e)
                        && results[i].matched_terms.contains(t);
                if i < k - 1 {
                    assert(prev.contains(t));
                }
            }
        }
    }
}

/// The terms of a range are what the name says: in increasing order, the
/// terms of the blocks inside the range.
pub proof fn lemma_term_union(results: Seq<ResultView>, file: Seq<char>, s: usize, e: usize)
    ensures
        is_term_union(term_union(results, file, s, e), results, file, s, e),
{
    lemma_union_first(results, file, s, e, results.len() as int);
    assert(is_term_union(
        union_first(results, file, s, e, results.len() as int),
        results,
        file,
        s,
        e,
    ));
}

/// The result that stands for a group. A group of one block is that block.
/// A larger group has the kind and the file statistics of its first member,
/// the range of the whole group, the code of that range as the file holds
/// it, the terms of all its members, their hits added up, the best of
/// their rankings, and the identifiers of its first member.
pub open spec fn merged_view(results: Seq<ResultView>, sources: Seq<SourceFile>, c: Cluster) -> ResultView {
    let head = results[c.first as int];
    if c.size == 1 {
        head
    } else {
        let terms = term_union(results, head.file, c.start, c.end);
        ResultView {
            file: head.file,
            lines: (c.start, c.end),
            node_type: head.node_type,
            code: joined(source_lines(sources, head.file), c.start - 1, c.end as int),
            matched_by_filename: head.matched_by_filename,
            matched_terms: terms,
            stats: match head.stats {
                Some(s) => Some(
                    MatchStats {
                        block_unique_terms: terms.len() as usize,
                        block_total_matches: c.total,
                        ..s
                    },
                ),
                None => None,
            },
            ranking: c.ranking,
            parent_file_id: head.parent_file_id,
            block_id: head.block_id,
        }
    }
}

/// The merged results: the groups that the sweep over the blocks, file by
/// file in the order of their first lines, makes with the threshold, each
/// standing where its first member stood.
pub open spec fn merged(results: Seq<ResultView>, sources: Seq<SourceFile>, threshold: usize) -> Seq<
    ResultView,
> {
    let order = ranking_of(position_keys(results));
    let clusters = sweep(results, order, threshold, results.len() as int);
    let out = arranged(clusters, results.len() as int);
    Seq::new(out.len(), |j: int| merged_view(results, sources, out[j]))
}

/// What the groups of the sweep are made of. Every group has as many members
/// as it says, all of one file, its first member among them; its range is
/// the union of their ranges: it starts where the first of them starts and
/// ends where the last of them ends. Every block swept is in a group.
pub proof fn lemma_groups(results: Seq<ResultView>, order: Seq<usize>, threshold: usize, k: int)
    requires
        0 <= k <= order.len(),
        forall|a: int| 0 <= a < order.len() ==> (#[trigger] order[a]) < results.len(),
    ensures
        members(results, order, threshold, k).len() == sweep(results, order, threshold, k).len(),
        forall|j: int|
            0 <= j < sweep(results, order, threshold, k).len() ==> group_of(
                results,
                #[trigger] sweep(results, order, threshold, k)[j],
                members(results, order, threshold, k)[j],
            ),
        forall|a: int|
            0 <= a < k ==> in_a_group(members(results, order, threshold, k), #[trigger] order[a]),
    decreases k,
{
    if k > 0 {
        lemma_groups(results, order, threshold, k - 1);
        let prev = sweep(results, order, threshold, k - 1);
        let before = members(results, order, threshold, k - 1);
        let now = sweep(results, order, threshold, k);
        let after = members(results, order, threshold, k);
        let i = order[k - 1];
        let r = results[i as int];
        if prev.len() > 0 && joins(results, prev.last(), r, threshold) {
            let c = prev.last();
            let m = before.last();
            let grown = m.push(i);
            assert(group_of(results, c, m));
            assert(group_of(results, absorb(c, r, i), grown)) by {
                assert(grown[grown.len() - 1] == i);
                assert forall|x: int| 0 <= x < grown.len() implies (#[trigger] grown[x])
                    < results.len() && inside(
                    results[grown[x] as int],
                    results[absorb(c, r, i).first as int].file,
                    absorb(c, r, i).start,
                    absorb(c, r, i).end,
                ) by {
                    if x < m.len() {
                        assert(grown[x] == m[x]);
                    }
                }
                let xs = choose|x: int|
                    0 <= x < m.len() && results[m[x] as int].lines.0 == c.start;
                let xe = choose|x: int| 0 <= x < m.len() && results[m[x] as int].lines.1 == c.end;
                let xf = choose|x: int| 0 <= x < m.len() && m[x] == c.first;
                assert(grown[xs] == m[xs] && grown[xe] == m[xe] && grown[xf] == m[xf]);
            }
            assert forall|j: int| 0 <= j < now.len() implies group_of(
                results,
                #[trigger] now[j],
                after[j],
            ) by {
                if j < now.len() - 1 {
                    assert(now[j] == prev[j] && after[j] == before[j]);
                }
            }
            assert forall|a: int| 0 <= a < k implies in_a_group(after, #[trigger] order[a]) by {
                if a < k - 1 {
                    assert(in_a_group(before, order[a]));
                    let j = choose|j: int|
                        0 <= j < before.len() && (#[trigger] before[j]).contains(order[a]);
                    if j < before.len() - 1 {
                        assert(after[j] == before[j]);
                    } else {
                        let x = choose|x: int| 0 <= x < m.len() && m[x] == order[a];
                        assert(grown[x] == order[a]);
                        assert(after[j].contains(order[a]));
                    }
                } else {
                    assert(after[after.len() - 1].contains(i));
                }
            }
        } else {
            let alone = seq![i];
            assert(group_of(results, single(r, i), alone)) by {
                assert(alone[0] == i);
            }
            assert forall|j: int| 0 <= j < now.len() implies group_of(
                results,
                #[trigger] now[j],
                after[j],
            ) by {
                if j < now.len() - 1 {
                    assert(now[j] == prev[j] && after[j] == before[j]);
                }
            }
            assert forall|a: int| 0 <= a < k implies in_a_group(after, #[trigger] order[a]) by {
                if a < k - 1 {
                    assert(in_a_group(before, order[a]));
                    let j = choose|j: int|
                        0 <= j < before.len() && (#[trigger] before[j]).contains(order[a]);
                    assert(after[j] == before[j]);
                } else {
                    assert(alone[0] == i);
                    assert(after[after.len() - 1].contains(i));
                }
            }
        }
    }
}

/// The block at position `x` is a member of one of the groups.
pub open spec fn in_a_group(groups: Seq<Seq<usize>>, x: usize) -> bool {
    exists|j: int| 0 <= j < groups.len() && (#[trigger] groups[j]).contains(x)
}

/// The group `c` is made of the blocks at the positions `m`.
pub open spec fn group_of(results: Seq<ResultView>, c: Cluster, m: Seq<usize>) -> bool {
    &&& m.len() >= 1
    &&& c.size == clamp(m.len())
    &&& c.first < results.len()
    &&& forall|x: int|
        0 <= x < m.len() ==> (#[trigger] m[x]) < results.len() && inside(
            results[m[x] as int],
            results[c.first as int].file,
            c.start,
            c.end,
        )
    &&& exists|x: int| 0 <= x < m.len() && results[m[x] as int].lines.0 == c.start
    &&& exists|x: int| 0 <= x < m.len() && results[m[x] as int].lines.1 == c.end
    &&& exists|x: int| 0 <= x < m.len() && m[x] == c.first
}

/// The file of a group.
pub open spec fn file_of(results: Seq<ResultView>, c: Cluster) -> Seq<char> {
    results[c.first as int].file
}

/// No two groups of one file are near each other: the later one starts more
/// than `threshold` lines after the end of the earlier one.
pub open spec fn apart(results: Seq<ResultView>, clusters: Seq<Cluster>, threshold: usize) -> bool {
    forall|j: int, j2: int|
        0 <= j < j2 < clusters.len() && file_of(results, #[trigger] clusters[j]) == file_of(
            results,
            #[trigger] clusters[j2],
        ) ==> clusters[j2].start - clusters[j].end - 1 > threshold
}

/// No member of a later group comes before a member of an earlier group.
pub open spec fn in_order(results: Seq<ResultView>, groups: Seq<Seq<usize>>) -> bool {
    forall|j: int, j2: int, x: int, y: int|
        0 <= j < j2 < groups.len() && 0 <= x < groups[j].len() && 0 <= y < groups[j2].len()
            ==> !crate::ranking::key_before(
            position_keys(results)[(#[trigger] groups[j2][y]) as int],
            position_keys(results)[(#[trigger] groups[j][x]) as int],
        )
}

/// Every member of a group is one of the first `k` blocks of `order`.
pub open spec fn swept(order: Seq<usize>, groups: Seq<Seq<usize>>, k: int) -> bool {
    forall|j: int, x: int|
        0 <= j < groups.len() && 0 <= x < groups[j].len() ==> exists|a: int|
            0 <= a < k && order[a] == #[trigger] groups[j][x]
}

proof fn lemma_earlier_is_not_after(results: Seq<ResultView>, order: Seq<usize>, a: int, b: int)
    requires
        is_ranking(order, position_keys(results)),
        0 <= a < b < order.len(),
    ensures
        !crate::ranking::key_before(
            position_keys(results)[order[b] as int],
            position_keys(results)[order[a] as int],
        ),
{
    let keys = position_keys(results);
    assert(crate::ranking::precedes(keys, order[a] as int, order[b] as int));
    crate::ranking::lemma_precedes(keys, order[a] as int, order[b] as int, order[a] as int);
}

proof fn lemma_members_in_order(
    results: Seq<ResultView>,
    order: Seq<usize>,
    threshold: usize,
    k: int,
)
    requires
        is_ranking(order, position_keys(results)),
        0 <= k <= order.len(),
    ensures
        in_order(results, members(results, order, threshold, k)),
        swept(order, members(results, order, threshold, k), k),
    decreases k,
{
    if k > 0 {
        lemma_members_in_order(results, order, threshold, k - 1);
        lemma_groups(results, order, threshold, k - 1);
        let keys = position_keys(results);
        let prev = sweep(results, order, threshold, k - 1);
        let before = members(results, order, threshold, k - 1);
        let after = members(results, order, threshold, k);
        let i = order[k - 1];
        let joining = prev.len() > 0 && joins(results, prev.last(), results[i as int], threshold);
        let last = prev.len() - 1;
        assert forall|j: int, x: int| 0 <= j < after.len() && 0 <= x < after[j].len() implies (
        #[trigger] after[j][x]) == i || (j < before.len() && x < before[j].len() && before[j][x]
            == after[j][x]) by {
            if joining {
                if j < last {
                    assert(after[j] == before[j]);
                } else if x < before[last].len() {
                    assert(after[j][x] == before[last][x]);
                }
            } else {
                if j < before.len() {
                    assert(after[j] == before[j]);
                }
            }
        }
        assert forall|j: int, x: int|
            0 <= j < after.len() && 0 <= x < after[j].len() implies exists|a: int|
            0 <= a < k && order[a] == #[trigger] after[j][x] by {
            if after[j][x] == i {
                assert(order[k - 1] == after[j][x]);
            } else {
                let a = choose|a: int| 0 <= a < k - 1 && order[a] == before[j][x];
                assert(0 <= a < k && order[a] == after[j][x]);
            }
        }
        assert forall|j: int, j2: int, x: int, y: int|
            0 <= j < j2 < after.len() && 0 <= x < after[j].len() && 0 <= y
                < after[j2].len() implies !crate::ranking::key_before(
            keys[(#[trigger] after[j2][y]) as int],
            keys[(#[trigger] after[j][x]) as int],
        ) by {
            assert(after[j] == before[j]);
            if after[j2][y] == i {
                let a = choose|a: int| 0 <= a < k - 1 && order[a] == before[j][x];
                lemma_earlier_is_not_after(results, order, a, k - 1);
            } else {
                assert(before[j2][y] == after[j2][y]);
            }
        }
    }
}

proof fn lemma_new_block_is_last(
    results: Seq<ResultView>,
    order: Seq<usize>,
    threshold: usize,
    k: int,
    j: int,
    x: int,
)
    requires
        is_ranking(order, position_keys(results)),
        0 < k <= order.len(),
        0 <= j < members(results, order, threshold, k - 1).len(),
        0 <= x < members(results, order, threshold, k - 1)[j].len(),
    ensures
        !crate::ranking::key_before(
            position_keys(results)[order[k - 1] as int],
            position_keys(results)[members(results, order, threshold, k - 1)[j][x] as int],
        ),
{
    lemma_members_in_order(results, order, threshold, k - 1);
    let before = members(results, order, threshold, k - 1);
    let a = choose|a: int| 0 <= a < k - 1 && order[a] == before[j][x];
    lemma_earlier_is_not_after(results, order, a, k - 1);
}

proof fn lemma_groups_apart(
    results: Seq<ResultView>,
    order: Seq<usize>,
    threshold: usize,
    k: int,
)
    requires
        is_ranking(order, position_keys(results)),
        0 <= k <= order.len(),
    ensures
        apart(results, sweep(results, order, threshold, k), threshold),
    decreases k,
{
    if k > 0 {
        lemma_groups_apart(results, order, threshold, k - 1);
        lemma_groups(results, order, threshold, k - 1);
        lemma_members_in_order(results, order, threshold, k - 1);
        let keys = position_keys(results);
        let prev = sweep(results, order, threshold, k - 1);
        let before = members(results, order, threshold, k - 1);
        let now = sweep(results, order, threshold, k);
        let i = order[k - 1];
        let r = results[i as int];
        let joining = prev.len() > 0 && joins(results, prev.last(), r, threshold);
        let last = prev.len() - 1;
        if prev.len() > 0 {
            // the last group starts where one of its members starts, and that
            // member is not after the new block
            let c = prev[last];
            let m = before[last];
            assert(group_of(results, c, m));
            let y0 = choose|x: int| 0 <= x < m.len() && results[m[x] as int].lines.0 == c.start;
            lemma_new_block_is_last(results, order, threshold, k, last, y0);
            assert(inside(results[m[y0] as int], file_of(results, c), c.start, c.end));
            crate::text::lemma_seq_before_total(r.file, file_of(results, c));
            if joining {
                assert(r.lines.0 >= c.start);
                assert(file_of(results, now[last]) == file_of(results, c));
                assert(now[last].start == c.start);
                assert forall|j: int, j2: int|
                    0 <= j < j2 < now.len() && file_of(results, #[trigger] now[j]) == file_of(
                        results,
                        #[trigger] now[j2],
                    ) implies now[j2].start - now[j].end - 1 > threshold by {
                    assert(now[j] == prev[j]);
                    if j2 < last {
                        assert(now[j2] == prev[j2]);
                    } else {
                        assert(file_of(results, prev[j]) == file_of(results, prev[last]));
                    }
                }
            } else {
                assert forall|j: int, j2: int|
                    0 <= j < j2 < now.len() && file_of(results, #[trigger] now[j]) == file_of(
                        results,
                        #[trigger] now[j2],
                    ) implies now[j2].start - now[j].end - 1 > threshold by {
                    assert(now[j] == prev[j]);
                    if j2 < prev.len() {
                        assert(now[j2] == prev[j2]);
                    } else {
                        assert(now[j2] == single(r, i));
                        assert(file_of(results, prev[j]) == r.file);
                        if j == last {
                            assert(!near(c.end, r.lines.0, threshold));
                        } else {
                            // the groups of one file follow each other
                            let cj = prev[j];
                            let mj = before[j];
                            assert(group_of(results, cj, mj));
                            assert(inside(
                                results[mj[0] as int],
                                file_of(results, cj),
                                cj.start,
                                cj.end,
                            ));
                            assert(!crate::ranking::key_before(
                                keys[before[last][y0] as int],
                                keys[before[j][0] as int],
                            ));
                            crate::text::lemma_seq_before_total(
                                file_of(results, c),
                                file_of(results, cj),
                            );
                            assert(file_of(results, c) == r.file);
                            assert(file_of(results, prev[j]) == file_of(results, prev[last]));
                            assert(r.lines.0 >= c.start);
                        }
                    }
                }
            }
        } else {
            assert(now.len() == 1);
        }
    }
}

/// Member `x` of the group starts at most `threshold` lines after the end
/// of a member before it.
pub open spec fn linked(results: Seq<ResultView>, m: Seq<usize>, x: int, threshold: usize) -> bool {
    exists|y: int|
        0 <= y < x && results[m[x] as int].lines.0 - results[(#[trigger] m[y]) as int].lines.1 - 1
            <= threshold
}

/// Every member of the group but the first is linked to the members before
/// it, and none starts before the first.
pub open spec fn chained(results: Seq<ResultView>, m: Seq<usize>, threshold: usize) -> bool {
    &&& forall|x: int| 0 < x < m.len() ==> #[trigger] linked(results, m, x, threshold)
    &&& forall|x: int|
        0 <= x < m.len() ==> results[m[0] as int].lines.0 <= results[(#[trigger] m[x]) as int].lines.0
}

proof fn lemma_chained(results: Seq<ResultView>, order: Seq<usize>, threshold: usize, k: int)
    requires
        is_ranking(order, position_keys(results)),
        0 <= k <= order.len(),
    ensures
        forall|j: int|
            0 <= j < members(results, order, threshold, k).len() ==> chained(
                results,
                #[trigger] members(results, order, threshold, k)[j],
                threshold,
            ),
    decreases k,
{
    if k > 0 {
        lemma_chained(results, order, threshold, k - 1);
        lemma_groups(results, order, threshold, k - 1);
        lemma_groups(results, order, threshold, k);
        let keys = position_keys(results);
        let prev = sweep(results, order, threshold, k - 1);
        let before = members(results, order, threshold, k - 1);
        let after = members(results, order, threshold, k);
        let i = order[k - 1];
        let r = results[i as int];
        let joining = prev.len() > 0 && joins(results, prev.last(), r, threshold);
        let last = prev.len() - 1;
        assert forall|j: int| 0 <= j < after.len() implies chained(
            results,
            #[trigger] after[j],
            threshold,
        ) by {
            if joining && j == last {
                let c = prev[last];
                let m = before[last];
                let grown = after[last];
                assert(grown == m.push(i));
                assert(group_of(results, c, m));
                assert(chained(results, m, threshold));
                let xe = choose|x: int| 0 <= x < m.len() && results[m[x] as int].lines.1 == c.end;
                lemma_new_block_is_last(results, order, threshold, k, last, 0);
                assert(inside(results[m[0] as int], file_of(results, c), c.start, c.end));
                assert forall|x: int| 0 < x < grown.len() implies #[trigger] linked(
                    results,
                    grown,
                    x,
                    threshold,
                ) by {
                    if x < m.len() {
                        assert(linked(results, m, x, threshold));
                        let y = choose|y: int|
                            0 <= y < x && results[m[x] as int].lines.0 - results[(
                            #[trigger] m[y]) as int].lines.1 - 1 <= threshold;
                        assert(grown[y] == m[y] && grown[x] == m[x]);
                    } else {
                        assert(grown[xe] == m[xe]);
                        assert(near(c.end, r.lines.0, threshold));
                    }
                }
                assert forall|x: int| 0 <= x < grown.len() implies results[grown[0] as int].lines.0
                    <= results[(#[trigger] grown[x]) as int].lines.0 by {
                    assert(grown[0] == m[0]);
                    if x < m.len() {
                        assert(grown[x] == m[x]);
                    } else {
                        assert(!crate::ranking::key_before(keys[i as int], keys[m[0] as int]));
                    }
                }
            } else if j < before.len() {
                assert(after[j] == before[j]);
            } else {
                assert(after[j] == seq![i]);
            }
        }
    }
}

/// A block with lines lies in one group only: groups of one file are apart.
proof fn lemma_one_group(
    results: Seq<ResultView>,
    clusters: Seq<Cluster>,
    threshold: usize,
    b: ResultView,
    g: int,
    h: int,
)
    requires
        apart(results, clusters, threshold),
        0 <= g < clusters.len(),
        0 <= h < clusters.len(),
        b.lines.0 <= b.lines.1,
        inside(b, file_of(results, clusters[g]), clusters[g].start, clusters[g].end),
        inside(b, file_of(results, clusters[h]), clusters[h].start, clusters[h].end),
    ensures
        g == h,
{
    if g < h {
        assert(clusters[h].start - clusters[g].end - 1 > threshold);
    }
    if h < g {
        assert(clusters[g].start - clusters[h].end - 1 > threshold);
    }
}

/// The block `b` stands for the group `c` with the members `m`: its range is
/// the union of the ranges of the members, and where it was merged from
/// several, its code is that range of the file.
pub open spec fn sound_block(
    results: Seq<ResultView>,
    sources: Seq<SourceFile>,
    c: Cluster,
    m: Seq<usize>,
    b: ResultView,
) -> bool {
    &&& group_of(results, c, m)
    &&& b.file == results[c.first as int].file
    &&& b.lines == (c.start, c.end)
    &&& (c.size != 1 ==> b.code == joined(source_lines(sources, b.file), c.start - 1, c.end as int))
}

proof fn lemma_arranged_from(clusters: Seq<Cluster>, i: int, x: int)
    requires
        0 <= x < arranged(clusters, i).len(),
    ensures
        exists|g: int| 0 <= g < clusters.len() && arranged(clusters, i)[x] == clusters[g],
    decreases i,
{
    if i > 0 {
        let prev = arranged(clusters, i - 1);
        let j = cluster_for(clusters, (i - 1) as usize, clusters.len() as int);
        lemma_cluster_for(clusters, (i - 1) as usize, clusters.len() as int);
        if x < prev.len() {
            lemma_arranged_from(clusters, i - 1, x);
            let g = choose|g: int| 0 <= g < clusters.len() && prev[x] == clusters[g];
            assert(arranged(clusters, i)[x] == clusters[g]);
        } else {
            assert(arranged(clusters, i)[x] == clusters[j]);
        }
    }
}

/// Every block of the merged results stands for a group of
/// the sweep, has the union of the ranges of its members as its range and,
/// where it was merged, the text of that range of the file as its code.
pub proof fn lemma_merge_sound(
    results: Seq<ResultView>,
    sources: Seq<SourceFile>,
    threshold: usize,
    j: int,
)
    requires
        results.len() <= usize::MAX,
        0 <= j < merged(results, sources, threshold).len(),
    ensures
        ({
            let order = ranking_of(position_keys(results));
            exists|g: int|
                0 <= g < sweep(results, order, threshold, results.len() as int).len()
                    && sound_block(
                    results,
                    sources,
                    sweep(results, order, threshold, results.len() as int)[g],
                    members(results, order, threshold, results.len() as int)[g],
                    merged(results, sources, threshold)[j],
                )
        }),
{
    let keys = position_keys(results);
    crate::ranking::lemma_ranking_exists(keys);
    let order = ranking_of(keys);
    let n = results.len() as int;
    let clusters = sweep(results, order, threshold, n);
    let groups = members(results, order, threshold, n);
    lemma_groups(results, order, threshold, n);
    let out = arranged(clusters, n);
    lemma_arranged_from(clusters, n, j);
    let g = choose|g: int| 0 <= g < clusters.len() && out[j] == clusters[g];
    let c = clusters[g];
    let m = groups[g];
    let b = merged(results, sources, threshold)[j];
    assert(b == merged_view(results, sources, c));
    assert(group_of(results, c, m));
    if c.size == 1 {
        assert(m.len() == 1);
        let xs = choose|x: int| 0 <= x < m.len() && results[m[x] as int].lines.0 == c.start;
        let xe = choose|x: int| 0 <= x < m.len() && results[m[x] as int].lines.1 == c.end;
        let xf = choose|x: int| 0 <= x < m.len() && m[x] == c.first;
        assert(xs == 0 && xe == 0 && xf == 0);
    }
    assert(sound_block(results, sources, c, m, b));
}

/// Merging is a fixed point: the groups that the merged results stand for
/// are apart from each other, more than the threshold for any two of one file.
pub proof fn lemma_merged_groups_are_apart(results: Seq<ResultView>, threshold: usize)
    requires
        results.len() <= usize::MAX,
    ensures
        apart(
            results,
            sweep(
                results,
                ranking_of(position_keys(results)),
                threshold,
                results.len() as int,
            ),
            threshold,
        ),
{
    crate::ranking::lemma_ranking_exists(position_keys(results));
    lemma_groups_apart(
        results,
        ranking_of(position_keys(results)),
        threshold,
        results.len() as int,
    );
}

/// Where every block satisfies the query, so does every merged block: the
/// terms of a merged block are those of its first member and more, and none
/// of them is excluded, since no block inside its range holds such a term.
pub proof fn lemma_merged_blocks_satisfy(
    results: Seq<ResultView>,
    sources: Seq<SourceFile>,
    threshold: usize,
    ast: Expr,
    j: int,
)
    requires
        results.len() <= usize::MAX,
        forall|i: int|
            0 <= i < results.len() ==> ast.value((#[trigger] results[i]).matched_terms, true),
        0 <= j < merged(results, sources, threshold).len(),
    ensures
        ast.value(merged(results, sources, threshold)[j].matched_terms, true),
{
    let keys = position_keys(results);
    crate::ranking::lemma_ranking_exists(keys);
    let order = ranking_of(keys);
    let n = results.len() as int;
    let clusters = sweep(results, order, threshold, n);
    let groups = members(results, order, threshold, n);
    lemma_groups(results, order, threshold, n);
    let out = arranged(clusters, n);
    lemma_arranged_from(clusters, n, j);
    let g = choose|g: int| 0 <= g < clusters.len() && out[j] == clusters[g];
    let c = clusters[g];
    let m = groups[g];
    assert(group_of(results, c, m));
    let head = results[c.first as int];
    let b = merged(results, sources, threshold)[j];
    assert(b == merged_view(results, sources, c));
    if c.size != 1 {
        let all = term_union(results, head.file, c.start, c.end);
        lemma_term_union(results, head.file, c.start, c.end);
        let xf = choose|x: int| 0 <= x < m.len() && m[x] == c.first;
        assert(inside(results[m[xf] as int], head.file, c.start, c.end));
        assert forall|t: usize| head.matched_terms.contains(t) implies all.contains(t) by {
            assert(0 <= c.first < results.len() && inside(
                results[c.first as int],
                head.file,
                c.start,
                c.end,
            ));
        }
        crate::ast::lemma_holds_of_more(ast, head.matched_terms, all);
        if ast.barred(all) {
            crate::ast::lemma_barred_by_a_term(ast, all);
            let t = choose|t: usize| ast.excludes(t) && all.contains(t);
            let i = choose|i: int|
                0 <= i < results.len() && inside(#[trigger] results[i], head.file, c.start, c.end)
                    && results[i].matched_terms.contains(t);
            crate::ast::lemma_excluded_term_bars(ast, t, results[i].matched_terms);
        }
    }
}

/// The groups that merging makes of the blocks.
pub open spec fn groups_of_blocks(results: Seq<ResultView>, threshold: usize) -> Seq<Cluster> {
    sweep(results, ranking_of(position_keys(results)), threshold, results.len() as int)
}

/// Their members.
pub open spec fn members_of_blocks(results: Seq<ResultView>, threshold: usize) -> Seq<Seq<usize>> {
    members(results, ranking_of(position_keys(results)), threshold, results.len() as int)
}

/// The group that holds the block at position `i`.
pub open spec fn group_index(groups: Seq<Seq<usize>>, i: usize) -> int {
    choose|g: int| 0 <= g < groups.len() && (#[trigger] groups[g]).contains(i)
}

/// What the groups of any blocks are like: every group has its members,
/// chained to each other; groups of one file are apart; every block is in a
/// group.
proof fn lemma_layout(results: Seq<ResultView>, threshold: usize)
    requires
        results.len() <= usize::MAX,
    ensures
        members_of_blocks(results, threshold).len() == groups_of_blocks(results, threshold).len(),
        forall|j: int|
            0 <= j < groups_of_blocks(results, threshold).len() ==> group_of(
                results,
                #[trigger] groups_of_blocks(results, threshold)[j],
                members_of_blocks(results, threshold)[j],
            ),
        forall|j: int|
            0 <= j < members_of_blocks(results, threshold).len() ==> chained(
                results,
                #[trigger] members_of_blocks(results, threshold)[j],
                threshold,
            ),
        apart(results, groups_of_blocks(results, threshold), threshold),
        forall|i: usize|
            i < results.len() ==> #[trigger] in_a_group(members_of_blocks(results, threshold), i),
{
    let keys = position_keys(results);
    crate::ranking::lemma_ranking_exists(keys);
    let order = ranking_of(keys);
    let n = results.len() as int;
    lemma_groups(results, order, threshold, n);
    lemma_chained(results, order, threshold, n);
    lemma_groups_apart(results, order, threshold, n);
    assert forall|i: usize| i < results.len() implies #[trigger] in_a_group(
        members_of_blocks(results, threshold),
        i,
    ) by {
        assert(order.contains(i));
        let a = choose|a: int| 0 <= a < order.len() && order[a] == i;
        assert(in_a_group(members(results, order, threshold, n), order[a]));
    }
}

/// A block that is a member of a group lies inside the range of the group.
proof fn lemma_member_inside(results: Seq<ResultView>, threshold: usize, i: usize)
    requires
        results.len() <= usize::MAX,
        i < results.len(),
    ensures
        ({
            let g = group_index(members_of_blocks(results, threshold), i);
            let c = groups_of_blocks(results, threshold)[g];
            &&& 0 <= g < groups_of_blocks(results, threshold).len()
            &&& inside(results[i as int], file_of(results, c), c.start, c.end)
        }),
{
    lemma_layout(results, threshold);
    let groups = members_of_blocks(results, threshold);
    assert(in_a_group(groups, i));
    let g = group_index(groups, i);
    let c = groups_of_blocks(results, threshold)[g];
    assert(group_of(results, c, groups[g]));
    let x = choose|x: int| 0 <= x < groups[g].len() && groups[g][x] == i;
    assert(inside(results[groups[g][x] as int], file_of(results, c), c.start, c.end));
}

/// The members of a group of the first `k` blocks stay together when all
/// blocks are merged: they lie inside the group that holds the first of them.
proof fn lemma_group_stays_together(
    loose: Seq<ResultView>,
    k: int,
    threshold: usize,
    g: int,
    x: int,
)
    requires
        loose.len() <= usize::MAX,
        0 <= k <= loose.len(),
        forall|i: int| 0 <= i < loose.len() ==> (#[trigger] loose[i]).lines.0 <= loose[i].lines.1,
        0 <= g < members_of_blocks(loose.take(k), threshold).len(),
        0 <= x < members_of_blocks(loose.take(k), threshold)[g].len(),
    ensures
        ({
            let m = members_of_blocks(loose.take(k), threshold)[g];
            let a = group_index(members_of_blocks(loose, threshold), m[0]);
            let c = groups_of_blocks(loose, threshold)[a];
            &&& m[x] < k
            &&& 0 <= a < groups_of_blocks(loose, threshold).len()
            &&& inside(loose[m[x] as int], file_of(loose, c), c.start, c.end)
        }),
    decreases x,
{
    let tight = loose.take(k);
    lemma_layout(tight, threshold);
    lemma_layout(loose, threshold);
    let m = members_of_blocks(tight, threshold)[g];
    let ct = groups_of_blocks(tight, threshold)[g];
    assert(group_of(tight, ct, m));
    assert(chained(tight, m, threshold));
    let clusters = groups_of_blocks(loose, threshold);
    let a = group_index(members_of_blocks(loose, threshold), m[0]);
    assert(m[0] < k && m[x] < k);
    assert(tight[m[0] as int] == loose[m[0] as int]);
    assert(tight[m[x] as int] == loose[m[x] as int]);
    lemma_member_inside(loose, threshold, m[0]);
    if x > 0 {
        lemma_member_inside(loose, threshold, m[x]);
        let b = group_index(members_of_blocks(loose, threshold), m[x]);
        assert(linked(tight, m, x, threshold));
        let y = choose|y: int|
            0 <= y < x && tight[m[x] as int].lines.0 - tight[(#[trigger] m[y]) as int].lines.1 - 1
                <= threshold;
        lemma_group_stays_together(loose, k, threshold, g, y);
        assert(tight[m[y] as int] == loose[m[y] as int]);
        assert(inside(tight[m[x] as int], file_of(tight, ct), ct.start, ct.end));
        assert(inside(tight[m[y] as int], file_of(tight, ct), ct.start, ct.end));
        assert(inside(tight[m[0] as int], file_of(tight, ct), ct.start, ct.end));
        assert(file_of(loose, clusters[a]) == file_of(loose, clusters[b]));
        if a < b {
            assert(clusters[b].start - clusters[a].end - 1 > threshold);
        }
        if b < a {
            assert(clusters[a].start - clusters[b].end - 1 > threshold);
            assert(tight[m[0] as int].lines.0 <= tight[m[x] as int].lines.0);
        }
        assert(a == b);
    }
}

proof fn lemma_cluster_for_finds(clusters: Seq<Cluster>, i: usize, upto: int, g: int)
    requires
        0 <= g < upto <= clusters.len(),
        clusters[g].first == i,
    ensures
        0 <= cluster_for(clusters, i, upto) < upto,
        clusters[cluster_for(clusters, i, upto)].first == i,
    decreases upto,
{
    if clusters[upto - 1].first != i {
        lemma_cluster_for_finds(clusters, i, upto - 1, g);
    }
}

proof fn lemma_arranged_has(clusters: Seq<Cluster>, n: int, i: int)
    requires
        0 <= i < n,
        0 <= cluster_for(clusters, i as usize, clusters.len() as int) < clusters.len(),
    ensures
        exists|x: int|
            0 <= x < arranged(clusters, n).len() && #[trigger] arranged(clusters, n)[x]
                == clusters[cluster_for(clusters, i as usize, clusters.len() as int)],
    decreases n,
{
    let out = arranged(clusters, n);
    if i == n - 1 {
        assert(out[out.len() - 1] == clusters[cluster_for(
            clusters,
            i as usize,
            clusters.len() as int,
        )]);
    } else {
        lemma_arranged_has(clusters, n - 1, i);
        let prev = arranged(clusters, n - 1);
        let x = choose|x: int|
            0 <= x < prev.len() && #[trigger] prev[x] == clusters[cluster_for(
                clusters,
                i as usize,
                clusters.len() as int,
            )];
        assert(out[x] == prev[x]);
    }
}

/// Block `a` lies within block `b`: same file, and the lines of `a` are
/// lines of `b`.
pub open spec fn lies_within(a: ResultView, b: ResultView) -> bool {
    a.file == b.file && b.lines.0 <= a.lines.0 && a.lines.1 <= b.lines.1
}

/// Block `a` lies within one of the blocks.
pub open spec fn covered_by(a: ResultView, blocks: Seq<ResultView>) -> bool {
    exists|x: int| 0 <= x < blocks.len() && lies_within(a, #[trigger] blocks[x])
}

/// Every group stands in the merged results with its file and its range.
proof fn lemma_group_is_returned(
    results: Seq<ResultView>,
    sources: Seq<SourceFile>,
    threshold: usize,
    g: int,
)
    requires
        results.len() <= usize::MAX,
        forall|i: int|
            0 <= i < results.len() ==> (#[trigger] results[i]).lines.0 <= results[i].lines.1,
        0 <= g < groups_of_blocks(results, threshold).len(),
    ensures
        exists|x: int|
            0 <= x < merged(results, sources, threshold).len() && (#[trigger] merged(
                results,
                sources,
                threshold,
            )[x]).file == file_of(results, groups_of_blocks(results, threshold)[g]) && merged(
                results,
                sources,
                threshold,
            )[x].lines == (
                groups_of_blocks(results, threshold)[g].start,
                groups_of_blocks(results, threshold)[g].end,
            ),
{
    lemma_layout(results, threshold);
    let clusters = groups_of_blocks(results, threshold);
    let groups = members_of_blocks(results, threshold);
    let n = results.len() as int;
    let c = clusters[g];
    let m = groups[g];
    assert(group_of(results, c, m));
    let f = c.first;
    lemma_cluster_for_finds(clusters, f, clusters.len() as int, g);
    let h = cluster_for(clusters, f, clusters.len() as int);
    assert(group_of(results, clusters[h], groups[h]));
    let xf = choose|x: int| 0 <= x < m.len() && m[x] == c.first;
    assert(inside(results[m[xf] as int], file_of(results, c), c.start, c.end));
    let mh = groups[h];
    let xh = choose|x: int| 0 <= x < mh.len() && mh[x] == clusters[h].first;
    assert(inside(
        results[mh[xh] as int],
        file_of(results, clusters[h]),
        clusters[h].start,
        clusters[h].end,
    ));
    lemma_one_group(results, clusters, threshold, results[f as int], g, h);
    lemma_arranged_has(clusters, n, f as int);
    let out = arranged(clusters, n);
    let x = choose|x: int| 0 <= x < out.len() && #[trigger] out[x] == clusters[h];
    let b = merged(results, sources, threshold)[x];
    assert(b == merged_view(results, sources, c));
    if c.size == 1 {
        assert(m.len() == 1);
        let xs = choose|x: int| 0 <= x < m.len() && results[m[x] as int].lines.0 == c.start;
        let xe = choose|x: int| 0 <= x < m.len() && results[m[x] as int].lines.1 == c.end;
        assert(xs == 0 && xe == 0 && xf == 0);
    }
    assert(b.file == file_of(results, c) && b.lines == (c.start, c.end));
}

/// Every merged block has a block that was handed to the merger within it.
pub proof fn lemma_merged_has_member(
    results: Seq<ResultView>,
    sources: Seq<SourceFile>,
    threshold: usize,
    j: int,
) -> (i: int)
    requires
        results.len() <= usize::MAX,
        0 <= j < merged(results, sources, threshold).len(),
    ensures
        0 <= i < results.len(),
        lies_within(results[i], merged(results, sources, threshold)[j]),
{
    lemma_merge_sound(results, sources, threshold, j);
    let order = ranking_of(position_keys(results));
    let n = results.len() as int;
    let g = choose|g: int|
        0 <= g < sweep(results, order, threshold, n).len() && sound_block(
            results,
            sources,
            sweep(results, order, threshold, n)[g],
            members(results, order, threshold, n)[g],
            merged(results, sources, threshold)[j],
        );
    let m = members(results, order, threshold, n)[g];
    let i = m[0] as int;
    assert(m[0] < results.len());
    i
}

/// No two merged blocks have the same file and the same lines.
pub proof fn lemma_merged_distinct(results: Seq<ResultView>, sources: Seq<SourceFile>, threshold: usize)
    requires
        results.len() <= usize::MAX,
        forall|i: int|
            0 <= i < results.len() ==> (#[trigger] results[i]).lines.0 <= results[i].lines.1,
    ensures
        crate::models::distinct_places(merged(results, sources, threshold)),
{
    let out = merged(results, sources, threshold);
    assert forall|a: int, b: int| 0 <= a < b < out.len() implies !crate::models::same_place(
        #[trigger] out[a],
        #[trigger] out[b],
    ) by {
        if crate::models::same_place(out[a], out[b]) {
            let i = lemma_merged_has_member(results, sources, threshold, a);
            assert(lies_within(results[i], out[b]));
            lemma_merged_in_one(results, sources, threshold, results[i], a, b);
        }
    }
}

/// Every block that is handed to the merger lies within a merged block.
pub proof fn lemma_every_block_is_merged(
    results: Seq<ResultView>,
    sources: Seq<SourceFile>,
    threshold: usize,
    i: int,
)
    requires
        results.len() <= usize::MAX,
        forall|i: int|
            0 <= i < results.len() ==> (#[trigger] results[i]).lines.0 <= results[i].lines.1,
        0 <= i < results.len(),
    ensures
        covered_by(results[i], merged(results, sources, threshold)),
{
    lemma_member_inside(results, threshold, i as usize);
    let g = group_index(members_of_blocks(results, threshold), i as usize);
    lemma_group_is_returned(results, sources, threshold, g);
    let c = groups_of_blocks(results, threshold)[g];
    let x = choose|x: int|
        0 <= x < merged(results, sources, threshold).len() && (#[trigger] merged(
            results,
            sources,
            threshold,
        )[x]).file == file_of(results, c) && merged(results, sources, threshold)[x].lines == (
            c.start,
            c.end,
        );
    assert(lies_within(results[i], merged(results, sources, threshold)[x]));
}

/// Merging fewer blocks gives nothing new: every block that merging the
/// first `k` blocks gives lies within a block that merging all of them gives.
pub proof fn lemma_merged_prefix_within(
    loose: Seq<ResultView>,
    k: int,
    sources: Seq<SourceFile>,
    threshold: usize,
    j: int,
)
    requires
        loose.len() <= usize::MAX,
        0 <= k <= loose.len(),
        forall|i: int| 0 <= i < loose.len() ==> (#[trigger] loose[i]).lines.0 <= loose[i].lines.1,
        0 <= j < merged(loose.take(k), sources, threshold).len(),
    ensures
        covered_by(
            merged(loose.take(k), sources, threshold)[j],
            merged(loose, sources, threshold),
        ),
{
    let tight = loose.take(k);
    lemma_layout(tight, threshold);
    let clusters = groups_of_blocks(tight, threshold);
    let groups = members_of_blocks(tight, threshold);
    let out = arranged(clusters, tight.len() as int);
    lemma_arranged_from(clusters, tight.len() as int, j);
    let g = choose|g: int| 0 <= g < clusters.len() && out[j] == clusters[g];
    let c = clusters[g];
    let m = groups[g];
    assert(group_of(tight, c, m));
    let b = merged(tight, sources, threshold)[j];
    assert(b == merged_view(tight, sources, c));
    let xs = choose|x: int| 0 <= x < m.len() && tight[m[x] as int].lines.0 == c.start;
    let xe = choose|x: int| 0 <= x < m.len() && tight[m[x] as int].lines.1 == c.end;
    let xf = choose|x: int| 0 <= x < m.len() && m[x] == c.first;
    if c.size == 1 {
        assert(m.len() == 1);
        assert(xs == 0 && xe == 0 && xf == 0);
    }
    assert(b.lines == (c.start, c.end));
    assert(inside(tight[m[xf] as int], file_of(tight, c), c.start, c.end));
    assert(b.file == file_of(tight, c));
    lemma_group_stays_together(loose, k, threshold, g, xs);
    lemma_group_stays_together(loose, k, threshold, g, xe);
    lemma_group_stays_together(loose, k, threshold, g, xf);
    let a = group_index(members_of_blocks(loose, threshold), m[0]);
    let ca = groups_of_blocks(loose, threshold)[a];
    assert(tight[m[xs] as int] == loose[m[xs] as int]);
    assert(tight[m[xe] as int] == loose[m[xe] as int]);
    assert(tight[m[xf] as int] == loose[m[xf] as int]);
    lemma_group_is_returned(loose, sources, threshold, a);
    let x = choose|x: int|
        0 <= x < merged(loose, sources, threshold).len() && (#[trigger] merged(
            loose,
            sources,
            threshold,
        )[x]).file == file_of(loose, ca) && merged(loose, sources, threshold)[x].lines == (
            ca.start,
            ca.end,
        );
    assert(lies_within(b, merged(loose, sources, threshold)[x]));
}

proof fn lemma_arranged_firsts(clusters: Seq<Cluster>, n: int)
    requires
        0 <= n <= usize::MAX,
    ensures
        forall|x: int|
            0 <= x < arranged(clusters, n).len() ==> (#[trigger] arranged(clusters, n)[x]).first < n
                && exists|g: int|
                0 <= g < clusters.len() && arranged(clusters, n)[x] == #[trigger] clusters[g],
        forall|x: int, y: int|
            0 <= x < y < arranged(clusters, n).len() ==> (#[trigger] arranged(clusters, n)[x]).first
                < (#[trigger] arranged(clusters, n)[y]).first,
    decreases n,
{
    if n > 0 {
        lemma_arranged_firsts(clusters, n - 1);
        let prev = arranged(clusters, n - 1);
        let out = arranged(clusters, n);
        let j = cluster_for(clusters, (n - 1) as usize, clusters.len() as int);
        lemma_cluster_for(clusters, (n - 1) as usize, clusters.len() as int);
        if j >= 0 {
            lemma_cluster_for_finds(clusters, clusters[j].first, j + 1, j);
            assert(clusters[j].first == (n - 1) as usize) by {
                lemma_cluster_for_first(clusters, (n - 1) as usize, clusters.len() as int);
            }
        }
        assert forall|x: int| 0 <= x < out.len() implies (#[trigger] out[x]).first < n && exists|
            g: int,
        |
            0 <= g < clusters.len() && out[x] == #[trigger] clusters[g] by {
            if x < prev.len() {
                assert(out[x] == prev[x]);
                let g = choose|g: int| 0 <= g < clusters.len() && prev[x] == #[trigger] clusters[g];
                assert(out[x] == clusters[g]);
            } else {
                assert(out[x] == clusters[j]);
            }
        }
        assert forall|x: int, y: int| 0 <= x < y < out.len() implies (#[trigger] out[x]).first < (
        #[trigger] out[y]).first by {
            assert(out[x] == prev[x]);
            assert(prev[x].first < n - 1);
            if y < prev.len() {
                assert(out[y] == prev[y]);
            } else {
                assert(out[y] == clusters[j]);
            }
        }
    }
}

proof fn lemma_cluster_for_first(clusters: Seq<Cluster>, i: usize, upto: int)
    requires
        0 <= upto <= clusters.len(),
        cluster_for(clusters, i, upto) >= 0,
    ensures
        clusters[cluster_for(clusters, i, upto)].first == i,
    decreases upto,
{
    if upto > 0 && clusters[upto - 1].first != i {
        lemma_cluster_for_first(clusters, i, upto - 1);
    }
}

/// A block lies within one merged block only: merged blocks of one file
/// share no line.
pub proof fn lemma_merged_in_one(
    results: Seq<ResultView>,
    sources: Seq<SourceFile>,
    threshold: usize,
    b: ResultView,
    x: int,
    y: int,
)
    requires
        results.len() <= usize::MAX,
        forall|i: int|
            0 <= i < results.len() ==> (#[trigger] results[i]).lines.0 <= results[i].lines.1,
        b.lines.0 <= b.lines.1,
        0 <= x < merged(results, sources, threshold).len(),
        0 <= y < merged(results, sources, threshold).len(),
        lies_within(b, merged(results, sources, threshold)[x]),
        lies_within(b, merged(results, sources, threshold)[y]),
    ensures
        x == y,
{
    lemma_layout(results, threshold);
    let clusters = groups_of_blocks(results, threshold);
    let groups = members_of_blocks(results, threshold);
    let n = results.len() as int;
    let out = arranged(clusters, n);
    lemma_arranged_firsts(clusters, n);
    if x != y {
        let gx = choose|g: int| 0 <= g < clusters.len() && out[x] == #[trigger] clusters[g];
        let gy = choose|g: int| 0 <= g < clusters.len() && out[y] == #[trigger] clusters[g];
        if x < y {
            assert(out[x].first < out[y].first);
        } else {
            assert(out[y].first < out[x].first);
        }
        assert(gx != gy);
        lemma_block_of_group(results, sources, threshold, gx, x);
        lemma_block_of_group(results, sources, threshold, gy, y);
        lemma_one_group(results, clusters, threshold, b, gx, gy);
    }
}

proof fn lemma_block_of_group(
    results: Seq<ResultView>,
    sources: Seq<SourceFile>,
    threshold: usize,
    g: int,
    x: int,
)
    requires
        results.len() <= usize::MAX,
        0 <= g < groups_of_blocks(results, threshold).len(),
        0 <= x < merged(results, sources, threshold).len(),
        arranged(groups_of_blocks(results, threshold), results.len() as int)[x]
            == groups_of_blocks(results, threshold)[g],
    ensures
        merged(results, sources, threshold)[x].file == file_of(
            results,
            groups_of_blocks(results, threshold)[g],
        ),
        merged(results, sources, threshold)[x].lines == (
            groups_of_blocks(results, threshold)[g].start,
            groups_of_blocks(results, threshold)[g].end,
        ),
{
    lemma_layout(results, threshold);
    let c = groups_of_blocks(results, threshold)[g];
    let m = members_of_blocks(results, threshold)[g];
    assert(group_of(results, c, m));
    let b = merged(results, sources, threshold)[x];
    assert(b == merged_view(results, sources, c));
    if c.size == 1 {
        assert(m.len() == 1);
        let xs = choose|x: int| 0 <= x < m.len() && results[m[x] as int].lines.0 == c.start;
        let xe = choose|x: int| 0 <= x < m.len() && results[m[x] as int].lines.1 == c.end;
        let xf = choose|x: int| 0 <= x < m.len() && m[x] == c.first;
        assert(xs == 0 && xe == 0 && xf == 0);
    }
}

/// The code of the block is the text of its lines as the file at hand holds
/// them, and the lines are lines of the file.
pub open spec fn code_is_slice(b: ResultView, sources: Seq<SourceFile>) -> bool {
    &&& 1 <= b.lines.0 <= b.lines.1 <= source_lines(sources, b.file).len()
    &&& b.code == joined(source_lines(sources, b.file), b.lines.0 - 1, b.lines.1 as int)
}

/// Where the code of every block is the text of its lines, the same holds of
/// every merged block: its lines are lines of the file, and its code is
/// their text, the lines between its parts included.
pub proof fn lemma_merged_code_is_slice(
    results: Seq<ResultView>,
    sources: Seq<SourceFile>,
    threshold: usize,
    j: int,
)
    requires
        results.len() <= usize::MAX,
        forall|i: int| 0 <= i < results.len() ==> code_is_slice(#[trigger] results[i], sources),
        0 <= j < merged(results, sources, threshold).len(),
    ensures
        code_is_slice(merged(results, sources, threshold)[j], sources),
{
    lemma_layout(results, threshold);
    let clusters = groups_of_blocks(results, threshold);
    let n = results.len() as int;
    let out = arranged(clusters, n);
    lemma_arranged_from(clusters, n, j);
    let g = choose|g: int| 0 <= g < clusters.len() && out[j] == clusters[g];
    let c = clusters[g];
    let m = members_of_blocks(results, threshold)[g];
    assert(group_of(results, c, m));
    lemma_block_of_group(results, sources, threshold, g, j);
    let b = merged(results, sources, threshold)[j];
    assert(b == merged_view(results, sources, c));
    let xs = choose|x: int| 0 <= x < m.len() && results[m[x] as int].lines.0 == c.start;
    let xe = choose|x: int| 0 <= x < m.len() && results[m[x] as int].lines.1 == c.end;
    let xf = choose|x: int| 0 <= x < m.len() && m[x] == c.first;
    assert(inside(results[m[xs] as int], file_of(results, c), c.start, c.end));
    assert(inside(results[m[xe] as int], file_of(results, c), c.start, c.end));
    assert(inside(results[m[xf] as int], file_of(results, c), c.start, c.end));
    assert(code_is_slice(results[m[xs] as int], sources));
    assert(code_is_slice(results[m[xe] as int], sources));
    if c.size == 1 {
        assert(m.len() == 1);
        assert(xs == 0 && xe == 0 && xf == 0);
    }
}

fn best_of(a: Option<Ranking>, b: Option<Ranking>) -> (out: Option<Ranking>)
    ensures
        out == better(a, b),
{
    match a {
        Some(x) => match b {
            Some(y) => Some(
                Ranking {
                    rank: if x.rank <= y.rank {
                        x.rank
                    } else {
                        y.rank
                    },
                    score: if x.score >= y.score {
                        x.score
                    } else {
                        y.score
                    },
                    tfidf_rank: if x.tfidf_rank <= y.tfidf_rank {
                        x.tfidf_rank
                    } else {
                        y.tfidf_rank
                    },
                    bm25_rank: if x.bm25_rank <= y.bm25_rank {
                        x.bm25_rank
                    } else {
                        y.bm25_rank
                    },
                    tfidf_score: if x.tfidf_score >= y.tfidf_score {
                        x.tfidf_score
                    } else {
                        y.tfidf_score
                    },
                    bm25_score: if x.bm25_score >= y.bm25_score {
                        x.bm25_score
                    } else {
                        y.bm25_score
                    },
                },
            ),
            None => Some(x),
        },
        None => b,
    }
}

fn total_of(r: &SearchResult) -> (n: usize)
    ensures
        n == block_total(r@),
{
    match r.stats {
        Some(s) => s.block_total_matches,
        None => 0,
    }
}

fn sweep_blocks(results: &Vec<SearchResult>, order: &Vec<usize>, threshold: usize) -> (out: Vec<
    Cluster,
>)
    requires
        order@.len() == results@.len(),
        forall|a: int| 0 <= a < order@.len() ==> (#[trigger] order@[a]) < results@.len(),
    ensures
        out@ == sweep(views(results@), order@, threshold, results@.len() as int),
        forall|j: int| 0 <= j < out@.len() ==> (#[trigger] out@[j]).first < results@.len(),
{
    let mut out: Vec<Cluster> = Vec::new();
    let mut k: usize = 0;
    while k < order.len()
        invariant
            k <= order@.len(),
            order@.len() == results@.len(),
            forall|a: int| 0 <= a < order@.len() ==> (#[trigger] order@[a]) < results@.len(),
            out@ == sweep(views(results@), order@, threshold, k as int),
            forall|j: int| 0 <= j < out@.len() ==> (#[trigger] out@[j]).first < results@.len(),
        decreases order@.len() - k,
    {
        let i = order[k];
        let r = &results[i];
        let ghost prev = out@;
        let mut joined_last = false;
        if out.len() > 0 {
            let c = out[out.len() - 1];
            let close = r.lines.0 <= c.end || r.lines.0 - c.end - 1 <= threshold;
            if close && results[c.first].file == r.file {
                let grown = Cluster {
                    start: if r.lines.0 < c.start {
                        r.lines.0
                    } else {
                        c.start
                    },
                    end: if r.lines.1 > c.end {
                        r.lines.1
                    } else {
                        c.end
                    },
                    first: if i < c.first {
                        i
                    } else {
                        c.first
                    },
                    size: capped_sum(c.size, 1),
                    total: capped_sum(c.total, total_of(r)),
                    ranking: best_of(c.ranking, r.ranking),
                };
                out.pop();
                out.push(grown);
                joined_last = true;
                assert(out@ =~= prev.drop_last().push(absorb(prev.last(), r@, i)));
            }
        }
        if !joined_last {
            out.push(
                Cluster {
                    start: r.lines.0,
                    end: r.lines.1,
                    first: i,
                    size: 1,
                    total: total_of(r),
                    ranking: r.ranking,
                },
            );
        }
        k += 1;
    }
    out
}

fn arrange(clusters: &Vec<Cluster>, n: usize) -> (out: Vec<Cluster>)
    requires
        forall|j: int| 0 <= j < clusters@.len() ==> (#[trigger] clusters@[j]).first < n,
    ensures
        out@ == arranged(clusters@, n as int),
        forall|j: int| 0 <= j < out@.len() ==> (#[trigger] out@[j]).first < n,
{
    let count: usize = clusters.len();
    let mut slot: Vec<usize> = Vec::new();
    let mut i: usize = 0;
    while i < n
        invariant
            i <= n,
            slot@.len() == i,
            forall|x: int| 0 <= x < i ==> #[trigger] slot@[x] == count,
        decreases n - i,
    {
        slot.push(count);
        i += 1;
    }
    let mut j: usize = 0;
    while j < count
        invariant
            j <= count,
            count == clusters@.len(),
            slot@.len() == n,
            forall|x: int| 0 <= x < clusters@.len() ==> (#[trigger] clusters@[x]).first < n,
            forall|x: int|
                0 <= x < n ==> {
                    let found = cluster_for(clusters@, x as usize, j as int);
                    if found >= 0 {
                        #[trigger] slot@[x] == found
                    } else {
                        slot@[x] == count
                    }
                },
        decreases count - j,
    {
        slot.set(clusters[j].first, j);
        j += 1;
    }
    let mut out: Vec<Cluster> = Vec::new();
    let mut i: usize = 0;
    while i < n
        invariant
            i <= n,
            count == clusters@.len(),
            slot@.len() == n,
            forall|x: int| 0 <= x < clusters@.len() ==> (#[trigger] clusters@[x]).first < n,
            forall|x: int|
                0 <= x < n ==> {
                    let found = cluster_for(clusters@, x as usize, count as int);
                    if found >= 0 {
                        #[trigger] slot@[x] == found
                    } else {
                        slot@[x] == count
                    }
                },
            out@ == arranged(clusters@, i as int),
            forall|x: int| 0 <= x < out@.len() ==> (#[trigger] out@[x]).first < n,
        decreases n - i,
    {
        let at = slot[i];
        proof {
            lemma_cluster_for(clusters@, i, count as int);
        }
        if at < count {
            out.push(clusters[at]);
        }
        i += 1;
    }
    out
}

proof fn lemma_cluster_for(clusters: Seq<Cluster>, i: usize, upto: int)
    requires
        0 <= upto <= clusters.len(),
    ensures
        -1 <= cluster_for(clusters, i, upto) < upto,
    decreases upto,
{
    if upto > 0 && clusters[upto - 1].first != i {
        lemma_cluster_for(clusters, i, upto - 1);
    }
}

/// The position of the first source with the path, or the number of sources.
pub fn find_source(sources: &Vec<SourceFile>, path: &String) -> (k: usize)
    ensures
        k == source_position(sources@, path@, 0),
        k <= sources@.len(),
{
    let mut k: usize = 0;
    while k < sources.len()
        invariant
            k <= sources.len(),
            source_position(sources@, path@, 0) == source_position(sources@, path@, k as int),
        decreases sources.len() - k,
    {
        if sources[k].path == *path {
            return k;
        }
        k += 1;
    }
    k
}

fn code_of(sources: &Vec<SourceFile>, path: &String, start: usize, end: usize) -> (out: String)
    ensures
        out@ == joined(source_lines(sources@, path@), start - 1, end as int),
{
    let k = find_source(sources, path);
    if k < sources.len() {
        let lines = split_lines(sources[k].content.as_str());
        if 1 <= start && start <= end && end <= lines.len() {
            crate::blocks::code_between(&lines, start, end)
        } else {
            String::new()
        }
    } else {
        String::new()
    }
}

fn union_terms(results: &Vec<SearchResult>, file: &String, s: usize, e: usize) -> (out: Vec<usize>)
    ensures
        out@ == term_union(views(results@), file@, s, e),
{
    let ghost vs = views(results@);
    let mut out: Vec<usize> = Vec::new();
    let mut i: usize = 0;
    while i < results.len()
        invariant
            i <= results.len(),
            vs == views(results@),
            increasing(out@),
            forall|t: usize|
                #[trigger] out@.contains(t) <==> exists|k: int|
                    0 <= k < i && inside(#[trigger] vs[k], file@, s, e)
                        && vs[k].matched_terms.contains(t),
        decreases results.len() - i,
    {
        let r = &results[i];
        let ghost outer = out@;
        assert(vs[i as int] == r@);
        if r.file == *file && s <= r.lines.0 && r.lines.1 <= e {
            let mut j: usize = 0;
            while j < r.matched_terms.len()
                invariant
                    j <= r.matched_terms.len(),
                    increasing(out@),
                    forall|t: usize|
                        #[trigger] out@.contains(t) <==> outer.contains(t) || exists|x: int|
                            0 <= x < j && r.matched_terms@[x] == t,
                decreases r.matched_terms.len() - j,
            {
                let ghost inner = out@;
                let term = r.matched_terms[j];
                insert_sorted(&mut out, term);
                proof {
                    assert forall|t: usize|
                        #[trigger] out@.contains(t) <==> outer.contains(t) || exists|x: int|
                            0 <= x < j + 1 && r.matched_terms@[x] == t by {
                        assert(out@.contains(t) <==> inner.contains(t) || t == term);
                        assert(inner.contains(t) <==> outer.contains(t) || exists|x: int|
                            0 <= x < j && r.matched_terms@[x] == t);
                        if t == term {
                            assert(0 <= j < j + 1 && r.matched_terms@[j as int] == t);
                        }
                        if exists|x: int| 0 <= x < j && r.matched_terms@[x] == t {
                            let x = choose|x: int| 0 <= x < j && r.matched_terms@[x] == t;
                            assert(0 <= x < j + 1 && r.matched_terms@[x] == t);
                        }
                        if exists|x: int| 0 <= x < j + 1 && r.matched_terms@[x] == t {
                            let x = choose|x: int| 0 <= x < j + 1 && r.matched_terms@[x] == t;
                            if x < j {
                                assert(0 <= x < j && r.matched_terms@[x] == t);
                            }
                        }
                    }
                }
                j += 1;
            }
        }
        proof {
            assert forall|t: usize|
                #[trigger] out@.contains(t) <==> exists|k: int|
                    0 <= k < i + 1 && inside(#[trigger] vs[k], file@, s, e)
                        && vs[k].matched_terms.contains(t) by {
                assert(outer.contains(t) <==> exists|k: int|
                    0 <= k < i && inside(#[trigger] vs[k], file@, s, e)
                        && vs[k].matched_terms.contains(t));
                if outer.contains(t) {
                    let k = choose|k: int|
                        0 <= k < i && inside(#[trigger] vs[k], file@, s, e)
                            && vs[k].matched_terms.contains(t);
                    assert(0 <= k < i + 1 && inside(vs[k], file@, s, e));
                }
                if inside(r@, file@, s, e) {
                    if r.matched_terms@.contains(t) {
                        let x = choose|x: int|
                            0 <= x < r.matched_terms@.len() && r.matched_terms@[x] == t;
                        assert(out@.contains(t));
                        assert(0 <= i < i + 1 && inside(vs[i as int], file@, s, e));
                    }
                }
                if exists|k: int|
                    0 <= k < i + 1 && inside(#[trigger] vs[k], file@, s, e)
                        && vs[k].matched_terms.contains(t) {
                    let k = choose|k: int|
                        0 <= k < i + 1 && inside(#[trigger] vs[k], file@, s, e)
                            && vs[k].matched_terms.contains(t);
                    if k < i {
                        assert(outer.contains(t));
                    } else {
                        let x = choose|x: int|
                            0 <= x < r.matched_terms@.len() && r.matched_terms@[x] == t;
                        assert(0 <= x < r.matched_terms@.len() && r.matched_terms@[x] == t);
                    }
                }
            }
        }
        i += 1;
    }
    proof {
        assert(is_term_union(out@, vs, file@, s, e));
        let chosen = term_union(vs, file@, s, e);
        assert(is_term_union(chosen, vs, file@, s, e));
        lemma_increasing_unique(out@, chosen);
    }
    out
}

/// Merges the blocks of each file whose line ranges are at most `threshold`
/// lines apart, 5 where none is given; a gap is the number of lines strictly
/// between two blocks. The code of a merged block is read again from the
/// file at hand in `sources`. The result holds the merged blocks, each at
/// the place of the first of the blocks it is made of.
pub fn merge_ranked_blocks(
    results: &Vec<SearchResult>,
    threshold: Option<usize>,
    sources: &Vec<SourceFile>,
) -> (out: Vec<SearchResult>)
    ensures
        views(out@) == merged(
            views(results@),
            sources@,
            match threshold {
                Some(t) => t,
                None => DEFAULT_MERGE_THRESHOLD,
            },
        ),
{
    let limit: usize = match threshold {
        Some(t) => t,
        None => DEFAULT_MERGE_THRESHOLD,
    };
    let n: usize = results.len();
    let mut keys: Vec<SortKey> = Vec::new();
    let mut i: usize = 0;
    while i < n
        invariant
            i <= n,
            n == results@.len(),
            keys@.len() == i,
            forall|k: int|
                0 <= k < i ==> (#[trigger] keys@[k])@ == position_keys(views(results@))[k],
        decreases n - i,
    {
        keys.push(
            SortKey { major: 0, minor: 0, path: results[i].file.clone(), line: results[i].lines.0 },
        );
        i += 1;
    }
    let ghost vs = views(results@);
    assert(key_views(keys@) =~= position_keys(vs));
    let order = order_by_key(&keys);
    proof {
        let ks = key_views(keys@);
        let chosen = ranking_of(ks);
        assert(is_ranking(chosen, ks));
        lemma_ranking_unique(order@, chosen, ks);
    }
    let clusters = sweep_blocks(results, &order, limit);
    let groups = arrange(&clusters, n);
    let mut out: Vec<SearchResult> = Vec::new();
    let mut j: usize = 0;
    while j < groups.len()
        invariant
            j <= groups.len(),
            n == results@.len(),
            forall|x: int| 0 <= x < groups@.len() ==> (#[trigger] groups@[x]).first < n,
            out@.len() == j,
            vs == views(results@),
            forall|x: int|
                0 <= x < j ==> (#[trigger] out@[x])@ == merged_view(vs, sources@, groups@[x]),
        decreases groups.len() - j,
    {
        let c = groups[j];
        let head = &results[c.first];
        if c.size == 1 {
            out.push(head.duplicate());
        } else {
            let terms = union_terms(results, &head.file, c.start, c.end);
            let stats = match head.stats {
                Some(s) => Some(
                    MatchStats {
                        file_unique_terms: s.file_unique_terms,
                        file_total_matches: s.file_total_matches,
                        file_match_rank: s.file_match_rank,
                        block_unique_terms: terms.len(),
                        block_total_matches: c.total,
                    },
                ),
                None => None,
            };
            out.push(
                SearchResult {
                    file: head.file.clone(),
                    lines: (c.start, c.end),
                    node_type: head.node_type.clone(),
                    code: code_of(sources, &head.file, c.start, c.end),
                    matched_by_filename: head.matched_by_filename,
                    matched_terms: terms,
                    stats,
                    ranking: c.ranking,
                    parent_file_id: head.parent_file_id,
                    block_id: head.block_id,
                },
            );
        }
        j += 1;
    }
    assert(views(out@) =~= merged(vs, sources@, limit));
    out
}

} // verus!
