//! The order of the results: a stable sort by score with the tie-breaks by
//! path and line, and the ranks that follow from it.

use crate::models::{views, MatchStats, Ranking, ResultView, SearchResult};
use crate::terms::{is_word_char, stem, stem_of, word_char};
use crate::text::{
    chars_before, chars_of, fold_chars, folded, lemma_seq_before_irreflexive,
    lemma_seq_before_total, lemma_seq_before_transitive, same_chars, seq_before, slice_chars,
    string_of, texts,
};
use vstd::pervasive::VecAdditionalExecFns;
use vstd::prelude::*;

verus! {

/// What a block is ordered by: the larger `major` first, then the larger
/// `minor`, then the path in lexicographic order, then the lower line.
pub struct SortKey {
    pub major: u128,
    pub minor: u128,
    pub path: String,
    pub line: usize,
}

/// A key with its path as a character sequence.
pub struct KeyView {
    pub major: u128,
    pub minor: u128,
    pub path: Seq<char>,
    pub line: usize,
}

impl View for SortKey {
    type V = KeyView;

    open spec fn view(&self) -> KeyView {
        KeyView { major: self.major, minor: self.minor, path: self.path@, line: self.line }
    }
}

/// The views of a sequence of keys.
pub open spec fn key_views(keys: Seq<SortKey>) -> Seq<KeyView> {
    keys.map_values(|k: SortKey| k@)
}

/// A block with key `a` comes strictly before one with key `b`.
pub open spec fn key_before(a: KeyView, b: KeyView) -> bool {
    a.major > b.major || (a.major == b.major && (a.minor > b.minor || (a.minor == b.minor && (
    seq_before(a.path, b.path) || (a.path == b.path && a.line < b.line)))))
}

/// The block at `i` comes before the block at `j`: by its key, or, with keys
/// that tie, by its position.
pub open spec fn precedes(keys: Seq<KeyView>, i: int, j: int) -> bool {
    key_before(keys[i], keys[j]) || (!key_before(keys[j], keys[i]) && i < j)
}

/// `order` lists the positions of `keys`, each once, so that each comes
/// before all that follow it.
pub open spec fn is_ranking(order: Seq<usize>, keys: Seq<KeyView>) -> bool {
    &&& order.len() == keys.len()
    &&& forall|a: int| 0 <= a < order.len() ==> (#[trigger] order[a]) < keys.len()
    &&& forall|a: int, b: int|
        0 <= a < b < order.len() ==> precedes(keys, #[trigger] order[a] as int, #[trigger] order[b] as int)
    &&& forall|x: usize| x < keys.len() ==> #[trigger] order.contains(x)
}

/// `precedes` is transitive, and of two positions one precedes the other.
pub proof fn lemma_precedes(keys: Seq<KeyView>, i: int, j: int, k: int)
    ensures
        precedes(keys, i, j) && precedes(keys, j, k) ==> precedes(keys, i, k),
        i != j ==> (precedes(keys, i, j) || precedes(keys, j, i)),
        !(precedes(keys, i, j) && precedes(keys, j, i)),
{
    let a = keys[i].path;
    let b = keys[j].path;
    let c = keys[k].path;
    lemma_seq_before_irreflexive(a);
    lemma_seq_before_irreflexive(b);
    lemma_seq_before_irreflexive(c);
    lemma_seq_before_total(a, b);
    lemma_seq_before_total(b, c);
    lemma_seq_before_total(a, c);
    if seq_before(a, b) && seq_before(b, c) {
        lemma_seq_before_transitive(a, b, c);
    }
    if seq_before(c, b) && seq_before(b, a) {
        lemma_seq_before_transitive(c, b, a);
    }
    if seq_before(b, c) && seq_before(c, a) {
        lemma_seq_before_transitive(b, c, a);
    }
    if seq_before(c, a) && seq_before(a, b) {
        lemma_seq_before_transitive(c, a, b);
    }
    if seq_before(a, c) && seq_before(c, b) {
        lemma_seq_before_transitive(a, c, b);
    }
    if seq_before(b, a) && seq_before(a, c) {
        lemma_seq_before_transitive(b, a, c);
    }
}

/// A ranking lists no position twice.
pub proof fn lemma_ranking_distinct(order: Seq<usize>, keys: Seq<KeyView>, a: int, b: int)
    requires
        is_ranking(order, keys),
        0 <= a < b < order.len(),
    ensures
        order[a] != order[b],
{
    lemma_precedes(keys, order[a] as int, order[b] as int, order[a] as int);
    lemma_seq_before_irreflexive(keys[order[a] as int].path);
}

/// Decides whether key `a` comes strictly before key `b`.
pub fn comes_before(a: &SortKey, b: &SortKey) -> (r: bool)
    ensures
        r == key_before(a@, b@),
{
    if a.major != b.major {
        return a.major > b.major;
    }
    if a.minor != b.minor {
        return a.minor > b.minor;
    }
    let pa = chars_of(a.path.as_str());
    let pb = chars_of(b.path.as_str());
    if chars_before(&pa, &pb) {
        return true;
    }
    if chars_before(&pb, &pa) {
        proof {
            lemma_seq_before_total(a.path@, b.path@);
            lemma_seq_before_irreflexive(a.path@);
        }
        return false;
    }
    proof {
        lemma_seq_before_total(a.path@, b.path@);
    }
    a.line < b.line
}

/// Sorts the positions of `keys`: best key first, ties in their given order.
pub fn order_by_key(keys: &Vec<SortKey>) -> (order: Vec<usize>)
    ensures
        is_ranking(order@, key_views(keys@)),
{
    let ghost ks = key_views(keys@);
    let mut order: Vec<usize> = Vec::new();
    let mut i: usize = 0;
    while i < keys.len()
        invariant
            i <= keys.len(),
            ks == key_views(keys@),
            order@.len() == i,
            forall|x: usize| x < i ==> #[trigger] order@.contains(x),
            forall|a: int| 0 <= a < order@.len() ==> (#[trigger] order@[a]) < i,
            forall|a: int, b: int|
                0 <= a < b < order@.len() ==> precedes(
                    ks,
                    #[trigger] order@[a] as int,
                    #[trigger] order@[b] as int,
                ),
        decreases keys.len() - i,
    {
        let mut p: usize = order.len();
        while p > 0 && comes_before(&keys[i], &keys[order[p - 1]])
            invariant
                p <= order@.len(),
                i < keys.len(),
                ks == key_views(keys@),
                forall|a: int| 0 <= a < order@.len() ==> (#[trigger] order@[a]) < i,
                forall|b: int|
                    p <= b < order@.len() ==> key_before(ks[i as int], ks[(
                    #[trigger] order@[b]) as int]),
            decreases p,
        {
            p -= 1;
        }
        let ghost before = order@;
        order.insert(p, i);
        proof {
            let after = order@;
            assert forall|a: int, b: int| 0 <= a < b < after.len() implies precedes(
                ks,
                #[trigger] after[a] as int,
                #[trigger] after[b] as int,
            ) by {
                if b < p {
                    assert(after[a] == before[a] && after[b] == before[b]);
                } else if b == p {
                    assert(after[a] == before[a]);
                    assert(before[a] < i);
                    if a == p - 1 {
                        assert(!key_before(ks[i as int], ks[before[a] as int]));
                    } else {
                        assert(precedes(ks, before[a] as int, before[p - 1] as int));
                        assert(before[p - 1] < i);
                        lemma_precedes(ks, before[a] as int, before[p - 1] as int, i as int);
                    }
                } else if a < p {
                    assert(after[a] == before[a] && after[b] == before[b - 1]);
                } else if a == p {
                    assert(after[b] == before[b - 1]);
                } else {
                    assert(after[a] == before[a - 1] && after[b] == before[b - 1]);
                }
            }
            assert forall|x: usize| x < i + 1 implies #[trigger] after.contains(x) by {
                if x < i {
                    assert(before.contains(x));
                    let a = choose|a: int| 0 <= a < before.len() && before[a] == x;
                    if a < p {
                        assert(after[a] == x);
                    } else {
                        assert(after[a + 1] == x);
                    }
                } else {
                    assert(after[p as int] == x);
                }
            }
            assert forall|a: int| 0 <= a < after.len() implies (#[trigger] after[a]) < i + 1 by {
                if a < p {
                    assert(after[a] == before[a]);
                } else if a > p {
                    assert(after[a] == before[a - 1]);
                }
            }
        }
        i += 1;
    }
    order
}

/// The ranking of the keys; `is_ranking` admits one sequence at most.
pub open spec fn ranking_of(keys: Seq<KeyView>) -> Seq<usize> {
    choose|order: Seq<usize>| is_ranking(order, keys)
}

/// Two rankings of the same keys are the same.
pub proof fn lemma_ranking_unique(a: Seq<usize>, b: Seq<usize>, keys: Seq<KeyView>)
    requires
        is_ranking(a, keys),
        is_ranking(b, keys),
    ensures
        a == b,
{
    assert forall|k: int| 0 <= k < a.len() implies a[k] == b[k] by {
        lemma_ranking_agree(a, b, keys, k);
    }
    assert(a =~= b);
}

proof fn lemma_ranking_agree(a: Seq<usize>, b: Seq<usize>, keys: Seq<KeyView>, k: int)
    requires
        is_ranking(a, keys),
        is_ranking(b, keys),
        0 <= k < a.len(),
    ensures
        a[k] == b[k],
    decreases k,
{
    // Both sequences agree before `k`; the element at `k` of each must then
    // stand at or after `k` in the other, and the order settles the rest.
    assert forall|j: int| 0 <= j < k implies a[j] == b[j] by {
        lemma_ranking_agree(a, b, keys, j);
    }
    let x = a[k];
    let y = b[k];
    assert(b.contains(x));
    assert(a.contains(y));
    let ib = choose|i: int| 0 <= i < b.len() && b[i] == x;
    let ia = choose|i: int| 0 <= i < a.len() && a[i] == y;
    if ib < k {
        assert(a[ib] == b[ib]);
        lemma_ranking_distinct(a, keys, ib, k);
    }
    if ia < k {
        assert(a[ia] == b[ia]);
        lemma_ranking_distinct(b, keys, ia, k);
    }
    if x != y {
        assert(ib > k);
        assert(ia > k);
        assert(precedes(keys, b[k] as int, b[ib] as int));
        assert(precedes(keys, a[k] as int, a[ia] as int));
        lemma_precedes(keys, x as int, y as int, x as int);
    }
}

/// Where position `x` goes among `order`: the first place at or after `from`
/// whose entry `x` precedes, or the length.
pub open spec fn slot(order: Seq<usize>, keys: Seq<KeyView>, x: int, from: int) -> int
    decreases order.len() - from,
{
    if from < 0 || from >= order.len() {
        order.len() as int
    } else if precedes(keys, x, order[from] as int) {
        from
    } else {
        slot(order, keys, x, from + 1)
    }
}

/// The first `n` positions, sorted by inserting one after the other.
pub open spec fn sorted_first(keys: Seq<KeyView>, n: int) -> Seq<usize>
    decreases n,
{
    if n <= 0 {
        seq![]
    } else {
        let prev = sorted_first(keys, n - 1);
        prev.insert(slot(prev, keys, n - 1, 0), (n - 1) as usize)
    }
}

/// `order` lists the first `n` positions, each once, every one before all
/// that follow it.
pub open spec fn ranks_first(order: Seq<usize>, keys: Seq<KeyView>, n: int) -> bool {
    &&& order.len() == n
    &&& forall|a: int| 0 <= a < order.len() ==> (#[trigger] order[a]) < n
    &&& forall|a: int, b: int|
        0 <= a < b < order.len() ==> precedes(keys, #[trigger] order[a] as int, #[trigger] order[b] as int)
    &&& forall|x: usize| x < n ==> #[trigger] order.contains(x)
}

proof fn lemma_slot(order: Seq<usize>, keys: Seq<KeyView>, x: int, from: int)
    requires
        0 <= from <= order.len(),
    ensures
        from <= slot(order, keys, x, from) <= order.len(),
        forall|a: int| from <= a < slot(order, keys, x, from) ==> !precedes(keys, x, #[trigger] order[a] as int),
        slot(order, keys, x, from) < order.len() ==> precedes(
            keys,
            x,
            order[slot(order, keys, x, from)] as int,
        ),
    decreases order.len() - from,
{
    if from < order.len() && !precedes(keys, x, order[from] as int) {
        lemma_slot(order, keys, x, from + 1);
    }
}

proof fn lemma_sorted_first(keys: Seq<KeyView>, n: int)
    requires
        0 <= n <= keys.len(),
        n <= usize::MAX,
    ensures
        ranks_first(sorted_first(keys, n), keys, n),
    decreases n,
{
    if n > 0 {
        lemma_sorted_first(keys, n - 1);
        let prev = sorted_first(keys, n - 1);
        let x = n - 1;
        let p = slot(prev, keys, x, 0);
        lemma_slot(prev, keys, x, 0);
        let now = sorted_first(keys, n);
        assert(now == prev.insert(p, x as usize));
        assert forall|a: int| 0 <= a < now.len() implies (#[trigger] now[a]) < n by {
            if a < p {
                assert(now[a] == prev[a]);
            } else if a > p {
                assert(now[a] == prev[a - 1]);
            }
        }
        assert forall|a: int, b: int| 0 <= a < b < now.len() implies precedes(
            keys,
            #[trigger] now[a] as int,
            #[trigger] now[b] as int,
        ) by {
            if b < p {
                assert(now[a] == prev[a] && now[b] == prev[b]);
            } else if b == p {
                assert(now[a] == prev[a]);
                assert(!precedes(keys, x, prev[a] as int));
                lemma_precedes(keys, x, prev[a] as int, x);
            } else if a < p {
                assert(now[a] == prev[a] && now[b] == prev[b - 1]);
            } else if a == p {
                assert(now[b] == prev[b - 1]);
                if b - 1 > p {
                    assert(precedes(keys, prev[p] as int, prev[b - 1] as int));
                    lemma_precedes(keys, x, prev[p] as int, prev[b - 1] as int);
                }
            } else {
                assert(now[a] == prev[a - 1] && now[b] == prev[b - 1]);
            }
        }
        assert forall|y: usize| y < n implies #[trigger] now.contains(y) by {
            if y < n - 1 {
                assert(prev.contains(y));
                let a = choose|a: int| 0 <= a < prev.len() && prev[a] == y;
                if a < p {
                    assert(now[a] == y);
                } else {
                    assert(now[a + 1] == y);
                }
            } else {
                assert(now[p] == y);
            }
        }
    }
}

/// Keys have a ranking, as long as their positions fit the machine.
pub proof fn lemma_ranking_exists(keys: Seq<KeyView>)
    requires
        keys.len() <= usize::MAX,
    ensures
        is_ranking(ranking_of(keys), keys),
{
    lemma_sorted_first(keys, keys.len() as int);
    assert(is_ranking(sorted_first(keys, keys.len() as int), keys));
}

/// Every position below the length stands in `order`, each once.
pub open spec fn is_permutation(order: Seq<usize>) -> bool {
    &&& forall|a: int| 0 <= a < order.len() ==> (#[trigger] order[a]) < order.len()
    &&& forall|a: int, b: int| 0 <= a < b < order.len() ==> #[trigger] order[a] != #[trigger] order[b]
    &&& forall|x: usize| x < order.len() ==> #[trigger] order.contains(x)
}

/// A ranking is a permutation.
pub proof fn lemma_ranking_is_permutation(order: Seq<usize>, keys: Seq<KeyView>)
    requires
        is_ranking(order, keys),
    ensures
        is_permutation(order),
{
    assert forall|a: int, b: int| 0 <= a < b < order.len() implies #[trigger] order[a]
        != #[trigger] order[b] by {
        lemma_ranking_distinct(order, keys, a, b);
    }
}

/// In a permutation every position is found where it stands.
pub proof fn lemma_index_of(order: Seq<usize>, k: int)
    requires
        is_permutation(order),
        0 <= k < order.len(),
    ensures
        order.index_of(order[k]) == k,
{
    let j = order.index_of(order[k]);
    assert(0 <= j < order.len() && order[j] == order[k]);
    if j < k {
        assert(order[j] != order[k]);
    }
    if k < j {
        assert(order[k] != order[j]);
    }
}

/// The place of every position in a permutation, counted from 1.
pub fn places(order: &Vec<usize>) -> (out: Vec<usize>)
    requires
        is_permutation(order@),
    ensures
        out@.len() == order@.len(),
        forall|i: int| 0 <= i < out@.len() ==> #[trigger] out@[i] == order@.index_of(i as usize) + 1,
{
    let n: usize = order.len();
    let mut out: Vec<usize> = Vec::new();
    let mut i: usize = 0;
    while i < n
        invariant
            i <= n,
            out@.len() == i,
        decreases n - i,
    {
        out.push(0);
        i += 1;
    }
    let mut k: usize = 0;
    while k < n
        invariant
            k <= n,
            n == order@.len(),
            out@.len() == n,
            is_permutation(order@),
            forall|a: int| 0 <= a < k ==> out@[(#[trigger] order@[a]) as int] == a + 1,
        decreases n - k,
    {
        let ghost before = out@;
        out.set(order[k], k + 1);
        proof {
            assert forall|a: int| 0 <= a < k + 1 implies out@[(#[trigger] order@[a]) as int] == a
                + 1 by {
                if a < k {
                    assert(order@[a] != order@[k as int]);
                    assert(before[order@[a] as int] == a + 1);
                }
            }
        }
        k += 1;
    }
    proof {
        assert forall|i: int| 0 <= i < out@.len() implies #[trigger] out@[i] == order@.index_of(
            i as usize,
        ) + 1 by {
            assert(order@.contains(i as usize));
            let a = choose|a: int| 0 <= a < order@.len() && order@[a] == i as usize;
            lemma_index_of(order@, a);
            assert(out@[order@[a] as int] == a + 1);
        }
    }
    out
}

/// The integer scores of one block. Each orders the blocks as the lexical
/// score it stands for does: a larger number is a better block.
#[derive(Clone, Copy, Debug)]
pub struct Scores {
    /// The TF-IDF score.
    pub tfidf: u64,
    /// The BM25 score.
    pub bm25: u64,
}

/// The strategy that decides the final order.
#[derive(Clone, Copy, Debug, PartialEq, Eq, Structural)]
pub enum Reranker {
    /// The places by TF-IDF and by BM25, the place of the file and the share
    /// of the terms found in the block, weighed 3 : 4 : 2 : 1.
    Hybrid,
    /// TF-IDF alone.
    Tfidf,
    /// BM25 alone.
    Bm25,
    /// The sum of the places by TF-IDF and by BM25, both weighing the same.
    Hybrid2,
}

/// The reranker of a name: `hybrid`, `tfidf`, `bm25` or `hybrid2`.
pub fn parse_reranker(name: &str) -> (out: Option<Reranker>)
    ensures
        out == if name@ == "hybrid"@ {
            Some(Reranker::Hybrid)
        } else if name@ == "tfidf"@ {
            Some(Reranker::Tfidf)
        } else if name@ == "bm25"@ {
            Some(Reranker::Bm25)
        } else if name@ == "hybrid2"@ {
            Some(Reranker::Hybrid2)
        } else {
            None
        },
{
    let n = chars_of(name);
    if same_chars(&n, &chars_of("hybrid")) {
        Some(Reranker::Hybrid)
    } else if same_chars(&n, &chars_of("tfidf")) {
        Some(Reranker::Tfidf)
    } else if same_chars(&n, &chars_of("bm25")) {
        Some(Reranker::Bm25)
    } else if same_chars(&n, &chars_of("hybrid2")) {
        Some(Reranker::Hybrid2)
    } else {
        None
    }
}

/// The keys of the blocks for the given leading numbers: ties between equal
/// numbers are broken by the path and then by the first line of the block.
pub open spec fn keys_by(results: Seq<ResultView>, majors: Seq<u128>) -> Seq<KeyView> {
    Seq::new(
        results.len(),
        |i: int| KeyView { major: majors[i], minor: 0, path: results[i].file, line: results[i].lines.0 },
    )
}

/// The place of position `i` in `order`, counted from 1.
pub open spec fn place_of(order: Seq<usize>, i: usize) -> usize {
    (order.index_of(i) + 1) as usize
}

/// The TF-IDF scores of the blocks.
pub open spec fn tfidf_majors(scores: Seq<Scores>) -> Seq<u128> {
    Seq::new(scores.len(), |i: int| scores[i].tfidf as u128)
}

/// The BM25 scores of the blocks.
pub open spec fn bm25_majors(scores: Seq<Scores>) -> Seq<u128> {
    Seq::new(scores.len(), |i: int| scores[i].bm25 as u128)
}

/// The unit of the shares that the hybrid reranker adds up: a share of 1.
pub const SCALE: u128 = 1_000_000;

/// The share `a / b` in units of a millionth, rounded down; a share of 1 if
/// `a` is not below `b`.
pub open spec fn scaled(a: nat, b: nat) -> nat {
    if a >= b {
        SCALE as nat
    } else {
        a * SCALE as nat / b
    }
}

/// `a - b`, or 0 if `b` is the larger.
pub open spec fn minus(a: nat, b: nat) -> nat {
    if a >= b {
        (a - b) as nat
    } else {
        0
    }
}

/// The score of a place among `n`: 1 for the first place, 0 for the last.
pub open spec fn place_share(place: usize, n: nat) -> nat {
    scaled(minus(n, place as nat), minus(n, 1))
}

/// The number of files that the blocks come from: the largest place of a file.
pub open spec fn file_count(results: Seq<ResultView>) -> nat
    decreases results.len(),
{
    if results.len() == 0 {
        0
    } else {
        let rest = file_count(results.drop_last());
        match results.last().stats {
            Some(s) => if s.file_match_rank > rest {
                s.file_match_rank as nat
            } else {
                rest
            },
            None => rest,
        }
    }
}

/// The score of the place of the file of a block: 1 for the first file, 0
/// for the last of `files`, and for a block without statistics.
pub open spec fn file_share(r: ResultView, files: nat) -> nat {
    match r.stats {
        Some(s) => scaled(minus(files, s.file_match_rank as nat), minus(files, 1)),
        None => 0,
    }
}

/// The share of the `terms` of the query that the block holds.
pub open spec fn term_share(r: ResultView, terms: nat) -> nat {
    match r.stats {
        Some(s) => scaled(s.block_unique_terms as nat, terms),
        None => 0,
    }
}

/// The number that decides the final place of a block. For `tfidf` and
/// `bm25` it is the score of that name. For `hybrid2` it is how far the
/// block stays, by both metrics together, from the last place. For `hybrid`
/// it is the sum of four shares with the weights 0.3, 0.4, 0.2 and 0.1, in
/// units of a ten-millionth: the place by TF-IDF, the place by BM25, the
/// place of the file, and the share of the terms found in the block.
pub open spec fn final_major(
    reranker: Reranker,
    r: ResultView,
    s: Scores,
    tfidf_place: usize,
    bm25_place: usize,
    n: nat,
    files: nat,
    terms: nat,
) -> u128 {
    match reranker {
        Reranker::Hybrid => (3 * place_share(tfidf_place, n) + 4 * place_share(bm25_place, n) + 2
            * file_share(r, files) + term_share(r, terms)) as u128,
        Reranker::Tfidf => s.tfidf as u128,
        Reranker::Bm25 => s.bm25 as u128,
        Reranker::Hybrid2 => ((n - tfidf_place) + (n - bm25_place)) as u128,
    }
}

/// The deciding numbers of all blocks.
pub open spec fn final_majors(
    reranker: Reranker,
    results: Seq<ResultView>,
    scores: Seq<Scores>,
    terms: nat,
) -> Seq<u128> {
    let t = ranking_of(keys_by(results, tfidf_majors(scores)));
    let b = ranking_of(keys_by(results, bm25_majors(scores)));
    Seq::new(
        results.len(),
        |i: int|
            final_major(
                reranker,
                results[i],
                scores[i],
                place_of(t, i as usize),
                place_of(b, i as usize),
                results.len(),
                file_count(results),
                terms,
            ),
    )
}

/// A result with its ranking attached.
pub open spec fn ranked_view(r: ResultView, ranking: Ranking) -> ResultView {
    ResultView { ranking: Some(ranking), ..r }
}

/// The ranked results: the blocks in their final order, best first, each
/// with its rank, the number that decided it, and its places and scores by
/// TF-IDF and by BM25. Equal numbers are ordered by path and then by first line.
pub open spec fn ranked(
    results: Seq<ResultView>,
    scores: Seq<Scores>,
    reranker: Reranker,
    terms: nat,
) -> Seq<ResultView> {
    let t = ranking_of(keys_by(results, tfidf_majors(scores)));
    let b = ranking_of(keys_by(results, bm25_majors(scores)));
    let f = final_majors(reranker, results, scores, terms);
    let order = ranking_of(keys_by(results, f));
    Seq::new(
        results.len(),
        |k: int|
            ranked_view(
                results[order[k] as int],
                Ranking {
                    rank: (k + 1) as usize,
                    score: f[order[k] as int],
                    tfidf_rank: place_of(t, order[k]),
                    bm25_rank: place_of(b, order[k]),
                    tfidf_score: scores[order[k] as int].tfidf,
                    bm25_score: scores[order[k] as int].bm25,
                },
            ),
    )
}

/// Ranking reorders the blocks and touches nothing but their rankings: the
/// block at every place of the ranked results is one of the blocks given,
/// with its ranking attached.
pub proof fn lemma_ranked_keeps_blocks(
    results: Seq<ResultView>,
    scores: Seq<Scores>,
    reranker: Reranker,
    terms: nat,
    k: int,
)
    requires
        results.len() <= usize::MAX,
        0 <= k < results.len(),
    ensures
        ranked(results, scores, reranker, terms).len() == results.len(),
        exists|i: int|
            0 <= i < results.len() && ranked(results, scores, reranker, terms)[k] == (ResultView {
                ranking: ranked(results, scores, reranker, terms)[k].ranking,
                ..#[trigger] results[i]
            }),
{
    let f = final_majors(reranker, results, scores, terms);
    let keys = keys_by(results, f);
    lemma_ranking_exists(keys);
    let order = ranking_of(keys);
    let i = order[k] as int;
    assert(0 <= i < results.len());
    assert(ranked(results, scores, reranker, terms)[k] == (ResultView {
        ranking: ranked(results, scores, reranker, terms)[k].ranking,
        ..results[i]
    }));
}

/// Ranking leaves no block out: every block given stands at some place of
/// the ranked results, with its ranking attached.
pub proof fn lemma_ranked_holds_all(
    results: Seq<ResultView>,
    scores: Seq<Scores>,
    reranker: Reranker,
    terms: nat,
    i: int,
) -> (k: int)
    requires
        results.len() <= usize::MAX,
        0 <= i < results.len(),
    ensures
        ranked(results, scores, reranker, terms).len() == results.len(),
        0 <= k < results.len(),
        ranked(results, scores, reranker, terms)[k] == (ResultView {
            ranking: ranked(results, scores, reranker, terms)[k].ranking,
            ..results[i]
        }),
{
    let f = final_majors(reranker, results, scores, terms);
    let keys = keys_by(results, f);
    lemma_ranking_exists(keys);
    let order = ranking_of(keys);
    assert(order.contains(i as usize));
    let k = choose|k: int| 0 <= k < order.len() && order[k] == i as usize;
    k
}

/// Under `bm25` the block with the higher BM25 score comes first, and under
/// `tfidf` the block with the higher TF-IDF score: of two blocks with
/// different scores, the one with the higher score stands at an earlier
/// place of the ranked results.
pub proof fn lemma_higher_score_comes_first(
    results: Seq<ResultView>,
    scores: Seq<Scores>,
    reranker: Reranker,
    terms: nat,
    i: int,
    j: int,
) -> (places: (int, int))
    requires
        results.len() <= usize::MAX,
        results.len() == scores.len(),
        0 <= i < results.len(),
        0 <= j < results.len(),
        (reranker is Bm25 && scores[i].bm25 > scores[j].bm25) || (reranker is Tfidf
            && scores[i].tfidf > scores[j].tfidf),
    ensures
        0 <= places.0 < places.1 < results.len(),
        ranked(results, scores, reranker, terms)[places.0] == (ResultView {
            ranking: ranked(results, scores, reranker, terms)[places.0].ranking,
            ..results[i]
        }),
        ranked(results, scores, reranker, terms)[places.1] == (ResultView {
            ranking: ranked(results, scores, reranker, terms)[places.1].ranking,
            ..results[j]
        }),
{
    let f = final_majors(reranker, results, scores, terms);
    let keys = keys_by(results, f);
    lemma_ranking_exists(keys);
    let order = ranking_of(keys);
    assert(order.contains(i as usize));
    assert(order.contains(j as usize));
    let a = choose|a: int| 0 <= a < order.len() && order[a] == i as usize;
    let b = choose|b: int| 0 <= b < order.len() && order[b] == j as usize;
    assert(keys[i].major > keys[j].major);
    assert(key_before(keys[i], keys[j]) && !key_before(keys[j], keys[i]));
    if b < a {
        assert(precedes(keys, order[b] as int, order[a] as int));
    }
    (a, b)
}

/// Ranking leaves blocks apart that were apart: where no two of the blocks
/// given have the same file and lines, no two of the ranked blocks have.
pub proof fn lemma_ranked_distinct(
    results: Seq<ResultView>,
    scores: Seq<Scores>,
    reranker: Reranker,
    terms: nat,
)
    requires
        results.len() <= usize::MAX,
        crate::models::distinct_places(results),
    ensures
        crate::models::distinct_places(ranked(results, scores, reranker, terms)),
{
    let f = final_majors(reranker, results, scores, terms);
    let keys = keys_by(results, f);
    lemma_ranking_exists(keys);
    let order = ranking_of(keys);
    lemma_ranking_is_permutation(order, keys);
    let out = ranked(results, scores, reranker, terms);
    assert forall|a: int, b: int| 0 <= a < b < out.len() implies !crate::models::same_place(
        #[trigger] out[a],
        #[trigger] out[b],
    ) by {
        let x = order[a] as int;
        let y = order[b] as int;
        assert(x != y);
        assert(out[a].file == results[x].file && out[a].lines == results[x].lines);
        assert(out[b].file == results[y].file && out[b].lines == results[y].lines);
        if x < y {
            assert(!crate::models::same_place(results[x], results[y]));
        } else {
            assert(!crate::models::same_place(results[y], results[x]));
        }
    }
}

fn scale(a: usize, b: usize) -> (r: u128)
    ensures
        r == scaled(a as nat, b as nat),
        r <= SCALE,
{
    if a >= b {
        SCALE
    } else {
        assert(a * 1_000_000 <= 0xFFFF_FFFF_FFFF_FFFF * 1_000_000) by (nonlinear_arith)
            requires
                a <= 0xFFFF_FFFF_FFFF_FFFF,
        ;
        assert(a * 1_000_000 / (b as int) <= 1_000_000) by (nonlinear_arith)
            requires
                0 <= a < b,
        ;
        (a as u128 * SCALE) / (b as u128)
    }
}

fn less(a: usize, b: usize) -> (r: usize)
    ensures
        r == minus(a as nat, b as nat),
{
    if a >= b {
        a - b
    } else {
        0
    }
}

fn hybrid_score(
    r: &SearchResult,
    tfidf_place: usize,
    bm25_place: usize,
    n: usize,
    files: usize,
    terms: usize,
) -> (out: u128)
    ensures
        out == 3 * place_share(tfidf_place, n as nat) + 4 * place_share(bm25_place, n as nat) + 2
            * file_share(r@, files as nat) + term_share(r@, terms as nat),
{
    let by_tfidf = scale(less(n, tfidf_place), less(n, 1));
    let by_bm25 = scale(less(n, bm25_place), less(n, 1));
    let (by_file, by_terms) = match r.stats {
        Some(st) => (
            scale(less(files, st.file_match_rank), less(files, 1)),
            scale(st.block_unique_terms, terms),
        ),
        None => (0, 0),
    };
    3 * by_tfidf + 4 * by_bm25 + 2 * by_file + by_terms
}

fn count_files(results: &Vec<SearchResult>) -> (n: usize)
    ensures
        n == file_count(views(results@)),
{
    let ghost vs = views(results@);
    let mut n: usize = 0;
    let mut i: usize = 0;
    assert(vs.take(0) =~= Seq::<ResultView>::empty());
    while i < results.len()
        invariant
            i <= results.len(),
            vs == views(results@),
            n == file_count(vs.take(i as int)),
        decreases results.len() - i,
    {
        proof {
            assert(vs.take(i + 1).drop_last() =~= vs.take(i as int));
            assert(vs.take(i + 1).last() == results@[i as int]@);
        }
        match results[i].stats {
            Some(s) => {
                if s.file_match_rank > n {
                    n = s.file_match_rank;
                }
            },
            None => {},
        }
        i += 1;
    }
    assert(vs.take(vs.len() as int) =~= vs);
    n
}

fn keys_for(results: &Vec<SearchResult>, majors: &Vec<u128>) -> (out: Vec<SortKey>)
    requires
        results@.len() == majors@.len(),
    ensures
        key_views(out@) == keys_by(views(results@), majors@),
{
    let mut out: Vec<SortKey> = Vec::new();
    let mut i: usize = 0;
    while i < results.len()
        invariant
            i <= results.len(),
            results@.len() == majors@.len(),
            out@.len() == i,
            forall|k: int|
                0 <= k < i ==> (#[trigger] out@[k])@ == keys_by(views(results@), majors@)[k],
        decreases results.len() - i,
    {
        out.push(
            SortKey {
                major: majors[i],
                minor: 0,
                path: results[i].file.clone(),
                line: results[i].lines.0,
            },
        );
        i += 1;
    }
    assert(key_views(out@) =~= keys_by(views(results@), majors@));
    out
}

fn ranking_for(results: &Vec<SearchResult>, majors: &Vec<u128>) -> (order: Vec<usize>)
    requires
        results@.len() == majors@.len(),
    ensures
        order@ == ranking_of(keys_by(views(results@), majors@)),
        is_ranking(order@, keys_by(views(results@), majors@)),
        is_permutation(order@),
        order@.len() == results@.len(),
{
    let keys = keys_for(results, majors);
    let order = order_by_key(&keys);
    proof {
        let ks = key_views(keys@);
        let chosen = ranking_of(ks);
        assert(is_ranking(chosen, ks));
        lemma_ranking_unique(order@, chosen, ks);
        lemma_ranking_is_permutation(order@, ks);
    }
    order
}

/// Ranks the blocks. `scores` gives, block by block, the integer scores that
/// stand for the lexical scores; the reranker says which of them decides.
/// The result lists the blocks best first and attaches to each its rank.
pub fn rank_search_results(
    results: &Vec<SearchResult>,
    scores: &Vec<Scores>,
    reranker: Reranker,
    terms: usize,
) -> (out: Vec<SearchResult>)
    requires
        results@.len() == scores@.len(),
    ensures
        views(out@) == ranked(views(results@), scores@, reranker, terms as nat),
{
    let n: usize = results.len();
    let files: usize = count_files(results);
    let mut tfidf: Vec<u128> = Vec::new();
    let mut bm25: Vec<u128> = Vec::new();
    let mut i: usize = 0;
    while i < n
        invariant
            i <= n,
            n == scores@.len(),
            tfidf@.len() == i,
            bm25@.len() == i,
            forall|k: int| 0 <= k < i ==> #[trigger] tfidf@[k] == scores@[k].tfidf as u128,
            forall|k: int| 0 <= k < i ==> #[trigger] bm25@[k] == scores@[k].bm25 as u128,
        decreases n - i,
    {
        tfidf.push(scores[i].tfidf as u128);
        bm25.push(scores[i].bm25 as u128);
        i += 1;
    }
    assert(tfidf@ =~= tfidf_majors(scores@));
    assert(bm25@ =~= bm25_majors(scores@));
    let t_order = ranking_for(results, &tfidf);
    let b_order = ranking_for(results, &bm25);
    let t_place = places(&t_order);
    let b_place = places(&b_order);
    let mut majors: Vec<u128> = Vec::new();
    let mut i: usize = 0;
    while i < n
        invariant
            i <= n,
            n == scores@.len(),
            n == results@.len(),
            t_place@.len() == n,
            b_place@.len() == n,
            t_order@.len() == n,
            b_order@.len() == n,
            is_permutation(t_order@),
            is_permutation(b_order@),
            forall|k: int|
                0 <= k < n ==> #[trigger] t_place@[k] == t_order@.index_of(k as usize) + 1,
            forall|k: int|
                0 <= k < n ==> #[trigger] b_place@[k] == b_order@.index_of(k as usize) + 1,
            majors@.len() == i,
            forall|k: int|
                0 <= k < i ==> #[trigger] majors@[k] == final_major(
                    reranker,
                    results@[k]@,
                    scores@[k],
                    place_of(t_order@, k as usize),
                    place_of(b_order@, k as usize),
                    n as nat,
                    files as nat,
                    terms as nat,
                ),
        decreases n - i,
    {
        proof {
            assert(t_order@.contains(i));
            assert(b_order@.contains(i));
            let a = t_order@.index_of(i);
            let b = b_order@.index_of(i);
            assert(0 <= a < n && 0 <= b < n);
        }
        let s = scores[i];
        let major: u128 = match reranker {
            Reranker::Hybrid => hybrid_score(
                &results[i],
                t_place[i],
                b_place[i],
                n,
                files,
                terms,
            ),
            Reranker::Tfidf => s.tfidf as u128,
            Reranker::Bm25 => s.bm25 as u128,
            Reranker::Hybrid2 => (n - t_place[i]) as u128 + (n - b_place[i]) as u128,
        };
        majors.push(major);
        i += 1;
    }
    assert(majors@ =~= final_majors(reranker, views(results@), scores@, terms as nat));
    let order = ranking_for(results, &majors);
    let mut out: Vec<SearchResult> = Vec::new();
    let mut k: usize = 0;
    while k < n
        invariant
            k <= n,
            n == results@.len(),
            order@.len() == n,
            is_permutation(order@),
            t_place@.len() == n,
            b_place@.len() == n,
            majors@.len() == n,
            forall|j: int|
                0 <= j < n ==> #[trigger] t_place@[j] == t_order@.index_of(j as usize) + 1,
            forall|j: int|
                0 <= j < n ==> #[trigger] b_place@[j] == b_order@.index_of(j as usize) + 1,
            n == scores@.len(),
            out@.len() == k,
            forall|j: int|
                0 <= j < k ==> (#[trigger] out@[j])@ == ranked_view(
                    results@[order@[j] as int]@,
                    Ranking {
                        rank: (j + 1) as usize,
                        score: majors@[order@[j] as int],
                        tfidf_rank: place_of(t_order@, order@[j]),
                        bm25_rank: place_of(b_order@, order@[j]),
                        tfidf_score: scores@[order@[j] as int].tfidf,
                        bm25_score: scores@[order@[j] as int].bm25,
                    },
                ),
        decreases n - k,
    {
        let i = order[k];
        let mut r = results[i].duplicate();
        r.ranking = Some(
            Ranking {
                rank: k + 1,
                score: majors[i],
                tfidf_rank: t_place[i],
                bm25_rank: b_place[i],
                tfidf_score: scores[i].tfidf,
                bm25_score: scores[i].bm25,
            },
        );
        out.push(r);
        k += 1;
    }
    assert(views(out@) =~= ranked(views(results@), scores@, reranker, terms as nat));
    out
}

/// The keys that order the files: more hits first, then more distinct terms,
/// then the path. Blocks without statistics count as without hits.
pub open spec fn file_keys(results: Seq<ResultView>) -> Seq<KeyView> {
    Seq::new(
        results.len(),
        |i: int|
            KeyView {
                major: match results[i].stats {
                    Some(s) => s.file_total_matches as u128,
                    None => 0,
                },
                minor: match results[i].stats {
                    Some(s) => s.file_unique_terms as u128,
                    None => 0,
                },
                path: results[i].file,
                line: 0,
            },
    )
}

/// The place of the file of the block that stands at `k` in `order`: 1 for
/// the first, and one more whenever the path changes.
pub open spec fn file_place(results: Seq<ResultView>, order: Seq<usize>, k: int) -> nat
    decreases k,
{
    if k <= 0 {
        1
    } else if results[order[k] as int].file == results[order[k - 1] as int].file {
        file_place(results, order, k - 1)
    } else {
        file_place(results, order, k - 1) + 1
    }
}

/// A result with the place of its file filled in.
pub open spec fn with_file_rank(r: ResultView, place: usize) -> ResultView {
    ResultView {
        stats: match r.stats {
            Some(s) => Some(MatchStats { file_match_rank: place, ..s }),
            None => None,
        },
        ..r
    }
}

/// The results with the places of their files: the file with most hits is
/// first, ties go to the file with more distinct terms and then to the path
/// that comes first.
pub open spec fn file_ranked(results: Seq<ResultView>) -> Seq<ResultView> {
    let order = ranking_of(file_keys(results));
    Seq::new(
        results.len(),
        |i: int|
            with_file_rank(
                results[i],
                file_place(results, order, order.index_of(i as usize)) as usize,
            ),
    )
}

proof fn lemma_file_place_bound(results: Seq<ResultView>, order: Seq<usize>, k: int)
    requires
        0 <= k,
    ensures
        1 <= file_place(results, order, k) <= k + 1,
    decreases k,
{
    if k > 0 {
        lemma_file_place_bound(results, order, k - 1);
    }
}

/// Fills in the place of the file of every block.
pub fn assign_file_ranks(results: &Vec<SearchResult>) -> (out: Vec<SearchResult>)
    ensures
        views(out@) == file_ranked(views(results@)),
{
    let n: usize = results.len();
    let mut keys: Vec<SortKey> = Vec::new();
    let mut i: usize = 0;
    while i < n
        invariant
            i <= n,
            n == results@.len(),
            keys@.len() == i,
            forall|k: int| 0 <= k < i ==> (#[trigger] keys@[k])@ == file_keys(views(results@))[k],
        decreases n - i,
    {
        let (major, minor) = match results[i].stats {
            Some(s) => (s.file_total_matches as u128, s.file_unique_terms as u128),
            None => (0, 0),
        };
        keys.push(SortKey { major, minor, path: results[i].file.clone(), line: 0 });
        i += 1;
    }
    let ghost vs = views(results@);
    assert(key_views(keys@) =~= file_keys(vs));
    let order = order_by_key(&keys);
    proof {
        let ks = key_views(keys@);
        let chosen = ranking_of(ks);
        assert(is_ranking(chosen, ks));
        lemma_ranking_unique(order@, chosen, ks);
        lemma_ranking_is_permutation(order@, ks);
    }
    let mut by_block: Vec<usize> = Vec::new();
    let mut i: usize = 0;
    while i < n
        invariant
            i <= n,
            by_block@.len() == i,
        decreases n - i,
    {
        by_block.push(0);
        i += 1;
    }
    let mut place: usize = 1;
    let mut k: usize = 0;
    while k < n
        invariant
            k <= n,
            n == results@.len(),
            order@.len() == n,
            is_permutation(order@),
            by_block@.len() == n,
            vs == views(results@),
            k < n ==> place == file_place(vs, order@, k as int),
            forall|a: int|
                0 <= a < k ==> by_block@[(#[trigger] order@[a]) as int] == file_place(
                    vs,
                    order@,
                    a,
                ),
        decreases n - k,
    {
        let ghost before = by_block@;
        by_block.set(order[k], place);
        proof {
            assert forall|a: int| 0 <= a < k + 1 implies by_block@[(#[trigger] order@[a]) as int]
                == file_place(vs, order@, a) by {
                if a < k {
                    assert(order@[a] != order@[k as int]);
                    assert(before[order@[a] as int] == file_place(vs, order@, a));
                }
            }
            lemma_file_place_bound(vs, order@, k + 1);
        }
        if k + 1 < n {
            if !(results[order[k + 1]].file == results[order[k]].file) {
                place += 1;
            }
        }
        k += 1;
    }
    let mut out: Vec<SearchResult> = Vec::new();
    let mut i: usize = 0;
    while i < n
        invariant
            i <= n,
            n == results@.len(),
            order@.len() == n,
            vs == views(results@),
            order@ == ranking_of(file_keys(vs)),
            is_permutation(order@),
            by_block@.len() == n,
            forall|a: int|
                0 <= a < n ==> by_block@[(#[trigger] order@[a]) as int] == file_place(
                    vs,
                    order@,
                    a,
                ),
            out@.len() == i,
            forall|j: int| 0 <= j < i ==> (#[trigger] out@[j])@ == file_ranked(vs)[j],
        decreases n - i,
    {
        proof {
            assert(order@.contains(i));
            let a = order@.index_of(i);
            assert(0 <= a < n && order@[a] == i);
            assert(by_block@[order@[a] as int] == file_place(vs, order@, a));
        }
        let mut r = results[i].duplicate();
        r.stats = match r.stats {
            Some(s) => Some(
                MatchStats {
                    file_unique_terms: s.file_unique_terms,
                    file_total_matches: s.file_total_matches,
                    file_match_rank: by_block[i],
                    block_unique_terms: s.block_unique_terms,
                    block_total_matches: s.block_total_matches,
                },
            ),
            None => None,
        };
        out.push(r);
        i += 1;
    }
    assert(views(out@) =~= file_ranked(vs));
    out
}

/// The first position at or after `from` that holds no word character, or
/// the length.
pub open spec fn token_end(s: Seq<char>, from: int) -> int
    decreases s.len() - from,
{
    if from >= s.len() {
        s.len() as int
    } else if from >= 0 && !is_word_char(s[from]) {
        from
    } else {
        token_end(s, from + 1)
    }
}

/// A token as ranking counts it: as it stands in exact mode, else folded to
/// lower case and stemmed.
pub open spec fn normal(w: Seq<char>, exact: bool) -> Seq<char> {
    if exact {
        w
    } else {
        stem(folded(w))
    }
}

/// The tokens of a text from position `from` on: the maximal runs of word
/// characters, each made normal.
pub open spec fn tokens_from(s: Seq<char>, from: int, exact: bool) -> Seq<Seq<char>>
    decreases s.len() - from,
{
    if from < 0 || from >= s.len() {
        seq![]
    } else if !is_word_char(s[from]) {
        tokens_from(s, from + 1, exact)
    } else {
        let e = token_end(s, from);
        if from < e <= s.len() {
            seq![normal(s.subrange(from, e), exact)] + tokens_from(s, e, exact)
        } else {
            seq![]
        }
    }
}

/// The tokens of the code of a block.
pub fn tokenize_content(text: &str, exact: bool) -> (out: Vec<String>)
    ensures
        texts(out@) == tokens_from(text@, 0, exact),
{
    let chars = chars_of(text);
    let ghost s = chars@;
    let n: usize = chars.len();
    let mut out: Vec<String> = Vec::new();
    let mut pos: usize = 0;
    assert(texts(out@) + tokens_from(s, 0, exact) =~= tokens_from(s, 0, exact));
    while pos < n
        invariant
            s == chars@,
            n == chars.len(),
            pos <= n,
            texts(out@) + tokens_from(s, pos as int, exact) == tokens_from(s, 0, exact),
        decreases n - pos,
    {
        let c = chars[pos];
        if !word_char(c) {
            pos += 1;
        } else {
            let mut e: usize = pos + 1;
            assert(token_end(s, pos as int) == token_end(s, pos + 1));
            while e < n && word_char(chars[e])
                invariant
                    s == chars@,
                    n == chars.len(),
                    pos < e <= n,
                    token_end(s, pos as int) == token_end(s, e as int),
                decreases n - e,
            {
                e += 1;
            }
            let word = slice_chars(&chars, pos, e);
            let token = if exact {
                string_of(&word)
            } else {
                string_of(&stem_of(&fold_chars(&word)))
            };
            let ghost before = texts(out@);
            out.push(token);
            proof {
                assert(texts(out@) =~= before.push(normal(s.subrange(pos as int, e as int), exact)));
                assert(texts(out@) + tokens_from(s, e as int, exact) =~= before + tokens_from(
                    s,
                    pos as int,
                    exact,
                ));
            }
            pos = e;
        }
    }
    assert(texts(out@) + tokens_from(s, pos as int, exact) =~= texts(out@));
    out
}

/// How often `key` stands in `tokens`.
pub open spec fn occurrences(tokens: Seq<Seq<char>>, key: Seq<char>) -> nat
    decreases tokens.len(),
{
    if tokens.len() == 0 {
        0
    } else if tokens.last() == key {
        occurrences(tokens.drop_last(), key) + 1
    } else {
        occurrences(tokens.drop_last(), key)
    }
}

/// The term frequency: how often the key of a term stands among the tokens
/// of a block.
pub fn term_frequency(tokens: &Vec<String>, key: &str) -> (n: usize)
    ensures
        n == occurrences(texts(tokens@), key@),
{
    let ghost all = texts(tokens@);
    let wanted = chars_of(key);
    let mut n: usize = 0;
    let mut i: usize = 0;
    assert(all.take(0) =~= Seq::<Seq<char>>::empty());
    while i < tokens.len()
        invariant
            i <= tokens.len(),
            all == texts(tokens@),
            wanted@ == key@,
            n == occurrences(all.take(i as int), key@),
            n <= i,
        decreases tokens.len() - i,
    {
        let have = chars_of(tokens[i].as_str());
        proof {
            assert(all.take(i + 1).drop_last() =~= all.take(i as int));
            assert(all.take(i + 1).last() == tokens@[i as int]@);
        }
        if same_chars(&have, &wanted) {
            n += 1;
        }
        i += 1;
    }
    assert(all.take(all.len() as int) =~= all);
    n
}

/// The token lists of the blocks as sequences.
pub open spec fn documents_view(documents: Seq<Vec<String>>) -> Seq<Seq<Seq<char>>> {
    documents.map_values(|d: Vec<String>| texts(d@))
}

/// The number of token lists that hold `key`.
pub open spec fn holders(documents: Seq<Seq<Seq<char>>>, key: Seq<char>) -> nat
    decreases documents.len(),
{
    if documents.len() == 0 {
        0
    } else if occurrences(documents.last(), key) > 0 {
        holders(documents.drop_last(), key) + 1
    } else {
        holders(documents.drop_last(), key)
    }
}

/// The document frequency: the number of blocks among whose tokens the key
/// of a term stands at least once.
pub fn document_frequency(documents: &Vec<Vec<String>>, key: &str) -> (n: usize)
    ensures
        n == holders(documents_view(documents@), key@),
{
    let ghost all = documents_view(documents@);
    let mut n: usize = 0;
    let mut i: usize = 0;
    assert(all.take(0) =~= Seq::<Seq<Seq<char>>>::empty());
    while i < documents.len()
        invariant
            i <= documents.len(),
            all == documents_view(documents@),
            n == holders(all.take(i as int), key@),
            n <= i,
        decreases documents.len() - i,
    {
        proof {
            assert(all.take(i + 1).drop_last() =~= all.take(i as int));
            assert(all.take(i + 1).last() == texts(documents@[i as int]@));
        }
        if term_frequency(&documents[i], key) > 0 {
            n += 1;
        }
        i += 1;
    }
    assert(all.take(all.len() as int) =~= all);
    n
}

} // verus!
