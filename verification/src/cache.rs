//! The session cache: the regions that earlier searches of a session have
//! already returned, and the filters that hold them back.

use crate::ast::{lemma_value_of_same_terms, Expr};
use crate::hits::{
    distinct_paths, level, ordered, pair_before, FileHits, FileView, HitMap, TermLines,
};
use crate::models::{views, ResultView, SearchResult};
use crate::scan::SourceFile;
use crate::selection::{named_pass, terms_of, whole_passes};
use crate::sequences::{lemma_filter_empty, lemma_filter_none, lemma_filter_push};
use vstd::prelude::*;

verus! {

/// A region that was returned before.
pub struct CachedRange {
    pub file: String,
    pub start: usize,
    pub end: usize,
}

/// The regions returned so far under one session id.
pub struct SessionCache {
    pub session_id: String,
    pub entries: Vec<CachedRange>,
}

/// A cached region with its path as a character sequence.
pub struct RangeView {
    pub file: Seq<char>,
    pub start: usize,
    pub end: usize,
}

impl View for CachedRange {
    type V = RangeView;

    open spec fn view(&self) -> RangeView {
        RangeView { file: self.file@, start: self.start, end: self.end }
    }
}

impl View for SessionCache {
    type V = Seq<RangeView>;

    /// The cached regions in the order in which they were added.
    open spec fn view(&self) -> Seq<RangeView> {
        self.entries@.map_values(|e: CachedRange| e@)
    }
}

/// Where the session id of a search comes from.
pub enum SessionChoice {
    /// Search under this id.
    Use(String),
    /// Make up a new id and search under it.
    Generate,
    /// Search without a cache.
    Disabled,
}

/// Line `line` of `file` lies in a cached region.
pub open spec fn covers(entries: Seq<RangeView>, file: Seq<char>, line: usize) -> bool {
    exists|i: int|
        0 <= i < entries.len() && (#[trigger] entries[i]).file == file && entries[i].start <= line
            <= entries[i].end
}

/// The lines `start..=end` of `file` share a line with a cached region.
pub open spec fn overlaps(entries: Seq<RangeView>, file: Seq<char>, start: usize, end: usize) -> bool {
    exists|i: int|
        0 <= i < entries.len() && (#[trigger] entries[i]).file == file && entries[i].start <= end
            && start <= entries[i].end
}

/// The very region `start..=end` of `file` is cached.
pub open spec fn holds(entries: Seq<RangeView>, file: Seq<char>, start: usize, end: usize) -> bool {
    exists|i: int|
        0 <= i < entries.len() && (#[trigger] entries[i]).file == file && entries[i].start
            == start && entries[i].end == end
}

/// The hits of `file` that no cached region covers.
pub open spec fn fresh(entries: Seq<RangeView>, file: Seq<char>) -> spec_fn((usize, usize)) -> bool {
    |p: (usize, usize)| !covers(entries, file, p.1)
}

/// The blocks that no cached region overlaps.
pub open spec fn unseen(entries: Seq<RangeView>) -> spec_fn(ResultView) -> bool {
    |r: ResultView| !overlaps(entries, r.file, r.lines.0, r.lines.1)
}

/// The hit map without the hits on cached lines; a file that keeps no hit is
/// left out.
pub open spec fn uncached(map: Seq<FileView>, entries: Seq<RangeView>) -> Seq<FileView>
    decreases map.len(),
{
    if map.len() == 0 {
        seq![]
    } else {
        let rest = uncached(map.drop_last(), entries);
        let f = map.last();
        let left = f.pairs.filter(fresh(entries, f.path));
        if left.len() > 0 {
            rest.push(FileView { path: f.path, pairs: left, by_filename: f.by_filename })
        } else {
            rest
        }
    }
}

/// A file that satisfies an expression as a whole still does once its hits
/// on cached lines are taken out, if a hit is left: the lines that are left
/// have every term of the file.
pub proof fn lemma_fresh_hits_pass(
    f: FileView,
    entries: Seq<RangeView>,
    files: Seq<SourceFile>,
    ast: Expr,
)
    requires
        whole_passes(f, files, ast),
        f.pairs.filter(fresh(entries, f.path)).len() > 0,
    ensures
        whole_passes(
            (FileView {
                path: f.path,
                pairs: f.pairs.filter(fresh(entries, f.path)),
                by_filename: f.by_filename,
            }),
            files,
            ast,
        ),
{
    let keep = fresh(entries, f.path);
    let left = f.pairs.filter(keep);
    assert forall|p: (usize, usize)| left.contains(p) <==> f.pairs.contains(p) && keep(p) by {
        if left.contains(p) {
            f.pairs.lemma_filter_contains_rev(keep, p);
        }
        if f.pairs.contains(p) && keep(p) {
            let k = choose|k: int| 0 <= k < f.pairs.len() && f.pairs[k] == p;
            f.pairs.lemma_filter_contains(keep, k);
        }
    }
    let first = left[0];
    assert(left.contains(first));
    assert(f.pairs.contains(first) && keep(first));
    assert(level(left)) by {
        assert forall|t: usize, l: usize, u: usize, m: usize| #[trigger]
            left.contains((t, l)) && #[trigger] left.contains((u, m)) implies left.contains(
            (t, m),
        ) by {
            assert(f.pairs.contains((t, l)) && f.pairs.contains((u, m)));
            assert(f.pairs.contains((t, m)));
            assert(keep((u, m)));
            assert(keep((t, m)));
        }
    }
    let a = terms_of(left);
    let b = terms_of(f.pairs);
    assert forall|t: usize| a.contains(t) <==> b.contains(t) by {
        if a.contains(t) {
            let k = choose|k: int| 0 <= k < a.len() && a[k] == t;
            assert(left.contains(left[k]));
            let j = choose|j: int| 0 <= j < f.pairs.len() && f.pairs[j] == left[k];
            assert(b[j] == t);
        }
        if b.contains(t) {
            let j = choose|j: int| 0 <= j < b.len() && b[j] == t;
            let l = f.pairs[j].1;
            assert(f.pairs[j] == (t, l));
            assert(f.pairs.contains((t, l)));
            assert(first == (first.0, first.1));
            assert(f.pairs.contains((first.0, first.1)));
            assert(f.pairs.contains((t, first.1)));
            assert(keep((t, first.1)));
            assert(left.contains((t, first.1)));
            let k = choose|k: int| 0 <= k < left.len() && left[k] == (t, first.1);
            assert(a[k] == t);
        }
    }
    lemma_value_of_same_terms(ast, a, b, true);
}

/// The early cache filter leaves the files that are selected for their name
/// satisfying the expression as whole files.
pub proof fn lemma_uncached_keeps_named(
    map: Seq<FileView>,
    entries: Seq<RangeView>,
    files: Seq<SourceFile>,
    ast: Expr,
)
    requires
        named_pass(map, files, ast),
    ensures
        named_pass(uncached(map, entries), files, ast),
    decreases map.len(),
{
    if map.len() > 0 {
        let init = map.drop_last();
        assert forall|i: int| 0 <= i < init.len() && (#[trigger] init[i]).by_filename implies whole_passes(
            init[i],
            files,
            ast,
        ) by {
            assert(init[i] == map[i]);
        }
        lemma_uncached_keeps_named(init, entries, files, ast);
        let rest = uncached(init, entries);
        let f = map.last();
        let left = f.pairs.filter(fresh(entries, f.path));
        let out = uncached(map, entries);
        if left.len() > 0 {
            if f.by_filename {
                assert(map[map.len() - 1].by_filename);
                lemma_fresh_hits_pass(f, entries, files, ast);
            }
            assert forall|i: int| 0 <= i < out.len() && (#[trigger] out[i]).by_filename implies whole_passes(
                out[i],
                files,
                ast,
            ) by {
                if i < rest.len() {
                    assert(out[i] == rest[i]);
                }
            }
        }
    }
}

/// A file of the hit map as the early filter leaves it: without its hits on
/// cached lines.
pub open spec fn left_of(f: FileView, entries: Seq<RangeView>) -> FileView {
    FileView {
        path: f.path,
        pairs: f.pairs.filter(fresh(entries, f.path)),
        by_filename: f.by_filename,
    }
}

/// Every file that the early filter leaves is a file of the map without its
/// hits on cached lines, and has a hit.
pub proof fn lemma_uncached_entry(map: Seq<FileView>, entries: Seq<RangeView>, j: int) -> (k: int)
    requires
        0 <= j < uncached(map, entries).len(),
    ensures
        0 <= k < map.len(),
        uncached(map, entries)[j] == left_of(map[k], entries),
        left_of(map[k], entries).pairs.len() > 0,
    decreases map.len(),
{
    let init = map.drop_last();
    let rest = uncached(init, entries);
    if j < rest.len() {
        let k = lemma_uncached_entry(init, entries, j);
        assert(init[k] == map[k]);
        k
    } else {
        map.len() - 1
    }
}

/// Every file of the map that keeps a hit is among the files that the early
/// filter leaves.
pub proof fn lemma_uncached_has(map: Seq<FileView>, entries: Seq<RangeView>, k: int) -> (j: int)
    requires
        0 <= k < map.len(),
        left_of(map[k], entries).pairs.len() > 0,
    ensures
        0 <= j < uncached(map, entries).len(),
        uncached(map, entries)[j] == left_of(map[k], entries),
    decreases map.len(),
{
    let init = map.drop_last();
    let rest = uncached(init, entries);
    if k < map.len() - 1 {
        assert(init[k] == map[k]);
        let j = lemma_uncached_has(init, entries, k);
        j
    } else {
        rest.len() as int
    }
}

/// A cache that has grown leaves no hit that it did not leave before.
pub proof fn lemma_grown_cache_leaves_less(f: FileView, before: Seq<RangeView>, after: Seq<RangeView>)
    requires
        before.len() <= after.len(),
        forall|k: int| 0 <= k < before.len() ==> after[k] == before[k],
    ensures
        forall|p: (usize, usize)| #[trigger]
            left_of(f, after).pairs.contains(p) ==> left_of(f, before).pairs.contains(p)
                && f.pairs.contains(p),
{
    let was = fresh(before, f.path);
    let now = fresh(after, f.path);
    assert forall|p: (usize, usize)| #[trigger]
        left_of(f, after).pairs.contains(p) implies left_of(f, before).pairs.contains(p)
        && f.pairs.contains(p) by {
        f.pairs.lemma_filter_contains_rev(now, p);
        if covers(before, f.path, p.1) {
            let i = choose|i: int|
                0 <= i < before.len() && (#[trigger] before[i]).file == f.path && before[i].start
                    <= p.1 <= before[i].end;
            assert(after[i] == before[i]);
            assert(covers(after, f.path, p.1));
        }
        let k = choose|k: int| 0 <= k < f.pairs.len() && f.pairs[k] == p;
        f.pairs.lemma_filter_contains(was, k);
    }
}

/// The number of hits of the map that lie on cached lines.
pub open spec fn cached_hits(map: Seq<FileView>, entries: Seq<RangeView>) -> nat
    decreases map.len(),
{
    if map.len() == 0 {
        0
    } else {
        let f = map.last();
        let left = f.pairs.filter(fresh(entries, f.path));
        (cached_hits(map.drop_last(), entries) + f.pairs.len() - left.len()) as nat
    }
}

/// The region covers a hit of the map: it held a hit back, or will.
pub open spec fn holds_back(e: RangeView, map: Seq<FileView>) -> bool {
    exists|i: int, j: int|
        0 <= i < map.len() && 0 <= j < map[i].pairs.len() && map[i].path == e.file && e.start <= (
        #[trigger] map[i].pairs[j]).1 <= e.end
}

/// The number of cached regions that cover a hit of the map: the blocks
/// returned before that hold hits back now.
pub open spec fn regions_holding(entries: Seq<RangeView>, map: Seq<FileView>) -> nat
    decreases entries.len(),
{
    if entries.len() == 0 {
        0
    } else if holds_back(entries.last(), map) {
        regions_holding(entries.drop_last(), map) + 1
    } else {
        regions_holding(entries.drop_last(), map)
    }
}

/// Where every cached region holds a hit back, their number is the number
/// of regions.
pub proof fn lemma_all_regions_hold(entries: Seq<RangeView>, map: Seq<FileView>)
    requires
        forall|k: int| 0 <= k < entries.len() ==> holds_back(#[trigger] entries[k], map),
    ensures
        regions_holding(entries, map) == entries.len(),
    decreases entries.len(),
{
    if entries.len() > 0 {
        let init = entries.drop_last();
        assert forall|k: int| 0 <= k < init.len() implies holds_back(#[trigger] init[k], map) by {
            assert(init[k] == entries[k]);
        }
        lemma_all_regions_hold(init, map);
        assert(entries.last() == entries[entries.len() - 1]);
    }
}

/// `n`, or the largest `usize` if `n` is larger.
pub open spec fn clamp(n: nat) -> usize {
    if n > usize::MAX {
        usize::MAX
    } else {
        n as usize
    }
}

/// The cache after the regions of `results` were added, each unless it was
/// there already.
pub open spec fn with_results(entries: Seq<RangeView>, results: Seq<ResultView>) -> Seq<
    RangeView,
>
    decreases results.len(),
{
    if results.len() == 0 {
        entries
    } else {
        let before = with_results(entries, results.drop_last());
        let r = results.last();
        if holds(before, r.file, r.lines.0, r.lines.1) {
            before
        } else {
            before.push(RangeView { file: r.file, start: r.lines.0, end: r.lines.1 })
        }
    }
}

/// Adding regions keeps what the cache held.
pub proof fn lemma_with_results_extends(entries: Seq<RangeView>, results: Seq<ResultView>)
    ensures
        entries.len() <= with_results(entries, results).len(),
        forall|k: int| 0 <= k < entries.len() ==> with_results(entries, results)[k] == entries[k],
    decreases results.len(),
{
    if results.len() > 0 {
        lemma_with_results_extends(entries, results.drop_last());
    }
}

/// After adding, the cache holds the region of every block that was added.
pub proof fn lemma_with_results_holds(entries: Seq<RangeView>, results: Seq<ResultView>, i: int)
    requires
        0 <= i < results.len(),
    ensures
        holds(
            with_results(entries, results),
            results[i].file,
            results[i].lines.0,
            results[i].lines.1,
        ),
    decreases results.len(),
{
    let before = with_results(entries, results.drop_last());
    let after = with_results(entries, results);
    let r = results.last();
    if i == results.len() - 1 {
        if !holds(before, r.file, r.lines.0, r.lines.1) {
            assert(after[after.len() - 1].file == r.file);
        }
    } else {
        lemma_with_results_holds(entries, results.drop_last(), i);
        let x = results[i];
        let k = choose|k: int|
            0 <= k < before.len() && (#[trigger] before[k]).file == x.file && before[k].start
                == x.lines.0 && before[k].end == x.lines.1;
        assert(after[k] == before[k]);
    }
}

/// Every region of the cache after adding was there before or is the region
/// of a block that was added.
pub proof fn lemma_with_results_entry(entries: Seq<RangeView>, results: Seq<ResultView>, k: int) -> (x:
    int)
    requires
        entries.len() <= k < with_results(entries, results).len(),
    ensures
        0 <= x < results.len(),
        with_results(entries, results)[k] == (RangeView {
            file: results[x].file,
            start: results[x].lines.0,
            end: results[x].lines.1,
        }),
    decreases results.len(),
{
    lemma_with_results_extends(entries, results.drop_last());
    let before = with_results(entries, results.drop_last());
    if k < before.len() {
        let x = lemma_with_results_entry(entries, results.drop_last(), k);
        x
    } else {
        results.len() - 1
    }
}

/// An empty cache to which blocks are added, no two with the same file and
/// lines, then holds one region for every block.
pub proof fn lemma_with_results_counts(results: Seq<ResultView>)
    requires
        crate::models::distinct_places(results),
    ensures
        with_results(Seq::<RangeView>::empty(), results).len() == results.len(),
    decreases results.len(),
{
    let none = Seq::<RangeView>::empty();
    if results.len() > 0 {
        let init = results.drop_last();
        let r = results.last();
        assert forall|a: int, b: int| 0 <= a < b < init.len() implies !crate::models::same_place(
            #[trigger] init[a],
            #[trigger] init[b],
        ) by {
            assert(init[a] == results[a] && init[b] == results[b]);
        }
        lemma_with_results_counts(init);
        let before = with_results(none, init);
        if holds(before, r.file, r.lines.0, r.lines.1) {
            let i = choose|i: int|
                0 <= i < before.len() && (#[trigger] before[i]).file == r.file && before[i].start
                    == r.lines.0 && before[i].end == r.lines.1;
            let x = lemma_with_results_entry(none, init, i);
            assert(init[x] == results[x]);
            assert(crate::models::same_place(results[x], results[results.len() - 1]));
            assert(false);
        }
    }
}

/// Adding regions that the cache holds already changes nothing.
pub proof fn lemma_with_results_known(entries: Seq<RangeView>, results: Seq<ResultView>)
    requires
        forall|i: int|
            0 <= i < results.len() ==> holds(
                entries,
                (#[trigger] results[i]).file,
                results[i].lines.0,
                results[i].lines.1,
            ),
    ensures
        with_results(entries, results) == entries,
    decreases results.len(),
{
    if results.len() > 0 {
        let init = results.drop_last();
        assert forall|i: int| 0 <= i < init.len() implies holds(
            entries,
            (#[trigger] init[i]).file,
            init[i].lines.0,
            init[i].lines.1,
        ) by {
            assert(init[i] == results[i]);
        }
        lemma_with_results_known(entries, init);
        assert(results.last() == results[results.len() - 1]);
    }
}

/// Adding the same blocks a second time changes nothing.
pub proof fn lemma_add_results_idempotent(entries: Seq<RangeView>, results: Seq<ResultView>)
    ensures
        with_results(with_results(entries, results), results) == with_results(entries, results),
{
    let once = with_results(entries, results);
    assert forall|i: int| 0 <= i < results.len() implies holds(
        once,
        (#[trigger] results[i]).file,
        results[i].lines.0,
        results[i].lines.1,
    ) by {
        lemma_with_results_holds(entries, results, i);
    }
    lemma_with_results_known(once, results);
}

/// Once the blocks of a search are added to the cache of its session, the
/// same blocks do not pass the cache a second time: the block filter leaves
/// none of them, and every line of them counts as cached.
pub proof fn lemma_returned_blocks_are_held_back(
    entries: Seq<RangeView>,
    results: Seq<ResultView>,
)
    requires
        forall|i: int|
            0 <= i < results.len() ==> 1 <= (#[trigger] results[i]).lines.0 <= results[i].lines.1,
    ensures
        results.filter(unseen(with_results(entries, results))) == Seq::<ResultView>::empty(),
        forall|i: int, line: usize|
            0 <= i < results.len() && results[i].lines.0 <= line <= results[i].lines.1
                ==> #[trigger] covers(with_results(entries, results), results[i].file, line),
{
    let cache = with_results(entries, results);
    assert forall|i: int| 0 <= i < results.len() implies !unseen(cache)(#[trigger] results[i]) by {
        lemma_with_results_holds(entries, results, i);
        let r = results[i];
        let k = choose|k: int|
            0 <= k < cache.len() && (#[trigger] cache[k]).file == r.file && cache[k].start
                == r.lines.0 && cache[k].end == r.lines.1;
        assert(cache[k].start <= r.lines.1 && r.lines.0 <= cache[k].end);
    }
    lemma_filter_none(results, unseen(cache));
    assert forall|i: int, line: usize|
        0 <= i < results.len() && results[i].lines.0 <= line
            <= results[i].lines.1 implies #[trigger] covers(cache, results[i].file, line) by {
        lemma_with_results_holds(entries, results, i);
        let r = results[i];
        let k = choose|k: int|
            0 <= k < cache.len() && (#[trigger] cache[k]).file == r.file && cache[k].start
                == r.lines.0 && cache[k].end == r.lines.1;
        assert(cache[k].start <= line <= cache[k].end);
    }
}

/// Picks the session of a search from the option given and from the
/// environment. An id that is given wins; an empty id asks for the id of the
/// environment or else a new one; no id at all falls back on the environment.
pub fn resolve_session(session: Option<String>, from_environment: Option<String>) -> (out:
    SessionChoice)
    ensures
        out == match session {
            Some(s) => if s@.len() > 0 {
                SessionChoice::Use(s)
            } else {
                match from_environment {
                    Some(e) => if e@.len() > 0 {
                        SessionChoice::Use(e)
                    } else {
                        SessionChoice::Generate
                    },
                    None => SessionChoice::Generate,
                }
            },
            None => match from_environment {
                Some(e) => if e@.len() > 0 {
                    SessionChoice::Use(e)
                } else {
                    SessionChoice::Disabled
                },
                None => SessionChoice::Disabled,
            },
        },
{
    match session {
        Some(s) => {
            if !s.as_str().is_empty() {
                SessionChoice::Use(s)
            } else {
                match from_environment {
                    Some(e) => {
                        if !e.as_str().is_empty() {
                            SessionChoice::Use(e)
                        } else {
                            SessionChoice::Generate
                        }
                    },
                    None => SessionChoice::Generate,
                }
            }
        },
        None => match from_environment {
            Some(e) => {
                if !e.as_str().is_empty() {
                    SessionChoice::Use(e)
                } else {
                    SessionChoice::Disabled
                }
            },
            None => SessionChoice::Disabled,
        },
    }
}

/// The sum of two numbers, or the largest number if the sum is larger.
pub fn capped_sum(a: usize, b: usize) -> (r: usize)
    ensures
        r == clamp((a + b) as nat),
{
    if b > usize::MAX - a {
        usize::MAX
    } else {
        a + b
    }
}

impl SessionCache {
    /// An empty cache for a session.
    pub fn new(session_id: String) -> (out: Self)
        ensures
            out.session_id == session_id,
            out.entries@.len() == 0,
    {
        SessionCache { session_id, entries: Vec::new() }
    }

    /// Whether a cached region covers the line.
    pub fn covers_line(&self, file: &String, line: usize) -> (r: bool)
        ensures
            r == covers(self@, file@, line),
    {
        let mut i: usize = 0;
        while i < self.entries.len()
            invariant
                i <= self.entries.len(),
                forall|k: int|
                    0 <= k < i ==> !((#[trigger] self@[k]).file == file@
                        && self@[k].start <= line <= self@[k].end),
            decreases self.entries.len() - i,
        {
            let e = &self.entries[i];
            assert(self@[i as int] == e@);
            if e.start <= line && line <= e.end && e.file == *file {
                return true;
            }
            i += 1;
        }
        false
    }

    /// Whether a cached region shares a line with `start..=end` of the file.
    pub fn overlaps_range(&self, file: &String, start: usize, end: usize) -> (r: bool)
        ensures
            r == overlaps(self@, file@, start, end),
    {
        let mut i: usize = 0;
        while i < self.entries.len()
            invariant
                i <= self.entries.len(),
                forall|k: int|
                    0 <= k < i ==> !((#[trigger] self@[k]).file == file@
                        && self@[k].start <= end && start <= self@[k].end),
            decreases self.entries.len() - i,
        {
            let e = &self.entries[i];
            assert(self@[i as int] == e@);
            if e.start <= end && start <= e.end && e.file == *file {
                return true;
            }
            i += 1;
        }
        false
    }

    /// Whether the very region is cached.
    pub fn holds_range(&self, file: &String, start: usize, end: usize) -> (r: bool)
        ensures
            r == holds(self@, file@, start, end),
    {
        let mut i: usize = 0;
        while i < self.entries.len()
            invariant
                i <= self.entries.len(),
                forall|k: int|
                    0 <= k < i ==> !((#[trigger] self@[k]).file == file@
                        && self@[k].start == start && self@[k].end == end),
            decreases self.entries.len() - i,
        {
            let e = &self.entries[i];
            assert(self@[i as int] == e@);
            if e.start == start && e.end == end && e.file == *file {
                return true;
            }
            i += 1;
        }
        false
    }

    fn entry_holds(e: &CachedRange, hits: &HitMap) -> (r: bool)
        ensures
            r == holds_back(e@, hits@),
    {
        let mut i: usize = 0;
        while i < hits.files.len()
            invariant
                i <= hits.files.len(),
                forall|a: int, b: int|
                    0 <= a < i && 0 <= b < hits@[a].pairs.len() ==> !(hits@[a].path == e@.file
                        && e.start <= (#[trigger] hits@[a].pairs[b]).1 <= e.end),
            decreases hits.files.len() - i,
        {
            let f = &hits.files[i];
            assert(hits@[i as int] == f@);
            if f.file == e.file {
                let mut j: usize = 0;
                while j < f.hits.pairs.len()
                    invariant
                        j <= f.hits.pairs.len(),
                        i < hits.files.len(),
                        hits@.len() == hits.files@.len(),
                        hits@[i as int] == f@,
                        f@.path == e@.file,
                        forall|b: int|
                            0 <= b < j ==> !(e.start <= (#[trigger] f@.pairs[b]).1 <= e.end),
                    decreases f.hits.pairs.len() - j,
                {
                    let line = f.hits.pairs[j].1;
                    if e.start <= line && line <= e.end {
                        assert(e.start <= hits@[i as int].pairs[j as int].1 <= e.end);
                        return true;
                    }
                    j += 1;
                }
            }
            i += 1;
        }
        false
    }

    /// The number of cached regions that cover a hit of the map.
    pub fn regions_with_hits(&self, hits: &HitMap) -> (n: usize)
        ensures
            n == regions_holding(self@, hits@),
    {
        let ghost all = self@;
        let mut n: usize = 0;
        let mut k: usize = 0;
        assert(all.take(0) =~= Seq::<RangeView>::empty());
        while k < self.entries.len()
            invariant
                k <= self.entries.len(),
                all == self@,
                n == regions_holding(all.take(k as int), hits@),
                n <= k,
            decreases self.entries.len() - k,
        {
            proof {
                assert(all.take(k + 1).drop_last() =~= all.take(k as int));
                assert(all.take(k + 1).last() == self.entries@[k as int]@);
            }
            if Self::entry_holds(&self.entries[k], hits) {
                n += 1;
            }
            k += 1;
        }
        assert(all.take(all.len() as int) =~= all);
        n
    }

    fn fresh_hits(&self, file: &String, hits: &TermLines) -> (out: TermLines)
        requires
            hits.wf(),
        ensures
            out.wf(),
            out.pairs@ == hits.pairs@.filter(fresh(self@, file@)),
            out.pairs@.len() <= hits.pairs@.len(),
    {
        let ghost keep = fresh(self@, file@);
        let ghost all = hits.pairs@;
        let mut out = TermLines::new();
        let mut i: usize = 0;
        proof {
            lemma_filter_empty(keep);
            assert(all.take(0) =~= Seq::<(usize, usize)>::empty());
        }
        while i < hits.pairs.len()
            invariant
                i <= hits.pairs.len(),
                all == hits.pairs@,
                ordered(all),
                keep == fresh(self@, file@),
                out.pairs@ == all.take(i as int).filter(keep),
                out.pairs@.len() <= i,
                ordered(out.pairs@),
                forall|a: int, j: int|
                    0 <= a < out.pairs@.len() && i <= j < all.len() ==> pair_before(
                        #[trigger] out.pairs@[a],
                        #[trigger] all[j],
                    ),
            decreases hits.pairs.len() - i,
        {
            let p = hits.pairs[i];
            let ghost before = out.pairs@;
            proof {
                lemma_filter_push(all.take(i as int), p, keep);
                assert(all.take(i + 1) =~= all.take(i as int).push(p));
            }
            if !self.covers_line(file, p.1) {
                out.pairs.push(p);
                proof {
                    assert forall|a: int, b: int| 0 <= a < b < out.pairs@.len() implies pair_before(
                        #[trigger] out.pairs@[a],
                        #[trigger] out.pairs@[b],
                    ) by {
                        if b == before.len() {
                            assert(pair_before(before[a], all[i as int]));
                        } else {
                            assert(pair_before(before[a], before[b]));
                        }
                    }
                    assert forall|a: int, j: int|
                        0 <= a < out.pairs@.len() && i + 1 <= j < all.len() implies pair_before(
                        #[trigger] out.pairs@[a],
                        #[trigger] all[j],
                    ) by {
                        if a == before.len() {
                            assert(pair_before(all[i as int], all[j]));
                        } else {
                            assert(pair_before(before[a], all[j]));
                        }
                    }
                }
            }
            i += 1;
        }
        assert(all.take(all.len() as int) =~= all);
        out
    }

    /// The early filter: takes the hits on cached lines out of the map, drops
    /// the files that keep no hit, and returns how many hits it took out.
    pub fn filter_matched_lines(&self, hits: &mut HitMap) -> (skipped: usize)
        requires
            old(hits).wf(),
        ensures
            final(hits).wf(),
            final(hits)@ == uncached(old(hits)@, self@),
            skipped == clamp(cached_hits(old(hits)@, self@)),
    {
        let ghost all = hits@;
        let ghost files = hits.files@;
        let mut taken = HitMap { files: Vec::new() };
        std::mem::swap(&mut taken, hits);
        let mut skipped: usize = 0;
        proof {
            assert(all.take(0) =~= Seq::<FileView>::empty());
            assert(hits@ =~= uncached(all.take(0), self@));
        }
        for f in it: taken.files.into_iter()
            invariant
                it.seq() == files,
                all == files.map_values(|f: FileHits| f@),
                forall|i: int| 0 <= i < files.len() ==> (#[trigger] files[i]).hits.wf(),
                distinct_paths(all),
                hits.wf(),
                hits@ == uncached(all.take(it.index()), self@),
                forall|a: int, j: int|
                    0 <= a < hits@.len() && it.index() <= j < all.len() ==> (#[trigger] hits@[a]).path
                        != (#[trigger] all[j]).path,
                skipped == clamp(cached_hits(all.take(it.index()), self@)),
        {
            let ghost i = it.index();
            let ghost prev = hits@;
            proof {
                assert(all.take(i + 1).drop_last() =~= all.take(i));
                assert(all.take(i + 1).last() == f@);
                assert(f == files[i]);
            }
            let left = self.fresh_hits(&f.file, &f.hits);
            skipped = capped_sum(skipped, f.hits.pairs.len() - left.pairs.len());
            assert(all[i] == f@);
            if !left.is_empty() {
                let ghost pairs = left.pairs@;
                hits.files.push(FileHits { file: f.file, hits: left, by_filename: f.by_filename });
                proof {
                    assert(hits@ =~= prev.push(
                        FileView { path: f.file@, pairs, by_filename: f.by_filename },
                    ));
                    assert forall|a: int, b: int| 0 <= a < b < hits@.len() implies (
                    #[trigger] hits@[a]).path != (#[trigger] hits@[b]).path by {
                        if b < prev.len() {
                            assert(hits@[a] == prev[a] && hits@[b] == prev[b]);
                        } else {
                            assert(hits@[a] == prev[a]);
                        }
                    }
                    assert forall|a: int, j: int|
                        0 <= a < hits@.len() && i + 1 <= j < all.len() implies (
                    #[trigger] hits@[a]).path != (#[trigger] all[j]).path by {
                        if a < prev.len() {
                            assert(hits@[a] == prev[a]);
                        }
                    }
                }
            }
        }
        assert(all.take(all.len() as int) =~= all);
        skipped
    }

    /// The final filter: drops every block that shares a line with a cached
    /// region, and returns the others in their order with the number dropped.
    pub fn filter_results(&self, results: Vec<SearchResult>) -> (out: (Vec<SearchResult>, usize))
        ensures
            views(out.0@) == views(results@).filter(unseen(self@)),
            out.1 == results@.len() - out.0@.len(),
            forall|r: SearchResult| out.0@.contains(r) ==> results@.contains(r),
    {
        let ghost all = results@;
        let ghost keep = unseen(self@);
        let mut left: Vec<SearchResult> = Vec::new();
        let mut skipped: usize = 0;
        let n: usize = results.len();
        proof {
            lemma_filter_empty(keep);
            assert(views(all).take(0) =~= Seq::<ResultView>::empty());
            assert(views(left@) =~= Seq::<ResultView>::empty());
        }
        for r in it: results.into_iter()
            invariant
                it.seq() == all,
                all.len() == n,
                keep == unseen(self@),
                views(left@) == views(all).take(it.index()).filter(keep),
                left@.len() + skipped == it.index(),
                forall|x: SearchResult| left@.contains(x) ==> all.contains(x),
        {
            let ghost i = it.index();
            let ghost before = left@;
            proof {
                lemma_filter_push(views(all).take(i), r@, keep);
                assert(views(all).take(i + 1) =~= views(all).take(i).push(r@));
                assert(all[i] == r);
            }
            if self.overlaps_range(&r.file, r.lines.0, r.lines.1) {
                skipped += 1;
            } else {
                left.push(r);
                proof {
                    assert(views(left@) =~= views(before).push(r@));
                    assert forall|x: SearchResult| left@.contains(x) implies all.contains(x) by {
                        let k = choose|k: int| 0 <= k < left@.len() && left@[k] == x;
                        if k < before.len() {
                            assert(before[k] == x);
                            assert(before.contains(x));
                        }
                    }
                }
            }
        }
        assert(views(all).take(all.len() as int) =~= views(all));
        (left, skipped)
    }

    /// Adds the region of every block to the cache, unless it is there.
    pub fn add_results(&mut self, results: &Vec<SearchResult>)
        ensures
            final(self).session_id == old(self).session_id,
            final(self)@ == with_results(old(self)@, views(results@)),
    {
        let ghost all = views(results@);
        let mut i: usize = 0;
        assert(all.take(0) =~= Seq::<ResultView>::empty());
        while i < results.len()
            invariant
                i <= results.len(),
                all == views(results@),
                self.session_id == old(self).session_id,
                self@ == with_results(old(self)@, all.take(i as int)),
            decreases results.len() - i,
        {
            let r = &results[i];
            let ghost before = self@;
            proof {
                assert(all.take(i + 1).drop_last() =~= all.take(i as int));
                assert(all.take(i + 1).last() == r@);
            }
            if !self.holds_range(&r.file, r.lines.0, r.lines.1) {
                self.entries.push(
                    CachedRange { file: r.file.clone(), start: r.lines.0, end: r.lines.1 },
                );
                assert(self@ =~= before.push(
                    RangeView { file: r.file@, start: r.lines.0, end: r.lines.1 },
                ));
            }
            i += 1;
        }
        assert(all.take(all.len() as int) =~= all);
    }
}

} // verus!
