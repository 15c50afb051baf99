//! The search pipeline, stage by stage. Reading files, parsing their
//! structure and scoring with floating point happen between the stages,
//! outside this library; each stage takes what they produced as plain values.

use crate::ast::Expr;
use crate::blocks::{
    block_from, extract_blocks, extracted, lemma_block_from_hit, lemma_block_from_lines,
    lemma_block_from_more, lemma_extracted_distinct,
    lemma_extracted_from, lemma_extracted_has, Region,
};
use crate::cache::{
    clamp, left_of, lemma_grown_cache_leaves_less, lemma_uncached_entry, lemma_uncached_has,
    lemma_uncached_keeps_named, regions_holding, uncached, unseen, with_results, RangeView,
    SessionCache,
};
use crate::engine::compile_outcome;
use crate::hits::{distinct_paths, none_by_name, FileView, HitMap};
use crate::limits::{apply_limits, kept};
use crate::merge::{
    code_is_slice, find_source, merge_ranked_blocks, merged, source_content,
    DEFAULT_MERGE_THRESHOLD,
};
use crate::models::{
    distinct_places, same_place, views, LimitedSearchResults, ResultView, SearchLimits,
    SearchResult,
};
use crate::lexer::{lemma_trailing_not, plain_word, tokens_of, with_not};
use crate::parser::{lemma_word_behind_not_is_negated, negates, parse_tokens};
use crate::terms::term_key;
use crate::plan::{
    atom_key, create_query_plan, create_structured_patterns, lemma_negated_word_is_excluded,
    pattern_source, planned, position_of, QueryPlan,
};
use crate::ranking::{assign_file_ranks, file_ranked, rank_search_results, ranked, Reranker, Scores};
use crate::scan::{
    combined_source, group_table, groups_of, lemma_scan_none_by_name, plan_scan,
    search_with_structured_patterns, sources_of, FatalError, SourceFile,
};
use crate::selection::{
    file_only_views, file_results, filter_by_query, include_filename_matches,
    lemma_filter_keeps_level, lemma_whole_file_satisfies, line_count, named_pass, passes,
    plan_keys, terms_of, whole_passes, with_filenames,
};
use crate::text::texts;
use vstd::prelude::*;
use vstd::string::StringExecFns;

verus! {

/// What a search is asked to do.
pub struct SearchOptions {
    /// The root directory.
    pub path: String,
    /// The queries; several are joined by AND.
    pub queries: Vec<String>,
    /// Return one result for each matching file, without code.
    pub files_only: bool,
    /// Further glob patterns of files to pass over.
    pub custom_ignores: Vec<String>,
    /// Do not select files by their names.
    pub exclude_filenames: bool,
    /// The strategy that decides the final order.
    pub reranker: Reranker,
    /// Stop-word removal and stemming are wanted.
    pub frequency_search: bool,
    pub max_results: Option<usize>,
    pub max_bytes: Option<usize>,
    pub max_tokens: Option<usize>,
    /// Test files are searched too.
    pub allow_tests: bool,
    /// Terms are matched verbatim.
    pub exact: bool,
    /// Blocks are not merged.
    pub no_merge: bool,
    /// The gap up to which blocks are merged.
    pub merge_threshold: Option<usize>,
    /// Only files and lines are wanted; the formatter leaves the code out.
    pub dry_run: bool,
    /// The session id: empty to have one made, absent for no cache.
    pub session: Option<String>,
}

/// The structural regions of one file.
pub struct FileRegions {
    pub path: String,
    pub regions: Vec<Region>,
}

/// The files that a query selected, ready for block extraction.
pub struct Selection {
    pub plan: QueryPlan,
    pub map: HitMap,
    /// The hits that the session cache held back.
    pub skipped: usize,
}

/// How the first stage of a search ended.
pub enum Probe {
    /// The search is over: the query did not parse, or only files were asked for.
    Done(LimitedSearchResults),
    /// Blocks are to be extracted from the selected files.
    Candidates(Selection),
}

/// The queries joined by ` AND `.
pub open spec fn query_text(queries: Seq<Seq<char>>) -> Seq<char>
    decreases queries.len(),
{
    if queries.len() == 0 {
        seq![]
    } else if queries.len() == 1 {
        queries[0]
    } else {
        query_text(queries.drop_last()) + seq![' ', 'A', 'N', 'D', ' '] + queries.last()
    }
}

fn join_queries(queries: &Vec<String>) -> (out: String)
    ensures
        out@ == query_text(texts(queries@)),
{
    let ghost all = texts(queries@);
    let mut out = String::new();
    let mut i: usize = 0;
    assert(out@ =~= query_text(all.take(0)));
    while i < queries.len()
        invariant
            i <= queries.len(),
            all == texts(queries@),
            out@ == query_text(all.take(i as int)),
        decreases queries.len() - i,
    {
        let ghost before = out@;
        if i > 0 {
            out.push(' ');
            out.push('A');
            out.push('N');
            out.push('D');
            out.push(' ');
        }
        out.append(queries[i].as_str());
        proof {
            let next = all.take(i + 1);
            assert(next.drop_last() =~= all.take(i as int));
            assert(next.last() == queries@[i as int]@);
            if i == 0 {
                assert(next[0] == queries@[0]@);
                assert(out@ =~= query_text(next));
            } else {
                assert(out@ =~= before + seq![' ', 'A', 'N', 'D', ' '] + queries@[i as int]@);
            }
        }
        i += 1;
    }
    assert(all.take(queries.len() as int) =~= all);
    out
}

/// The pattern of every key.
pub open spec fn pattern_sources(keys: Seq<Seq<char>>, exact: bool) -> Seq<Seq<char>> {
    Seq::new(keys.len(), |i: int| pattern_source(keys[i], exact))
}

/// For every pattern the one term it stands for: its own position.
pub open spec fn own_indices(n: nat) -> Seq<Seq<usize>> {
    Seq::new(n, |i: int| seq![i as usize])
}

/// The files that come up: those that the scan found, together with those
/// selected by name unless that is switched off.
pub open spec fn named(
    scanned: Seq<FileView>,
    keys: Seq<Seq<char>>,
    exclude_filenames: bool,
    files: Seq<SourceFile>,
) -> Seq<FileView> {
    if exclude_filenames {
        scanned
    } else {
        with_filenames(scanned, files, keys)
    }
}

/// What scanning comes to for the keys of a plan: the hit map, or the
/// message of the engine if it rejects a pattern.
pub open spec fn scanned(keys: Seq<Seq<char>>, exact: bool, files: Seq<SourceFile>) -> Result<
    Seq<FileView>,
    Seq<char>,
> {
    plan_scan(pattern_sources(keys, exact), own_indices(keys.len()), files)
}

/// The files that a query selects from a scan: those that come up and whose
/// matched terms satisfy the query.
pub open spec fn chosen(
    ast: Expr,
    keys: Seq<Seq<char>>,
    exclude_filenames: bool,
    map: Seq<FileView>,
    files: Seq<SourceFile>,
) -> Seq<FileView> {
    named(map, keys, exclude_filenames, files).filter(passes(ast))
}

/// The early cache filter, where there is a cache: the map without the hits
/// on cached lines, and the number of cached regions that hold hits back.
pub open spec fn early(map: Seq<FileView>, cache: Option<Seq<RangeView>>) -> (Seq<FileView>, nat) {
    match cache {
        Some(c) => (uncached(map, c), regions_holding(c, map)),
        None => (map, 0),
    }
}

/// The limits that the options set.
pub open spec fn limits_of(options: SearchOptions) -> SearchLimits {
    SearchLimits {
        max_results: options.max_results,
        max_bytes: options.max_bytes,
        max_tokens: options.max_tokens,
    }
}

/// What `select_files` promises of its outcome. The files that came up are
/// filtered by the query. A search for files only ends with one result for
/// each of them: those that the session has returned are held back, the
/// limits are applied, and what is returned is recorded. Any other search
/// goes on with these files, less the hits that the session cache holds
/// back, and leaves the cache as it is.
pub open spec fn selection_outcome(
    out: (Probe, Option<SessionCache>),
    options: SearchOptions,
    ast: Expr,
    keys: Seq<Seq<char>>,
    map: Seq<FileView>,
    files: Seq<SourceFile>,
    cache: Option<SessionCache>,
) -> bool {
    let files_chosen = chosen(ast, keys, options.exclude_filenames, map, files);
    match out.0 {
        Probe::Done(l) => options.files_only && matches_finish(
            (l, out.1),
            listed(files_chosen, options, cache_view(cache)),
            options,
            cache,
        ),
        Probe::Candidates(s) => !options.files_only && s.map.wf() && (s.map@, s.skipped as nat)
            == early(files_chosen, cache_view(cache)) && out.1 == cache,
    }
}

/// What the first stage promises of its outcome `r`: for a query that does
/// not parse, no result and the cache as it was; for a pattern that the
/// engine rejects, the engine's message; else what `select_files` promises
/// for the scan.
pub open spec fn probe_outcome(
    r: Result<(Probe, Option<SessionCache>), FatalError>,
    options: SearchOptions,
    files: Seq<SourceFile>,
    cache: Option<SessionCache>,
) -> bool {
    match planned(query_text(texts(options.queries@)), options.exact) {
        Err(_) => r matches Ok((Probe::Done(l), c)) && l.results@.len() == 0
            && l.skipped_files@.len() == 0 && l.limits_applied is None
            && l.cached_blocks_skipped is None && c == cache,
        Ok((ast, v)) => match scanned(v.keys, options.exact, files) {
            Err(message) => r matches Err(e) && e.message() == message,
            Ok(map) => r matches Ok(out) && selection_outcome(
                out,
                options,
                ast,
                v.keys,
                map,
                files,
                cache,
            ) && (out.0 matches Probe::Candidates(s) ==> s.plan.exact == options.exact
                && s.plan.realizes(ast, v, query_text(texts(options.queries@))) && s.plan.wf()),
        },
    }
}

/// The part of the first stage that comes after the scan: select files by
/// name, filter by the query, and either end a search for files only or
/// hold back what the session has seen.
pub fn select_files(
    options: &SearchOptions,
    plan: QueryPlan,
    scan: HitMap,
    files: &Vec<SourceFile>,
    cache: Option<SessionCache>,
) -> (out: (Probe, Option<SessionCache>))
    requires
        scan.wf(),
    ensures
        selection_outcome(out, *options, plan.ast, plan_keys(plan), scan@, files@, cache),
        out.0 matches Probe::Candidates(s) ==> s.plan == plan,
        out.0 matches Probe::Candidates(s) ==> (none_by_name(scan@) ==> named_pass(
            s.map@,
            files@,
            plan.ast,
        )),
{
    let mut map = scan;
    if !options.exclude_filenames {
        include_filename_matches(&mut map, files, &plan);
    }
    let ghost named = map@;
    let mut map = filter_by_query(map, &plan.ast);
    proof {
        if none_by_name(scan@) {
            lemma_filter_keeps_level(named, files@, plan.ast);
            if cache is Some {
                lemma_uncached_keeps_named(map@, cache->Some_0@, files@, plan.ast);
            }
        }
    }
    if options.files_only {
        let found = file_results(&map);
        let none: Vec<SourceFile> = Vec::new();
        let (limited, cache) = settle(found, options, cache, 0, &none, false);
        (Probe::Done(limited), cache)
    } else {
        let skipped = match &cache {
            Some(c) => {
                let held = c.regions_with_hits(&map);
                let _ = c.filter_matched_lines(&mut map);
                held
            },
            None => 0,
        };
        (Probe::Candidates(Selection { plan, map, skipped }), cache)
    }
}

/// The first stage of a search: plan the query, scan the files, select files
/// by name, filter by the query, and hold back what the session has seen.
///
/// A query that does not parse ends the search with no result. The search
/// fails exactly if the engine rejects a pattern of the plan, with the
/// engine's message. A search for files only ends with one result for each
/// selected file that the session has not returned yet, limits applied.
/// Otherwise the selected files come back for block extraction; those that
/// are among them for their name satisfy the query as whole files.
pub fn perform_probe(options: &SearchOptions, files: &Vec<SourceFile>, cache: Option<SessionCache>) -> (r:
    Result<(Probe, Option<SessionCache>), FatalError>)
    ensures
        probe_outcome(r, *options, files@, cache),
        r matches Ok((Probe::Candidates(s), _)) ==> named_pass(s.map@, files@, s.plan.ast),
{
    let query = join_queries(&options.queries);
    match create_query_plan(query.as_str(), options.exact) {
        Err(_) => Ok(
            (
                Probe::Done(
                    LimitedSearchResults {
                        results: Vec::new(),
                        skipped_files: Vec::new(),
                        limits_applied: None,
                        cached_blocks_skipped: None,
                    },
                ),
                cache,
            ),
        ),
        Ok(plan) => {
            let ghost (ast, v) = planned(query@, options.exact)->Ok_0;
            let patterns = create_structured_patterns(&plan);
            proof {
                assert(sources_of(patterns@) =~= pattern_sources(v.keys, options.exact));
                assert(groups_of(patterns@) =~= own_indices(v.keys.len()));
                assert(plan_keys(plan) =~= v.keys);
            }
            match search_with_structured_patterns(files, &patterns) {
                Err(e) => Err(e),
                Ok(scan) => {
                    proof {
                        let sources = sources_of(patterns@);
                        lemma_scan_none_by_name(
                            compile_outcome(combined_source(sources))->Ok_0,
                            group_table(sources, groups_of(patterns@), sources.len() as int),
                            files@,
                        );
                    }
                    Ok(select_files(options, plan, scan, files, cache))
                },
            }
        },
    }
}

/// The position of the first entry at or after `from` with the path, or the length.
pub open spec fn regions_position(all: Seq<FileRegions>, path: Seq<char>, from: int) -> int
    decreases all.len() - from,
{
    if from < 0 || from >= all.len() {
        all.len() as int
    } else if all[from].path@ == path {
        from
    } else {
        regions_position(all, path, from + 1)
    }
}

/// The regions of the file with the path; none if its structure is not known.
pub open spec fn regions_of(all: Seq<FileRegions>, path: Seq<char>) -> Seq<Region> {
    let k = regions_position(all, path, 0);
    if 0 <= k < all.len() {
        all[k].regions@
    } else {
        seq![]
    }
}

/// The blocks of all files of the map, file after file.
pub open spec fn gathered(
    map: Seq<FileView>,
    files: Seq<SourceFile>,
    regions: Seq<FileRegions>,
    ast: Expr,
) -> Seq<ResultView>
    decreases map.len(),
{
    if map.len() == 0 {
        seq![]
    } else {
        let f = map.last();
        gathered(map.drop_last(), files, regions, ast) + extracted(
            f.path,
            source_content(files, f.path),
            regions_of(regions, f.path),
            f.pairs,
            ast,
            f.by_filename,
            (map.len() - 1) as usize,
        )
    }
}

/// The blocks of one file of the map, the file at place `k`.
pub open spec fn blocks_of(
    map: Seq<FileView>,
    files: Seq<SourceFile>,
    regions: Seq<FileRegions>,
    ast: Expr,
    k: int,
) -> Seq<ResultView> {
    extracted(
        map[k].path,
        source_content(files, map[k].path),
        regions_of(regions, map[k].path),
        map[k].pairs,
        ast,
        map[k].by_filename,
        k as usize,
    )
}

/// Every block gathered is a block of one of the files.
pub proof fn lemma_gathered_entry(
    map: Seq<FileView>,
    files: Seq<SourceFile>,
    regions: Seq<FileRegions>,
    ast: Expr,
    i: int,
) -> (at: (int, int))
    requires
        0 <= i < gathered(map, files, regions, ast).len(),
    ensures
        0 <= at.0 < map.len(),
        0 <= at.1 < blocks_of(map, files, regions, ast, at.0).len(),
        gathered(map, files, regions, ast)[i] == blocks_of(map, files, regions, ast, at.0)[at.1],
    decreases map.len(),
{
    let init = map.drop_last();
    let rest = gathered(init, files, regions, ast);
    if i < rest.len() {
        let at = lemma_gathered_entry(init, files, regions, ast, i);
        assert(init[at.0] == map[at.0]);
        at
    } else {
        (map.len() - 1, i - rest.len())
    }
}

/// Every block of every file is among the blocks gathered.
pub proof fn lemma_gathered_has(
    map: Seq<FileView>,
    files: Seq<SourceFile>,
    regions: Seq<FileRegions>,
    ast: Expr,
    k: int,
    x: int,
) -> (i: int)
    requires
        0 <= k < map.len(),
        0 <= x < blocks_of(map, files, regions, ast, k).len(),
    ensures
        0 <= i < gathered(map, files, regions, ast).len(),
        gathered(map, files, regions, ast)[i] == blocks_of(map, files, regions, ast, k)[x],
    decreases map.len(),
{
    let init = map.drop_last();
    let rest = gathered(init, files, regions, ast);
    if k < map.len() - 1 {
        assert(init[k] == map[k]);
        let i = lemma_gathered_has(init, files, regions, ast, k, x);
        i
    } else {
        rest.len() + x
    }
}

fn find_regions(all: &Vec<FileRegions>, path: &String) -> (k: usize)
    ensures
        k == regions_position(all@, path@, 0),
        k <= all@.len(),
{
    let mut k: usize = 0;
    while k < all.len()
        invariant
            k <= all.len(),
            regions_position(all@, path@, 0) == regions_position(all@, path@, k as int),
        decreases all.len() - k,
    {
        if all[k].path == *path {
            return k;
        }
        k += 1;
    }
    k
}

/// The second stage: extracts the blocks of every selected file and gives
/// every block the place of its file. A file whose text is not among `files`
/// counts as empty, one whose structure is not among `regions` as without
/// regions. Every block of a file with hits in its text satisfies the query.
/// So does the whole-file block of a file that was selected by its name,
/// where such files satisfy the query as whole files: the first stage
/// selects no others.
pub fn extract_candidates(selection: &Selection, files: &Vec<SourceFile>, regions: &Vec<FileRegions>) -> (out:
    Vec<SearchResult>)
    requires
        selection.map.wf(),
    ensures
        views(out@) == file_ranked(
            gathered(selection.map@, files@, regions@, selection.plan.ast),
        ),
        forall|i: int|
            0 <= i < out@.len() ==> (#[trigger] out@[i]).wf() && (out@[i].matched_by_filename
                || selection.plan.ast.value(out@[i].matched_terms@, true)),
        all_file_text(views(out@), files@),
        countable(selection.map@, files@),
        named_pass(selection.map@, files@, selection.plan.ast) ==> all_satisfy(
            views(out@),
            selection.plan.ast,
        ),
{
    let ghost ast = selection.plan.ast;
    let ghost map = selection.map@;
    let none: Vec<Region> = Vec::new();
    let empty = String::new();
    let mut found: Vec<SearchResult> = Vec::new();
    let mut i: usize = 0;
    proof {
        assert(map.take(0) =~= Seq::<FileView>::empty());
        assert(views(found@) =~= Seq::<ResultView>::empty());
        assert(none@ =~= Seq::<Region>::empty());
        assert(empty@ =~= Seq::<char>::empty());
    }
    while i < selection.map.files.len()
        invariant
            i <= selection.map.files.len(),
            selection.map.wf(),
            ast == selection.plan.ast,
            map == selection.map@,
            none@ == Seq::<Region>::empty(),
            empty@ == Seq::<char>::empty(),
            views(found@) == gathered(map.take(i as int), files@, regions@, ast),
            forall|j: int|
                0 <= j < found@.len() ==> (#[trigger] found@[j]).wf() && (
                found@[j].matched_by_filename || ast.value(found@[j].matched_terms@, true)),
            forall|j: int| 0 <= j < found@.len() ==> code_is_slice((#[trigger] found@[j])@, files@),
            named_pass(map, files@, ast) ==> forall|j: int|
                0 <= j < found@.len() ==> ast.value((#[trigger] found@[j]).matched_terms@, true),
            forall|j: int| 0 <= j < i ==> line_count(files@, (#[trigger] map[j]).path) <= usize::MAX,
        decreases selection.map.files.len() - i,
    {
        let f = &selection.map.files[i];
        proof {
            assert(map.take(i + 1).drop_last() =~= map.take(i as int));
            assert(map.take(i + 1).last() == f@);
        }
        let s = find_source(files, &f.file);
        let content: &str = if s < files.len() {
            files[s].content.as_str()
        } else {
            empty.as_str()
        };
        let r = find_regions(regions, &f.file);
        let known: &Vec<Region> = if r < regions.len() {
            &regions[r].regions
        } else {
            &none
        };
        let mut blocks = extract_blocks(
            &f.file,
            content,
            known,
            &f.hits,
            &selection.plan.ast,
            f.by_filename,
            i,
        );
        let ghost before = found@;
        let ghost added = blocks@;
        found.append(&mut blocks);
        proof {
            assert(map[i as int] == f@);
            assert(source_content(files@, f.file@) == content@);
            assert(found@ == before + added);
            assert(views(found@) =~= views(before) + views(added));
            assert forall|j: int| 0 <= j < found@.len() implies (#[trigger] found@[j]).wf() && (
            found@[j].matched_by_filename || ast.value(found@[j].matched_terms@, true)) by {
                if j < before.len() {
                    assert(found@[j] == before[j]);
                } else {
                    assert(found@[j] == added[j - before.len()]);
                }
            }
            if named_pass(map, files@, ast) {
                assert forall|j: int| 0 <= j < found@.len() implies ast.value(
                    (#[trigger] found@[j]).matched_terms@,
                    true,
                ) by {
                    if j < before.len() {
                        assert(found@[j] == before[j]);
                    } else {
                        let b = added[j - before.len()];
                        assert(found@[j] == b);
                        if f.by_filename {
                            let whole = map[i as int];
                            assert(whole == f@);
                            assert(whole_passes(whole, files@, ast));
                            assert(source_content(files@, f.file@) == content@);
                            let lines = crate::scan::lines_of(content@);
                            assert(views(added)[j - before.len()] == b@);
                            assert(lines.len() > 0);
                            assert(b.lines.1 <= lines.len());
                            assert(b@ == crate::blocks::file_view(
                                f.file@,
                                lines,
                                f.hits.pairs@,
                                i,
                            ));
                            assert(lines.len() as usize == lines.len());
                            lemma_whole_file_satisfies(f.hits.pairs@, lines.len() as usize, ast);
                        }
                    }
                }
            }
            assert forall|j: int| 0 <= j < found@.len() implies code_is_slice(
                (#[trigger] found@[j])@,
                files@,
            ) by {
                if j < before.len() {
                    assert(found@[j] == before[j]);
                } else {
                    let b = added[j - before.len()];
                    assert(found@[j] == b);
                    assert(b.wf());
                    assert(crate::merge::source_lines(files@, f.file@) == crate::scan::lines_of(
                        content@,
                    ));
                }
            }
        }
        i += 1;
    }
    assert(map.take(map.len() as int) =~= map);
    let out = assign_file_ranks(&found);
    proof {
        assert(views(out@).len() == views(found@).len());
        assert(out@.len() == found@.len());
        assert forall|i: int| 0 <= i < out@.len() implies (#[trigger] out@[i]).wf() && (
        out@[i].matched_by_filename || ast.value(out@[i].matched_terms@, true)) by {
            assert(views(out@)[i] == out@[i]@);
            assert(views(found@)[i] == found@[i]@);
            assert(found@[i].wf());
        }
        assert forall|i: int| 0 <= i < views(out@).len() implies code_is_slice(
            #[trigger] views(out@)[i],
            files@,
        ) by {
            assert(views(out@)[i] == out@[i]@);
            assert(views(found@)[i] == found@[i]@);
            assert(code_is_slice(found@[i]@, files@));
        }
        if named_pass(map, files@, ast) {
            assert forall|i: int| 0 <= i < views(out@).len() implies ast.value(
                (#[trigger] views(out@)[i]).matched_terms,
                true,
            ) by {
                assert(views(out@)[i] == out@[i]@);
                assert(views(found@)[i] == found@[i]@);
                assert(ast.value(found@[i].matched_terms@, true));
            }
        }
    }
    out
}

/// The outcome of a search that was cancelled, at whatever stage: no result,
/// and the cache as it was.
pub fn cancelled_outcome(cache: Option<SessionCache>) -> (out: (
    LimitedSearchResults,
    Option<SessionCache>,
))
    ensures
        out.0.results@.len() == 0,
        out.0.skipped_files@.len() == 0,
        out.0.limits_applied is None,
        out.0.cached_blocks_skipped is None,
        out.1 == cache,
{
    (
        LimitedSearchResults {
            results: Vec::new(),
            skipped_files: Vec::new(),
            limits_applied: None,
            cached_blocks_skipped: None,
        },
        cache,
    )
}

/// What the last stage leaves: the blocks returned, those that the limits
/// cut off, the number that the cache held back, and the cache afterwards.
pub struct Finish {
    pub results: Seq<ResultView>,
    pub cut_off: Seq<ResultView>,
    pub held_back: usize,
    pub cache: Option<Seq<RangeView>>,
}

/// What becomes of blocks that are ready to be returned, best first. The
/// blocks that overlap a cached region are dropped; the limits are applied;
/// where merging is on, blocks that lie close together are merged; the
/// blocks that are returned are added to the cache. The number held back is
/// `early_skipped` and the blocks dropped, together.
pub open spec fn settled(
    all: Seq<ResultView>,
    options: SearchOptions,
    cache: Option<Seq<RangeView>>,
    early_skipped: usize,
    sources: Seq<SourceFile>,
    merge: bool,
) -> Finish {
    let left = match cache {
        Some(c) => all.filter(unseen(c)),
        None => all,
    };
    let taken = left.take(kept(left, limits_of(options)));
    let merging = taken.len() > 0 && merge;
    let results = if merging {
        merged(
            taken,
            sources,
            match options.merge_threshold {
                Some(t) => t,
                None => DEFAULT_MERGE_THRESHOLD,
            },
        )
    } else {
        taken
    };
    Finish {
        results,
        cut_off: left.skip(kept(left, limits_of(options))),
        held_back: clamp((early_skipped + (all.len() - left.len())) as nat),
        cache: match cache {
            Some(c) => Some(with_results(c, results)),
            None => None,
        },
    }
}

/// The last stage as a function of what goes into it: the candidates are
/// ranked and then settled, with merging unless it is switched off.
pub open spec fn finished(
    candidates: Seq<ResultView>,
    scores: Seq<Scores>,
    terms: nat,
    options: SearchOptions,
    cache: Option<Seq<RangeView>>,
    early_skipped: usize,
    sources: Seq<SourceFile>,
) -> Finish {
    settled(
        ranked(candidates, scores, options.reranker, terms),
        options,
        cache,
        early_skipped,
        sources,
        !options.no_merge,
    )
}

/// The end of a search for files only: one result for each selected file,
/// settled without merging.
pub open spec fn listed(map: Seq<FileView>, options: SearchOptions, cache: Option<Seq<RangeView>>) -> Finish {
    settled(file_only_views(map), options, cache, 0, seq![], false)
}

/// The views of an optional cache.
pub open spec fn cache_view(cache: Option<SessionCache>) -> Option<Seq<RangeView>> {
    match cache {
        Some(c) => Some(c@),
        None => None,
    }
}

/// The outcome `out` is what `f` says; the cache that comes back is that of
/// the same session as the cache `before`.
pub open spec fn matches_finish(
    out: (LimitedSearchResults, Option<SessionCache>),
    f: Finish,
    options: SearchOptions,
    before: Option<SessionCache>,
) -> bool {
    &&& views(out.0.results@) == f.results
    &&& views(out.0.skipped_files@) == f.cut_off
    &&& out.0.limits_applied == if options.max_results is Some || options.max_bytes is Some
        || options.max_tokens is Some {
        Some(limits_of(options))
    } else {
        None
    }
    &&& out.0.cached_blocks_skipped == if f.held_back > 0 {
        Some(f.held_back)
    } else {
        None
    }
    &&& cache_view(out.1) == f.cache
    &&& (out.1 matches Some(c) ==> before matches Some(b) && c.session_id == b.session_id)
}

/// What the last stage promises of its outcome `out`.
pub open spec fn finish_outcome(
    out: (LimitedSearchResults, Option<SessionCache>),
    candidates: Seq<ResultView>,
    scores: Seq<Scores>,
    terms: nat,
    options: SearchOptions,
    cache: Option<SessionCache>,
    early_skipped: usize,
    sources: Seq<SourceFile>,
) -> bool {
    matches_finish(
        out,
        finished(candidates, scores, terms, options, cache_view(cache), early_skipped, sources),
        options,
        cache,
    )
}

/// Settles blocks that are ready to be returned, best first: filter by the
/// session cache, limit, record, and merge where `merge` says so.
pub fn settle(
    all: Vec<SearchResult>,
    options: &SearchOptions,
    cache: Option<SessionCache>,
    early_skipped: usize,
    sources: &Vec<SourceFile>,
    merge: bool,
) -> (out: (LimitedSearchResults, Option<SessionCache>))
    ensures
        matches_finish(
            out,
            settled(views(all@), *options, cache_view(cache), early_skipped, sources@, merge),
            *options,
            cache,
        ),
{
    let (left, dropped) = match &cache {
        Some(c) => c.filter_results(all),
        None => (all, 0),
    };
    let ghost left_views = views(left@);
    let held_back: usize = if dropped > usize::MAX - early_skipped {
        usize::MAX
    } else {
        early_skipped + dropped
    };
    let mut limited = apply_limits(left, options.max_results, options.max_bytes, options.max_tokens);
    proof {
        let k = kept(left_views, limits_of(*options));
        assert(views(limited.results@) =~= left_views.take(k));
        assert(views(limited.skipped_files@) =~= left_views.skip(k));
    }
    limited.cached_blocks_skipped = if held_back > 0 {
        Some(held_back)
    } else {
        None
    };
    if limited.results.len() > 0 && merge {
        limited.results = merge_ranked_blocks(&limited.results, options.merge_threshold, sources);
    }
    match cache {
        Some(mut c) => {
            c.add_results(&limited.results);
            (limited, Some(c))
        },
        None => (limited, None),
    }
}

/// The last stage of a search: rank, filter by the session cache, limit,
/// merge, and record what is returned. `scores` gives for every candidate,
/// in order, the integers that stand for its lexical scores; `terms` is the
/// number of terms of the query.
pub fn finish_probe(
    candidates: &Vec<SearchResult>,
    scores: &Vec<Scores>,
    terms: usize,
    options: &SearchOptions,
    cache: Option<SessionCache>,
    early_skipped: usize,
    sources: &Vec<SourceFile>,
) -> (out: (LimitedSearchResults, Option<SessionCache>))
    requires
        candidates@.len() == scores@.len(),
    ensures
        finish_outcome(
            out,
            views(candidates@),
            scores@,
            terms as nat,
            *options,
            cache,
            early_skipped,
            sources@,
        ),
        forall|ast: Expr| #[trigger]
            all_satisfy(views(candidates@), ast) ==> all_satisfy(views(out.0.results@), ast),
        all_file_text(views(candidates@), sources@) ==> all_file_text(
            views(out.0.results@),
            sources@,
        ),
{
    let ranked_blocks = rank_search_results(candidates, scores, options.reranker, terms);
    let out = settle(ranked_blocks, options, cache, early_skipped, sources, !options.no_merge);
    proof {
        if all_file_text(views(candidates@), sources@) {
            assert(views(candidates@).len() == candidates.len());
            lemma_ranked_are_file_text(views(candidates@), scores@, terms as nat, *options, sources@);
            let all = ranked(views(candidates@), scores@, options.reranker, terms as nat);
            assert forall|j: int| 0 <= j < views(out.0.results@).len() implies code_is_slice(
                #[trigger] views(out.0.results@)[j],
                sources@,
            ) by {
                lemma_results_are_file_text(
                    all,
                    *options,
                    cache_view(cache),
                    early_skipped,
                    sources@,
                    !options.no_merge,
                    j,
                );
            }
        }
        assert forall|ast: Expr| #[trigger]
            all_satisfy(views(candidates@), ast) implies all_satisfy(views(out.0.results@), ast) by {
            assert(views(candidates@).len() == candidates.len());
            lemma_results_satisfy_query(
                views(candidates@),
                scores@,
                terms as nat,
                *options,
                cache_view(cache),
                early_skipped,
                sources@,
                ast,
            );
        }
    }
    out
}

/// Two searches with the same options over the same files and the same
/// cache end alike: with the same message, with the same results and cache,
/// or with the same files and hits selected.
pub proof fn lemma_probe_is_deterministic(
    a: Result<(Probe, Option<SessionCache>), FatalError>,
    b: Result<(Probe, Option<SessionCache>), FatalError>,
    options: SearchOptions,
    files: Seq<SourceFile>,
    cache: Option<SessionCache>,
)
    requires
        probe_outcome(a, options, files, cache),
        probe_outcome(b, options, files, cache),
    ensures
        match (a, b) {
            (Err(x), Err(y)) => x.message() == y.message(),
            (Ok((Probe::Done(x), c)), Ok((Probe::Done(y), d))) => views(x.results@) == views(
                y.results@,
            ) && views(x.skipped_files@) == views(y.skipped_files@) && x.limits_applied
                == y.limits_applied && x.cached_blocks_skipped == y.cached_blocks_skipped
                && cache_view(c) == cache_view(d),
            (Ok((Probe::Candidates(x), c)), Ok((Probe::Candidates(y), d))) => x.map@ == y.map@
                && x.skipped == y.skipped && x.plan.ast == y.plan.ast && plan_keys(x.plan)
                == plan_keys(y.plan) && x.plan.exact == y.plan.exact && c == d,
            _ => false,
        },
{
    match (a, b) {
        (Ok((Probe::Done(x), c)), Ok((Probe::Done(y), d))) => {
            assert(views(x.results@) =~= views(y.results@));
            assert(views(x.skipped_files@) =~= views(y.skipped_files@));
        },
        (Ok((Probe::Candidates(x), c)), Ok((Probe::Candidates(y), d))) => {
            assert(plan_keys(x.plan) =~= plan_keys(y.plan));
        },
        _ => {},
    }
}

/// The same candidates with the same scores, options, cache and sources
/// give the same results, block by block, the same report and the same cache.
pub proof fn lemma_finish_is_deterministic(
    a: (LimitedSearchResults, Option<SessionCache>),
    b: (LimitedSearchResults, Option<SessionCache>),
    candidates: Seq<ResultView>,
    scores: Seq<Scores>,
    terms: nat,
    options: SearchOptions,
    cache: Option<SessionCache>,
    early_skipped: usize,
    sources: Seq<SourceFile>,
)
    requires
        finish_outcome(a, candidates, scores, terms, options, cache, early_skipped, sources),
        finish_outcome(b, candidates, scores, terms, options, cache, early_skipped, sources),
    ensures
        views(a.0.results@) == views(b.0.results@),
        views(a.0.skipped_files@) == views(b.0.skipped_files@),
        a.0.limits_applied == b.0.limits_applied,
        a.0.cached_blocks_skipped == b.0.cached_blocks_skipped,
        cache_view(a.1) == cache_view(b.1),
{
}

/// Every block overlaps a region of the cache.
pub open spec fn all_seen(all: Seq<ResultView>, cache: Seq<RangeView>) -> bool {
    forall|k: int|
        0 <= k < all.len() ==> crate::cache::overlaps(
            cache,
            (#[trigger] all[k]).file,
            all[k].lines.0,
            all[k].lines.1,
        )
}

/// When blocks are settled under a session and no limit cuts one off, the
/// cache then overlaps every one of them: those that it held back, and those
/// that were returned and recorded.
pub proof fn lemma_settled_blocks_are_seen(
    all: Seq<ResultView>,
    options: SearchOptions,
    cache: Seq<RangeView>,
    early_skipped: usize,
    sources: Seq<SourceFile>,
    merge: bool,
)
    requires
        all.len() <= usize::MAX,
        forall|i: int| 0 <= i < all.len() ==> 1 <= (#[trigger] all[i]).lines.0 <= all[i].lines.1,
        settled(all, options, Some(cache), early_skipped, sources, merge).cut_off.len() == 0,
    ensures
        settled(all, options, Some(cache), early_skipped, sources, merge).cache is Some,
        all_seen(
            all,
            settled(all, options, Some(cache), early_skipped, sources, merge).cache->Some_0,
        ),
        cache.len() <= settled(
            all,
            options,
            Some(cache),
            early_skipped,
            sources,
            merge,
        ).cache->Some_0.len(),
        forall|k: int|
            0 <= k < cache.len() ==> settled(
                all,
                options,
                Some(cache),
                early_skipped,
                sources,
                merge,
            ).cache->Some_0[k] == cache[k],
{
    let limits = limits_of(options);
    let left = all.filter(unseen(cache));
    crate::limits::lemma_limits_monotone(left, limits, limits);
    let taken = left.take(kept(left, limits));
    assert(left.skip(kept(left, limits)).len() == 0);
    assert(taken =~= left);
    let first = settled(all, options, Some(cache), early_skipped, sources, merge);
    let held = first.cache->Some_0;
    crate::cache::lemma_with_results_extends(cache, first.results);
    assert(taken == self::taken(all, options, Some(cache)));
    assert forall|k: int| 0 <= k < all.len() implies crate::cache::overlaps(
        held,
        (#[trigger] all[k]).file,
        all[k].lines.0,
        all[k].lines.1,
    ) by {
        let b = all[k];
        if crate::cache::overlaps(cache, b.file, b.lines.0, b.lines.1) {
            let i = choose|i: int|
                0 <= i < cache.len() && (#[trigger] cache[i]).file == b.file && cache[i].start
                    <= b.lines.1 && b.lines.0 <= cache[i].end;
            assert(held[i] == cache[i]);
        } else {
            assert(unseen(cache)(b));
            all.lemma_filter_contains(unseen(cache), k);
            let j = choose|j: int| 0 <= j < left.len() && left[j] == b;
            lemma_taken_blocks_are_returned(
                all,
                options,
                Some(cache),
                early_skipped,
                sources,
                merge,
                j,
            );
            let x = choose|x: int|
                0 <= x < first.results.len() && crate::merge::lies_within(
                    b,
                    #[trigger] first.results[x],
                );
            crate::cache::lemma_with_results_holds(cache, first.results, x);
            let m = first.results[x];
            let i = choose|i: int|
                0 <= i < held.len() && (#[trigger] held[i]).file == m.file && held[i].start
                    == m.lines.0 && held[i].end == m.lines.1;
            assert(held[i].start <= b.lines.1 && b.lines.0 <= held[i].end);
        }
    }
}

/// Blocks that the cache overlaps, every one, are all held back: nothing is
/// returned and nothing is cut off.
pub proof fn lemma_seen_blocks_are_held_back(
    all: Seq<ResultView>,
    options: SearchOptions,
    cache: Seq<RangeView>,
    early_skipped: usize,
    sources: Seq<SourceFile>,
    merge: bool,
)
    requires
        all_seen(all, cache),
    ensures
        ({
            let out = settled(all, options, Some(cache), early_skipped, sources, merge);
            &&& out.results == Seq::<ResultView>::empty()
            &&& out.cut_off == Seq::<ResultView>::empty()
            &&& out.held_back == clamp((early_skipped + all.len()) as nat)
        }),
{
    let limits = limits_of(options);
    assert forall|k: int| 0 <= k < all.len() implies !unseen(cache)(#[trigger] all[k]) by {}
    crate::sequences::lemma_filter_none(all, unseen(cache));
    let again = all.filter(unseen(cache));
    assert(again.take(kept(again, limits)) =~= Seq::<ResultView>::empty());
    assert(again.skip(kept(again, limits)) =~= Seq::<ResultView>::empty());
}

/// When blocks were settled under a session and no limit cut one off, the
/// same blocks settled again under what the session then holds are all held
/// back: nothing is returned the second time.
pub proof fn lemma_second_run_is_empty(
    all: Seq<ResultView>,
    options: SearchOptions,
    cache: Seq<RangeView>,
    early_first: usize,
    early_second: usize,
    sources: Seq<SourceFile>,
    merge: bool,
)
    requires
        all.len() <= usize::MAX,
        forall|i: int| 0 <= i < all.len() ==> 1 <= (#[trigger] all[i]).lines.0 <= all[i].lines.1,
        settled(all, options, Some(cache), early_first, sources, merge).cut_off.len() == 0,
    ensures
        ({
            let first = settled(all, options, Some(cache), early_first, sources, merge);
            let second = settled(all, options, first.cache, early_second, sources, merge);
            &&& second.results == Seq::<ResultView>::empty()
            &&& second.cut_off == Seq::<ResultView>::empty()
            &&& second.held_back == clamp((early_second + all.len()) as nat)
        }),
{
    lemma_settled_blocks_are_seen(all, options, cache, early_first, sources, merge);
    let first = settled(all, options, Some(cache), early_first, sources, merge);
    lemma_seen_blocks_are_held_back(
        all,
        options,
        first.cache->Some_0,
        early_second,
        sources,
        merge,
    );
}

/// When a search of which no limit cut a block off has recorded what it
/// returned, the same search under the same session returns nothing: the
/// cache holds back every block of the second run.
pub proof fn lemma_second_search_is_empty(
    candidates: Seq<ResultView>,
    scores: Seq<Scores>,
    terms: nat,
    options: SearchOptions,
    cache: Seq<RangeView>,
    early_first: usize,
    early_second: usize,
    sources: Seq<SourceFile>,
)
    requires
        candidates.len() <= usize::MAX,
        forall|i: int|
            0 <= i < candidates.len() ==> 1 <= (#[trigger] candidates[i]).lines.0
                <= candidates[i].lines.1,
        finished(
            candidates,
            scores,
            terms,
            options,
            Some(cache),
            early_first,
            sources,
        ).cut_off.len() == 0,
    ensures
        ({
            let first = finished(
                candidates,
                scores,
                terms,
                options,
                Some(cache),
                early_first,
                sources,
            );
            let second = finished(
                candidates,
                scores,
                terms,
                options,
                first.cache,
                early_second,
                sources,
            );
            &&& second.results == Seq::<ResultView>::empty()
            &&& second.cut_off == Seq::<ResultView>::empty()
            &&& second.held_back == clamp((early_second + candidates.len()) as nat)
        }),
{
    let all = ranked(candidates, scores, options.reranker, terms);
    assert(all.len() == candidates.len());
    assert forall|k: int| 0 <= k < all.len() implies 1 <= (#[trigger] all[k]).lines.0
        <= all[k].lines.1 by {
        crate::ranking::lemma_ranked_keeps_blocks(candidates, scores, options.reranker, terms, k);
    }
    lemma_second_run_is_empty(
        all,
        options,
        cache,
        early_first,
        early_second,
        sources,
        !options.no_merge,
    );
}

/// The lines of every file of the map can be counted by the machine.
pub open spec fn countable(map: Seq<FileView>, files: Seq<SourceFile>) -> bool {
    forall|i: int| 0 <= i < map.len() ==> line_count(files, (#[trigger] map[i]).path) <= usize::MAX
}

/// The candidates of a search: the blocks of the selected files, each with
/// the place of its file.
pub open spec fn candidates_of(
    map: Seq<FileView>,
    files: Seq<SourceFile>,
    regions: Seq<FileRegions>,
    ast: Expr,
) -> Seq<ResultView> {
    file_ranked(gathered(map, files, regions, ast))
}

/// No two blocks gathered from files with different paths have the same
/// file and lines.
pub proof fn lemma_gathered_distinct(
    map: Seq<FileView>,
    files: Seq<SourceFile>,
    regions: Seq<FileRegions>,
    ast: Expr,
)
    requires
        distinct_paths(map),
    ensures
        distinct_places(gathered(map, files, regions, ast)),
    decreases map.len(),
{
    let g = gathered(map, files, regions, ast);
    if map.len() > 0 {
        let init = map.drop_last();
        let f = map.last();
        assert forall|i: int, j: int| 0 <= i < j < init.len() implies (#[trigger] init[i]).path != (
        #[trigger] init[j]).path by {
            assert(init[i] == map[i] && init[j] == map[j]);
        }
        lemma_gathered_distinct(init, files, regions, ast);
        let rest = gathered(init, files, regions, ast);
        let own = blocks_of(map, files, regions, ast, map.len() - 1);
        assert(g == rest + own);
        lemma_extracted_distinct(
            f.path,
            source_content(files, f.path),
            regions_of(regions, f.path),
            f.pairs,
            ast,
            f.by_filename,
            (map.len() - 1) as usize,
        );
        assert forall|a: int, b: int| 0 <= a < b < g.len() implies !same_place(
            #[trigger] g[a],
            #[trigger] g[b],
        ) by {
            if b < rest.len() {
                assert(g[a] == rest[a] && g[b] == rest[b]);
            } else if a >= rest.len() {
                assert(g[a] == own[a - rest.len()] && g[b] == own[b - rest.len()]);
            } else {
                assert(g[a] == rest[a] && g[b] == own[b - rest.len()]);
                let at = lemma_gathered_entry(init, files, regions, ast, a);
                let e = init[at.0];
                assert(e == map[at.0]);
                lemma_extracted_from(
                    e.path,
                    source_content(files, e.path),
                    regions_of(regions, e.path),
                    e.pairs,
                    ast,
                    e.by_filename,
                    at.0 as usize,
                    at.1,
                );
                lemma_extracted_from(
                    f.path,
                    source_content(files, f.path),
                    regions_of(regions, f.path),
                    f.pairs,
                    ast,
                    f.by_filename,
                    (map.len() - 1) as usize,
                    b - rest.len(),
                );
                assert(map[at.0].path != map[map.len() - 1].path);
            }
        }
    }
}

/// The candidates of a search are blocks that the selected files give, with
/// lines in order.
proof fn lemma_candidate_from(
    map: Seq<FileView>,
    files: Seq<SourceFile>,
    regions: Seq<FileRegions>,
    ast: Expr,
    i: int,
) -> (k: int)
    requires
        0 <= i < candidates_of(map, files, regions, ast).len(),
    ensures
        0 <= k < map.len(),
        block_from(
            candidates_of(map, files, regions, ast)[i],
            map[k].path,
            line_count(files, map[k].path),
            regions_of(regions, map[k].path),
            map[k].pairs,
            ast,
            map[k].by_filename,
        ),
{
    let g = gathered(map, files, regions, ast);
    let at = lemma_gathered_entry(map, files, regions, ast, i);
    let f = map[at.0];
    lemma_extracted_from(
        f.path,
        source_content(files, f.path),
        regions_of(regions, f.path),
        f.pairs,
        ast,
        f.by_filename,
        at.0 as usize,
        at.1,
    );
    assert(candidates_of(map, files, regions, ast)[i].file == g[i].file);
    assert(candidates_of(map, files, regions, ast)[i].lines == g[i].lines);
    at.0
}

/// A block that a selected file gives is among the candidates.
proof fn lemma_candidate_has(
    b: ResultView,
    map: Seq<FileView>,
    files: Seq<SourceFile>,
    regions: Seq<FileRegions>,
    ast: Expr,
    k: int,
) -> (i: int)
    requires
        0 <= k < map.len(),
        block_from(
            b,
            map[k].path,
            line_count(files, map[k].path),
            regions_of(regions, map[k].path),
            map[k].pairs,
            ast,
            map[k].by_filename,
        ),
    ensures
        0 <= i < candidates_of(map, files, regions, ast).len(),
        candidates_of(map, files, regions, ast)[i].file == b.file,
        candidates_of(map, files, regions, ast)[i].lines == b.lines,
{
    let f = map[k];
    let x = lemma_extracted_has(
        b,
        f.path,
        source_content(files, f.path),
        regions_of(regions, f.path),
        f.pairs,
        ast,
        f.by_filename,
        k as usize,
    );
    let i = lemma_gathered_has(map, files, regions, ast, k, x);
    i
}

/// A whole search repeated under one session returns nothing. The files
/// chosen are the same both times. The first search, of which no limit cut a
/// block off, recorded what it returned; the second starts from what the
/// session then holds. Every block of the second search is then a block of
/// the first, with no more terms, and the cache holds it back: whatever
/// the scores are, the second search returns nothing.
pub proof fn lemma_second_whole_search_is_empty(
    map: Seq<FileView>,
    ast: Expr,
    files: Seq<SourceFile>,
    regions: Seq<FileRegions>,
    scores_first: Seq<Scores>,
    scores_second: Seq<Scores>,
    terms: nat,
    options: SearchOptions,
    cache: Seq<RangeView>,
    early_first: usize,
    early_second: usize,
)
    requires
        countable(uncached(map.filter(passes(ast)), cache), files),
        candidates_of(uncached(map.filter(passes(ast)), cache), files, regions, ast).len()
            <= usize::MAX,
        finished(
            candidates_of(uncached(map.filter(passes(ast)), cache), files, regions, ast),
            scores_first,
            terms,
            options,
            Some(cache),
            early_first,
            files,
        ).cut_off.len() == 0,
        candidates_of(
            uncached(
                map.filter(passes(ast)),
                finished(
                    candidates_of(uncached(map.filter(passes(ast)), cache), files, regions, ast),
                    scores_first,
                    terms,
                    options,
                    Some(cache),
                    early_first,
                    files,
                ).cache->Some_0,
            ),
            files,
            regions,
            ast,
        ).len() <= usize::MAX,
    ensures
        ({
            let chosen = map.filter(passes(ast));
            let first = finished(
                candidates_of(uncached(chosen, cache), files, regions, ast),
                scores_first,
                terms,
                options,
                Some(cache),
                early_first,
                files,
            );
            let second = finished(
                candidates_of(uncached(chosen, first.cache->Some_0), files, regions, ast),
                scores_second,
                terms,
                options,
                first.cache,
                early_second,
                files,
            );
            &&& first.cache is Some
            &&& second.results == Seq::<ResultView>::empty()
            &&& second.cut_off == Seq::<ResultView>::empty()
        }),
{
    let chosen = map.filter(passes(ast));
    let m1 = uncached(chosen, cache);
    let c1 = candidates_of(m1, files, regions, ast);
    let all1 = ranked(c1, scores_first, options.reranker, terms);
    let merge = !options.no_merge;
    let first = settled(all1, options, Some(cache), early_first, files, merge);
    assert forall|q: int| 0 <= q < chosen.len() implies ast.value(
        terms_of((#[trigger] chosen[q]).pairs),
        true,
    ) by {
        map.lemma_filter_pred(passes(ast), q);
    }
    assert forall|k: int| 0 <= k < all1.len() implies 1 <= (#[trigger] all1[k]).lines.0
        <= all1[k].lines.1 by {
        crate::ranking::lemma_ranked_keeps_blocks(c1, scores_first, options.reranker, terms, k);
        let i = choose|i: int|
            0 <= i < c1.len() && all1[k] == (ResultView {
                ranking: all1[k].ranking,
                ..#[trigger] c1[i]
            });
        let j = lemma_candidate_from(m1, files, regions, ast, i);
        lemma_block_from_lines(
            c1[i],
            m1[j].path,
            line_count(files, m1[j].path),
            regions_of(regions, m1[j].path),
            m1[j].pairs,
            ast,
            m1[j].by_filename,
        );
    }
    lemma_settled_blocks_are_seen(all1, options, cache, early_first, files, merge);
    let held = first.cache->Some_0;
    let m2 = uncached(chosen, held);
    let c2 = candidates_of(m2, files, regions, ast);
    let all2 = ranked(c2, scores_second, options.reranker, terms);
    assert(all_seen(all2, held)) by {
        assert forall|k: int| 0 <= k < all2.len() implies crate::cache::overlaps(
            held,
            (#[trigger] all2[k]).file,
            all2[k].lines.0,
            all2[k].lines.1,
        ) by {
            crate::ranking::lemma_ranked_keeps_blocks(
                c2,
                scores_second,
                options.reranker,
                terms,
                k,
            );
            let i = choose|i: int|
                0 <= i < c2.len() && all2[k] == (ResultView {
                    ranking: all2[k].ranking,
                    ..#[trigger] c2[i]
                });
            let b = c2[i];
            let j = lemma_candidate_from(m2, files, regions, ast, i);
            let q = lemma_uncached_entry(chosen, held, j);
            let f = chosen[q];
            let now = left_of(f, held);
            let was = left_of(f, cache);
            lemma_grown_cache_leaves_less(f, cache, held);
            assert(now.pairs.contains(now.pairs[0]));
            assert(was.pairs.contains(now.pairs[0]));
            assert forall|t: usize, l: usize| was.pairs.contains((t, l)) implies !ast.excludes(
                t,
            ) by {
                f.pairs.lemma_filter_contains_rev(crate::cache::fresh(cache, f.path), (t, l));
                let a = choose|a: int| 0 <= a < f.pairs.len() && f.pairs[a] == (t, l);
                assert(terms_of(f.pairs)[a] == t);
                if ast.excludes(t) {
                    crate::ast::lemma_excluded_term_bars(ast, t, terms_of(f.pairs));
                }
            }
            lemma_block_from_more(
                b,
                f.path,
                line_count(files, f.path),
                regions_of(regions, f.path),
                now.pairs,
                was.pairs,
                ast,
                f.by_filename,
            );
            let j1 = lemma_uncached_has(chosen, cache, q);
            let i1 = lemma_candidate_has(b, m1, files, regions, ast, j1);
            let k1 = crate::ranking::lemma_ranked_holds_all(
                c1,
                scores_first,
                options.reranker,
                terms,
                i1,
            );
            assert(all1[k1].file == b.file && all1[k1].lines == b.lines);
            assert(crate::cache::overlaps(held, all1[k1].file, all1[k1].lines.0, all1[k1].lines.1));
        }
    }
    lemma_seen_blocks_are_held_back(all2, options, held, early_second, files, merge);
}

/// The block lies within the region.
pub open spec fn in_region(b: ResultView, e: RangeView) -> bool {
    e.file == b.file && e.start <= b.lines.0 && b.lines.1 <= e.end
}

/// When blocks are settled under a session and no limit cuts one off, every
/// block that the cache did not hold back lies within a region that is
/// recorded.
proof fn lemma_settled_block_is_recorded(
    all: Seq<ResultView>,
    options: SearchOptions,
    cache: Seq<RangeView>,
    early_skipped: usize,
    sources: Seq<SourceFile>,
    merge: bool,
    k: int,
) -> (i: int)
    requires
        all.len() <= usize::MAX,
        forall|i: int| 0 <= i < all.len() ==> 1 <= (#[trigger] all[i]).lines.0 <= all[i].lines.1,
        settled(all, options, Some(cache), early_skipped, sources, merge).cut_off.len() == 0,
        0 <= k < all.len(),
        !crate::cache::overlaps(cache, all[k].file, all[k].lines.0, all[k].lines.1),
    ensures
        0 <= i < settled(
            all,
            options,
            Some(cache),
            early_skipped,
            sources,
            merge,
        ).cache->Some_0.len(),
        in_region(
            all[k],
            settled(all, options, Some(cache), early_skipped, sources, merge).cache->Some_0[i],
        ),
{
    let limits = limits_of(options);
    let left = all.filter(unseen(cache));
    crate::limits::lemma_limits_monotone(left, limits, limits);
    let taken = left.take(kept(left, limits));
    assert(left.skip(kept(left, limits)).len() == 0);
    assert(taken =~= left);
    let first = settled(all, options, Some(cache), early_skipped, sources, merge);
    let held = first.cache->Some_0;
    assert(taken == self::taken(all, options, Some(cache)));
    let b = all[k];
    assert(unseen(cache)(b));
    all.lemma_filter_contains(unseen(cache), k);
    let j = choose|j: int| 0 <= j < left.len() && left[j] == b;
    lemma_taken_blocks_are_returned(all, options, Some(cache), early_skipped, sources, merge, j);
    let x = choose|x: int|
        0 <= x < first.results.len() && crate::merge::lies_within(b, #[trigger] first.results[x]);
    crate::cache::lemma_with_results_holds(cache, first.results, x);
    let m = first.results[x];
    let i = choose|i: int|
        0 <= i < held.len() && (#[trigger] held[i]).file == m.file && held[i].start == m.lines.0
            && held[i].end == m.lines.1;
    i
}

/// The ranked candidates of a search have their lines in order, counted
/// from 1.
proof fn lemma_ranked_candidates_in_order(
    map: Seq<FileView>,
    files: Seq<SourceFile>,
    regions: Seq<FileRegions>,
    ast: Expr,
    scores: Seq<Scores>,
    reranker: Reranker,
    terms: nat,
)
    requires
        countable(map, files),
        candidates_of(map, files, regions, ast).len() <= usize::MAX,
    ensures
        forall|k: int|
            0 <= k < ranked(candidates_of(map, files, regions, ast), scores, reranker, terms).len()
                ==> 1 <= (#[trigger] ranked(
                candidates_of(map, files, regions, ast),
                scores,
                reranker,
                terms,
            )[k]).lines.0 <= ranked(
                candidates_of(map, files, regions, ast),
                scores,
                reranker,
                terms,
            )[k].lines.1,
{
    let c = candidates_of(map, files, regions, ast);
    let all = ranked(c, scores, reranker, terms);
    assert forall|k: int| 0 <= k < all.len() implies 1 <= (#[trigger] all[k]).lines.0
        <= all[k].lines.1 by {
        crate::ranking::lemma_ranked_keeps_blocks(c, scores, reranker, terms, k);
        let i = choose|i: int|
            0 <= i < c.len() && all[k] == (ResultView { ranking: all[k].ranking, ..#[trigger] c[i] });
        let j = lemma_candidate_from(map, files, regions, ast, i);
        lemma_block_from_lines(
            c[i],
            map[j].path,
            line_count(files, map[j].path),
            regions_of(regions, map[j].path),
            map[j].pairs,
            ast,
            map[j].by_filename,
        );
    }
}

/// After a first search of a session, one that started with nothing recorded
/// and of which no limit cut a block off, the same search finds no candidate
/// any more. One region was recorded for every block that the first search
/// returned, and every one of them holds a hit back: the number held back
/// the second time is the number of blocks that were returned the first
/// time.
pub proof fn lemma_second_search_counts_blocks(
    map: Seq<FileView>,
    ast: Expr,
    files: Seq<SourceFile>,
    regions: Seq<FileRegions>,
    scores_first: Seq<Scores>,
    scores_second: Seq<Scores>,
    terms: nat,
    options: SearchOptions,
    early_first: usize,
)
    requires
        countable(uncached(map.filter(passes(ast)), Seq::<RangeView>::empty()), files),
        distinct_paths(uncached(map.filter(passes(ast)), Seq::<RangeView>::empty())),
        named_pass(uncached(map.filter(passes(ast)), Seq::<RangeView>::empty()), files, ast),
        candidates_of(
            uncached(map.filter(passes(ast)), Seq::<RangeView>::empty()),
            files,
            regions,
            ast,
        ).len() <= usize::MAX,
        finished(
            candidates_of(
                uncached(map.filter(passes(ast)), Seq::<RangeView>::empty()),
                files,
                regions,
                ast,
            ),
            scores_first,
            terms,
            options,
            Some(Seq::<RangeView>::empty()),
            early_first,
            files,
        ).cut_off.len() == 0,
    ensures
        ({
            let chosen = map.filter(passes(ast));
            let first = finished(
                candidates_of(uncached(chosen, Seq::<RangeView>::empty()), files, regions, ast),
                scores_first,
                terms,
                options,
                Some(Seq::<RangeView>::empty()),
                early_first,
                files,
            );
            let held = first.cache->Some_0;
            let again = candidates_of(uncached(chosen, held), files, regions, ast);
            &&& first.cache is Some
            &&& again.len() == 0
            &&& held.len() == first.results.len()
            &&& regions_holding(held, chosen) == held.len()
            &&& finished(
                again,
                scores_second,
                terms,
                options,
                first.cache,
                clamp(held.len()),
                files,
            ).held_back == clamp(held.len())
        }),
{
    let none = Seq::<RangeView>::empty();
    let chosen = map.filter(passes(ast));
    let m1 = uncached(chosen, none);
    let c1 = candidates_of(m1, files, regions, ast);
    let all1 = ranked(c1, scores_first, options.reranker, terms);
    let merge = !options.no_merge;
    let first = settled(all1, options, Some(none), early_first, files, merge);
    let held = first.cache->Some_0;
    let m2 = uncached(chosen, held);
    let c2 = candidates_of(m2, files, regions, ast);
    assert forall|q: int| 0 <= q < chosen.len() implies ast.value(
        terms_of((#[trigger] chosen[q]).pairs),
        true,
    ) by {
        map.lemma_filter_pred(passes(ast), q);
    }
    lemma_ranked_candidates_in_order(m1, files, regions, ast, scores_first, options.reranker, terms);
    lemma_settled_blocks_are_seen(all1, options, none, early_first, files, merge);
    if c2.len() > 0 {
        let b = c2[0];
        let j = lemma_candidate_from(m2, files, regions, ast, 0);
        let q = lemma_uncached_entry(chosen, held, j);
        let f = chosen[q];
        let now = left_of(f, held);
        let was = left_of(f, none);
        lemma_grown_cache_leaves_less(f, none, held);
        assert(now.pairs.contains(now.pairs[0]));
        assert(was.pairs.contains(now.pairs[0]));
        assert forall|t: usize, l: usize| was.pairs.contains((t, l)) implies !ast.excludes(t) by {
            f.pairs.lemma_filter_contains_rev(crate::cache::fresh(none, f.path), (t, l));
            let a = choose|a: int| 0 <= a < f.pairs.len() && f.pairs[a] == (t, l);
            assert(terms_of(f.pairs)[a] == t);
            if ast.excludes(t) {
                crate::ast::lemma_excluded_term_bars(ast, t, terms_of(f.pairs));
            }
        }
        let n = line_count(files, f.path);
        lemma_block_from_more(
            b,
            f.path,
            n,
            regions_of(regions, f.path),
            now.pairs,
            was.pairs,
            ast,
            f.by_filename,
        );
        let j1 = lemma_uncached_has(chosen, none, q);
        assert(m1[j1] == was);
        if f.by_filename {
            assert(whole_passes(m1[j1], files, ast));
            assert(n > 0);
            assert forall|t: usize, l: usize| #[trigger] now.pairs.contains((t, l)) implies 1 <= l
                <= n by {
                assert(was.pairs.contains((t, l)));
            }
        }
        let hit = lemma_block_from_hit(
            b,
            f.path,
            n,
            regions_of(regions, f.path),
            now.pairs,
            ast,
            f.by_filename,
        );
        let i1 = lemma_candidate_has(b, m1, files, regions, ast, j1);
        let k1 = crate::ranking::lemma_ranked_holds_all(
            c1,
            scores_first,
            options.reranker,
            terms,
            i1,
        );
        assert(all1[k1].file == b.file && all1[k1].lines == b.lines);
        let r = lemma_settled_block_is_recorded(
            all1,
            options,
            none,
            early_first,
            files,
            merge,
            k1,
        );
        assert(crate::cache::covers(held, f.path, hit.1));
        f.pairs.lemma_filter_contains_rev(crate::cache::fresh(held, f.path), hit);
        assert(false);
    }
    assert forall|k: int| 0 <= k < held.len() implies crate::cache::holds_back(
        #[trigger] held[k],
        chosen,
    ) by {
        let x = crate::cache::lemma_with_results_entry(none, first.results, k);
        let block = first.results[x];
        lemma_taken(all1, options, Some(none));
        let t = taken(all1, options, Some(none));
        let threshold = match options.merge_threshold {
            Some(t) => t,
            None => DEFAULT_MERGE_THRESHOLD,
        };
        let i = if t.len() > 0 && merge {
            crate::merge::lemma_merged_has_member(t, files, threshold, x)
        } else {
            x
        };
        let member = t[i];
        assert(crate::merge::lies_within(member, block));
        assert(all1.contains(member));
        let a = choose|a: int| 0 <= a < all1.len() && all1[a] == member;
        crate::ranking::lemma_ranked_keeps_blocks(c1, scores_first, options.reranker, terms, a);
        let ci = choose|ci: int|
            0 <= ci < c1.len() && all1[a] == (ResultView {
                ranking: all1[a].ranking,
                ..#[trigger] c1[ci]
            });
        let j = lemma_candidate_from(m1, files, regions, ast, ci);
        let q = lemma_uncached_entry(chosen, none, j);
        let f = chosen[q];
        lemma_grown_cache_leaves_less(f, none, none);
        let hit = lemma_block_from_hit(
            c1[ci],
            m1[j].path,
            line_count(files, m1[j].path),
            regions_of(regions, m1[j].path),
            m1[j].pairs,
            ast,
            m1[j].by_filename,
        );
        assert(left_of(f, none).pairs.contains(hit));
        assert(f.pairs.contains(hit));
        let at = choose|at: int| 0 <= at < f.pairs.len() && f.pairs[at] == hit;
        assert(0 <= q < chosen.len() && 0 <= at < chosen[q].pairs.len() && chosen[q].path
            == held[k].file && held[k].start <= (#[trigger] chosen[q].pairs[at]).1 <= held[k].end);
    }
    crate::cache::lemma_all_regions_hold(held, chosen);
    assert(held.len() == first.results.len()) by {
        lemma_gathered_distinct(m1, files, regions, ast);
        let g1 = gathered(m1, files, regions, ast);
        assert(distinct_places(c1)) by {
            assert forall|a: int, b: int| 0 <= a < b < c1.len() implies !same_place(
                #[trigger] c1[a],
                #[trigger] c1[b],
            ) by {
                assert(c1[a].file == g1[a].file && c1[a].lines == g1[a].lines);
                assert(c1[b].file == g1[b].file && c1[b].lines == g1[b].lines);
                assert(!same_place(g1[a], g1[b]));
            }
        }
        crate::ranking::lemma_ranked_distinct(c1, scores_first, options.reranker, terms);
        assert forall|k: int| 0 <= k < all1.len() implies unseen(none)(#[trigger] all1[k]) by {}
        crate::sequences::lemma_filter_all(all1, unseen(none));
        let limits = limits_of(options);
        crate::limits::lemma_limits_monotone(all1, limits, limits);
        let t = all1.take(kept(all1, limits));
        assert(all1.skip(kept(all1, limits)).len() == 0);
        assert(t =~= all1);
        let threshold = match options.merge_threshold {
            Some(t) => t,
            None => DEFAULT_MERGE_THRESHOLD,
        };
        if t.len() > 0 && merge {
            crate::merge::lemma_merged_distinct(t, files, threshold);
        }
        crate::cache::lemma_with_results_counts(first.results);
    }
    let all2 = ranked(c2, scores_second, options.reranker, terms);
    assert(all2.len() == 0);
    all2.lemma_filter_len(unseen(held));
}

/// The same holds of a search for files only: the files that it returned
/// under a session are not returned again under that session.
pub proof fn lemma_second_listing_is_empty(
    map: Seq<FileView>,
    options: SearchOptions,
    cache: Seq<RangeView>,
)
    requires
        map.len() <= usize::MAX,
        listed(map, options, Some(cache)).cut_off.len() == 0,
    ensures
        ({
            let first = listed(map, options, Some(cache));
            let second = listed(map, options, first.cache);
            &&& second.results == Seq::<ResultView>::empty()
            &&& second.cut_off == Seq::<ResultView>::empty()
            &&& second.held_back == clamp(map.len())
        }),
{
    lemma_second_run_is_empty(file_only_views(map), options, cache, 0, 0, seq![], false);
}

/// With tighter limits a search that does not merge returns a beginning of
/// what it returns with the looser ones, so that no block appears that the
/// looser limits left out.
pub proof fn lemma_tighter_limits_return_less(
    candidates: Seq<ResultView>,
    scores: Seq<Scores>,
    terms: nat,
    tight: SearchOptions,
    loose: SearchOptions,
    cache: Option<Seq<RangeView>>,
    early_skipped: usize,
    sources: Seq<SourceFile>,
)
    requires
        tight.no_merge,
        loose.no_merge,
        tight.reranker == loose.reranker,
        crate::limits::tighter(limits_of(tight), limits_of(loose)),
    ensures
        ({
            let few = finished(
                candidates,
                scores,
                terms,
                tight,
                cache,
                early_skipped,
                sources,
            ).results;
            let many = finished(
                candidates,
                scores,
                terms,
                loose,
                cache,
                early_skipped,
                sources,
            ).results;
            &&& few.len() <= many.len()
            &&& few == many.take(few.len() as int)
            &&& forall|r: ResultView| few.contains(r) ==> many.contains(r)
        }),
{
    let all = ranked(candidates, scores, tight.reranker, terms);
    let left = match cache {
        Some(c) => all.filter(unseen(c)),
        None => all,
    };
    crate::limits::lemma_limits_monotone(left, limits_of(tight), limits_of(loose));
}

/// With tighter limits nothing new is returned, whether blocks are merged
/// or not: every block of the tighter result lies within a block of the
/// looser one.
pub proof fn lemma_tighter_limits_stay_within(
    all: Seq<ResultView>,
    tight: SearchOptions,
    loose: SearchOptions,
    cache: Option<Seq<RangeView>>,
    early_skipped: usize,
    sources: Seq<SourceFile>,
    merge: bool,
)
    requires
        all.len() <= usize::MAX,
        forall|i: int| 0 <= i < all.len() ==> (#[trigger] all[i]).lines.0 <= all[i].lines.1,
        crate::limits::tighter(limits_of(tight), limits_of(loose)),
        tight.merge_threshold == loose.merge_threshold,
    ensures
        forall|j: int|
            0 <= j < settled(all, tight, cache, early_skipped, sources, merge).results.len()
                ==> crate::merge::covered_by(
                #[trigger] settled(all, tight, cache, early_skipped, sources, merge).results[j],
                settled(all, loose, cache, early_skipped, sources, merge).results,
            ),
{
    let left = match cache {
        Some(c) => all.filter(unseen(c)),
        None => all,
    };
    if let Some(c) = cache {
        all.lemma_filter_len(unseen(c));
    }
    assert forall|i: int| 0 <= i < left.len() implies (#[trigger] left[i]).lines.0
        <= left[i].lines.1 by {
        if let Some(c) = cache {
            assert(left.contains(left[i]));
            all.lemma_filter_contains_rev(unseen(c), left[i]);
            let k = choose|k: int| 0 <= k < all.len() && all[k] == left[i];
        }
    }
    crate::limits::lemma_limits_monotone(left, limits_of(tight), limits_of(loose));
    let kt = kept(left, limits_of(tight));
    let kl = kept(left, limits_of(loose));
    let few_taken = left.take(kt);
    let many_taken = left.take(kl);
    assert(few_taken =~= many_taken.take(kt));
    let few = settled(all, tight, cache, early_skipped, sources, merge).results;
    let many = settled(all, loose, cache, early_skipped, sources, merge).results;
    let threshold = match loose.merge_threshold {
        Some(t) => t,
        None => DEFAULT_MERGE_THRESHOLD,
    };
    assert forall|j: int| 0 <= j < few.len() implies crate::merge::covered_by(
        #[trigger] few[j],
        many,
    ) by {
        if merge && few_taken.len() > 0 {
            assert forall|i: int| 0 <= i < many_taken.len() implies (
            #[trigger] many_taken[i]).lines.0 <= many_taken[i].lines.1 by {
                assert(many_taken[i] == left[i]);
            }
            crate::merge::lemma_merged_prefix_within(many_taken, kt, sources, threshold, j);
        } else {
            assert(crate::merge::lies_within(few[j], many[j]));
        }
    }
}

/// A query that excludes a term which every file that comes up holds
/// selects no file, whatever else it asks for.
pub proof fn lemma_excluded_everywhere_selects_nothing(
    ast: Expr,
    keys: Seq<Seq<char>>,
    exclude_filenames: bool,
    map: Seq<FileView>,
    files: Seq<SourceFile>,
    t: usize,
)
    requires
        ast.excludes(t),
        forall|i: int|
            0 <= i < named(map, keys, exclude_filenames, files).len()
                ==> crate::selection::holds_term(
                #[trigger] named(map, keys, exclude_filenames, files)[i],
                t,
            ),
    ensures
        chosen(ast, keys, exclude_filenames, map, files) == Seq::<FileView>::empty(),
{
    crate::selection::lemma_exclusion_leaves_nothing(
        named(map, keys, exclude_filenames, files),
        ast,
        t,
    );
}

/// A query that negates a word which every file that comes up holds
/// returns nothing, whatever else it asks for: the search has a plan, its
/// first stage ends without a result or with no file selected.
pub proof fn lemma_negated_word_returns_nothing(
    r: Result<(Probe, Option<SessionCache>), FatalError>,
    options: SearchOptions,
    files: Seq<SourceFile>,
    cache: Option<SessionCache>,
    token: usize,
)
    requires
        probe_outcome(r, options, files, cache),
        parse_tokens(tokens_of(query_text(texts(options.queries@)))) matches Ok(tree) && negates(
            tree,
            token,
        ),
        atom_key(
            query_text(texts(options.queries@)),
            tokens_of(query_text(texts(options.queries@))),
            token,
            options.exact,
        ) is Some,
        ({
            let text = query_text(texts(options.queries@));
            let key = atom_key(text, tokens_of(text), token, options.exact)->Some_0;
            let keys = planned(text, options.exact)->Ok_0.1.keys;
            &&& scanned(keys, options.exact, files) matches Ok(map) && forall|i: int|
                0 <= i < named(map, keys, options.exclude_filenames, files).len()
                    ==> crate::selection::holds_term(
                    #[trigger] named(map, keys, options.exclude_filenames, files)[i],
                    position_of(keys, key, 0) as usize,
                )
        }),
    ensures
        r matches Ok(out) && match out.0 {
            Probe::Done(l) => l.results@.len() == 0,
            Probe::Candidates(s) => s.map@.len() == 0,
        },
{
    let text = query_text(texts(options.queries@));
    let key = atom_key(text, tokens_of(text), token, options.exact)->Some_0;
    lemma_negated_word_is_excluded(text, options.exact, token);
    let (ast, v) = planned(text, options.exact)->Ok_0;
    let map = scanned(v.keys, options.exact, files)->Ok_0;
    let t = position_of(v.keys, key, 0) as usize;
    lemma_excluded_everywhere_selects_nothing(
        ast,
        v.keys,
        options.exclude_filenames,
        map,
        files,
        t,
    );
    let none = chosen(ast, v.keys, options.exclude_filenames, map, files);
    let out = r->Ok_0;
    match out.0 {
        Probe::Done(l) => {
            let all = file_only_views(none);
            assert(all.len() == 0);
            let left = match cache_view(cache) {
                Some(c) => all.filter(unseen(c)),
                None => all,
            };
            if let Some(c) = cache_view(cache) {
                all.lemma_filter_len(unseen(c));
            }
            assert(left.take(kept(left, limits_of(options))).len() == 0);
            assert(views(l.results@).len() == 0);
        },
        Probe::Candidates(s) => {
            if let Some(c) = cache_view(cache) {
                assert(uncached(none, c).len() == 0);
            }
        },
    }
}

/// Exclusion from the text of the query: a query that ends in ` NOT ` and a
/// word returns nothing where every file that comes up holds that word,
/// whatever stands before. The word is a plain word with a key; no double
/// quote stands before it. If the query does not parse, the search ends
/// without a result; if it does, its expression excludes the word and no
/// file is selected.
pub proof fn lemma_trailing_not_returns_nothing(
    r: Result<(Probe, Option<SessionCache>), FatalError>,
    options: SearchOptions,
    files: Seq<SourceFile>,
    cache: Option<SessionCache>,
    head: Seq<char>,
    word: Seq<char>,
)
    requires
        probe_outcome(r, options, files, cache),
        query_text(texts(options.queries@)) == with_not(head, word),
        with_not(head, word).len() <= usize::MAX,
        forall|i: int| 0 <= i < head.len() ==> #[trigger] head[i] != '"',
        plain_word(word),
        term_key(word, false, options.exact) is Some,
        planned(with_not(head, word), options.exact) matches Ok((ast, v)) ==> (scanned(
            v.keys,
            options.exact,
            files,
        ) matches Ok(map) && forall|i: int|
            0 <= i < named(map, v.keys, options.exclude_filenames, files).len()
                ==> crate::selection::holds_term(
                #[trigger] named(map, v.keys, options.exclude_filenames, files)[i],
                position_of(v.keys, term_key(word, false, options.exact)->Some_0, 0) as usize,
            )),
    ensures
        r matches Ok(out) && match out.0 {
            Probe::Done(l) => l.results@.len() == 0,
            Probe::Candidates(s) => s.map@.len() == 0,
        },
{
    let text = with_not(head, word);
    let ts = tokens_of(text);
    if planned(text, options.exact) is Ok {
        lemma_trailing_not(head, word);
        crate::lexer::lemma_token_count(text, 0);
        let p = ts.len() - 1;
        assert(ts[p] == crate::lexer::token(
            crate::lexer::TokenKind::Word,
            head.len() as int + 5,
            text.len() as int,
        ));
        assert(text.subrange(head.len() as int + 5, text.len() as int) =~= word);
        assert(crate::plan::token_text(text, ts[p]) == word);
        assert(atom_key(text, ts, p as usize, options.exact) == term_key(
            word,
            false,
            options.exact,
        ));
        lemma_word_behind_not_is_negated(ts, p);
        lemma_negated_word_returns_nothing(r, options, files, cache, p as usize);
    }
}

/// The code of every block is the text of its lines in its file.
pub open spec fn all_file_text(blocks: Seq<ResultView>, sources: Seq<SourceFile>) -> bool {
    forall|i: int| 0 <= i < blocks.len() ==> code_is_slice(#[trigger] blocks[i], sources)
}

/// Every block satisfies the query.
pub open spec fn all_satisfy(blocks: Seq<ResultView>, ast: Expr) -> bool {
    forall|i: int| 0 <= i < blocks.len() ==> ast.value((#[trigger] blocks[i]).matched_terms, true)
}

/// Where every candidate satisfies the query, every block that the search
/// returns does: ranking, the cache and the limits only choose among the
/// candidates, and merging keeps the query satisfied.
pub proof fn lemma_results_satisfy_query(
    candidates: Seq<ResultView>,
    scores: Seq<Scores>,
    terms: nat,
    options: SearchOptions,
    cache: Option<Seq<RangeView>>,
    early_skipped: usize,
    sources: Seq<SourceFile>,
    ast: Expr,
)
    requires
        candidates.len() <= usize::MAX,
        all_satisfy(candidates, ast),
    ensures
        all_satisfy(
            finished(candidates, scores, terms, options, cache, early_skipped, sources).results,
            ast,
        ),
{
    let all = ranked(candidates, scores, options.reranker, terms);
    assert(all_satisfy(all, ast)) by {
        assert forall|k: int| 0 <= k < all.len() implies ast.value(
            (#[trigger] all[k]).matched_terms,
            true,
        ) by {
            crate::ranking::lemma_ranked_keeps_blocks(
                candidates,
                scores,
                options.reranker,
                terms,
                k,
            );
        }
    }
    let left = match cache {
        Some(c) => all.filter(unseen(c)),
        None => all,
    };
    assert(all_satisfy(left, ast)) by {
        assert forall|k: int| 0 <= k < left.len() implies ast.value(
            (#[trigger] left[k]).matched_terms,
            true,
        ) by {
            if let Some(c) = cache {
                assert(left.contains(left[k]));
                all.lemma_filter_contains_rev(unseen(c), left[k]);
                let i = choose|i: int| 0 <= i < all.len() && all[i] == left[k];
                assert(ast.value(all[i].matched_terms, true));
            }
        }
    }
    if let Some(c) = cache {
        all.lemma_filter_len(unseen(c));
    }
    let k = kept(left, limits_of(options));
    crate::limits::lemma_limits_monotone(left, limits_of(options), limits_of(options));
    let taken = left.take(k);
    assert(all_satisfy(taken, ast)) by {
        assert forall|i: int| 0 <= i < taken.len() implies ast.value(
            (#[trigger] taken[i]).matched_terms,
            true,
        ) by {
            assert(taken[i] == left[i]);
        }
    }
    let threshold = match options.merge_threshold {
        Some(t) => t,
        None => DEFAULT_MERGE_THRESHOLD,
    };
    if taken.len() > 0 && !options.no_merge {
        let out = merged(taken, sources, threshold);
        assert forall|j: int| 0 <= j < out.len() implies ast.value(
            (#[trigger] out[j]).matched_terms,
            true,
        ) by {
            crate::merge::lemma_merged_blocks_satisfy(taken, sources, threshold, ast, j);
        }
    }
}

/// The blocks that the cache and the limits let through to the merger.
pub open spec fn taken(all: Seq<ResultView>, options: SearchOptions, cache: Option<Seq<RangeView>>) -> Seq<
    ResultView,
> {
    let left = match cache {
        Some(c) => all.filter(unseen(c)),
        None => all,
    };
    left.take(kept(left, limits_of(options)))
}

proof fn lemma_taken(all: Seq<ResultView>, options: SearchOptions, cache: Option<Seq<RangeView>>)
    ensures
        taken(all, options, cache).len() <= all.len(),
        forall|i: int|
            0 <= i < taken(all, options, cache).len() ==> all.contains(
                #[trigger] taken(all, options, cache)[i],
            ),
{
    let left = match cache {
        Some(c) => all.filter(unseen(c)),
        None => all,
    };
    if let Some(c) = cache {
        all.lemma_filter_len(unseen(c));
    }
    crate::limits::lemma_limits_monotone(left, limits_of(options), limits_of(options));
    let t = taken(all, options, cache);
    assert forall|i: int| 0 <= i < t.len() implies all.contains(#[trigger] t[i]) by {
        assert(t[i] == left[i]);
        if let Some(c) = cache {
            assert(left.contains(left[i]));
            all.lemma_filter_contains_rev(unseen(c), left[i]);
        } else {
            assert(all[i] == t[i]);
        }
    }
}

/// Every block that reaches the merger lies within a block that is
/// returned, and within one only.
pub proof fn lemma_taken_blocks_are_returned(
    all: Seq<ResultView>,
    options: SearchOptions,
    cache: Option<Seq<RangeView>>,
    early_skipped: usize,
    sources: Seq<SourceFile>,
    merge: bool,
    i: int,
)
    requires
        all.len() <= usize::MAX,
        forall|k: int| 0 <= k < all.len() ==> (#[trigger] all[k]).lines.0 <= all[k].lines.1,
        0 <= i < taken(all, options, cache).len(),
    ensures
        crate::merge::covered_by(
            taken(all, options, cache)[i],
            settled(all, options, cache, early_skipped, sources, merge).results,
        ),
        merge ==> forall|x: int, y: int|
            #![trigger settled(all, options, cache, early_skipped, sources, merge).results[x], settled(all, options, cache, early_skipped, sources, merge).results[y]]
            0 <= x < settled(all, options, cache, early_skipped, sources, merge).results.len() && 0
                <= y < settled(all, options, cache, early_skipped, sources, merge).results.len()
                && crate::merge::lies_within(
                taken(all, options, cache)[i],
                settled(all, options, cache, early_skipped, sources, merge).results[x],
            ) && crate::merge::lies_within(
                taken(all, options, cache)[i],
                settled(all, options, cache, early_skipped, sources, merge).results[y],
            ) ==> x == y,
{
    lemma_taken(all, options, cache);
    let t = taken(all, options, cache);
    let results = settled(all, options, cache, early_skipped, sources, merge).results;
    let threshold = match options.merge_threshold {
        Some(t) => t,
        None => DEFAULT_MERGE_THRESHOLD,
    };
    assert forall|k: int| 0 <= k < t.len() implies (#[trigger] t[k]).lines.0 <= t[k].lines.1 by {
        assert(all.contains(t[k]));
        let a = choose|a: int| 0 <= a < all.len() && all[a] == t[k];
    }
    if merge {
        crate::merge::lemma_every_block_is_merged(t, sources, threshold, i);
        assert forall|x: int, y: int|
            0 <= x < results.len() && 0 <= y < results.len() && crate::merge::lies_within(
                t[i],
                results[x],
            ) && crate::merge::lies_within(t[i], results[y]) implies x == y by {
            crate::merge::lemma_merged_in_one(t, sources, threshold, t[i], x, y);
        }
    } else {
        assert(crate::merge::lies_within(t[i], results[i]));
    }
}

/// Where the code of every candidate is the text of its lines in the file
/// at hand, the same holds of every block that is returned, merged or not.
pub proof fn lemma_results_are_file_text(
    all: Seq<ResultView>,
    options: SearchOptions,
    cache: Option<Seq<RangeView>>,
    early_skipped: usize,
    sources: Seq<SourceFile>,
    merge: bool,
    j: int,
)
    requires
        all.len() <= usize::MAX,
        forall|k: int| 0 <= k < all.len() ==> code_is_slice(#[trigger] all[k], sources),
        0 <= j < settled(all, options, cache, early_skipped, sources, merge).results.len(),
    ensures
        code_is_slice(
            settled(all, options, cache, early_skipped, sources, merge).results[j],
            sources,
        ),
{
    lemma_taken(all, options, cache);
    let t = taken(all, options, cache);
    let threshold = match options.merge_threshold {
        Some(t) => t,
        None => DEFAULT_MERGE_THRESHOLD,
    };
    assert forall|k: int| 0 <= k < t.len() implies code_is_slice(#[trigger] t[k], sources) by {
        assert(all.contains(t[k]));
        let a = choose|a: int| 0 <= a < all.len() && all[a] == t[k];
    }
    if t.len() > 0 && merge {
        crate::merge::lemma_merged_code_is_slice(t, sources, threshold, j);
    }
}

/// Ranking leaves the lines, the file and the code of every block as they
/// are: what holds of these for all candidates holds for all ranked blocks.
pub proof fn lemma_ranked_are_file_text(
    candidates: Seq<ResultView>,
    scores: Seq<Scores>,
    terms: nat,
    options: SearchOptions,
    sources: Seq<SourceFile>,
)
    requires
        candidates.len() <= usize::MAX,
        forall|k: int| 0 <= k < candidates.len() ==> code_is_slice(#[trigger] candidates[k], sources),
    ensures
        ranked(candidates, scores, options.reranker, terms).len() == candidates.len(),
        forall|k: int|
            0 <= k < candidates.len() ==> code_is_slice(
                #[trigger] ranked(candidates, scores, options.reranker, terms)[k],
                sources,
            ),
{
    let all = ranked(candidates, scores, options.reranker, terms);
    assert forall|k: int| 0 <= k < candidates.len() implies code_is_slice(
        #[trigger] all[k],
        sources,
    ) by {
        crate::ranking::lemma_ranked_keeps_blocks(candidates, scores, options.reranker, terms, k);
    }
}

} // verus!
