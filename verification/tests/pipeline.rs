use probe::blocks::Region;
use probe::cache::SessionCache;
use probe::models::{LimitedSearchResults, SearchResult};
use probe::plan::QueryPlan;
use probe::ranking::{
    document_frequency, term_frequency, tokenize_content, Reranker, Scores,
};
use probe::hits::{FileHits, HitMap, TermLines};
use probe::plan::create_query_plan;
use probe::runner::{
    extract_candidates, finish_probe, perform_probe, select_files, FileRegions, Probe,
    SearchOptions,
};
use probe::scan::SourceFile;

fn options(query: &str) -> SearchOptions {
    SearchOptions {
        path: ".".to_string(),
        queries: vec![query.to_string()],
        files_only: false,
        custom_ignores: Vec::new(),
        exclude_filenames: false,
        reranker: Reranker::Hybrid,
        frequency_search: true,
        max_results: None,
        max_bytes: None,
        max_tokens: None,
        allow_tests: false,
        exact: false,
        no_merge: false,
        merge_threshold: None,
        dry_run: false,
        session: None,
    }
}

fn file(path: &str, content: &str) -> SourceFile {
    SourceFile { path: path.to_string(), content: content.to_string() }
}

fn regions(path: &str, spans: &[(usize, usize, &str)]) -> FileRegions {
    FileRegions {
        path: path.to_string(),
        regions: spans
            .iter()
            .map(|(s, e, k)| Region { start: *s, end: *e, kind: k.to_string() })
            .collect(),
    }
}

fn numbered(lines: usize, special: &[(usize, &str)]) -> String {
    let mut out = String::new();
    for n in 1..=lines {
        let text = special.iter().find(|(l, _)| *l == n).map(|(_, t)| *t).unwrap_or("filler");
        out.push_str(text);
        out.push('\n');
    }
    out
}

fn key(score: f64) -> u64 {
    (score * 1_000_000.0).round() as u64
}

fn score(blocks: &Vec<SearchResult>, plan: &QueryPlan) -> Vec<Scores> {
    let docs: Vec<Vec<String>> =
        blocks.iter().map(|b| tokenize_content(&b.code, plan.exact)).collect();
    let n = docs.len() as f64;
    let avg = docs.iter().map(|d| d.len() as f64).sum::<f64>() / n.max(1.0);
    docs.iter()
        .map(|d| {
            let mut tfidf = 0.0;
            let mut bm25 = 0.0;
            for t in &plan.terms {
                let tf = term_frequency(d, &t.stem) as f64;
                let df = document_frequency(&docs, &t.stem) as f64;
                if tf > 0.0 {
                    tfidf += (1.0 + tf.ln()) * ((n + 1.0) / (df + 1.0)).ln();
                    let idf = ((n - df + 0.5) / (df + 0.5) + 1.0).ln();
                    let len = d.len() as f64;
                    bm25 += idf * tf * 2.2 / (tf + 1.2 * (0.25 + 0.75 * len / avg));
                }
            }
            Scores { tfidf: key(tfidf), bm25: key(bm25) }
        })
        .collect()
}

fn run(
    options: &SearchOptions,
    files: &Vec<SourceFile>,
    structure: &Vec<FileRegions>,
    cache: Option<SessionCache>,
) -> (LimitedSearchResults, Option<SessionCache>) {
    match perform_probe(options, files, cache).ok().unwrap() {
        (Probe::Done(limited), cache) => (limited, cache),
        (Probe::Candidates(selection), cache) => {
            let blocks = extract_candidates(&selection, files, structure);
            let scores = score(&blocks, &selection.plan);
            let terms = selection.plan.terms.len();
            finish_probe(&blocks, &scores, terms, options, cache, selection.skipped, files)
        }
    }
}

#[test]
fn basic_and_returns_the_enclosing_block() {
    let files = vec![
        file("a.rs", &numbered(14, &[(10, "foo bar")])),
        file("b.rs", &numbered(5, &[(2, "foo")])),
    ];
    let structure = vec![regions("a.rs", &[(1, 14, "module"), (8, 12, "function")])];
    let (out, _) = run(&options("foo AND bar"), &files, &structure, None);
    assert_eq!(out.results.len(), 1);
    let r = &out.results[0];
    assert_eq!(r.file, "a.rs");
    assert_eq!(r.lines, (8, 12));
    assert_eq!(r.node_type, "function");
    assert_eq!(r.code, "filler\nfiller\nfoo bar\nfiller\nfiller");
    assert_eq!(r.matched_terms, vec![0, 1]);
    let stats = r.stats.unwrap();
    assert_eq!(stats.block_unique_terms, 2);
    assert_eq!(stats.block_total_matches, 2);
    assert_eq!(stats.file_unique_terms, 2);
    assert_eq!(stats.file_total_matches, 2);
    assert_eq!(stats.file_match_rank, 1);
    assert_eq!(r.ranking.unwrap().rank, 1);
    assert!(out.skipped_files.is_empty());
    assert_eq!(out.cached_blocks_skipped, None);
}

#[test]
fn or_query_ranks_the_richer_file_first_under_bm25() {
    let files = vec![
        file("b.rs", "miss\n"),
        file("a.rs", "cache\ncache\ncache\ncache\ncache\n"),
    ];
    let structure = vec![regions("a.rs", &[(1, 5, "function")])];
    let mut opts = options("cache OR miss");
    opts.reranker = Reranker::Bm25;
    let (out, _) = run(&opts, &files, &structure, None);
    assert_eq!(out.results.len(), 2);
    assert_eq!(out.results[0].file, "a.rs");
    assert_eq!(out.results[0].ranking.unwrap().rank, 1);
    assert_eq!(out.results[0].ranking.unwrap().bm25_rank, 1);
    assert_eq!(out.results[1].file, "b.rs");
    assert_eq!(out.results[1].ranking.unwrap().rank, 2);
    assert_eq!(out.results[0].stats.unwrap().file_match_rank, 1);
    assert_eq!(out.results[1].stats.unwrap().file_match_rank, 2);
}

#[test]
fn exact_mode_matches_whole_words_only() {
    let files = vec![file("net.rs", "Connecting now\nplain\nplain\nplain\nplain\nplain\nplain\nConnection lost\n")];
    let mut exact = options("Connect");
    exact.exact = true;
    let (out, _) = run(&exact, &files, &vec![], None);
    assert!(out.results.is_empty());
    let (out, _) = run(&options("Connect"), &files, &vec![], None);
    let lines: Vec<(usize, usize)> = out.results.iter().map(|r| r.lines).collect();
    assert_eq!(lines.len(), 2);
    assert!(lines.contains(&(1, 1)));
    assert!(lines.contains(&(8, 8)));
}

#[test]
fn a_file_is_selected_by_its_name() {
    let files = vec![file("src/config.rs", "one\ntwo\nthree\n"), file("src/other.rs", "one\n")];
    let (out, _) = run(&options("config"), &files, &vec![], None);
    assert_eq!(out.results.len(), 1);
    let r = &out.results[0];
    assert_eq!(r.file, "src/config.rs");
    assert!(r.matched_by_filename);
    assert_eq!(r.lines, (1, 3));
    assert_eq!(r.node_type, "file");
    assert_eq!(r.code, "one\ntwo\nthree");
    let mut opts = options("config");
    opts.exclude_filenames = true;
    let (out, _) = run(&opts, &files, &vec![], None);
    assert!(out.results.is_empty());
}

#[test]
fn a_directory_name_selects_no_file() {
    let files = vec![file("config/main.rs", "one\n")];
    let (out, _) = run(&options("config"), &files, &vec![], None);
    assert!(out.results.is_empty());
}

#[test]
fn second_search_of_a_session_returns_nothing() {
    let files = vec![file("a.rs", &numbered(25, &[(3, "foo"), (20, "foo")]))];
    let structure = vec![regions("a.rs", &[(1, 5, "function"), (18, 22, "function")])];
    let cache = Some(SessionCache::new("S".to_string()));
    let (first, cache) = run(&options("foo"), &files, &structure, cache);
    let lines: Vec<(usize, usize)> = first.results.iter().map(|r| r.lines).collect();
    assert_eq!(lines.len(), 2);
    assert!(lines.contains(&(1, 5)) && lines.contains(&(18, 22)));
    assert_eq!(first.cached_blocks_skipped, None);
    let held = cache.as_ref().unwrap().entries.len();
    assert_eq!(held, 2);
    let (second, cache) = run(&options("foo"), &files, &structure, cache);
    assert!(second.results.is_empty());
    assert_eq!(second.cached_blocks_skipped, Some(2));
    assert_eq!(cache.unwrap().entries.len(), 2);
}

#[test]
fn blocks_merge_up_to_the_threshold() {
    let files = vec![file("a.rs", &numbered(30, &[(12, "foo"), (20, "foo")]))];
    let structure = vec![regions("a.rs", &[(10, 14, "function"), (18, 22, "function")])];
    let (out, _) = run(&options("foo"), &files, &structure, None);
    assert_eq!(out.results.len(), 1);
    assert_eq!(out.results[0].lines, (10, 22));
    let expected: Vec<&str> = (10..=22)
        .map(|n| if n == 12 || n == 20 { "foo" } else { "filler" })
        .collect();
    assert_eq!(out.results[0].code, expected.join("\n"));
    assert_eq!(out.results[0].stats.unwrap().block_total_matches, 2);
    assert_eq!(out.results[0].ranking.unwrap().rank, 1);

    let mut tight = options("foo");
    tight.merge_threshold = Some(2);
    let (out, _) = run(&tight, &files, &structure, None);
    let mut lines: Vec<(usize, usize)> = out.results.iter().map(|r| r.lines).collect();
    lines.sort();
    assert_eq!(lines, vec![(10, 14), (18, 22)]);

    let mut exact_gap = options("foo");
    exact_gap.merge_threshold = Some(3);
    let (out, _) = run(&exact_gap, &files, &structure, None);
    assert_eq!(out.results.len(), 1);

    let mut off = options("foo");
    off.no_merge = true;
    let (out, _) = run(&off, &files, &structure, None);
    assert_eq!(out.results.len(), 2);
}

#[test]
fn an_unparsable_query_ends_the_search_without_results() {
    let files = vec![file("a.rs", "foo\n")];
    let (out, _) = run(&options("(foo"), &files, &vec![], None);
    assert!(out.results.is_empty());
    assert!(out.skipped_files.is_empty());
    assert_eq!(out.limits_applied, None);
}

#[test]
fn several_queries_are_joined_by_and() {
    let files = vec![file("a.rs", "foo bar\n"), file("b.rs", "foo\n")];
    let mut opts = options("foo");
    opts.queries = vec!["foo".to_string(), "bar".to_string()];
    let (out, _) = run(&opts, &files, &vec![], None);
    assert_eq!(out.results.len(), 1);
    assert_eq!(out.results[0].file, "a.rs");
}

#[test]
fn files_only_lists_each_file_once_without_code() {
    let files = vec![file("a.rs", "foo\nfoo\n"), file("b.rs", "nothing\n"), file("c.rs", "foo\n")];
    let mut opts = options("foo");
    opts.files_only = true;
    opts.max_results = Some(1);
    let (out, _) = run(&opts, &files, &vec![], None);
    assert_eq!(out.results.len(), 1);
    assert_eq!(out.results[0].file, "a.rs");
    assert_eq!(out.results[0].lines, (1, 1));
    assert_eq!(out.results[0].node_type, "file");
    assert_eq!(out.results[0].code, "");
    assert_eq!(out.skipped_files.len(), 1);
    assert_eq!(out.skipped_files[0].file, "c.rs");
    assert_eq!(out.limits_applied.unwrap().max_results, Some(1));
}

#[test]
fn an_excluded_term_in_every_file_leaves_nothing() {
    let files = vec![file("a.rs", "foo common\n"), file("b.rs", "foo\ncommon\n")];
    let (with, _) = run(&options("foo"), &files, &vec![], None);
    assert!(!with.results.is_empty());
    let (without, _) = run(&options("foo NOT common"), &files, &vec![], None);
    assert!(without.results.is_empty());
}

#[test]
fn the_same_search_gives_the_same_results() {
    let files = vec![
        file("a.rs", &numbered(30, &[(3, "alpha beta"), (9, "beta"), (25, "alpha")])),
        file("b.rs", &numbered(8, &[(2, "beta alpha")])),
    ];
    let structure = vec![regions("a.rs", &[(1, 5, "function"), (20, 28, "class")])];
    let show = |l: &LimitedSearchResults| -> Vec<String> {
        l.results.iter().map(|r| format!("{:?}", r)).collect()
    };
    let (one, _) = run(&options("alpha OR beta"), &files, &structure, None);
    let (two, _) = run(&options("alpha OR beta"), &files, &structure, None);
    assert!(!one.results.is_empty());
    assert_eq!(show(&one), show(&two));
}

#[test]
fn tighter_limits_return_a_beginning_of_the_looser_results() {
    let files = vec![file("a.rs", &numbered(60, &[(3, "foo"), (20, "foo foo"), (40, "foo"), (58, "foo")]))];
    let mut loose = options("foo");
    loose.no_merge = true;
    loose.max_results = Some(3);
    let (wide, _) = run(&loose, &files, &vec![], None);
    let mut tight = options("foo");
    tight.no_merge = true;
    tight.max_results = Some(2);
    tight.max_bytes = Some(10);
    let (narrow, _) = run(&tight, &files, &vec![], None);
    assert_eq!(wide.results.len(), 3);
    assert!(narrow.results.len() <= wide.results.len());
    for (a, b) in narrow.results.iter().zip(wide.results.iter()) {
        assert_eq!((a.file.clone(), a.lines), (b.file.clone(), b.lines));
    }
}

#[test]
fn selection_works_on_a_given_scan() {
    let files = vec![file("src/alpha.rs", "x\ny\n"), file("src/b.rs", "x\n"), file("c.rs", "x\n")];
    let scanned = || {
        let mut both = TermLines::new();
        both.record(0, 1);
        both.record(1, 2);
        let mut one = TermLines::new();
        one.record(1, 1);
        HitMap {
            files: vec![
                FileHits { file: "src/b.rs".into(), hits: one, by_filename: false },
                FileHits { file: "c.rs".into(), hits: both, by_filename: false },
            ],
        }
    };
    let plan = || create_query_plan("alpha beta", false).unwrap();
    let names = |map: &HitMap| -> Vec<(String, bool, usize)> {
        map.files.iter().map(|f| (f.file.clone(), f.by_filename, f.hits.pairs.len())).collect()
    };
    // `alpha AND beta` holds of c.rs only: alpha.rs is named for one term, b.rs has the other
    match select_files(&options("alpha beta"), plan(), scanned(), &files, None) {
        (Probe::Candidates(s), cache) => {
            assert_eq!(names(&s.map), vec![("c.rs".to_string(), false, 2)]);
            assert_eq!(s.skipped, 0);
            assert!(cache.is_none());
        }
        (Probe::Done(_), _) => panic!("blocks were asked for"),
    }
    let any = || create_query_plan("alpha OR beta", false).unwrap();
    let mut cache = SessionCache::new("s".to_string());
    cache.add_results(&vec![SearchResult {
        file: "src/alpha.rs".into(),
        lines: (2, 9),
        node_type: "function".into(),
        code: String::new(),
        matched_by_filename: false,
        matched_terms: vec![],
        stats: None,
        ranking: None,
        parent_file_id: 0,
        block_id: 0,
    }]);
    match select_files(&options("alpha OR beta"), any(), scanned(), &files, Some(cache)) {
        (Probe::Candidates(s), cache) => {
            assert_eq!(cache.unwrap().entries.len(), 1);
            assert_eq!(
                names(&s.map),
                vec![
                    ("src/b.rs".to_string(), false, 1),
                    ("c.rs".to_string(), false, 2),
                    ("src/alpha.rs".to_string(), true, 1),
                ]
            );
            assert_eq!(s.skipped, 1);
        }
        (Probe::Done(_), _) => panic!("blocks were asked for"),
    }
    let mut only = options("alpha OR beta");
    only.files_only = true;
    only.exclude_filenames = true;
    match select_files(&only, any(), scanned(), &files, None) {
        (Probe::Done(l), _) => {
            let found: Vec<&str> = l.results.iter().map(|r| r.file.as_str()).collect();
            assert_eq!(found, vec!["src/b.rs", "c.rs"]);
            assert_eq!(l.results[1].parent_file_id, 1);
        }
        (Probe::Candidates(_), _) => panic!("files were asked for"),
    }
}

#[test]
fn every_block_satisfies_the_query() {
    let files = vec![
        file("a.rs", &numbered(40, &[(3, "red"), (4, "green"), (20, "red blue"), (35, "blue")])),
        file("b.rs", &numbered(9, &[(2, "green blue"), (7, "red")])),
    ];
    let structure = vec![regions("a.rs", &[(1, 6, "function"), (18, 22, "function")])];
    let mut opts = options("red AND NOT blue");
    opts.no_merge = true;
    let plan = create_query_plan("red AND NOT blue", false).unwrap();
    let (out, _) = run(&opts, &files, &structure, None);
    assert!(out.results.is_empty(), "both files hold the excluded term");
    let mut opts = options("red OR green");
    opts.no_merge = true;
    let plan_any = create_query_plan("red OR green", false).unwrap();
    let (out, _) = run(&opts, &files, &structure, None);
    let found: Vec<(String, (usize, usize))> =
        out.results.iter().map(|r| (r.file.clone(), r.lines)).collect();
    assert_eq!(found.len(), 4);
    for r in &out.results {
        assert!(plan_any.ast.evaluate(&r.matched_terms, true));
        assert!(!r.matched_terms.is_empty());
    }
    assert!(!plan.ast.evaluate(&vec![0, 1], true));
}

#[test]
fn a_search_without_a_query_returns_nothing() {
    let files = vec![file("a.rs", "foo\n")];
    let mut opts = options("foo");
    opts.queries = vec![];
    let (out, _) = run(&opts, &files, &vec![], None);
    assert!(out.results.is_empty());
    opts.queries = vec!["the".to_string(), "and".to_string()];
    let (out, _) = run(&opts, &files, &vec![], None);
    assert!(out.results.is_empty());
}

#[test]
fn line_numbers_count_lines_with_any_line_ending() {
    let files = vec![file("a.txt", "one\r\ntwo\r\n\r\nneedle\r\nfive")];
    let mut opts = options("needle");
    opts.no_merge = true;
    let (out, _) = run(&opts, &files, &vec![], None);
    assert_eq!(out.results.len(), 1);
    assert_eq!(out.results[0].lines, (4, 4));
    assert_eq!(out.results[0].code, "needle");
}

#[test]
fn a_quoted_phrase_is_matched_as_it_stands() {
    let files = vec![
        file("a.rs", "open the files\n"),
        file("b.rs", "open files now\nthe Open  Files dialog\n"),
    ];
    let mut opts = options("\"open files\"");
    opts.no_merge = true;
    let (out, _) = run(&opts, &files, &vec![], None);
    let found: Vec<(String, usize)> = out.results.iter().map(|r| (r.file.clone(), r.lines.0)).collect();
    assert_eq!(found, vec![("b.rs".to_string(), 1)]);
}

#[test]
fn limits_apply_before_blocks_merge() {
    let files = vec![file("a.rs", &numbered(30, &[(10, "foo foo"), (12, "foo"), (14, "foo")]))];
    let mut opts = options("foo");
    opts.reranker = Reranker::Bm25;
    opts.max_results = Some(2);
    let (out, _) = run(&opts, &files, &vec![], None);
    assert_eq!(out.skipped_files.len(), 1);
    assert_eq!(out.results.len(), 1);
    let merged = &out.results[0];
    assert!(merged.lines.1 - merged.lines.0 >= 2);
    assert_eq!(out.limits_applied.unwrap().max_results, Some(2));
}

#[test]
fn the_count_held_back_is_of_blocks_not_of_hits() {
    // two blocks that hold three hits
    let files = vec![file("a.rs", &numbered(25, &[(3, "foo"), (4, "foo"), (20, "foo")]))];
    let structure = vec![regions("a.rs", &[(1, 5, "function"), (18, 22, "function")])];
    let cache = Some(SessionCache::new("S".to_string()));
    let (first, cache) = run(&options("foo"), &files, &structure, cache);
    assert_eq!(first.results.len(), 2);
    assert_eq!(first.cached_blocks_skipped, None);
    let (second, cache) = run(&options("foo"), &files, &structure, cache);
    assert!(second.results.is_empty());
    assert_eq!(second.cached_blocks_skipped, Some(2));
    assert_eq!(cache.unwrap().session_id, "S");
}

#[test]
fn a_search_for_files_only_is_not_repeated_within_a_session() {
    let files = vec![file("a.rs", "foo\n"), file("b.rs", "bar\n"), file("c.rs", "x\nfoo\n")];
    let mut opts = options("foo");
    opts.files_only = true;
    let cache = Some(SessionCache::new("S".to_string()));
    let (first, cache) = run(&opts, &files, &vec![], cache);
    let found: Vec<&str> = first.results.iter().map(|r| r.file.as_str()).collect();
    assert_eq!(found, vec!["a.rs", "c.rs"]);
    assert_eq!(first.cached_blocks_skipped, None);
    assert_eq!(cache.as_ref().unwrap().entries.len(), 2);
    let (second, cache) = run(&opts, &files, &vec![], cache);
    assert!(second.results.is_empty());
    assert_eq!(second.cached_blocks_skipped, Some(2));
    assert_eq!(cache.as_ref().unwrap().entries.len(), 2);
    // without a session the files come again
    let (again, _) = run(&opts, &files, &vec![], None);
    assert_eq!(again.results.len(), 2);
}

#[test]
fn a_query_cannot_bring_a_pattern_of_its_own() {
    // the planner escapes its keys: the braces are searched for as they stand
    let files = vec![file("a.rs", "x = a{2,1}\n"), file("b.rs", "aa\n")];
    let mut opts = options("\"a{2,1}\"");
    opts.no_merge = true;
    let (out, _) = run(&opts, &files, &vec![], None);
    let found: Vec<&str> = out.results.iter().map(|r| r.file.as_str()).collect();
    assert_eq!(found, vec!["a.rs"]);
}

#[test]
fn a_file_selected_by_its_name_satisfies_the_query() {
    let files = vec![
        file("src/config_loader.rs", "one\ntwo\n"),
        file("src/config.rs", "three\nfour\n"),
    ];
    let plan = create_query_plan("config AND loader", false).unwrap();
    let (out, _) = run(&options("config AND loader"), &files, &vec![], None);
    assert_eq!(out.results.len(), 1);
    let r = &out.results[0];
    assert_eq!(r.file, "src/config_loader.rs");
    assert!(r.matched_by_filename);
    assert_eq!(r.lines, (1, 2));
    assert_eq!(r.matched_terms, vec![0, 1]);
    assert!(plan.ast.evaluate(&r.matched_terms, true));
    let (out, _) = run(&options("config AND NOT loader"), &files, &vec![], None);
    let found: Vec<&str> = out.results.iter().map(|r| r.file.as_str()).collect();
    assert_eq!(found, vec!["src/config.rs"]);
    let plan = create_query_plan("config AND NOT loader", false).unwrap();
    assert!(plan.ast.evaluate(&out.results[0].matched_terms, true));
}

#[test]
fn a_merged_block_is_recorded_as_it_was_returned() {
    let files = vec![file("a.rs", &numbered(30, &[(12, "foo"), (20, "foo")]))];
    let structure = vec![regions("a.rs", &[(10, 14, "function"), (18, 22, "function")])];
    let cache = Some(SessionCache::new("S".to_string()));
    let (first, cache) = run(&options("foo"), &files, &structure, cache);
    assert_eq!(first.results.len(), 1);
    assert_eq!(first.results[0].lines, (10, 22));
    let held: Vec<(String, usize, usize)> = cache
        .as_ref()
        .unwrap()
        .entries
        .iter()
        .map(|e| (e.file.clone(), e.start, e.end))
        .collect();
    assert_eq!(held, vec![("a.rs".to_string(), 10, 22)]);
    let (second, cache) = run(&options("foo"), &files, &structure, cache);
    assert!(second.results.is_empty());
    assert_eq!(second.cached_blocks_skipped, Some(1));
    assert_eq!(cache.unwrap().entries.len(), 1);
}

#[test]
fn a_trailing_not_excludes_its_word_whatever_stands_before() {
    let files = vec![
        file("a.rs", "alpha gamma\nbeta\n"),
        file("b.rs", "beta\ngamma\n"),
        file("alpha.rs", "gamma\n"),
    ];
    for head in ["(alpha OR beta)", "alpha", "(alpha beta) OR beta", "-alpha OR (beta)"] {
        for reranker in [Reranker::Hybrid, Reranker::Bm25, Reranker::Tfidf] {
            for exclude_filenames in [false, true] {
                let mut opts = options(&format!("{} NOT gamma", head));
                opts.reranker = reranker;
                opts.exclude_filenames = exclude_filenames;
                opts.max_results = Some(1);
                let (out, _) = run(&opts, &files, &vec![], None);
                assert!(out.results.is_empty(), "{} NOT gamma", head);
            }
        }
    }
    let (out, _) = run(&options("(alpha OR beta) AND NOT gamma"), &files, &vec![], None);
    assert!(out.results.is_empty());
    let (out, _) = run(&options("(alpha OR beta) AND NOT delta"), &files, &vec![], None);
    assert!(!out.results.is_empty());
}
