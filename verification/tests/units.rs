use probe::ast::Expr;
use probe::blocks::{extract_blocks, smallest_enclosing, Region};
use probe::cache::{resolve_session, CachedRange, SessionCache, SessionChoice};
use probe::files::{
    binary_by_content, binary_by_name, get_file_list, ignore_rules, is_test_file, matches_ignore,
    ListedFile,
};
use probe::hits::{FileHits, HitMap, TermLines};
use probe::limits::{apply_limits, count_tokens};
use probe::merge::merge_ranked_blocks;
use probe::models::{LimitedSearchResults, MatchStats, Ranking, SearchLimits, SearchResult};
use probe::output::{
    advanced_options, format_and_print_search_results, search_report, strip_code, ReportLine,
};
use probe::ranking::{
    assign_file_ranks, comes_before, order_by_key, parse_reranker, rank_search_results,
    term_frequency, tokenize_content, Reranker, Scores, SortKey,
};
use probe::runner::SearchOptions;
use probe::scan::SourceFile;
use probe::selection::{filename_terms, filter_by_query, include_file};
use probe::store::{decode_entries, encode_entries};
use probe::terms::{key_of, stem_of};
use probe::text::{chars_of, contains_chars, push_decimal, string_of};
use probe::timing::{format_duration, print_timings, SearchTimings};
use std::time::Duration;

fn block(file: &str, lines: (usize, usize), code: &str) -> SearchResult {
    SearchResult {
        file: file.to_string(),
        lines,
        node_type: "function".to_string(),
        code: code.to_string(),
        matched_by_filename: false,
        matched_terms: vec![0],
        stats: Some(MatchStats {
            file_unique_terms: 1,
            file_total_matches: 1,
            file_match_rank: 0,
            block_unique_terms: 1,
            block_total_matches: 1,
        }),
        ranking: None,
        parent_file_id: 0,
        block_id: 0,
    }
}

fn hits(pairs: &[(usize, usize)]) -> TermLines {
    let mut out = TermLines::new();
    for (t, l) in pairs {
        out.record(*t, *l);
    }
    out
}

fn stem(word: &str) -> String {
    string_of(&stem_of(&chars_of(word)))
}

#[test]
fn durations_below_a_second_are_whole_milliseconds() {
    assert_eq!(format_duration(Duration::from_micros(432_999)), "432ms");
    assert_eq!(format_duration(Duration::from_millis(0)), "0ms");
    assert_eq!(format_duration(Duration::from_millis(999)), "999ms");
    assert_eq!(format_duration(Duration::from_millis(1000)), "1.00s");
    assert_eq!(format_duration(Duration::from_millis(12_345)), "12.35s");
}

#[test]
fn timing_report_lists_the_stages_that_ran() {
    let timings = SearchTimings {
        query_preprocessing: Some(Duration::from_millis(3)),
        pattern_generation: None,
        file_searching: Some(Duration::from_millis(2500)),
        filename_matching: None,
        early_filtering: None,
        early_caching: None,
        result_processing: None,
        result_ranking: None,
        limit_application: None,
        block_merging: None,
        final_caching: None,
        total_search_time: Some(Duration::from_millis(2504)),
    };
    assert_eq!(
        print_timings(&timings, true),
        vec![
            "\n=== SEARCH TIMING INFORMATION ===",
            "Query preprocessing:   3ms",
            "File searching:        2.50s",
            "Total search time:     2.50s",
            "===================================\n",
        ]
    );
    assert!(print_timings(&timings, false).is_empty());
}

#[test]
fn decimal_numerals_have_no_padding() {
    for n in [0u128, 7, 10, 909, 1_000_000, u128::MAX] {
        let mut s = String::from("n=");
        push_decimal(&mut s, n);
        assert_eq!(s, format!("n={}", n));
    }
}

#[test]
fn substring_search_finds_every_position() {
    let hay = chars_of("abcabd");
    assert!(contains_chars(&hay, &chars_of("abd")));
    assert!(contains_chars(&hay, &chars_of("")));
    assert!(contains_chars(&hay, &chars_of("abcabd")));
    assert!(!contains_chars(&hay, &chars_of("abdc")));
    assert!(!contains_chars(&chars_of(""), &chars_of("a")));
}

#[test]
fn stems_are_beginnings_of_their_words() {
    assert_eq!(stem("connections"), "connect");
    assert_eq!(stem("connecting"), "connect");
    assert_eq!(stem("connection"), "connect");
    assert_eq!(stem("connect"), "connect");
    assert_eq!(stem("caches"), "cach");
    assert_eq!(stem("cache"), "cach");
    assert_eq!(stem("miss"), "miss");
    assert_eq!(stem("classes"), "class");
    assert_eq!(stem("as"), "as");
    assert_eq!(stem("user"), "user");
    for w in ["tokenization", "ranking", "bus", "a", "", "xyzzy", "queries"] {
        assert!(w.starts_with(&stem(w)), "{}", w);
        assert_eq!(stem(w).is_empty(), w.is_empty());
    }
}

#[test]
fn keys_follow_the_mode() {
    let key = |t: &str, quoted: bool, exact: bool| {
        key_of(&chars_of(t), quoted, exact).map(|k| string_of(&k))
    };
    assert_eq!(key("Parse-Tree!", false, false), Some("parsetre".to_string()));
    assert_eq!(key("Parse-Tree!", false, true), Some("Parse-Tree!".to_string()));
    assert_eq!(key("Parse Tree", true, false), Some("parse tree".to_string()));
    assert_eq!(key("The", false, false), None);
    assert_eq!(key("The", true, false), Some("the".to_string()));
    assert_eq!(key("!!!", false, false), None);
    assert_eq!(key("Größe?", false, false), Some("größ".to_string()));
    assert_eq!(key("", true, true), None);
}

#[test]
fn recorded_hits_are_a_sorted_set() {
    let h = hits(&[(2, 9), (0, 4), (2, 1), (0, 4), (1, 7)]);
    assert_eq!(h.pairs, vec![(0, 4), (1, 7), (2, 1), (2, 9)]);
    assert_eq!(h.terms(), vec![0, 1, 2]);
    assert_eq!(h.lines(), vec![1, 4, 7, 9]);
    assert!(h.contains(2, 9));
    assert!(!h.contains(1, 9));
    assert_eq!(h.len(), 4);
    assert!(!h.is_empty());
}

#[test]
fn query_filter_keeps_the_files_that_satisfy_the_expression() {
    let map = HitMap {
        files: vec![
            FileHits { file: "a".into(), hits: hits(&[(0, 1), (1, 2)]), by_filename: false },
            FileHits { file: "b".into(), hits: hits(&[(0, 1)]), by_filename: false },
            FileHits { file: "c".into(), hits: hits(&[(0, 1), (1, 1), (2, 5)]), by_filename: false },
        ],
    };
    let both = Expr::And(
        Box::new(Expr::Term { index: 0, excluded: false }),
        Box::new(Expr::And(
            Box::new(Expr::Term { index: 1, excluded: false }),
            Box::new(Expr::Term { index: 2, excluded: true }),
        )),
    );
    let kept = filter_by_query(map, &both);
    let names: Vec<&str> = kept.files.iter().map(|f| f.file.as_str()).collect();
    assert_eq!(names, vec!["a"]);
}

#[test]
fn a_file_selected_by_name_has_every_line_for_its_terms() {
    let plan = probe::plan::create_query_plan("config parser", false).unwrap();
    assert_eq!(filename_terms("src/Config_Parser.rs", &plan), vec![0, 1]);
    assert_eq!(filename_terms("config/other.rs", &plan), Vec::<usize>::new());
    assert_eq!(filename_terms("dir\\pars.txt", &plan), vec![1]);
    let mut map = HitMap {
        files: vec![FileHits { file: "x.rs".into(), hits: hits(&[(1, 2)]), by_filename: false }],
    };
    include_file(&mut map, &"x.rs".to_string(), &vec![0], 3);
    include_file(&mut map, &"y.rs".to_string(), &vec![1], 2);
    include_file(&mut map, &"z.rs".to_string(), &vec![1], 0);
    include_file(&mut map, &"w.rs".to_string(), &vec![], 5);
    assert_eq!(map.files.len(), 2);
    assert_eq!(map.files[0].hits.pairs, vec![(0, 1), (0, 2), (0, 3), (1, 2)]);
    assert!(!map.files[0].by_filename);
    assert_eq!(map.files[1].file, "y.rs");
    assert_eq!(map.files[1].hits.pairs, vec![(1, 1), (1, 2)]);
    assert!(map.files[1].by_filename);
}

#[test]
fn the_smallest_enclosing_region_wins() {
    let regions = vec![
        Region { start: 1, end: 50, kind: "class".into() },
        Region { start: 3, end: 10, kind: "function".into() },
        Region { start: 3, end: 10, kind: "twin".into() },
        Region { start: 5, end: 6, kind: "block".into() },
        Region { start: 40, end: 90, kind: "beyond".into() },
        Region { start: 0, end: 60, kind: "from zero".into() },
    ];
    assert_eq!(smallest_enclosing(&regions, 60, 5), Some(3));
    assert_eq!(smallest_enclosing(&regions, 60, 7), Some(1));
    assert_eq!(smallest_enclosing(&regions, 60, 20), Some(0));
    assert_eq!(smallest_enclosing(&regions, 60, 45), Some(0));
    assert_eq!(smallest_enclosing(&regions, 60, 55), None);
    assert_eq!(smallest_enclosing(&regions, 4, 3), None);
}

#[test]
fn blocks_carry_code_terms_and_statistics() {
    let content = "l1\nl2\nl3\nl4\nl5\nl6\nl7\nl8\n";
    let regions = vec![
        Region { start: 1, end: 8, kind: "class".into() },
        Region { start: 2, end: 4, kind: "function".into() },
    ];
    let h = hits(&[(0, 2), (0, 3), (1, 3), (1, 7), (0, 99)]);
    let any = Expr::Or(
        Box::new(Expr::Term { index: 0, excluded: false }),
        Box::new(Expr::Term { index: 1, excluded: false }),
    );
    let out = extract_blocks(&"f.rs".to_string(), content, &regions, &h, &any, false, 3);
    assert_eq!(out.len(), 2);
    assert_eq!(out[0].lines, (2, 4));
    assert_eq!(out[0].node_type, "function");
    assert_eq!(out[0].code, "l2\nl3\nl4");
    assert_eq!(out[0].matched_terms, vec![0, 1]);
    let s = out[0].stats.unwrap();
    assert_eq!((s.block_unique_terms, s.block_total_matches), (2, 3));
    assert_eq!((s.file_unique_terms, s.file_total_matches, s.file_match_rank), (2, 5, 0));
    assert_eq!(out[1].lines, (1, 8));
    assert_eq!(out[1].stats.unwrap().block_total_matches, 4);
    assert_eq!((out[0].parent_file_id, out[0].block_id), (3, 0));
    assert_eq!((out[1].parent_file_id, out[1].block_id), (3, 1));

    let only_second = Expr::And(
        Box::new(Expr::Term { index: 1, excluded: false }),
        Box::new(Expr::Term { index: 0, excluded: true }),
    );
    let out = extract_blocks(&"f.rs".to_string(), content, &vec![], &h, &only_second, false, 3);
    let lines: Vec<(usize, usize)> = out.iter().map(|r| r.lines).collect();
    assert_eq!(lines, vec![(7, 7)]);
    assert_eq!(out[0].node_type, "line");
    assert_eq!(out[0].code, "l7");

    let out = extract_blocks(&"f.rs".to_string(), content, &regions, &h, &only_second, true, 3);
    assert_eq!(out.len(), 1);
    assert_eq!(out[0].lines, (1, 8));
    assert_eq!(out[0].node_type, "file");
    assert!(out[0].matched_by_filename);
    assert!(extract_blocks(&"f.rs".to_string(), "", &regions, &h, &any, true, 3).is_empty());
}

#[test]
fn tokens_are_words_and_single_punctuation_marks() {
    assert_eq!(count_tokens(""), 0);
    assert_eq!(count_tokens("   \n\t"), 0);
    assert_eq!(count_tokens("fn main() {}"), 6);
    assert_eq!(count_tokens("a_b c1 + d"), 4);
    assert_eq!(count_tokens("x==y"), 4);
}

#[test]
fn limits_cut_at_the_first_block_that_does_not_fit() {
    let make = || {
        vec![
            block("a", (1, 1), "abcd"),
            block("b", (1, 1), "ab cd ef"),
            block("c", (1, 1), "x"),
            block("d", (1, 1), "y"),
        ]
    };
    let names = |v: &Vec<SearchResult>| v.iter().map(|r| r.file.clone()).collect::<Vec<_>>();
    let out = apply_limits(make(), None, None, None);
    assert_eq!(names(&out.results), vec!["a", "b", "c", "d"]);
    assert!(out.skipped_files.is_empty());
    assert_eq!(out.limits_applied, None);
    assert_eq!(out.cached_blocks_skipped, None);

    let out = apply_limits(make(), Some(3), None, None);
    assert_eq!(names(&out.results), vec!["a", "b", "c"]);
    assert_eq!(names(&out.skipped_files), vec!["d"]);
    assert_eq!(out.limits_applied.unwrap().max_results, Some(3));

    let out = apply_limits(make(), None, Some(11), None);
    assert_eq!(names(&out.results), vec!["a"]);
    assert_eq!(names(&out.skipped_files), vec!["b", "c", "d"]);
    let out = apply_limits(make(), None, Some(12), None);
    assert_eq!(names(&out.results), vec!["a", "b"]);
    let out = apply_limits(make(), None, None, Some(4));
    assert_eq!(names(&out.results), vec!["a", "b"]);
    let out = apply_limits(make(), None, None, Some(5));
    assert_eq!(names(&out.results), vec!["a", "b", "c"]);
    let out = apply_limits(make(), Some(0), None, None);
    assert!(out.results.is_empty());
    assert_eq!(out.skipped_files.len(), 4);
}

#[test]
fn the_cache_holds_back_what_it_has_seen() {
    let mut cache = SessionCache::new("s".to_string());
    cache.add_results(&vec![block("a", (10, 20), ""), block("b", (1, 1), "")]);
    cache.add_results(&vec![block("a", (10, 20), ""), block("a", (15, 30), "")]);
    let held: Vec<(String, usize, usize)> =
        cache.entries.iter().map(|e| (e.file.clone(), e.start, e.end)).collect();
    assert_eq!(
        held,
        vec![("a".to_string(), 10, 20), ("b".to_string(), 1, 1), ("a".to_string(), 15, 30)]
    );
    assert!(cache.covers_line(&"a".to_string(), 30));
    assert!(!cache.covers_line(&"a".to_string(), 31));
    assert!(!cache.covers_line(&"c".to_string(), 15));
    assert!(cache.overlaps_range(&"a".to_string(), 1, 10));
    assert!(!cache.overlaps_range(&"a".to_string(), 1, 9));
    assert!(cache.holds_range(&"b".to_string(), 1, 1));
    assert!(!cache.holds_range(&"a".to_string(), 10, 30));

    let (left, dropped) = cache.filter_results(vec![
        block("a", (1, 9), ""),
        block("a", (5, 10), ""),
        block("b", (1, 4), ""),
        block("c", (1, 100), ""),
        block("a", (31, 40), ""),
    ]);
    let kept: Vec<(String, (usize, usize))> =
        left.iter().map(|r| (r.file.clone(), r.lines)).collect();
    assert_eq!(
        kept,
        vec![("a".to_string(), (1, 9)), ("c".to_string(), (1, 100)), ("a".to_string(), (31, 40))]
    );
    assert_eq!(dropped, 2);

    let mut map = HitMap {
        files: vec![
            FileHits { file: "a".into(), hits: hits(&[(0, 9), (0, 10), (1, 30), (1, 31)]), by_filename: false },
            FileHits { file: "b".into(), hits: hits(&[(0, 1), (3, 1)]), by_filename: true },
            FileHits { file: "c".into(), hits: hits(&[(0, 15)]), by_filename: false },
        ],
    };
    let skipped = cache.filter_matched_lines(&mut map);
    assert_eq!(skipped, 4);
    assert_eq!(map.files.len(), 2);
    assert_eq!(map.files[0].hits.pairs, vec![(0, 9), (1, 31)]);
    assert_eq!(map.files[1].file, "c");
}

#[test]
fn the_session_comes_from_the_option_or_the_environment() {
    let show = |c: SessionChoice| match c {
        SessionChoice::Use(s) => format!("use {}", s),
        SessionChoice::Generate => "generate".to_string(),
        SessionChoice::Disabled => "disabled".to_string(),
    };
    let s = |t: &str| Some(t.to_string());
    assert_eq!(show(resolve_session(s("abc"), s("env"))), "use abc");
    assert_eq!(show(resolve_session(s(""), s("env"))), "use env");
    assert_eq!(show(resolve_session(s(""), s(""))), "generate");
    assert_eq!(show(resolve_session(s(""), None)), "generate");
    assert_eq!(show(resolve_session(None, s("env"))), "use env");
    assert_eq!(show(resolve_session(None, s(""))), "disabled");
    assert_eq!(show(resolve_session(None, None)), "disabled");
}

#[test]
fn the_text_form_of_a_cache_reads_back() {
    let mut cache = SessionCache::new("s".to_string());
    cache.entries.push(CachedRange { file: "/abs/a b.rs".into(), start: 1, end: 20 });
    cache.entries.push(CachedRange { file: "with\ttab".into(), start: 0, end: usize::MAX });
    let text = encode_entries(&cache);
    assert_eq!(text, format!("1\t20\t/abs/a b.rs\n0\t{}\twith\ttab\n", usize::MAX));
    let back: Vec<(String, usize, usize)> =
        decode_entries(&text).into_iter().map(|e| (e.file, e.start, e.end)).collect();
    assert_eq!(
        back,
        vec![("/abs/a b.rs".to_string(), 1, 20), ("with\ttab".to_string(), 0, usize::MAX)]
    );
    let damaged = "3\t4\tok\nnot an entry\n5\tx\tbad\n99999999999999999999999\t1\tbig\n7\t8\t\n9\t10\tcut sho";
    let back: Vec<(String, usize, usize)> =
        decode_entries(damaged).into_iter().map(|e| (e.file, e.start, e.end)).collect();
    assert_eq!(back, vec![("ok".to_string(), 3, 4), ("".to_string(), 7, 8)]);
}

#[test]
fn keys_order_by_score_then_path_then_line() {
    let key = |major: u128, path: &str, line: usize| SortKey { major, minor: 0, path: path.into(), line };
    assert!(comes_before(&key(2, "z", 9), &key(1, "a", 1)));
    assert!(comes_before(&key(1, "a", 9), &key(1, "b", 1)));
    assert!(comes_before(&key(1, "a", 1), &key(1, "a", 2)));
    assert!(comes_before(&key(1, "a", 1), &key(1, "ab", 1)));
    assert!(!comes_before(&key(1, "a", 1), &key(1, "a", 1)));
    let keys = vec![key(1, "b", 5), key(3, "z", 1), key(1, "a", 7), key(1, "b", 2), key(3, "z", 1)];
    assert_eq!(order_by_key(&keys), vec![1, 4, 2, 3, 0]);
}

#[test]
fn ranking_attaches_ranks_and_places() {
    let blocks = vec![block("b.rs", (1, 2), ""), block("a.rs", (5, 6), ""), block("a.rs", (1, 2), "")];
    let scores = vec![
        Scores { tfidf: 1, bm25: 9 },
        Scores { tfidf: 5, bm25: 1 },
        Scores { tfidf: 5, bm25: 1 },
    ];
    let show = |v: &Vec<SearchResult>| -> Vec<(String, usize, Ranking)> {
        v.iter().map(|r| (r.file.clone(), r.lines.0, r.ranking.unwrap())).collect()
    };
    // places by (tfidf, bm25): b.rs (3, 1), a.rs:5 (2, 3), a.rs:1 (1, 2)
    let out = show(&rank_search_results(&blocks, &scores, Reranker::Bm25, 1));
    assert_eq!(
        out,
        vec![
            ("b.rs".to_string(), 1, Ranking { rank: 1, score: 9, tfidf_rank: 3, bm25_rank: 1, tfidf_score: 1, bm25_score: 9 }),
            ("a.rs".to_string(), 1, Ranking { rank: 2, score: 1, tfidf_rank: 1, bm25_rank: 2, tfidf_score: 5, bm25_score: 1 }),
            ("a.rs".to_string(), 5, Ranking { rank: 3, score: 1, tfidf_rank: 2, bm25_rank: 3, tfidf_score: 5, bm25_score: 1 }),
        ]
    );
    let out = show(&rank_search_results(&blocks, &scores, Reranker::Tfidf, 1));
    assert_eq!((out[0].1, out[1].1, out[2].1), (1, 5, 1));
    assert_eq!(out[2].0, "b.rs");
    let out = show(&rank_search_results(&blocks, &scores, Reranker::Hybrid2, 1));
    assert_eq!(out[0].2, Ranking { rank: 1, score: 3, tfidf_rank: 1, bm25_rank: 2, tfidf_score: 5, bm25_score: 1 });
    assert_eq!(out[1].2, Ranking { rank: 2, score: 2, tfidf_rank: 3, bm25_rank: 1, tfidf_score: 1, bm25_score: 9 });
    assert_eq!(out[2].2, Ranking { rank: 3, score: 1, tfidf_rank: 2, bm25_rank: 3, tfidf_score: 5, bm25_score: 1 });
    assert_eq!(parse_reranker("hybrid"), Some(Reranker::Hybrid));
    assert_eq!(parse_reranker("tfidf"), Some(Reranker::Tfidf));
    assert_eq!(parse_reranker("bm25"), Some(Reranker::Bm25));
    assert_eq!(parse_reranker("hybrid2"), Some(Reranker::Hybrid2));
    assert_eq!(parse_reranker("BM25"), None);
}

#[test]
fn the_hybrid_score_adds_up_four_shares() {
    // three blocks of two files; the query has four terms
    let mut blocks = vec![block("b.rs", (1, 2), ""), block("a.rs", (5, 6), ""), block("a.rs", (1, 2), "")];
    let ranks_and_terms = [(2, 4), (1, 1), (1, 3)];
    for (b, (file_rank, unique)) in blocks.iter_mut().zip(ranks_and_terms) {
        let stats = b.stats.as_mut().unwrap();
        stats.file_match_rank = file_rank;
        stats.block_unique_terms = unique;
    }
    let scores = vec![
        Scores { tfidf: 1, bm25: 9 },
        Scores { tfidf: 5, bm25: 1 },
        Scores { tfidf: 5, bm25: 1 },
    ];
    // places by (tfidf, bm25): b.rs (3, 1), a.rs:5 (2, 3), a.rs:1 (1, 2)
    // shares in millionths, weighed 3 : 4 : 2 : 1
    let b_rs = 3 * 0 + 4 * 1_000_000 + 2 * 0 + 1_000_000;
    let a_5 = 3 * 500_000 + 4 * 0 + 2 * 1_000_000 + 250_000;
    let a_1 = 3 * 1_000_000 + 4 * 500_000 + 2 * 1_000_000 + 750_000;
    let out = rank_search_results(&blocks, &scores, Reranker::Hybrid, 4);
    let shown: Vec<(String, usize, usize, u128)> = out
        .iter()
        .map(|r| (r.file.clone(), r.lines.0, r.ranking.unwrap().rank, r.ranking.unwrap().score))
        .collect();
    assert_eq!(
        shown,
        vec![
            ("a.rs".to_string(), 1, 1, a_1),
            ("b.rs".to_string(), 1, 2, b_rs),
            ("a.rs".to_string(), 5, 3, a_5),
        ]
    );
    // a single block is first by every measure; a third of the terms rounds down
    let mut one = vec![block("x.rs", (1, 1), "")];
    one[0].stats.as_mut().unwrap().file_match_rank = 1;
    let out = rank_search_results(&one, &vec![Scores { tfidf: 0, bm25: 0 }], Reranker::Hybrid, 3);
    assert_eq!(out[0].ranking.unwrap().score, 3_000_000 + 4_000_000 + 2_000_000 + 333_333);
}

#[test]
fn files_are_placed_by_their_hits() {
    let mut blocks = vec![
        block("few.rs", (1, 1), ""),
        block("many.rs", (1, 1), ""),
        block("tie_b.rs", (1, 1), ""),
        block("many.rs", (9, 9), ""),
        block("tie_a.rs", (1, 1), ""),
    ];
    let totals = [1, 9, 4, 9, 4];
    for (b, t) in blocks.iter_mut().zip(totals) {
        b.stats.as_mut().unwrap().file_total_matches = t;
    }
    let out = assign_file_ranks(&blocks);
    let places: Vec<usize> = out.iter().map(|r| r.stats.unwrap().file_match_rank).collect();
    assert_eq!(places, vec![4, 1, 3, 1, 2]);
}

#[test]
fn content_tokens_and_frequencies() {
    let tokens = tokenize_content("let cache = Caches::new(cached_items); // caching", false);
    assert_eq!(tokens, vec!["let", "cach", "cach", "new", "cached_item", "cach"]);
    assert_eq!(term_frequency(&tokens, "cach"), 3);
    assert_eq!(term_frequency(&tokens, "cache"), 0);
    let exact = tokenize_content("Cache caches", true);
    assert_eq!(exact, vec!["Cache", "caches"]);
}

#[test]
fn merging_joins_near_blocks_of_a_file() {
    let mut blocks = vec![
        block("a.rs", (10, 12), "ten"),
        block("b.rs", (11, 13), "other file"),
        block("a.rs", (30, 31), "far"),
        block("a.rs", (1, 4), "early"),
        block("a.rs", (11, 20), "overlap"),
    ];
    for (i, b) in blocks.iter_mut().enumerate() {
        b.matched_terms = vec![i % 2, 7 - i];
        b.ranking = Some(Ranking {
            rank: i + 1,
            score: 100 - i as u128,
            tfidf_rank: 5 - i,
            bm25_rank: i + 1,
            tfidf_score: 10 * i as u64,
            bm25_score: 7,
        });
        b.stats.as_mut().unwrap().block_total_matches = i + 1;
    }
    let text: String = (1..=40).map(|n| format!("line {}\n", n)).collect();
    let sources = vec![SourceFile { path: "a.rs".into(), content: text }];
    let out = merge_ranked_blocks(&blocks, None, &sources);
    let lines: Vec<(String, (usize, usize))> = out.iter().map(|r| (r.file.clone(), r.lines)).collect();
    assert_eq!(
        lines,
        vec![("a.rs".to_string(), (1, 20)), ("b.rs".to_string(), (11, 13)), ("a.rs".to_string(), (30, 31))]
    );
    let merged = &out[0];
    let expected: Vec<String> = (1..=20).map(|n| format!("line {}", n)).collect();
    assert_eq!(merged.code, expected.join("\n"));
    assert_eq!(merged.matched_terms, vec![0, 1, 3, 4, 7]);
    assert_eq!(merged.ranking.unwrap(), Ranking { rank: 1, score: 100, tfidf_rank: 1, bm25_rank: 1, tfidf_score: 40, bm25_score: 7 });
    let stats = merged.stats.unwrap();
    assert_eq!((stats.block_unique_terms, stats.block_total_matches), (5, 1 + 4 + 5));
    assert_eq!(out[1].code, "other file");
    assert_eq!(out[2].code, "far");
    assert_eq!(out[2].ranking.unwrap().rank, 3);

    let out = merge_ranked_blocks(&blocks, Some(4), &sources);
    assert_eq!(out.len(), 4);
    assert_eq!(out[0].lines, (10, 20));
    assert_eq!(out[3].lines, (1, 4));
    let out = merge_ranked_blocks(&blocks, Some(9), &sources);
    assert_eq!(out.len(), 2);
    assert_eq!(out[0].lines, (1, 31));
}

#[test]
fn results_render_as_lines() {
    let mut first = block("src/a.rs", (3, 4), "fn a() {\n}");
    first.ranking = Some(Ranking { rank: 1, score: 5, tfidf_rank: 2, bm25_rank: 1, tfidf_score: 0, bm25_score: 0 });
    let mut whole = block("notes/.hidden", (1, 1), "text");
    whole.node_type = "file".to_string();
    let plain = format_and_print_search_results(&vec![first, whole], false);
    assert_eq!(
        plain,
        vec![
            "File: src/a.rs", "Lines: 3-4", "```rs", "fn a() {\n}", "```", "\n",
            "File: notes/.hidden", "```", "text", "```", "\n",
            "Found 2 search results", "Total bytes returned: 14", "Total tokens returned: 7",
        ]
    );
    let mut ranked = block("x.tar.gz", (1, 2), "");
    ranked.ranking = Some(Ranking { rank: 4, score: 5, tfidf_rank: 2, bm25_rank: 3, tfidf_score: 17, bm25_score: 23 });
    let debug = format_and_print_search_results(&vec![ranked], true);
    assert_eq!(
        debug,
        vec![
            "File: x.tar.gz", "Lines: 1-2", "```gz", "", "```", "Rank: 4", "Combined Score: 5",
            "TF-IDF Score: 17", "TF-IDF Rank: 2", "BM25 Score: 23", "BM25 Rank: 3",
            "File Unique Terms: 1", "File Total Matches: 1", "File Match Rank: 0",
            "Block Unique Terms: 1", "Block Total Matches: 1", "Type: function", "\n",
            "Found 1 search results", "Total bytes returned: 0", "Total tokens returned: 0",
        ]
    );
}

#[test]
fn options_that_differ_from_the_defaults_are_listed() {
    let mut o = SearchOptions {
        path: ".".into(),
        queries: vec!["q".into()],
        files_only: false,
        custom_ignores: vec![],
        exclude_filenames: false,
        reranker: Reranker::Hybrid,
        frequency_search: true,
        max_results: None,
        max_bytes: None,
        max_tokens: None,
        allow_tests: false,
        exact: false,
        no_merge: false,
        merge_threshold: None,
        dry_run: false,
        session: None,
    };
    assert!(advanced_options(&o).is_empty());
    o.files_only = true;
    o.exclude_filenames = true;
    o.reranker = Reranker::Bm25;
    o.exact = true;
    o.allow_tests = true;
    o.no_merge = true;
    o.merge_threshold = Some(12);
    o.dry_run = true;
    o.session = Some("abc".into());
    assert_eq!(
        advanced_options(&o),
        vec![
            "Files only", "Exclude filenames", "Reranker: bm25", "Frequency search disabled",
            "Exact match", "Including tests", "No block merging", "Merge threshold: 12",
            "Dry run (file names and lines only)", "Session: abc",
        ]
    );
}

#[test]
fn candidate_files_leave_out_binary_test_and_ignored_files() {
    assert!(is_test_file("src/parser_test.go"));
    assert!(is_test_file("tests/it.rs"));
    assert!(is_test_file("a/__tests__/b.js"));
    assert!(is_test_file("pkg/test_util.py"));
    assert!(is_test_file("ui/button.spec.ts"));
    assert!(!is_test_file("src/latest.rs"));
    assert!(!is_test_file("contests/a.rs"));
    assert!(binary_by_name("img/Logo.PNG"));
    assert!(binary_by_name("lib/libm.so"));
    assert!(!binary_by_name("png/readme.md"));
    assert!(binary_by_content(&vec![1, 2, 0, 3]));
    assert!(!binary_by_content(&vec![1, 2, 3]));
    let mut late = vec![1u8; 8192];
    late.push(0);
    assert!(!binary_by_content(&late));
    assert!(matches_ignore("*.min.js", "web/app.min.js"));
    assert!(matches_ignore("node_modules", "web/node_modules/x/y.js"));
    assert!(matches_ignore("web/*", "web/a/b.js"));
    assert!(matches_ignore("b?.js", "a/b1.js"));
    assert!(!matches_ignore("node", "web/node_modules/x.js"));
    assert!(!matches_ignore("*.rs", "a/b.rsx"));
    let listing = vec![
        ListedFile { path: "src/a.rs".into(), head: b"fn a".to_vec() },
        ListedFile { path: "src/a_test.rs".into(), head: b"fn t".to_vec() },
        ListedFile { path: "img/x.png".into(), head: vec![] },
        ListedFile { path: "data/blob".into(), head: vec![0] },
        ListedFile { path: "target/debug/a.rs".into(), head: b"x".to_vec() },
        ListedFile { path: "src/b.rs".into(), head: b"fn b".to_vec() },
    ];
    let ignores = vec!["target".to_string()];
    assert_eq!(get_file_list(&listing, false, &ignores), vec!["src/a.rs", "src/b.rs"]);
    assert_eq!(
        get_file_list(&listing, true, &vec![]),
        vec!["src/a.rs", "src/a_test.rs", "target/debug/a.rs", "src/b.rs"]
    );
}

#[test]
fn merging_the_merged_blocks_again_changes_nothing() {
    let blocks = vec![
        block("a.rs", (1, 3), ""),
        block("a.rs", (9, 12), ""),
        block("a.rs", (20, 22), ""),
        block("b.rs", (5, 6), ""),
        block("a.rs", (13, 13), ""),
    ];
    let once = merge_ranked_blocks(&blocks, Some(5), &vec![]);
    let twice = merge_ranked_blocks(&once, Some(5), &vec![]);
    let ranges = |v: &Vec<SearchResult>| -> Vec<(String, (usize, usize))> {
        v.iter().map(|r| (r.file.clone(), r.lines)).collect()
    };
    assert_eq!(
        ranges(&once),
        vec![("a.rs".to_string(), (1, 13)), ("a.rs".to_string(), (20, 22)), ("b.rs".to_string(), (5, 6))]
    );
    assert_eq!(ranges(&once), ranges(&twice));
}

#[test]
fn adding_the_same_blocks_twice_is_adding_them_once() {
    let blocks = vec![block("a", (1, 2), ""), block("b", (3, 4), ""), block("a", (1, 2), "")];
    let mut once = SessionCache::new("s".to_string());
    once.add_results(&blocks);
    let mut twice = SessionCache::new("s".to_string());
    twice.add_results(&blocks);
    twice.add_results(&blocks);
    assert_eq!(once.entries.len(), 2);
    assert_eq!(encode_entries(&once), encode_entries(&twice));
    let (left, dropped) = once.filter_results(blocks);
    assert!(left.is_empty());
    assert_eq!(dropped, 3);
}

#[test]
fn ignore_patterns_match_whole_components() {
    assert!(matches_ignore("*", "anything/at/all"));
    assert!(matches_ignore("a*c", "x/abc/y"));
    assert!(matches_ignore("a*c", "ac"));
    assert!(matches_ignore("src/*.rs", "src/lib.rs"));
    assert!(matches_ignore("a/b", "x/a/b/y"));
    assert!(!matches_ignore("", ""));
    assert!(!matches_ignore("", "a"));
    assert!(!matches_ignore("*", ""));
    assert!(!matches_ignore("a?c", "ac"));
    assert!(!matches_ignore("lib", "src/lib.rs"));
    assert!(!matches_ignore("rc/lib.rs", "src/lib.rs"));
}

#[test]
fn fences_name_the_extension_of_the_file() {
    let fence = |path: &str| -> String {
        let mut b = block(path, (1, 1), "");
        b.node_type = "file".to_string();
        format_and_print_search_results(&vec![b], false)[1].clone()
    };
    assert_eq!(fence("src/main.rs"), "```rs");
    assert_eq!(fence("archive.tar.gz"), "```gz");
    assert_eq!(fence("dir.d/Makefile"), "```");
    assert_eq!(fence(".gitignore"), "```");
    assert_eq!(fence("a/.config.toml"), "```toml");
    assert_eq!(fence("trailing."), "```");
    assert_eq!(fence("win\\path\\x.py"), "```py");
    assert_eq!(fence(""), "```");
}

#[test]
fn token_counts_do_not_depend_on_the_script() {
    assert_eq!(count_tokens("größe = 3"), 3);
    assert_eq!(count_tokens("naïve-café"), 3);
    assert_eq!(count_tokens("a_1"), 1);
    assert_eq!(count_tokens("((()))"), 6);
    assert_eq!(count_tokens("x\ny"), 2);
}

#[test]
fn hits_beyond_the_file_give_no_block() {
    let h = hits(&[(0, 0), (0, 4), (0, 5)]);
    let any = Expr::Term { index: 0, excluded: false };
    let out = extract_blocks(&"f".to_string(), "one\ntwo\nthree\nfour", &vec![], &h, &any, false, 0);
    let lines: Vec<(usize, usize)> = out.iter().map(|r| r.lines).collect();
    assert_eq!(lines, vec![(4, 4)]);
    assert_eq!(out[0].code, "four");
    assert_eq!(out[0].stats.unwrap().file_total_matches, 3);
}

#[test]
fn ignore_files_give_their_patterns() {
    let text = "# build output\n/target/\n\n  *.log  \n!keep.log\n///\n dir/sub/ \r\n#\nlast";
    assert_eq!(ignore_rules(text), vec!["target", "*.log", "dir/sub", "last"]);
    assert!(ignore_rules("").is_empty());
}

#[test]
fn a_search_without_results_reports_that_nothing_was_found() {
    let nothing = LimitedSearchResults {
        results: Vec::new(),
        skipped_files: Vec::new(),
        limits_applied: None,
        cached_blocks_skipped: Some(2),
    };
    let lines = search_report(&nothing, false, false, false);
    assert_eq!(lines.len(), 2);
    assert!(matches!(&lines[0], ReportLine::Notice(t) if t == "No results found."));
    assert!(matches!(&lines[1], ReportLine::Elapsed));
    let lines = search_report(&nothing, true, false, false);
    let texts: Vec<String> = lines
        .iter()
        .map(|l| match l {
            ReportLine::Plain(t) => t.clone(),
            _ => String::from("?"),
        })
        .collect();
    assert_eq!(
        texts,
        vec!["Found 0 search results", "Total bytes returned: 0", "Total tokens returned: 0"]
    );
}

#[test]
fn the_report_names_what_limits_and_cache_kept_away() {
    let found = LimitedSearchResults {
        results: vec![block("a.rs", (1, 2), "one\ntwo")],
        skipped_files: vec![block("b.rs", (3, 3), "three")],
        limits_applied: Some(SearchLimits { max_results: Some(1), max_bytes: None, max_tokens: Some(9) }),
        cached_blocks_skipped: Some(4),
    };
    let lines = search_report(&found, false, true, false);
    let shown: Vec<String> = lines
        .iter()
        .map(|l| match l {
            ReportLine::Plain(t) => format!("P:{}", t),
            ReportLine::Notice(t) => format!("N:{}", t),
            ReportLine::Limit(n, v) => format!("L:{} {}", n, v),
            ReportLine::Count(n, v) => format!("C:{} {}", n, v),
            ReportLine::Elapsed => "E".to_string(),
        })
        .collect();
    let rendered = format_and_print_search_results(&strip_code(&found.results), false);
    let mut expected = vec!["E".to_string(), "P:".to_string()];
    expected.extend(rendered.iter().map(|t| format!("P:{}", t)));
    expected.extend(
        [
            "P:",
            "N:Limits applied:",
            "L:Max results: 1",
            "L:Max tokens: 9",
            "P:",
            "C:Skipped files due to limits: 1",
            "P:",
            "C:Skipped blocks due to session cache: 4",
        ]
        .iter()
        .map(|t| t.to_string()),
    );
    assert_eq!(shown, expected);
    assert!(strip_code(&found.results)[0].code.is_empty());
    assert_eq!(strip_code(&found.results)[0].lines, (1, 2));
    let none_cut = LimitedSearchResults { skipped_files: Vec::new(), cached_blocks_skipped: None, ..found };
    let lines = search_report(&none_cut, true, false, false);
    assert!(lines.iter().all(|l| matches!(l, ReportLine::Plain(_))));
    assert_eq!(lines.len(), format_and_print_search_results(&none_cut.results, false).len());
}
