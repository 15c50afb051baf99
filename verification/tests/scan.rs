use probe::hits::TermLines;
use probe::scan::{
    combined_pattern, record_matches, scan_compiled, search_with_structured_patterns, split_lines,
    FatalError, SourceFile,
};

fn file(path: &str, content: &str) -> SourceFile {
    SourceFile { path: path.to_string(), content: content.to_string() }
}

#[test]
fn lines_split_like_the_standard_library() {
    for text in ["", "a", "a\n", "a\n\nb", "a\r\nb\r", "\n", "x\r\n\r\n", "\r", "a\rb\n"] {
        let expected: Vec<String> = text.lines().map(|l| l.to_string()).collect();
        assert_eq!(split_lines(text), expected, "for {:?}", text);
    }
}

#[test]
fn combined_pattern_groups_each_entry() {
    let patterns = vec![("foo".to_string(), vec![0]), ("ba+r".to_string(), vec![1, 2])];
    assert_eq!(combined_pattern(&patterns), "(?i)(foo)|(ba+r)");
    assert_eq!(combined_pattern(&vec![]), "(?i)");
}

#[test]
fn scan_records_terms_and_lines() {
    let files = vec![
        file("a.rs", "nothing\nFoo here\nbar and foo\n"),
        file("b.rs", "no hit\n"),
        file("c.rs", "BAAR"),
    ];
    let patterns = vec![("foo".to_string(), vec![0]), ("ba+r".to_string(), vec![1, 2])];
    let map = search_with_structured_patterns(&files, &patterns).ok().unwrap();
    assert_eq!(map.files.len(), 2);
    assert_eq!(map.files[0].file, "a.rs");
    assert_eq!(map.files[0].hits.pairs, vec![(0, 2), (0, 3), (1, 3), (2, 3)]);
    assert_eq!(map.files[1].file, "c.rs");
    assert_eq!(map.files[1].hits.pairs, vec![(1, 1), (2, 1)]);
}

#[test]
fn overlapping_alternatives_are_all_recorded() {
    // the second entry holds the first as a group of its own: one match, two groups
    let files = vec![file("a.rs", "foobar")];
    let patterns = vec![("(?:x)?foo".to_string(), vec![0]), ("never".to_string(), vec![1])];
    let map = search_with_structured_patterns(&files, &patterns).ok().unwrap();
    assert_eq!(map.files[0].hits.pairs, vec![(0, 1)]);
    // a group that a pattern writes itself stands for no term
    let nested = vec![("fo(o)bar".to_string(), vec![0]), ("zzz".to_string(), vec![1])];
    let map = search_with_structured_patterns(&files, &nested).ok().unwrap();
    assert_eq!(map.files[0].hits.pairs, vec![(0, 1)]);
    let files = vec![file("f", "ab\n")];
    let own = vec![("(a)b".to_string(), vec![0]), ("c".to_string(), vec![1])];
    let map = search_with_structured_patterns(&files, &own).ok().unwrap();
    assert_eq!(map.files[0].hits.pairs, vec![(0, 1)]);
    let later = vec![("(x)(y)".to_string(), vec![0]), ("(a)(b)".to_string(), vec![1, 2])];
    let map = search_with_structured_patterns(&files, &later).ok().unwrap();
    assert_eq!(map.files[0].hits.pairs, vec![(1, 1), (2, 1)]);
}

#[test]
fn long_lines_are_skipped() {
    let long = format!("{}foo", "x".repeat(1998));
    let fits = format!("{}foo", "x".repeat(1997));
    let files = vec![file("long.rs", &long), file("fits.rs", &fits)];
    let patterns = vec![("foo".to_string(), vec![7])];
    let map = search_with_structured_patterns(&files, &patterns).ok().unwrap();
    assert_eq!(map.files.len(), 1);
    assert_eq!(map.files[0].file, "fits.rs");
    assert_eq!(map.files[0].hits.pairs, vec![(7, 1)]);
}

#[test]
fn a_bad_pattern_is_fatal() {
    let patterns = vec![("fo(o".to_string(), vec![0])];
    let r = search_with_structured_patterns(&vec![file("a.rs", "foo")], &patterns);
    let expected = regex::Regex::new("fo(o").err().unwrap().to_string();
    match r {
        Err(FatalError::Pattern(message)) => {
            assert_eq!(message, expected);
            assert!(message.contains("unclosed group"));
        }
        Ok(_) => panic!("the pattern does not compile"),
    }
    // the pattern is rejected even where there is nothing to scan
    assert!(search_with_structured_patterns(&vec![], &patterns).is_err());
    // a pattern that would only close the group around it is rejected as it stands
    let breaking = vec![("a)|(b".to_string(), vec![0])];
    let expected = regex::Regex::new("a)|(b").err().unwrap().to_string();
    match search_with_structured_patterns(&vec![file("a.rs", "b")], &breaking) {
        Err(FatalError::Pattern(message)) => assert_eq!(message, expected),
        Ok(_) => panic!("the pattern does not compile"),
    }
}

#[test]
fn the_scan_succeeds_exactly_if_compiling_did() {
    let files = vec![file("a.rs", "one\nAb\n"), file("b.rs", "none\n")];
    let terms = vec![vec![4], vec![5, 6]];
    let map = scan_compiled(regex::Regex::new("(a)|(b)"), &files, &terms).ok().unwrap();
    assert_eq!(map.files.len(), 1);
    assert_eq!(map.files[0].file, "a.rs");
    // without the flag for letter case `A` is no match
    assert_eq!(map.files[0].hits.pairs, vec![(5, 2), (6, 2)]);
    let failed = regex::Regex::new("a{2,1}");
    let expected = failed.clone().err().unwrap().to_string();
    match scan_compiled(failed, &files, &terms) {
        Err(FatalError::Pattern(message)) => assert_eq!(message, expected),
        Ok(_) => panic!("the pattern does not compile"),
    }
    let empty = scan_compiled(regex::Regex::new("zzz"), &files, &terms).ok().unwrap();
    assert!(empty.files.is_empty());
}

#[test]
fn every_reported_line_holds_a_match_of_the_pattern_of_its_term() {
    let text = "Alpha beta\nnothing here\nBETA\ngamma alpha\n";
    let files = vec![file("a.txt", text)];
    let patterns = vec![
        ("alpha".to_string(), vec![0]),
        ("beta".to_string(), vec![1]),
        ("delta".to_string(), vec![2]),
    ];
    let map = search_with_structured_patterns(&files, &patterns).ok().unwrap();
    let lines: Vec<&str> = text.lines().collect();
    let pairs = &map.files[0].hits.pairs;
    assert_eq!(pairs, &vec![(0, 1), (0, 4), (1, 1), (1, 3)]);
    for (term, line) in pairs {
        let folded = lines[line - 1].to_lowercase();
        assert!(folded.contains(&patterns[*term].0), "term {} on line {}", term, line);
    }
    // and no line that holds a match is left out
    for (n, l) in lines.iter().enumerate() {
        for (p, terms) in &patterns {
            let expected = l.to_lowercase().contains(p);
            assert_eq!(pairs.contains(&(terms[0], n + 1)), expected);
        }
    }
}

#[test]
fn every_group_that_took_part_is_recorded() {
    let groups = vec![vec![0], vec![1, 2], vec![3]];
    // two matches on the line: in the first, groups 1 and 2 took part, in the
    // second only group 3; group 0 is the whole match and stands for no term
    let caps = vec![
        vec![Some((0, 6)), Some((0, 3)), Some((3, 6)), None],
        vec![Some((7, 9)), None, None, Some((7, 9)), Some((8, 9))],
    ];
    let mut hits = TermLines::new();
    hits.record(9, 1);
    record_matches(&mut hits, &caps, &groups, 4);
    assert_eq!(hits.pairs, vec![(0, 4), (1, 4), (2, 4), (3, 4), (9, 1)]);
    let mut none = TermLines::new();
    record_matches(&mut none, &vec![vec![Some((0, 1))], vec![]], &groups, 1);
    assert!(none.is_empty());
}

#[test]
fn a_path_stands_once_in_the_hit_map() {
    let files = vec![file("a.rs", "foo\n"), file("b.rs", "foo\n"), file("a.rs", "x\nfoo\n")];
    let patterns = vec![("foo".to_string(), vec![0])];
    let map = search_with_structured_patterns(&files, &patterns).ok().unwrap();
    let found: Vec<(&str, usize)> =
        map.files.iter().map(|f| (f.file.as_str(), f.hits.pairs[0].1)).collect();
    assert_eq!(found, vec![("a.rs", 1), ("b.rs", 1)]);
    assert!(map.is_well_formed());
}
