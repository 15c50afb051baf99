//! The scanner: one combined regular expression over all patterns, run line by
//! line over each file, with every participating capture group recorded.

use crate::engine::{
    compile_outcome, error_message, error_text, match_spans, regex_captures, regex_groups,
    rows_of,
};
use crate::hits::{
    copy_numbers, has_path, lemma_ordered_unique, ordered, FileHits, FileView, HitMap, TermLines,
};
use crate::text::{chars_of, push_chars, texts};
use regex::Regex;
use vstd::prelude::*;
use vstd::string::StringExecFns;
use vstd::utf8::encode_utf8;

verus! {

/// A candidate file: its path and its text.
pub struct SourceFile {
    pub path: String,
    pub content: String,
}

/// A failure that ends the search.
pub enum FatalError {
    /// The combined pattern did not compile; the engine's message is kept.
    Pattern(String),
}

/// The longest line, in bytes, that the scanner still looks at.
pub const MAX_LINE_BYTES: usize = 2000;

/// The position of the first line feed at or after `from`, or the length of `s`.
pub open spec fn line_end(s: Seq<char>, from: int) -> int
    decreases s.len() - from,
{
    if from >= s.len() {
        s.len() as int
    } else if from >= 0 && s[from] == '\n' {
        from
    } else {
        line_end(s, from + 1)
    }
}

/// `line` without a carriage return at its end.
pub open spec fn strip_cr(line: Seq<char>) -> Seq<char> {
    if line.len() > 0 && line.last() == '\r' {
        line.drop_last()
    } else {
        line
    }
}

/// The lines of `s` from position `from` on. A line ends at a line feed, which
/// is dropped together with a carriage return right before it; text after the
/// last line feed is a line of its own, kept as it is.
pub open spec fn lines_from(s: Seq<char>, from: int) -> Seq<Seq<char>>
    decreases s.len() - from,
{
    if from < 0 || from >= s.len() {
        seq![]
    } else {
        let e = line_end(s, from);
        if from <= e < s.len() {
            seq![strip_cr(s.subrange(from, e))] + lines_from(s, e + 1)
        } else {
            seq![s.subrange(from, s.len() as int)]
        }
    }
}

/// The lines of a text.
pub open spec fn lines_of(s: Seq<char>) -> Seq<Seq<char>> {
    lines_from(s, 0)
}

/// Splits a text into its lines.
pub fn split_lines(content: &str) -> (out: Vec<String>)
    ensures
        texts(out@) == lines_of(content@),
{
    let chars = chars_of(content);
    let ghost s = chars@;
    let n: usize = chars.len();
    let mut out: Vec<String> = Vec::new();
    let mut pos: usize = 0;
    assert(texts(out@) + lines_from(s, 0) =~= lines_from(s, 0));
    while pos < n
        invariant
            s == chars@,
            s == content@,
            n == chars.len(),
            pos <= n,
            texts(out@) + lines_from(s, pos as int) == lines_from(s, 0),
        decreases n - pos,
    {
        let mut e: usize = pos;
        while e < n && chars[e] != '\n'
            invariant
                s == chars@,
                n == chars.len(),
                pos <= e <= n,
                line_end(s, pos as int) == line_end(s, e as int),
            decreases n - e,
        {
            e += 1;
        }
        assert(line_end(s, pos as int) == e);
        let ghost before = texts(out@);
        let mut line = String::new();
        if e < n {
            let stop: usize = if e > pos && chars[e - 1] == '\r' {
                e - 1
            } else {
                e
            };
            push_chars(&mut line, &chars, pos, stop);
            proof {
                let whole = s.subrange(pos as int, e as int);
                if e > pos {
                    assert(whole.last() == s[e - 1]);
                }
                assert(Seq::<char>::empty() + s.subrange(pos as int, stop as int) =~= strip_cr(
                    whole,
                ));
                assert(line@ == strip_cr(whole));
            }
            out.push(line);
            proof {
                assert(texts(out@) =~= before.push(strip_cr(s.subrange(pos as int, e as int))));
                assert(texts(out@) + lines_from(s, e + 1) =~= before + lines_from(s, pos as int));
            }
            pos = e + 1;
        } else {
            push_chars(&mut line, &chars, pos, n);
            proof {
                assert(Seq::<char>::empty() + s.subrange(pos as int, n as int) =~= s.subrange(
                    pos as int,
                    n as int,
                ));
            }
            out.push(line);
            proof {
                assert(texts(out@) =~= before.push(s.subrange(pos as int, n as int)));
                assert(texts(out@) + lines_from(s, n as int) =~= before + lines_from(
                    s,
                    pos as int,
                ));
            }
            pos = n;
        }
    }
    assert(texts(out@) + lines_from(s, pos as int) =~= texts(out@));
    out
}

/// The pattern texts of a structured pattern set.
pub open spec fn sources_of(patterns: Seq<(String, Vec<usize>)>) -> Seq<Seq<char>> {
    patterns.map_values(|p: (String, Vec<usize>)| p.0@)
}

/// The term sets of a structured pattern set.
pub open spec fn groups_of(patterns: Seq<(String, Vec<usize>)>) -> Seq<Seq<usize>> {
    patterns.map_values(|p: (String, Vec<usize>)| p.1@)
}

/// The term sets as sequences.
pub open spec fn term_sets(groups: Seq<Vec<usize>>) -> Seq<Seq<usize>> {
    groups.map_values(|g: Vec<usize>| g@)
}

/// Each pattern in a capture group of its own, the groups joined by `|`.
pub open spec fn alternation(sources: Seq<Seq<char>>) -> Seq<char>
    decreases sources.len(),
{
    if sources.len() == 0 {
        seq![]
    } else if sources.len() == 1 {
        seq!['('] + sources[0] + seq![')']
    } else {
        alternation(sources.drop_last()) + seq!['|', '('] + sources.last() + seq![')']
    }
}

/// The combined pattern: case-insensitive, one capture group for each entry.
pub open spec fn combined_source(sources: Seq<Seq<char>>) -> Seq<char> {
    seq!['(', '?', 'i', ')'] + alternation(sources)
}

/// Builds the text of the combined pattern.
pub fn combined_pattern(patterns: &Vec<(String, Vec<usize>)>) -> (out: String)
    ensures
        out@ == combined_source(sources_of(patterns@)),
{
    let ghost sources = sources_of(patterns@);
    let mut out = String::new();
    out.push('(');
    out.push('?');
    out.push('i');
    out.push(')');
    let ghost head = seq!['(', '?', 'i', ')'];
    assert(out@ =~= head + alternation(sources.take(0)));
    let mut i: usize = 0;
    while i < patterns.len()
        invariant
            i <= patterns.len(),
            sources == sources_of(patterns@),
            head == seq!['(', '?', 'i', ')'],
            out@ == head + alternation(sources.take(i as int)),
        decreases patterns.len() - i,
    {
        let ghost before = out@;
        if i > 0 {
            out.push('|');
        }
        out.push('(');
        out.append(patterns[i].0.as_str());
        out.push(')');
        proof {
            let next = sources.take(i + 1);
            assert(next.drop_last() =~= sources.take(i as int));
            assert(next.last() == patterns@[i as int].0@);
            if i == 0 {
                assert(next[0] == patterns@[i as int].0@);
                assert(out@ =~= head + alternation(next));
            } else {
                assert(out@ =~= head + alternation(next));
            }
        }
        i += 1;
    }
    assert(sources.take(patterns.len() as int) =~= sources);
    out
}

/// Some group of the row took part in the match and stands for `term`. Group
/// `g + 1` of the expression has the term set at position `g`; group 0, the
/// whole match, has none.
pub open spec fn row_hit(
    row: Seq<Option<(usize, usize)>>,
    groups: Seq<Seq<usize>>,
    term: usize,
) -> bool {
    exists|g: int|
        0 <= g < groups.len() && g + 1 < row.len() && row[g + 1] is Some && (
        #[trigger] groups[g]).contains(term)
}

/// Some match on the line has a participating group that stands for `term`.
pub open spec fn line_hit(
    caps: Seq<Seq<Option<(usize, usize)>>>,
    groups: Seq<Seq<usize>>,
    term: usize,
) -> bool {
    exists|m: int| 0 <= m < caps.len() && row_hit(#[trigger] caps[m], groups, term)
}

/// A line of more than 2000 bytes is not searched.
pub open spec fn too_long(text: Seq<char>) -> bool {
    encode_utf8(text).len() > MAX_LINE_BYTES
}

/// The scan of `lines` reports `term` on the 1-based line `line`.
pub open spec fn scan_yields(
    re: Regex,
    groups: Seq<Seq<usize>>,
    lines: Seq<Seq<char>>,
    term: usize,
    line: usize,
) -> bool {
    1 <= line <= lines.len() && !too_long(lines[line - 1]) && line_hit(
        regex_captures(re, lines[line - 1]),
        groups,
        term,
    )
}

/// `pairs` is the scan of `content`: strictly increasing, and holding exactly
/// the (term, line) pairs that the scan reports.
pub open spec fn is_scan_of(
    pairs: Seq<(usize, usize)>,
    re: Regex,
    groups: Seq<Seq<usize>>,
    content: Seq<char>,
) -> bool {
    ordered(pairs) && forall|t: usize, l: usize| #[trigger]
        pairs.contains((t, l)) <==> scan_yields(re, groups, lines_of(content), t, l)
}

/// The scan of `content`; `is_scan_of` admits one sequence at most.
pub open spec fn file_scan(re: Regex, groups: Seq<Seq<usize>>, content: Seq<char>) -> Seq<
    (usize, usize),
> {
    choose|pairs: Seq<(usize, usize)>| is_scan_of(pairs, re, groups, content)
}

/// The scan of a list of files: in the order of the files, the path and the
/// scan of each file that has a hit. A path that came before is passed over,
/// so that the map holds every path once.
pub open spec fn map_scan(
    re: Regex,
    groups: Seq<Seq<usize>>,
    files: Seq<SourceFile>,
) -> Seq<FileView>
    decreases files.len(),
{
    if files.len() == 0 {
        seq![]
    } else {
        let rest = map_scan(re, groups, files.drop_last());
        let pairs = file_scan(re, groups, files.last().content@);
        if pairs.len() > 0 && !has_path(rest, files.last().path@) {
            rest.push(FileView { path: files.last().path@, pairs, by_filename: false })
        } else {
            rest
        }
    }
}

/// A scan selects no file for its name.
pub proof fn lemma_scan_none_by_name(re: Regex, groups: Seq<Seq<usize>>, files: Seq<SourceFile>)
    ensures
        crate::hits::none_by_name(map_scan(re, groups, files)),
    decreases files.len(),
{
    if files.len() > 0 {
        lemma_scan_none_by_name(re, groups, files.drop_last());
    }
}

fn record_terms(out: &mut TermLines, terms: &Vec<usize>, line: usize)
    requires
        old(out).wf(),
    ensures
        final(out).wf(),
        forall|t: usize, l: usize|
            final(out).has(t, l) <==> old(out).has(t, l) || (l == line && terms@.contains(t)),
{
    let mut j: usize = 0;
    while j < terms.len()
        invariant
            j <= terms.len(),
            out.wf(),
            forall|t: usize, l: usize|
                out.has(t, l) <==> old(out).has(t, l) || (l == line && exists|k: int|
                    0 <= k < j && terms@[k] == t),
        decreases terms.len() - j,
    {
        let ghost prev = *out;
        out.record(terms[j], line);
        proof {
            assert forall|t: usize, l: usize|
                out.has(t, l) <==> old(out).has(t, l) || (l == line && exists|k: int|
                    0 <= k < j + 1 && terms@[k] == t) by {
                if prev.has(t, l) && !old(out).has(t, l) {
                    let k = choose|k: int| 0 <= k < j && terms@[k] == t;
                    assert(0 <= k < j + 1 && terms@[k] == t);
                }
                if t == terms@[j as int] && l == line {
                    assert(0 <= j < j + 1 && terms@[j as int] == t);
                }
            }
        }
        j += 1;
    }
}

fn record_match(
    out: &mut TermLines,
    row: &Vec<Option<(usize, usize)>>,
    groups: &Vec<Vec<usize>>,
    line: usize,
)
    requires
        old(out).wf(),
    ensures
        final(out).wf(),
        forall|t: usize, l: usize|
            final(out).has(t, l) <==> old(out).has(t, l) || (l == line && row_hit(
                row@,
                term_sets(groups@),
                t,
            )),
{
    let ghost sets = term_sets(groups@);
    let mut g: usize = 0;
    while g < groups.len()
        invariant
            g <= groups.len(),
            sets == term_sets(groups@),
            out.wf(),
            forall|t: usize, l: usize|
                out.has(t, l) <==> old(out).has(t, l) || (l == line && exists|k: int|
                    0 <= k < g && k + 1 < row@.len() && row@[k + 1] is Some && (
                    #[trigger] sets[k]).contains(t)),
        decreases groups.len() - g,
    {
        let ghost prev = *out;
        let took_part: bool = g + 1 < row.len() && row[g + 1].is_some();
        if took_part {
            record_terms(out, &groups[g], line);
        }
        proof {
            assert(sets[g as int] == groups@[g as int]@);
            assert forall|t: usize, l: usize|
                out.has(t, l) <==> old(out).has(t, l) || (l == line && exists|k: int|
                    0 <= k < g + 1 && k + 1 < row@.len() && row@[k + 1] is Some && (
                    #[trigger] sets[k]).contains(t)) by {
                if prev.has(t, l) && !old(out).has(t, l) {
                    let k = choose|k: int|
                        0 <= k < g && k + 1 < row@.len() && row@[k + 1] is Some && (
                        #[trigger] sets[k]).contains(t);
                    assert(0 <= k < g + 1 && sets[k].contains(t));
                }
                if took_part && l == line && sets[g as int].contains(t) {
                    assert(0 <= g < g + 1 && sets[g as int].contains(t));
                }
                if l == line && exists|k: int|
                    0 <= k < g + 1 && k + 1 < row@.len() && row@[k + 1] is Some && (
                    #[trigger] sets[k]).contains(t) {
                    let k = choose|k: int|
                        0 <= k < g + 1 && k + 1 < row@.len() && row@[k + 1] is Some && (
                        #[trigger] sets[k]).contains(t);
                    if k < g {
                        assert(prev.has(t, l));
                    } else {
                        assert(took_part);
                    }
                }
            }
        }
        g += 1;
    }
}

/// Records the matches of one line. `caps` holds one row for each match on
/// the line and in each row, for each capture group, the span of the group
/// if it took part. Every group that took part adds the line to all terms of
/// its pattern entry: group `g + 1` belongs to entry `g`.
pub fn record_matches(
    out: &mut TermLines,
    caps: &Vec<Vec<Option<(usize, usize)>>>,
    groups: &Vec<Vec<usize>>,
    line: usize,
)
    requires
        old(out).wf(),
    ensures
        final(out).wf(),
        forall|t: usize, l: usize|
            final(out).has(t, l) <==> old(out).has(t, l) || (l == line && line_hit(
                rows_of(caps@),
                term_sets(groups@),
                t,
            )),
{
    let ghost rows = rows_of(caps@);
    let ghost sets = term_sets(groups@);
    let mut m: usize = 0;
    while m < caps.len()
        invariant
            m <= caps.len(),
            rows == rows_of(caps@),
            sets == term_sets(groups@),
            out.wf(),
            forall|t: usize, l: usize|
                out.has(t, l) <==> old(out).has(t, l) || (l == line && exists|k: int|
                    0 <= k < m && row_hit(#[trigger] rows[k], sets, t)),
        decreases caps.len() - m,
    {
        let ghost prev = *out;
        record_match(out, &caps[m], groups, line);
        proof {
            assert(rows[m as int] == caps@[m as int]@);
            assert forall|t: usize, l: usize|
                out.has(t, l) <==> old(out).has(t, l) || (l == line && exists|k: int|
                    0 <= k < m + 1 && row_hit(#[trigger] rows[k], sets, t)) by {
                if prev.has(t, l) && !old(out).has(t, l) {
                    let k = choose|k: int| 0 <= k < m && row_hit(#[trigger] rows[k], sets, t);
                    assert(0 <= k < m + 1 && row_hit(rows[k], sets, t));
                }
                if l == line && row_hit(rows[m as int], sets, t) {
                    assert(0 <= m < m + 1 && row_hit(rows[m as int], sets, t));
                }
                if l == line && exists|k: int|
                    0 <= k < m + 1 && row_hit(#[trigger] rows[k], sets, t) {
                    let k = choose|k: int| 0 <= k < m + 1 && row_hit(#[trigger] rows[k], sets, t);
                    if k < m {
                        assert(prev.has(t, l));
                    }
                }
            }
        }
        m += 1;
    }
}

/// Searches the text of one file with the combined expression. For every line
/// of at most 2000 bytes and every match on it, each capture group that took
/// part adds the line, counted from 1, to all terms of its pattern entry.
pub fn search_file_with_combined_pattern(
    content: &str,
    combined_regex: &Regex,
    pattern_to_terms: &Vec<Vec<usize>>,
) -> (out: TermLines)
    ensures
        out.wf(),
        is_scan_of(
            out.pairs@,
            *combined_regex,
            term_sets(pattern_to_terms@),
            content@,
        ),
        out.pairs@ == file_scan(
            *combined_regex,
            term_sets(pattern_to_terms@),
            content@,
        ),
{
    let ghost re = *combined_regex;
    let ghost sets = term_sets(pattern_to_terms@);
    let lines = split_lines(content);
    let ghost all = texts(lines@);
    let mut out = TermLines::new();
    let mut n: usize = 0;
    while n < lines.len()
        invariant
            n <= lines.len(),
            all == texts(lines@),
            all == lines_of(content@),
            re == *combined_regex,
            sets == term_sets(pattern_to_terms@),
            out.wf(),
            forall|t: usize, l: usize|
                #[trigger] out.has(t, l) <==> l <= n && scan_yields(re, sets, all, t, l),
        decreases lines.len() - n,
    {
        let ghost prev = out;
        let line: &str = lines[n].as_str();
        assert(line@ == all[n as int]);
        let short: bool = line.as_bytes().len() <= MAX_LINE_BYTES;
        assert(short == !too_long(all[n as int]));
        if short {
            let caps = match_spans(combined_regex, line);
            record_matches(&mut out, &caps, pattern_to_terms, n + 1);
        }
        proof {
            assert forall|t: usize, l: usize|
                out.has(t, l) <==> l <= n + 1 && scan_yields(re, sets, all, t, l) by {
                assert(prev.has(t, l) <==> l <= n && scan_yields(re, sets, all, t, l));
            }
        }
        n += 1;
    }
    proof {
        assert forall|t: usize, l: usize| #[trigger]
            out.pairs@.contains((t, l)) <==> scan_yields(
                re,
                sets,
                lines_of(content@),
                t,
                l,
            ) by {
            assert(out.has(t, l) <==> l <= n && scan_yields(re, sets, all, t, l));
        }
        assert(is_scan_of(out.pairs@, re, sets, content@));
        let chosen = file_scan(re, sets, content@);
        assert(is_scan_of(chosen, re, sets, content@));
        assert forall|x: (usize, usize)| out.pairs@.contains(x) <==> chosen.contains(x) by {
            assert(x == (x.0, x.1));
            assert(out.pairs@.contains((x.0, x.1)) <==> scan_yields(
                re,
                sets,
                lines_of(content@),
                x.0,
                x.1,
            ));
            assert(chosen.contains((x.0, x.1)) <==> scan_yields(
                re,
                sets,
                lines_of(content@),
                x.0,
                x.1,
            ));
        }
        lemma_ordered_unique(out.pairs@, chosen);
    }
    out
}

/// Scans every file with an expression that is already compiled. Files without
/// a hit are left out; the others keep the order of `files`.
pub fn scan_files(
    files: &Vec<SourceFile>,
    combined_regex: &Regex,
    pattern_to_terms: &Vec<Vec<usize>>,
) -> (out: HitMap)
    ensures
        out.wf(),
        out@ == map_scan(*combined_regex, term_sets(pattern_to_terms@), files@),
        forall|i: int, t: usize, l: usize|
            out.has(i, t, l) ==> exists|j: int|
                0 <= j < files@.len() && (#[trigger] files@[j]).path@ == out.files@[i].file@
                    && scan_yields(
                    *combined_regex,
                    term_sets(pattern_to_terms@),
                    lines_of(files@[j].content@),
                    t,
                    l,
                ),
{
    let ghost re = *combined_regex;
    let ghost sets = term_sets(pattern_to_terms@);
    let mut out = HitMap { files: Vec::new() };
    assert(out@ =~= map_scan(re, sets, files@.take(0)));
    let mut i: usize = 0;
    while i < files.len()
        invariant
            i <= files.len(),
            re == *combined_regex,
            sets == term_sets(pattern_to_terms@),
            out.wf(),
            out@ == map_scan(re, sets, files@.take(i as int)),
            forall|k: int, t: usize, l: usize|
                out.has(k, t, l) ==> exists|j: int|
                    0 <= j < i && (#[trigger] files@[j]).path@ == out.files@[k].file@
                        && scan_yields(re, sets, lines_of(files@[j].content@), t, l),
        decreases files.len() - i,
    {
        let ghost prev = out;
        let hits = search_file_with_combined_pattern(
            files[i].content.as_str(),
            combined_regex,
            pattern_to_terms,
        );
        proof {
            let next = files@.take(i + 1);
            assert(next.drop_last() =~= files@.take(i as int));
            assert(next.last() == files@[i as int]);
        }
        if !hits.is_empty() && !out.holds_path(&files[i].path) {
            let ghost pairs = hits.pairs@;
            let entry = FileHits { file: files[i].path.clone(), hits, by_filename: false };
            out.files.push(entry);
            proof {
                assert(out@ =~= prev@.push(
                    FileView { path: files@[i as int].path@, pairs, by_filename: false },
                ));
                assert forall|a: int, b: int| 0 <= a < b < out@.len() implies (#[trigger] out@[a]).path
                    != (#[trigger] out@[b]).path by {
                    if b < prev@.len() {
                        assert(out@[a] == prev@[a] && out@[b] == prev@[b]);
                    } else {
                        assert(out@[a] == prev@[a]);
                    }
                }
                assert forall|k: int, t: usize, l: usize| out.has(k, t, l) implies exists|j: int|
                    0 <= j < i + 1 && (#[trigger] files@[j]).path@ == out.files@[k].file@
                        && scan_yields(re, sets, lines_of(files@[j].content@), t, l) by {
                    if k < prev.files@.len() {
                        assert(prev.has(k, t, l));
                        let j = choose|j: int|
                            0 <= j < i && (#[trigger] files@[j]).path@ == prev.files@[k].file@
                                && scan_yields(re, sets, lines_of(files@[j].content@), t, l);
                        assert(0 <= j < i + 1 && files@[j].path@ == out.files@[k].file@);
                    } else {
                        assert(pairs.contains((t, l)));
                        assert(files@[i as int].path@ == out.files@[k].file@);
                    }
                }
            }
        } else {
            proof {
                assert forall|k: int, t: usize, l: usize| out.has(k, t, l) implies exists|j: int|
                    0 <= j < i + 1 && (#[trigger] files@[j]).path@ == out.files@[k].file@
                        && scan_yields(re, sets, lines_of(files@[j].content@), t, l) by {
                    let j = choose|j: int|
                        0 <= j < i && (#[trigger] files@[j]).path@ == out.files@[k].file@
                            && scan_yields(re, sets, lines_of(files@[j].content@), t, l);
                    assert(0 <= j < i + 1 && files@[j].path@ == out.files@[k].file@);
                }
            }
        }
        i += 1;
    }
    assert(files@.take(files.len() as int) =~= files@);
    out
}

/// Compiles the patterns and scans `files` with their combined pattern. The
/// search fails if the engine rejects one of the patterns or their
/// combination, with the message of the engine; otherwise the result is the
/// scan of the files, in which a match counts for an entry only through the
/// group that wraps the pattern of that entry.
pub fn search_with_structured_patterns(
    files: &Vec<SourceFile>,
    patterns: &Vec<(String, Vec<usize>)>,
) -> (r: Result<HitMap, FatalError>)
    ensures
        outcome_view(r) == plan_scan(sources_of(patterns@), groups_of(patterns@), files@),
        r matches Ok(map) ==> map.wf() && forall|i: int, t: usize, l: usize|
            map.has(i, t, l) ==> exists|j: int|
                0 <= j < files@.len() && (#[trigger] files@[j]).path@ == map.files@[i].file@
                    && scan_yields(
                    compile_outcome(combined_source(sources_of(patterns@)))->Ok_0,
                    group_table(
                        sources_of(patterns@),
                        groups_of(patterns@),
                        patterns@.len() as int,
                    ),
                    lines_of(files@[j].content@),
                    t,
                    l,
                ),
{
    let ghost sources = sources_of(patterns@);
    let ghost sets = groups_of(patterns@);
    let mut table: Vec<Vec<usize>> = Vec::new();
    let mut k: usize = 0;
    assert(term_sets(table@) =~= group_table(sources, sets, 0));
    while k < patterns.len()
        invariant
            k <= patterns.len(),
            sources == sources_of(patterns@),
            sets == groups_of(patterns@),
            first_rejected(sources, 0) == first_rejected(sources, k as int),
            term_sets(table@) == group_table(sources, sets, k as int),
        decreases patterns.len() - k,
    {
        assert(sources[k as int] == patterns@[k as int].0@);
        assert(sets[k as int] == patterns@[k as int].1@);
        match Regex::new(patterns[k].0.as_str()) {
            Err(e) => {
                return Err(FatalError::Pattern(error_message(&e)));
            },
            Ok(alone) => {
                let n: usize = alone.captures_len();
                let ghost before = term_sets(table@);
                let ghost set = sets[k as int];
                table.push(copy_numbers(&patterns[k].1));
                assert(term_sets(table@) =~= before.push(set) + blanks(0));
                let mut j: usize = 1;
                while j < n
                    invariant
                        1 <= j <= n,
                        term_sets(table@) == before.push(set) + blanks((j - 1) as nat),
                    decreases n - j,
                {
                    let blank: Vec<usize> = Vec::new();
                    let ghost so_far = term_sets(table@);
                    table.push(blank);
                    assert(term_sets(table@) =~= so_far.push(Seq::<usize>::empty()));
                    assert(so_far.push(Seq::<usize>::empty()) =~= before.push(set) + blanks(
                        j as nat,
                    ));
                    j += 1;
                }
                assert(own_groups(sources[k as int]) == n - 1);
            },
        }
        k += 1;
    }
    let source = combined_pattern(patterns);
    scan_compiled(Regex::new(source.as_str()), files, &table)
}

impl FatalError {
    /// The message that the failure carries.
    pub open spec fn message(self) -> Seq<char> {
        match self {
            FatalError::Pattern(m) => m@,
        }
    }
}

/// `n` term sets that stand for no term.
pub open spec fn blanks(n: nat) -> Seq<Seq<usize>> {
    Seq::new(n, |i: int| Seq::<usize>::empty())
}

/// The number of groups that a pattern writes itself: the groups of the
/// pattern compiled alone, less the one of the whole match.
pub open spec fn own_groups(source: Seq<char>) -> nat {
    match compile_outcome(source) {
        Ok(re) => if regex_groups(re) >= 1 {
            (regex_groups(re) - 1) as nat
        } else {
            0
        },
        Err(_) => 0,
    }
}

/// The term sets of the capture groups of the combined pattern of the first
/// `k` entries, group by group in the order in which the groups open: for
/// each entry the terms of the entry for the group that wraps its pattern,
/// and no term for each group that the pattern writes itself.
pub open spec fn group_table(sources: Seq<Seq<char>>, sets: Seq<Seq<usize>>, k: int) -> Seq<
    Seq<usize>,
>
    decreases k,
{
    if k <= 0 || k > sources.len() || k > sets.len() {
        seq![]
    } else {
        group_table(sources, sets, k - 1).push(sets[k - 1]) + blanks(own_groups(sources[k - 1]))
    }
}

/// The first pattern at or after `from` that the engine rejects, or the
/// number of patterns.
pub open spec fn first_rejected(sources: Seq<Seq<char>>, from: int) -> int
    decreases sources.len() - from,
{
    if from < 0 || from >= sources.len() {
        sources.len() as int
    } else if compile_outcome(sources[from]) is Err {
        from
    } else {
        first_rejected(sources, from + 1)
    }
}

/// What the search comes to for a pattern set: the message of the engine for
/// the first pattern that it rejects, or for the combined pattern if it
/// rejects that; else the scan of the files under the combined pattern.
pub open spec fn plan_scan(
    sources: Seq<Seq<char>>,
    sets: Seq<Seq<usize>>,
    files: Seq<SourceFile>,
) -> Result<Seq<FileView>, Seq<char>> {
    let bad = first_rejected(sources, 0);
    if 0 <= bad < sources.len() {
        Err(error_text(compile_outcome(sources[bad])->Err_0))
    } else {
        scan_outcome(
            compile_outcome(combined_source(sources)),
            group_table(sources, sets, sources.len() as int),
            files,
        )
    }
}

/// What a scan comes to for an outcome of compiling the combined pattern:
/// the scan of the files under the expression that was compiled, or the
/// message of the error with which the engine rejected the pattern.
pub open spec fn scan_outcome(
    compiled: Result<Regex, regex::Error>,
    groups: Seq<Seq<usize>>,
    files: Seq<SourceFile>,
) -> Result<Seq<FileView>, Seq<char>> {
    match compiled {
        Ok(re) => Ok(map_scan(re, groups, files)),
        Err(e) => Err(error_text(e)),
    }
}

/// A result of a scan as the hit map or the message that it holds.
pub open spec fn outcome_view(r: Result<HitMap, FatalError>) -> Result<Seq<FileView>, Seq<char>> {
    match r {
        Ok(map) => Ok(map@),
        Err(e) => Err(e.message()),
    }
}

/// The scan for an outcome of compiling the combined pattern. It succeeds
/// exactly if compiling did: then it scans the files with the expression;
/// otherwise it fails with the message of the engine's error.
pub fn scan_compiled(
    compiled: Result<Regex, regex::Error>,
    files: &Vec<SourceFile>,
    pattern_to_terms: &Vec<Vec<usize>>,
) -> (r: Result<HitMap, FatalError>)
    ensures
        outcome_view(r) == scan_outcome(compiled, term_sets(pattern_to_terms@), files@),
        r matches Ok(map) ==> map.wf() && forall|i: int, t: usize, l: usize|
            map.has(i, t, l) ==> exists|j: int|
                0 <= j < files@.len() && (#[trigger] files@[j]).path@ == map.files@[i].file@
                    && scan_yields(
                    compiled->Ok_0,
                    term_sets(pattern_to_terms@),
                    lines_of(files@[j].content@),
                    t,
                    l,
                ),
{
    match compiled {
        Ok(combined_regex) => Ok(scan_files(files, &combined_regex, pattern_to_terms)),
        Err(e) => Err(FatalError::Pattern(error_message(&e))),
    }
}

} // verus!
