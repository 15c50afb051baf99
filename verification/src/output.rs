//! The plain rendering of a result set, line by line, and the summary of the
//! options that differ from their defaults.

use crate::cache::{capped_sum, clamp};
use crate::limits::{count_tokens, total_bytes, total_tokens};
use crate::models::{views, LimitedSearchResults, ResultView, SearchLimits, SearchResult};
use crate::ranking::Reranker;
use crate::runner::SearchOptions;
use crate::selection::{file_name, name_of};
use crate::text::{chars_of, decimal_digits, push_chars, push_decimal, same_chars, texts};
use vstd::prelude::*;
use vstd::string::StringExecFns;

verus! {

/// The position after the last `.` of `name` before `end`, or 0 if there is
/// none.
pub open spec fn after_last_dot(name: Seq<char>, end: int) -> int
    decreases end,
{
    if end <= 0 || end > name.len() {
        0
    } else if name[end - 1] == '.' {
        end
    } else {
        after_last_dot(name, end - 1)
    }
}

/// The extension of a path: what follows the last `.` of the file name,
/// unless the name has no `.` or only one at its very start.
pub open spec fn extension(path: Seq<char>) -> Seq<char> {
    let name = file_name(path);
    let p = after_last_dot(name, name.len() as int);
    if p <= 1 {
        seq![]
    } else {
        name.subrange(p, name.len() as int)
    }
}

fn push_extension(out: &mut String, path: &str)
    ensures
        final(out)@ == old(out)@ + extension(path@),
{
    let name = name_of(&chars_of(path));
    let n: usize = name.len();
    let mut end: usize = n;
    while end > 0 && name[end - 1] != '.'
        invariant
            end <= n,
            n == name.len(),
            after_last_dot(name@, n as int) == after_last_dot(name@, end as int),
        decreases end,
    {
        end -= 1;
    }
    if end > 1 {
        push_chars(out, &name, end, n);
    } else {
        assert(out@ =~= old(out)@ + Seq::<char>::empty());
    }
}

/// A line made of a label and a number.
pub open spec fn numbered(label: Seq<char>, n: nat) -> Seq<char> {
    label + decimal_digits(n)
}

fn number_line(label: &str, n: u128) -> (out: String)
    ensures
        out@ == numbered(label@, n as nat),
{
    let mut out = String::from_str(label);
    push_decimal(&mut out, n);
    out
}

/// The lines that show the ranking of a block to someone who debugs a
/// search. Scores are shown as the integers by which the blocks were ordered.
pub open spec fn debug_lines(r: ResultView) -> Seq<Seq<char>> {
    match r.ranking {
        None => seq![],
        Some(rank) => seq![
            numbered("Rank: "@, rank.rank as nat),
            numbered("Combined Score: "@, rank.score as nat),
            numbered("TF-IDF Score: "@, rank.tfidf_score as nat),
            numbered("TF-IDF Rank: "@, rank.tfidf_rank as nat),
            numbered("BM25 Score: "@, rank.bm25_score as nat),
            numbered("BM25 Rank: "@, rank.bm25_rank as nat),
        ] + match r.stats {
            None => seq![],
            Some(s) => seq![
                numbered("File Unique Terms: "@, s.file_unique_terms as nat),
                numbered("File Total Matches: "@, s.file_total_matches as nat),
                numbered("File Match Rank: "@, s.file_match_rank as nat),
                numbered("Block Unique Terms: "@, s.block_unique_terms as nat),
                numbered("Block Total Matches: "@, s.block_total_matches as nat),
            ],
        } + seq!["Type: "@ + r.node_type],
    }
}

/// The lines of one block: the file, the line range unless the block is a
/// whole file, the code between fences that name the extension of the file,
/// the ranking where it is asked for, and a blank line.
pub open spec fn block_lines(r: ResultView, debug: bool) -> Seq<Seq<char>> {
    seq!["File: "@ + r.file] + (if r.node_type == "file"@ {
        seq![]
    } else {
        seq![
            "Lines: "@ + decimal_digits(r.lines.0 as nat) + seq!['-'] + decimal_digits(
                r.lines.1 as nat,
            ),
        ]
    }) + seq![seq!['`', '`', '`'] + extension(r.file), r.code, seq!['`', '`', '`']] + (if debug {
        debug_lines(r)
    } else {
        seq![]
    }) + seq![seq!['\n']]
}

/// The lines of the first `k` blocks.
pub open spec fn blocks_lines(results: Seq<ResultView>, debug: bool, k: int) -> Seq<Seq<char>>
    decreases k,
{
    if k <= 0 || k > results.len() {
        seq![]
    } else {
        blocks_lines(results, debug, k - 1) + block_lines(results[k - 1], debug)
    }
}

/// The rendering of a result set: the lines of every block, then the number
/// of blocks and the bytes and tokens of their code.
pub open spec fn rendering(results: Seq<ResultView>, debug: bool) -> Seq<Seq<char>> {
    blocks_lines(results, debug, results.len() as int) + seq![
        "Found "@ + decimal_digits(results.len()) + " search results"@,
        numbered("Total bytes returned: "@, clamp(total_bytes(results)) as nat),
        numbered("Total tokens returned: "@, clamp(total_tokens(results)) as nat),
    ]
}

fn push_debug(lines: &mut Vec<String>, r: &SearchResult)
    ensures
        texts(final(lines)@) == texts(old(lines)@) + debug_lines(r@),
{
    match r.ranking {
        None => {
            assert(texts(lines@) =~= texts(old(lines)@) + debug_lines(r@));
        },
        Some(rank) => {
            lines.push(number_line("Rank: ", rank.rank as u128));
            lines.push(number_line("Combined Score: ", rank.score));
            lines.push(number_line("TF-IDF Score: ", rank.tfidf_score as u128));
            lines.push(number_line("TF-IDF Rank: ", rank.tfidf_rank as u128));
            lines.push(number_line("BM25 Score: ", rank.bm25_score as u128));
            lines.push(number_line("BM25 Rank: ", rank.bm25_rank as u128));
            match r.stats {
                None => {},
                Some(s) => {
                    lines.push(number_line("File Unique Terms: ", s.file_unique_terms as u128));
                    lines.push(number_line("File Total Matches: ", s.file_total_matches as u128));
                    lines.push(number_line("File Match Rank: ", s.file_match_rank as u128));
                    lines.push(number_line("Block Unique Terms: ", s.block_unique_terms as u128));
                    lines.push(number_line("Block Total Matches: ", s.block_total_matches as u128));
                },
            }
            let mut kind = String::from_str("Type: ");
            kind.append(r.node_type.as_str());
            lines.push(kind);
            assert(texts(lines@) =~= texts(old(lines)@) + debug_lines(r@));
        },
    }
}

fn push_block(lines: &mut Vec<String>, r: &SearchResult, debug: bool)
    ensures
        texts(final(lines)@) == texts(old(lines)@) + block_lines(r@, debug),
{
    let mut head = String::from_str("File: ");
    head.append(r.file.as_str());
    lines.push(head);
    let whole = same_chars(&chars_of(r.node_type.as_str()), &chars_of("file"));
    if !whole {
        let mut range = String::from_str("Lines: ");
        push_decimal(&mut range, r.lines.0 as u128);
        range.push('-');
        push_decimal(&mut range, r.lines.1 as u128);
        assert(range@ =~= "Lines: "@ + decimal_digits(r.lines.0 as nat) + seq!['-']
            + decimal_digits(r.lines.1 as nat));
        lines.push(range);
    }
    let mut fence = String::new();
    fence.push('`');
    fence.push('`');
    fence.push('`');
    let mut open = fence.clone();
    push_extension(&mut open, r.file.as_str());
    assert(fence@ =~= seq!['`', '`', '`']);
    lines.push(open);
    lines.push(r.code.clone());
    lines.push(fence);
    let ghost before = texts(lines@);
    if debug {
        push_debug(lines, r);
    }
    let ghost middle = texts(lines@);
    let mut blank = String::new();
    blank.push('\n');
    assert(blank@ =~= seq!['\n']);
    lines.push(blank);
    proof {
        assert(texts(lines@) =~= middle + seq![seq!['\n']]);
        assert(texts(lines@) =~= texts(old(lines)@) + block_lines(r@, debug));
    }
}

/// Renders a result set as lines of text. With `debug_mode` every ranked
/// block also shows its ranks and term statistics.
pub fn format_and_print_search_results(results: &Vec<SearchResult>, debug_mode: bool) -> (lines: Vec<
    String,
>)
    ensures
        texts(lines@) == rendering(views(results@), debug_mode),
{
    let ghost vs = views(results@);
    let mut lines: Vec<String> = Vec::new();
    let mut bytes: usize = 0;
    let mut tokens: usize = 0;
    let mut i: usize = 0;
    proof {
        assert(vs.take(0) =~= Seq::<ResultView>::empty());
        assert(texts(lines@) =~= blocks_lines(vs, debug_mode, 0));
    }
    while i < results.len()
        invariant
            i <= results.len(),
            vs == views(results@),
            texts(lines@) == blocks_lines(vs, debug_mode, i as int),
            bytes == clamp(total_bytes(vs.take(i as int))),
            tokens == clamp(total_tokens(vs.take(i as int))),
        decreases results.len() - i,
    {
        let r = &results[i];
        proof {
            assert(vs.take(i + 1).drop_last() =~= vs.take(i as int));
            assert(vs.take(i + 1).last() == r@);
            assert(vs[i as int] == r@);
        }
        push_block(&mut lines, r, debug_mode);
        bytes = capped_sum(bytes, r.code.as_str().as_bytes().len());
        tokens = capped_sum(tokens, count_tokens(r.code.as_str()));
        i += 1;
    }
    assert(vs.take(vs.len() as int) =~= vs);
    let ghost body = texts(lines@);
    let mut found = String::from_str("Found ");
    push_decimal(&mut found, results.len() as u128);
    found.append(" search results");
    lines.push(found);
    lines.push(number_line("Total bytes returned: ", bytes as u128));
    lines.push(number_line("Total tokens returned: ", tokens as u128));
    assert(texts(lines@) =~= rendering(vs, debug_mode));
    lines
}

/// The name of a reranker.
pub open spec fn reranker_name(r: Reranker) -> Seq<char> {
    match r {
        Reranker::Hybrid => "hybrid"@,
        Reranker::Tfidf => "tfidf"@,
        Reranker::Bm25 => "bm25"@,
        Reranker::Hybrid2 => "hybrid2"@,
    }
}

/// An entry if the condition holds.
pub open spec fn entry_if(condition: bool, text: Seq<char>) -> Seq<Seq<char>> {
    if condition {
        seq![text]
    } else {
        seq![]
    }
}

/// The options of a search that differ from their defaults, as the header of
/// a search shows them.
pub open spec fn option_notes(o: SearchOptions) -> Seq<Seq<char>> {
    entry_if(o.files_only, "Files only"@) + entry_if(o.exclude_filenames, "Exclude filenames"@)
        + entry_if(!(o.reranker is Hybrid), "Reranker: "@ + reranker_name(o.reranker)) + entry_if(
        o.exact || !o.frequency_search,
        "Frequency search disabled"@,
    ) + entry_if(o.exact, "Exact match"@) + entry_if(o.allow_tests, "Including tests"@) + entry_if(
        o.no_merge,
        "No block merging"@,
    ) + (match o.merge_threshold {
        Some(t) => seq![numbered("Merge threshold: "@, t as nat)],
        None => seq![],
    }) + entry_if(o.dry_run, "Dry run (file names and lines only)"@) + (match o.session {
        Some(s) => seq!["Session: "@ + s@],
        None => seq![],
    })
}

fn push_if(notes: &mut Vec<String>, condition: bool, text: &str)
    ensures
        texts(final(notes)@) == texts(old(notes)@) + entry_if(condition, text@),
{
    if condition {
        notes.push(String::from_str(text));
        assert(texts(notes@) =~= texts(old(notes)@) + entry_if(condition, text@));
    } else {
        assert(texts(notes@) =~= texts(old(notes)@) + entry_if(condition, text@));
    }
}

/// Lists the options of a search that differ from their defaults.
pub fn advanced_options(options: &SearchOptions) -> (notes: Vec<String>)
    ensures
        texts(notes@) == option_notes(*options),
{
    let mut notes: Vec<String> = Vec::new();
    assert(texts(notes@) =~= Seq::<Seq<char>>::empty());
    push_if(&mut notes, options.files_only, "Files only");
    push_if(&mut notes, options.exclude_filenames, "Exclude filenames");
    let ghost a = texts(notes@);
    match options.reranker {
        Reranker::Hybrid => {},
        Reranker::Tfidf => {
            let mut s = String::from_str("Reranker: ");
            s.append("tfidf");
            notes.push(s);
        },
        Reranker::Bm25 => {
            let mut s = String::from_str("Reranker: ");
            s.append("bm25");
            notes.push(s);
        },
        Reranker::Hybrid2 => {
            let mut s = String::from_str("Reranker: ");
            s.append("hybrid2");
            notes.push(s);
        },
    }
    assert(texts(notes@) =~= a + entry_if(
        !(options.reranker is Hybrid),
        "Reranker: "@ + reranker_name(options.reranker),
    ));
    push_if(&mut notes, options.exact || !options.frequency_search, "Frequency search disabled");
    push_if(&mut notes, options.exact, "Exact match");
    push_if(&mut notes, options.allow_tests, "Including tests");
    push_if(&mut notes, options.no_merge, "No block merging");
    let ghost b = texts(notes@);
    match options.merge_threshold {
        Some(t) => {
            notes.push(number_line("Merge threshold: ", t as u128));
            assert(texts(notes@) =~= b + seq![numbered("Merge threshold: "@, t as nat)]);
        },
        None => {
            assert(texts(notes@) =~= b + Seq::<Seq<char>>::empty());
        },
    }
    push_if(&mut notes, options.dry_run, "Dry run (file names and lines only)");
    let ghost c = texts(notes@);
    match &options.session {
        Some(s) => {
            let mut line = String::from_str("Session: ");
            line.append(s.as_str());
            notes.push(line);
            assert(texts(notes@) =~= c + seq!["Session: "@ + s@]);
        },
        None => {
            assert(texts(notes@) =~= c + Seq::<Seq<char>>::empty());
        },
    }
    notes
}

/// A line of the report of a search, with the way it is shown.
pub enum ReportLine {
    /// Text as it stands.
    Plain(String),
    /// A notice, set off from the results.
    Notice(String),
    /// One of the limits that were applied: its name and its value.
    Limit(String, usize),
    /// A count with its name.
    Count(String, usize),
    /// The place of the line that tells how long the search took.
    Elapsed,
}

/// A line of the report with its text as a character sequence.
pub enum LineView {
    Plain(Seq<char>),
    Notice(Seq<char>),
    Limit(Seq<char>, usize),
    Count(Seq<char>, usize),
    Elapsed,
}

impl View for ReportLine {
    type V = LineView;

    open spec fn view(&self) -> LineView {
        match *self {
            ReportLine::Plain(s) => LineView::Plain(s@),
            ReportLine::Notice(s) => LineView::Notice(s@),
            ReportLine::Limit(s, n) => LineView::Limit(s@, n),
            ReportLine::Count(s, n) => LineView::Count(s@, n),
            ReportLine::Elapsed => LineView::Elapsed,
        }
    }
}

/// The views of the lines of a report.
pub open spec fn line_views(lines: Seq<ReportLine>) -> Seq<LineView> {
    lines.map_values(|l: ReportLine| l@)
}

/// Texts as plain lines of a report.
pub open spec fn plain(lines: Seq<Seq<char>>) -> Seq<LineView> {
    lines.map_values(|l: Seq<char>| LineView::Plain(l))
}

/// The results without their code, as a dry run shows them.
pub open spec fn without_code(results: Seq<ResultView>) -> Seq<ResultView> {
    results.map_values(|r: ResultView| ResultView { code: Seq::<char>::empty(), ..r })
}

/// The line of one limit, if it is set.
pub open spec fn limit_entry(name: Seq<char>, value: Option<usize>) -> Seq<LineView> {
    match value {
        Some(v) => seq![LineView::Limit(name, v)],
        None => seq![],
    }
}

/// What the report says of the limits: nothing unless they cut a block off.
pub open spec fn limits_report(cut_off: usize, limits: Option<SearchLimits>) -> Seq<LineView> {
    match limits {
        Some(l) => if cut_off > 0 {
            seq![LineView::Plain(Seq::<char>::empty()), LineView::Notice("Limits applied:"@)]
                + limit_entry("Max results:"@, l.max_results) + limit_entry(
                "Max bytes:"@,
                l.max_bytes,
            ) + limit_entry("Max tokens:"@, l.max_tokens) + seq![
                LineView::Plain(Seq::<char>::empty()),
                LineView::Count("Skipped files due to limits:"@, cut_off),
            ]
        } else {
            seq![]
        },
        None => seq![],
    }
}

/// What the report says of the session cache: the number of blocks that it
/// held back, if it held one back.
pub open spec fn held_report(held_back: Option<usize>) -> Seq<LineView> {
    match held_back {
        Some(c) => if c > 0 {
            seq![
                LineView::Plain(Seq::<char>::empty()),
                LineView::Count("Skipped blocks due to session cache:"@, c),
            ]
        } else {
            seq![]
        },
        None => seq![],
    }
}

/// The report of a search. Without results it is the notice that none was
/// found and the time taken; for a structured format it is the rendering of
/// the empty result set. With results it is the time taken, the rendering of
/// the results, without their code in a dry run, and what the limits cut off
/// and the session cache held back.
pub open spec fn report(
    results: Seq<ResultView>,
    cut_off: usize,
    limits: Option<SearchLimits>,
    held_back: Option<usize>,
    structured: bool,
    dry_run: bool,
    debug: bool,
) -> Seq<LineView> {
    if results.len() == 0 {
        if structured {
            plain(rendering(results, debug))
        } else {
            seq![LineView::Notice("No results found."@), LineView::Elapsed]
        }
    } else {
        (if structured {
            seq![]
        } else {
            seq![LineView::Elapsed, LineView::Plain(Seq::<char>::empty())]
        }) + plain(
            rendering(
                if dry_run {
                    without_code(results)
                } else {
                    results
                },
                debug,
            ),
        ) + limits_report(cut_off, limits) + held_report(held_back)
    }
}

fn push_plain(lines: &mut Vec<ReportLine>, added: Vec<String>)
    ensures
        line_views(final(lines)@) == line_views(old(lines)@) + plain(texts(added@)),
{
    let ghost all = added@;
    let ghost before = line_views(lines@);
    assert(line_views(lines@) =~= before + plain(texts(all.take(0))));
    for text in it: added.into_iter()
        invariant
            it.seq() == all,
            line_views(lines@) == before + plain(texts(all.take(it.index()))),
    {
        let ghost k = it.index();
        let ghost was = line_views(lines@);
        lines.push(ReportLine::Plain(text));
        proof {
            assert(line_views(lines@) =~= was.push(LineView::Plain(all[k]@)));
            assert(plain(texts(all.take(k + 1))) =~= plain(texts(all.take(k))).push(
                LineView::Plain(all[k]@),
            ));
        }
    }
    assert(all.take(all.len() as int) =~= all);
}

fn push_limit(lines: &mut Vec<ReportLine>, name: &str, value: Option<usize>)
    ensures
        line_views(final(lines)@) == line_views(old(lines)@) + limit_entry(name@, value),
{
    match value {
        Some(v) => {
            lines.push(ReportLine::Limit(String::from_str(name), v));
            assert(line_views(lines@) =~= line_views(old(lines)@) + limit_entry(name@, value));
        },
        None => {
            assert(line_views(lines@) =~= line_views(old(lines)@) + limit_entry(name@, value));
        },
    }
}

/// The results without their code.
pub fn strip_code(results: &Vec<SearchResult>) -> (out: Vec<SearchResult>)
    ensures
        views(out@) == without_code(views(results@)),
{
    let mut out: Vec<SearchResult> = Vec::new();
    let mut i: usize = 0;
    while i < results.len()
        invariant
            i <= results.len(),
            out@.len() == i,
            forall|k: int|
                0 <= k < i ==> (#[trigger] out@[k])@ == (ResultView {
                    code: Seq::<char>::empty(),
                    ..results@[k]@
                }),
        decreases results.len() - i,
    {
        let mut r = results[i].duplicate();
        r.code = String::new();
        out.push(r);
        i += 1;
    }
    assert(views(out@) =~= without_code(views(results@)));
    out
}

/// The report of a search as lines to show: what was found, or that nothing
/// was, and what the limits and the session cache kept away.
pub fn search_report(
    limited: &LimitedSearchResults,
    structured: bool,
    dry_run: bool,
    debug_mode: bool,
) -> (lines: Vec<ReportLine>)
    ensures
        line_views(lines@) == report(
            views(limited.results@),
            limited.skipped_files@.len() as usize,
            limited.limits_applied,
            limited.cached_blocks_skipped,
            structured,
            dry_run,
            debug_mode,
        ),
{
    let mut lines: Vec<ReportLine> = Vec::new();
    assert(line_views(lines@) =~= Seq::<LineView>::empty());
    if limited.results.len() == 0 {
        if structured {
            push_plain(&mut lines, format_and_print_search_results(&limited.results, debug_mode));
            assert(line_views(lines@) =~= plain(rendering(views(limited.results@), debug_mode)));
        } else {
            lines.push(ReportLine::Notice(String::from_str("No results found.")));
            lines.push(ReportLine::Elapsed);
            assert(line_views(lines@) =~= seq![
                LineView::Notice("No results found."@),
                LineView::Elapsed,
            ]);
        }
        return lines;
    }
    if !structured {
        lines.push(ReportLine::Elapsed);
        lines.push(ReportLine::Plain(String::new()));
    }
    let ghost head = line_views(lines@);
    assert(head =~= if structured {
        Seq::<LineView>::empty()
    } else {
        seq![LineView::Elapsed, LineView::Plain(Seq::<char>::empty())]
    });
    let rendered = if dry_run {
        let shown = strip_code(&limited.results);
        format_and_print_search_results(&shown, debug_mode)
    } else {
        format_and_print_search_results(&limited.results, debug_mode)
    };
    push_plain(&mut lines, rendered);
    let ghost body = line_views(lines@);
    let cut_off: usize = limited.skipped_files.len();
    match limited.limits_applied {
        Some(l) => {
            if cut_off > 0 {
                lines.push(ReportLine::Plain(String::new()));
                lines.push(ReportLine::Notice(String::from_str("Limits applied:")));
                let ghost opened = line_views(lines@);
                assert(opened =~= body + seq![
                    LineView::Plain(Seq::<char>::empty()),
                    LineView::Notice("Limits applied:"@),
                ]);
                push_limit(&mut lines, "Max results:", l.max_results);
                push_limit(&mut lines, "Max bytes:", l.max_bytes);
                push_limit(&mut lines, "Max tokens:", l.max_tokens);
                let ghost listed = line_views(lines@);
                lines.push(ReportLine::Plain(String::new()));
                lines.push(
                    ReportLine::Count(String::from_str("Skipped files due to limits:"), cut_off),
                );
                assert(line_views(lines@) =~= listed + seq![
                    LineView::Plain(Seq::<char>::empty()),
                    LineView::Count("Skipped files due to limits:"@, cut_off),
                ]);
                assert(line_views(lines@) =~= body + limits_report(cut_off, limited.limits_applied));
            }
        },
        None => {},
    }
    assert(line_views(lines@) =~= body + limits_report(cut_off, limited.limits_applied));
    let ghost limited_part = line_views(lines@);
    match limited.cached_blocks_skipped {
        Some(c) => {
            if c > 0 {
                lines.push(ReportLine::Plain(String::new()));
                lines.push(
                    ReportLine::Count(String::from_str("Skipped blocks due to session cache:"), c),
                );
                assert(line_views(lines@) =~= limited_part + seq![
                    LineView::Plain(Seq::<char>::empty()),
                    LineView::Count("Skipped blocks due to session cache:"@, c),
                ]);
            }
        },
        None => {},
    }
    assert(line_views(lines@) =~= limited_part + held_report(limited.cached_blocks_skipped));
    lines
}

} // verus!
