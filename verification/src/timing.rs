//! Stage timings of one search and their human-readable rendering.

use crate::text::{decimal_digits, push_decimal, texts};
use std::time::Duration;
use vstd::prelude::*;
use vstd::string::StringExecFns;

verus! {

/// The number of whole milliseconds that a duration holds.
pub uninterp spec fn duration_millis(d: Duration) -> nat;

/// The text that formatting the length of a duration in seconds with two
/// decimals, followed by the unit `s`, gives.
pub uninterp spec fn seconds_text(d: Duration) -> Seq<char>;

/// `Duration::as_millis` returns the number of whole milliseconds that the
/// duration holds; the contract gives that number its name.
pub assume_specification[ Duration::as_millis ](d: &Duration) -> (n: u128)
    ensures
        n == duration_millis(*d),
;

/// A text that starts with a digit and ends with a digit and the unit `s`,
/// as every rendering of a number of seconds with two decimals does.
pub open spec fn seconds_shaped(text: Seq<char>) -> bool {
    &&& text.len() >= 2
    &&& '0' <= text[0] <= '9'
    &&& '0' <= text[text.len() - 2] <= '9'
    &&& text.last() == 's'
}

/// Renders the duration through `Duration::as_secs_f64` and the standard
/// formatter with a precision of two. How the formatter rounds a binary
/// fraction is not restated here: the contract names the outcome, and says
/// of its shape what holds of every number of seconds that is not negative.
#[verifier::external_body]
fn seconds_two_decimals(d: Duration) -> (out: String)
    ensures
        out@ == seconds_text(d),
        seconds_shaped(out@),
{
    format!("{:.2}s", d.as_secs_f64())
}

/// How long each stage of a search took; a stage that did not run holds `None`.
pub struct SearchTimings {
    pub query_preprocessing: Option<Duration>,
    pub pattern_generation: Option<Duration>,
    pub file_searching: Option<Duration>,
    pub filename_matching: Option<Duration>,
    pub early_filtering: Option<Duration>,
    pub early_caching: Option<Duration>,
    pub result_processing: Option<Duration>,
    pub result_ranking: Option<Duration>,
    pub limit_application: Option<Duration>,
    pub block_merging: Option<Duration>,
    pub final_caching: Option<Duration>,
    pub total_search_time: Option<Duration>,
}

/// The rendering of a duration: whole milliseconds below one second, seconds
/// with two decimals from there on.
pub open spec fn duration_text(d: Duration) -> Seq<char> {
    rendered(duration_millis(d), seconds_text(d))
}

/// The rendering for a number of whole milliseconds and the seconds text
/// that belongs to the same duration: the milliseconds with the unit `ms`
/// below one second, the seconds text from there on.
pub open spec fn rendered(millis: nat, seconds: Seq<char>) -> Seq<char> {
    if millis < 1000 {
        decimal_digits(millis) + seq!['m', 's']
    } else {
        seconds
    }
}

/// The text ends with the unit `ms`.
pub open spec fn in_millis(text: Seq<char>) -> bool {
    text.len() >= 2 && text[text.len() - 2] == 'm' && text.last() == 's'
}

/// Chooses between the two renderings of a duration.
pub fn render_duration(millis: u128, seconds: String) -> (out: String)
    ensures
        out@ == rendered(millis as nat, seconds@),
        millis < 1000 ==> in_millis(out@) && '0' <= out@[0] <= '9',
{
    if millis < 1000 {
        let mut out = String::new();
        push_decimal(&mut out, millis);
        out.push('m');
        out.push('s');
        assert(out@ =~= decimal_digits(millis as nat) + seq!['m', 's']);
        proof {
            crate::text::lemma_decimal_digits(millis as nat);
            assert(out@[0] == decimal_digits(millis as nat)[0]);
        }
        out
    } else {
        seconds
    }
}

/// Formats a duration for people: `432ms`, `1.50s`. The text starts with a
/// digit, and it ends in `ms` exactly if the duration is below one second.
pub fn format_duration(duration: Duration) -> (out: String)
    ensures
        out@ == duration_text(duration),
        out@.len() >= 2,
        '0' <= out@[0] <= '9',
        in_millis(out@) <==> duration_millis(duration) < 1000,
{
    render_duration(duration.as_millis(), seconds_two_decimals(duration))
}

/// The report line of one stage, if the stage ran.
pub open spec fn stage_lines(label: Seq<char>, d: Option<Duration>) -> Seq<Seq<char>> {
    match d {
        Some(d) => seq![label + duration_text(d)],
        None => seq![],
    }
}

/// The lines of the timing report: a header, one line for each stage that ran,
/// in pipeline order, and a footer.
pub open spec fn report_lines(t: SearchTimings) -> Seq<Seq<char>> {
    seq!["\n=== SEARCH TIMING INFORMATION ==="@]
        + stage_lines("Query preprocessing:   "@, t.query_preprocessing)
        + stage_lines("Pattern generation:    "@, t.pattern_generation)
        + stage_lines("File searching:        "@, t.file_searching)
        + stage_lines("Filename matching:     "@, t.filename_matching)
        + stage_lines("Early AST filtering:   "@, t.early_filtering)
        + stage_lines("Early caching:         "@, t.early_caching)
        + stage_lines("Result processing:     "@, t.result_processing)
        + stage_lines("Result ranking:        "@, t.result_ranking)
        + stage_lines("Limit application:     "@, t.limit_application)
        + stage_lines("Block merging:         "@, t.block_merging)
        + stage_lines("Final caching:         "@, t.final_caching)
        + stage_lines("Total search time:     "@, t.total_search_time)
        + seq!["===================================\n"@]
}

fn push_stage(lines: &mut Vec<String>, label: &str, d: Option<Duration>)
    ensures
        texts(final(lines)@) == texts(old(lines)@) + stage_lines(label@, d),
{
    match d {
        Some(d) => {
            let mut line = String::from_str(label);
            let text = format_duration(d);
            line.append(text.as_str());
            lines.push(line);
            assert(texts(lines@) =~= texts(old(lines)@) + stage_lines(label@, Some(d)));
        },
        None => {
            assert(texts(lines@) =~= texts(old(lines)@) + stage_lines(label@, d));
        },
    }
}

/// The timing report of a search, line by line; nothing where `debug_mode`
/// is off.
pub fn print_timings(timings: &SearchTimings, debug_mode: bool) -> (lines: Vec<String>)
    ensures
        texts(lines@) == if debug_mode {
            report_lines(*timings)
        } else {
            Seq::<Seq<char>>::empty()
        },
{
    let mut lines: Vec<String> = Vec::new();
    if !debug_mode {
        assert(texts(lines@) =~= Seq::<Seq<char>>::empty());
        return lines;
    }
    lines.push(String::from_str("\n=== SEARCH TIMING INFORMATION ==="));
    assert(texts(lines@) =~= seq!["\n=== SEARCH TIMING INFORMATION ==="@]);
    push_stage(&mut lines, "Query preprocessing:   ", timings.query_preprocessing);
    push_stage(&mut lines, "Pattern generation:    ", timings.pattern_generation);
    push_stage(&mut lines, "File searching:        ", timings.file_searching);
    push_stage(&mut lines, "Filename matching:     ", timings.filename_matching);
    push_stage(&mut lines, "Early AST filtering:   ", timings.early_filtering);
    push_stage(&mut lines, "Early caching:         ", timings.early_caching);
    push_stage(&mut lines, "Result processing:     ", timings.result_processing);
    push_stage(&mut lines, "Result ranking:        ", timings.result_ranking);
    push_stage(&mut lines, "Limit application:     ", timings.limit_application);
    push_stage(&mut lines, "Block merging:         ", timings.block_merging);
    push_stage(&mut lines, "Final caching:         ", timings.final_caching);
    push_stage(&mut lines, "Total search time:     ", timings.total_search_time);
    let ghost before = texts(lines@);
    lines.push(String::from_str("===================================\n"));
    assert(texts(lines@) =~= before + seq!["===================================\n"@]);
    lines
}

} // verus!
