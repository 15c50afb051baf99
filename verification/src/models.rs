//! The records that the pipeline hands from stage to stage.

use crate::hits::copy_numbers;
use vstd::prelude::*;

verus! {

/// How often the terms of the query were found in a block and in its file.
#[derive(Clone, Copy, Debug, PartialEq, Eq, Structural)]
pub struct MatchStats {
    /// The number of distinct terms found in the file.
    pub file_unique_terms: usize,
    /// The number of (term, line) hits in the file.
    pub file_total_matches: usize,
    /// The place of the file among all files, 1 for the file with most hits.
    pub file_match_rank: usize,
    /// The number of distinct terms found in the block.
    pub block_unique_terms: usize,
    /// The number of (term, line) hits in the block.
    pub block_total_matches: usize,
}

/// The annotations that ranking attaches to a block. Scores are integers that
/// order blocks as the lexical scores do; a larger score is a better one.
#[derive(Clone, Copy, Debug, PartialEq, Eq, Structural)]
pub struct Ranking {
    /// The final place, 1 for the best block.
    pub rank: usize,
    /// The score that decided the final place.
    pub score: u128,
    /// The place by TF-IDF alone.
    pub tfidf_rank: usize,
    /// The place by BM25 alone.
    pub bm25_rank: usize,
    /// The integer that stands for the TF-IDF score.
    pub tfidf_score: u64,
    /// The integer that stands for the BM25 score.
    pub bm25_score: u64,
}

/// A block of source code that answers the query.
#[derive(Debug)]
pub struct SearchResult {
    /// The path of the file.
    pub file: String,
    /// The first and the last line of the block, counted from 1.
    pub lines: (usize, usize),
    /// The kind of the block: `function`, `class`, `file`, `line` and the like.
    pub node_type: String,
    /// The text of the lines of the block.
    pub code: String,
    /// The file was selected by its name alone.
    pub matched_by_filename: bool,
    /// The indices of the terms found in the block, in increasing order.
    pub matched_terms: Vec<usize>,
    /// The term statistics, once they are computed.
    pub stats: Option<MatchStats>,
    /// The ranking, once the block is ranked.
    pub ranking: Option<Ranking>,
    /// The place of the file among the files that the search selected.
    pub parent_file_id: usize,
    /// The place of the block among the blocks of its file; together with
    /// `parent_file_id` it names the block within one search.
    pub block_id: usize,
}

/// The caps on a result set; `None` is no cap.
#[derive(Clone, Copy, Debug, PartialEq, Eq, Structural)]
pub struct SearchLimits {
    pub max_results: Option<usize>,
    pub max_bytes: Option<usize>,
    pub max_tokens: Option<usize>,
}

/// A result set after the limits were applied.
#[derive(Debug)]
pub struct LimitedSearchResults {
    /// The blocks that fit, best first.
    pub results: Vec<SearchResult>,
    /// The blocks that did not fit, in their order.
    pub skipped_files: Vec<SearchResult>,
    /// The limits, if there was one at least.
    pub limits_applied: Option<SearchLimits>,
    /// How many blocks the session cache held back, if any.
    pub cached_blocks_skipped: Option<usize>,
}

/// What a result says, with texts as character sequences.
pub struct ResultView {
    pub file: Seq<char>,
    pub lines: (usize, usize),
    pub node_type: Seq<char>,
    pub code: Seq<char>,
    pub matched_by_filename: bool,
    pub matched_terms: Seq<usize>,
    pub stats: Option<MatchStats>,
    pub ranking: Option<Ranking>,
    pub parent_file_id: usize,
    pub block_id: usize,
}

impl View for SearchResult {
    type V = ResultView;

    open spec fn view(&self) -> ResultView {
        ResultView {
            file: self.file@,
            lines: self.lines,
            node_type: self.node_type@,
            code: self.code@,
            matched_by_filename: self.matched_by_filename,
            matched_terms: self.matched_terms@,
            stats: self.stats,
            ranking: self.ranking,
            parent_file_id: self.parent_file_id,
            block_id: self.block_id,
        }
    }
}

/// The views of a sequence of results.
pub open spec fn views(results: Seq<SearchResult>) -> Seq<ResultView> {
    results.map_values(|r: SearchResult| r@)
}

/// The two blocks have the same file and the same lines.
pub open spec fn same_place(a: ResultView, b: ResultView) -> bool {
    a.file == b.file && a.lines == b.lines
}

/// No two of the blocks have the same file and the same lines.
pub open spec fn distinct_places(blocks: Seq<ResultView>) -> bool {
    forall|a: int, b: int|
        0 <= a < b < blocks.len() ==> !same_place(#[trigger] blocks[a], #[trigger] blocks[b])
}

impl SearchResult {
    /// A copy of the result.
    pub fn duplicate(&self) -> (out: SearchResult)
        ensures
            out@ == self@,
            out.file == self.file,
    {
        SearchResult {
            file: self.file.clone(),
            lines: self.lines,
            node_type: self.node_type.clone(),
            code: self.code.clone(),
            matched_by_filename: self.matched_by_filename,
            matched_terms: copy_numbers(&self.matched_terms),
            stats: self.stats,
            ranking: self.ranking,
            parent_file_id: self.parent_file_id,
            block_id: self.block_id,
        }
    }

    /// The block invariant: the first line is at least 1 and not after the last.
    pub open spec fn wf(&self) -> bool {
        1 <= self.lines.0 <= self.lines.1
    }
}

} // verus!
