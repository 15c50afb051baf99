//! Capping a ranked result set by count, bytes and tokens.

use crate::models::{views, LimitedSearchResults, ResultView, SearchLimits, SearchResult};
use vstd::utf8::encode_utf8;
use crate::terms::{is_word_char, word_char};
use crate::text::{chars_of, is_space, space};
use vstd::prelude::*;

verus! {

/// The number of tokens of a text: every maximal run of word characters is
/// one token, every other character that is no white space is one token of
/// its own.
pub open spec fn token_count(s: Seq<char>) -> nat
    decreases s.len(),
{
    if s.len() == 0 {
        0
    } else {
        let rest = token_count(s.drop_last());
        let c = s.last();
        if is_space(c) {
            rest
        } else if is_word_char(c) && s.len() >= 2 && is_word_char(s[s.len() - 2]) {
            rest
        } else {
            rest + 1
        }
    }
}

/// Counts the tokens of a text.
pub fn count_tokens(text: &str) -> (n: usize)
    ensures
        n == token_count(text@),
{
    let chars = chars_of(text);
    let mut n: usize = 0;
    let mut in_word: bool = false;
    let mut i: usize = 0;
    assert(chars@.take(0) =~= Seq::<char>::empty());
    while i < chars.len()
        invariant
            i <= chars.len(),
            n == token_count(chars@.take(i as int)),
            n <= i,
            in_word == (i > 0 && is_word_char(chars@[i - 1])),
        decreases chars.len() - i,
    {
        let c = chars[i];
        proof {
            let next = chars@.take(i + 1);
            assert(next.drop_last() =~= chars@.take(i as int));
            assert(next.last() == c);
            if i > 0 {
                assert(next[next.len() - 2] == chars@[i - 1]);
            }
        }
        let word = word_char(c);
        if space(c) {
        } else if word && in_word {
        } else {
            n += 1;
        }
        in_word = word;
        i += 1;
    }
    assert(chars@.take(chars.len() as int) =~= chars@);
    n
}

/// The bytes of the code of all blocks together.
pub open spec fn total_bytes(results: Seq<ResultView>) -> nat
    decreases results.len(),
{
    if results.len() == 0 {
        0
    } else {
        total_bytes(results.drop_last()) + encode_utf8(results.last().code).len()
    }
}

/// The tokens of the code of all blocks together.
pub open spec fn total_tokens(results: Seq<ResultView>) -> nat
    decreases results.len(),
{
    if results.len() == 0 {
        0
    } else {
        total_tokens(results.drop_last()) + token_count(results.last().code)
    }
}

/// `n` is within the cap.
pub open spec fn under(n: nat, cap: Option<usize>) -> bool {
    match cap {
        Some(m) => n <= m,
        None => true,
    }
}

/// The first `k` blocks fit the limits.
pub open spec fn fits(results: Seq<ResultView>, k: int, limits: SearchLimits) -> bool {
    &&& under(k as nat, limits.max_results)
    &&& under(total_bytes(results.take(k)), limits.max_bytes)
    &&& under(total_tokens(results.take(k)), limits.max_tokens)
}

/// The number of blocks kept, counting from the first `k` that are known to
/// fit: blocks are taken until the next one would break a limit.
pub open spec fn kept_from(results: Seq<ResultView>, limits: SearchLimits, k: int) -> int
    decreases results.len() - k,
{
    if k < 0 || k >= results.len() {
        results.len() as int
    } else if fits(results, k + 1, limits) {
        kept_from(results, limits, k + 1)
    } else {
        k
    }
}

/// The number of blocks that the limits let through.
pub open spec fn kept(results: Seq<ResultView>, limits: SearchLimits) -> int {
    kept_from(results, limits, 0)
}

/// `tight` allows nothing that `loose` forbids.
pub open spec fn cap_tighter(tight: Option<usize>, loose: Option<usize>) -> bool {
    match (tight, loose) {
        (_, None) => true,
        (None, Some(_)) => false,
        (Some(a), Some(b)) => a <= b,
    }
}

/// Every cap of `tight` is at most the cap of `loose`.
pub open spec fn tighter(tight: SearchLimits, loose: SearchLimits) -> bool {
    &&& cap_tighter(tight.max_results, loose.max_results)
    &&& cap_tighter(tight.max_bytes, loose.max_bytes)
    &&& cap_tighter(tight.max_tokens, loose.max_tokens)
}

proof fn lemma_kept_from_range(results: Seq<ResultView>, limits: SearchLimits, k: int)
    requires
        0 <= k <= results.len(),
    ensures
        k <= kept_from(results, limits, k) <= results.len(),
    decreases results.len() - k,
{
    if k < results.len() && fits(results, k + 1, limits) {
        lemma_kept_from_range(results, limits, k + 1);
    }
}

proof fn lemma_kept_from_monotone(
    results: Seq<ResultView>,
    tight: SearchLimits,
    loose: SearchLimits,
    k: int,
)
    requires
        0 <= k <= results.len(),
        tighter(tight, loose),
    ensures
        kept_from(results, tight, k) <= kept_from(results, loose, k),
    decreases results.len() - k,
{
    if k < results.len() {
        if fits(results, k + 1, tight) {
            assert(fits(results, k + 1, loose));
            lemma_kept_from_monotone(results, tight, loose, k + 1);
        } else {
            lemma_kept_from_range(results, loose, k);
        }
    }
}

/// Tightening a limit never brings in a block that the looser limits left
/// out: what the tighter limits keep is a beginning of what the looser keep.
pub proof fn lemma_limits_monotone(
    results: Seq<ResultView>,
    tight: SearchLimits,
    loose: SearchLimits,
)
    requires
        tighter(tight, loose),
    ensures
        0 <= kept(results, tight) <= kept(results, loose) <= results.len(),
        results.take(kept(results, tight)) == results.take(kept(results, loose)).take(
            kept(results, tight),
        ),
        forall|r: ResultView|
            results.take(kept(results, tight)).contains(r) ==> results.take(
                kept(results, loose),
            ).contains(r),
{
    lemma_kept_from_monotone(results, tight, loose, 0);
    lemma_kept_from_range(results, tight, 0);
    lemma_kept_from_range(results, loose, 0);
    let a = kept(results, tight);
    let b = kept(results, loose);
    assert(results.take(a) =~= results.take(b).take(a));
    assert forall|r: ResultView| results.take(a).contains(r) implies results.take(b).contains(
        r,
    ) by {
        let i = choose|i: int| 0 <= i < a && results.take(a)[i] == r;
        assert(results.take(b)[i] == r);
    }
}

fn exceeds(n: usize, cap: Option<usize>) -> (r: bool)
    ensures
        r == !under(n as nat, cap),
{
    match cap {
        Some(m) => n > m,
        None => false,
    }
}

/// Keeps the blocks, in their order, up to the first one with which the
/// count would pass `max_results`, the bytes of code `max_bytes` or the tokens
/// of code `max_tokens`; that block and all after it are reported as skipped.
pub fn apply_limits(
    results: Vec<SearchResult>,
    max_results: Option<usize>,
    max_bytes: Option<usize>,
    max_tokens: Option<usize>,
) -> (out: LimitedSearchResults)
    ensures
        out.results@ == results@.take(
            kept(views(results@), SearchLimits { max_results, max_bytes, max_tokens }),
        ),
        out.skipped_files@ == results@.skip(
            kept(views(results@), SearchLimits { max_results, max_bytes, max_tokens }),
        ),
        0 <= kept(views(results@), SearchLimits { max_results, max_bytes, max_tokens })
            <= results@.len(),
        out.limits_applied == if max_results is Some || max_bytes is Some || max_tokens is Some {
            Some(SearchLimits { max_results, max_bytes, max_tokens })
        } else {
            None
        },
        out.cached_blocks_skipped is None,
{
    let ghost all = results@;
    let ghost vs = views(results@);
    let ghost limits = SearchLimits { max_results, max_bytes, max_tokens };
    let mut kept_results: Vec<SearchResult> = Vec::new();
    let mut skipped: Vec<SearchResult> = Vec::new();
    let mut bytes: usize = 0;
    let mut tokens: usize = 0;
    let mut open: bool = true;
    let n: usize = results.len();
    proof {
        lemma_kept_from_range(vs, limits, 0);
        assert(all.take(0) =~= Seq::<SearchResult>::empty());
        assert(vs.take(0) =~= Seq::<ResultView>::empty());
        assert(all.skip(0).take(0) =~= Seq::<SearchResult>::empty());
    }
    for r in it: results.into_iter()
        invariant
            it.seq() == all,
            vs == views(all),
            limits == (SearchLimits { max_results, max_bytes, max_tokens }),
            open ==> kept_results@ == all.take(it.index()) && skipped@.len() == 0 && kept(
                vs,
                limits,
            ) == kept_from(vs, limits, it.index()) && (max_bytes is Some ==> bytes == total_bytes(
                vs.take(it.index()),
            )) && (max_tokens is Some ==> tokens == total_tokens(vs.take(it.index()))),
            !open ==> kept_results@ == all.take(kept(vs, limits)) && kept(vs, limits)
                <= it.index() && skipped@ == all.subrange(kept(vs, limits), it.index()),
            0 <= kept(vs, limits) <= all.len(),
            all.len() == n,
    {
        let ghost i = it.index();
        proof {
            lemma_kept_from_range(vs, limits, 0);
            assert(all.take(i + 1) =~= all.take(i).push(r));
            assert(vs.take(i + 1).drop_last() =~= vs.take(i));
            assert(vs.take(i + 1).last() == r@);
        }
        if open {
            let code_bytes: usize = r.code.as_str().as_bytes().len();
            let code_tokens: usize = count_tokens(r.code.as_str());
            assert(i < all.len());
            let count_over: bool = exceeds(kept_results.len() + 1, max_results);
            let bytes_over: bool = max_bytes.is_some() && (code_bytes > usize::MAX - bytes
                || exceeds(bytes + code_bytes, max_bytes));
            let tokens_over: bool = max_tokens.is_some() && (code_tokens > usize::MAX - tokens
                || exceeds(tokens + code_tokens, max_tokens));
            assert(encode_utf8(r@.code).len() == code_bytes);
            assert(total_bytes(vs.take(i + 1)) == total_bytes(vs.take(i)) + encode_utf8(
                r@.code,
            ).len());
            assert(total_tokens(vs.take(i + 1)) == total_tokens(vs.take(i)) + token_count(
                r@.code,
            ));
            assert((count_over || bytes_over || tokens_over) == !fits(vs, i + 1, limits));
            if count_over || bytes_over || tokens_over {
                open = false;
                skipped.push(r);
                assert(skipped@ =~= all.subrange(kept(vs, limits), i + 1));
            } else {
                bytes = if max_bytes.is_some() {
                    bytes + code_bytes
                } else {
                    0
                };
                tokens = if max_tokens.is_some() {
                    tokens + code_tokens
                } else {
                    0
                };
                kept_results.push(r);
            }
        } else {
            skipped.push(r);
            assert(skipped@ =~= all.subrange(kept(vs, limits), i + 1));
        }
    }
    proof {
        lemma_kept_from_range(vs, limits, 0);
        let k = kept(vs, limits);
        if open {
            assert(all.take(all.len() as int) =~= all);
            assert(skipped@ =~= all.skip(k));
        } else {
            assert(all.subrange(k, all.len() as int) =~= all.skip(k));
        }
    }
    let limits_applied = if max_results.is_some() || max_bytes.is_some() || max_tokens.is_some() {
        Some(SearchLimits { max_results, max_bytes, max_tokens })
    } else {
        None
    };
    LimitedSearchResults {
        results: kept_results,
        skipped_files: skipped,
        limits_applied,
        cached_blocks_skipped: None,
    }
}

} // verus!
