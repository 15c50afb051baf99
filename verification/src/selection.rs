//! Which files stay in the hit map: the filter by the query expression, and
//! the files that are selected by their name.

use crate::ast::{lemma_excluded_term_bars, lemma_value_of_same_terms, Expr};
use crate::hits::{
    distinct_paths, level, lemma_ordered_unique, none_by_name, ordered, within_lines, FileHits,
    FileView, HitMap, TermLines,
};
use crate::models::{views, ResultView, SearchResult};
use crate::plan::QueryPlan;
use crate::scan::{lines_of, split_lines, SourceFile};
use crate::sequences::{lemma_filter_empty, lemma_filter_none, lemma_filter_push};
use crate::text::{chars_of, contains_chars, fold_chars, folded, occurs_in, slice_chars, texts};
use vstd::prelude::*;
use vstd::string::StringExecFns;

verus! {

/// The term of every hit, in the order of the hits.
pub open spec fn terms_of(pairs: Seq<(usize, usize)>) -> Seq<usize> {
    pairs.map_values(|p: (usize, usize)| p.0)
}

/// The files whose matched terms satisfy the expression, exclusions honoured.
pub open spec fn passes(ast: Expr) -> spec_fn(FileView) -> bool {
    |f: FileView| ast.value(terms_of(f.pairs), true)
}

/// Keeps the files whose set of matched terms satisfies the expression with
/// exclusions honoured, in their order.
pub fn filter_by_query(map: HitMap, ast: &Expr) -> (out: HitMap)
    requires
        map.wf(),
    ensures
        out.wf(),
        out@ == map@.filter(passes(*ast)),
{
    let ghost all = map.files@;
    let ghost vs = map@;
    let ghost keep = passes(*ast);
    let mut out = HitMap { files: Vec::new() };
    proof {
        lemma_filter_empty(keep);
        assert(vs.take(0) =~= Seq::<FileView>::empty());
        assert(out@ =~= Seq::<FileView>::empty());
    }
    for f in it: map.files.into_iter()
        invariant
            it.seq() == all,
            vs == all.map_values(|f: FileHits| f@),
            keep == passes(*ast),
            forall|i: int|
                0 <= i < all.len() ==> (#[trigger] all[i]).hits.wf() && all[i].hits.pairs@.len()
                    > 0,
            distinct_paths(vs),
            out.wf(),
            out@ == vs.take(it.index()).filter(keep),
            forall|a: int, j: int|
                0 <= a < out@.len() && it.index() <= j < vs.len() ==> (#[trigger] out@[a]).path != (
                #[trigger] vs[j]).path,
    {
        let ghost i = it.index();
        let ghost before = out@;
        proof {
            lemma_filter_push(vs.take(i), f@, keep);
            assert(vs.take(i + 1) =~= vs.take(i).push(f@));
            assert(f == all[i]);
        }
        let matched = f.hits.terms();
        proof {
            let listed = terms_of(f.hits.pairs@);
            assert forall|t: usize| matched@.contains(t) <==> listed.contains(t) by {
                assert(matched@.contains(t) <==> f.hits.has_term(t));
                if matched@.contains(t) {
                    let l = choose|l: usize| f.hits.has(t, l);
                    let k = choose|k: int|
                        0 <= k < f.hits.pairs@.len() && f.hits.pairs@[k] == (t, l);
                    assert(listed[k] == t);
                }
                if listed.contains(t) {
                    let k = choose|k: int| 0 <= k < listed.len() && listed[k] == t;
                    assert(f.hits.pairs@[k] == (t, f.hits.pairs@[k].1));
                    assert(f.hits.has(t, f.hits.pairs@[k].1));
                    assert(f.hits.has_term(t));
                }
            }
            lemma_value_of_same_terms(*ast, matched@, listed, true);
        }
        assert(vs[i] == f@);
        if ast.evaluate(&matched, true) {
            let ghost v = f@;
            out.files.push(f);
            proof {
                assert(out@ =~= before.push(v));
                assert forall|a: int, b: int| 0 <= a < b < out@.len() implies (#[trigger] out@[a]).path
                    != (#[trigger] out@[b]).path by {
                    if b < before.len() {
                        assert(out@[a] == before[a] && out@[b] == before[b]);
                    } else {
                        assert(out@[a] == before[a]);
                    }
                }
                assert forall|a: int, j: int|
                    0 <= a < out@.len() && i + 1 <= j < vs.len() implies (#[trigger] out@[a]).path != (
                #[trigger] vs[j]).path by {
                    if a < before.len() {
                        assert(out@[a] == before[a]);
                    }
                }
            }
        }
    }
    assert(vs.take(vs.len() as int) =~= vs);
    out
}

/// The file has a hit of the term.
pub open spec fn holds_term(f: FileView, t: usize) -> bool {
    exists|l: usize| f.pairs.contains((t, l))
}

/// An excluded term that every file holds leaves no file: whatever else the
/// query says, the filter returns the empty map.
pub proof fn lemma_exclusion_leaves_nothing(files: Seq<FileView>, ast: Expr, t: usize)
    requires
        ast.excludes(t),
        forall|i: int| 0 <= i < files.len() ==> holds_term(#[trigger] files[i], t),
    ensures
        files.filter(passes(ast)) == Seq::<FileView>::empty(),
{
    assert forall|i: int| 0 <= i < files.len() implies !passes(ast)(#[trigger] files[i]) by {
        let f = files[i];
        assert(holds_term(f, t));
        let l = choose|l: usize| f.pairs.contains((t, l));
        let k = choose|k: int| 0 <= k < f.pairs.len() && f.pairs[k] == (t, l);
        assert(terms_of(f.pairs)[k] == t);
        lemma_excluded_term_bars(ast, t, terms_of(f.pairs));
    }
    lemma_filter_none(files, passes(ast));
}

/// Every file that the filter keeps satisfies the expression.
pub proof fn lemma_kept_files_pass(files: Seq<FileView>, ast: Expr, i: int)
    requires
        0 <= i < files.filter(passes(ast)).len(),
    ensures
        ast.value(terms_of(files.filter(passes(ast))[i].pairs), true),
{
    files.lemma_filter_pred(passes(ast), i);
}

/// A separator of path components.
pub open spec fn is_separator(c: char) -> bool {
    c == '/' || c == '\\'
}

/// Where the last component of a path starts: after its last separator
/// before position `end`.
pub open spec fn name_start(path: Seq<char>, end: int) -> int
    decreases end,
{
    if end <= 0 || end > path.len() {
        0
    } else if is_separator(path[end - 1]) {
        end
    } else {
        name_start(path, end - 1)
    }
}

/// The file name: the last component of the path.
pub open spec fn file_name(path: Seq<char>) -> Seq<char> {
    path.subrange(name_start(path, path.len() as int), path.len() as int)
}

/// The last component of a path.
pub fn name_of(path: &Vec<char>) -> (out: Vec<char>)
    ensures
        out@ == file_name(path@),
{
    let mut end: usize = path.len();
    while end > 0 && !(path[end - 1] == '/' || path[end - 1] == '\\')
        invariant
            end <= path.len(),
            name_start(path@, path.len() as int) == name_start(path@, end as int),
        decreases end,
    {
        end -= 1;
    }
    slice_chars(path, end, path.len())
}

/// The name of the file holds the key, letter case aside.
pub open spec fn name_holds(path: Seq<char>, key: Seq<char>) -> bool {
    occurs_in(folded(file_name(path)), folded(key))
}

/// The positions of the terms whose key the name of the file holds, in
/// increasing order.
pub open spec fn name_terms(path: Seq<char>, keys: Seq<Seq<char>>) -> Seq<usize>
    decreases keys.len(),
{
    if keys.len() == 0 {
        seq![]
    } else {
        let rest = name_terms(path, keys.drop_last());
        if name_holds(path, keys.last()) {
            rest.push((keys.len() - 1) as usize)
        } else {
            rest
        }
    }
}

/// The keys of the terms of a plan.
pub open spec fn plan_keys(plan: QueryPlan) -> Seq<Seq<char>> {
    plan.terms@.map_values(|t: crate::plan::Term| t.stem@)
}

/// The terms of the plan that the name of the file holds.
pub fn filename_terms(path: &str, plan: &QueryPlan) -> (out: Vec<usize>)
    ensures
        out@ == name_terms(path@, plan_keys(*plan)),
{
    let ghost keys = plan_keys(*plan);
    let name = fold_chars(&name_of(&chars_of(path)));
    let mut out: Vec<usize> = Vec::new();
    let mut i: usize = 0;
    assert(keys.take(0) =~= Seq::<Seq<char>>::empty());
    while i < plan.terms.len()
        invariant
            i <= plan.terms.len(),
            keys == plan_keys(*plan),
            name@ == folded(file_name(path@)),
            out@ == name_terms(path@, keys.take(i as int)),
        decreases plan.terms.len() - i,
    {
        let key = fold_chars(&chars_of(plan.terms[i].stem.as_str()));
        proof {
            assert(keys.take(i + 1).drop_last() =~= keys.take(i as int));
            assert(keys.take(i + 1).last() == plan.terms@[i as int].stem@);
        }
        if contains_chars(&name, &key) {
            out.push(i);
        }
        i += 1;
    }
    assert(keys.take(keys.len() as int) =~= keys);
    out
}

/// `pairs` holds what `old` holds and, for every term of `terms`, every line
/// from 1 to `lines`.
pub open spec fn is_union(
    pairs: Seq<(usize, usize)>,
    old: Seq<(usize, usize)>,
    terms: Seq<usize>,
    lines: nat,
) -> bool {
    ordered(pairs) && forall|t: usize, l: usize| #[trigger]
        pairs.contains((t, l)) <==> old.contains((t, l)) || (terms.contains(t) && 1 <= l <= lines)
}

/// The hits `old` together with all lines for the terms of `terms`;
/// `is_union` admits one sequence at most.
pub open spec fn united(old: Seq<(usize, usize)>, terms: Seq<usize>, lines: nat) -> Seq<
    (usize, usize),
> {
    choose|pairs: Seq<(usize, usize)>| is_union(pairs, old, terms, lines)
}

proof fn lemma_united(
    pairs: Seq<(usize, usize)>,
    old: Seq<(usize, usize)>,
    terms: Seq<usize>,
    lines: nat,
)
    requires
        is_union(pairs, old, terms, lines),
    ensures
        pairs == united(old, terms, lines),
{
    let chosen = united(old, terms, lines);
    assert(is_union(chosen, old, terms, lines));
    assert forall|x: (usize, usize)| pairs.contains(x) <==> chosen.contains(x) by {
        assert(x == (x.0, x.1));
        assert(pairs.contains((x.0, x.1)) <==> old.contains((x.0, x.1)) || (terms.contains(x.0)
            && 1 <= x.1 <= lines));
        assert(chosen.contains((x.0, x.1)) <==> old.contains((x.0, x.1)) || (terms.contains(x.0)
            && 1 <= x.1 <= lines));
    }
    lemma_ordered_unique(pairs, chosen);
}

fn with_all_lines(hits: &mut TermLines, terms: &Vec<usize>, lines: usize)
    requires
        old(hits).wf(),
    ensures
        final(hits).wf(),
        is_union(final(hits).pairs@, old(hits).pairs@, terms@, lines as nat),
        final(hits).pairs@ == united(old(hits).pairs@, terms@, lines as nat),
{
    let mut j: usize = 0;
    while j < terms.len()
        invariant
            j <= terms.len(),
            hits.wf(),
            forall|t: usize, l: usize|
                #[trigger] hits.has(t, l) <==> old(hits).has(t, l) || ((exists|k: int|
                    0 <= k < j && terms@[k] == t) && 1 <= l <= lines),
        decreases terms.len() - j,
    {
        let ghost outer = *hits;
        let term = terms[j];
        let mut d: usize = 0;
        while d < lines
            invariant
                d <= lines,
                hits.wf(),
                forall|t: usize, l: usize|
                    #[trigger] hits.has(t, l) <==> outer.has(t, l) || (t == term && 1 <= l <= d),
            decreases lines - d,
        {
            let ghost inner = *hits;
            hits.record(term, d + 1);
            proof {
                assert forall|t: usize, l: usize|
                    #[trigger] hits.has(t, l) <==> outer.has(t, l) || (t == term && 1 <= l <= d
                        + 1) by {
                    assert(inner.has(t, l) <==> outer.has(t, l) || (t == term && 1 <= l <= d));
                }
            }
            d += 1;
        }
        proof {
            assert forall|t: usize, l: usize|
                #[trigger] hits.has(t, l) <==> old(hits).has(t, l) || ((exists|k: int|
                    0 <= k < j + 1 && terms@[k] == t) && 1 <= l <= lines) by {
                assert(outer.has(t, l) <==> old(hits).has(t, l) || ((exists|k: int|
                    0 <= k < j && terms@[k] == t) && 1 <= l <= lines));
                if t == term {
                    assert(0 <= j < j + 1 && terms@[j as int] == t);
                }
                if exists|k: int| 0 <= k < j + 1 && terms@[k] == t {
                    let k = choose|k: int| 0 <= k < j + 1 && terms@[k] == t;
                    if k < j {
                        assert(0 <= k < j && terms@[k] == t);
                    }
                }
            }
        }
        j += 1;
    }
    proof {
        assert forall|t: usize, l: usize| #[trigger]
            hits.pairs@.contains((t, l)) <==> old(hits).pairs@.contains((t, l)) || (
            terms@.contains(t) && 1 <= l <= lines) by {
            assert(hits.has(t, l) <==> old(hits).has(t, l) || ((exists|k: int|
                0 <= k < j && terms@[k] == t) && 1 <= l <= lines));
            if terms@.contains(t) {
                let k = choose|k: int| 0 <= k < terms@.len() && terms@[k] == t;
                assert(0 <= k < j && terms@[k] == t);
            }
        }
        lemma_united(hits.pairs@, old(hits).pairs@, terms@, lines as nat);
    }
}

/// The first position at or after `from` whose file has the path, or the length.
pub open spec fn path_position(map: Seq<FileView>, path: Seq<char>, from: int) -> int
    decreases map.len() - from,
{
    if from < 0 || from >= map.len() {
        map.len() as int
    } else if map[from].path == path {
        from
    } else {
        path_position(map, path, from + 1)
    }
}

/// The map after a file was selected by its name for `terms`: every line of
/// the file, from 1 to `lines`, counts as a hit of each of these terms. A
/// file that is in the map for hits in its text keeps its place and its
/// hits; one that is not in the map is added at the end, marked as matched
/// by name. Without a term or without a line nothing changes, nor for a path
/// that is in the map for its name already.
pub open spec fn with_file(map: Seq<FileView>, path: Seq<char>, terms: Seq<usize>, lines: nat) -> Seq<
    FileView,
> {
    if terms.len() == 0 || lines == 0 {
        map
    } else {
        let k = path_position(map, path, 0);
        if 0 <= k < map.len() && map[k].by_filename {
            map
        } else if 0 <= k < map.len() {
            map.update(
                k,
                FileView {
                    path: map[k].path,
                    pairs: united(map[k].pairs, terms, lines),
                    by_filename: map[k].by_filename,
                },
            )
        } else {
            map.push(FileView { path, pairs: united(seq![], terms, lines), by_filename: true })
        }
    }
}

/// The map after every file of `files` whose name holds a key was selected.
pub open spec fn with_filenames(map: Seq<FileView>, files: Seq<SourceFile>, keys: Seq<Seq<char>>) -> Seq<
    FileView,
>
    decreases files.len(),
{
    if files.len() == 0 {
        map
    } else {
        let f = files.last();
        with_file(
            with_filenames(map, files.drop_last(), keys),
            f.path@,
            name_terms(f.path@, keys),
            lines_of(f.content@).len(),
        )
    }
}

proof fn lemma_path_position(map: Seq<FileView>, path: Seq<char>, from: int)
    requires
        0 <= from <= map.len(),
    ensures
        from <= path_position(map, path, from) <= map.len(),
        forall|i: int| from <= i < path_position(map, path, from) ==> (#[trigger] map[i]).path != path,
        path_position(map, path, from) < map.len() ==> map[path_position(map, path, from)].path
            == path,
    decreases map.len() - from,
{
    if from < map.len() && map[from].path != path {
        lemma_path_position(map, path, from + 1);
    }
}

fn find_path(map: &HitMap, path: &String) -> (k: usize)
    ensures
        k == path_position(map@, path@, 0),
        k <= map.files@.len(),
{
    let mut k: usize = 0;
    while k < map.files.len()
        invariant
            k <= map.files.len(),
            path_position(map@, path@, 0) == path_position(map@, path@, k as int),
        decreases map.files.len() - k,
    {
        assert(map@[k as int].path == map.files@[k as int].file@);
        if map.files[k].file == *path {
            return k;
        }
        k += 1;
    }
    k
}

/// The number of lines of the file with the path, as `files` holds it.
pub open spec fn line_count(files: Seq<SourceFile>, path: Seq<char>) -> nat {
    lines_of(crate::merge::source_content(files, path)).len()
}

/// The files that are in the map for their name alone have every term on
/// every line with a hit, and no hit beyond the lines of the file.
pub open spec fn named_level(map: Seq<FileView>, files: Seq<SourceFile>) -> bool {
    forall|i: int|
        0 <= i < map.len() && (#[trigger] map[i]).by_filename ==> level(map[i].pairs) && (
        line_count(files, map[i].path) > 0 ==> within_lines(
            map[i].pairs,
            line_count(files, map[i].path),
        ))
}

/// The file satisfies the expression as a whole: every term of it stands on
/// every line of it that has a hit, no hit lies beyond its lines, and its
/// terms satisfy the expression, exclusions honoured.
pub open spec fn whole_passes(f: FileView, files: Seq<SourceFile>, ast: Expr) -> bool {
    &&& level(f.pairs)
    &&& line_count(files, f.path) > 0 ==> within_lines(f.pairs, line_count(files, f.path))
    &&& ast.value(terms_of(f.pairs), true)
}

/// The files that are in the map for their name alone satisfy the expression
/// as whole files.
pub open spec fn named_pass(map: Seq<FileView>, files: Seq<SourceFile>, ast: Expr) -> bool {
    forall|i: int|
        0 <= i < map.len() && (#[trigger] map[i]).by_filename ==> whole_passes(map[i], files, ast)
}

/// The filter by the query leaves the files that are there for their name
/// as they are, and those it keeps satisfy the expression.
pub proof fn lemma_filter_keeps_level(map: Seq<FileView>, files: Seq<SourceFile>, ast: Expr)
    requires
        named_level(map, files),
    ensures
        named_pass(map.filter(passes(ast)), files, ast),
{
    let out = map.filter(passes(ast));
    assert forall|i: int| 0 <= i < out.len() && (#[trigger] out[i]).by_filename implies whole_passes(
        out[i],
        files,
        ast,
    ) by {
        map.lemma_filter_pred(passes(ast), i);
        assert(out.contains(out[i]));
        map.lemma_filter_contains_rev(passes(ast), out[i]);
        let k = choose|k: int| 0 <= k < map.len() && map[k] == out[i];
        assert(map[k].by_filename);
    }
}

/// The terms of a file whose hits all lie on its lines `1..=n` are the terms
/// of the whole file taken as one block: where the former satisfy an
/// expression, the latter do.
pub proof fn lemma_whole_file_satisfies(pairs: Seq<(usize, usize)>, n: usize, ast: Expr)
    requires
        within_lines(pairs, n as nat),
        ast.value(terms_of(pairs), true),
    ensures
        ast.value(crate::blocks::terms_within(pairs, 1, n), true),
{
    let whole = crate::blocks::terms_within(pairs, 1, n);
    let listed = terms_of(pairs);
    crate::blocks::lemma_terms_within(pairs, 1, n);
    assert forall|t: usize| whole.contains(t) <==> listed.contains(t) by {
        if whole.contains(t) {
            let l = choose|l: usize| 1 <= l <= n && pairs.contains((t, l));
            let k = choose|k: int| 0 <= k < pairs.len() && pairs[k] == (t, l);
            assert(listed[k] == t);
        }
        if listed.contains(t) {
            let k = choose|k: int| 0 <= k < listed.len() && listed[k] == t;
            let l = pairs[k].1;
            assert(pairs[k] == (t, l));
            assert(pairs.contains((t, l)));
            assert(1 <= l <= n && pairs.contains((t, l)));
        }
    }
    lemma_value_of_same_terms(ast, whole, listed, true);
}

/// Selects one file by its name.
pub fn include_file(map: &mut HitMap, path: &String, terms: &Vec<usize>, lines: usize)
    requires
        old(map).wf(),
    ensures
        final(map).wf(),
        final(map)@ == with_file(old(map)@, path@, terms@, lines as nat),
        final(map)@.len() >= old(map)@.len(),
        forall|k: int|
            0 <= k < old(map)@.len() ==> (#[trigger] final(map)@[k]).path == old(map)@[k].path
                && final(map)@[k].by_filename == old(map)@[k].by_filename && (
            old(map)@[k].by_filename ==> final(map)@[k] == old(map)@[k]),
        final(map)@.len() > old(map)@.len() ==> final(map)@.len() == old(map)@.len() + 1 && ({
            let added = final(map)@[old(map)@.len() as int];
            &&& added.path == path@
            &&& added.by_filename
            &&& level(added.pairs)
            &&& within_lines(added.pairs, lines as nat)
            &&& !crate::hits::has_path(old(map)@, path@)
        }),
        terms@.len() > 0 && lines > 0 ==> crate::hits::has_path(final(map)@, path@),
{
    if terms.len() == 0 || lines == 0 {
        return ;
    }
    let ghost before = map@;
    let k = find_path(map, path);
    proof {
        lemma_path_position(before, path@, 0);
    }
    if k < map.files.len() && map.files[k].by_filename {
        assert(before[k as int].by_filename);
        assert(before[k as int].path == path@);
    } else if k < map.files.len() {
        let mut entry = map.files.remove(k);
        let ghost was = entry@;
        assert(was == before[k as int]);
        with_all_lines(&mut entry.hits, terms, lines);
        proof {
            assert(entry.hits.pairs@.contains((terms@[0], 1usize)));
        }
        map.files.insert(k, entry);
        proof {
            assert(map@ =~= before.update(
                k as int,
                FileView {
                    path: was.path,
                    pairs: united(was.pairs, terms@, lines as nat),
                    by_filename: was.by_filename,
                },
            ));
            assert forall|i: int| 0 <= i < map.files@.len() implies (#[trigger] map.files@[i]).hits.wf()
                && map.files@[i].hits.pairs@.len() > 0 by {
                if i < k {
                    assert(map.files@[i] == old(map).files@[i]);
                } else if i > k {
                    assert(map.files@[i] == old(map).files@[i]);
                }
            }
            assert forall|a: int, b: int| 0 <= a < b < map@.len() implies (#[trigger] map@[a]).path
                != (#[trigger] map@[b]).path by {
                assert(map@[a].path == before[a].path && map@[b].path == before[b].path);
            }
            assert(map@[k as int].path == path@);
        }
    } else {
        let mut hits = TermLines::new();
        assert(hits.pairs@ =~= seq![]);
        with_all_lines(&mut hits, terms, lines);
        proof {
            assert(hits.pairs@.contains((terms@[0], 1usize)));
        }
        let ghost pairs = hits.pairs@;
        map.files.push(FileHits { file: path.clone(), hits, by_filename: true });
        proof {
            assert(old(map).files@.len() == before.len());
            assert(map@ =~= before.push(FileView { path: path@, pairs, by_filename: true }));
            assert forall|a: int, b: int| 0 <= a < b < map@.len() implies (#[trigger] map@[a]).path
                != (#[trigger] map@[b]).path by {
                if b < before.len() {
                    assert(map@[a] == before[a] && map@[b] == before[b]);
                } else {
                    assert(map@[a] == before[a]);
                }
            }
            assert(map@[before.len() as int].path == path@);
            assert(level(pairs)) by {
                assert forall|t: usize, l: usize, u: usize, m: usize|
                    #[trigger] pairs.contains((t, l)) && #[trigger] pairs.contains(
                        (u, m),
                    ) implies pairs.contains((t, m)) by {
                    assert(Seq::<(usize, usize)>::empty().contains((t, l)) == false);
                }
            }
            assert(within_lines(pairs, lines as nat)) by {
                assert forall|t: usize, l: usize| #[trigger] pairs.contains((t, l)) implies 1 <= l
                    <= lines by {
                    assert(Seq::<(usize, usize)>::empty().contains((t, l)) == false);
                }
            }
        }
    }
}

proof fn lemma_source_first(files: Seq<SourceFile>, path: Seq<char>, from: int)
    requires
        0 <= from <= files.len(),
    ensures
        from <= crate::merge::source_position(files, path, from) <= files.len(),
        forall|k: int|
            from <= k < crate::merge::source_position(files, path, from) ==> (#[trigger] files[k]).path@
                != path,
        crate::merge::source_position(files, path, from) < files.len() ==> files[crate::merge::source_position(
            files,
            path,
            from,
        )].path@ == path,
    decreases files.len() - from,
{
    if from < files.len() && files[from].path@ != path {
        lemma_source_first(files, path, from + 1);
    }
}

/// Every file among the first `i` whose name holds a key and which has a
/// line is in the map.
pub open spec fn names_taken(map: Seq<FileView>, files: Seq<SourceFile>, keys: Seq<Seq<char>>, i: int) -> bool {
    forall|j: int|
        0 <= j < i && name_terms((#[trigger] files[j]).path@, keys).len() > 0 && lines_of(
            files[j].content@,
        ).len() > 0 ==> crate::hits::has_path(map, files[j].path@)
}

/// Filename matching: every file whose name holds the key of a term of the
/// plan is selected for these terms, every line of it counting as a hit.
/// Where no file was in the map for its name before, the files that are in
/// it for their name afterwards have every term on every line of theirs.
pub fn include_filename_matches(map: &mut HitMap, files: &Vec<SourceFile>, plan: &QueryPlan)
    requires
        old(map).wf(),
    ensures
        final(map).wf(),
        final(map)@ == with_filenames(old(map)@, files@, plan_keys(*plan)),
        none_by_name(old(map)@) ==> named_level(final(map)@, files@),
{
    let ghost keys = plan_keys(*plan);
    let mut i: usize = 0;
    assert(files@.take(0) =~= Seq::<SourceFile>::empty());
    while i < files.len()
        invariant
            i <= files.len(),
            keys == plan_keys(*plan),
            map.wf(),
            map@ == with_filenames(old(map)@, files@.take(i as int), keys),
            none_by_name(old(map)@) ==> named_level(map@, files@) && names_taken(
                map@,
                files@,
                keys,
                i as int,
            ),
        decreases files.len() - i,
    {
        let f = &files[i];
        let ghost before = map@;
        proof {
            assert(files@.take(i + 1).drop_last() =~= files@.take(i as int));
            assert(files@.take(i + 1).last() == *f);
        }
        let terms = filename_terms(f.path.as_str(), plan);
        if terms.len() > 0 {
            let lines = split_lines(f.content.as_str());
            assert(lines@.len() == texts(lines@).len());
            include_file(map, &f.path, &terms, lines.len());
            proof {
                if none_by_name(old(map)@) {
                    let after = map@;
                    assert forall|p: Seq<char>| crate::hits::has_path(before, p) implies crate::hits::has_path(
                        after,
                        p,
                    ) by {
                        let k = choose|k: int| 0 <= k < before.len() && (#[trigger] before[k]).path == p;
                        assert(after[k].path == p);
                    }
                    assert(names_taken(after, files@, keys, i + 1)) by {
                        assert forall|j: int|
                            0 <= j < i + 1 && name_terms((#[trigger] files@[j]).path@, keys).len() > 0
                                && lines_of(files@[j].content@).len()
                                > 0 implies crate::hits::has_path(after, files@[j].path@) by {
                            if j < i {
                                assert(crate::hits::has_path(before, files@[j].path@));
                            }
                        }
                    }
                    assert(named_level(after, files@)) by {
                        assert forall|k: int|
                            0 <= k < after.len() && (#[trigger] after[k]).by_filename implies level(
                            after[k].pairs,
                        ) && (line_count(files@, after[k].path) > 0 ==> within_lines(
                            after[k].pairs,
                            line_count(files@, after[k].path),
                        )) by {
                            if k < before.len() {
                                assert(before[k].by_filename);
                                assert(after[k] == before[k]);
                            } else {
                                let p = f.path@;
                                lemma_source_first(files@, p, 0);
                                let s = crate::merge::source_position(files@, p, 0);
                                if line_count(files@, p) > 0 {
                                    if s < i {
                                        assert(files@[s].path@ == p);
                                        assert(crate::hits::has_path(before, files@[s].path@));
                                    }
                                    assert(s == i);
                                }
                            }
                        }
                    }
                }
            }
        } else {
            proof {
                if none_by_name(old(map)@) {
                    assert(names_taken(map@, files@, keys, i + 1));
                }
            }
        }
        i += 1;
    }
    assert(files@.take(files.len() as int) =~= files@);
}

/// The result for a file in a search that asks for files only: the
/// whole-file kind, the line range 1 to 1 and no code.
pub open spec fn file_only_view(f: FileView, i: int) -> ResultView {
    ResultView {
        file: f.path,
        lines: (1, 1),
        node_type: "file"@,
        code: seq![],
        matched_by_filename: f.by_filename,
        matched_terms: seq![],
        stats: None,
        ranking: None,
        parent_file_id: i as usize,
        block_id: 0,
    }
}

/// One such result for each file of the map.
pub open spec fn file_only_views(map: Seq<FileView>) -> Seq<ResultView> {
    Seq::new(map.len(), |i: int| file_only_view(map[i], i))
}

/// The results of a search that asks for files only.
pub fn file_results(map: &HitMap) -> (out: Vec<SearchResult>)
    ensures
        views(out@) == file_only_views(map@),
{
    let mut out: Vec<SearchResult> = Vec::new();
    let mut i: usize = 0;
    while i < map.files.len()
        invariant
            i <= map.files.len(),
            out@.len() == i,
            forall|k: int| 0 <= k < i ==> (#[trigger] out@[k])@ == file_only_view(map@[k], k),
        decreases map.files.len() - i,
    {
        let code = String::new();
        let terms: Vec<usize> = Vec::new();
        assert(code@ =~= seq![]);
        assert(terms@ =~= seq![]);
        out.push(
            SearchResult {
                file: map.files[i].file.clone(),
                lines: (1, 1),
                node_type: String::from_str("file"),
                code,
                matched_by_filename: map.files[i].by_filename,
                matched_terms: terms,
                stats: None,
                ranking: None,
                parent_file_id: i,
                block_id: 0,
            },
        );
        i += 1;
    }
    assert(views(out@) =~= file_only_views(map@));
    out
}

} // verus!
