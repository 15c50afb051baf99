//! The rules that decide which files of a tree are candidates for a search:
//! no binary files, no test files unless they are asked for, and none that
//! an ignore pattern matches.

use crate::selection::{file_name, name_of};
use crate::terms::slices;
use crate::text::{
    chars_of, contains_chars, ends_with, fold_chars, folded, has_suffix, is_space, occurs_in,
    same_chars, slice_chars, space, texts,
};
use vstd::prelude::*;

verus! {

/// How many bytes at the start of a file are looked at for a zero byte.
pub const SNIFF_BYTES: usize = 8192;

/// A file as the walk over the tree found it: its path and the first bytes
/// of its content.
pub struct ListedFile {
    pub path: String,
    pub head: Vec<u8>,
}

/// `t` starts with `prefix`.
pub open spec fn starts_with(t: Seq<char>, prefix: Seq<char>) -> bool {
    prefix.len() <= t.len() && t.subrange(0, prefix.len() as int) == prefix
}

/// The path with a separator in front, so that every directory on it stands
/// between two separators.
pub open spec fn rooted(path: Seq<char>) -> Seq<char> {
    seq!['/'] + path
}

/// The path is that of a test file: its name holds `_test.`, `.test.` or
/// `.spec.` or starts with `test_`, or it lies under a directory `tests` or
/// `__tests__`.
pub open spec fn is_test_path(path: Seq<char>) -> bool {
    let name = file_name(path);
    occurs_in(name, "_test."@) || occurs_in(name, ".test."@) || occurs_in(name, ".spec."@)
        || starts_with(name, "test_"@) || occurs_in(rooted(path), "/tests/"@) || occurs_in(
        rooted(path),
        "/__tests__/"@,
    )
}

fn begins_with(t: &Vec<char>, prefix: &Vec<char>) -> (r: bool)
    ensures
        r == starts_with(t@, prefix@),
{
    if prefix.len() > t.len() {
        return false;
    }
    let head = slice_chars(t, 0, prefix.len());
    same_chars(&head, prefix)
}

/// Decides whether a path is that of a test file.
pub fn is_test_file(path: &str) -> (r: bool)
    ensures
        r == is_test_path(path@),
{
    let chars = chars_of(path);
    let name = name_of(&chars);
    let mut full: Vec<char> = Vec::new();
    full.push('/');
    let mut i: usize = 0;
    while i < chars.len()
        invariant
            i <= chars.len(),
            full@ == seq!['/'] + chars@.take(i as int),
        decreases chars.len() - i,
    {
        full.push(chars[i]);
        i += 1;
        assert(full@ =~= seq!['/'] + chars@.take(i as int));
    }
    assert(chars@.take(chars.len() as int) =~= chars@);
    contains_chars(&name, &chars_of("_test.")) || contains_chars(&name, &chars_of(".test."))
        || contains_chars(&name, &chars_of(".spec.")) || begins_with(&name, &chars_of("test_"))
        || contains_chars(&full, &chars_of("/tests/")) || contains_chars(
        &full,
        &chars_of("/__tests__/"),
    )
}

/// The endings of file names that mark a file as binary.
pub open spec fn binary_endings() -> Seq<Seq<char>> {
    seq![
        ".png"@,
        ".jpg"@,
        ".jpeg"@,
        ".gif"@,
        ".bmp"@,
        ".ico"@,
        ".pdf"@,
        ".zip"@,
        ".gz"@,
        ".tar"@,
        ".7z"@,
        ".exe"@,
        ".dll"@,
        ".so"@,
        ".dylib"@,
        ".class"@,
        ".jar"@,
        ".o"@,
        ".a"@,
        ".bin"@,
        ".wasm"@,
        ".woff"@,
        ".woff2"@,
        ".ttf"@,
        ".mp3"@,
        ".mp4"@,
    ]
}

fn binary_list() -> (out: Vec<&'static str>)
    ensures
        slices(out@) == binary_endings(),
{
    let out = vec![
        ".png", ".jpg", ".jpeg", ".gif", ".bmp", ".ico", ".pdf", ".zip", ".gz", ".tar", ".7z",
        ".exe", ".dll", ".so", ".dylib", ".class", ".jar", ".o", ".a", ".bin", ".wasm", ".woff",
        ".woff2", ".ttf", ".mp3", ".mp4",
    ];
    assert(slices(out@) =~= binary_endings());
    out
}

/// The name of the file ends, letter case aside, with a binary ending.
pub open spec fn has_binary_ending(path: Seq<char>) -> bool {
    exists|k: int|
        0 <= k < binary_endings().len() && ends_with(
            folded(file_name(path)),
            #[trigger] binary_endings()[k],
        )
}

/// Decides whether the name of a file marks it as binary.
pub fn binary_by_name(path: &str) -> (r: bool)
    ensures
        r == has_binary_ending(path@),
{
    let name = fold_chars(&name_of(&chars_of(path)));
    let list = binary_list();
    let mut k: usize = 0;
    while k < list.len()
        invariant
            k <= list.len(),
            slices(list@) == binary_endings(),
            name@ == folded(file_name(path@)),
            forall|j: int|
                0 <= j < k ==> !ends_with(name@, #[trigger] binary_endings()[j]),
        decreases list.len() - k,
    {
        let ending = chars_of(list[k]);
        assert(ending@ == slices(list@)[k as int]);
        if has_suffix(&name, &ending) {
            return true;
        }
        k += 1;
    }
    false
}

/// One of the first 8192 bytes is zero.
pub open spec fn has_zero_byte(head: Seq<u8>) -> bool {
    exists|i: int| 0 <= i < head.len() && i < SNIFF_BYTES && #[trigger] head[i] == 0
}

/// Decides whether the start of a file holds a zero byte.
pub fn binary_by_content(head: &Vec<u8>) -> (r: bool)
    ensures
        r == has_zero_byte(head@),
{
    let mut i: usize = 0;
    while i < head.len() && i < SNIFF_BYTES
        invariant
            i <= head.len(),
            i <= SNIFF_BYTES,
            forall|k: int| 0 <= k < i ==> #[trigger] head@[k] != 0,
        decreases head.len() - i,
    {
        if head[i] == 0 {
            return true;
        }
        i += 1;
    }
    false
}

/// The pattern matches the text: `*` stands for any run of characters, `?`
/// for any one character, every other character for itself.
pub open spec fn glob(p: Seq<char>, t: Seq<char>) -> bool
    decreases p.len() + t.len(),
{
    if p.len() == 0 {
        t.len() == 0
    } else if p[0] == '*' {
        glob(p.drop_first(), t) || (t.len() > 0 && glob(p, t.drop_first()))
    } else if t.len() == 0 {
        false
    } else if p[0] == '?' || p[0] == t[0] {
        glob(p.drop_first(), t.drop_first())
    } else {
        false
    }
}

fn glob_from(p: &Vec<char>, pi: usize, t: &Vec<char>, ti: usize, te: usize) -> (r: bool)
    requires
        pi <= p.len(),
        ti <= te <= t.len(),
    ensures
        r == glob(p@.skip(pi as int), t@.subrange(ti as int, te as int)),
    decreases (p.len() - pi) + (te - ti),
{
    let ghost ps = p@.skip(pi as int);
    let ghost ts = t@.subrange(ti as int, te as int);
    if pi == p.len() {
        return ti == te;
    }
    proof {
        assert(ps[0] == p@[pi as int]);
        assert(ps.drop_first() =~= p@.skip(pi + 1));
        if ti < te {
            assert(ts[0] == t@[ti as int]);
            assert(ts.drop_first() =~= t@.subrange(ti + 1, te as int));
        }
    }
    if p[pi] == '*' {
        glob_from(p, pi + 1, t, ti, te) || (ti < te && glob_from(p, pi, t, ti + 1, te))
    } else if ti == te {
        false
    } else if p[pi] == '?' || p[pi] == t[ti] {
        glob_from(p, pi + 1, t, ti + 1, te)
    } else {
        false
    }
}

/// Position `i` of the path is where a component starts or ends.
pub open spec fn is_boundary(path: Seq<char>, i: int) -> bool {
    i == 0 || i == path.len() || (0 < i < path.len() && (path[i] == '/' || path[i - 1] == '/'))
}

/// The pattern matches the components of the path from position `a` to `b`.
pub open spec fn matches_span(pattern: Seq<char>, path: Seq<char>, a: int, b: int) -> bool {
    is_boundary(path, a) && is_boundary(path, b) && glob(pattern, path.subrange(a, b))
}

/// The pattern matches the path, or a run of whole components of it that is
/// not empty: a directory on it, its file name, or several of these in a row.
pub open spec fn ignored_by(pattern: Seq<char>, path: Seq<char>) -> bool {
    exists|a: int, b: int| 0 <= a < b <= path.len() && matches_span(pattern, path, a, b)
}

fn boundary(path: &Vec<char>, i: usize) -> (r: bool)
    requires
        i <= path.len(),
    ensures
        r == is_boundary(path@, i as int),
{
    i == 0 || i == path.len() || path[i] == '/' || path[i - 1] == '/'
}

fn span_matches(p: &Vec<char>, t: &Vec<char>, a: usize, b: usize) -> (r: bool)
    requires
        a <= b <= t.len(),
    ensures
        r == matches_span(p@, t@, a as int, b as int),
{
    assert(p@.skip(0) =~= p@);
    boundary(t, a) && boundary(t, b) && glob_from(p, 0, t, a, b)
}

fn matches_from(p: &Vec<char>, t: &Vec<char>, a: usize) -> (r: bool)
    requires
        a < t.len(),
    ensures
        r == exists|b: int| a < b <= t.len() && matches_span(p@, t@, a as int, b),
{
    let n: usize = t.len();
    let mut b: usize = a + 1;
    while b < n
        invariant
            a < b <= n,
            n == t.len(),
            forall|y: int| a < y < b ==> !matches_span(p@, t@, a as int, y),
        decreases n - b,
    {
        if span_matches(p, t, a, b) {
            return true;
        }
        b += 1;
    }
    span_matches(p, t, a, n)
}

/// Decides whether an ignore pattern matches a path.
pub fn matches_ignore(pattern: &str, path: &str) -> (r: bool)
    ensures
        r == ignored_by(pattern@, path@),
{
    let p = chars_of(pattern);
    let t = chars_of(path);
    let n: usize = t.len();
    let mut a: usize = 0;
    while a < n
        invariant
            a <= n,
            n == t.len(),
            p@ == pattern@,
            t@ == path@,
            forall|x: int, y: int| 0 <= x < a && x < y <= n ==> !matches_span(p@, t@, x, y),
        decreases n - a,
    {
        if matches_from(&p, &t, a) {
            proof {
                let b = choose|b: int| a < b <= t.len() && matches_span(p@, t@, a as int, b);
                assert(0 <= a < b <= path@.len() && matches_span(pattern@, path@, a as int, b));
            }
            return true;
        }
        a += 1;
    }
    false
}

/// A file is a candidate for a search.
pub open spec fn is_candidate(f: ListedFile, allow_tests: bool, ignores: Seq<Seq<char>>) -> bool {
    &&& !has_binary_ending(f.path@)
    &&& !has_zero_byte(f.head@)
    &&& (allow_tests || !is_test_path(f.path@))
    &&& forall|k: int| 0 <= k < ignores.len() ==> !ignored_by(#[trigger] ignores[k], f.path@)
}

/// The paths of the candidates among `listing`, in their order.
pub open spec fn candidates(listing: Seq<ListedFile>, allow_tests: bool, ignores: Seq<Seq<char>>) -> Seq<
    Seq<char>,
>
    decreases listing.len(),
{
    if listing.len() == 0 {
        seq![]
    } else {
        let rest = candidates(listing.drop_last(), allow_tests, ignores);
        if is_candidate(listing.last(), allow_tests, ignores) {
            rest.push(listing.last().path@)
        } else {
            rest
        }
    }
}

fn any_ignore(ignores: &Vec<String>, path: &str) -> (r: bool)
    ensures
        r == exists|k: int|
            0 <= k < ignores@.len() && ignored_by(
                #[trigger] texts(ignores@)[k],
                path@,
            ),
{
    let mut k: usize = 0;
    while k < ignores.len()
        invariant
            k <= ignores.len(),
            forall|j: int|
                0 <= j < k ==> !ignored_by(#[trigger] texts(ignores@)[j], path@),
        decreases ignores.len() - k,
    {
        assert(texts(ignores@)[k as int] == ignores@[k as int]@);
        if matches_ignore(ignores[k].as_str(), path) {
            return true;
        }
        k += 1;
    }
    false
}

/// The candidate files of a listing: binary files are left out, test files
/// too unless they are allowed, and every file that an ignore pattern matches.
pub fn get_file_list(listing: &Vec<ListedFile>, allow_tests: bool, custom_ignores: &Vec<String>) -> (out:
    Vec<String>)
    ensures
        texts(out@) == candidates(
            listing@,
            allow_tests,
            texts(custom_ignores@),
        ),
{
    let ghost ignores = texts(custom_ignores@);
    let mut out: Vec<String> = Vec::new();
    let mut i: usize = 0;
    proof {
        assert(listing@.take(0) =~= Seq::<ListedFile>::empty());
        assert(texts(out@) =~= Seq::<Seq<char>>::empty());
    }
    while i < listing.len()
        invariant
            i <= listing.len(),
            ignores == texts(custom_ignores@),
            texts(out@) == candidates(listing@.take(i as int), allow_tests, ignores),
        decreases listing.len() - i,
    {
        let f = &listing[i];
        proof {
            assert(listing@.take(i + 1).drop_last() =~= listing@.take(i as int));
            assert(listing@.take(i + 1).last() == *f);
        }
        let path = f.path.as_str();
        let keep = !binary_by_name(path) && !binary_by_content(&f.head) && (allow_tests
            || !is_test_file(path)) && !any_ignore(custom_ignores, path);
        let ghost before = texts(out@);
        if keep {
            out.push(f.path.clone());
            assert(texts(out@) =~= before.push(f.path@));
        }
        i += 1;
    }
    assert(listing@.take(listing.len() as int) =~= listing@);
    out
}

/// The first position at or after `from` that holds no white space, or the
/// length.
pub open spec fn after_blanks(s: Seq<char>, from: int) -> int
    decreases s.len() - from,
{
    if from < 0 || from >= s.len() {
        s.len() as int
    } else if !is_space(s[from]) {
        from
    } else {
        after_blanks(s, from + 1)
    }
}

/// The position after the last character before `end` that is no white
/// space, or 0.
pub open spec fn before_blanks(s: Seq<char>, end: int) -> int
    decreases end,
{
    if end <= 0 || end > s.len() {
        0
    } else if !is_space(s[end - 1]) {
        end
    } else {
        before_blanks(s, end - 1)
    }
}

/// The first position at or after `from` that holds no `/`, or the length.
pub open spec fn after_slashes(s: Seq<char>, from: int) -> int
    decreases s.len() - from,
{
    if from < 0 || from >= s.len() {
        s.len() as int
    } else if s[from] != '/' {
        from
    } else {
        after_slashes(s, from + 1)
    }
}

/// The position after the last character before `end` that is no `/`, or 0.
pub open spec fn before_slashes(s: Seq<char>, end: int) -> int
    decreases end,
{
    if end <= 0 || end > s.len() {
        0
    } else if s[end - 1] != '/' {
        end
    } else {
        before_slashes(s, end - 1)
    }
}

/// The ignore pattern that a line of an ignore file gives: the line without
/// the white space and the slashes around it. A blank line, a comment (`#`),
/// a negation (`!`) and a line of slashes give none.
pub open spec fn rule_of(line: Seq<char>) -> Option<Seq<char>> {
    let a = after_blanks(line, 0);
    let b = before_blanks(line, line.len() as int);
    if a >= b || line[a] == '#' || line[a] == '!' {
        None
    } else {
        let c = after_slashes(line, a);
        let d = before_slashes(line, b);
        if c >= d {
            None
        } else {
            Some(line.subrange(c, d))
        }
    }
}

/// The ignore patterns of the lines, in their order.
pub open spec fn rules_of(lines: Seq<Seq<char>>) -> Seq<Seq<char>>
    decreases lines.len(),
{
    if lines.len() == 0 {
        seq![]
    } else {
        match rule_of(lines.last()) {
            Some(r) => rules_of(lines.drop_last()).push(r),
            None => rules_of(lines.drop_last()),
        }
    }
}

fn rule(line: &Vec<char>) -> (out: Option<Vec<char>>)
    ensures
        match out {
            Some(r) => rule_of(line@) == Some(r@),
            None => rule_of(line@) is None,
        },
{
    let n: usize = line.len();
    let mut a: usize = 0;
    while a < n && space(line[a])
        invariant
            a <= n,
            n == line.len(),
            after_blanks(line@, 0) == after_blanks(line@, a as int),
        decreases n - a,
    {
        a += 1;
    }
    let mut b: usize = n;
    while b > 0 && space(line[b - 1])
        invariant
            b <= n,
            n == line.len(),
            before_blanks(line@, n as int) == before_blanks(line@, b as int),
        decreases b,
    {
        b -= 1;
    }
    if a >= b || line[a] == '#' || line[a] == '!' {
        return None;
    }
    let mut c: usize = a;
    while c < n && line[c] == '/'
        invariant
            a <= c <= n,
            n == line.len(),
            after_slashes(line@, a as int) == after_slashes(line@, c as int),
        decreases n - c,
    {
        c += 1;
    }
    let mut d: usize = b;
    while d > 0 && line[d - 1] == '/'
        invariant
            d <= b <= n,
            n == line.len(),
            before_slashes(line@, b as int) == before_slashes(line@, d as int),
        decreases d,
    {
        d -= 1;
    }
    if c >= d {
        None
    } else {
        Some(slice_chars(line, c, d))
    }
}

/// The ignore patterns that the text of an ignore file holds.
pub fn ignore_rules(text: &str) -> (out: Vec<String>)
    ensures
        texts(out@) == rules_of(crate::scan::lines_of(text@)),
{
    let lines = crate::scan::split_lines(text);
    let ghost all = texts(lines@);
    let mut out: Vec<String> = Vec::new();
    let mut i: usize = 0;
    proof {
        assert(all.take(0) =~= Seq::<Seq<char>>::empty());
        assert(texts(out@) =~= Seq::<Seq<char>>::empty());
    }
    while i < lines.len()
        invariant
            i <= lines.len(),
            all == texts(lines@),
            texts(out@) == rules_of(all.take(i as int)),
        decreases lines.len() - i,
    {
        let chars = chars_of(lines[i].as_str());
        let ghost before = texts(out@);
        proof {
            assert(all.take(i + 1).drop_last() =~= all.take(i as int));
            assert(all.take(i + 1).last() == lines@[i as int]@);
        }
        match rule(&chars) {
            Some(r) => {
                let ghost rv = r@;
                out.push(crate::text::string_of(&r));
                assert(texts(out@) =~= before.push(rv));
            },
            None => {},
        }
        i += 1;
    }
    assert(all.take(all.len() as int) =~= all);
    out
}

} // verus!
