//! The hit map: which query terms were found on which lines of which files.

use vstd::prelude::*;

verus! {

/// Pairs are ordered by term index first and by line number second.
pub open spec fn pair_before(a: (usize, usize), b: (usize, usize)) -> bool {
    a.0 < b.0 || (a.0 == b.0 && a.1 < b.1)
}

/// Strictly increasing in the order of `pair_before`.
pub open spec fn ordered(s: Seq<(usize, usize)>) -> bool {
    forall|i: int, j: int| 0 <= i < j < s.len() ==> pair_before(#[trigger] s[i], #[trigger] s[j])
}

/// Strictly increasing numbers.
pub open spec fn increasing(s: Seq<usize>) -> bool {
    forall|i: int, j: int| 0 <= i < j < s.len() ==> #[trigger] s[i] < #[trigger] s[j]
}

/// The hits of one file: a set of (term index, 1-based line number) pairs, kept
/// as a strictly increasing vector so that equal sets have equal representations.
pub struct TermLines {
    pub pairs: Vec<(usize, usize)>,
}

/// The hits of one file together with its path.
pub struct FileHits {
    pub file: String,
    pub hits: TermLines,
    /// The file is in the map for its name alone: its text had no hit.
    pub by_filename: bool,
}

/// File by file, the terms found and the lines on which they were found.
pub struct HitMap {
    pub files: Vec<FileHits>,
}

/// What a hit map says of one file.
pub struct FileView {
    pub path: Seq<char>,
    pub pairs: Seq<(usize, usize)>,
    pub by_filename: bool,
}

impl View for FileHits {
    type V = FileView;

    open spec fn view(&self) -> FileView {
        FileView { path: self.file@, pairs: self.hits.pairs@, by_filename: self.by_filename }
    }
}

impl View for HitMap {
    type V = Seq<FileView>;

    /// File by file, the path, the hits and the mark of a match by name.
    open spec fn view(&self) -> Seq<FileView> {
        self.files@.map_values(|f: FileHits| f@)
    }
}

/// Every term of the hits is found on every line that has a hit.
pub open spec fn level(pairs: Seq<(usize, usize)>) -> bool {
    forall|t: usize, l: usize, u: usize, m: usize|
        #[trigger] pairs.contains((t, l)) && #[trigger] pairs.contains((u, m)) ==> pairs.contains(
            (t, m),
        )
}

/// Every hit is on one of the lines 1 to `n`.
pub open spec fn within_lines(pairs: Seq<(usize, usize)>, n: nat) -> bool {
    forall|t: usize, l: usize| #[trigger] pairs.contains((t, l)) ==> 1 <= l <= n
}

/// No file of the map is there for its name alone.
pub open spec fn none_by_name(map: Seq<FileView>) -> bool {
    forall|i: int| 0 <= i < map.len() ==> !(#[trigger] map[i]).by_filename
}

/// No path occurs twice.
pub open spec fn distinct_paths(map: Seq<FileView>) -> bool {
    forall|i: int, j: int|
        0 <= i < j < map.len() ==> (#[trigger] map[i]).path != (#[trigger] map[j]).path
}

/// Some file of the map has the path.
pub open spec fn has_path(map: Seq<FileView>, path: Seq<char>) -> bool {
    exists|i: int| 0 <= i < map.len() && (#[trigger] map[i]).path == path
}

impl HitMap {
    /// Every file has well-formed hits, and at least one; no path occurs
    /// twice.
    pub open spec fn wf(&self) -> bool {
        &&& forall|i: int|
            0 <= i < self.files@.len() ==> (#[trigger] self.files@[i]).hits.wf()
                && self.files@[i].hits.pairs@.len() > 0
        &&& distinct_paths(self@)
    }

    /// Whether a file of the map has the path.
    pub fn holds_path(&self, path: &String) -> (r: bool)
        ensures
            r == has_path(self@, path@),
    {
        let mut i: usize = 0;
        while i < self.files.len()
            invariant
                i <= self.files.len(),
                forall|k: int| 0 <= k < i ==> (#[trigger] self@[k]).path != path@,
            decreases self.files.len() - i,
        {
            assert(self@[i as int].path == self.files@[i as int].file@);
            if self.files[i].file == *path {
                return true;
            }
            i += 1;
        }
        false
    }

    /// Term `term` was found on line `line` of the file at position `i`.
    pub open spec fn has(&self, i: int, term: usize, line: usize) -> bool {
        0 <= i < self.files@.len() && self.files@[i].hits.has(term, line)
    }

    /// Whether the map is well formed.
    pub fn is_well_formed(&self) -> (r: bool)
        ensures
            r == self.wf(),
    {
        let mut i: usize = 0;
        while i < self.files.len()
            invariant
                i <= self.files.len(),
                forall|k: int|
                    0 <= k < i ==> (#[trigger] self.files@[k]).hits.wf()
                        && self.files@[k].hits.pairs@.len() > 0,
                forall|a: int, b: int|
                    0 <= a < b < i ==> (#[trigger] self@[a]).path != (#[trigger] self@[b]).path,
            decreases self.files.len() - i,
        {
            if self.files[i].hits.pairs.len() == 0 || !self.files[i].hits.is_well_formed() {
                return false;
            }
            let mut a: usize = 0;
            while a < i
                invariant
                    a <= i < self.files.len(),
                    forall|x: int| 0 <= x < a ==> (#[trigger] self@[x]).path != self@[i as int].path,
                decreases i - a,
            {
                assert(self@[a as int].path == self.files@[a as int].file@);
                assert(self@[i as int].path == self.files@[i as int].file@);
                if self.files[a].file == self.files[i].file {
                    return false;
                }
                a += 1;
            }
            i += 1;
        }
        true
    }
}

/// Two strictly increasing sequences with the same elements are the same sequence.
pub proof fn lemma_ordered_unique(a: Seq<(usize, usize)>, b: Seq<(usize, usize)>)
    requires
        ordered(a),
        ordered(b),
        forall|x: (usize, usize)| a.contains(x) <==> b.contains(x),
    ensures
        a == b,
    decreases a.len(),
{
    if a.len() == 0 {
        if b.len() > 0 {
            assert(b.contains(b[0]));
            assert(a.contains(b[0]));
        }
        assert(a =~= b);
    } else {
        assert(a.contains(a[0]));
        assert(b.contains(a[0]));
        assert(b.len() > 0);
        assert(b.contains(b[0]));
        assert(a.contains(b[0]));
        let ia = choose|i: int| 0 <= i < a.len() && a[i] == b[0];
        let ib = choose|i: int| 0 <= i < b.len() && b[i] == a[0];
        assert(a[0] == b[0]) by {
            if ia > 0 {
                assert(pair_before(a[0], a[ia]));
            }
            if ib > 0 {
                assert(pair_before(b[0], b[ib]));
            }
        }
        let ta = a.drop_first();
        let tb = b.drop_first();
        assert(ordered(ta)) by {
            assert forall|i: int, j: int| 0 <= i < j < ta.len() implies pair_before(
                #[trigger] ta[i],
                #[trigger] ta[j],
            ) by {
                assert(pair_before(a[i + 1], a[j + 1]));
            }
        }
        assert(ordered(tb)) by {
            assert forall|i: int, j: int| 0 <= i < j < tb.len() implies pair_before(
                #[trigger] tb[i],
                #[trigger] tb[j],
            ) by {
                assert(pair_before(b[i + 1], b[j + 1]));
            }
        }
        assert forall|x: (usize, usize)| ta.contains(x) <==> tb.contains(x) by {
            if ta.contains(x) {
                let i = choose|i: int| 0 <= i < ta.len() && ta[i] == x;
                assert(a[i + 1] == x);
                assert(pair_before(a[0], a[i + 1]));
                assert(a.contains(x));
                let j = choose|j: int| 0 <= j < b.len() && b[j] == x;
                assert(j > 0);
                assert(tb[j - 1] == x);
            }
            if tb.contains(x) {
                let i = choose|i: int| 0 <= i < tb.len() && tb[i] == x;
                assert(b[i + 1] == x);
                assert(pair_before(b[0], b[i + 1]));
                assert(b.contains(x));
                let j = choose|j: int| 0 <= j < a.len() && a[j] == x;
                assert(j > 0);
                assert(ta[j - 1] == x);
            }
        }
        lemma_ordered_unique(ta, tb);
        assert(a =~= seq![a[0]] + ta);
        assert(b =~= seq![b[0]] + tb);
    }
}

impl TermLines {
    /// The representation invariant: the pairs are strictly increasing.
    pub open spec fn wf(&self) -> bool {
        ordered(self.pairs@)
    }

    /// Term `term` was found on line `line`.
    pub open spec fn has(&self, term: usize, line: usize) -> bool {
        self.pairs@.contains((term, line))
    }

    /// Term `term` was found on some line.
    pub open spec fn has_term(&self, term: usize) -> bool {
        exists|line: usize| self.has(term, line)
    }

    /// Some term was found on line `line`.
    pub open spec fn has_line(&self, line: usize) -> bool {
        exists|term: usize| self.has(term, line)
    }

    /// Whether the pairs are strictly increasing.
    pub fn is_well_formed(&self) -> (r: bool)
        ensures
            r == self.wf(),
    {
        let n: usize = self.pairs.len();
        if n < 2 {
            return true;
        }
        let mut i: usize = 1;
        while i < n
            invariant
                1 <= i <= n,
                n == self.pairs@.len(),
                forall|a: int, b: int|
                    0 <= a < b < i ==> pair_before(#[trigger] self.pairs@[a], #[trigger] self.pairs@[b]),
            decreases n - i,
        {
            let p = self.pairs[i - 1];
            let q = self.pairs[i];
            if !(p.0 < q.0 || (p.0 == q.0 && p.1 < q.1)) {
                assert(!pair_before(self.pairs@[i - 1], self.pairs@[i as int]));
                return false;
            }
            proof {
                assert forall|a: int, b: int| 0 <= a < b < i + 1 implies pair_before(
                    #[trigger] self.pairs@[a],
                    #[trigger] self.pairs@[b],
                ) by {
                    if b == i && a < i - 1 {
                        assert(pair_before(self.pairs@[a], self.pairs@[i - 1]));
                    }
                }
            }
            i += 1;
        }
        true
    }

    /// No hits at all.
    pub fn new() -> (out: Self)
        ensures
            out.wf(),
            out.pairs@.len() == 0,
    {
        TermLines { pairs: Vec::new() }
    }

    /// The number of (term, line) pairs.
    pub fn len(&self) -> (n: usize)
        ensures
            n == self.pairs@.len(),
    {
        self.pairs.len()
    }

    /// Whether there is no hit.
    pub fn is_empty(&self) -> (r: bool)
        ensures
            r == (self.pairs@.len() == 0),
    {
        self.pairs.len() == 0
    }

    /// Adds the hit of `term` on `line`; a hit already present stays once.
    pub fn record(&mut self, term: usize, line: usize)
        requires
            old(self).wf(),
        ensures
            final(self).wf(),
            forall|t: usize, l: usize|
                final(self).has(t, l) <==> old(self).has(t, l) || (t == term && l == line),
    {
        let n: usize = self.pairs.len();
        let mut i: usize = 0;
        let mut hi: usize = n;
        while i < hi
            invariant
                n == self.pairs.len(),
                i <= hi <= n,
                self.pairs@ == old(self).pairs@,
                ordered(self.pairs@),
                forall|k: int| 0 <= k < i ==> pair_before(#[trigger] self.pairs@[k], (term, line)),
                hi < n ==> !pair_before(self.pairs@[hi as int], (term, line)),
            decreases hi - i,
        {
            let mid: usize = i + (hi - i) / 2;
            let p = self.pairs[mid];
            if p.0 < term || (p.0 == term && p.1 < line) {
                proof {
                    assert forall|k: int| 0 <= k < mid + 1 implies pair_before(
                        #[trigger] self.pairs@[k],
                        (term, line),
                    ) by {
                        if k < mid {
                            assert(pair_before(self.pairs@[k], self.pairs@[mid as int]));
                        }
                    }
                }
                i = mid + 1;
            } else {
                hi = mid;
            }
        }
        if i < n && self.pairs[i].0 == term && self.pairs[i].1 == line {
            assert(self.pairs@[i as int] == (term, line));
            assert(self.has(term, line));
        } else {
            let ghost before = self.pairs@;
            self.pairs.insert(i, (term, line));
            proof {
                let after = self.pairs@;
                assert(after == before.insert(i as int, (term, line)));
                assert forall|a: int, b: int| 0 <= a < b < after.len() implies pair_before(
                    #[trigger] after[a],
                    #[trigger] after[b],
                ) by {
                    if b < i {
                        assert(pair_before(before[a], before[b]));
                    } else if b == i {
                        assert(pair_before(before[a], (term, line)));
                    } else if a < i {
                        assert(pair_before(before[a], before[b - 1]));
                    } else if a == i {
                        assert(after[b] == before[b - 1]);
                        if b - 1 > i {
                            assert(pair_before(before[i as int], before[b - 1]));
                        }
                    } else {
                        assert(pair_before(before[a - 1], before[b - 1]));
                    }
                }
                assert forall|t: usize, l: usize|
                    self.has(t, l) <==> old(self).has(t, l) || (t == term && l == line) by {
                    if self.has(t, l) {
                        let k = choose|k: int| 0 <= k < after.len() && after[k] == (t, l);
                        if k < i {
                            assert(before[k] == (t, l));
                        } else if k > i {
                            assert(before[k - 1] == (t, l));
                        }
                    }
                    if old(self).has(t, l) {
                        let k = choose|k: int| 0 <= k < before.len() && before[k] == (t, l);
                        if k < i {
                            assert(after[k] == (t, l));
                        } else {
                            assert(after[k + 1] == (t, l));
                        }
                    }
                    if t == term && l == line {
                        assert(after[i as int] == (t, l));
                    }
                }
            }
        }
    }

    /// Whether `term` was found on `line`.
    pub fn contains(&self, term: usize, line: usize) -> (r: bool)
        ensures
            r == self.has(term, line),
    {
        let mut i: usize = 0;
        while i < self.pairs.len()
            invariant
                i <= self.pairs.len(),
                forall|k: int| 0 <= k < i ==> self.pairs@[k] != (term, line),
            decreases self.pairs.len() - i,
        {
            if self.pairs[i].0 == term && self.pairs[i].1 == line {
                assert(self.pairs@[i as int] == (term, line));
                return true;
            }
            i += 1;
        }
        false
    }

    /// The lines with a hit, each once, in increasing order.
    pub fn lines(&self) -> (out: Vec<usize>)
        ensures
            increasing(out@),
            forall|l: usize| #[trigger] out@.contains(l) <==> self.has_line(l),
    {
        let mut out: Vec<usize> = Vec::new();
        let mut i: usize = 0;
        while i < self.pairs.len()
            invariant
                i <= self.pairs.len(),
                increasing(out@),
                forall|l: usize|
                    #[trigger] out@.contains(l) <==> exists|k: int|
                        0 <= k < i && (#[trigger] self.pairs@[k]).1 == l,
            decreases self.pairs.len() - i,
        {
            let ghost prev = out@;
            let line: usize = self.pairs[i].1;
            insert_sorted(&mut out, line);
            proof {
                assert forall|l: usize|
                    #[trigger] out@.contains(l) <==> exists|k: int|
                        0 <= k < i + 1 && (#[trigger] self.pairs@[k]).1 == l by {
                    assert(out@.contains(l) <==> prev.contains(l) || l == line);
                    if prev.contains(l) {
                        let k = choose|k: int| 0 <= k < i && (#[trigger] self.pairs@[k]).1 == l;
                        assert(0 <= k < i + 1 && self.pairs@[k].1 == l);
                    }
                    if l == line {
                        assert(0 <= i < i + 1 && self.pairs@[i as int].1 == l);
                    }
                    if exists|k: int| 0 <= k < i + 1 && (#[trigger] self.pairs@[k]).1 == l {
                        let k = choose|k: int|
                            0 <= k < i + 1 && (#[trigger] self.pairs@[k]).1 == l;
                        if k < i {
                            assert(prev.contains(l));
                        }
                    }
                }
            }
            i += 1;
        }
        proof {
            assert forall|l: usize| #[trigger] out@.contains(l) <==> self.has_line(l) by {
                if out@.contains(l) {
                    let k = choose|k: int|
                        0 <= k < self.pairs@.len() && (#[trigger] self.pairs@[k]).1 == l;
                    assert(self.pairs@[k] == (self.pairs@[k].0, l));
                    assert(self.has(self.pairs@[k].0, l));
                }
                if self.has_line(l) {
                    let t = choose|t: usize| self.has(t, l);
                    let k = choose|k: int| 0 <= k < self.pairs@.len() && self.pairs@[k] == (t, l);
                    assert(self.pairs@[k].1 == l);
                }
            }
        }
        out
    }

    /// The terms that were found, each once, in increasing order.
    pub fn terms(&self) -> (out: Vec<usize>)
        requires
            self.wf(),
        ensures
            increasing(out@),
            forall|t: usize| #[trigger] out@.contains(t) <==> self.has_term(t),
    {
        let mut out: Vec<usize> = Vec::new();
        let mut i: usize = 0;
        while i < self.pairs.len()
            invariant
                i <= self.pairs.len(),
                self.wf(),
                increasing(out@),
                forall|t: usize|
                    out@.contains(t) <==> exists|k: int|
                        0 <= k < i && (#[trigger] self.pairs@[k]).0 == t,
                out@.len() > 0 ==> i > 0 && out@[out@.len() - 1] == self.pairs@[i - 1].0,
            decreases self.pairs.len() - i,
        {
            let t: usize = self.pairs[i].0;
            let ghost prev = out@;
            if out.len() == 0 || out[out.len() - 1] != t {
                proof {
                    if prev.len() > 0 {
                        assert(pair_before(self.pairs@[i - 1], self.pairs@[i as int]));
                    }
                }
                out.push(t);
                proof {
                    assert forall|a: int, b: int| 0 <= a < b < out@.len() implies #[trigger] out@[a]
                        < #[trigger] out@[b] by {
                        if b == out@.len() - 1 {
                            if a < prev.len() - 1 {
                                assert(prev[a] < prev[prev.len() - 1]);
                            }
                        } else {
                            assert(prev[a] < prev[b]);
                        }
                    }
                }
            }
            proof {
                assert forall|u: usize|
                    out@.contains(u) <==> exists|k: int|
                        0 <= k < i + 1 && (#[trigger] self.pairs@[k]).0 == u by {
                    if out@.contains(u) {
                        let a = choose|a: int| 0 <= a < out@.len() && out@[a] == u;
                        if a < prev.len() {
                            assert(prev[a] == u);
                            assert(prev.contains(u));
                        } else {
                            assert(self.pairs@[i as int].0 == u);
                        }
                    }
                    if exists|k: int| 0 <= k < i + 1 && (#[trigger] self.pairs@[k]).0 == u {
                        let k = choose|k: int| 0 <= k < i + 1 && (#[trigger] self.pairs@[k]).0 == u;
                        if k < i {
                            assert(prev.contains(u));
                            let a = choose|a: int| 0 <= a < prev.len() && prev[a] == u;
                            assert(out@[a] == u);
                        } else {
                            assert(out@[out@.len() - 1] == u);
                        }
                    }
                }
            }
            i += 1;
        }
        proof {
            assert forall|t: usize| out@.contains(t) <==> self.has_term(t) by {
                if out@.contains(t) {
                    let k = choose|k: int|
                        0 <= k < self.pairs@.len() && (#[trigger] self.pairs@[k]).0 == t;
                    assert(self.pairs@[k] == (t, self.pairs@[k].1));
                    assert(self.has(t, self.pairs@[k].1));
                }
                if self.has_term(t) {
                    let l = choose|l: usize| self.has(t, l);
                    let k = choose|k: int| 0 <= k < self.pairs@.len() && self.pairs@[k] == (t, l);
                    assert(self.pairs@[k].0 == t);
                }
            }
        }
        out
    }
}

/// Two strictly increasing sequences of numbers with the same elements are
/// the same sequence.
pub proof fn lemma_increasing_unique(a: Seq<usize>, b: Seq<usize>)
    requires
        increasing(a),
        increasing(b),
        forall|x: usize| a.contains(x) <==> b.contains(x),
    ensures
        a == b,
    decreases a.len(),
{
    if a.len() == 0 {
        if b.len() > 0 {
            assert(b.contains(b[0]));
            assert(a.contains(b[0]));
        }
        assert(a =~= b);
    } else {
        assert(a.contains(a[0]));
        assert(b.contains(a[0]));
        assert(b.contains(b[0]));
        assert(a.contains(b[0]));
        let ia = choose|i: int| 0 <= i < a.len() && a[i] == b[0];
        let ib = choose|i: int| 0 <= i < b.len() && b[i] == a[0];
        assert(a[0] == b[0]) by {
            if ia > 0 {
                assert(a[0] < a[ia]);
            }
            if ib > 0 {
                assert(b[0] < b[ib]);
            }
        }
        let ta = a.drop_first();
        let tb = b.drop_first();
        assert(increasing(ta)) by {
            assert forall|i: int, j: int| 0 <= i < j < ta.len() implies #[trigger] ta[i]
                < #[trigger] ta[j] by {
                assert(a[i + 1] < a[j + 1]);
            }
        }
        assert(increasing(tb)) by {
            assert forall|i: int, j: int| 0 <= i < j < tb.len() implies #[trigger] tb[i]
                < #[trigger] tb[j] by {
                assert(b[i + 1] < b[j + 1]);
            }
        }
        assert forall|x: usize| ta.contains(x) <==> tb.contains(x) by {
            if ta.contains(x) {
                let i = choose|i: int| 0 <= i < ta.len() && ta[i] == x;
                assert(a[i + 1] == x);
                assert(a[0] < a[i + 1]);
                assert(a.contains(x));
                let j = choose|j: int| 0 <= j < b.len() && b[j] == x;
                assert(j > 0);
                assert(tb[j - 1] == x);
            }
            if tb.contains(x) {
                let i = choose|i: int| 0 <= i < tb.len() && tb[i] == x;
                assert(b[i + 1] == x);
                assert(b[0] < b[i + 1]);
                assert(b.contains(x));
                let j = choose|j: int| 0 <= j < a.len() && a[j] == x;
                assert(j > 0);
                assert(ta[j - 1] == x);
            }
        }
        lemma_increasing_unique(ta, tb);
        assert(a =~= seq![a[0]] + ta);
        assert(b =~= seq![b[0]] + tb);
    }
}

/// `s` with `x` put in its place, unless it is there.
pub open spec fn with_number(s: Seq<usize>, x: usize) -> Seq<usize>
    decreases s.len(),
{
    if s.len() == 0 {
        seq![x]
    } else if s.last() < x {
        s.push(x)
    } else if s.last() == x {
        s
    } else {
        with_number(s.drop_last(), x).push(s.last())
    }
}

/// Putting a number in its place keeps the order and adds just that number.
pub proof fn lemma_with_number(s: Seq<usize>, x: usize)
    requires
        increasing(s),
    ensures
        increasing(with_number(s, x)),
        forall|y: usize| #[trigger] with_number(s, x).contains(y) <==> s.contains(y) || y == x,
        with_number(s, x).len() > 0,
        with_number(s, x).last() == (if s.len() > 0 && s.last() > x {
            s.last()
        } else {
            x
        }),
    decreases s.len(),
{
    let out = with_number(s, x);
    if s.len() == 0 {
        assert(out[0] == x);
    } else if s.last() < x {
        assert forall|a: int, b: int| 0 <= a < b < out.len() implies #[trigger] out[a]
            < #[trigger] out[b] by {
            if b == s.len() {
                assert(out[a] == s[a]);
                if a < s.len() - 1 {
                    assert(s[a] < s[s.len() - 1]);
                }
            } else {
                assert(s[a] < s[b]);
            }
        }
        assert forall|y: usize| #[trigger] out.contains(y) <==> s.contains(y) || y == x by {
            if out.contains(y) {
                let k = choose|k: int| 0 <= k < out.len() && out[k] == y;
                if k < s.len() {
                    assert(s[k] == y);
                }
            }
            if s.contains(y) {
                let k = choose|k: int| 0 <= k < s.len() && s[k] == y;
                assert(out[k] == y);
            }
            if y == x {
                assert(out[out.len() - 1] == y);
            }
        }
    } else if s.last() == x {
        assert(s.contains(x)) by {
            assert(s[s.len() - 1] == x);
        }
    } else {
        let init = s.drop_last();
        assert(increasing(init)) by {
            assert forall|a: int, b: int| 0 <= a < b < init.len() implies #[trigger] init[a]
                < #[trigger] init[b] by {
                assert(s[a] < s[b]);
            }
        }
        lemma_with_number(init, x);
        let front = with_number(init, x);
        assert forall|a: int, b: int| 0 <= a < b < out.len() implies #[trigger] out[a]
            < #[trigger] out[b] by {
            if b == out.len() - 1 {
                assert(out[a] == front[a]);
                assert(front.contains(front[a]));
                if init.contains(front[a]) {
                    let k = choose|k: int| 0 <= k < init.len() && init[k] == front[a];
                    assert(s[k] < s[s.len() - 1]);
                }
            } else {
                assert(front[a] < front[b]);
            }
        }
        assert forall|y: usize| #[trigger] out.contains(y) <==> s.contains(y) || y == x by {
            if out.contains(y) {
                let k = choose|k: int| 0 <= k < out.len() && out[k] == y;
                if k < front.len() {
                    assert(front[k] == y);
                    assert(front.contains(y));
                    if init.contains(y) {
                        let j = choose|j: int| 0 <= j < init.len() && init[j] == y;
                        assert(s[j] == y);
                    }
                } else {
                    assert(s[s.len() - 1] == y);
                }
            }
            if s.contains(y) {
                let k = choose|k: int| 0 <= k < s.len() && s[k] == y;
                if k < init.len() {
                    assert(init[k] == y);
                    assert(init.contains(y));
                    assert(front.contains(y));
                    let j = choose|j: int| 0 <= j < front.len() && front[j] == y;
                    assert(out[j] == y);
                } else {
                    assert(out[out.len() - 1] == y);
                }
            }
            if y == x {
                assert(front.contains(x));
                let j = choose|j: int| 0 <= j < front.len() && front[j] == x;
                assert(out[j] == x);
            }
        }
    }
}

/// A copy of a vector of numbers.
pub fn copy_numbers(v: &Vec<usize>) -> (out: Vec<usize>)
    ensures
        out@ == v@,
{
    let mut out: Vec<usize> = Vec::new();
    let mut i: usize = 0;
    while i < v.len()
        invariant
            i <= v.len(),
            out@ == v@.take(i as int),
        decreases v.len() - i,
    {
        out.push(v[i]);
        i += 1;
        assert(out@ =~= v@.take(i as int));
    }
    assert(v@.take(v.len() as int) =~= v@);
    out
}

/// Whether `x` occurs in `v`.
pub fn member(v: &Vec<usize>, x: usize) -> (r: bool)
    ensures
        r == v@.contains(x),
{
    let mut i: usize = 0;
    while i < v.len()
        invariant
            i <= v.len(),
            forall|k: int| 0 <= k < i ==> v@[k] != x,
        decreases v.len() - i,
    {
        if v[i] == x {
            return true;
        }
        i += 1;
    }
    false
}

/// Inserts `x` into the strictly increasing vector `v`, unless it is there.
pub fn insert_sorted(v: &mut Vec<usize>, x: usize)
    requires
        increasing(old(v)@),
    ensures
        increasing(final(v)@),
        forall|y: usize| #[trigger] final(v)@.contains(y) <==> old(v)@.contains(y) || y == x,
{
    let n: usize = v.len();
    let mut i: usize = 0;
    let mut hi: usize = n;
    while i < hi
        invariant
            n == v.len(),
            i <= hi <= n,
            v@ == old(v)@,
            increasing(v@),
            forall|k: int| 0 <= k < i ==> #[trigger] v@[k] < x,
            hi < n ==> v@[hi as int] >= x,
        decreases hi - i,
    {
        let mid: usize = i + (hi - i) / 2;
        if v[mid] < x {
            proof {
                assert forall|k: int| 0 <= k < mid + 1 implies #[trigger] v@[k] < x by {
                    if k < mid {
                        assert(v@[k] < v@[mid as int]);
                    }
                }
            }
            i = mid + 1;
        } else {
            hi = mid;
        }
    }
    if i < n && v[i] == x {
        assert(v@.contains(x));
    } else {
        let ghost before = v@;
        v.insert(i, x);
        proof {
            let after = v@;
            assert forall|a: int, b: int| 0 <= a < b < after.len() implies #[trigger] after[a]
                < #[trigger] after[b] by {
                if b < i {
                    assert(before[a] < before[b]);
                } else if b == i {
                    assert(before[a] < x);
                } else if a < i {
                    assert(before[a] < before[b - 1]);
                } else if a == i {
                    assert(after[b] == before[b - 1]);
                    if b - 1 > i {
                        assert(before[i as int] < before[b - 1]);
                    }
                } else {
                    assert(before[a - 1] < before[b - 1]);
                }
            }
            assert forall|y: usize| after.contains(y) <==> before.contains(y) || y == x by {
                if after.contains(y) {
                    let k = choose|k: int| 0 <= k < after.len() && after[k] == y;
                    if k < i {
                        assert(before[k] == y);
                    } else if k > i {
                        assert(before[k - 1] == y);
                    }
                }
                if before.contains(y) {
                    let k = choose|k: int| 0 <= k < before.len() && before[k] == y;
                    if k < i {
                        assert(after[k] == y);
                    } else {
                        assert(after[k + 1] == y);
                    }
                }
                if y == x {
                    assert(after[i as int] == y);
                }
            }
        }
    }
}

} // verus!
