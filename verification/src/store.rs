//! The text form in which a session cache is kept between searches: one
//! line for each region, `start`, `end` and path separated by tabs. The
//! form is written by appending lines, and it is read line by line, so that
//! a last line that was cut short is passed over.

use crate::cache::{CachedRange, RangeView, SessionCache};
use crate::text::{chars_of, decimal_digits, digit_char, push_decimal, slice_chars, string_of};
use vstd::prelude::*;
use vstd::string::StringExecFns;

verus! {

/// The line of one region.
pub open spec fn entry_line(e: RangeView) -> Seq<char> {
    decimal_digits(e.start as nat) + seq!['\t'] + decimal_digits(e.end as nat) + seq!['\t']
        + e.file + seq!['\n']
}

/// The lines of all regions, in their order.
pub open spec fn encoded(entries: Seq<RangeView>) -> Seq<char>
    decreases entries.len(),
{
    if entries.len() == 0 {
        seq![]
    } else {
        encoded(entries.drop_last()) + entry_line(entries.last())
    }
}

/// Appends the line of one region to `out`.
pub fn push_entry(out: &mut String, e: &CachedRange)
    ensures
        final(out)@ == old(out)@ + entry_line(e@),
{
    push_decimal(out, e.start as u128);
    out.push('\t');
    push_decimal(out, e.end as u128);
    out.push('\t');
    out.append(e.file.as_str());
    out.push('\n');
    assert(out@ =~= old(out)@ + entry_line(e@));
}

/// The text form of a cache.
pub fn encode_entries(cache: &SessionCache) -> (out: String)
    ensures
        out@ == encoded(cache@),
{
    let ghost all = cache@;
    let mut out = String::new();
    let mut i: usize = 0;
    assert(out@ =~= encoded(all.take(0)));
    while i < cache.entries.len()
        invariant
            i <= cache.entries.len(),
            all == cache@,
            out@ == encoded(all.take(i as int)),
        decreases cache.entries.len() - i,
    {
        proof {
            assert(all.take(i + 1).drop_last() =~= all.take(i as int));
            assert(all.take(i + 1).last() == cache.entries@[i as int]@);
        }
        push_entry(&mut out, &cache.entries[i]);
        i += 1;
    }
    assert(all.take(all.len() as int) =~= all);
    out
}

/// A decimal digit.
pub open spec fn is_digit(c: char) -> bool {
    '0' <= c && c <= '9'
}

/// The value of a decimal digit.
pub open spec fn digit_value(c: char) -> nat {
    ((c as u8) - 48) as nat
}

/// The value of a decimal numeral.
pub open spec fn number_value(s: Seq<char>) -> nat
    decreases s.len(),
{
    if s.len() == 0 {
        0
    } else {
        number_value(s.drop_last()) * 10 + digit_value(s.last())
    }
}

/// Every character is a decimal digit.
pub open spec fn all_digits(s: Seq<char>) -> bool {
    forall|i: int| 0 <= i < s.len() ==> is_digit(#[trigger] s[i])
}

/// The number that a text denotes, if it is a decimal numeral of a number
/// that fits the machine.
pub open spec fn parsed_number(s: Seq<char>) -> Option<usize> {
    if s.len() > 0 && all_digits(s) && number_value(s) <= usize::MAX {
        Some(number_value(s) as usize)
    } else {
        None
    }
}

/// The first position at or after `from` that holds `c`, or the length.
pub open spec fn find_char(s: Seq<char>, c: char, from: int) -> int
    decreases s.len() - from,
{
    if from >= s.len() {
        s.len() as int
    } else if from >= 0 && s[from] == c {
        from
    } else {
        find_char(s, c, from + 1)
    }
}

/// The region that a line denotes: two numerals and a path, separated by
/// the first two tabs of the line.
pub open spec fn parsed_entry(line: Seq<char>) -> Option<RangeView> {
    let p1 = find_char(line, '\t', 0);
    let p2 = find_char(line, '\t', p1 + 1);
    if 0 <= p1 < p2 < line.len() {
        match (parsed_number(line.subrange(0, p1)), parsed_number(line.subrange(p1 + 1, p2))) {
            (Some(a), Some(b)) => Some(
                RangeView { file: line.subrange(p2 + 1, line.len() as int), start: a, end: b },
            ),
            _ => None,
        }
    } else {
        None
    }
}

/// The regions of the lines of `text` from position `from` on. Only lines
/// that end in a line feed count; a line that denotes no region is passed
/// over.
pub open spec fn decoded_from(text: Seq<char>, from: int) -> Seq<RangeView>
    decreases text.len() - from,
{
    if from < 0 || from >= text.len() {
        seq![]
    } else {
        let e = find_char(text, '\n', from);
        if from <= e < text.len() {
            (match parsed_entry(text.subrange(from, e)) {
                Some(x) => seq![x],
                None => seq![],
            }) + decoded_from(text, e + 1)
        } else {
            seq![]
        }
    }
}

/// The regions that a text form holds.
pub open spec fn decoded(text: Seq<char>) -> Seq<RangeView> {
    decoded_from(text, 0)
}

proof fn lemma_number_value_grows(s: Seq<char>, k: int)
    requires
        0 <= k <= s.len(),
    ensures
        number_value(s.take(k)) <= number_value(s),
    decreases s.len() - k,
{
    if k < s.len() {
        lemma_number_value_grows(s, k + 1);
        assert(s.take(k + 1).drop_last() =~= s.take(k));
        assert(number_value(s.take(k + 1)) >= number_value(s.take(k)) * 10) by {
            assert(number_value(s.take(k + 1)) == number_value(s.take(k)) * 10 + digit_value(
                s.take(k + 1).last(),
            ));
        }
    } else {
        assert(s.take(k) =~= s);
    }
}

fn parse_number(chars: &Vec<char>, from: usize, to: usize) -> (out: Option<usize>)
    requires
        from <= to <= chars.len(),
    ensures
        out == parsed_number(chars@.subrange(from as int, to as int)),
{
    let ghost s = chars@.subrange(from as int, to as int);
    if from == to {
        return None;
    }
    let mut value: usize = 0;
    let mut i: usize = from;
    assert(s.take(0) =~= Seq::<char>::empty());
    while i < to
        invariant
            from <= i <= to <= chars.len(),
            s == chars@.subrange(from as int, to as int),
            all_digits(s.take(i - from)),
            value == number_value(s.take(i - from)),
        decreases to - i,
    {
        let c = chars[i];
        proof {
            assert(s[i - from] == c);
            assert(s.take(i - from + 1).drop_last() =~= s.take(i - from));
            assert(s.take(i - from + 1).last() == c);
        }
        if !('0' <= c && c <= '9') {
            assert(!is_digit(s[i - from]));
            return None;
        }
        let d: usize = ((c as u8) - 48) as usize;
        if value > (usize::MAX - d) / 10 {
            proof {
                lemma_number_value_grows(s, i - from + 1);
                assert(number_value(s.take(i - from + 1)) == value * 10 + d);
            }
            return None;
        }
        value = value * 10 + d;
        proof {
            assert forall|k: int| 0 <= k < s.take(i - from + 1).len() implies is_digit(
                #[trigger] s.take(i - from + 1)[k],
            ) by {
                if k < i - from {
                    assert(s.take(i - from)[k] == s.take(i - from + 1)[k]);
                }
            }
        }
        i += 1;
    }
    assert(s.take(to - from) =~= s);
    Some(value)
}

fn find_from(chars: &Vec<char>, c: char, from: usize, to: usize) -> (p: usize)
    requires
        from <= to <= chars.len(),
    ensures
        from <= p <= to,
        p == find_char(chars@.subrange(0, to as int), c, from as int),
{
    let ghost s = chars@.subrange(0, to as int);
    let mut p: usize = from;
    while p < to && chars[p] != c
        invariant
            from <= p <= to <= chars.len(),
            s == chars@.subrange(0, to as int),
            find_char(s, c, from as int) == find_char(s, c, p as int),
        decreases to - p,
    {
        assert(s[p as int] == chars@[p as int]);
        p += 1;
    }
    proof {
        if p < to {
            assert(s[p as int] == chars@[p as int]);
        }
    }
    p
}

fn parse_entry(line: &Vec<char>) -> (out: Option<CachedRange>)
    ensures
        match out {
            Some(e) => parsed_entry(line@) == Some(e@),
            None => parsed_entry(line@) is None,
        },
{
    let n: usize = line.len();
    assert(line@.subrange(0, n as int) =~= line@);
    let p1 = find_from(line, '\t', 0, n);
    if p1 >= n {
        return None;
    }
    let p2 = find_from(line, '\t', p1 + 1, n);
    if p2 >= n {
        return None;
    }
    let start = parse_number(line, 0, p1);
    let end = parse_number(line, p1 + 1, p2);
    match start {
        Some(a) => match end {
            Some(b) => {
                let path = slice_chars(line, p2 + 1, n);
                Some(CachedRange { file: string_of(&path), start: a, end: b })
            },
            None => None,
        },
        None => None,
    }
}

/// Reads the regions of a text form.
pub fn decode_entries(text: &str) -> (out: Vec<CachedRange>)
    ensures
        out@.map_values(|e: CachedRange| e@) == decoded(text@),
{
    let chars = chars_of(text);
    let ghost s = chars@;
    let n: usize = chars.len();
    let mut out: Vec<CachedRange> = Vec::new();
    let mut pos: usize = 0;
    assert(s.subrange(0, n as int) =~= s);
    assert(out@.map_values(|e: CachedRange| e@) + decoded_from(s, 0) =~= decoded_from(s, 0));
    while pos < n
        invariant
            s == chars@,
            s == text@,
            n == chars.len(),
            pos <= n,
            s.subrange(0, n as int) == s,
            out@.map_values(|e: CachedRange| e@) + decoded_from(s, pos as int) == decoded_from(s, 0),
        decreases n - pos,
    {
        let e = find_from(&chars, '\n', pos, n);
        let ghost before = out@.map_values(|e: CachedRange| e@);
        if e < n {
            let line = slice_chars(&chars, pos, e);
            match parse_entry(&line) {
                Some(entry) => {
                    let ghost v = entry@;
                    out.push(entry);
                    assert(out@.map_values(|e: CachedRange| e@) =~= before.push(v));
                },
                None => {},
            }
            assert(out@.map_values(|e: CachedRange| e@) + decoded_from(s, e + 1) =~= before
                + decoded_from(s, pos as int));
            pos = e + 1;
        } else {
            assert(out@.map_values(|e: CachedRange| e@) + decoded_from(s, n as int) =~= before
                + decoded_from(s, pos as int));
            pos = n;
        }
    }
    assert(out@.map_values(|e: CachedRange| e@) + decoded_from(s, pos as int)
        =~= out@.map_values(|e: CachedRange| e@));
    out
}

proof fn lemma_numeral(n: nat)
    ensures
        decimal_digits(n).len() >= 1,
        all_digits(decimal_digits(n)),
        number_value(decimal_digits(n)) == n,
    decreases n,
{
    let d = decimal_digits(n);
    if n < 10 {
        assert(d.drop_last() =~= Seq::<char>::empty());
        assert(number_value(d.drop_last()) == 0);
        assert(d.last() == digit_char(n));
    } else {
        lemma_numeral(n / 10);
        let front = decimal_digits(n / 10);
        assert(d.drop_last() =~= front);
        assert(d.last() == digit_char(n % 10));
        assert forall|i: int| 0 <= i < d.len() implies is_digit(#[trigger] d[i]) by {
            if i < front.len() {
                assert(d[i] == front[i]);
            }
        }
    }
}

proof fn lemma_find_char(s: Seq<char>, c: char, from: int, at: int)
    requires
        0 <= from <= at <= s.len(),
        forall|i: int| from <= i < at ==> s[i] != c,
        at < s.len() ==> s[at] == c,
    ensures
        find_char(s, c, from) == at,
    decreases at - from,
{
    if from < at {
        lemma_find_char(s, c, from + 1, at);
    }
}

proof fn lemma_find_char_shift(a: Seq<char>, b: Seq<char>, c: char, q: int)
    requires
        0 <= q,
    ensures
        find_char(a + b, c, a.len() + q) == a.len() + find_char(b, c, q),
    decreases b.len() - q,
{
    if q < b.len() {
        assert((a + b)[a.len() + q] == b[q]);
        if b[q] != c {
            lemma_find_char_shift(a, b, c, q + 1);
        }
    }
}

proof fn lemma_find_char_range(s: Seq<char>, c: char, from: int)
    requires
        0 <= from,
    ensures
        from <= find_char(s, c, from) || find_char(s, c, from) == s.len(),
        find_char(s, c, from) <= s.len() || from > s.len(),
        forall|i: int| from <= i < find_char(s, c, from) && i < s.len() ==> s[i] != c,
        find_char(s, c, from) < s.len() ==> s[find_char(s, c, from)] == c,
    decreases s.len() - from,
{
    if from < s.len() && s[from] != c {
        lemma_find_char_range(s, c, from + 1);
    }
}

proof fn lemma_decoded_shift(a: Seq<char>, b: Seq<char>, q: int)
    requires
        0 <= q,
    ensures
        decoded_from(a + b, a.len() + q) == decoded_from(b, q),
    decreases b.len() - q,
{
    let t = a + b;
    if q < b.len() {
        lemma_find_char_shift(a, b, '\n', q);
        lemma_find_char_range(b, '\n', q);
        let e = find_char(b, '\n', q);
        if q <= e < b.len() {
            assert(t.subrange(a.len() + q, a.len() + e) =~= b.subrange(q, e));
            lemma_decoded_shift(a, b, e + 1);
        }
    }
}

proof fn lemma_decoded_concat(a: Seq<char>, b: Seq<char>, p: int)
    requires
        0 <= p <= a.len(),
        a.len() > 0 ==> a.last() == '\n',
    ensures
        decoded_from(a + b, p) == decoded_from(a, p) + decoded_from(b, 0),
    decreases a.len() - p,
{
    let t = a + b;
    if p == a.len() {
        lemma_decoded_shift(a, b, 0);
        assert(decoded_from(a, p) + decoded_from(b, 0) =~= decoded_from(b, 0));
    } else {
        lemma_find_char_range(a, '\n', p);
        let e = find_char(a, '\n', p);
        assert(e < a.len()) by {
            if e >= a.len() {
                assert(a[a.len() - 1] != '\n');
            }
        }
        assert forall|i: int| p <= i < e implies t[i] != '\n' by {
            assert(t[i] == a[i]);
        }
        assert(t[e] == a[e]);
        lemma_find_char(t, '\n', p, e);
        assert(t.subrange(p, e) =~= a.subrange(p, e));
        lemma_decoded_concat(a, b, e + 1);
        let head = match parsed_entry(a.subrange(p, e)) {
            Some(x) => seq![x],
            None => seq![],
        };
        assert(head + (decoded_from(a, e + 1) + decoded_from(b, 0)) =~= (head + decoded_from(
            a,
            e + 1,
        )) + decoded_from(b, 0));
    }
}

/// A path that the text form can hold: one without a line feed.
pub open spec fn storable(e: RangeView) -> bool {
    forall|i: int| 0 <= i < e.file.len() ==> e.file[i] != '\n'
}

proof fn lemma_entry_line(e: RangeView)
    requires
        storable(e),
    ensures
        decoded_from(entry_line(e), 0) == seq![e],
        entry_line(e).len() > 0,
        entry_line(e).last() == '\n',
{
    let a = decimal_digits(e.start as nat);
    let b = decimal_digits(e.end as nat);
    lemma_numeral(e.start as nat);
    lemma_numeral(e.end as nat);
    let line = entry_line(e);
    let body = a + seq!['\t'] + b + seq!['\t'] + e.file;
    assert(line =~= body + seq!['\n']);
    let n = body.len() as int;
    assert forall|i: int| 0 <= i < n implies line[i] != '\n' by {
        if i < a.len() {
            assert(line[i] == a[i]);
            assert(is_digit(a[i]));
        } else if i == a.len() {
        } else if i < a.len() + 1 + b.len() {
            assert(line[i] == b[i - a.len() - 1]);
            assert(is_digit(b[i - a.len() - 1]));
        } else if i == a.len() + 1 + b.len() {
        } else {
            assert(line[i] == e.file[i - a.len() - b.len() - 2]);
        }
    }
    lemma_find_char(line, '\n', 0, n);
    assert(line.subrange(0, n) =~= body);
    let p1 = a.len() as int;
    let p2 = (a.len() + 1 + b.len()) as int;
    assert forall|i: int| 0 <= i < p1 implies body[i] != '\t' by {
        assert(body[i] == a[i]);
        assert(is_digit(a[i]));
    }
    assert(body[p1] == '\t');
    lemma_find_char(body, '\t', 0, p1);
    assert forall|i: int| p1 + 1 <= i < p2 implies body[i] != '\t' by {
        assert(body[i] == b[i - p1 - 1]);
        assert(is_digit(b[i - p1 - 1]));
    }
    assert(body[p2] == '\t');
    lemma_find_char(body, '\t', p1 + 1, p2);
    assert(body.subrange(0, p1) =~= a);
    assert(body.subrange(p1 + 1, p2) =~= b);
    assert(body.subrange(p2 + 1, body.len() as int) =~= e.file);
    assert(parsed_entry(body) == Some(e));
    assert(decoded_from(line, n + 1) =~= Seq::<RangeView>::empty());
    assert(decoded_from(line, 0) =~= seq![e]);
}

/// What is written is read back: the text form of regions whose paths hold
/// no line feed decodes to these regions, in their order.
pub proof fn lemma_reads_back(entries: Seq<RangeView>)
    requires
        forall|i: int| 0 <= i < entries.len() ==> storable(#[trigger] entries[i]),
    ensures
        decoded(encoded(entries)) == entries,
        encoded(entries).len() > 0 ==> encoded(entries).last() == '\n',
    decreases entries.len(),
{
    if entries.len() == 0 {
        assert(decoded(encoded(entries)) =~= entries);
    } else {
        let init = entries.drop_last();
        let e = entries.last();
        assert forall|i: int| 0 <= i < init.len() implies storable(#[trigger] init[i]) by {
            assert(init[i] == entries[i]);
        }
        lemma_reads_back(init);
        lemma_entry_line(e);
        lemma_decoded_concat(encoded(init), entry_line(e), 0);
        assert(init.push(e) =~= entries);
        assert(decoded(encoded(init)) + seq![e] =~= entries);
    }
}

} // verus!
