//! Character-level text handling: lines, trimming, whitespace tokens, number
//! parsing and formatting, all stated over `Seq<char>`.
use vstd::prelude::*;

verus! {

// ---------------------------------------------------------------------------
// Conversions between `&str`/`String` and character vectors
// ---------------------------------------------------------------------------

/// Appends one character to a `String`, as std's `String::push` does: the
/// characters of the string afterwards are the old ones followed by `c`.
#[verifier::external_body]
pub(crate) fn push_char(s: &mut String, c: char)
    ensures
        final(s)@ == old(s)@.push(c),
{
    s.push(c);
}

/// The characters of `s`, in order.
pub fn chars_of(s: &str) -> (v: Vec<char>)
    ensures
        v@ == s@,
{
    let mut v: Vec<char> = Vec::new();
    for c in it: s.chars()
        invariant
            v@ == it.seq().take(it.index() as int),
            it.seq() == s@,
    {
        v.push(c);
    }
    v
}

/// Appends the characters of `v` to `out`.
pub fn push_chars(out: &mut String, v: &[char])
    ensures
        final(out)@ == old(out)@ + v@,
{
    let n = v.len();
    for i in 0..n
        invariant
            n == v@.len(),
            out@ == old(out)@ + v@.take(i as int),
    {
        push_char(out, v[i]);
        assert(v@.take(i + 1) =~= v@.take(i as int).push(v@[i as int]));
    }
    assert(v@.take(n as int) =~= v@);
}

/// A `String` holding exactly the characters of `v`.
pub fn string_of(v: &[char]) -> (s: String)
    ensures
        s@ == v@,
{
    let mut s = String::new();
    push_chars(&mut s, v);
    assert(s@ =~= v@);
    s
}

/// A `String` holding exactly the characters of `s`.
pub fn owned(s: &str) -> (r: String)
    ensures
        r@ == s@,
{
    let v = chars_of(s);
    string_of(&v)
}

/// The elements `lo..hi` of `s`, copied.
pub fn slice_range(s: &[char], lo: usize, hi: usize) -> (r: Vec<char>)
    requires
        lo <= hi <= s@.len(),
    ensures
        r@ == s@.subrange(lo as int, hi as int),
{
    let mut r: Vec<char> = Vec::new();
    let mut k = lo;
    while k < hi
        invariant
            lo <= k <= hi,
            hi <= s@.len(),
            r@ == s@.subrange(lo as int, k as int),
        decreases hi - k,
    {
        r.push(s[k]);
        assert(s@.subrange(lo as int, k + 1) =~= s@.subrange(lo as int, k as int).push(s@[k as int]));
        k += 1;
    }
    r
}

/// Character-wise equality of two character slices.
pub fn chars_eq(a: &[char], b: &[char]) -> (r: bool)
    ensures
        r == (a@ == b@),
{
    if a.len() != b.len() {
        return false;
    }
    let n = a.len();
    for i in 0..n
        invariant
            n == a@.len(),
            n == b@.len(),
            forall|k: int| 0 <= k < i ==> a@[k] == b@[k],
    {
        if a[i] != b[i] {
            return false;
        }
    }
    assert(a@ =~= b@);
    true
}

// ---------------------------------------------------------------------------
// Whitespace and trimming
// ---------------------------------------------------------------------------

/// The characters with the Unicode `White_Space` property, which is what
/// `char::is_whitespace` tests.
pub open spec fn is_whitespace(c: char) -> bool {
    ||| c == '\t'
    ||| c == '\n'
    ||| c == '\u{0B}'
    ||| c == '\u{0C}'
    ||| c == '\r'
    ||| c == ' '
    ||| c == '\u{85}'
    ||| c == '\u{A0}'
    ||| c == '\u{1680}'
    ||| ('\u{2000}' <= c && c <= '\u{200A}')
    ||| c == '\u{2028}'
    ||| c == '\u{2029}'
    ||| c == '\u{202F}'
    ||| c == '\u{205F}'
    ||| c == '\u{3000}'
}

pub fn is_whitespace_char(c: char) -> (r: bool)
    ensures
        r == is_whitespace(c),
{
    c == '\t' || c == '\n' || c == '\u{0B}' || c == '\u{0C}' || c == '\r' || c == ' ' || c
        == '\u{85}' || c == '\u{A0}' || c == '\u{1680}' || ('\u{2000}' <= c && c <= '\u{200A}')
        || c == '\u{2028}' || c == '\u{2029}' || c == '\u{202F}' || c == '\u{205F}' || c
        == '\u{3000}'
}

/// Index of the first non-whitespace character at or after `i`.
pub open spec fn skip_ws(s: Seq<char>, i: int) -> int
    decreases s.len() - i,
{
    if 0 <= i < s.len() && is_whitespace(s[i]) {
        skip_ws(s, i + 1)
    } else {
        i
    }
}

/// Index just past the last non-whitespace character in `lo..j`.
pub open spec fn back_ws(s: Seq<char>, lo: int, j: int) -> int
    decreases j - lo,
{
    if lo < j <= s.len() && is_whitespace(s[j - 1]) {
        back_ws(s, lo, j - 1)
    } else {
        j
    }
}

/// `s` without its leading and trailing whitespace (`str::trim`).
pub open spec fn trim(s: Seq<char>) -> Seq<char> {
    let lo = skip_ws(s, 0);
    s.subrange(lo, back_ws(s, lo, s.len() as int))
}

pub proof fn lemma_skip_ws_bounds(s: Seq<char>, i: int)
    requires
        0 <= i <= s.len(),
    ensures
        i <= skip_ws(s, i) <= s.len(),
    decreases s.len() - i,
{
    if i < s.len() && is_whitespace(s[i]) {
        lemma_skip_ws_bounds(s, i + 1);
    }
}

pub proof fn lemma_back_ws_bounds(s: Seq<char>, lo: int, j: int)
    requires
        0 <= lo <= j <= s.len(),
    ensures
        lo <= back_ws(s, lo, j) <= j,
    decreases j - lo,
{
    if lo < j && is_whitespace(s[j - 1]) {
        lemma_back_ws_bounds(s, lo, j - 1);
    }
}

/// `s` with leading and trailing whitespace removed.
pub fn trim_chars(s: &[char]) -> (r: Vec<char>)
    ensures
        r@ == trim(s@),
{
    let n = s.len();
    let mut i: usize = 0;
    while i < n && is_whitespace_char(s[i])
        invariant
            0 <= i <= n,
            n == s@.len(),
            skip_ws(s@, i as int) == skip_ws(s@, 0),
        decreases n - i,
    {
        i += 1;
    }
    let mut j: usize = n;
    while j > i && is_whitespace_char(s[j - 1])
        invariant
            i <= j <= n,
            n == s@.len(),
            back_ws(s@, i as int, j as int) == back_ws(s@, i as int, n as int),
        decreases j,
    {
        j -= 1;
    }
    slice_range(s, i, j)
}

// ---------------------------------------------------------------------------
// Prefixes, suffixes and containment
// ---------------------------------------------------------------------------

pub open spec fn starts_with(s: Seq<char>, p: Seq<char>) -> bool {
    p.len() <= s.len() && s.subrange(0, p.len() as int) == p
}

/// Whether `p` occurs in `s` starting at index `i`.
pub open spec fn occurs_at(s: Seq<char>, p: Seq<char>, i: int) -> bool {
    0 <= i && i + p.len() <= s.len() && s.subrange(i, i + p.len()) == p
}

/// Whether `p` occurs anywhere in `s` (`str::contains` with a string pattern).
pub open spec fn contains_seq(s: Seq<char>, p: Seq<char>) -> bool {
    exists|i: int| occurs_at(s, p, i)
}

pub fn occurs_at_exec(s: &[char], p: &[char], i: usize) -> (r: bool)
    ensures
        r == occurs_at(s@, p@, i as int),
{
    if i > s.len() || p.len() > s.len() - i {
        return false;
    }
    let m = p.len();
    for k in 0..m
        invariant
            m == p@.len(),
            i + m <= s.len(),
            forall|t: int| 0 <= t < k ==> s@[i + t] == p@[t],
    {
        if s[i + k] != p[k] {
            assert(s@.subrange(i as int, i + m)[k as int] != p@[k as int]);
            return false;
        }
    }
    assert(s@.subrange(i as int, i + m) =~= p@);
    true
}

pub fn starts_with_chars(s: &[char], p: &[char]) -> (r: bool)
    ensures
        r == starts_with(s@, p@),
{
    occurs_at_exec(s, p, 0)
}

pub fn contains_chars(s: &[char], p: &[char]) -> (r: bool)
    ensures
        r == contains_seq(s@, p@),
{
    if p.len() > s.len() {
        return false;
    }
    let last = s.len() - p.len();
    let mut i: usize = 0;
    while i <= last
        invariant
            last + p@.len() == s@.len(),
            forall|t: int| 0 <= t < i ==> !occurs_at(s@, p@, t),
        decreases last + 1 - i,
    {
        if occurs_at_exec(s, p, i) {
            return true;
        }
        if i == last {
            return false;
        }
        i += 1;
    }
    false
}

pub fn contains_char(s: &[char], c: char) -> (r: bool)
    ensures
        r == s@.contains(c),
{
    let n = s.len();
    for i in 0..n
        invariant
            n == s@.len(),
            forall|t: int| 0 <= t < i ==> s@[t] != c,
    {
        if s[i] == c {
            return true;
        }
    }
    false
}

pub open spec fn ends_with_char(s: Seq<char>, c: char) -> bool {
    s.len() > 0 && s.last() == c
}

// ---------------------------------------------------------------------------
// Lines
// ---------------------------------------------------------------------------

/// Index of the first `'\n'` at or after `i`, or the length of `s`.
pub open spec fn line_end(s: Seq<char>, i: int) -> int
    decreases s.len() - i,
{
    if 0 <= i < s.len() && s[i] != '\n' {
        line_end(s, i + 1)
    } else {
        i
    }
}

pub proof fn lemma_line_end_bounds(s: Seq<char>, i: int)
    requires
        0 <= i <= s.len(),
    ensures
        i <= line_end(s, i) <= s.len(),
        line_end(s, i) < s.len() ==> s[line_end(s, i)] == '\n',
        forall|k: int| i <= k < line_end(s, i) ==> s[k] != '\n',
    decreases s.len() - i,
{
    if i < s.len() && s[i] != '\n' {
        lemma_line_end_bounds(s, i + 1);
    }
}

/// A line terminated by `"\r\n"` loses its `'\r'`.
pub open spec fn strip_cr(raw: Seq<char>) -> Seq<char> {
    if raw.len() > 0 && raw.last() == '\r' {
        raw.drop_last()
    } else {
        raw
    }
}

/// The lines of `s` from index `i` on, as `str::lines` yields them: split at
/// `'\n'`, with a `'\r'` right before a `'\n'` removed, and no empty line
/// after a final line ending.
pub open spec fn lines_from(s: Seq<char>, i: int) -> Seq<Seq<char>>
    decreases s.len() + 1 - i,
{
    if i < 0 || i >= s.len() {
        seq![]
    } else {
        let e = line_end(s, i);
        proof {
            lemma_line_end_bounds(s, i);
        }
        let raw = s.subrange(i, e);
        let line = if e < s.len() {
            strip_cr(raw)
        } else {
            raw
        };
        seq![line] + lines_from(s, e + 1)
    }
}

pub open spec fn lines(s: Seq<char>) -> Seq<Seq<char>> {
    lines_from(s, 0)
}

/// Line ends are found the same way in a suffix placed after any prefix.
pub proof fn lemma_line_end_shift(p: Seq<char>, b: Seq<char>, j: int)
    requires
        0 <= j <= b.len(),
    ensures
        line_end(p + b, p.len() + j) == p.len() + line_end(b, j),
    decreases b.len() - j,
{
    if j < b.len() {
        assert((p + b)[p.len() + j] == b[j]);
        if b[j] != '\n' {
            lemma_line_end_shift(p, b, j + 1);
        }
    }
}

/// The lines of a suffix do not depend on what comes before it.
pub proof fn lemma_lines_from_shift(p: Seq<char>, b: Seq<char>, j: int)
    requires
        0 <= j,
    ensures
        lines_from(p + b, p.len() + j) == lines_from(b, j),
    decreases b.len() + 1 - j,
{
    if j < b.len() {
        let s = p + b;
        let e = line_end(b, j);
        lemma_line_end_bounds(b, j);
        lemma_line_end_shift(p, b, j);
        assert(s.subrange(p.len() + j, p.len() + e) =~= b.subrange(j, e));
        lemma_lines_from_shift(p, b, e + 1);
        assert(p.len() + e + 1 == p.len() + (e + 1));
    }
}

/// Up to the first `'\n'` placed after `a`, line ends are found as in `a`.
pub proof fn lemma_line_end_prefix(a: Seq<char>, b: Seq<char>, k: int)
    requires
        0 <= k <= a.len(),
    ensures
        line_end(a + seq!['\n'] + b, k) == line_end(a, k),
    decreases a.len() - k,
{
    let s = a + seq!['\n'] + b;
    if k < a.len() {
        assert(s[k] == a[k]);
        if a[k] != '\n' {
            lemma_line_end_prefix(a, b, k + 1);
        }
    } else {
        assert(s[k] == '\n');
    }
}

/// Every line holds no `'\n'`, and only characters of the text.
pub proof fn lemma_lines_chars(s: Seq<char>, i: int, c: char)
    ensures
        forall|k: int|
            0 <= k < lines_from(s, i).len() ==> !(#[trigger] lines_from(s, i)[k]).contains('\n')
                && (lines_from(s, i)[k].contains(c) ==> s.contains(c)),
    decreases s.len() + 1 - i,
{
    if 0 <= i < s.len() {
        let e = line_end(s, i);
        lemma_line_end_bounds(s, i);
        let raw = s.subrange(i, e);
        let line = if e < s.len() {
            strip_cr(raw)
        } else {
            raw
        };
        lemma_lines_chars(s, e + 1, c);
        let ls = lines_from(s, i);
        assert(ls == seq![line] + lines_from(s, e + 1));
        assert forall|k: int| 0 <= k < ls.len() implies !(#[trigger] ls[k]).contains('\n') && (
        ls[k].contains(c) ==> s.contains(c)) by {
            if k == 0 {
                assert(ls[0] == line);
                if line.contains('\n') {
                    let m = choose|m: int| 0 <= m < line.len() && line[m] == '\n';
                    assert(raw[m] == s[i + m]);
                }
                if line.contains(c) {
                    let m = choose|m: int| 0 <= m < line.len() && line[m] == c;
                    assert(raw[m] == s[i + m]);
                }
            } else {
                assert(ls[k] == lines_from(s, e + 1)[k - 1]);
            }
        }
    }
}

/// A line with no `'\n'` and no trailing `'\r'`, a line break and more text:
/// that line comes first, then the lines of the rest.
pub proof fn lemma_lines_cons(x: Seq<char>, b: Seq<char>)
    requires
        !x.contains('\n'),
        !(x.len() > 0 && x.last() == '\r'),
    ensures
        lines(x + seq!['\n'] + b) == seq![x] + lines(b),
{
    let s = x + seq!['\n'] + b;
    let p = x + seq!['\n'];
    assert(s =~= p + b);
    assert forall|k: int| 0 <= k < x.len() implies x[k] != '\n' by {
        if x[k] == '\n' {
            assert(x.contains('\n'));
        }
    }
    lemma_line_end_prefix(x, b, 0);
    lemma_line_end_bounds(x, 0);
    assert(line_end(x, 0) == x.len());
    assert(s.subrange(0, x.len() as int) =~= x);
    lemma_lines_from_shift(p, b, 0);
    assert(lines_from(s, x.len() + 1 as int) == lines_from(b, 0));
}

/// A single line with no `'\n'`: it is the only line, unless it is empty.
pub proof fn lemma_lines_single(x: Seq<char>)
    requires
        !x.contains('\n'),
    ensures
        x.len() > 0 ==> lines(x) == seq![x],
        x.len() == 0 ==> lines(x) == Seq::<Seq<char>>::empty(),
{
    if x.len() > 0 {
        assert forall|k: int| 0 <= k < x.len() implies x[k] != '\n' by {
            if x[k] == '\n' {
                assert(x.contains('\n'));
            }
        }
        lemma_line_end_bounds(x, 0);
        assert(line_end(x, 0) == x.len());
        assert(x.subrange(0, x.len() as int) =~= x);
        assert(lines_from(x, x.len() + 1 as int) =~= Seq::<Seq<char>>::empty());
        assert(lines(x) =~= seq![x]);
    }
}

/// Joined lines split at their first line break.
pub proof fn lemma_join_lines_first(ls: Seq<Seq<char>>)
    requires
        ls.len() >= 2,
    ensures
        join_lines(ls) == ls[0] + seq!['\n'] + join_lines(ls.drop_first()),
    decreases ls.len(),
{
    if ls.len() > 2 {
        let dl = ls.drop_last();
        let df = ls.drop_first();
        lemma_join_lines_first(dl);
        assert(dl.drop_first() =~= df.drop_last());
        assert(df.last() == ls.last());
        assert(dl[0] == ls[0]);
        assert(join_lines(df) == join_lines(df.drop_last()) + seq!['\n'] + df.last());
        assert(join_lines(ls) == join_lines(dl) + seq!['\n'] + ls.last());
        assert(join_lines(ls) =~= ls[0] + seq!['\n'] + join_lines(df));
    } else {
        assert(ls.drop_last() =~= seq![ls[0]]);
        assert(ls.drop_first() =~= seq![ls[1]]);
        assert(join_lines(ls.drop_last()) == ls[0]);
        assert(join_lines(ls.drop_first()) == ls[1]);
    }
}

/// Lines with no line break or carriage return, the last one not empty,
/// come back unchanged when joined and split again.
pub proof fn lemma_lines_of_join(ls: Seq<Seq<char>>)
    requires
        forall|k: int| 0 <= k < ls.len() ==> !(#[trigger] ls[k]).contains('\n') && !ls[k].contains('\r'),
        ls.len() > 0 ==> ls.last().len() > 0,
    ensures
        lines(join_lines(ls)) == ls,
    decreases ls.len(),
{
    if ls.len() == 0 {
        assert(lines(join_lines(ls)) =~= ls);
    } else if ls.len() == 1 {
        lemma_lines_single(ls[0]);
        assert(seq![ls[0]] =~= ls);
    } else {
        lemma_join_lines_first(ls);
        let rest = ls.drop_first();
        assert forall|k: int| 0 <= k < rest.len() implies !(#[trigger] rest[k]).contains('\n')
            && !rest[k].contains('\r') by {
            assert(rest[k] == ls[k + 1]);
        }
        lemma_lines_of_join(rest);
        let x = ls[0];
        assert(!x.contains('\n') && !x.contains('\r'));
        if x.len() > 0 && x.last() == '\r' {
            assert(x[x.len() - 1] == '\r');
        }
        lemma_lines_cons(x, join_lines(rest));
        assert(seq![x] + rest =~= ls);
    }
}

/// Dropping trailing whitespace does not change the trimmed text.
pub proof fn lemma_trim_drop_last_ws(x: Seq<char>)
    requires
        x.len() > 0,
        is_whitespace(x.last()),
    ensures
        trim(x.drop_last()) == trim(x),
{
    let y = x.drop_last();
    lemma_skip_ws_prefix(x, 0);
    lemma_skip_ws_bounds(y, 0);
    let lo = skip_ws(y, 0);
    if lo < y.len() {
        assert(skip_ws(x, 0) == lo);
        assert(back_ws(x, lo, x.len() as int) == back_ws(x, lo, y.len() as int));
        lemma_back_ws_prefix(x, lo, y.len() as int);
        lemma_back_ws_bounds(y, lo, y.len() as int);
        let hi = back_ws(y, lo, y.len() as int);
        assert(x.subrange(lo, hi) =~= y.subrange(lo, hi));
    } else {
        assert(skip_ws(x, 0) == x.len());
        assert(trim(x) =~= Seq::<char>::empty());
        assert(trim(y) =~= Seq::<char>::empty());
    }
}

proof fn lemma_skip_ws_prefix(x: Seq<char>, i: int)
    requires
        x.len() > 0,
        is_whitespace(x.last()),
        0 <= i <= x.len() - 1,
    ensures
        skip_ws(x.drop_last(), i) < x.len() - 1 ==> skip_ws(x, i) == skip_ws(x.drop_last(), i),
        skip_ws(x.drop_last(), i) >= x.len() - 1 ==> skip_ws(x, i) == x.len(),
    decreases x.len() - i,
{
    let y = x.drop_last();
    if i < y.len() {
        assert(x[i] == y[i]);
        if is_whitespace(y[i]) {
            lemma_skip_ws_prefix(x, i + 1);
        }
    } else {
        assert(x[i] == x.last());
        assert(skip_ws(x, i + 1) == i + 1);
    }
}

proof fn lemma_back_ws_prefix(x: Seq<char>, lo: int, j: int)
    requires
        x.len() > 0,
        0 <= lo <= j <= x.len() - 1,
    ensures
        back_ws(x, lo, j) == back_ws(x.drop_last(), lo, j),
    decreases j - lo,
{
    if lo < j {
        assert(x[j - 1] == x.drop_last()[j - 1]);
        lemma_back_ws_prefix(x, lo, j - 1);
    }
}

/// The views of a sequence of character vectors.
pub open spec fn views(v: Seq<Vec<char>>) -> Seq<Seq<char>> {
    v.map_values(|x: Vec<char>| x@)
}

/// The lines of `s` (see [`lines`]).
pub fn split_lines(s: &[char]) -> (r: Vec<Vec<char>>)
    ensures
        views(r@) == lines(s@),
{
    let n = s.len();
    let mut r: Vec<Vec<char>> = Vec::new();
    let mut i: usize = 0;
    while i < n
        invariant
            n == s@.len(),
            0 <= i <= n,
            views(r@) + lines_from(s@, i as int) == lines(s@),
        decreases n - i,
    {
        let mut e = i;
        while e < n && s[e] != '\n'
            invariant
                i <= e <= n,
                n == s@.len(),
                line_end(s@, e as int) == line_end(s@, i as int),
            decreases n - e,
        {
            e += 1;
        }
        proof {
            lemma_line_end_bounds(s@, i as int);
        }
        let line = if e < n && e > i && s[e - 1] == '\r' {
            slice_range(s, i, e - 1)
        } else {
            slice_range(s, i, e)
        };
        let ghost old_r = r@;
        r.push(line);
        proof {
            assert(views(r@) =~= views(old_r).push(line@));
            assert(line@ == lines_from(s@, i as int)[0]);
            assert(lines_from(s@, i as int) =~= seq![line@] + lines_from(s@, e + 1));
            assert(views(r@) + lines_from(s@, e + 1) =~= views(old_r) + lines_from(
                s@,
                i as int,
            ));
        }
        if e < n {
            i = e + 1;
        } else {
            assert(lines_from(s@, e + 1) =~= Seq::<Seq<char>>::empty());
            assert(lines_from(s@, n as int) =~= Seq::<Seq<char>>::empty());
            i = n;
        }
    }
    proof {
        assert(lines_from(s@, i as int) =~= Seq::<Seq<char>>::empty());
        assert(views(r@) + Seq::<Seq<char>>::empty() =~= views(r@));
    }
    r
}

/// The lines joined with `'\n'` between them (`[..].join("\n")`).
pub open spec fn join_lines(ls: Seq<Seq<char>>) -> Seq<char>
    decreases ls.len(),
{
    if ls.len() == 0 {
        seq![]
    } else if ls.len() == 1 {
        ls[0]
    } else {
        join_lines(ls.drop_last()) + seq!['\n'] + ls.last()
    }
}

/// The lines joined with `'\n'` (see [`join_lines`]).
pub fn join_with_newlines(ls: &Vec<Vec<char>>) -> (r: String)
    ensures
        r@ == join_lines(views(ls@)),
{
    let mut out = String::new();
    let n = ls.len();
    for i in 0..n
        invariant
            n == ls@.len(),
            out@ == join_lines(views(ls@).take(i as int)),
    {
        let ghost before = out@;
        if i > 0 {
            push_char(&mut out, '\n');
        }
        push_chars(&mut out, ls[i].as_slice());
        proof {
            let t = views(ls@).take(i + 1);
            assert(t.drop_last() =~= views(ls@).take(i as int));
            assert(t.last() == ls@[i as int]@);
            if i == 0 {
                assert(before =~= Seq::<char>::empty());
                assert(out@ =~= t[0]);
            } else {
                assert(out@ =~= join_lines(t.drop_last()) + seq!['\n'] + t.last());
            }
        }
    }
    assert(views(ls@).take(n as int) =~= views(ls@));
    out
}

// ---------------------------------------------------------------------------
// Whitespace-separated tokens
// ---------------------------------------------------------------------------

/// Index of the first whitespace character at or after `i`, or the length.
pub open spec fn token_end(s: Seq<char>, i: int) -> int
    decreases s.len() - i,
{
    if 0 <= i < s.len() && !is_whitespace(s[i]) {
        token_end(s, i + 1)
    } else {
        i
    }
}

pub proof fn lemma_token_end_bounds(s: Seq<char>, i: int)
    requires
        0 <= i <= s.len(),
    ensures
        i <= token_end(s, i) <= s.len(),
        i < s.len() && !is_whitespace(s[i]) ==> i < token_end(s, i),
    decreases s.len() - i,
{
    if i < s.len() && !is_whitespace(s[i]) {
        lemma_token_end_bounds(s, i + 1);
    }
}

/// The whitespace-separated tokens of `s` from index `i` on
/// (`str::split_whitespace`).
pub open spec fn tokens_from(s: Seq<char>, i: int) -> Seq<Seq<char>>
    decreases s.len() + 1 - i,
{
    if i < 0 || i >= s.len() {
        seq![]
    } else if is_whitespace(s[i]) {
        tokens_from(s, i + 1)
    } else {
        let e = token_end(s, i);
        proof {
            lemma_token_end_bounds(s, i);
        }
        seq![s.subrange(i, e)] + tokens_from(s, e)
    }
}

pub open spec fn tokens(s: Seq<char>) -> Seq<Seq<char>> {
    tokens_from(s, 0)
}

/// Skipping leading whitespace is not affected by text appended after a
/// non-whitespace character.
pub proof fn lemma_skip_ws_extend(a: Seq<char>, c: Seq<char>, i: int)
    requires
        0 <= i <= a.len(),
        skip_ws(a, i) < a.len(),
    ensures
        skip_ws(a + c, i) == skip_ws(a, i),
    decreases a.len() - i,
{
    assert((a + c)[i] == a[i]);
    if is_whitespace(a[i]) {
        lemma_skip_ws_extend(a, c, i + 1);
    }
}

/// What [`back_ws`] skips is whitespace.
pub proof fn lemma_back_ws_tail(s: Seq<char>, lo: int, j: int)
    requires
        0 <= lo <= j <= s.len(),
    ensures
        forall|k: int| back_ws(s, lo, j) <= k < j ==> is_whitespace(#[trigger] s[k]),
    decreases j - lo,
{
    if lo < j && is_whitespace(s[j - 1]) {
        lemma_back_ws_tail(s, lo, j - 1);
    }
}

/// A token of `x` ends where it ends in `x` followed by whitespace.
proof fn lemma_token_end_prefix(x: Seq<char>, y: Seq<char>, i: int)
    requires
        0 <= i <= x.len(),
        y.len() > 0,
        is_whitespace(y[0]),
    ensures
        token_end(x + y, i) == token_end(x, i),
    decreases x.len() - i,
{
    if i < x.len() {
        assert((x + y)[i] == x[i]);
        if !is_whitespace(x[i]) {
            lemma_token_end_prefix(x, y, i + 1);
        }
    } else {
        assert((x + y)[i] == y[0]);
    }
}

proof fn lemma_token_end_no_ws(s: Seq<char>, j: int)
    requires
        0 <= j <= s.len(),
        forall|k: int| j <= k < s.len() ==> !is_whitespace(#[trigger] s[k]),
    ensures
        token_end(s, j) == s.len(),
    decreases s.len() - j,
{
    if j < s.len() {
        lemma_token_end_no_ws(s, j + 1);
    }
}

proof fn lemma_tokens_skip_ws(s: Seq<char>, i: int, j: int)
    requires
        0 <= i <= j <= s.len(),
        forall|k: int| i <= k < j ==> is_whitespace(#[trigger] s[k]),
    ensures
        tokens_from(s, i) == tokens_from(s, j),
    decreases j - i,
{
    if i < j {
        lemma_tokens_skip_ws(s, i + 1, j);
    }
}

/// The tokens of `x`, whitespace and then one more token `b`: the tokens of
/// `x`, then `b`.
pub proof fn lemma_tokens_append(x: Seq<char>, w: Seq<char>, b: Seq<char>, i: int)
    requires
        0 <= i <= x.len(),
        w.len() > 0,
        forall|k: int| 0 <= k < w.len() ==> is_whitespace(#[trigger] w[k]),
        b.len() > 0,
        forall|k: int| 0 <= k < b.len() ==> !is_whitespace(#[trigger] b[k]),
    ensures
        tokens_from(x + w + b, i) == tokens_from(x, i) + seq![b],
    decreases x.len() - i,
{
    let s = x + w + b;
    let n = x.len() as int;
    if i == n {
        assert forall|k: int| n <= k < n + w.len() implies is_whitespace(#[trigger] s[k]) by {
            assert(s[k] == w[k - n]);
        }
        lemma_tokens_skip_ws(s, n, n + w.len());
        let m = n + w.len();
        assert forall|k: int| m <= k < s.len() implies !is_whitespace(#[trigger] s[k]) by {
            assert(s[k] == b[k - m]);
        }
        lemma_token_end_no_ws(s, m);
        assert(!is_whitespace(s[m])) by {
            assert(s[m] == b[0]);
        }
        assert(s.subrange(m, s.len() as int) =~= b);
        assert(tokens_from(s, s.len() as int) =~= Seq::<Seq<char>>::empty());
        assert(tokens_from(x, n) =~= Seq::<Seq<char>>::empty());
        assert(tokens_from(s, m) == seq![b] + tokens_from(s, s.len() as int));
        assert(seq![b] + Seq::<Seq<char>>::empty() =~= seq![b]);
        assert(Seq::<Seq<char>>::empty() + seq![b] =~= seq![b]);
    } else {
        assert(s[i] == x[i]);
        if is_whitespace(x[i]) {
            lemma_tokens_append(x, w, b, i + 1);
        } else {
            let wb = w + b;
            assert(s =~= x + wb);
            assert(wb[0] == w[0]);
            lemma_token_end_prefix(x, wb, i);
            lemma_token_end_bounds(x, i);
            let e = token_end(x, i);
            assert(s.subrange(i, e) =~= x.subrange(i, e));
            lemma_tokens_append(x, w, b, e);
            assert(tokens_from(s, i) == seq![x.subrange(i, e)] + tokens_from(s, e));
            assert(tokens_from(x, i) == seq![x.subrange(i, e)] + tokens_from(x, e));
            assert(seq![x.subrange(i, e)] + (tokens_from(x, e) + seq![b]) =~= (seq![
                x.subrange(i, e),
            ] + tokens_from(x, e)) + seq![b]);
        }
    }
}

/// Text without whitespace has at most one token.
pub proof fn lemma_tokens_no_ws(t: Seq<char>, i: int)
    requires
        0 <= i,
        forall|k: int| 0 <= k < t.len() ==> !is_whitespace(#[trigger] t[k]),
    ensures
        tokens_from(t, i).len() <= 1,
{
    if i < t.len() {
        lemma_token_end_no_ws(t, i);
        assert(tokens_from(t, t.len() as int) =~= Seq::<Seq<char>>::empty());
    }
}

/// The whitespace-separated tokens of `s` (see [`tokens`]).
pub fn split_whitespace(s: &[char]) -> (r: Vec<Vec<char>>)
    ensures
        views(r@) == tokens(s@),
{
    let n = s.len();
    let mut r: Vec<Vec<char>> = Vec::new();
    let mut i: usize = 0;
    while i < n
        invariant
            n == s@.len(),
            0 <= i <= n,
            views(r@) + tokens_from(s@, i as int) == tokens(s@),
        decreases n - i,
    {
        if is_whitespace_char(s[i]) {
            i += 1;
        } else {
            let mut e = i;
            while e < n && !is_whitespace_char(s[e])
                invariant
                    i <= e <= n,
                    n == s@.len(),
                    token_end(s@, e as int) == token_end(s@, i as int),
                decreases n - e,
            {
                e += 1;
            }
            let tok = slice_range(s, i, e);
            let ghost old_r = r@;
            r.push(tok);
            proof {
                assert(views(r@) =~= views(old_r).push(tok@));
                assert(tokens_from(s@, i as int) =~= seq![tok@] + tokens_from(s@, e as int));
                assert(views(r@) + tokens_from(s@, e as int) =~= views(old_r) + tokens_from(
                    s@,
                    i as int,
                ));
            }
            i = e;
        }
    }
    proof {
        assert(tokens_from(s@, i as int) =~= Seq::<Seq<char>>::empty());
        assert(views(r@) + Seq::<Seq<char>>::empty() =~= views(r@));
    }
    r
}

// ---------------------------------------------------------------------------
// Decimal numbers
// ---------------------------------------------------------------------------

pub open spec fn is_digit(c: char) -> bool {
    '0' <= c && c <= '9'
}

pub open spec fn digit_value(c: char) -> nat {
    (c as int - '0' as int) as nat
}

/// The value of a string of decimal digits.
pub open spec fn digits_value(d: Seq<char>) -> nat
    decreases d.len(),
{
    if d.len() == 0 {
        0
    } else {
        digits_value(d.drop_last()) * 10 + digit_value(d.last())
    }
}

pub open spec fn all_digits(d: Seq<char>) -> bool {
    forall|k: int| 0 <= k < d.len() ==> is_digit(#[trigger] d[k])
}

/// Whether `t` is accepted by `<u32 as FromStr>::from_str`: an optional
/// `'+'`, then one or more ASCII digits, whose value fits in a `u32`.
pub open spec fn parses_as_u32(t: Seq<char>) -> bool {
    let d = if t.len() > 0 && t[0] == '+' {
        t.drop_first()
    } else {
        t
    };
    &&& d.len() > 0
    &&& all_digits(d)
    &&& digits_value(d) <= u32::MAX
}

pub proof fn lemma_digits_value_grows(d: Seq<char>, i: int)
    requires
        0 <= i <= d.len(),
        all_digits(d),
    ensures
        digits_value(d.take(i)) <= digits_value(d),
    decreases d.len() - i,
{
    if i < d.len() {
        lemma_digits_value_grows(d, i + 1);
        assert(d.take(i + 1).drop_last() =~= d.take(i));
        assert(d.take(i + 1).last() == d[i]);
        assert(is_digit(d[i]));
    }
    assert(d.take(d.len() as int) =~= d);
}

/// The digits of `t` without its optional leading `'+'`.
pub open spec fn unsigned_digits(t: Seq<char>) -> Seq<char> {
    if t.len() > 0 && t[0] == '+' {
        t.drop_first()
    } else {
        t
    }
}

/// `t` as a `u32` (`<u32 as FromStr>::from_str`), or `None` when it does
/// not parse (see [`parses_as_u32`]).
pub fn parse_u32(t: &[char]) -> (r: Option<u32>)
    ensures
        r is Some <==> parses_as_u32(t@),
        r matches Some(v) ==> v == digits_value(unsigned_digits(t@)),
{
    let n = t.len();
    let start: usize = if n > 0 && t[0] == '+' {
        1
    } else {
        0
    };
    let ghost d = if t@.len() > 0 && t@[0] == '+' {
        t@.drop_first()
    } else {
        t@
    };
    assert(d =~= t@.subrange(start as int, n as int));
    if start >= n {
        return None;
    }
    let mut value: u64 = 0;
    let mut i = start;
    while i < n
        invariant
            start <= i <= n,
            n == t@.len(),
            d == t@.subrange(start as int, n as int),
            d == (if t@.len() > 0 && t@[0] == '+' {
                t@.drop_first()
            } else {
                t@
            }),
            all_digits(d.take(i - start)),
            value == digits_value(d.take(i - start)),
            value <= u32::MAX,
        decreases n - i,
    {
        let c = t[i];
        if !('0' <= c && c <= '9') {
            assert(d[i - start] == c);
            assert(!is_digit(d[i - start]));
            assert(!all_digits(d));
            return None;
        }
        let dv: u64 = ((c as u32) - ('0' as u32)) as u64;
        assert(d.take(i + 1 - start).drop_last() =~= d.take(i - start));
        assert(d.take(i + 1 - start).last() == c);
        let next = value * 10 + dv;
        assert(dv == digit_value(c));
        assert(next == digits_value(d.take(i + 1 - start)));
        i += 1;
        if next > 4294967295 {
            proof {
                if all_digits(d) {
                    lemma_digits_value_grows(d, i - start);
                }
                assert(!all_digits(d) || digits_value(d) > u32::MAX);
            }
            return None;
        }
        value = next;
    }
    assert(d.take(n - start) =~= d);
    Some(value as u32)
}

/// Whether `t` parses as a `u32` (see [`parses_as_u32`]).
pub fn parses_u32(t: &[char]) -> (r: bool)
    ensures
        r == parses_as_u32(t@),
{
    parse_u32(t).is_some()
}

/// The text of `s` trimmed of whitespace at both ends (`str::trim`).
pub fn trimmed(s: &str) -> (r: String)
    ensures
        r@ == trim(s@),
{
    string_of(&trim_chars(&chars_of(s)))
}

/// A number as a sysfs attribute file holds it: the trimmed text parsed as
/// a `u32`, or `None` when it does not parse.
pub fn sysfs_u32(text: &str) -> (r: Option<u32>)
    ensures
        r is Some <==> parses_as_u32(trim(text@)),
        r matches Some(v) ==> v == digits_value(unsigned_digits(trim(text@))),
{
    parse_u32(&trim_chars(&chars_of(text)))
}


pub open spec fn digit_char(d: nat) -> char {
    ((d + 48) as u8) as char
}

/// The decimal form of `n`, without leading zeros.
pub open spec fn decimal(n: nat) -> Seq<char>
    decreases n,
{
    if n < 10 {
        seq![digit_char(n)]
    } else {
        decimal(n / 10) + seq![digit_char(n % 10)]
    }
}

/// The decimal form of a number is made of digits and reads back as the
/// number.
pub proof fn lemma_decimal_reads_back(n: nat)
    ensures
        decimal(n).len() >= 1,
        all_digits(decimal(n)),
        digits_value(decimal(n)) == n,
        n < 10 ==> decimal(n).len() == 1,
        10 <= n < 100 ==> decimal(n).len() == 2,
        n >= 10 ==> decimal(n).len() >= 2,
    decreases n,
{
    let d = (n % 10) as nat;
    assert(digit_value(digit_char(d)) == d && is_digit(digit_char(d))) by {
        assert(d < 10);
        assert(((d + 48) as u8) as int == d + 48);
    }
    assert(digits_value(Seq::<char>::empty()) == 0);
    if n < 10 {
        assert(d == n);
        assert(decimal(n) =~= seq![digit_char(n)]);
        assert(seq![digit_char(n)].drop_last() =~= Seq::<char>::empty());
        assert(seq![digit_char(n)].last() == digit_char(n));
        assert(digits_value(decimal(n)) == digits_value(Seq::<char>::empty()) * 10 + digit_value(
            digit_char(n),
        ));
    } else {
        lemma_decimal_reads_back(n / 10);
        let p = decimal(n / 10);
        let r = decimal(n);
        assert(r == p + seq![digit_char(d)]);
        assert(r.drop_last() =~= p);
        assert(r.last() == digit_char(d));
        assert forall|k: int| 0 <= k < r.len() implies is_digit(#[trigger] r[k]) by {
            if k < p.len() {
                assert(r[k] == p[k]);
            }
        }
        assert(digits_value(r) == digits_value(p) * 10 + d);
        assert((n / 10) * 10 + n % 10 == n);
    }
}

/// A leading `'0'` does not change the value of a string of digits.
pub proof fn lemma_leading_zero(d: Seq<char>)
    ensures
        digits_value(seq!['0'] + d) == digits_value(d),
    decreases d.len(),
{
    assert(digits_value(Seq::<char>::empty()) == 0);
    if d.len() == 0 {
        let z = seq!['0'];
        assert(z.drop_last() =~= Seq::<char>::empty());
        assert(z.last() == '0');
        assert(seq!['0'] + d =~= z);
        assert(digits_value(z) == digits_value(z.drop_last()) * 10 + digit_value(z.last()));
    } else {
        let z = seq!['0'] + d;
        lemma_leading_zero(d.drop_last());
        assert(z.drop_last() =~= seq!['0'] + d.drop_last());
        assert(z.last() == d.last());
        assert(digits_value(z) == digits_value(z.drop_last()) * 10 + digit_value(z.last()));
        assert(digits_value(d) == digits_value(d.drop_last()) * 10 + digit_value(d.last()));
    }
}

/// Appends the decimal form of `n` to `out`.
pub fn push_decimal(out: &mut String, n: u64)
    ensures
        final(out)@ == old(out)@ + decimal(n as nat),
    decreases n,
{
    if n >= 10 {
        push_decimal(out, n / 10);
    }
    let d: u8 = (n % 10) as u8;
    let c: char = (d + 48u8) as char;
    push_char(out, c);
}


// ---------------------------------------------------------------------------
// Case, replacement and search
// ---------------------------------------------------------------------------

/// What `str::to_lowercase` makes of a string: the Unicode lowercase mapping
/// of each character, with the context rule for a final capital sigma.
pub uninterp spec fn lowercase(s: Seq<char>) -> Seq<char>;

/// The lowercase form of `s` (std's `str::to_lowercase`): equal to
/// [`lowercase`] of the characters of `s`.
#[verifier::external_body]
pub(crate) fn to_lowercase(s: &str) -> (r: String)
    ensures
        r@ == lowercase(s@),
{
    s.to_lowercase()
}

/// The lowercase form of the characters `v`.
pub fn lower_chars(v: &[char]) -> (r: Vec<char>)
    ensures
        r@ == lowercase(v@),
{
    let s = string_of(v);
    let l = to_lowercase(s.as_str());
    chars_of(l.as_str())
}

/// `s` from index `i` on, with every occurrence of `p` removed, scanning left
/// to right (`str::replace(p, "")` for a non-empty `p`).
pub open spec fn remove_from(s: Seq<char>, p: Seq<char>, i: int) -> Seq<char>
    decreases s.len() - i,
{
    if i < 0 || i >= s.len() {
        seq![]
    } else if p.len() > 0 && occurs_at(s, p, i) {
        remove_from(s, p, i + p.len())
    } else {
        seq![s[i]] + remove_from(s, p, i + 1)
    }
}

pub open spec fn remove_all(s: Seq<char>, p: Seq<char>) -> Seq<char> {
    remove_from(s, p, 0)
}

/// `s` with every occurrence of `p` removed (see [`remove_all`]).
pub fn remove_all_chars(s: &[char], p: &[char]) -> (r: Vec<char>)
    ensures
        r@ == remove_all(s@, p@),
{
    let n = s.len();
    let mut r: Vec<char> = Vec::new();
    let mut i: usize = 0;
    while i < n
        invariant
            n == s@.len(),
            0 <= i <= n,
            r@ + remove_from(s@, p@, i as int) == remove_all(s@, p@),
        decreases n - i,
    {
        if p.len() > 0 && occurs_at_exec(s, p, i) {
            i = i + p.len();
        } else {
            let ghost before = r@;
            r.push(s[i]);
            assert(remove_from(s@, p@, i as int) =~= seq![s@[i as int]] + remove_from(
                s@,
                p@,
                i + 1,
            ));
            assert(r@ + remove_from(s@, p@, i + 1) =~= before + remove_from(s@, p@, i as int));
            i = i + 1;
        }
    }
    assert(remove_from(s@, p@, i as int) =~= Seq::<char>::empty());
    assert(r@ + Seq::<char>::empty() =~= r@);
    r
}

/// `s` with every `from` replaced by `to` (`str::replace` with a character
/// pattern and a one-character replacement).
pub open spec fn replace_char(s: Seq<char>, from: char, to: char) -> Seq<char> {
    s.map_values(|c: char| if c == from { to } else { c })
}

pub fn replace_char_chars(s: &[char], from: char, to: char) -> (r: Vec<char>)
    ensures
        r@ == replace_char(s@, from, to),
{
    let n = s.len();
    let mut r: Vec<char> = Vec::new();
    for i in 0..n
        invariant
            n == s@.len(),
            r@ == replace_char(s@.take(i as int), from, to),
    {
        let c = s[i];
        r.push(if c == from { to } else { c });
        assert(replace_char(s@.take(i + 1), from, to) =~= replace_char(s@.take(i as int), from, to).push(
            if c == from { to } else { c },
        ));
    }
    assert(s@.take(n as int) =~= s@);
    r
}

pub open spec fn is_ascii_digit(c: char) -> bool {
    '0' <= c && c <= '9'
}

/// `s` without its ASCII digits.
pub open spec fn without_digits(s: Seq<char>) -> Seq<char> {
    s.filter(|c: char| !is_ascii_digit(c))
}

pub fn remove_digits_chars(s: &[char]) -> (r: Vec<char>)
    ensures
        r@ == without_digits(s@),
{
    let n = s.len();
    let mut r: Vec<char> = Vec::new();
    for i in 0..n
        invariant
            n == s@.len(),
            r@ == s@.take(i as int).filter(|c: char| !is_ascii_digit(c)),
    {
        let c = s[i];
        assert(s@.take(i + 1).drop_last() =~= s@.take(i as int));
        assert(s@.take(i + 1).last() == c);
        reveal_with_fuel(Seq::<_>::filter, 1);
        if !('0' <= c && c <= '9') {
            r.push(c);
        }
    }
    assert(s@.take(n as int) =~= s@);
    r
}

/// Index of the first `c` in `s` at or after `i`, if any.
pub open spec fn find_from(s: Seq<char>, c: char, i: int) -> Option<int>
    decreases s.len() - i,
{
    if i < 0 || i >= s.len() {
        None
    } else if s[i] == c {
        Some(i)
    } else {
        find_from(s, c, i + 1)
    }
}

pub fn find_char(s: &[char], c: char) -> (r: Option<usize>)
    ensures
        match r {
            Some(k) => find_from(s@, c, 0) == Some(k as int) && k < s@.len() && s@[k as int] == c,
            None => find_from(s@, c, 0) is None,
        },
{
    let n = s.len();
    let mut i: usize = 0;
    while i < n
        invariant
            n == s@.len(),
            0 <= i <= n,
            find_from(s@, c, i as int) == find_from(s@, c, 0),
        decreases n - i,
    {
        if s[i] == c {
            return Some(i);
        }
        i += 1;
    }
    None
}

/// Lexicographic order on characters, as `String`'s `Ord` compares.
pub open spec fn seq_le(a: Seq<char>, b: Seq<char>) -> bool
    decreases a.len(),
{
    if a.len() == 0 {
        true
    } else if b.len() == 0 {
        false
    } else if a[0] != b[0] {
        a[0] < b[0]
    } else {
        seq_le(a.drop_first(), b.drop_first())
    }
}

pub fn chars_le(a: &[char], b: &[char]) -> (r: bool)
    ensures
        r == seq_le(a@, b@),
{
    let mut i: usize = 0;
    assert(a@.skip(0) =~= a@);
    assert(b@.skip(0) =~= b@);
    while i < a.len() && i < b.len() && a[i] == b[i]
        invariant
            0 <= i <= a@.len(),
            i <= b@.len(),
            seq_le(a@.skip(i as int), b@.skip(i as int)) == seq_le(a@, b@),
        decreases a@.len() - i,
    {
        assert(a@.skip(i as int).drop_first() =~= a@.skip(i + 1));
        assert(b@.skip(i as int).drop_first() =~= b@.skip(i + 1));
        i += 1;
    }
    if i == a.len() {
        return true;
    }
    if i == b.len() {
        return false;
    }
    a[i] < b[i]
}

pub proof fn lemma_seq_le_total(a: Seq<char>, b: Seq<char>)
    ensures
        seq_le(a, b) || seq_le(b, a),
    decreases a.len(),
{
    if a.len() > 0 && b.len() > 0 && a[0] == b[0] {
        lemma_seq_le_total(a.drop_first(), b.drop_first());
    }
}

pub proof fn lemma_seq_le_trans(a: Seq<char>, b: Seq<char>, c: Seq<char>)
    requires
        seq_le(a, b),
        seq_le(b, c),
    ensures
        seq_le(a, c),
    decreases a.len(),
{
    if a.len() > 0 && b.len() > 0 && c.len() > 0 && a[0] == b[0] && b[0] == c[0] {
        lemma_seq_le_trans(a.drop_first(), b.drop_first(), c.drop_first());
    }
}

} // verus!
