//! Character-level text primitives shared by the document functions:
//! whitespace trimming, line splitting, prefix tests and substring search,
//! each stated as a spec function over `Seq<char>` and implemented over
//! `Vec<char>` buffers.
use vstd::prelude::*;

verus! {

// ---------------------------------------------------------------------------
// Specifications
// ---------------------------------------------------------------------------

/// Unicode `White_Space`, the property that `char::is_whitespace` tests.
pub open spec fn is_whitespace_char(c: char) -> bool {
    ||| ('\t' <= c && c <= '\r')
    ||| c == ' '
    ||| c == '\u{85}'
    ||| c == '\u{a0}'
    ||| c == '\u{1680}'
    ||| ('\u{2000}' <= c && c <= '\u{200a}')
    ||| c == '\u{2028}'
    ||| c == '\u{2029}'
    ||| c == '\u{202f}'
    ||| c == '\u{205f}'
    ||| c == '\u{3000}'
}

/// `s` without its leading whitespace.
pub open spec fn trim_start(s: Seq<char>) -> Seq<char>
    decreases s.len(),
{
    if s.len() > 0 && is_whitespace_char(s[0]) {
        trim_start(s.drop_first())
    } else {
        s
    }
}

/// `s` without its trailing whitespace.
pub open spec fn trim_end(s: Seq<char>) -> Seq<char>
    decreases s.len(),
{
    if s.len() > 0 && is_whitespace_char(s.last()) {
        trim_end(s.drop_last())
    } else {
        s
    }
}

/// `s` without leading and trailing whitespace (`str::trim`).
pub open spec fn trim(s: Seq<char>) -> Seq<char> {
    trim_end(trim_start(s))
}

/// `s` without every leading occurrence of `c` (`str::trim_start_matches`).
pub open spec fn strip_leading(s: Seq<char>, c: char) -> Seq<char>
    decreases s.len(),
{
    if s.len() > 0 && s[0] == c {
        strip_leading(s.drop_first(), c)
    } else {
        s
    }
}

/// `s` without every trailing occurrence of `c` (`str::trim_end_matches`).
pub open spec fn strip_trailing(s: Seq<char>, c: char) -> Seq<char>
    decreases s.len(),
{
    if s.len() > 0 && s.last() == c {
        strip_trailing(s.drop_last(), c)
    } else {
        s
    }
}

/// `p` is a prefix of `s`.
pub open spec fn starts_with(s: Seq<char>, p: Seq<char>) -> bool {
    p.len() <= s.len() && s.take(p.len() as int) == p
}

/// `p` occurs in `s` at index `i`.
pub open spec fn occurs_at<T>(s: Seq<T>, p: Seq<T>, i: int) -> bool {
    0 <= i && i + p.len() <= s.len() && s.subrange(i, i + p.len()) == p
}

/// The first index at or after `i` where `p` occurs in `s`.
pub open spec fn find_from<T>(s: Seq<T>, p: Seq<T>, i: int) -> Option<int>
    decreases s.len() + 1 - i,
{
    if i < 0 || i + p.len() > s.len() {
        None
    } else if occurs_at(s, p, i) {
        Some(i)
    } else {
        find_from(s, p, i + 1)
    }
}

/// The first index where `p` occurs in `s` (`str::find`).
pub open spec fn find<T>(s: Seq<T>, p: Seq<T>) -> Option<int> {
    find_from(s, p, 0)
}

/// A line as `str::lines` yields it: without the `\r` of a `\r\n` ending.
pub open spec fn strip_cr(line: Seq<char>) -> Seq<char> {
    if line.len() > 0 && line.last() == '\r' {
        line.drop_last()
    } else {
        line
    }
}

/// The lines of `s[start..]`, scanning from `i` for the `\n` that ends the
/// current line (which began at `start`).
pub open spec fn lines_acc(s: Seq<char>, start: int, i: int) -> Seq<Seq<char>>
    decreases s.len() - i,
{
    if i >= s.len() {
        if start < s.len() {
            seq![s.subrange(start, s.len() as int)]
        } else {
            seq![]
        }
    } else if s[i] == '\n' {
        seq![strip_cr(s.subrange(start, i))] + lines_acc(s, i + 1, i + 1)
    } else {
        lines_acc(s, start, i + 1)
    }
}

/// The lines of `s`, as `str::lines` yields them: split at `\n`, a `\r`
/// before the `\n` dropped, and no empty line after a final `\n`.
pub open spec fn lines(s: Seq<char>) -> Seq<Seq<char>> {
    lines_acc(s, 0, 0)
}

/// An ASCII digit `0`..=`9`.
pub open spec fn is_ascii_digit(c: char) -> bool {
    '0' <= c && c <= '9'
}

// ---------------------------------------------------------------------------
// Lemmas
// ---------------------------------------------------------------------------

pub proof fn lemma_trim_start_step(s: Seq<char>, lo: int, hi: int)
    requires
        0 <= lo < hi <= s.len(),
        is_whitespace_char(s[lo]),
    ensures
        trim_start(s.subrange(lo, hi)) == trim_start(s.subrange(lo + 1, hi)),
{
    assert(s.subrange(lo, hi).drop_first() =~= s.subrange(lo + 1, hi));
}

pub proof fn lemma_trim_end_step(s: Seq<char>, lo: int, hi: int)
    requires
        0 <= lo < hi <= s.len(),
        is_whitespace_char(s[hi - 1]),
    ensures
        trim_end(s.subrange(lo, hi)) == trim_end(s.subrange(lo, hi - 1)),
{
    assert(s.subrange(lo, hi).drop_last() =~= s.subrange(lo, hi - 1));
}

pub proof fn lemma_strip_leading_step(s: Seq<char>, lo: int, hi: int, c: char)
    requires
        0 <= lo < hi <= s.len(),
        s[lo] == c,
    ensures
        strip_leading(s.subrange(lo, hi), c) == strip_leading(s.subrange(lo + 1, hi), c),
{
    assert(s.subrange(lo, hi).drop_first() =~= s.subrange(lo + 1, hi));
}

pub proof fn lemma_strip_trailing_step(s: Seq<char>, lo: int, hi: int, c: char)
    requires
        0 <= lo < hi <= s.len(),
        s[hi - 1] == c,
    ensures
        strip_trailing(s.subrange(lo, hi), c) == strip_trailing(s.subrange(lo, hi - 1), c),
{
    assert(s.subrange(lo, hi).drop_last() =~= s.subrange(lo, hi - 1));
}

/// `find_from` lands on an occurrence, and none lies between its start and its answer.
pub proof fn lemma_find_from_props<T>(s: Seq<T>, p: Seq<T>, i: int)
    requires
        0 <= i,
    ensures
        find_from(s, p, i) matches Some(k) ==> i <= k && occurs_at(s, p, k) && forall|j: int|
            i <= j < k ==> !occurs_at(s, p, j),
        find_from(s, p, i) is None ==> forall|j: int| i <= j ==> !occurs_at(s, p, j),
    decreases s.len() + 1 - i,
{
    if i + p.len() > s.len() {
    } else if occurs_at(s, p, i) {
    } else {
        lemma_find_from_props(s, p, i + 1);
    }
}

// ---------------------------------------------------------------------------
// Executable primitives
// ---------------------------------------------------------------------------

/// Appends `c` to `s` (`String::push`).
#[verifier::external_body]
fn push_char(s: &mut String, c: char)
    ensures
        final(s)@ == old(s)@.push(c),
{
    s.push(c)
}

/// The characters of `s`, in order.
pub fn chars_of(s: &str) -> (r: Vec<char>)
    ensures
        r@ == s@,
{
    let mut v: Vec<char> = Vec::new();
    for c in it: s.chars()
        invariant
            v@ == it.seq().take(it.index() as int),
    {
        v.push(c);
    }
    v
}

/// The string made of `t[lo..hi]`.
pub fn string_of_range(t: &Vec<char>, lo: usize, hi: usize) -> (r: String)
    requires
        lo <= hi <= t.len(),
    ensures
        r@ == t@.subrange(lo as int, hi as int),
{
    let mut s = String::new();
    let mut i = lo;
    while i < hi
        invariant
            lo <= i <= hi <= t.len(),
            s@ == t@.subrange(lo as int, i as int),
        decreases hi - i,
    {
        push_char(&mut s, t[i]);
        assert(t@.subrange(lo as int, i + 1) =~= t@.subrange(lo as int, i as int).push(t@[i as int]));
        i += 1;
    }
    s
}

/// The string made of all of `t`.
pub fn string_of(t: &Vec<char>) -> (r: String)
    ensures
        r@ == t@,
{
    let r = string_of_range(t, 0, t.len());
    assert(t@.subrange(0, t@.len() as int) =~= t@);
    r
}

/// Appends `t[lo..hi]` to `v`.
pub fn extend_from_range(v: &mut Vec<char>, t: &Vec<char>, lo: usize, hi: usize)
    requires
        lo <= hi <= t.len(),
    ensures
        final(v)@ == old(v)@ + t@.subrange(lo as int, hi as int),
{
    let ghost v0 = v@;
    let mut i = lo;
    while i < hi
        invariant
            lo <= i <= hi <= t.len(),
            v@ == v0 + t@.subrange(lo as int, i as int),
        decreases hi - i,
    {
        v.push(t[i]);
        assert(v0 + t@.subrange(lo as int, i + 1) =~= (v0 + t@.subrange(lo as int, i as int)).push(
            t@[i as int],
        ));
        i += 1;
    }
}

/// Appends all of `t` to `v`.
pub fn extend_from(v: &mut Vec<char>, t: &Vec<char>)
    ensures
        final(v)@ == old(v)@ + t@,
{
    extend_from_range(v, t, 0, t.len());
    assert(t@.subrange(0, t@.len() as int) =~= t@);
}

/// A copy of `t[lo..hi]`.
pub fn copy_range(t: &Vec<char>, lo: usize, hi: usize) -> (r: Vec<char>)
    requires
        lo <= hi <= t.len(),
    ensures
        r@ == t@.subrange(lo as int, hi as int),
{
    let mut r: Vec<char> = Vec::new();
    extend_from_range(&mut r, t, lo, hi);
    assert(Seq::<char>::empty() + t@.subrange(lo as int, hi as int) =~= t@.subrange(
        lo as int,
        hi as int,
    ));
    r
}

/// Whether `c` is whitespace (`char::is_whitespace`).
pub fn is_whitespace(c: char) -> (r: bool)
    ensures
        r == is_whitespace_char(c),
{
    ('\t' <= c && c <= '\r') || c == ' ' || c == '\u{85}' || c == '\u{a0}' || c == '\u{1680}' || (
    '\u{2000}' <= c && c <= '\u{200a}') || c == '\u{2028}' || c == '\u{2029}' || c == '\u{202f}'
        || c == '\u{205f}' || c == '\u{3000}'
}

/// The bounds of `trim(t[lo..hi])` inside `t`.
pub fn trim_bounds(t: &Vec<char>, lo: usize, hi: usize) -> (r: (usize, usize))
    requires
        lo <= hi <= t.len(),
    ensures
        lo <= r.0 <= r.1 <= hi,
        t@.subrange(r.0 as int, r.1 as int) == trim(t@.subrange(lo as int, hi as int)),
{
    let mut a = lo;
    while a < hi && is_whitespace(t[a])
        invariant
            lo <= a <= hi <= t.len(),
            trim_start(t@.subrange(lo as int, hi as int)) == trim_start(
                t@.subrange(a as int, hi as int),
            ),
        decreases hi - a,
    {
        proof {
            lemma_trim_start_step(t@, a as int, hi as int);
        }
        a += 1;
    }
    assert(trim_start(t@.subrange(a as int, hi as int)) == t@.subrange(a as int, hi as int));
    let mut b = hi;
    while b > a && is_whitespace(t[b - 1])
        invariant
            lo <= a <= b <= hi <= t.len(),
            trim_end(t@.subrange(a as int, hi as int)) == trim_end(t@.subrange(a as int, b as int)),
        decreases b - a,
    {
        proof {
            lemma_trim_end_step(t@, a as int, b as int);
        }
        b -= 1;
    }
    assert(trim_end(t@.subrange(a as int, b as int)) == t@.subrange(a as int, b as int));
    (a, b)
}

/// The start of `strip_leading(t[lo..hi], c)` inside `t`.
pub fn skip_leading(t: &Vec<char>, lo: usize, hi: usize, c: char) -> (r: usize)
    requires
        lo <= hi <= t.len(),
    ensures
        lo <= r <= hi,
        t@.subrange(r as int, hi as int) == strip_leading(t@.subrange(lo as int, hi as int), c),
{
    let mut a = lo;
    while a < hi && t[a] == c
        invariant
            lo <= a <= hi <= t.len(),
            strip_leading(t@.subrange(lo as int, hi as int), c) == strip_leading(
                t@.subrange(a as int, hi as int),
                c,
            ),
        decreases hi - a,
    {
        proof {
            lemma_strip_leading_step(t@, a as int, hi as int, c);
        }
        a += 1;
    }
    a
}

/// The end of `strip_trailing(t[lo..hi], c)` inside `t`.
pub fn skip_trailing(t: &Vec<char>, lo: usize, hi: usize, c: char) -> (r: usize)
    requires
        lo <= hi <= t.len(),
    ensures
        lo <= r <= hi,
        t@.subrange(lo as int, r as int) == strip_trailing(t@.subrange(lo as int, hi as int), c),
{
    let mut b = hi;
    while b > lo && t[b - 1] == c
        invariant
            lo <= b <= hi <= t.len(),
            strip_trailing(t@.subrange(lo as int, hi as int), c) == strip_trailing(
                t@.subrange(lo as int, b as int),
                c,
            ),
        decreases b - lo,
    {
        proof {
            lemma_strip_trailing_step(t@, lo as int, b as int, c);
        }
        b -= 1;
    }
    b
}

/// Whether `p` occurs in `t` at index `i`.
pub fn occurs_at_exec(t: &Vec<char>, p: &Vec<char>, i: usize) -> (r: bool)
    ensures
        r == occurs_at(t@, p@, i as int),
{
    if i > t.len() || p.len() > t.len() - i {
        return false;
    }
    let mut j: usize = 0;
    while j < p.len()
        invariant
            i + p.len() <= t.len(),
            j <= p.len(),
            forall|k: int| 0 <= k < j ==> t@[i + k] == p@[k],
        decreases p.len() - j,
    {
        if t[i + j] != p[j] {
            assert(t@.subrange(i as int, i + p.len())[j as int] != p@[j as int]);
            return false;
        }
        j += 1;
    }
    assert(t@.subrange(i as int, i + p.len()) =~= p@);
    true
}

/// Whether `t[lo..hi]` starts with `p`.
pub fn starts_with_at(t: &Vec<char>, lo: usize, hi: usize, p: &Vec<char>) -> (r: bool)
    requires
        lo <= hi <= t.len(),
    ensures
        r == starts_with(t@.subrange(lo as int, hi as int), p@),
{
    if p.len() > hi - lo {
        return false;
    }
    let r = occurs_at_exec(t, p, lo);
    assert(t@.subrange(lo as int, hi as int).take(p@.len() as int) =~= t@.subrange(
        lo as int,
        lo + p@.len(),
    ));
    r
}

/// The first index at or after `from` where `p` occurs in `t`.
pub fn find_exec(t: &Vec<char>, p: &Vec<char>, from: usize) -> (r: Option<usize>)
    ensures
        r matches Some(i) ==> find_from(t@, p@, from as int) == Some(i as int),
        r is None ==> find_from(t@, p@, from as int) is None,
{
    if p.len() == 0 {
        if from <= t.len() {
            assert(t@.subrange(from as int, from as int) =~= p@);
            return Some(from);
        }
        return None;
    }
    let mut i = from;
    while i <= t.len() && p.len() <= t.len() - i
        invariant
            from <= i,
            p.len() > 0,
            find_from(t@, p@, from as int) == find_from(t@, p@, i as int),
        decreases t.len() + 1 - i,
    {
        if occurs_at_exec(t, p, i) {
            return Some(i);
        }
        i += 1;
    }
    None
}

/// The first line of `t[start..]`: its end (without the `\r` of `\r\n`)
/// and where the next line starts.
pub fn next_line(t: &Vec<char>, start: usize) -> (r: (usize, usize))
    requires
        start < t.len(),
    ensures
        start <= r.0 <= r.1 <= t.len(),
        start < r.1,
        lines_acc(t@, start as int, start as int) == seq![t@.subrange(start as int, r.0 as int)]
            + lines_acc(t@, r.1 as int, r.1 as int),
{
    let mut i = start;
    while i < t.len() && t[i] != '\n'
        invariant
            start <= i <= t.len(),
            lines_acc(t@, start as int, start as int) == lines_acc(t@, start as int, i as int),
        decreases t.len() - i,
    {
        i += 1;
    }
    if i == t.len() {
        assert(lines_acc(t@, i as int, i as int) =~= Seq::<Seq<char>>::empty());
        assert(seq![t@.subrange(start as int, i as int)] + Seq::<Seq<char>>::empty() =~= seq![
            t@.subrange(start as int, i as int),
        ]);
        (i, i)
    } else {
        let e = if i > start && t[i - 1] == '\r' {
            i - 1
        } else {
            i
        };
        assert(strip_cr(t@.subrange(start as int, i as int)) =~= t@.subrange(start as int, e as int));
        (e, i + 1)
    }
}

/// A name for what `str::to_lowercase` returns: the Unicode lowercase
/// mapping of each character of `s`.
pub uninterp spec fn lowercase_of(s: Seq<char>) -> Seq<char>;

/// `s` with ASCII capitals `A`..=`Z` mapped to `a`..=`z`.
pub open spec fn ascii_lowercase(s: Seq<char>) -> Seq<char> {
    s.map_values(|c: char| if 'A' <= c && c <= 'Z' { ((c as u32) + 32) as char } else { c })
}

/// Every character of `s` is ASCII.
pub open spec fn all_ascii(s: Seq<char>) -> bool {
    forall|i: int| 0 <= i < s.len() ==> (s[i] as u32) < 128
}

/// `str::to_lowercase`. The result is the name `lowercase_of` applied to
/// the input; for ASCII input std documents the ASCII mapping, which is
/// stated too. Nothing more of non-ASCII input is claimed.
#[verifier::external_body]
pub(crate) fn to_lowercase(s: &str) -> (r: String)
    ensures
        r@ == lowercase_of(s@),
        all_ascii(s@) ==> r@ == ascii_lowercase(s@),
{
    s.to_lowercase()
}

/// Whether `a` and `b` hold the same characters.
pub fn chars_eq(a: &Vec<char>, b: &Vec<char>) -> (r: bool)
    ensures
        r == (a@ == b@),
{
    if a.len() != b.len() {
        return false;
    }
    let mut i: usize = 0;
    while i < a.len()
        invariant
            i <= a.len(),
            a.len() == b.len(),
            forall|k: int| 0 <= k < i ==> a@[k] == b@[k],
        decreases a.len() - i,
    {
        if a[i] != b[i] {
            return false;
        }
        i += 1;
    }
    assert(a@ =~= b@);
    true
}

/// Whether `a` and `b` are the same text.
pub fn str_eq(a: &str, b: &str) -> (r: bool)
    ensures
        r == (a@ == b@),
{
    let x = chars_of(a);
    let y = chars_of(b);
    chars_eq(&x, &y)
}

/// `s.trim()`, as an owned string.
pub fn trim_string(s: &str) -> (r: String)
    ensures
        r@ == trim(s@),
{
    let t = chars_of(s);
    let (a, b) = trim_bounds(&t, 0, t.len());
    assert(t@.subrange(0, t@.len() as int) =~= t@);
    string_of_range(&t, a, b)
}

/// The string `a` followed by `b`.
pub fn concat(a: &str, b: &str) -> (r: String)
    ensures
        r@ == a@ + b@,
{
    let mut v = chars_of(a);
    let w = chars_of(b);
    extend_from(&mut v, &w);
    string_of(&v)
}

/// The lines of an empty suffix: none.
pub proof fn lemma_lines_acc_end(s: Seq<char>)
    ensures
        lines_acc(s, s.len() as int, s.len() as int) == Seq::<Seq<char>>::empty(),
{
}

} // verus!
