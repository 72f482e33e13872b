//! Re-anchoring annotations: matching a `TextQuoteSelector` against the
//! current text of a document, exactly or approximately.
//!
//! Everything here works on the UTF-8 bytes of the texts, and ranges are
//! byte ranges, as in the `str` APIs.
use vstd::prelude::*;
use vstd::utf8::{encode_utf8, is_char_boundary, valid_utf8};

use crate::annotation::{AnchorHealth, Annotation, AnnotationTarget, Selector};
use crate::text::{find, find_from, occurs_at};

verus! {

/// Result of trying to match a TextQuoteSelector against document content.
#[derive(Debug, Clone)]
pub struct MatchResult {
    pub health: AnchorHealth,
    /// Byte range in the source where the match was found.
    pub range: Option<std::ops::Range<usize>>,
}

// ---------------------------------------------------------------------------
// Specification
// ---------------------------------------------------------------------------

/// The UTF-8 bytes of an optional text.
pub open spec fn opt_bytes(o: Option<&str>) -> Option<Seq<u8>> {
    match o {
        Some(s) => Some(encode_utf8(s@)),
        None => None,
    }
}

/// The UTF-8 bytes of an optional owned text.
pub open spec fn opt_string_bytes(o: Option<String>) -> Option<Seq<u8>> {
    match o {
        Some(s) => Some(encode_utf8(s@)),
        None => None,
    }
}

/// An occurrence of a quote of length `elen` at `k` is confirmed by its
/// context: the prefix ends right before it, or the suffix starts right after it.
pub open spec fn context_matches(
    c: Seq<u8>,
    elen: int,
    pf: Option<Seq<u8>>,
    sf: Option<Seq<u8>>,
    k: int,
) -> bool {
    ||| (pf matches Some(p) && k >= p.len() && c.subrange(k - p.len(), k) == p)
    ||| (sf matches Some(s) && k + elen + s.len() <= c.len() && c.subrange(
        k + elen,
        k + elen + s.len(),
    ) == s)
}

/// The first occurrence of `e` in `c`, at or after `i`, that its context confirms.
pub open spec fn first_confirmed_from(
    c: Seq<u8>,
    e: Seq<u8>,
    pf: Option<Seq<u8>>,
    sf: Option<Seq<u8>>,
    i: int,
) -> Option<int>
    decreases c.len() + 1 - i,
{
    if i < 0 || i + e.len() > c.len() {
        None
    } else if occurs_at(c, e, i) && context_matches(c, e.len() as int, pf, sf, i) {
        Some(i)
    } else {
        first_confirmed_from(c, e, pf, sf, i + 1)
    }
}

/// Where an exact match of the quote is anchored: the first occurrence its
/// context confirms, or else the first occurrence.
pub open spec fn exact_choice(
    c: Seq<u8>,
    e: Seq<u8>,
    pf: Option<Seq<u8>>,
    sf: Option<Seq<u8>>,
) -> Option<int> {
    match first_confirmed_from(c, e, pf, sf, 0) {
        Some(k) => Some(k),
        None => find(c, e),
    }
}

/// The longest common subsequence of `a` and `b`, by length.
pub open spec fn lcs(a: Seq<u8>, b: Seq<u8>) -> nat
    decreases a.len() + b.len(),
{
    if a.len() == 0 || b.len() == 0 {
        0
    } else if a.last() == b.last() {
        lcs(a.drop_last(), b.drop_last()) + 1
    } else {
        let x = lcs(a.drop_last(), b);
        let y = lcs(a, b.drop_last());
        if x >= y {
            x
        } else {
            y
        }
    }
}

/// The end of the fuzzy-match window that starts at `st`: a quarter longer
/// than the quote, cut at the end of the text.
pub open spec fn window_end(len: int, n: int, st: int) -> int {
    if st + n + n / 4 <= len {
        st + n + n / 4
    } else {
        len
    }
}

/// How many window starts the fuzzy search tries.
pub open spec fn window_limit(len: int, n: int) -> int {
    if len > n / 2 {
        len - n / 2
    } else {
        0
    }
}

/// The window of `c` that starts at `st`.
pub open spec fn window(c: Seq<u8>, n: int, st: int) -> Seq<u8> {
    c.subrange(st, window_end(c.len() as int, n, st))
}

/// The best window among the starts `st..limit`, given the best score and
/// position so far: the first window with the greatest common subsequence.
pub open spec fn best_window_from(
    c: Seq<u8>,
    e: Seq<u8>,
    st: int,
    limit: int,
    score: nat,
    pos: int,
) -> (nat, int)
    decreases limit - st,
{
    if st >= limit {
        (score, pos)
    } else {
        let s = lcs(window(c, e.len() as int, st), e);
        if s > score {
            best_window_from(c, e, st + 1, limit, s, st)
        } else {
            best_window_from(c, e, st + 1, limit, score, pos)
        }
    }
}

/// 80% of `n`, rounded down: how much of the quote a window must share.
pub open spec fn fuzzy_threshold(n: nat) -> nat {
    n * 4 / 5
}

/// The approximate anchor of a quote of at least 10 bytes: the best window,
/// if it shares at least 80% of the quote.
pub open spec fn fuzzy_choice(c: Seq<u8>, e: Seq<u8>) -> Option<(int, int)> {
    if e.len() < 10 {
        None
    } else {
        let best = best_window_from(c, e, 0, window_limit(c.len() as int, e.len() as int), 0, 0);
        if best.0 >= fuzzy_threshold(e.len()) {
            Some((best.1, window_end(c.len() as int, e.len() as int, best.1)))
        } else {
            None
        }
    }
}

/// The health and byte range of a quote's anchor in `c`.
pub open spec fn quote_match(
    c: Seq<u8>,
    e: Seq<u8>,
    pf: Option<Seq<u8>>,
    sf: Option<Seq<u8>>,
) -> (AnchorHealth, Option<(int, int)>) {
    match exact_choice(c, e, pf, sf) {
        Some(k) => (AnchorHealth::Live, Some((k, k + e.len()))),
        None => match fuzzy_choice(c, e) {
            Some(r) => (AnchorHealth::Approximate, Some(r)),
            None => (AnchorHealth::Orphaned, None),
        },
    }
}

/// The text slices that confirming the occurrence at `j` cuts out fall on
/// character boundaries.
pub open spec fn context_slices_ok(
    c: Seq<u8>,
    elen: int,
    pf: Option<Seq<u8>>,
    sf: Option<Seq<u8>>,
    j: int,
) -> bool {
    &&& match pf {
        Some(p) => j >= p.len() ==> is_char_boundary(c, j - p.len()),
        None => true,
    }
    &&& match sf {
        Some(s) => j + elen + s.len() <= c.len() ==> is_char_boundary(c, j + elen + s.len()),
        None => true,
    }
}

/// The quote occurs at least twice.
pub open spec fn occurs_twice(c: Seq<u8>, e: Seq<u8>) -> bool {
    exists|i: int, j: int| i < j && occurs_at(c, e, i) && occurs_at(c, e, j)
}

/// The inputs on which matching a quote cuts text only at character
/// boundaries and counts common subsequences within 16 bits: the quote is
/// not empty; an occurring quote begins with an ASCII character; among
/// several occurrences, those examined before the confirmed one are cut at
/// boundaries; and without any occurrence, every window of a long quote
/// starts and ends at a boundary and shares fewer than 65536 bytes with it.
pub open spec fn quote_match_defined(
    c: Seq<u8>,
    e: Seq<u8>,
    pf: Option<Seq<u8>>,
    sf: Option<Seq<u8>>,
) -> bool {
    &&& e.len() > 0
    &&& (find(c, e) is Some ==> e[0] < 0x80)
    &&& (occurs_twice(c, e) ==> forall|j: int|
        occurs_at(c, e, j) && (first_confirmed_from(c, e, pf, sf, 0) matches Some(k) ==> j <= k)
            ==> context_slices_ok(c, e.len() as int, pf, sf, j))
    &&& (find(c, e) is None && e.len() >= 10 ==> forall|st: int|
        0 <= st < window_limit(c.len() as int, e.len() as int) ==> {
            &&& is_char_boundary(c, st)
            &&& is_char_boundary(c, window_end(c.len() as int, e.len() as int, st))
            &&& lcs(window(c, e.len() as int, st), e) < 0x10000
        })
}

// ---------------------------------------------------------------------------
// Lemmas
// ---------------------------------------------------------------------------

proof fn lemma_confirmed_skips_gap(
    c: Seq<u8>,
    e: Seq<u8>,
    pf: Option<Seq<u8>>,
    sf: Option<Seq<u8>>,
    i: int,
    n: int,
)
    requires
        0 <= i <= n,
        forall|j: int| i <= j < n ==> !occurs_at(c, e, j),
    ensures
        first_confirmed_from(c, e, pf, sf, i) == first_confirmed_from(c, e, pf, sf, n),
    decreases n - i,
{
    if i < n {
        lemma_confirmed_skips_gap(c, e, pf, sf, i + 1, n);
    }
}

proof fn lemma_confirmed_none_after(
    c: Seq<u8>,
    e: Seq<u8>,
    pf: Option<Seq<u8>>,
    sf: Option<Seq<u8>>,
    i: int,
)
    requires
        0 <= i,
        forall|j: int| i <= j ==> !occurs_at(c, e, j),
    ensures
        first_confirmed_from(c, e, pf, sf, i) is None,
    decreases c.len() + 1 - i,
{
    if i + e.len() <= c.len() {
        lemma_confirmed_none_after(c, e, pf, sf, i + 1);
    }
}

proof fn lemma_confirmed_is_occurrence(
    c: Seq<u8>,
    e: Seq<u8>,
    pf: Option<Seq<u8>>,
    sf: Option<Seq<u8>>,
    i: int,
)
    requires
        0 <= i,
    ensures
        first_confirmed_from(c, e, pf, sf, i) matches Some(k) ==> i <= k && occurs_at(c, e, k)
            && context_matches(c, e.len() as int, pf, sf, k),
    decreases c.len() + 1 - i,
{
    if i + e.len() <= c.len() {
        lemma_confirmed_is_occurrence(c, e, pf, sf, i + 1);
    }
}

proof fn lemma_find_from_gap(s: Seq<u8>, p: Seq<u8>, i: int)
    requires
        0 <= i,
    ensures
        find_from(s, p, i) matches Some(k) ==> i <= k && occurs_at(s, p, k) && forall|j: int|
            i <= j < k ==> !occurs_at(s, p, j),
        find_from(s, p, i) is None ==> forall|j: int| i <= j ==> !occurs_at(s, p, j),
{
    crate::text::lemma_find_from_props(s, p, i);
}

/// A common subsequence is no longer than either sequence.
pub proof fn lemma_lcs_bound(a: Seq<u8>, b: Seq<u8>)
    ensures
        lcs(a, b) <= a.len(),
        lcs(a, b) <= b.len(),
    decreases a.len() + b.len(),
{
    if a.len() == 0 || b.len() == 0 {
    } else if a.last() == b.last() {
        lemma_lcs_bound(a.drop_last(), b.drop_last());
    } else {
        lemma_lcs_bound(a.drop_last(), b);
        lemma_lcs_bound(a, b.drop_last());
    }
}

/// `f` places the elements of `s` in `t`, in order: `s[i]` is `t[f[i]]`.
pub open spec fn embeds(f: Seq<int>, s: Seq<u8>, t: Seq<u8>) -> bool {
    &&& f.len() == s.len()
    &&& forall|i: int| 0 <= i < f.len() ==> 0 <= #[trigger] f[i] < t.len() && t[f[i]] == s[i]
    &&& forall|i: int, j: int| 0 <= i < j < f.len() ==> #[trigger] f[i] < #[trigger] f[j]
}

/// `s` is a subsequence of `t`.
pub open spec fn is_subseq(s: Seq<u8>, t: Seq<u8>) -> bool {
    exists|f: Seq<int>| embeds(f, s, t)
}

/// Dropping the last element of either sequence lowers the common
/// subsequence by at most one.
proof fn lemma_lcs_steps(a: Seq<u8>, b: Seq<u8>)
    ensures
        a.len() > 0 ==> lcs(a.drop_last(), b) <= lcs(a, b) <= lcs(a.drop_last(), b) + 1,
        b.len() > 0 ==> lcs(a, b.drop_last()) <= lcs(a, b) <= lcs(a, b.drop_last()) + 1,
    decreases a.len() + b.len(),
{
    if a.len() > 0 && b.len() > 0 {
        lemma_lcs_steps(a.drop_last(), b);
        lemma_lcs_steps(a, b.drop_last());
        lemma_lcs_steps(a.drop_last(), b.drop_last());
    }
}

proof fn lemma_lcs_symmetric(a: Seq<u8>, b: Seq<u8>)
    ensures
        lcs(a, b) == lcs(b, a),
    decreases a.len() + b.len(),
{
    if a.len() > 0 && b.len() > 0 {
        lemma_lcs_symmetric(a.drop_last(), b.drop_last());
        lemma_lcs_symmetric(a.drop_last(), b);
        lemma_lcs_symmetric(a, b.drop_last());
    }
}

/// A common subsequence is no longer than `lcs`.
proof fn lemma_lcs_max(a: Seq<u8>, b: Seq<u8>, s: Seq<u8>, fa: Seq<int>, fb: Seq<int>)
    requires
        embeds(fa, s, a),
        embeds(fb, s, b),
    ensures
        s.len() <= lcs(a, b),
    decreases a.len() + b.len(),
{
    if s.len() > 0 {
        let k = s.len() - 1;
        assert(0 <= fa[k] < a.len() && 0 <= fb[k] < b.len());
        lemma_lcs_steps(a, b);
        if fa[k] < a.len() - 1 {
            assert(embeds(fa, s, a.drop_last())) by {
                assert forall|i: int| 0 <= i < fa.len() implies 0 <= #[trigger] fa[i] < a.drop_last().len()
                    && a.drop_last()[fa[i]] == s[i] by {
                    if i < k {
                        assert(fa[i] < fa[k]);
                    }
                }
            }
            lemma_lcs_max(a.drop_last(), b, s, fa, fb);
        } else if fb[k] < b.len() - 1 {
            assert(embeds(fb, s, b.drop_last())) by {
                assert forall|i: int| 0 <= i < fb.len() implies 0 <= #[trigger] fb[i] < b.drop_last().len()
                    && b.drop_last()[fb[i]] == s[i] by {
                    if i < k {
                        assert(fb[i] < fb[k]);
                    }
                }
            }
            lemma_lcs_max(a, b.drop_last(), s, fa, fb);
        } else {
            assert(a.last() == s[k] && b.last() == s[k]);
            let s2 = s.drop_last();
            let ga = fa.drop_last();
            let gb = fb.drop_last();
            assert(embeds(ga, s2, a.drop_last())) by {
                assert forall|i: int| 0 <= i < ga.len() implies 0 <= #[trigger] ga[i] < a.drop_last().len()
                    && a.drop_last()[ga[i]] == s2[i] by {
                    assert(fa[i] < fa[k]);
                }
                assert forall|i: int, j: int| 0 <= i < j < ga.len() implies #[trigger] ga[i] < #[trigger] ga[j] by {
                    assert(fa[i] < fa[j]);
                }
            }
            assert(embeds(gb, s2, b.drop_last())) by {
                assert forall|i: int| 0 <= i < gb.len() implies 0 <= #[trigger] gb[i] < b.drop_last().len()
                    && b.drop_last()[gb[i]] == s2[i] by {
                    assert(fb[i] < fb[k]);
                }
                assert forall|i: int, j: int| 0 <= i < j < gb.len() implies #[trigger] gb[i] < #[trigger] gb[j] by {
                    assert(fb[i] < fb[j]);
                }
            }
            lemma_lcs_max(a.drop_last(), b.drop_last(), s2, ga, gb);
        }
    }
}

/// A common subsequence as long as `lcs`, with where it lies in each.
proof fn lemma_lcs_witness(a: Seq<u8>, b: Seq<u8>) -> (w: (Seq<u8>, Seq<int>, Seq<int>))
    ensures
        embeds(w.1, w.0, a),
        embeds(w.2, w.0, b),
        w.0.len() == lcs(a, b),
    decreases a.len() + b.len(),
{
    if a.len() == 0 || b.len() == 0 {
        (seq![], seq![], seq![])
    } else if a.last() == b.last() {
        let (s, fa, fb) = lemma_lcs_witness(a.drop_last(), b.drop_last());
        let s2 = s.push(a.last());
        let ga = fa.push(a.len() - 1);
        let gb = fb.push(b.len() - 1);
        assert(embeds(ga, s2, a)) by {
            assert forall|i: int| 0 <= i < ga.len() implies 0 <= #[trigger] ga[i] < a.len() && a[ga[i]] == s2[i] by {
                if i < fa.len() {
                    assert(a.drop_last()[fa[i]] == a[fa[i]]);
                }
            }
            assert forall|i: int, j: int| 0 <= i < j < ga.len() implies #[trigger] ga[i] < #[trigger] ga[j] by {
                if j < fa.len() {
                    assert(fa[i] < fa[j]);
                } else {
                    assert(fa[i] < a.len() - 1);
                }
            }
        }
        assert(embeds(gb, s2, b)) by {
            assert forall|i: int| 0 <= i < gb.len() implies 0 <= #[trigger] gb[i] < b.len() && b[gb[i]] == s2[i] by {
                if i < fb.len() {
                    assert(b.drop_last()[fb[i]] == b[fb[i]]);
                }
            }
            assert forall|i: int, j: int| 0 <= i < j < gb.len() implies #[trigger] gb[i] < #[trigger] gb[j] by {
                if j < fb.len() {
                    assert(fb[i] < fb[j]);
                } else {
                    assert(fb[i] < b.len() - 1);
                }
            }
        }
        (s2, ga, gb)
    } else if lcs(a.drop_last(), b) >= lcs(a, b.drop_last()) {
        let (s, fa, fb) = lemma_lcs_witness(a.drop_last(), b);
        assert(embeds(fa, s, a)) by {
            assert forall|i: int| 0 <= i < fa.len() implies 0 <= #[trigger] fa[i] < a.len() && a[fa[i]] == s[i] by {
                assert(a.drop_last()[fa[i]] == a[fa[i]]);
            }
        }
        (s, fa, fb)
    } else {
        let (s, fa, fb) = lemma_lcs_witness(a, b.drop_last());
        assert(embeds(fb, s, b)) by {
            assert forall|i: int| 0 <= i < fb.len() implies 0 <= #[trigger] fb[i] < b.len() && b[fb[i]] == s[i] by {
                assert(b.drop_last()[fb[i]] == b[fb[i]]);
            }
        }
        (s, fa, fb)
    }
}

/// `lcs(a, b)` is the length of a longest common subsequence of `a` and
/// `b`: some common subsequence is that long and none is longer. It is
/// symmetric and no longer than either sequence.
pub proof fn law_lcs_is_longest(a: Seq<u8>, b: Seq<u8>)
    ensures
        exists|s: Seq<u8>| is_subseq(s, a) && is_subseq(s, b) && s.len() == lcs(a, b),
        forall|s: Seq<u8>| #[trigger] is_subseq(s, a) && is_subseq(s, b) ==> s.len() <= lcs(a, b),
        lcs(a, b) == lcs(b, a),
        lcs(a, b) <= a.len(),
        lcs(a, b) <= b.len(),
{
    let (w, fa, fb) = lemma_lcs_witness(a, b);
    assert(is_subseq(w, a) && is_subseq(w, b));
    assert forall|s: Seq<u8>| #[trigger] is_subseq(s, a) && is_subseq(s, b) implies s.len() <= lcs(a, b) by {
        let ga = choose|f: Seq<int>| embeds(f, s, a);
        let gb = choose|f: Seq<int>| embeds(f, s, b);
        lemma_lcs_max(a, b, s, ga, gb);
    }
    lemma_lcs_symmetric(a, b);
    lemma_lcs_bound(a, b);
}

// ---------------------------------------------------------------------------
// Executable matching
// ---------------------------------------------------------------------------

/// Whether `p` occurs in `t` at `i`.
pub(crate) fn occurs_bytes(t: &[u8], p: &[u8], i: usize) -> (r: bool)
    ensures
        r == occurs_at(t@, p@, i as int),
{
    if i > t.len() || p.len() > t.len() - i {
        return false;
    }
    let mut j: usize = 0;
    while j < p.len()
        invariant
            i + p.len() <= t.len(),
            j <= p.len(),
            forall|k: int| 0 <= k < j ==> t@[i + k] == p@[k],
        decreases p.len() - j,
    {
        if t[i + j] != p[j] {
            assert(t@.subrange(i as int, i + p.len())[j as int] != p@[j as int]);
            return false;
        }
        j += 1;
    }
    assert(t@.subrange(i as int, i + p.len()) =~= p@);
    true
}

/// The first index at or after `from` where the non-empty `p` occurs in `t`.
pub(crate) fn find_bytes(t: &[u8], p: &[u8], from: usize) -> (r: Option<usize>)
    requires
        p.len() > 0,
    ensures
        r matches Some(i) ==> find_from(t@, p@, from as int) == Some(i as int),
        r is None ==> find_from(t@, p@, from as int) is None,
{
    let mut i = from;
    while i <= t.len() && p.len() <= t.len() - i
        invariant
            from <= i,
            p.len() > 0,
            find_from(t@, p@, from as int) == find_from(t@, p@, i as int),
        decreases t.len() + 1 - i,
    {
        if occurs_bytes(t, p, i) {
            return Some(i);
        }
        i += 1;
    }
    None
}

/// Whether `t[lo..lo + p.len()]` equals `p`.
fn equal_at(t: &[u8], lo: usize, p: &[u8]) -> (r: bool)
    requires
        lo + p.len() <= t.len(),
    ensures
        r == (t@.subrange(lo as int, lo + p.len()) == p@),
{
    occurs_bytes(t, p, lo)
}

/// Whether the context confirms the occurrence of a quote of length `elen` at `k`.
fn context_ok(c: &[u8], elen: usize, pf: Option<&[u8]>, sf: Option<&[u8]>, k: usize) -> (r: bool)
    requires
        k + elen <= c.len(),
    ensures
        r == context_matches(
            c@,
            elen as int,
            match pf {
                Some(p) => Some(p@),
                None => None,
            },
            match sf {
                Some(s) => Some(s@),
                None => None,
            },
            k as int,
        ),
{
    let mut score: usize = 0;
    if let Some(p) = pf {
        if k >= p.len() {
            if equal_at(c, k - p.len(), p) {
                score += 1;
            }
        }
    }
    if let Some(s) = sf {
        let end = k + elen;
        if s.len() <= c.len() - end {
            if equal_at(c, end, s) {
                score += 1;
            }
        }
    }
    score > 0
}

/// Exact text match with optional prefix/suffix disambiguation: the start
/// of the chosen occurrence.
fn exact_match(c: &[u8], e: &[u8], pf: Option<&[u8]>, sf: Option<&[u8]>) -> (r: Option<usize>)
    requires
        e.len() > 0,
    ensures
        ({
            let pfs = match pf {
                Some(p) => Some(p@),
                None => None,
            };
            let sfs = match sf {
                Some(s) => Some(s@),
                None => None,
            };
            &&& r matches Some(k) ==> exact_choice(c@, e@, pfs, sfs) == Some(k as int)
            &&& r is None ==> exact_choice(c@, e@, pfs, sfs) is None
        }),
        r matches Some(k) ==> k + e@.len() <= c@.len(),
{
    let ghost pfs = match pf {
        Some(p) => Some(p@),
        None => None,
    };
    let ghost sfs = match sf {
        Some(s) => Some(s@),
        None => None,
    };
    let first = match find_bytes(c, e, 0) {
        Some(f) => f,
        None => {
            proof {
                lemma_find_from_gap(c@, e@, 0);
                lemma_confirmed_none_after(c@, e@, pfs, sfs, 0);
            }
            return None;
        },
    };
    proof {
        lemma_find_from_gap(c@, e@, 0);
        lemma_confirmed_skips_gap(c@, e@, pfs, sfs, 0, first as int);
    }
    let mut k = first;
    loop
        invariant
            e.len() > 0,
            occurs_at(c@, e@, k as int),
            find(c@, e@) == Some(first as int),
            occurs_at(c@, e@, first as int),
            first_confirmed_from(c@, e@, pfs, sfs, 0) == first_confirmed_from(
                c@,
                e@,
                pfs,
                sfs,
                k as int,
            ),
            pfs == match pf {
                Some(p) => Some(p@),
                None => None::<Seq<u8>>,
            },
            sfs == match sf {
                Some(s) => Some(s@),
                None => None::<Seq<u8>>,
            },
        decreases c.len() - k,
    {
        if context_ok(c, e.len(), pf, sf, k) {
            return Some(k);
        }
        match find_bytes(c, e, k + 1) {
            Some(next) => {
                proof {
                    lemma_find_from_gap(c@, e@, k + 1);
                    lemma_confirmed_skips_gap(c@, e@, pfs, sfs, k + 1, next as int);
                }
                k = next;
            },
            None => {
                proof {
                    lemma_find_from_gap(c@, e@, k + 1);
                    lemma_confirmed_none_after(c@, e@, pfs, sfs, k + 1);
                }
                return Some(first);
            },
        }
    }
}

/// Length of the longest common subsequence of `c[lo..hi]` and `b`.
fn lcs_len(c: &[u8], lo: usize, hi: usize, b: &[u8]) -> (r: usize)
    requires
        lo <= hi <= c.len(),
        b.len() < usize::MAX,
    ensures
        r == lcs(c@.subrange(lo as int, hi as int), b@),
{
    let ghost a = c@.subrange(lo as int, hi as int);
    let m = hi - lo;
    let n = b.len();
    let mut prev: Vec<usize> = Vec::new();
    prev.push(0);
    let mut j: usize = 0;
    while j < n
        invariant
            j <= n,
            prev@.len() == j + 1,
            n == b@.len(),
            forall|k: int| 0 <= k <= j ==> prev@[k] == lcs(a.take(0), b@.take(k)),
        decreases n - j,
    {
        prev.push(0);
        j += 1;
    }
    let mut i: usize = 0;
    while i < m
        invariant
            i <= m,
            m == hi - lo,
            lo <= hi <= c.len(),
            a == c@.subrange(lo as int, hi as int),
            n == b@.len(),
            n < usize::MAX,
            prev@.len() == n + 1,
            forall|k: int| 0 <= k <= n ==> prev@[k] == lcs(a.take(i as int), b@.take(k)),
        decreases m - i,
    {
        let ai = c[lo + i];
        let mut curr: Vec<usize> = Vec::new();
        curr.push(0);
        let mut j: usize = 1;
        while j <= n
            invariant
                1 <= j <= n + 1,
                n < usize::MAX,
                i < m,
                m == hi - lo,
                lo <= hi <= c.len(),
                a == c@.subrange(lo as int, hi as int),
                ai == a[i as int],
                n == b@.len(),
                prev@.len() == n + 1,
                forall|k: int| 0 <= k <= n ==> prev@[k] == lcs(a.take(i as int), b@.take(k)),
                curr@.len() == j,
                forall|k: int| 0 <= k < j ==> curr@[k] == lcs(a.take(i + 1), b@.take(k)),
            decreases n + 1 - j,
        {
            let ghost x = a.take(i + 1);
            let ghost y = b@.take(j as int);
            assert(x.drop_last() =~= a.take(i as int));
            assert(y.drop_last() =~= b@.take(j - 1));
            assert(x.last() == ai);
            assert(y.last() == b@[j - 1]);
            let v = if ai == b[j - 1] {
                proof {
                    lemma_lcs_bound(a.take(i as int), b@.take(j - 1));
                }
                prev[j - 1] + 1
            } else {
                let up = prev[j];
                let left = curr[j - 1];
                if up >= left {
                    up
                } else {
                    left
                }
            };
            assert(v == lcs(x, y));
            curr.push(v);
            j += 1;
        }
        prev = curr;
        i += 1;
    }
    assert(a.take(m as int) =~= a);
    assert(b@.take(n as int) =~= b@);
    prev[n]
}

/// 80% of `n`, rounded down, without overflow.
fn threshold_of(n: usize) -> (r: usize)
    ensures
        r == fuzzy_threshold(n as nat),
{
    let q = n / 5;
    let rem = n % 5;
    assert(n * 4 / 5 == q * 4 + rem * 4 / 5) by (nonlinear_arith)
        requires
            q == n / 5,
            rem == n % 5,
    ;
    q * 4 + rem * 4 / 5
}

/// The end of the window that starts at `st`.
fn window_end_exec(len: usize, n: usize, st: usize) -> (r: usize)
    requires
        st <= len,
    ensures
        r == window_end(len as int, n as int, st as int),
{
    let quarter = n / 4;
    if n <= len - st && quarter <= len - st - n {
        st + n + quarter
    } else {
        len
    }
}

/// Simple fuzzy matching using longest common subsequences: the range of
/// the best window, if it is close enough.
fn fuzzy_match(c: &[u8], e: &[u8]) -> (r: Option<(usize, usize)>)
    requires
        e.len() < usize::MAX,
    ensures
        r matches Some(p) ==> fuzzy_choice(c@, e@) == Some((p.0 as int, p.1 as int)),
        r is None ==> fuzzy_choice(c@, e@) is None,
{
    let n = e.len();
    if n < 10 {
        return None;
    }
    let threshold = threshold_of(n);
    let len = c.len();
    let limit = if len > n / 2 {
        len - n / 2
    } else {
        0
    };
    let mut best_score: usize = 0;
    let mut best_pos: usize = 0;
    let mut st: usize = 0;
    while st < limit
        invariant
            limit <= len,
            len == c@.len(),
            n == e@.len(),
            limit == window_limit(len as int, n as int),
            n < usize::MAX,
            best_pos <= len,
            best_window_from(c@, e@, 0, limit as int, 0, 0) == best_window_from(
                c@,
                e@,
                st as int,
                limit as int,
                best_score as nat,
                best_pos as int,
            ),
        decreases limit - st,
    {
        let end = window_end_exec(len, n, st);
        let score = lcs_len(c, st, end, e);
        if score > best_score {
            best_score = score;
            best_pos = st;
        }
        st += 1;
    }
    if best_score >= threshold {
        let ghost best = best_window_from(c@, e@, 0, limit as int, 0, 0);
        assert(best == best_window_from(
            c@,
            e@,
            st as int,
            limit as int,
            best_score as nat,
            best_pos as int,
        ));
        Some((best_pos, window_end_exec(len, n, best_pos)))
    } else {
        None
    }
}

/// Try to match a TextQuoteSelector against document content.
pub fn match_text_quote(
    content: &str,
    exact: &str,
    prefix: Option<&str>,
    suffix: Option<&str>,
) -> (r: MatchResult)
    requires
        quote_match_defined(
            encode_utf8(content@),
            encode_utf8(exact@),
            opt_bytes(prefix),
            opt_bytes(suffix),
        ),
        encode_utf8(exact@).len() < usize::MAX,
    ensures
        ({
            let m = quote_match(
                encode_utf8(content@),
                encode_utf8(exact@),
                opt_bytes(prefix),
                opt_bytes(suffix),
            );
            &&& r.health == m.0
            &&& match m.1 {
                Some((s, e)) => r.range matches Some(rg) && rg.start == s && rg.end == e,
                None => r.range is None,
            }
        }),
{
    let c = content.as_bytes();
    let e = exact.as_bytes();
    let pf = match prefix {
        Some(p) => Some(p.as_bytes()),
        None => None,
    };
    let sf = match suffix {
        Some(s) => Some(s.as_bytes()),
        None => None,
    };
    assert(opt_bytes(prefix) == match pf {
        Some(p) => Some(p@),
        None => None::<Seq<u8>>,
    });
    assert(opt_bytes(suffix) == match sf {
        Some(s) => Some(s@),
        None => None::<Seq<u8>>,
    });
    let chosen = exact_match(c, e, pf, sf);
    if let Some(start) = chosen {
        let content_len = c.len();
        assert(start + e@.len() <= content_len);
        let end = start + e.len();
        return MatchResult { health: AnchorHealth::Live, range: Some(start..end) };
    }
    if let Some((s, end)) = fuzzy_match(c, e) {
        return MatchResult { health: AnchorHealth::Approximate, range: Some(s..end) };
    }
    MatchResult { health: AnchorHealth::Orphaned, range: None }
}

/// The index of the first `TextQuoteSelector` in `sels[i..]`.
pub open spec fn first_quote_from(sels: Seq<Selector>, i: int) -> Option<int>
    decreases sels.len() - i,
{
    if i < 0 || i >= sels.len() {
        None
    } else if sels[i] is TextQuoteSelector {
        Some(i)
    } else {
        first_quote_from(sels, i + 1)
    }
}

/// Some `TextPositionSelector` ends within a text of `len` bytes.
pub open spec fn has_position_within(sels: Seq<Selector>, len: int) -> bool {
    exists|i: int|
        0 <= i < sels.len() && (#[trigger] sels[i] matches Selector::TextPositionSelector {
            end,
            ..
        } && end <= len)
}

/// The quote selector `q` can be matched against `c` (see `quote_match_defined`).
pub open spec fn quote_selector_defined(c: Seq<u8>, q: Selector) -> bool {
    match q {
        Selector::TextQuoteSelector { exact, prefix, suffix } => {
            &&& quote_match_defined(
                c,
                encode_utf8(exact@),
                opt_string_bytes(prefix),
                opt_string_bytes(suffix),
            )
            &&& encode_utf8(exact@).len() < usize::MAX
        },
        _ => true,
    }
}

/// The health of an anchor with selectors `sels` in a text `c`: decided
/// by its first quote selector; without one, `Stale` if a position selector
/// still fits the text, else `Orphaned`.
pub open spec fn selectors_health(c: Seq<u8>, sels: Seq<Selector>) -> AnchorHealth {
    match first_quote_from(sels, 0) {
        Some(i) => match sels[i] {
            Selector::TextQuoteSelector { exact, prefix, suffix } => quote_match(
                c,
                encode_utf8(exact@),
                opt_string_bytes(prefix),
                opt_string_bytes(suffix),
            ).0,
            _ => AnchorHealth::Orphaned,
        },
        None => if has_position_within(sels, c.len() as int) {
            AnchorHealth::Stale
        } else {
            AnchorHealth::Orphaned
        },
    }
}

proof fn lemma_first_quote_props(sels: Seq<Selector>, i: int)
    requires
        0 <= i,
    ensures
        first_quote_from(sels, i) matches Some(k) ==> i <= k < sels.len()
            && sels[k] is TextQuoteSelector && forall|j: int|
            i <= j < k ==> !(sels[j] is TextQuoteSelector),
        first_quote_from(sels, i) is None ==> forall|j: int|
            i <= j < sels.len() ==> !(sels[j] is TextQuoteSelector),
    decreases sels.len() - i,
{
    if i < sels.len() && !(sels[i] is TextQuoteSelector) {
        lemma_first_quote_props(sels, i + 1);
    }
}

/// Check health of a set of selectors against document content.
pub fn check_selectors(content: &str, selectors: &[Selector]) -> (r: AnchorHealth)
    requires
        first_quote_from(selectors@, 0) matches Some(i) ==> quote_selector_defined(
            encode_utf8(content@),
            selectors@[i],
        ),
    ensures
        r == selectors_health(encode_utf8(content@), selectors@),
{
    proof {
        lemma_first_quote_props(selectors@, 0);
    }
    let mut i: usize = 0;
    while i < selectors.len()
        invariant
            i <= selectors@.len(),
            first_quote_from(selectors@, 0) == first_quote_from(selectors@, i as int),
            first_quote_from(selectors@, 0) matches Some(k) ==> quote_selector_defined(
                encode_utf8(content@),
                selectors@[k],
            ),
        decreases selectors.len() - i,
    {
        if let Selector::TextQuoteSelector { exact, prefix, suffix } = &selectors[i] {
            let p = match prefix {
                Some(p) => Some(p.as_str()),
                None => None,
            };
            let s = match suffix {
                Some(s) => Some(s.as_str()),
                None => None,
            };
            assert(opt_bytes(p) == opt_string_bytes(*prefix));
            assert(opt_bytes(s) == opt_string_bytes(*suffix));
            let result = match_text_quote(content, exact.as_str(), p, s);
            return result.health;
        }
        i += 1;
    }
    let ghost c = encode_utf8(content@);
    let len = content.as_bytes().len();
    let mut j: usize = 0;
    while j < selectors.len()
        invariant
            j <= selectors@.len(),
            len == c.len(),
            c == encode_utf8(content@),
            first_quote_from(selectors@, 0) is None,
            forall|k: int|
                0 <= k < j ==> !(#[trigger] selectors@[k] matches Selector::TextPositionSelector {
                    end,
                    ..
                } && end <= len),
        decreases selectors.len() - j,
    {
        if let Selector::TextPositionSelector { start: _, end } = &selectors[j] {
            if *end <= len {
                assert(has_position_within(selectors@, len as int));
                return AnchorHealth::Stale;
            }
        }
        j += 1;
    }
    AnchorHealth::Orphaned
}

/// An anchor is live exactly when the quote occurs in the text, and a live
/// anchor's range holds the quote itself.
pub proof fn law_live_anchor_holds_quote(
    c: Seq<u8>,
    e: Seq<u8>,
    pf: Option<Seq<u8>>,
    sf: Option<Seq<u8>>,
)
    ensures
        (quote_match(c, e, pf, sf).0 == AnchorHealth::Live) == (find(c, e) is Some),
        quote_match(c, e, pf, sf).0 == AnchorHealth::Live ==> match quote_match(c, e, pf, sf).1 {
            Some((s, t)) => 0 <= s <= t <= c.len() && c.subrange(s, t) == e,
            None => false,
        },
{
    lemma_confirmed_is_occurrence(c, e, pf, sf, 0);
    lemma_find_from_gap(c, e, 0);
    match first_confirmed_from(c, e, pf, sf, 0) {
        Some(k) => {
            assert(occurs_at(c, e, k));
        },
        None => {},
    }
}

/// The best window among `st..limit` either improves on the score so far,
/// with the score of its own window, or leaves the score and position as
/// they were.
proof fn lemma_best_window(c: Seq<u8>, e: Seq<u8>, st: int, limit: int, score: nat, pos: int)
    ensures
        ({
            let b = best_window_from(c, e, st, limit, score, pos);
            ||| b == (score, pos)
            ||| (b.0 > score && st <= b.1 < limit && b.0 == lcs(window(c, e.len() as int, b.1), e))
        }),
    decreases limit - st,
{
    if st < limit {
        let s = lcs(window(c, e.len() as int, st), e);
        if s > score {
            lemma_best_window(c, e, st + 1, limit, s, st);
        } else {
            lemma_best_window(c, e, st + 1, limit, score, pos);
        }
    }
}

/// An approximate anchor is a window of the text, starting among those the
/// search tries and a quarter longer than the quote (cut at the end of the
/// text), that shares at least 80% of the quote as a common subsequence.
pub proof fn law_approximate_anchor_is_close(
    c: Seq<u8>,
    e: Seq<u8>,
    pf: Option<Seq<u8>>,
    sf: Option<Seq<u8>>,
)
    ensures
        quote_match(c, e, pf, sf).0 == AnchorHealth::Approximate ==> match quote_match(c, e, pf, sf).1 {
            Some((s, t)) => {
                &&& 0 <= s < window_limit(c.len() as int, e.len() as int)
                &&& t == window_end(c.len() as int, e.len() as int, s)
                &&& lcs(c.subrange(s, t), e) >= fuzzy_threshold(e.len())
            },
            None => false,
        },
{
    lemma_best_window(c, e, 0, window_limit(c.len() as int, e.len() as int), 0, 0);
}

// ---------------------------------------------------------------------------
// The health of a collection's anchors
// ---------------------------------------------------------------------------

/// How many anchors of a collection are in each state of health.
#[derive(Debug, Clone, Copy, PartialEq, Eq, Structural)]
pub struct HealthCounts {
    pub live: usize,
    pub approximate: usize,
    pub stale: usize,
    pub orphaned: usize,
}

/// The health of an annotation's anchor in `c`; replies have none.
pub open spec fn item_health(c: Seq<u8>, a: Annotation) -> Option<AnchorHealth> {
    match a.target {
        AnnotationTarget::Resource(r) => Some(selectors_health(c, r.selector@)),
        _ => None,
    }
}

/// How many annotations of `items` have an anchor of health `h` in `c`.
pub open spec fn health_count(c: Seq<u8>, items: Seq<Annotation>, h: AnchorHealth) -> nat
    decreases items.len(),
{
    if items.len() == 0 {
        0
    } else {
        health_count(c, items.drop_last(), h) + if item_health(c, items.last()) == Some(h) {
            1nat
        } else {
            0nat
        }
    }
}

/// The anchor of `a` can be checked against `c` (see `check_selectors`).
pub open spec fn anchor_checkable(c: Seq<u8>, a: Annotation) -> bool {
    match a.target {
        AnnotationTarget::Resource(r) => first_quote_from(r.selector@, 0) matches Some(i)
            ==> quote_selector_defined(c, r.selector@[i]),
        _ => true,
    }
}

/// Counts the anchors of a collection's annotations by health.
pub fn health_counts(content: &str, items: &Vec<Annotation>) -> (r: HealthCounts)
    requires
        forall|i: int| 0 <= i < items@.len() ==> anchor_checkable(encode_utf8(content@), #[trigger] items@[i]),
    ensures
        r.live == health_count(encode_utf8(content@), items@, AnchorHealth::Live),
        r.approximate == health_count(encode_utf8(content@), items@, AnchorHealth::Approximate),
        r.stale == health_count(encode_utf8(content@), items@, AnchorHealth::Stale),
        r.orphaned == health_count(encode_utf8(content@), items@, AnchorHealth::Orphaned),
{
    let ghost c = encode_utf8(content@);
    let mut r = HealthCounts { live: 0, approximate: 0, stale: 0, orphaned: 0 };
    let mut i: usize = 0;
    while i < items.len()
        invariant
            i <= items@.len(),
            c == encode_utf8(content@),
            forall|j: int| 0 <= j < items@.len() ==> anchor_checkable(c, #[trigger] items@[j]),
            r.live == health_count(c, items@.take(i as int), AnchorHealth::Live),
            r.approximate == health_count(c, items@.take(i as int), AnchorHealth::Approximate),
            r.stale == health_count(c, items@.take(i as int), AnchorHealth::Stale),
            r.orphaned == health_count(c, items@.take(i as int), AnchorHealth::Orphaned),
            r.live + r.approximate + r.stale + r.orphaned <= i,
        decreases items.len() - i,
    {
        assert(items@.take(i + 1).drop_last() =~= items@.take(i as int));
        assert(items@.take(i + 1).last() == items@[i as int]);
        assert(anchor_checkable(c, items@[i as int]));
        if let AnnotationTarget::Resource(res) = &items[i].target {
            let h = check_selectors(content, res.selector.as_slice());
            match h {
                AnchorHealth::Live => r.live = r.live + 1,
                AnchorHealth::Approximate => r.approximate = r.approximate + 1,
                AnchorHealth::Stale => r.stale = r.stale + 1,
                AnchorHealth::Orphaned => r.orphaned = r.orphaned + 1,
            }
        }
        i += 1;
    }
    assert(items@.take(i as int) =~= items@);
    r
}


// ---------------------------------------------------------------------------
// Where matching is defined
// ---------------------------------------------------------------------------

/// Whether byte `i` of the text `c` starts a character or ends the text.
fn char_boundary(c: &[u8], i: usize) -> (r: bool)
    requires
        valid_utf8(c@),
    ensures
        r == is_char_boundary(c@, i as int),
{
    proof {
        vstd::utf8::is_char_boundary_start_end_of_seq(c@);
    }
    if i == 0 || i == c.len() {
        true
    } else if i > c.len() {
        false
    } else {
        proof {
            vstd::utf8::is_char_boundary_iff_not_is_continuation_byte(c@, i as int);
        }
        !(0x80 <= c[i] && c[i] <= 0xbf)
    }
}

/// Whether the cuts that confirming an occurrence at `j` makes fall on
/// character boundaries.
fn context_slices_exec(c: &[u8], elen: usize, pf: Option<&[u8]>, sf: Option<&[u8]>, j: usize) -> (r: bool)
    requires
        valid_utf8(c@),
        j + elen <= c.len(),
    ensures
        r == context_slices_ok(
            c@,
            elen as int,
            match pf {
                Some(p) => Some(p@),
                None => None,
            },
            match sf {
                Some(s) => Some(s@),
                None => None,
            },
            j as int,
        ),
{
    let prefix_ok = match pf {
        Some(p) => j < p.len() || char_boundary(c, j - p.len()),
        None => true,
    };
    let suffix_ok = match sf {
        Some(s) => s.len() > c.len() - (j + elen) || char_boundary(c, j + elen + s.len()),
        None => true,
    };
    prefix_ok && suffix_ok
}

/// The window of `c` at `k` for a quote `e` is cut at character boundaries
/// and shares fewer than 65536 bytes with the quote.
spec fn window_ok(c: Seq<u8>, e: Seq<u8>, k: int) -> bool {
    &&& is_char_boundary(c, k)
    &&& is_char_boundary(c, window_end(c.len() as int, e.len() as int, k))
    &&& lcs(window(c, e.len() as int, k), e) < 0x10000
}

/// Whether matching the quote `exact`, with its context, against `content`
/// is defined (`quote_match_defined`, and a quote shorter than
/// `usize::MAX` bytes).
pub fn quote_matchable(content: &str, exact: &str, prefix: Option<&str>, suffix: Option<&str>) -> (r: bool)
    ensures
        r == (quote_match_defined(encode_utf8(content@), encode_utf8(exact@), opt_bytes(prefix), opt_bytes(suffix))
            && encode_utf8(exact@).len() < usize::MAX),
{
    let c = content.as_bytes();
    let e = exact.as_bytes();
    let pf = match prefix {
        Some(p) => Some(p.as_bytes()),
        None => None,
    };
    let sf = match suffix {
        Some(s) => Some(s.as_bytes()),
        None => None,
    };
    let ghost gpf = opt_bytes(prefix);
    let ghost gsf = opt_bytes(suffix);
    assert(gpf == match pf {
        Some(p) => Some(p@),
        None => None::<Seq<u8>>,
    });
    assert(gsf == match sf {
        Some(s) => Some(s@),
        None => None::<Seq<u8>>,
    });
    proof {
        vstd::utf8::encode_utf8_valid_utf8(content@);
    }
    if e.len() == 0 || e.len() == usize::MAX {
        return false;
    }
    let first = find_bytes(c, e, 0);
    proof {
        lemma_find_from_gap(c@, e@, 0);
    }
    match first {
        Some(f) => {
            if e[0] >= 0x80 {
                return false;
            }
            let clen = c.len();
            assert(occurs_at(c@, e@, f as int));
            assert(f + e@.len() <= clen);
            proof {
                lemma_find_from_gap(c@, e@, f + 1);
                lemma_confirmed_skips_gap(c@, e@, gpf, gsf, 0, f as int);
            }
            let second = find_bytes(c, e, f + 1);
            if second.is_none() {
                assert(!occurs_twice(c@, e@)) by {
                    if occurs_twice(c@, e@) {
                        let (i, j) = choose|i: int, j: int| i < j && occurs_at(c@, e@, i) && occurs_at(c@, e@, j);
                        assert(i >= 0);
                    }
                }
                return true;
            }
            let ghost s2 = second.unwrap() as int;
            assert(occurs_at(c@, e@, s2) && f < s2);
            assert(occurs_twice(c@, e@));
            // Every occurrence up to the first that its context confirms.
            let mut j: usize = f;
            let n = c.len() - e.len();
            while j <= n
                invariant_except_break
                    f <= j,
                    n == c@.len() - e@.len(),
                    first_confirmed_from(c@, e@, gpf, gsf, 0) == first_confirmed_from(c@, e@, gpf, gsf, j as int),
                invariant
                    valid_utf8(c@),
                    c@ == encode_utf8(content@),
                    e@ == encode_utf8(exact@),
                    gpf == opt_bytes(prefix),
                    gsf == opt_bytes(suffix),
                    e@.len() > 0,
                    n + 1 <= clen,
                    clen == c@.len(),
                    occurs_twice(c@, e@),
                    gpf == match pf {
                        Some(p) => Some(p@),
                        None => None::<Seq<u8>>,
                    },
                    gsf == match sf {
                        Some(s) => Some(s@),
                        None => None::<Seq<u8>>,
                    },
                    forall|k: int|
                        0 <= k < j && occurs_at(c@, e@, k) ==> context_slices_ok(c@, e@.len() as int, gpf, gsf, k),
                ensures
                    forall|k: int|
                        occurs_at(c@, e@, k) && (first_confirmed_from(c@, e@, gpf, gsf, 0) matches Some(m) ==> k <= m)
                            ==> context_slices_ok(c@, e@.len() as int, gpf, gsf, k),
                decreases n + 1 - j,
            {
                if occurs_bytes(c, e, j) {
                    proof {
                        lemma_confirmed_is_occurrence(c@, e@, gpf, gsf, j as int);
                    }
                    if !context_slices_exec(c, e.len(), pf, sf, j) {
                        return false;
                    }
                    if context_ok(c, e.len(), pf, sf, j) {
                        assert(first_confirmed_from(c@, e@, gpf, gsf, j as int) == Some(j as int));
                        assert forall|k: int|
                            occurs_at(c@, e@, k) && (first_confirmed_from(c@, e@, gpf, gsf, 0) matches Some(m) ==> k <= m)
                                implies context_slices_ok(c@, e@.len() as int, gpf, gsf, k) by {
                            assert(k <= j);
                        }
                        break;
                    }
                }
                proof {
                    if !occurs_at(c@, e@, j as int) {
                        assert(first_confirmed_from(c@, e@, gpf, gsf, j as int) == first_confirmed_from(
                            c@,
                            e@,
                            gpf,
                            gsf,
                            j + 1,
                        ));
                    }
                }
                j += 1;
            }
            assert(find(c@, e@) == Some(f as int));
            assert(quote_match_defined(c@, e@, gpf, gsf));
            true
        },
        None => {
            assert(!occurs_twice(c@, e@)) by {
                if occurs_twice(c@, e@) {
                    let (i, j) = choose|i: int, j: int| i < j && occurs_at(c@, e@, i) && occurs_at(c@, e@, j);
                    assert(i >= 0);
                }
            }
            if e.len() < 10 {
                return true;
            }
            let len = c.len();
            let half = e.len() / 2;
            let limit = if len > half {
                len - half
            } else {
                0
            };
            let mut st: usize = 0;
            while st < limit
                invariant
                    valid_utf8(c@),
                    c@ == encode_utf8(content@),
                    e@ == encode_utf8(exact@),
                    gpf == opt_bytes(prefix),
                    gsf == opt_bytes(suffix),
                    find(c@, e@) is None,
                    len == c@.len(),
                    10 <= e@.len() < usize::MAX,
                    limit == window_limit(len as int, e@.len() as int),
                    forall|k: int| 0 <= k < st ==> #[trigger] window_ok(c@, e@, k),
                decreases limit - st,
            {
                let end = window_end_exec(len, e.len(), st);
                let ok = char_boundary(c, st) && char_boundary(c, end);
                proof {
                    if quote_match_defined(c@, e@, gpf, gsf) {
                        assert(find(c@, e@) is None);
                        assert(0 <= st < window_limit(c@.len() as int, e@.len() as int));
                        let w = window(c@, e@.len() as int, st as int);
                        let we = window_end(c@.len() as int, e@.len() as int, st as int);
                        assert(is_char_boundary(c@, st as int));
                        assert(is_char_boundary(c@, we));
                    }
                }
                if !ok {
                    return false;
                }
                assert(window(c@, e@.len() as int, st as int) == c@.subrange(st as int, end as int));
                if e.len() >= 0x10000 {
                    let shared = lcs_len(c, st, end, e);
                    if shared >= 0x10000 {
                        assert(!quote_match_defined(c@, e@, gpf, gsf)) by {
                            assert(0 <= st < window_limit(c@.len() as int, e@.len() as int));
                        }
                        return false;
                    }
                } else {
                    proof {
                        lemma_lcs_bound(window(c@, e@.len() as int, st as int), e@);
                    }
                }
                assert(window_ok(c@, e@, st as int));
                st += 1;
            }
            assert forall|k: int| 0 <= k < window_limit(c@.len() as int, e@.len() as int) implies #[trigger] is_char_boundary(c@, k) by {
                assert(window_ok(c@, e@, k));
            }
            assert forall|k: int| 0 <= k < window_limit(c@.len() as int, e@.len() as int) implies {
                &&& is_char_boundary(c@, k)
                &&& is_char_boundary(c@, window_end(c@.len() as int, e@.len() as int, k))
                &&& lcs(window(c@, e@.len() as int, k), e@) < 0x10000
            } by {
                assert(window_ok(c@, e@, k));
            }
            assert(quote_match_defined(c@, e@, gpf, gsf));
            true
        },
    }
}

/// Whether checking the anchor of `a` against `content` is defined
/// (`anchor_checkable`).
pub fn anchor_matchable(content: &str, a: &Annotation) -> (r: bool)
    ensures
        r == anchor_checkable(encode_utf8(content@), *a),
{
    match &a.target {
        AnnotationTarget::Resource(res) => {
            let sels = res.selector.as_slice();
            proof {
                lemma_first_quote_props(sels@, 0);
            }
            let mut i: usize = 0;
            assert(a.target == AnnotationTarget::Resource(*res));
            while i < sels.len()
                invariant
                    i <= sels@.len(),
                    sels@ == res.selector@,
                    a.target == AnnotationTarget::Resource(*res),
                    first_quote_from(sels@, 0) == first_quote_from(sels@, i as int),
                decreases sels.len() - i,
            {
                if let Selector::TextQuoteSelector { exact, prefix, suffix } = &sels[i] {
                    assert(first_quote_from(sels@, i as int) == Some(i as int));
                    assert(sels@[i as int] == Selector::TextQuoteSelector {
                        exact: *exact,
                        prefix: *prefix,
                        suffix: *suffix,
                    });
                    let p = match prefix {
                        Some(p) => Some(p.as_str()),
                        None => None,
                    };
                    let s = match suffix {
                        Some(s) => Some(s.as_str()),
                        None => None,
                    };
                    assert(opt_bytes(p) == opt_string_bytes(*prefix));
                    assert(opt_bytes(s) == opt_string_bytes(*suffix));
                    return quote_matchable(content, exact.as_str(), p, s);
                }
                i += 1;
            }
            true
        },
        AnnotationTarget::Reference(_) => true,
    }
}

} // verus!
