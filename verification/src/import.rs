//! Importing GitHub pull-request review comments as annotations, and
//! merging them with the annotations already stored for the RFD.
use vstd::prelude::*;

use crate::annotation::{
    github_annotation_id, is_openrfd_generator, law_github_id_distinct, openrfd_generator, parse_timestamp,
    timestamp_le, utc_timestamp_of, Annotation, AnnotationBody, AnnotationCollection,
    AnnotationTarget, Creator, reply_target, GitState, Motivation, Selector, SpecificResource, Timestamp,
};
use crate::config::{padded_number, Config};
use crate::number::{decimal, decimal_chars};
use crate::text::{
    chars_of, extend_from, extend_from_range, lemma_lines_acc_end, lines, lines_acc, next_line,
    str_eq, string_of, string_of_range,
};

verus! {

/// Sync result summary.
#[derive(Debug, Clone, Copy)]
pub struct SyncResult {
    pub created: usize,
    pub updated: usize,
    pub total: usize,
}

/// The fields of a GitHub review comment that the import reads, each as
/// the JSON holds it (absent when missing or of another JSON type).
#[derive(Debug, Clone)]
pub struct PrComment {
    pub id: Option<u64>,
    pub body: Option<String>,
    pub user_login: Option<String>,
    pub user_html_url: Option<String>,
    pub created_at: Option<String>,
    pub updated_at: Option<String>,
    pub original_commit_id: Option<String>,
    pub diff_hunk: Option<String>,
    pub original_line: Option<u64>,
    pub in_reply_to_id: Option<u64>,
}

// ---------------------------------------------------------------------------
// Stored annotations
// ---------------------------------------------------------------------------

/// Whether some annotation of `s` has id `id`.
pub open spec fn has_id(s: Seq<Annotation>, id: Seq<char>) -> bool {
    exists|j: int| 0 <= j < s.len() && (#[trigger] s[j]).id@ == id
}

/// The stored annotations keyed by id: of several with one id, the last
/// one stands, and the others are dropped.
pub open spec fn latest_by_id(s: Seq<Annotation>) -> Seq<Annotation>
    decreases s.len(),
{
    if s.len() == 0 {
        seq![]
    } else {
        let rest = latest_by_id(s.drop_first());
        if has_id(s.drop_first(), s[0].id@) {
            rest
        } else {
            seq![s[0]] + rest
        }
    }
}

/// The first position at or after `i` of an annotation with id `id`.
pub open spec fn index_of_id(s: Seq<Annotation>, id: Seq<char>, i: int) -> Option<int>
    decreases s.len() - i,
{
    if i < 0 || i >= s.len() {
        None
    } else if s[i].id@ == id {
        Some(i)
    } else {
        index_of_id(s, id, i + 1)
    }
}

/// The annotations ordered by creation time.
pub open spec fn sorted_by_created(s: Seq<Annotation>) -> bool {
    forall|i: int, j: int| 0 <= i < j < s.len() ==> timestamp_le(s[i].created, s[j].created)
}

proof fn lemma_index_of_id(s: Seq<Annotation>, id: Seq<char>, i: int)
    requires
        0 <= i <= s.len(),
    ensures
        match index_of_id(s, id, i) {
            Some(k) => i <= k < s.len() && s[k].id@ == id && forall|m: int|
                i <= m < k ==> (#[trigger] s[m]).id@ != id,
            None => forall|m: int| i <= m < s.len() ==> (#[trigger] s[m]).id@ != id,
        },
    decreases s.len() - i,
{
    if i < s.len() && s[i].id@ != id {
        lemma_index_of_id(s, id, i + 1);
    }
}

/// Every id of `s` is kept in `latest_by_id(s)`, by the last annotation
/// of `s` that has it.
pub proof fn lemma_latest_keeps_ids(s: Seq<Annotation>)
    ensures
        forall|j: int|
            0 <= j < s.len() && !has_id(s.subrange(j + 1, s.len() as int), s[j].id@)
                ==> latest_by_id(s).contains(#[trigger] s[j]),
        forall|x: Annotation| #[trigger] latest_by_id(s).contains(x) ==> s.contains(x),
    decreases s.len(),
{
    if s.len() > 0 {
        let t = s.drop_first();
        lemma_latest_keeps_ids(t);
        assert forall|j: int|
            0 <= j < s.len() && !has_id(s.subrange(j + 1, s.len() as int), s[j].id@)
                implies latest_by_id(s).contains(#[trigger] s[j]) by {
            if j == 0 {
                assert(s.subrange(1, s.len() as int) =~= t);
                assert(latest_by_id(s)[0] == s[0]);
            } else {
                assert(t[j - 1] == s[j]);
                assert(t.subrange(j, t.len() as int) =~= s.subrange(j + 1, s.len() as int));
                assert(latest_by_id(t).contains(t[j - 1]));
                let k = choose|k: int| 0 <= k < latest_by_id(t).len() && latest_by_id(t)[k] == s[j];
                if !has_id(t, s[0].id@) {
                    assert(latest_by_id(s)[k + 1] == s[j]);
                }
            }
        }
        assert forall|x: Annotation| #[trigger] latest_by_id(s).contains(x) implies s.contains(x) by {
            let k = choose|k: int| 0 <= k < latest_by_id(s).len() && latest_by_id(s)[k] == x;
            if !has_id(t, s[0].id@) && k == 0 {
                assert(s[0] == x);
            } else {
                if has_id(t, s[0].id@) {
                    assert(latest_by_id(t).contains(x));
                } else {
                    assert(latest_by_id(t)[k - 1] == x);
                    assert(latest_by_id(t).contains(x));
                }
                let m = choose|m: int| 0 <= m < t.len() && t[m] == x;
                assert(s[m + 1] == x);
            }
        }
    }
}

/// Position of the first annotation with id `id`.
fn find_by_id(s: &Vec<Annotation>, id: &String) -> (r: Option<usize>)
    ensures
        match r {
            Some(k) => index_of_id(s@, id@, 0) == Some(k as int),
            None => index_of_id(s@, id@, 0) is None,
        },
{
    let mut j: usize = 0;
    while j < s.len()
        invariant
            j <= s.len(),
            index_of_id(s@, id@, 0) == index_of_id(s@, id@, j as int),
        decreases s.len() - j,
    {
        if str_eq(s[j].id.as_str(), id.as_str()) {
            return Some(j);
        }
        j += 1;
    }
    None
}

/// Keeps, of the annotations sharing an id, the last one.
fn latest_annotations(existing: Vec<Annotation>) -> (r: Vec<Annotation>)
    ensures
        r@ == latest_by_id(existing@),
{
    let ghost all = existing@;
    let mut rest = existing;
    let mut out: Vec<Annotation> = Vec::new();
    while rest.len() > 0
        invariant
            out@ + latest_by_id(rest@) == latest_by_id(all),
        decreases rest.len(),
    {
        let ghost before = rest@;
        let a = rest.remove(0);
        assert(before.drop_first() =~= rest@);
        let found = find_by_id(&rest, &a.id);
        proof {
            lemma_index_of_id(rest@, a.id@, 0);
            if has_id(rest@, a.id@) {
                let m = choose|m: int| 0 <= m < rest@.len() && (#[trigger] rest@[m]).id@ == a.id@;
                assert(rest@[m].id@ == a.id@);
            }
        }
        if found.is_none() {
            assert(out@.push(a) + latest_by_id(rest@) =~= out@ + latest_by_id(before));
            out.push(a);
        } else {
            assert(out@ + latest_by_id(rest@) =~= out@ + latest_by_id(before));
        }
    }
    assert(latest_by_id(rest@) =~= Seq::<Annotation>::empty());
    assert(out@ + latest_by_id(rest@) =~= out@);
    out
}

/// Orders annotations by creation time (a stable insertion sort).
fn sort_by_created(v: Vec<Annotation>) -> (r: Vec<Annotation>)
    ensures
        r@.to_multiset() == v@.to_multiset(),
        sorted_by_created(r@),
{
    broadcast use vstd::seq_lib::group_to_multiset_ensures;
    broadcast use vstd::multiset::group_multiset_axioms;

    let ghost all = v@;
    let mut rest = v;
    let mut out: Vec<Annotation> = Vec::new();
    while rest.len() > 0
        invariant
            out@.to_multiset().add(rest@.to_multiset()) == all.to_multiset(),
            sorted_by_created(out@),
        decreases rest.len(),
    {
        let ghost before = rest@;
        let a = rest.remove(0);
        assert(before.contains(a)) by {
            assert(before[0] == a);
        }
        let mut p: usize = 0;
        while p < out.len() && out[p].created.le(&a.created)
            invariant
                p <= out.len(),
                forall|q: int| 0 <= q < p ==> timestamp_le(out@[q].created, a.created),
            decreases out.len() - p,
        {
            p += 1;
        }
        let ghost prev = out@;
        out.insert(p, a);
        assert(sorted_by_created(out@)) by {
            assert forall|i: int, j: int| 0 <= i < j < out@.len() implies timestamp_le(
                out@[i].created,
                out@[j].created,
            ) by {
                if j == p {
                    assert(out@[i] == prev[i]);
                } else if i == p {
                    assert(out@[j] == prev[j - 1]);
                    assert(timestamp_le(prev[p as int].created, prev[j - 1].created));
                } else if i < p && j > p {
                    assert(out@[i] == prev[i]);
                    assert(out@[j] == prev[j - 1]);
                } else if j < p {
                    assert(out@[i] == prev[i]);
                    assert(out@[j] == prev[j]);
                } else {
                    assert(out@[i] == prev[i - 1]);
                    assert(out@[j] == prev[j - 1]);
                }
            }
        }
        assert(rest@ =~= before.remove(0));
        assert(out@ == prev.insert(p as int, a));
        proof {
            assert(before[0] == a);
            vstd::seq_lib::to_multiset_contains(before, a);
            vstd::seq_lib::to_multiset_remove(before, 0);
            vstd::seq_lib::to_multiset_insert(prev, p as int, a);
        }
        assert(out@.to_multiset().add(rest@.to_multiset()) =~= prev.to_multiset().add(
            before.to_multiset(),
        ));
    }
    assert(rest@.to_multiset() =~= vstd::multiset::Multiset::empty());
    assert(out@.to_multiset() =~= all.to_multiset());
    out
}

// ---------------------------------------------------------------------------
// Single comments
// ---------------------------------------------------------------------------

/// The text of an optional JSON string, empty when absent.
pub open spec fn text_or_empty(o: Option<String>) -> Seq<char> {
    match o {
        Some(s) => s@,
        None => seq![],
    }
}

/// `s` without the diff markers (`+`, `-`, space) it starts with.
pub open spec fn strip_diff_marks(s: Seq<char>) -> Seq<char>
    decreases s.len(),
{
    if s.len() > 0 && (s[0] == '+' || s[0] == '-' || s[0] == ' ') {
        strip_diff_marks(s.drop_first())
    } else {
        s
    }
}

/// The quote a review comment anchors to: the last line of its diff hunk
/// without diff markers, if that is not empty.
pub open spec fn hunk_quote(hunk: Seq<char>) -> Option<Seq<char>> {
    let ls = lines(hunk);
    if ls.len() == 0 {
        None
    } else {
        let q = strip_diff_marks(ls.last());
        if q.len() == 0 {
            None
        } else {
            Some(q)
        }
    }
}

/// The RFC 5147 fragment for a single line: `line=N,N`.
pub open spec fn line_fragment(line: u32) -> Seq<char> {
    "line="@ + decimal(line as nat) + ","@ + decimal(line as nat)
}

/// The line a comment is on, as a `u32` (0 when absent).
pub open spec fn comment_line(c: PrComment) -> u32 {
    match c.original_line {
        Some(l) => l as u32,
        None => 0,
    }
}

/// The creation time of a comment as recorded, if its `created_at` parses.
pub open spec fn parsed_created(c: PrComment) -> Option<Timestamp> {
    match c.created_at {
        Some(s) => utc_timestamp_of(s@),
        None => None,
    }
}

/// The edit time of a comment, if its `updated_at` parses.
pub open spec fn parsed_updated(c: PrComment) -> Option<Timestamp> {
    match c.updated_at {
        Some(s) => utc_timestamp_of(s@),
        None => None,
    }
}

/// The recorded Git state: present exactly when a commit is known, on the
/// RFD's branch `rfd/<padded>`.
pub open spec fn expected_state(state: Option<GitState>, commit: Seq<char>, padded: Seq<char>) -> bool {
    if commit.len() > 0 {
        match state {
            Some(st) => st.state_type@ == "GitState"@ && st.commit@ == commit && match st.git_ref {
                Some(b) => b@ == "rfd/"@ + padded,
                None => false,
            },
            None => false,
        }
    } else {
        state is None
    }
}

/// A quote selector on exactly `q`, with no context.
pub open spec fn is_quote_selector(s: Selector, q: Seq<char>) -> bool {
    match s {
        Selector::TextQuoteSelector { exact, prefix, suffix } => exact@ == q && prefix is None
            && suffix is None,
        _ => false,
    }
}

/// An RFC 5147 fragment selector on a single line.
pub open spec fn is_line_selector(s: Selector, line: u32) -> bool {
    match s {
        Selector::FragmentSelector { value, conforms_to } => value@ == line_fragment(line)
            && conforms_to@ == "http://tools.ietf.org/rfc/rfc5147"@,
        _ => false,
    }
}

/// The selectors of a review comment: the hunk quote if there is one, then
/// the line fragment if the line is known.
pub open spec fn expected_selectors(sel: Seq<Selector>, quote: Option<Seq<char>>, line: u32) -> bool {
    &&& sel.len() == (if quote is Some { 1int } else { 0int }) + (if line > 0 { 1int } else { 0int })
    &&& match quote {
        Some(q) => is_quote_selector(sel[0], q),
        None => true,
    }
    &&& line > 0 ==> is_line_selector(sel.last(), line)
}

/// The target of a top-level review comment: the RFD's README at the
/// comment's commit, anchored by its selectors.
pub open spec fn anchored_target(
    t: AnnotationTarget,
    source: Seq<char>,
    commit: Seq<char>,
    padded: Seq<char>,
    quote: Option<Seq<char>>,
    line: u32,
) -> bool {
    match t {
        AnnotationTarget::Resource(res) => {
            &&& res.resource_type@ == "SpecificResource"@
            &&& res.source@ == source
            &&& expected_state(res.state, commit, padded)
            &&& expected_selectors(res.selector@, quote, line)
        },
        _ => false,
    }
}

/// The last line of `t`, without diff markers.
fn last_hunk_line(t: &Vec<char>) -> (r: Option<Vec<char>>)
    ensures
        match hunk_quote(t@) {
            Some(q) => r matches Some(v) && v@ == q,
            None => r is None,
        },
{
    let mut start: usize = 0;
    let mut last: Option<(usize, usize)> = None;
    while start < t.len()
        invariant
            start <= t.len(),
            ({
                let rest = lines_acc(t@, start as int, start as int);
                let ls = lines(t@);
                &&& rest.len() > 0 ==> ls.len() > 0 && ls.last() == rest.last()
                &&& rest.len() == 0 ==> match last {
                    Some((a, b)) => a <= b <= t.len() && ls.len() > 0 && ls.last()
                        == t@.subrange(a as int, b as int),
                    None => ls.len() == 0,
                }
            }),
            last matches Some((a, b)) ==> a <= b <= t.len() && lines(t@).len() > 0 && (
            lines_acc(t@, start as int, start as int).len() == 0 ==> lines(t@).last()
                == t@.subrange(a as int, b as int)),
        decreases t.len() - start,
    {
        let (e, next) = next_line(t, start);
        proof {
            let rest = lines_acc(t@, start as int, start as int);
            let more = lines_acc(t@, next as int, next as int);
            assert(rest =~= seq![t@.subrange(start as int, e as int)] + more);
            if more.len() > 0 {
                assert(rest.last() == more.last());
            } else {
                assert(rest.last() == t@.subrange(start as int, e as int));
            }
        }
        last = Some((start, e));
        start = next;
    }
    proof {
        lemma_lines_acc_end(t@);
    }
    match last {
        None => None,
        Some((a, b)) => {
            let mut c = a;
            while c < b && (t[c] == '+' || t[c] == '-' || t[c] == ' ')
                invariant
                    a <= c <= b <= t.len(),
                    strip_diff_marks(t@.subrange(a as int, b as int)) == strip_diff_marks(
                        t@.subrange(c as int, b as int),
                    ),
                decreases b - c,
            {
                assert(t@.subrange(c as int, b as int).drop_first() =~= t@.subrange(
                    c + 1,
                    b as int,
                ));
                c += 1;
            }
            if c == b {
                None
            } else {
                let mut v: Vec<char> = Vec::new();
                extend_from_range(&mut v, t, c, b);
                assert(v@ =~= t@.subrange(c as int, b as int));
                Some(v)
            }
        },
    }
}

/// `line=N,N` for a line number.
pub(crate) fn fragment_for_line(line: u32) -> (r: String)
    ensures
        r@ == line_fragment(line),
{
    let mut v = chars_of("line=");
    let d = decimal_chars(line as u64);
    extend_from(&mut v, &d);
    let comma = chars_of(",");
    extend_from(&mut v, &comma);
    extend_from(&mut v, &d);
    assert(v@ =~= line_fragment(line));
    string_of(&v)
}

/// An owned copy of an optional string's text, or the fallback.
fn text_or(o: &Option<String>, fallback: &str) -> (r: String)
    ensures
        match o {
            Some(s) => r@ == s@,
            None => r@ == fallback@,
        },
{
    match o {
        Some(s) => s.clone(),
        None => fallback.to_owned(),
    }
}

/// Parses an optional date-time text.
fn parse_opt(o: &Option<String>) -> (r: Option<Timestamp>)
    ensures
        r == match o {
            Some(s) => utc_timestamp_of(s@),
            None => None,
        },
{
    match o {
        Some(s) => parse_timestamp(s.as_str()),
        None => None,
    }
}

/// `r` is the annotation imported from review comment `comment`, with id
/// `annotation_id`, on the RFD numbered `rfd_number` whose file is `source`.
pub open spec fn imported_from(
    r: Annotation,
    comment: PrComment,
    annotation_id: Seq<char>,
    gh_id: u64,
    source: Seq<char>,
    rfd_number: u32,
    pad_width: u32,
) -> bool {
    &&& r.context@ == "http://www.w3.org/ns/anno.jsonld"@
    &&& r.annotation_type@ == "Annotation"@
    &&& r.id@ == annotation_id
    &&& r.creator.creator_type@ == "Person"@
    &&& r.creator.name@ == match comment.user_login {
        Some(s) => s@,
        None => "unknown"@,
    }
    &&& r.creator.email is None
    &&& match comment.user_html_url {
        Some(u) => r.creator.url matches Some(x) && x@ == u@,
        None => r.creator.url is None,
    }
    &&& parsed_created(comment) matches Some(t) ==> r.created == t
    &&& r.motivation == if comment.in_reply_to_id is Some {
        Motivation::Replying
    } else {
        Motivation::Commenting
    }
    &&& r.body.body_type@ == "TextualBody"@
    &&& r.body.value@ == text_or_empty(comment.body)
    &&& r.body.format@ == "text/markdown"@
    &&& r.modified == match parsed_updated(comment) {
        Some(u) => if u != r.created {
            Some(u)
        } else {
            None
        },
        None => None,
    }
    &&& r.resolved is None
    &&& r.origin matches Some(o) && o@ == "github:"@ + decimal(gh_id as nat)
    &&& match comment.in_reply_to_id {
        Some(parent) => reply_target(r.target) == Some(
            github_annotation_id(rfd_number, pad_width, parent),
        ),
        None => anchored_target(
            r.target,
            source,
            text_or_empty(comment.original_commit_id),
            crate::config::padded_number(rfd_number, pad_width),
            hunk_quote(text_or_empty(comment.diff_hunk)),
            comment_line(comment),
        ),
    }
}

/// Convert a GitHub review comment into a W3C Annotation.
pub fn comment_to_annotation(
    comment: &PrComment,
    annotation_id: &str,
    gh_id: u64,
    source: &str,
    rfd_number: u32,
    config: &Config,
) -> (r: Annotation)
    ensures
        imported_from(
            r,
            *comment,
            annotation_id@,
            gh_id,
            source@,
            rfd_number,
            config.rfd.pad_width,
        ),
{
    let body_text = text_or(&comment.body, "");
    proof {
        reveal_strlit("");
    }
    let user_name = text_or(&comment.user_login, "unknown");
    let user_url = match &comment.user_html_url {
        Some(u) => Some(u.clone()),
        None => None,
    };
    let created = match parse_opt(&comment.created_at) {
        Some(t) => t,
        None => Timestamp::now(),
    };
    let updated = parse_opt(&comment.updated_at);
    let modified = match updated {
        Some(u) => if u != created {
            Some(u)
        } else {
            None
        },
        None => None,
    };
    let commit_id = text_or(&comment.original_commit_id, "");
    let hunk = text_or(&comment.diff_hunk, "");
    let line: u32 = match comment.original_line {
        Some(l) => l as u32,
        None => 0,
    };
    let hunk_chars = chars_of(hunk.as_str());
    let mut selectors: Vec<Selector> = Vec::new();
    if let Some(q) = last_hunk_line(&hunk_chars) {
        selectors.push(
            Selector::TextQuoteSelector { exact: string_of(&q), prefix: None, suffix: None },
        );
    }
    if line > 0 {
        selectors.push(
            Selector::FragmentSelector {
                value: fragment_for_line(line),
                conforms_to: "http://tools.ietf.org/rfc/rfc5147".to_owned(),
            },
        );
    }
    let target = match comment.in_reply_to_id {
        Some(parent_gh_id) => {
            let parent_id = Annotation::github_id(rfd_number, config.rfd.pad_width, parent_gh_id);
            AnnotationTarget::Reference(parent_id)
        },
        None => {
            let commit_chars = chars_of(commit_id.as_str());
            let state = if commit_chars.len() > 0 {
                Some(
                    GitState {
                        state_type: "GitState".to_owned(),
                        commit: commit_id,
                        git_ref: Some(config.branch_name(rfd_number)),
                    },
                )
            } else {
                None
            };
            AnnotationTarget::Resource(
                SpecificResource {
                    resource_type: "SpecificResource".to_owned(),
                    source: source.to_owned(),
                    state,
                    selector: selectors,
                },
            )
        },
    };
    let motivation = if comment.in_reply_to_id.is_some() {
        Motivation::Replying
    } else {
        Motivation::Commenting
    };
    let mut origin = chars_of("github:");
    let digits = decimal_chars(gh_id);
    extend_from(&mut origin, &digits);
    let r = Annotation {
        context: "http://www.w3.org/ns/anno.jsonld".to_owned(),
        annotation_type: "Annotation".to_owned(),
        id: annotation_id.to_owned(),
        creator: Creator {
            creator_type: "Person".to_owned(),
            name: user_name,
            email: None,
            url: user_url,
        },
        created,
        motivation,
        body: AnnotationBody {
            body_type: "TextualBody".to_owned(),
            value: body_text,
            format: "text/markdown".to_owned(),
        },
        target,
        modified,
        resolved: None,
        origin: Some(string_of(&origin)),
    };
    assert(r.body.value@ == text_or_empty(comment.body));
    assert(r.modified == match parsed_updated(*comment) {
        Some(u) => if u != r.created {
            Some(u)
        } else {
            None
        },
        None => None,
    });
    assert(r.origin matches Some(o) && o@ == "github:"@ + decimal(gh_id as nat));
    r
}

// ---------------------------------------------------------------------------
// Syncing a pull request's comments
// ---------------------------------------------------------------------------

/// A review comment is imported when it has an id and a non-empty body.
pub open spec fn is_importable(c: PrComment) -> bool {
    c.id is Some && text_or_empty(c.body).len() > 0
}

/// The id of the annotation for review comment `c`.
pub open spec fn comment_annotation_id(c: PrComment, rfd_number: u32, pad_width: u32) -> Seq<char> {
    github_annotation_id(rfd_number, pad_width, c.id.unwrap())
}

/// The RFD's document, `rfd/<padded>/README.md`.
pub open spec fn rfd_source(rfd_number: u32, pad_width: u32) -> Seq<char> {
    "rfd/"@ + padded_number(rfd_number, pad_width) + "/README.md"@
}

/// Where comment `c` finds its stored annotation in `pool`, if it has one.
pub open spec fn claim(pool: Seq<Annotation>, c: PrComment, rfd_number: u32, pad_width: u32) -> Option<int> {
    if is_importable(c) {
        index_of_id(pool, comment_annotation_id(c, rfd_number, pad_width), 0)
    } else {
        None
    }
}

/// The stored annotations that no comment among the first `n` has claimed.
pub open spec fn unclaimed(
    cs: Seq<PrComment>,
    pool: Seq<Annotation>,
    rfd_number: u32,
    pad_width: u32,
    n: int,
) -> Seq<Annotation>
    decreases n,
{
    if n <= 0 {
        pool
    } else {
        let p = unclaimed(cs, pool, rfd_number, pad_width, n - 1);
        match claim(p, cs[n - 1], rfd_number, pad_width) {
            Some(k) => p.remove(k),
            None => p,
        }
    }
}

/// How many of the first `n` comments are imported.
pub open spec fn imported_count(cs: Seq<PrComment>, n: int) -> nat
    decreases n,
{
    if n <= 0 {
        0
    } else {
        imported_count(cs, n - 1) + if is_importable(cs[n - 1]) {
            1nat
        } else {
            0nat
        }
    }
}

/// How many of the first `n` comments create a new annotation.
pub open spec fn created_count(
    cs: Seq<PrComment>,
    pool: Seq<Annotation>,
    rfd_number: u32,
    pad_width: u32,
    n: int,
) -> nat
    decreases n,
{
    if n <= 0 {
        0
    } else {
        let p = unclaimed(cs, pool, rfd_number, pad_width, n - 1);
        created_count(cs, pool, rfd_number, pad_width, n - 1) + if is_importable(cs[n - 1])
            && claim(p, cs[n - 1], rfd_number, pad_width) is None {
            1nat
        } else {
            0nat
        }
    }
}

/// How many of the first `n` comments change the body of their stored annotation.
pub open spec fn updated_count(
    cs: Seq<PrComment>,
    pool: Seq<Annotation>,
    rfd_number: u32,
    pad_width: u32,
    n: int,
) -> nat
    decreases n,
{
    if n <= 0 {
        0
    } else {
        let p = unclaimed(cs, pool, rfd_number, pad_width, n - 1);
        updated_count(cs, pool, rfd_number, pad_width, n - 1) + match claim(
            p,
            cs[n - 1],
            rfd_number,
            pad_width,
        ) {
            Some(k) => if p[k].body.value@ != text_or_empty(cs[n - 1].body) {
                1nat
            } else {
                0nat
            },
            None => 0nat,
        }
    }
}

/// `a` is the stored annotation `old` brought up to date with comment `c`:
/// an edited body is taken over and `modified` set from the comment; all
/// else, the local `resolved` state among it, stays.
pub open spec fn refreshed(a: Annotation, old: Annotation, c: PrComment) -> bool {
    if old.body.value@ != text_or_empty(c.body) {
        &&& a.body.value@ == text_or_empty(c.body)
        &&& a.modified == parsed_updated(c)
        &&& a == (Annotation {
            body: AnnotationBody { value: a.body.value, ..old.body },
            modified: a.modified,
            ..old
        })
    } else {
        a == old
    }
}

/// `a` is what comment `c` yields, with `pool` the stored annotations not
/// yet claimed: its stored annotation refreshed, or a new import.
pub open spec fn synced_item(
    a: Annotation,
    c: PrComment,
    pool: Seq<Annotation>,
    rfd_number: u32,
    pad_width: u32,
) -> bool {
    match claim(pool, c, rfd_number, pad_width) {
        Some(k) => refreshed(a, pool[k], c),
        None => imported_from(
            a,
            c,
            comment_annotation_id(c, rfd_number, pad_width),
            c.id.unwrap(),
            rfd_source(rfd_number, pad_width),
            rfd_number,
            pad_width,
        ),
    }
}

/// The annotations of a sync: one per imported comment, in comment order,
/// then the stored annotations that no comment claimed, oldest first.
pub open spec fn synced_items(
    items: Seq<Annotation>,
    stored: Seq<Annotation>,
    cs: Seq<PrComment>,
    rfd_number: u32,
    pad_width: u32,
) -> bool {
    let pool = latest_by_id(stored);
    let n = cs.len() as int;
    let m = imported_count(cs, n) as int;
    let left = unclaimed(cs, pool, rfd_number, pad_width, n);
    &&& items.len() == m + left.len()
    &&& forall|j: int|
        0 <= j < n && #[trigger] is_importable(cs[j]) ==> synced_item(
            items[imported_count(cs, j) as int],
            cs[j],
            unclaimed(cs, pool, rfd_number, pad_width, j),
            rfd_number,
            pad_width,
        )
    &&& items.subrange(m, items.len() as int).to_multiset() == left.to_multiset()
    &&& sorted_by_created(items.subrange(m, items.len() as int))
}

proof fn lemma_imported_count_grows(cs: Seq<PrComment>, j: int, i: int)
    requires
        0 <= j < i,
        is_importable(cs[j]),
    ensures
        imported_count(cs, j) < imported_count(cs, i),
    decreases i - j,
{
    if j + 1 < i {
        lemma_imported_count_grows(cs, j, i - 1);
    }
}

/// `a` is `old` with at most its body text and `modified` changed.
pub open spec fn same_but_text(a: Annotation, old: Annotation) -> bool {
    a == (Annotation {
        body: AnnotationBody { value: a.body.value, ..old.body },
        modified: a.modified,
        ..old
    })
}

/// If some annotation of `s` has id `id`, so does one of `latest_by_id(s)`.
pub proof fn lemma_latest_has_ids(s: Seq<Annotation>, id: Seq<char>)
    requires
        has_id(s, id),
    ensures
        has_id(latest_by_id(s), id),
    decreases s.len(),
{
    let t = s.drop_first();
    let l = latest_by_id(s);
    let j = choose|j: int| 0 <= j < s.len() && (#[trigger] s[j]).id@ == id;
    if j > 0 {
        assert(t[j - 1].id@ == id);
        lemma_latest_has_ids(t, id);
        let lt = latest_by_id(t);
        let k = choose|k: int| 0 <= k < lt.len() && (#[trigger] lt[k]).id@ == id;
        if has_id(t, s[0].id@) {
            assert(l[k].id@ == id);
        } else {
            assert(l[k + 1].id@ == id);
        }
    } else if has_id(t, s[0].id@) {
        lemma_latest_has_ids(t, id);
        let lt = latest_by_id(t);
        let k = choose|k: int| 0 <= k < lt.len() && (#[trigger] lt[k]).id@ == id;
        assert(l[k].id@ == id);
    } else {
        assert(l[0].id@ == id);
    }
}

/// Comment `j` claims the stored annotation `x`.
pub open spec fn claims(
    cs: Seq<PrComment>,
    pool: Seq<Annotation>,
    rfd_number: u32,
    pad_width: u32,
    j: int,
    x: Annotation,
) -> bool {
    let p = unclaimed(cs, pool, rfd_number, pad_width, j);
    is_importable(cs[j]) && match claim(p, cs[j], rfd_number, pad_width) {
        Some(k) => p[k] == x,
        None => false,
    }
}

/// A stored annotation is, after the first `n` comments, either still
/// unclaimed or claimed by one of them.
proof fn lemma_claimed_or_unclaimed(
    cs: Seq<PrComment>,
    pool: Seq<Annotation>,
    rfd_number: u32,
    pad_width: u32,
    n: int,
    x: Annotation,
)
    requires
        0 <= n <= cs.len(),
        pool.contains(x),
    ensures
        unclaimed(cs, pool, rfd_number, pad_width, n).contains(x) || exists|j: int|
            0 <= j < n && #[trigger] claims(cs, pool, rfd_number, pad_width, j, x),
    decreases n,
{
    if n > 0 {
        lemma_claimed_or_unclaimed(cs, pool, rfd_number, pad_width, n - 1, x);
        let p = unclaimed(cs, pool, rfd_number, pad_width, n - 1);
        if p.contains(x) {
            let idx = choose|idx: int| 0 <= idx < p.len() && p[idx] == x;
            match claim(p, cs[n - 1], rfd_number, pad_width) {
                Some(k) => {
                    lemma_index_of_id(p, comment_annotation_id(cs[n - 1], rfd_number, pad_width), 0);
                    if p[k] == x {
                        assert(claims(cs, pool, rfd_number, pad_width, n - 1, x));
                    } else if idx < k {
                        assert(p.remove(k)[idx] == x);
                    } else {
                        assert(p.remove(k)[idx - 1] == x);
                    }
                },
                None => {},
            }
        }
    }
}

/// A sync loses no annotation: every stored annotation (of several with
/// one id, the last) is still there, with at most its body text and
/// `modified` brought up to date, so its local state (`resolved`) stays;
/// and every id that was stored is still stored.
pub proof fn law_sync_keeps_stored(
    items: Seq<Annotation>,
    stored: Seq<Annotation>,
    cs: Seq<PrComment>,
    rfd_number: u32,
    pad_width: u32,
)
    requires
        synced_items(items, stored, cs, rfd_number, pad_width),
    ensures
        forall|x: Annotation|
            #[trigger] latest_by_id(stored).contains(x) ==> exists|m: int|
                0 <= m < items.len() && same_but_text(#[trigger] items[m], x),
        forall|i: int|
            0 <= i < stored.len() ==> exists|m: int|
                0 <= m < items.len() && (#[trigger] items[m]).id@ == (#[trigger] stored[i]).id@,
{
    broadcast use vstd::seq_lib::group_to_multiset_ensures;

    let pool = latest_by_id(stored);
    let n = cs.len() as int;
    let mm = imported_count(cs, n) as int;
    let left = unclaimed(cs, pool, rfd_number, pad_width, n);
    let tail = items.subrange(mm, items.len() as int);
    assert forall|x: Annotation| #[trigger] pool.contains(x) implies exists|m: int|
        0 <= m < items.len() && same_but_text(#[trigger] items[m], x) by {
        lemma_claimed_or_unclaimed(cs, pool, rfd_number, pad_width, n, x);
        if left.contains(x) {
            assert(left.to_multiset().count(x) > 0);
            assert(tail.to_multiset().count(x) > 0);
            assert(tail.contains(x));
            let q = choose|q: int| 0 <= q < tail.len() && tail[q] == x;
            assert(items[mm + q] == x);
            assert(same_but_text(items[mm + q], x));
        } else {
            let j = choose|j: int|
                0 <= j < n && #[trigger] claims(cs, pool, rfd_number, pad_width, j, x);
            lemma_imported_count_grows(cs, j, n);
            let a = items[imported_count(cs, j) as int];
            assert(synced_item(a, cs[j], unclaimed(cs, pool, rfd_number, pad_width, j), rfd_number, pad_width));
            assert(same_but_text(a, x));
        }
    }
    assert forall|i: int| 0 <= i < stored.len() implies exists|m: int|
        0 <= m < items.len() && (#[trigger] items[m]).id@ == (#[trigger] stored[i]).id@ by {
        assert(has_id(stored, stored[i].id@));
        lemma_latest_has_ids(stored, stored[i].id@);
        let k = choose|k: int| 0 <= k < pool.len() && (#[trigger] pool[k]).id@ == stored[i].id@;
        assert(pool.contains(pool[k]));
        let m = choose|m: int| 0 <= m < items.len() && same_but_text(#[trigger] items[m], pool[k]);
        assert(items[m].id@ == stored[i].id@);
    }
}

/// After a sync, the annotation of every imported comment has the
/// comment's annotation id and the comment's current body.
pub proof fn law_sync_mirrors_comments(
    items: Seq<Annotation>,
    stored: Seq<Annotation>,
    cs: Seq<PrComment>,
    rfd_number: u32,
    pad_width: u32,
)
    requires
        synced_items(items, stored, cs, rfd_number, pad_width),
    ensures
        forall|j: int|
            0 <= j < cs.len() && #[trigger] is_importable(cs[j]) ==> {
                let a = items[imported_count(cs, j) as int];
                &&& a.id@ == comment_annotation_id(cs[j], rfd_number, pad_width)
                &&& a.body.value@ == text_or_empty(cs[j].body)
            },
{
    let pool = latest_by_id(stored);
    assert forall|j: int| 0 <= j < cs.len() && #[trigger] is_importable(cs[j]) implies {
        let a = items[imported_count(cs, j) as int];
        &&& a.id@ == comment_annotation_id(cs[j], rfd_number, pad_width)
        &&& a.body.value@ == text_or_empty(cs[j].body)
    } by {
        let p = unclaimed(cs, pool, rfd_number, pad_width, j);
        lemma_index_of_id(p, comment_annotation_id(cs[j], rfd_number, pad_width), 0);
    }
}

// ---------------------------------------------------------------------------
// Syncing again
// ---------------------------------------------------------------------------

/// No two annotations of `s` share an id.
pub open spec fn unique_ids(s: Seq<Annotation>) -> bool {
    forall|a: int, b: int| 0 <= a < b < s.len() ==> (#[trigger] s[a]).id@ != (#[trigger] s[b]).id@
}

/// No two imported comments share a GitHub id.
pub open spec fn distinct_comment_ids(cs: Seq<PrComment>) -> bool {
    forall|i: int, j: int|
        0 <= i < j < cs.len() && is_importable(#[trigger] cs[i]) && is_importable(#[trigger] cs[j])
            ==> cs[i].id != cs[j].id
}

proof fn lemma_latest_unique(s: Seq<Annotation>)
    ensures
        unique_ids(latest_by_id(s)),
    decreases s.len(),
{
    if s.len() > 0 {
        let t = s.drop_first();
        lemma_latest_unique(t);
        lemma_latest_keeps_ids(t);
        let rest = latest_by_id(t);
        if !has_id(t, s[0].id@) {
            let l = latest_by_id(s);
            assert(l =~= seq![s[0]] + rest);
            assert forall|a: int, b: int| 0 <= a < b < l.len() implies (#[trigger] l[a]).id@ != (
            #[trigger] l[b]).id@ by {
                if a == 0 {
                    assert(l[b] == rest[b - 1]);
                    assert(rest.contains(rest[b - 1]));
                    assert(t.contains(rest[b - 1]));
                    let m = choose|m: int| 0 <= m < t.len() && t[m] == rest[b - 1];
                    assert(t[m].id@ != s[0].id@);
                } else {
                    assert(l[a] == rest[a - 1] && l[b] == rest[b - 1]);
                }
            }
        }
    }
}

proof fn lemma_latest_of_unique(s: Seq<Annotation>)
    requires
        unique_ids(s),
    ensures
        latest_by_id(s) == s,
    decreases s.len(),
{
    if s.len() > 0 {
        let t = s.drop_first();
        assert(unique_ids(t)) by {
            assert forall|a: int, b: int| 0 <= a < b < t.len() implies (#[trigger] t[a]).id@ != (
            #[trigger] t[b]).id@ by {
                assert(t[a] == s[a + 1] && t[b] == s[b + 1]);
            }
        }
        lemma_latest_of_unique(t);
        assert(!has_id(t, s[0].id@)) by {
            if has_id(t, s[0].id@) {
                let j = choose|j: int| 0 <= j < t.len() && (#[trigger] t[j]).id@ == s[0].id@;
                assert(t[j] == s[j + 1]);
            }
        }
        assert(latest_by_id(s) =~= seq![s[0]] + t);
        assert(seq![s[0]] + t =~= s);
    }
}

/// The stored annotations left after the first `j` comments have distinct
/// ids, none of them the id of one of those comments.
proof fn lemma_unclaimed_ids(
    cs: Seq<PrComment>,
    pool: Seq<Annotation>,
    rfd_number: u32,
    pad_width: u32,
    j: int,
)
    requires
        unique_ids(pool),
        0 <= j <= cs.len(),
    ensures
        unique_ids(unclaimed(cs, pool, rfd_number, pad_width, j)),
        forall|x: Annotation| #[trigger] unclaimed(cs, pool, rfd_number, pad_width, j).contains(x)
            ==> pool.contains(x),
        forall|i: int, x: Annotation|
            0 <= i < j && is_importable(cs[i]) && #[trigger] unclaimed(cs, pool, rfd_number, pad_width, j).contains(x)
                ==> x.id@ != #[trigger] comment_annotation_id(cs[i], rfd_number, pad_width),
    decreases j,
{
    if j > 0 {
        lemma_unclaimed_ids(cs, pool, rfd_number, pad_width, j - 1);
        let p = unclaimed(cs, pool, rfd_number, pad_width, j - 1);
        let u = unclaimed(cs, pool, rfd_number, pad_width, j);
        let id = comment_annotation_id(cs[j - 1], rfd_number, pad_width);
        match claim(p, cs[j - 1], rfd_number, pad_width) {
            Some(k) => {
                lemma_index_of_id(p, id, 0);
                assert(u == p.remove(k));
                assert forall|a: int, b: int| 0 <= a < b < u.len() implies (#[trigger] u[a]).id@ != (
                #[trigger] u[b]).id@ by {
                    let a2 = if a < k { a } else { a + 1 };
                    let b2 = if b < k { b } else { b + 1 };
                    assert(u[a] == p[a2] && u[b] == p[b2]);
                }
                assert forall|x: Annotation| #[trigger] u.contains(x) implies p.contains(x) && x.id@ != id by {
                    let m = choose|m: int| 0 <= m < u.len() && u[m] == x;
                    let m2 = if m < k { m } else { m + 1 };
                    assert(u[m] == p[m2]);
                    assert(m2 != k);
                }
            },
            None => {
                assert(u == p);
                if is_importable(cs[j - 1]) {
                    lemma_index_of_id(p, id, 0);
                    assert forall|x: Annotation| #[trigger] u.contains(x) implies x.id@ != id by {
                        let m = choose|m: int| 0 <= m < u.len() && u[m] == x;
                    }
                }
            },
        }
    }
}

/// Syncing again from annotations whose first entries are, in order, the
/// imports of the comments: each comment claims the next of them.
proof fn lemma_resync_unclaimed(
    items: Seq<Annotation>,
    cs: Seq<PrComment>,
    rfd_number: u32,
    pad_width: u32,
    j: int,
)
    requires
        0 <= j <= cs.len(),
        imported_count(cs, cs.len() as int) <= items.len(),
        forall|i: int|
            0 <= i < cs.len() && #[trigger] is_importable(cs[i]) ==> items[imported_count(cs, i) as int].id@
                == comment_annotation_id(cs[i], rfd_number, pad_width),
    ensures
        unclaimed(cs, items, rfd_number, pad_width, j) == items.subrange(
            imported_count(cs, j) as int,
            items.len() as int,
        ),
    decreases j,
{
    if j > 0 {
        lemma_resync_unclaimed(items, cs, rfd_number, pad_width, j - 1);
        let p = unclaimed(cs, items, rfd_number, pad_width, j - 1);
        let ic = imported_count(cs, j - 1) as int;
        if is_importable(cs[j - 1]) {
            lemma_imported_count_grows(cs, j - 1, cs.len() as int);
            assert(p[0] == items[ic]);
            assert(index_of_id(p, comment_annotation_id(cs[j - 1], rfd_number, pad_width), 0) == Some(0int));
            assert(p.remove(0) =~= items.subrange(ic + 1, items.len() as int));
        }
    }
}

/// Syncing again with the same comments changes nothing: no annotation is
/// created or updated, each comment's annotation stays as it was, and the
/// annotations whose comment is gone are the same ones. Comments have
/// distinct GitHub ids.
pub proof fn law_resync_changes_nothing(
    items: Seq<Annotation>,
    again: Seq<Annotation>,
    stored: Seq<Annotation>,
    cs: Seq<PrComment>,
    rfd_number: u32,
    pad_width: u32,
)
    requires
        distinct_comment_ids(cs),
        synced_items(items, stored, cs, rfd_number, pad_width),
        synced_items(again, items, cs, rfd_number, pad_width),
    ensures
        created_count(cs, latest_by_id(items), rfd_number, pad_width, cs.len() as int) == 0,
        updated_count(cs, latest_by_id(items), rfd_number, pad_width, cs.len() as int) == 0,
        again.len() == items.len(),
        forall|j: int|
            0 <= j < cs.len() && #[trigger] is_importable(cs[j]) ==> again[imported_count(cs, j) as int]
                == items[imported_count(cs, j) as int],
        again.subrange(imported_count(cs, cs.len() as int) as int, again.len() as int).to_multiset()
            == items.subrange(imported_count(cs, cs.len() as int) as int, items.len() as int).to_multiset(),
{
    broadcast use vstd::seq_lib::group_to_multiset_ensures;

    let n = cs.len() as int;
    let m = imported_count(cs, n) as int;
    let pool = latest_by_id(stored);
    let left = unclaimed(cs, pool, rfd_number, pad_width, n);
    let tail = items.subrange(m, items.len() as int);
    law_sync_mirrors_comments(items, stored, cs, rfd_number, pad_width);
    lemma_latest_unique(stored);
    lemma_unclaimed_ids(cs, pool, rfd_number, pad_width, n);
    lemma_import_positions(cs, n);
    // the annotations left over are distinct
    assert(left.no_duplicates()) by {
        assert forall|a: int, b: int| 0 <= a < left.len() && 0 <= b < left.len() && a != b implies left[a]
            != left[b] by {
            if a < b {
                assert(left[a].id@ != left[b].id@);
            } else {
                assert(left[b].id@ != left[a].id@);
            }
        }
    }
    left.lemma_multiset_has_no_duplicates();
    tail.lemma_multiset_has_no_duplicates_conv();
    // a left-over annotation has no comment's id
    assert forall|q: int, j: int|
        m <= q < items.len() && 0 <= j < n && is_importable(cs[j]) implies (#[trigger] items[q]).id@
        != #[trigger] comment_annotation_id(cs[j], rfd_number, pad_width) by {
        assert(tail[q - m] == items[q]);
        assert(tail.to_multiset().count(items[q]) > 0);
        assert(left.contains(items[q]));
    }
    // the ids of the synced annotations are distinct
    assert(unique_ids(items)) by {
        assert forall|a: int, b: int| 0 <= a < b < items.len() implies (#[trigger] items[a]).id@ != (
        #[trigger] items[b]).id@ by {
            if b < m {
                assert(import_at(cs, n, a) && import_at(cs, n, b));
                let ja = choose|ja: int| 0 <= ja < n && is_importable(cs[ja]) && #[trigger] imported_count(cs, ja) == a;
                let jb = choose|jb: int| 0 <= jb < n && is_importable(cs[jb]) && #[trigger] imported_count(cs, jb) == b;
                assert(ja != jb);
                if ja < jb {
                    assert(cs[ja].id != cs[jb].id);
                } else {
                    assert(cs[jb].id != cs[ja].id);
                }
                law_github_id_distinct(rfd_number, pad_width, cs[ja].id.unwrap(), cs[jb].id.unwrap());
            } else if a < m {
                assert(import_at(cs, n, a));
                let ja = choose|ja: int| 0 <= ja < n && is_importable(cs[ja]) && #[trigger] imported_count(cs, ja) == a;
                assert(items[b].id@ != comment_annotation_id(cs[ja], rfd_number, pad_width));
            } else {
                assert(tail[a - m] == items[a] && tail[b - m] == items[b]);
                assert(items[a] != items[b]);
                assert(tail.to_multiset().count(items[a]) > 0);
                assert(tail.to_multiset().count(items[b]) > 0);
                assert(left.contains(items[a]) && left.contains(items[b]));
                let pa = choose|pa: int| 0 <= pa < left.len() && left[pa] == items[a];
                let pb = choose|pb: int| 0 <= pb < left.len() && left[pb] == items[b];
                if pa < pb {
                    assert(left[pa].id@ != left[pb].id@);
                } else {
                    assert(left[pb].id@ != left[pa].id@);
                }
            }
        }
    }
    lemma_latest_of_unique(items);
    // syncing again: each comment claims its own annotation
    assert forall|i: int| 0 <= i < n && #[trigger] is_importable(cs[i]) implies {
        let p = unclaimed(cs, items, rfd_number, pad_width, i);
        let k = imported_count(cs, i) as int;
        &&& claim(p, cs[i], rfd_number, pad_width) == Some(0int)
        &&& p[0] == items[k]
    } by {
        lemma_resync_unclaimed(items, cs, rfd_number, pad_width, i);
        lemma_imported_count_grows(cs, i, n);
    }
    lemma_resync_counts(items, cs, rfd_number, pad_width, n);
    lemma_resync_unclaimed(items, cs, rfd_number, pad_width, n);
    assert forall|j: int| 0 <= j < n && #[trigger] is_importable(cs[j]) implies again[imported_count(cs, j) as int]
        == items[imported_count(cs, j) as int] by {
        let p = unclaimed(cs, items, rfd_number, pad_width, j);
        assert(synced_item(again[imported_count(cs, j) as int], cs[j], p, rfd_number, pad_width));
    }
}

/// Position `a` among the imports is that of one of the first `n` comments.
pub open spec fn import_at(cs: Seq<PrComment>, n: int, a: int) -> bool {
    exists|j: int| 0 <= j < n && is_importable(cs[j]) && #[trigger] imported_count(cs, j) == a
}

/// Each position among the imports is that of some imported comment.
proof fn lemma_import_positions(cs: Seq<PrComment>, n: int)
    requires
        0 <= n <= cs.len(),
    ensures
        forall|a: int| 0 <= a < imported_count(cs, n) ==> #[trigger] import_at(cs, n, a),
    decreases n,
{
    if n > 0 {
        lemma_import_positions(cs, n - 1);
        assert forall|a: int| 0 <= a < imported_count(cs, n) implies #[trigger] import_at(cs, n, a) by {
            if a == imported_count(cs, n - 1) {
                assert(is_importable(cs[n - 1]));
                assert(imported_count(cs, n - 1) == a);
            } else {
                assert(import_at(cs, n - 1, a));
                let j = choose|j: int| 0 <= j < n - 1 && is_importable(cs[j]) && #[trigger] imported_count(cs, j) == a;
                assert(0 <= j < n && is_importable(cs[j]) && imported_count(cs, j) == a);
            }
        }
    }
}

/// Syncing again, where every comment claims its own annotation with the
/// comment's body, creates and updates nothing.
proof fn lemma_resync_counts(items: Seq<Annotation>, cs: Seq<PrComment>, rfd_number: u32, pad_width: u32, j: int)
    requires
        0 <= j <= cs.len(),
        forall|i: int| 0 <= i < cs.len() && #[trigger] is_importable(cs[i]) ==> {
            let p = unclaimed(cs, items, rfd_number, pad_width, i);
            let k = imported_count(cs, i) as int;
            &&& claim(p, cs[i], rfd_number, pad_width) == Some(0int)
            &&& p[0] == items[k]
        },
        forall|i: int|
            0 <= i < cs.len() && #[trigger] is_importable(cs[i]) ==> items[imported_count(cs, i) as int].body.value@
                == text_or_empty(cs[i].body),
    ensures
        created_count(cs, items, rfd_number, pad_width, j) == 0,
        updated_count(cs, items, rfd_number, pad_width, j) == 0,
    decreases j,
{
    if j > 0 {
        lemma_resync_counts(items, cs, rfd_number, pad_width, j - 1);
    }
}

/// `PR #<n> Discussion`.
pub open spec fn discussion_label(pr_number: u32) -> Seq<char> {
    "PR #"@ + decimal(pr_number as nat) + " Discussion"@
}

/// Merges a pull request's review comments, as GitHub holds them now, with
/// the annotations stored for the RFD.
///
/// - New comments get stable ids derived from the GitHub comment id.
/// - Edited comments have their body taken over and `modified` set.
/// - Local state (`resolved`) is kept across syncs.
/// - Replies are threaded to the annotation of the comment they answer.
/// - Annotations whose comment is gone from GitHub are kept, oldest first.
pub fn merge_pr_comments(
    existing: Vec<Annotation>,
    comments: &Vec<PrComment>,
    config: &Config,
    rfd_number: u32,
    pr_number: u32,
) -> (r: (AnnotationCollection, SyncResult))
    ensures
        r.0.context@ == "http://www.w3.org/ns/anno.jsonld"@,
        r.0.collection_type@ == "AnnotationCollection"@,
        r.0.label@ == discussion_label(pr_number),
        r.0.generator matches Some(g) && is_openrfd_generator(g),
        synced_items(r.0.items@, existing@, comments@, rfd_number, config.rfd.pad_width),
        r.1.created == created_count(
            comments@,
            latest_by_id(existing@),
            rfd_number,
            config.rfd.pad_width,
            comments@.len() as int,
        ),
        r.1.updated == updated_count(
            comments@,
            latest_by_id(existing@),
            rfd_number,
            config.rfd.pad_width,
            comments@.len() as int,
        ),
        r.1.total == r.0.items@.len(),
{
    let ghost stored = existing@;
    let w = config.rfd.pad_width;
    let pool0 = latest_annotations(existing);
    let ghost p0 = pool0@;
    let mut pool = pool0;
    let mut src = chars_of("rfd/");
    let padded = config.pad_number(rfd_number);
    let pc = chars_of(padded.as_str());
    extend_from(&mut src, &pc);
    let tail = chars_of("/README.md");
    extend_from(&mut src, &tail);
    let source = string_of(&src);
    assert(source@ == rfd_source(rfd_number, w));
    let mut items: Vec<Annotation> = Vec::new();
    let mut created: usize = 0;
    let mut updated: usize = 0;
    let mut i: usize = 0;
    while i < comments.len()
        invariant
            i <= comments.len(),
            w == config.rfd.pad_width,
            p0 == latest_by_id(stored),
            source@ == rfd_source(rfd_number, w),
            pool@ == unclaimed(comments@, p0, rfd_number, w, i as int),
            items@.len() == imported_count(comments@, i as int),
            forall|j: int|
                0 <= j < i && #[trigger] is_importable(comments@[j]) ==> synced_item(
                    items@[imported_count(comments@, j) as int],
                    comments@[j],
                    unclaimed(comments@, p0, rfd_number, w, j),
                    rfd_number,
                    w,
                ),
            created == created_count(comments@, p0, rfd_number, w, i as int),
            updated == updated_count(comments@, p0, rfd_number, w, i as int),
            created + updated <= i,
        decreases comments.len() - i,
    {
        let c = &comments[i];
        let ghost before = items@;
        let ghost p = pool@;
        proof {
            reveal_strlit("");
        }
        if let Some(gh) = c.id {
            let body = text_or(&c.body, "");
            let body_chars = chars_of(body.as_str());
            if body_chars.len() > 0 {
                let id = Annotation::github_id(rfd_number, w, gh);
                let found = find_by_id(&pool, &id);
                proof {
                    lemma_index_of_id(p, id@, 0);
                }
                match found {
                    Some(k) => {
                        let mut a = pool.remove(k);
                        if !str_eq(a.body.value.as_str(), body.as_str()) {
                            a.body.value = body;
                            a.modified = parse_opt(&c.updated_at);
                            updated += 1;
                        }
                        items.push(a);
                    },
                    None => {
                        let a = comment_to_annotation(c, id.as_str(), gh, source.as_str(), rfd_number, config);
                        created += 1;
                        items.push(a);
                    },
                }
            }
        }
        proof {
            assert forall|j: int|
                0 <= j < i + 1 && #[trigger] is_importable(comments@[j]) implies synced_item(
                    items@[imported_count(comments@, j) as int],
                    comments@[j],
                    unclaimed(comments@, p0, rfd_number, w, j),
                    rfd_number,
                    w,
                ) by {
                if j < i {
                    lemma_imported_count_grows(comments@, j, i as int);
                    assert(items@[imported_count(comments@, j) as int] == before[imported_count(
                        comments@,
                        j,
                    ) as int]);
                } else {
                    assert(comments@[j] == *c);
                    assert(unclaimed(comments@, p0, rfd_number, w, j) == p);
                    assert(imported_count(comments@, j) == before.len());
                    assert(items@[before.len() as int] == items@.last());
                }
            }
        }
        i += 1;
    }
    let ghost last_pool = pool@;
    let mut orphans = sort_by_created(pool);
    let ghost left = orphans@;
    let ghost head = items@;
    items.append(&mut orphans);
    proof {
        let m = imported_count(comments@, comments@.len() as int) as int;
        assert(items@.subrange(m, items@.len() as int) =~= left);
        vstd::seq_lib::to_multiset_len(left);
        vstd::seq_lib::to_multiset_len(last_pool);
        assert(items@.len() == m + last_pool.len());
        assert forall|j: int|
            0 <= j < comments@.len() && #[trigger] is_importable(comments@[j]) implies items@[imported_count(comments@, j) as int] == head[imported_count(comments@, j) as int] by {
            lemma_imported_count_grows(comments@, j, comments@.len() as int);
        }
    }
    let total = items.len();
    let mut label = chars_of("PR #");
    let digits = decimal_chars(pr_number as u64);
    extend_from(&mut label, &digits);
    let rest = chars_of(" Discussion");
    extend_from(&mut label, &rest);
    assert(label@ =~= discussion_label(pr_number));
    let collection = AnnotationCollection {
        context: "http://www.w3.org/ns/anno.jsonld".to_owned(),
        collection_type: "AnnotationCollection".to_owned(),
        label: string_of(&label),
        generator: Some(openrfd_generator()),
        items,
    };
    (collection, SyncResult { created, updated, total })
}

} // verus!
