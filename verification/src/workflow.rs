//! The decisions and texts of the RFD lifecycle commands: creating,
//! listing, changing state, publishing and opening a discussion.
use vstd::prelude::*;

use vstd::string::StringSliceAdditionalSpecFns;
use vstd::utf8::{encode_utf8, is_char_boundary, valid_utf8};

use crate::annotation::{
    is_openrfd_generator, Annotation, AnnotationBody, AnnotationCollection, AnnotationTarget, Creator,
    GitState, Motivation, Selector, SpecificResource, Timestamp,
};
use crate::number::{parse_u32, parsed_u32};
use crate::rfd::Frontmatter;
use crate::state::{state_name, State};
use crate::text::{chars_of, extend_from, extend_from_range, find, find_exec, lemma_find_from_props, str_eq, string_of};

verus! {

// ---------------------------------------------------------------------------
// Templates
// ---------------------------------------------------------------------------

/// `s` with every occurrence of `p` replaced by `t`, left to right and
/// without overlaps (`str::replace`).
pub open spec fn replaced(s: Seq<char>, p: Seq<char>, t: Seq<char>) -> Seq<char>
    recommends
        p.len() > 0,
    decreases s.len(),
{
    if p.len() == 0 {
        s
    } else {
        match find(s, p) {
            Some(i) => if 0 <= i && i + p.len() <= s.len() {
                s.subrange(0, i) + t + replaced(s.subrange(i + p.len(), s.len() as int), p, t)
            } else {
                s
            },
            None => s,
        }
    }
}

/// `find_from` past an offset is `find` on the rest.
proof fn lemma_find_from_shift(s: Seq<char>, p: Seq<char>, lo: int, i: int)
    requires
        0 <= lo <= i <= s.len(),
        p.len() > 0,
    ensures
        find_from(s, p, i) == match crate::text::find_from(
            s.subrange(lo, s.len() as int),
            p,
            i - lo,
        ) {
            Some(k) => Some(k + lo),
            None => None::<int>,
        },
    decreases s.len() + 1 - i,
{
    let t = s.subrange(lo, s.len() as int);
    if i + p.len() <= s.len() {
        assert(crate::text::occurs_at(s, p, i) == crate::text::occurs_at(t, p, i - lo)) by {
            if i + p.len() <= s.len() {
                assert(s.subrange(i, i + p.len()) =~= t.subrange(i - lo, i - lo + p.len()));
            }
        }
        if !crate::text::occurs_at(s, p, i) {
            lemma_find_from_shift(s, p, lo, i + 1);
        }
    }
}

use crate::text::find_from;

/// `s` with every occurrence of the non-empty `p` replaced by `t`.
pub fn replace_all(s: &str, p: &str, t: &str) -> (r: String)
    requires
        p@.len() > 0,
    ensures
        r@ == replaced(s@, p@, t@),
{
    let cs = chars_of(s);
    let pc = chars_of(p);
    let tc = chars_of(t);
    let mut out: Vec<char> = Vec::new();
    let mut pos: usize = 0;
    assert(cs@.subrange(0, cs@.len() as int) =~= cs@);
    loop
        invariant
            pos <= cs.len(),
            cs@ == s@,
            pc@ == p@,
            tc@ == t@,
            p@.len() > 0,
            out@ + replaced(cs@.subrange(pos as int, cs@.len() as int), pc@, tc@) == replaced(
                cs@,
                pc@,
                tc@,
            ),
        decreases cs.len() - pos,
    {
        let ghost rest = cs@.subrange(pos as int, cs@.len() as int);
        let found = find_exec(&cs, &pc, pos);
        proof {
            lemma_find_from_shift(cs@, pc@, pos as int, pos as int);
            assert(rest.subrange(0, rest.len() as int) =~= rest);
        }
        match found {
            Some(i) => {
                proof {
                    lemma_find_from_props(cs@, pc@, pos as int);
                    assert(rest.subrange(0, i - pos) =~= cs@.subrange(pos as int, i as int));
                    assert(rest.subrange(i - pos + pc@.len(), rest.len() as int) =~= cs@.subrange(
                        i + pc@.len(),
                        cs@.len() as int,
                    ));
                }
                let ghost before = out@;
                extend_from_range(&mut out, &cs, pos, i);
                extend_from(&mut out, &tc);
                assert(out@ =~= before + cs@.subrange(pos as int, i as int) + tc@);
                pos = i + pc.len();
            },
            None => {
                let ghost before = out@;
                extend_from_range(&mut out, &cs, pos, cs.len());
                assert(out@ =~= before + rest);
                return string_of(&out);
            },
        }
    }
}

/// The markdown of a new RFD: the repository's template with `{number}`
/// and `{title}` filled in.
pub fn fill_template(template: &str, padded: &str, title: &str) -> (r: String)
    ensures
        r@ == replaced(replaced(template@, "{number}"@, padded@), "{title}"@, title@),
{
    proof {
        reveal_strlit("{number}");
        reveal_strlit("{title}");
    }
    let a = replace_all(template, "{number}", padded);
    replace_all(a.as_str(), "{title}", title)
}

/// Appends a text to a character buffer.
fn push_str(v: &mut Vec<char>, s: &str)
    ensures
        final(v)@ == old(v)@ + s@,
{
    let t = chars_of(s);
    extend_from(v, &t);
}

/// The texts of a new RFD numbered `padded` with title `title`.
#[derive(Debug, Clone)]
pub struct NewRfdTexts {
    /// The markdown written where the repository has no template.
    pub default_content: String,
    /// The message of the commit on the RFD's branch.
    pub commit_message: String,
    /// The message of the first commit on the RFD's ref.
    pub ref_message: String,
}

/// What `rfd new` writes for RFD `padded` titled `title`.
pub fn new_rfd_texts(padded: &str, title: &str) -> (r: NewRfdTexts)
    ensures
        r.default_content@ == "---\nauthors:\nstate: prediscussion\ndiscussion:\n---\n\n# RFD "@
            + padded@ + " "@ + title@ + "\n"@,
        r.commit_message@ == "rfd: reserve RFD "@ + padded@ + " — "@ + title@,
        r.ref_message@ == "Reserve RFD "@ + padded@ + " — "@ + title@
            + "\n\nState: prediscussion"@,
{
    let mut c: Vec<char> = Vec::new();
    push_str(&mut c, "---\nauthors:\nstate: prediscussion\ndiscussion:\n---\n\n# RFD ");
    push_str(&mut c, padded);
    push_str(&mut c, " ");
    push_str(&mut c, title);
    push_str(&mut c, "\n");
    let mut m: Vec<char> = Vec::new();
    push_str(&mut m, "rfd: reserve RFD ");
    push_str(&mut m, padded);
    push_str(&mut m, " — ");
    push_str(&mut m, title);
    let mut f: Vec<char> = Vec::new();
    push_str(&mut f, "Reserve RFD ");
    push_str(&mut f, padded);
    push_str(&mut f, " — ");
    push_str(&mut f, title);
    push_str(&mut f, "\n\nState: prediscussion");
    NewRfdTexts {
        default_content: string_of(&c),
        commit_message: string_of(&m),
        ref_message: string_of(&f),
    }
}

/// The commit messages of a state change of RFD `padded` from `old` to `new`:
/// on its branch, and on its ref.
pub fn state_change_messages(padded: &str, old: &str, new: State) -> (r: (String, String))
    ensures
        r.0@ == "rfd: update RFD "@ + padded@ + " state to "@ + state_name(new),
        r.1@ == "State: "@ + state_name(new) + "\n\nPrevious-State: "@ + old@,
{
    let mut m: Vec<char> = Vec::new();
    push_str(&mut m, "rfd: update RFD ");
    push_str(&mut m, padded);
    push_str(&mut m, " state to ");
    push_str(&mut m, new.as_str());
    let mut f: Vec<char> = Vec::new();
    push_str(&mut f, "State: ");
    push_str(&mut f, new.as_str());
    push_str(&mut f, "\n\nPrevious-State: ");
    push_str(&mut f, old);
    (string_of(&m), string_of(&f))
}

/// The commit messages of publishing RFD `padded`: on its branch, and of
/// the merge into the main branch.
pub fn publish_messages(padded: &str) -> (r: (String, String))
    ensures
        r.0@ == "rfd: publish RFD "@ + padded@,
        r.1@ == "Merge RFD "@ + padded@ + " (published)"@,
{
    let mut m: Vec<char> = Vec::new();
    push_str(&mut m, "rfd: publish RFD ");
    push_str(&mut m, padded);
    let mut g: Vec<char> = Vec::new();
    push_str(&mut g, "Merge RFD ");
    push_str(&mut g, padded);
    push_str(&mut g, " (published)");
    (string_of(&m), string_of(&g))
}

// ---------------------------------------------------------------------------
// Listing
// ---------------------------------------------------------------------------

/// Whether a directory name is an RFD number.
pub fn is_rfd_dir_name(name: &str) -> (r: bool)
    ensures
        r == parsed_u32(name@) is Some,
{
    parse_u32(name).is_some()
}

/// Whether an RFD passes the filters of `rfd list`: its state is the one
/// asked for, and one of its labels the one asked for.
pub fn matches_filters(fm: &Frontmatter, state: Option<State>, label: Option<&str>) -> (r: bool)
    ensures
        r == ((match state {
            Some(s) => fm.state == s,
            None => true,
        }) && (match label {
            Some(l) => exists|i: int| 0 <= i < fm.labels@.len() && (#[trigger] fm.labels@[i])@ == l@,
            None => true,
        })),
{
    if let Some(s) = state {
        if fm.state != s {
            return false;
        }
    }
    match label {
        Some(l) => {
            let mut i: usize = 0;
            while i < fm.labels.len()
                invariant
                    i <= fm.labels@.len(),
                    forall|k: int| 0 <= k < i ==> (#[trigger] fm.labels@[k])@ != l@,
                    match state {
                        Some(s) => fm.state == s,
                        None => true,
                    },
                    label == Some(l),
                decreases fm.labels.len() - i,
            {
                if str_eq(fm.labels[i].as_str(), l) {
                    assert(fm.labels@[i as int]@ == l@);
                    return true;
                }
                i += 1;
            }
            false
        },
        None => true,
    }
}

/// The largest RFD number among directory names, 0 where there is none.
pub open spec fn max_rfd_number(names: Seq<String>) -> nat
    decreases names.len(),
{
    if names.len() == 0 {
        0
    } else {
        let m = max_rfd_number(names.drop_last());
        match parsed_u32(names.last()@) {
            Some(n) => if n > m {
                n as nat
            } else {
                m
            },
            None => m,
        }
    }
}

/// The number of the next RFD: one more than the largest number among the
/// directory names.
pub fn next_rfd_number(names: &Vec<String>) -> (r: u32)
    requires
        forall|i: int| 0 <= i < names@.len() ==> parsed_u32((#[trigger] names@[i])@) != Some(u32::MAX),
    ensures
        r == max_rfd_number(names@) + 1,
{
    let mut max: u32 = 0;
    let mut i: usize = 0;
    while i < names.len()
        invariant
            i <= names@.len(),
            max == max_rfd_number(names@.take(i as int)),
            max < u32::MAX,
            forall|k: int| 0 <= k < names@.len() ==> parsed_u32((#[trigger] names@[k])@) != Some(u32::MAX),
        decreases names.len() - i,
    {
        assert(names@.take(i + 1).drop_last() =~= names@.take(i as int));
        if let Some(n) = parse_u32(names[i].as_str()) {
            if n > max {
                max = n;
            }
        }
        i += 1;
    }
    assert(names@.take(i as int) =~= names@);
    max + 1
}

// ---------------------------------------------------------------------------
// Opening a discussion
// ---------------------------------------------------------------------------

/// What `rfd discuss` knows of the RFD it opens a discussion for.
#[derive(Debug, Clone)]
pub struct DiscussState {
    /// The padded RFD number.
    pub padded: String,
    /// The RFD's branch.
    pub branch: String,
    /// The branch pull requests go to.
    pub main_branch: String,
    /// The RFD's title, once it is loaded.
    pub title: String,
}

/// What the outside world answered.
#[derive(Debug, Clone)]
pub enum DiscussEvent {
    /// The branch checked out at the start.
    Started { current_branch: String },
    /// The RFD was loaded.
    Loaded { state: State, title: String },
    /// Whether the GitHub CLI runs.
    GhChecked { available: bool },
    /// The URL of an open pull request for the branch, trimmed; empty if none.
    ExistingPr { url: String },
    /// Whether setting the discussion link changed anything to commit.
    LinkChanged { changed: bool },
    /// The URL of the pull request just created, trimmed.
    PrCreated { url: String },
}

/// What to do next.
#[derive(Debug, Clone)]
pub enum DiscussAction {
    /// Check out a branch.
    Checkout(String),
    /// Load the RFD, and answer `Loaded`.
    LoadRfd,
    /// Set a front matter field of the RFD's file.
    SetField { field: String, value: String },
    /// Commit the RFD's file with a message.
    Commit(String),
    /// Push a branch.
    Push(String),
    /// Check for the GitHub CLI, and answer `GhChecked`.
    CheckGh,
    /// Look for an open pull request of the branch, and answer `ExistingPr`.
    FindExistingPr,
    /// Tell how to open the pull request by hand.
    ReportManual { branch: String, base: String, title: String },
    /// Tell of the pull request that exists already.
    ReportExisting(String),
    /// Check whether the RFD's file changed, and answer `LinkChanged`.
    CheckLinkChanged,
    /// Create the pull request, and answer `PrCreated`.
    CreatePr { base: String, head: String, title: String, body: String },
    /// Tell of the pull request created.
    ReportCreated(String),
    /// Record a commit on the RFD's ref.
    WriteRefCommit(String),
}

/// The title of an RFD's pull request: `RFD <padded>: <title>`.
pub open spec fn pr_title(padded: Seq<char>, title: Seq<char>) -> Seq<char> {
    "RFD "@ + padded + ": "@ + title
}

/// The body of an RFD's pull request.
pub open spec fn pr_body(padded: Seq<char>, title: Seq<char>) -> Seq<char> {
    "Discussion for RFD "@ + padded + ": **"@ + title
        + "**\n\nThis pull request is for discussing RFD "@ + padded
        + ". Please leave comments and feedback here.\n\n**State**: discussion\n\n---\n*Created with [OpenRFD](https://github.com/openrfd/openrfd)*"@
}

/// `a` sets front matter field `field` to `value`.
pub open spec fn sets_field(a: DiscussAction, field: Seq<char>, value: Seq<char>) -> bool {
    a matches DiscussAction::SetField { field: f, value: v } && f@ == field && v@ == value
}

/// `a` commits with message `m`.
pub open spec fn commits(a: DiscussAction, m: Seq<char>) -> bool {
    a matches DiscussAction::Commit(x) && x@ == m
}

/// `a` pushes branch `b`.
pub open spec fn pushes(a: DiscussAction, b: Seq<char>) -> bool {
    a matches DiscussAction::Push(x) && x@ == b
}

/// The actions that answer `ev`, in order, and the state after it.
pub open spec fn discuss_answer(st: DiscussState, ev: DiscussEvent, n: DiscussState, acts: Seq<DiscussAction>) -> bool {
    let padded = st.padded@;
    &&& n.padded@ == padded
    &&& n.branch@ == st.branch@
    &&& n.main_branch@ == st.main_branch@
    &&& n.title@ == match ev {
        DiscussEvent::Loaded { title, .. } => title@,
        _ => st.title@,
    }
    &&& match ev {
        DiscussEvent::Started { current_branch } => if current_branch@ != st.branch@ {
            &&& acts.len() == 2
            &&& acts[0] matches DiscussAction::Checkout(b) && b@ == st.branch@
            &&& acts[1] is LoadRfd
        } else {
            &&& acts.len() == 1
            &&& acts[0] is LoadRfd
        },
        DiscussEvent::Loaded { state, title } => if state != State::Discussion {
            &&& acts.len() == 4
            &&& sets_field(acts[0], "state"@, "discussion"@)
            &&& commits(acts[1], "rfd: move RFD "@ + padded + " to discussion"@)
            &&& pushes(acts[2], st.branch@)
            &&& acts[3] is CheckGh
        } else {
            &&& acts.len() == 2
            &&& pushes(acts[0], st.branch@)
            &&& acts[1] is CheckGh
        },
        DiscussEvent::GhChecked { available } => if available {
            acts.len() == 1 && acts[0] is FindExistingPr
        } else {
            &&& acts.len() == 1
            &&& acts[0] matches DiscussAction::ReportManual { branch, base, title }
            &&& branch@ == st.branch@ && base@ == st.main_branch@ && title@ == pr_title(padded, st.title@)
        },
        DiscussEvent::ExistingPr { url } => if url@.len() > 0 {
            &&& acts.len() == 3
            &&& acts[0] matches DiscussAction::ReportExisting(u) && u@ == url@
            &&& sets_field(acts[1], "discussion"@, url@)
            &&& acts[2] is CheckLinkChanged
        } else {
            &&& acts.len() == 1
            &&& acts[0] matches DiscussAction::CreatePr { base, head, title, body }
            &&& base@ == st.main_branch@ && head@ == st.branch@
            &&& title@ == pr_title(padded, st.title@) && body@ == pr_body(padded, st.title@)
        },
        DiscussEvent::LinkChanged { changed } => if changed {
            &&& acts.len() == 2
            &&& commits(acts[0], "rfd: update RFD "@ + padded + " discussion link"@)
            &&& pushes(acts[1], st.branch@)
        } else {
            acts.len() == 0
        },
        DiscussEvent::PrCreated { url } => {
            &&& acts.len() == 5
            &&& acts[0] matches DiscussAction::ReportCreated(u) && u@ == url@
            &&& sets_field(acts[1], "discussion"@, url@)
            &&& commits(acts[2], "rfd: add discussion link to RFD "@ + padded)
            &&& pushes(acts[3], st.branch@)
            &&& acts[4] matches DiscussAction::WriteRefCommit(m) && m@ == "State: discussion\n\nDiscussion: "@ + url@
        },
    }
}

/// Decides what `rfd discuss` does after event `ev`.
pub fn discuss_next(st: DiscussState, ev: DiscussEvent) -> (r: (DiscussState, Vec<DiscussAction>))
    ensures
        discuss_answer(st, ev, r.0, r.1@),
{
    let mut acts: Vec<DiscussAction> = Vec::new();
    let padded = st.padded.clone();
    let branch = st.branch.clone();
    let main_branch = st.main_branch.clone();
    match ev {
        DiscussEvent::Started { current_branch } => {
            if !str_eq(current_branch.as_str(), st.branch.as_str()) {
                acts.push(DiscussAction::Checkout(st.branch.clone()));
            }
            acts.push(DiscussAction::LoadRfd);
            (st, acts)
        },
        DiscussEvent::Loaded { state, title } => {
            if state != State::Discussion {
                acts.push(
                    DiscussAction::SetField {
                        field: "state".to_owned(),
                        value: "discussion".to_owned(),
                    },
                );
                let mut m: Vec<char> = Vec::new();
                push_str(&mut m, "rfd: move RFD ");
                push_str(&mut m, padded.as_str());
                push_str(&mut m, " to discussion");
                acts.push(DiscussAction::Commit(string_of(&m)));
            }
            acts.push(DiscussAction::Push(branch));
            acts.push(DiscussAction::CheckGh);
            (DiscussState { padded, branch: st.branch, main_branch, title }, acts)
        },
        DiscussEvent::GhChecked { available } => {
            if available {
                acts.push(DiscussAction::FindExistingPr);
            } else {
                let mut t: Vec<char> = Vec::new();
                push_str(&mut t, "RFD ");
                push_str(&mut t, padded.as_str());
                push_str(&mut t, ": ");
                push_str(&mut t, st.title.as_str());
                acts.push(
                    DiscussAction::ReportManual { branch, base: main_branch, title: string_of(&t) },
                );
            }
            (st, acts)
        },
        DiscussEvent::ExistingPr { url } => {
            if !url.as_str().is_empty() {
                acts.push(DiscussAction::ReportExisting(url.clone()));
                acts.push(DiscussAction::SetField { field: "discussion".to_owned(), value: url });
                acts.push(DiscussAction::CheckLinkChanged);
            } else {
                let mut t: Vec<char> = Vec::new();
                push_str(&mut t, "RFD ");
                push_str(&mut t, padded.as_str());
                push_str(&mut t, ": ");
                push_str(&mut t, st.title.as_str());
                let mut b: Vec<char> = Vec::new();
                push_str(&mut b, "Discussion for RFD ");
                push_str(&mut b, padded.as_str());
                push_str(&mut b, ": **");
                push_str(&mut b, st.title.as_str());
                push_str(&mut b, "**\n\nThis pull request is for discussing RFD ");
                push_str(&mut b, padded.as_str());
                push_str(
                    &mut b,
                    ". Please leave comments and feedback here.\n\n**State**: discussion\n\n---\n*Created with [OpenRFD](https://github.com/openrfd/openrfd)*",
                );
                acts.push(
                    DiscussAction::CreatePr {
                        base: main_branch,
                        head: branch,
                        title: string_of(&t),
                        body: string_of(&b),
                    },
                );
            }
            (st, acts)
        },
        DiscussEvent::LinkChanged { changed } => {
            if changed {
                let mut m: Vec<char> = Vec::new();
                push_str(&mut m, "rfd: update RFD ");
                push_str(&mut m, padded.as_str());
                push_str(&mut m, " discussion link");
                acts.push(DiscussAction::Commit(string_of(&m)));
                acts.push(DiscussAction::Push(branch));
            }
            (st, acts)
        },
        DiscussEvent::PrCreated { url } => {
            acts.push(DiscussAction::ReportCreated(url.clone()));
            acts.push(
                DiscussAction::SetField { field: "discussion".to_owned(), value: url.clone() },
            );
            let mut m: Vec<char> = Vec::new();
            push_str(&mut m, "rfd: add discussion link to RFD ");
            push_str(&mut m, padded.as_str());
            acts.push(DiscussAction::Commit(string_of(&m)));
            acts.push(DiscussAction::Push(branch));
            let mut f: Vec<char> = Vec::new();
            push_str(&mut f, "State: discussion\n\nDiscussion: ");
            push_str(&mut f, url.as_str());
            acts.push(DiscussAction::WriteRefCommit(string_of(&f)));
            (st, acts)
        },
    }
}

// ---------------------------------------------------------------------------
// Annotating
// ---------------------------------------------------------------------------

/// A char boundary of `b` is one of its prefix `b[..m]`, if `m` is one too.
proof fn lemma_boundary_in_prefix(b: Seq<u8>, m: int, k: int)
    requires
        valid_utf8(b),
        is_char_boundary(b, m),
        is_char_boundary(b, k),
        0 <= k <= m <= b.len(),
    ensures
        is_char_boundary(b.subrange(0, m), k),
{
    let l = b.subrange(0, m);
    vstd::utf8::valid_utf8_split(b, m);
    if k == m {
        vstd::utf8::is_char_boundary_start_end_of_seq(l);
    } else {
        vstd::utf8::is_char_boundary_iff_not_is_continuation_byte(b, k);
        vstd::utf8::is_char_boundary_iff_not_is_continuation_byte(l, k);
    }
}

/// A char boundary of `b` is one of its suffix `b[m..]`, if `m` is one too.
proof fn lemma_boundary_in_suffix(b: Seq<u8>, m: int, k: int)
    requires
        valid_utf8(b),
        is_char_boundary(b, m),
        is_char_boundary(b, k),
        0 <= m <= k <= b.len(),
    ensures
        is_char_boundary(b.subrange(m, b.len() as int), k - m),
{
    let r = b.subrange(m, b.len() as int);
    vstd::utf8::valid_utf8_split(b, m);
    if k == b.len() {
        vstd::utf8::is_char_boundary_start_end_of_seq(r);
        assert(r.len() == k - m);
    } else {
        vstd::utf8::is_char_boundary_iff_not_is_continuation_byte(b, k);
        vstd::utf8::is_char_boundary_iff_not_is_continuation_byte(r, k - m);
    }
}

/// The context of a quote at bytes `start..end` of `b` that a new
/// annotation keeps: up to 20 bytes before it, and up to 20 after.
pub open spec fn context_before(b: Seq<u8>, start: int) -> Option<Seq<u8>> {
    if start > 20 {
        Some(b.subrange(start - 20, start))
    } else if start > 0 {
        Some(b.subrange(0, start))
    } else {
        None
    }
}

/// See `context_before`.
pub open spec fn context_after(b: Seq<u8>, end: int) -> Option<Seq<u8>> {
    if end + 20 < b.len() {
        Some(b.subrange(end, end + 20))
    } else if end < b.len() {
        Some(b.subrange(end, b.len() as int))
    } else {
        None
    }
}

/// The cuts that `quote_context` makes fall on character boundaries.
pub open spec fn context_cuts_ok(b: Seq<u8>, start: int, end: int) -> bool {
    &&& start > 0 ==> is_char_boundary(b, start)
    &&& start > 20 ==> is_char_boundary(b, start - 20)
    &&& end < b.len() ==> is_char_boundary(b, end)
    &&& end + 20 < b.len() ==> is_char_boundary(b, end + 20)
}

/// The text of `bytes`, where there are any.
pub open spec fn text_matches(t: Option<String>, bytes: Option<Seq<u8>>) -> bool {
    match bytes {
        Some(x) => t matches Some(s) && encode_utf8(s@) == x,
        None => t is None,
    }
}

/// The prefix and suffix of a quote at bytes `start..end` of `body`.
pub fn quote_context(body: &str, start: usize, end: usize) -> (r: (Option<String>, Option<String>))
    requires
        start <= end <= encode_utf8(body@).len(),
        context_cuts_ok(encode_utf8(body@), start as int, end as int),
    ensures
        text_matches(r.0, context_before(encode_utf8(body@), start as int)),
        text_matches(r.1, context_after(encode_utf8(body@), end as int)),
{
    let ghost b = encode_utf8(body@);
    proof {
        vstd::utf8::encode_utf8_valid_utf8(body@);
    }
    let n = body.as_bytes().len();
    let prefix = if start > 20 {
        let (left, _) = body.split_at(start);
        proof {
            lemma_boundary_in_prefix(b, start as int, start - 20);
        }
        let (_, p) = left.split_at(start - 20);
        assert(p.spec_bytes() =~= b.subrange(start - 20, start as int));
        Some(p.to_owned())
    } else if start > 0 {
        let (left, _) = body.split_at(start);
        Some(left.to_owned())
    } else {
        None
    };
    let suffix = if n >= 20 && end < n - 20 {
        let (_, right) = body.split_at(end);
        proof {
            lemma_boundary_in_suffix(b, end as int, end + 20);
        }
        let (x, _) = right.split_at(20);
        assert(x.spec_bytes() =~= b.subrange(end as int, end + 20));
        Some(x.to_owned())
    } else if end < n {
        let (_, right) = body.split_at(end);
        Some(right.to_owned())
    } else {
        None
    };
    (prefix, suffix)
}

/// `r` is the annotation that `rfd annotate` makes: a comment `comment` by
/// `name` (`email`) on the quote `quote` at bytes `start..end` of the RFD's
/// body, with its context, line and Git state.
pub open spec fn quote_annotation(
    r: Annotation,
    id: Seq<char>,
    name: Seq<char>,
    email: Option<String>,
    created: Timestamp,
    comment: Seq<char>,
    source: Seq<char>,
    commit: Seq<char>,
    branch: Option<String>,
    quote: Seq<char>,
    prefix: Option<String>,
    suffix: Option<String>,
    line: u32,
    start: usize,
    end: usize,
) -> bool {
    &&& r.context@ == "http://www.w3.org/ns/anno.jsonld"@
    &&& r.annotation_type@ == "Annotation"@
    &&& r.id@ == id
    &&& r.creator.creator_type@ == "Person"@
    &&& r.creator.name@ == name
    &&& r.creator.email == email
    &&& r.creator.url is None
    &&& r.created == created
    &&& r.motivation == Motivation::Commenting
    &&& r.body.body_type@ == "TextualBody"@
    &&& r.body.value@ == comment
    &&& r.body.format@ == "text/markdown"@
    &&& r.modified is None
    &&& r.resolved is None
    &&& r.origin is None
    &&& match r.target {
        AnnotationTarget::Resource(res) => {
            &&& res.resource_type@ == "SpecificResource"@
            &&& res.source@ == source
            &&& res.state matches Some(st) && st.state_type@ == "GitState"@ && st.commit@ == commit
                && st.git_ref == branch
            &&& res.selector@.len() == 3
            &&& res.selector@[0] matches Selector::TextQuoteSelector { exact, prefix: p, suffix: s }
                && exact@ == quote && p == prefix && s == suffix
            &&& crate::import::is_line_selector(res.selector@[1], line)
            &&& res.selector@[2] matches Selector::TextPositionSelector { start: a, end: b } && a
                == start && b == end
        },
        _ => false,
    }
}

/// The annotation that `rfd annotate` makes.
pub fn quote_annotation_of(
    id: String,
    name: String,
    email: Option<String>,
    created: Timestamp,
    comment: &str,
    source: String,
    commit: String,
    branch: Option<String>,
    quote: &str,
    prefix: Option<String>,
    suffix: Option<String>,
    line: u32,
    start: usize,
    end: usize,
) -> (r: Annotation)
    ensures
        quote_annotation(
            r,
            id@,
            name@,
            email,
            created,
            comment@,
            source@,
            commit@,
            branch,
            quote@,
            prefix,
            suffix,
            line,
            start,
            end,
        ),
{
    let selector = vec![
        Selector::TextQuoteSelector { exact: quote.to_owned(), prefix, suffix },
        Selector::FragmentSelector {
            value: crate::import::fragment_for_line(line),
            conforms_to: "http://tools.ietf.org/rfc/rfc5147".to_owned(),
        },
        Selector::TextPositionSelector { start, end },
    ];
    Annotation {
        context: "http://www.w3.org/ns/anno.jsonld".to_owned(),
        annotation_type: "Annotation".to_owned(),
        id,
        creator: Creator { creator_type: "Person".to_owned(), name, email, url: None },
        created,
        motivation: Motivation::Commenting,
        body: AnnotationBody {
            body_type: "TextualBody".to_owned(),
            value: comment.to_owned(),
            format: "text/markdown".to_owned(),
        },
        target: AnnotationTarget::Resource(
            SpecificResource {
                resource_type: "SpecificResource".to_owned(),
                source,
                state: Some(GitState { state_type: "GitState".to_owned(), commit, git_ref: branch }),
                selector,
            },
        ),
        modified: None,
        resolved: None,
        origin: None,
    }
}

/// The label of the collection that `rfd annotate` keeps its annotations in.
pub open spec fn cli_collection_label() -> Seq<char> {
    "CLI Annotations"@
}

/// The collection that `rfd annotate` stores: the stored one with `a` added
/// after its items, or, where none is stored yet, a new collection labelled
/// "CLI Annotations" that holds `a` alone.
pub fn with_annotation(existing: Option<AnnotationCollection>, a: Annotation) -> (r: AnnotationCollection)
    ensures
        match existing {
            Some(c) => {
                &&& r.context == c.context
                &&& r.collection_type == c.collection_type
                &&& r.label == c.label
                &&& r.generator == c.generator
                &&& r.items@ == c.items@.push(a)
            },
            None => {
                &&& r.context@ == "http://www.w3.org/ns/anno.jsonld"@
                &&& r.collection_type@ == "AnnotationCollection"@
                &&& r.label@ == cli_collection_label()
                &&& r.generator matches Some(g) && is_openrfd_generator(g)
                &&& r.items@ == seq![a]
            },
        },
{
    let mut collection = match existing {
        Some(c) => c,
        None => AnnotationCollection::new("CLI Annotations"),
    };
    collection.items.push(a);
    collection
}

// ---------------------------------------------------------------------------
// Resolving and listing
// ---------------------------------------------------------------------------

/// The position of the first annotation of `items` with id `id`.
pub open spec fn first_with_id(items: Seq<Annotation>, id: Seq<char>) -> Option<int> {
    crate::import::index_of_id(items, id, 0)
}

/// Marks the first annotation of a collection with id `id` resolved at
/// `now`. Whether one was found.
pub fn resolve_in(collection: &mut AnnotationCollection, id: &str, now: Timestamp) -> (r: bool)
    ensures
        r == first_with_id(old(collection).items@, id@) is Some,
        final(collection).context == old(collection).context,
        final(collection).collection_type == old(collection).collection_type,
        final(collection).label == old(collection).label,
        final(collection).generator == old(collection).generator,
        match first_with_id(old(collection).items@, id@) {
            Some(k) => final(collection).items@ == old(collection).items@.update(
                k,
                Annotation { resolved: Some(now), ..old(collection).items@[k] },
            ),
            None => final(collection).items@ == old(collection).items@,
        },
{
    let mut i: usize = 0;
    while i < collection.items.len()
        invariant
            i <= collection.items@.len(),
            *collection == *old(collection),
            first_with_id(collection.items@, id@) == crate::import::index_of_id(
                collection.items@,
                id@,
                i as int,
            ),
        decreases collection.items.len() - i,
    {
        if str_eq(collection.items[i].id.as_str(), id) {
            let mut a = collection.items.remove(i);
            a.resolved = Some(now);
            collection.items.insert(i, a);
            return true;
        }
        i += 1;
    }
    false
}

/// `s` without every trailing `.json` (`trim_end_matches(".json")`).
pub open spec fn without_json(s: Seq<char>) -> Seq<char>
    decreases s.len(),
{
    if s.len() >= 5 && s.subrange(s.len() - 5, s.len() as int) == ".json"@ {
        without_json(s.subrange(0, s.len() - 5))
    } else {
        s
    }
}

/// The name of an annotation source file without its `.json` endings.
pub fn source_stem(name: &str) -> (r: String)
    ensures
        r@ == without_json(name@),
{
    proof {
        reveal_strlit(".json");
    }
    let t = chars_of(name);
    let suffix = chars_of(".json");
    let mut hi = t.len();
    assert(t@.subrange(0, hi as int) =~= t@);
    while hi >= 5 && crate::text::occurs_at_exec(&t, &suffix, hi - 5)
        invariant
            hi <= t.len(),
            t@ == name@,
            suffix@ == ".json"@,
            suffix@.len() == 5,
            without_json(name@) == without_json(t@.subrange(0, hi as int)),
        decreases hi,
    {
        let ghost s = t@.subrange(0, hi as int);
        assert(s.subrange(s.len() - 5, s.len() as int) =~= t@.subrange(hi - 5, hi as int));
        assert(s.subrange(0, s.len() - 5) =~= t@.subrange(0, hi - 5));
        hi -= 5;
    }
    proof {
        let s = t@.subrange(0, hi as int);
        if s.len() >= 5 {
            assert(s.subrange(s.len() - 5, s.len() as int) =~= t@.subrange(hi - 5, hi as int));
        }
    }
    crate::text::string_of_range(&t, 0, hi)
}

/// The quote shown in a listing: its first 60 bytes and `...` where it is
/// longer.
pub fn quote_preview(exact: &str) -> (r: String)
    requires
        encode_utf8(exact@).len() > 60 ==> is_char_boundary(encode_utf8(exact@), 60),
    ensures
        if encode_utf8(exact@).len() > 60 {
            exists|p: Seq<char>|
                encode_utf8(p) == encode_utf8(exact@).subrange(0, 60) && r@ == p + "..."@
        } else {
            r@ == exact@
        },
{
    if exact.as_bytes().len() > 60 {
        let (head, _) = exact.split_at(60);
        let mut v = chars_of(head);
        push_str(&mut v, "...");
        assert(encode_utf8(head@) == exact.spec_bytes().subrange(0, 60));
        string_of(&v)
    } else {
        exact.to_owned()
    }
}

} // verus!
