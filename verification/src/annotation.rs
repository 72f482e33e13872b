//! The W3C Web Annotation data model used for comments on RFDs.
use vstd::prelude::*;

use crate::number::{decimal, decimal_chars, lemma_decimal_injective, padded_decimal, zero_pad};
use crate::text::{chars_of, extend_from, starts_with, starts_with_at, string_of};

verus! {

/// A point in time (UTC), as seconds since the Unix epoch and the
/// nanoseconds within that second.
#[derive(Debug, Clone, Copy, PartialEq, Eq, Structural)]
pub struct Timestamp {
    pub seconds: i64,
    pub nanos: u32,
}

/// W3C Web Annotation.
#[derive(Debug, Clone)]
pub struct Annotation {
    pub context: String,
    pub annotation_type: String,
    pub id: String,
    pub creator: Creator,
    pub created: Timestamp,
    pub motivation: Motivation,
    pub body: AnnotationBody,
    pub target: AnnotationTarget,
    /// W3C `modified` — set when the annotation body is updated.
    pub modified: Option<Timestamp>,
    /// If this annotation is resolved/closed.
    pub resolved: Option<Timestamp>,
    /// Provenance: links this annotation to an external source (e.g. GitHub comment ID).
    /// Format: `github:<comment_id>` for PR review comments.
    pub origin: Option<String>,
}

/// W3C AnnotationCollection — groups annotations by source.
#[derive(Debug, Clone)]
pub struct AnnotationCollection {
    pub context: String,
    pub collection_type: String,
    pub label: String,
    pub generator: Option<Generator>,
    pub items: Vec<Annotation>,
}

#[derive(Debug, Clone)]
pub struct Generator {
    pub generator_type: String,
    pub name: String,
    pub homepage: Option<String>,
}

#[derive(Debug, Clone)]
pub struct Creator {
    pub creator_type: String,
    pub name: String,
    pub email: Option<String>,
    pub url: Option<String>,
}

#[derive(Debug, Clone, Copy, PartialEq, Eq, Structural)]
pub enum Motivation {
    Commenting,
    Replying,
    Questioning,
    Suggesting,
    Editing,
}

#[derive(Debug, Clone)]
pub struct AnnotationBody {
    pub body_type: String,
    pub value: String,
    pub format: String,
}

/// The target of an annotation — a specific resource with selectors.
#[derive(Debug, Clone)]
pub enum AnnotationTarget {
    /// A reply targeting another annotation by ID.
    Reference(String),
    /// A specific resource with selectors.
    Resource(SpecificResource),
}

#[derive(Debug, Clone)]
pub struct SpecificResource {
    pub resource_type: String,
    /// Path to the source file (e.g., "rfd/0042/README.md").
    pub source: String,
    pub state: Option<GitState>,
    pub selector: Vec<Selector>,
}

/// Custom state type extending W3C model with Git provenance.
#[derive(Debug, Clone)]
pub struct GitState {
    pub state_type: String,
    /// The commit SHA the annotation was created against.
    pub commit: String,
    /// The branch the annotation was created on.
    pub git_ref: Option<String>,
}

#[derive(Debug, Clone)]
pub enum Selector {
    TextQuoteSelector { exact: String, prefix: Option<String>, suffix: Option<String> },
    FragmentSelector { value: String, conforms_to: String },
    TextPositionSelector { start: usize, end: usize },
}

/// Health status of an annotation's anchor.
#[derive(Debug, Clone, Copy, PartialEq, Eq, Structural)]
pub enum AnchorHealth {
    /// TextQuoteSelector matches current source exactly.
    Live,
    /// TextQuoteSelector matches approximately (fuzzy).
    Approximate,
    /// No selector matches; annotation needs re-anchoring.
    Stale,
    /// Text was deleted or changed beyond recognition.
    Orphaned,
}

/// Spec ordering of timestamps: earlier seconds first, then earlier nanoseconds.
pub open spec fn timestamp_le(a: Timestamp, b: Timestamp) -> bool {
    a.seconds < b.seconds || (a.seconds == b.seconds && a.nanos <= b.nanos)
}

impl Timestamp {
    /// Whether `self` is not later than `other`.
    pub fn le(&self, other: &Timestamp) -> (r: bool)
        ensures
            r == timestamp_le(*self, *other),
    {
        self.seconds < other.seconds || (self.seconds == other.seconds && self.nanos <= other.nanos)
    }

    /// The current time (`chrono::Utc::now`). Nothing is claimed of the
    /// value: it depends on the clock.
    #[verifier::external_body]
    pub(crate) fn now() -> (r: Timestamp) {
        let t = chrono::Utc::now();
        Timestamp { seconds: t.timestamp(), nanos: t.timestamp_subsec_nanos() }
    }
}

/// A name for what `s.parse::<chrono::DateTime<chrono::Utc>>()` yields: the
/// instant an RFC 3339 date-time text denotes, or nothing if it denotes none.
pub uninterp spec fn utc_timestamp_of(s: Seq<char>) -> Option<Timestamp>;

/// Parses an RFC 3339 date-time (`str::parse::<DateTime<Utc>>`). The result
/// is the name `utc_timestamp_of` applied to the text.
#[verifier::external_body]
pub(crate) fn parse_timestamp(s: &str) -> (r: Option<Timestamp>)
    ensures
        r == utc_timestamp_of(s@),
{
    s.parse::<chrono::DateTime<chrono::Utc>>().ok().map(
        |t| Timestamp { seconds: t.timestamp(), nanos: t.timestamp_subsec_nanos() },
    )
}

/// A lowercase hexadecimal digit.
pub open spec fn is_lower_hex(c: char) -> bool {
    ('0' <= c && c <= '9') || ('a' <= c && c <= 'f')
}

/// The hyphenated form of a UUID: 32 lowercase hex digits in groups of
/// 8-4-4-4-12, separated by `-`.
pub open spec fn is_hyphenated_uuid(s: Seq<char>) -> bool {
    &&& s.len() == 36
    &&& forall|i: int|
        0 <= i < 36 ==> if i == 8 || i == 13 || i == 18 || i == 23 {
            s[i] == '-'
        } else {
            is_lower_hex(#[trigger] s[i])
        }
}

/// The hyphenated form of a random (version 4) UUID: its version digit is
/// `4` and its variant digit one of `8`, `9`, `a`, `b`.
pub open spec fn is_random_uuid(s: Seq<char>) -> bool {
    &&& is_hyphenated_uuid(s)
    &&& s[14] == '4'
    &&& (s[19] == '8' || s[19] == '9' || s[19] == 'a' || s[19] == 'b')
}

/// A fresh random (version 4) UUID in its hyphenated form
/// (`uuid::Uuid::new_v4().to_string()`). Only the format is claimed: the
/// lowercase hyphenated text of `Display`, with the version and variant
/// bits that `new_v4` sets; the other digits are random.
#[verifier::external_body]
fn new_uuid_v4_string() -> (r: String)
    ensures
        is_random_uuid(r@),
{
    uuid::Uuid::new_v4().to_string()
}

/// The prefix of annotation ids: `urn:openrfd:`.
pub open spec fn urn_prefix() -> Seq<char> {
    "urn:openrfd:"@
}

/// The id of the annotation imported from GitHub comment `comment_id` on RFD `n`.
pub open spec fn github_annotation_id(n: u32, w: u32, comment_id: u64) -> Seq<char> {
    urn_prefix() + zero_pad(decimal(n as nat), w as nat) + ":gh-"@ + decimal(comment_id as nat)
}

/// `github:`, the origin prefix of imported annotations.
pub open spec fn github_origin_prefix() -> Seq<char> {
    "github:"@
}

/// The target of a reply, if `t` is one.
pub open spec fn reply_target(t: AnnotationTarget) -> Option<Seq<char>> {
    match t {
        AnnotationTarget::Reference(id) => Some(id@),
        _ => None,
    }
}

impl Annotation {
    /// Generate a new annotation ID in the format `urn:openrfd:NNNN:<uuid>`.
    pub fn new_id(rfd_number: u32, pad_width: u32) -> (r: String)
        ensures
            exists|u: Seq<char>|
                is_random_uuid(u) && r@ == urn_prefix() + zero_pad(
                    decimal(rfd_number as nat),
                    pad_width as nat,
                ) + ":"@ + u,
    {
        let mut v = chars_of("urn:openrfd:");
        let padded = padded_decimal(rfd_number as u64, pad_width as usize);
        extend_from(&mut v, &padded);
        let colon = chars_of(":");
        extend_from(&mut v, &colon);
        let uuid = new_uuid_v4_string();
        let u = chars_of(uuid.as_str());
        extend_from(&mut v, &u);
        assert(v@ =~= urn_prefix() + zero_pad(decimal(rfd_number as nat), pad_width as nat) + ":"@
            + u@);
        string_of(&v)
    }

    /// Generate a stable annotation ID derived from a GitHub comment ID.
    /// Format: `urn:openrfd:NNNN:gh-<comment_id>`.
    pub fn github_id(rfd_number: u32, pad_width: u32, comment_id: u64) -> (r: String)
        ensures
            r@ == github_annotation_id(rfd_number, pad_width, comment_id),
    {
        let mut v = chars_of("urn:openrfd:");
        let padded = padded_decimal(rfd_number as u64, pad_width as usize);
        extend_from(&mut v, &padded);
        let gh = chars_of(":gh-");
        extend_from(&mut v, &gh);
        let digits = decimal_chars(comment_id);
        extend_from(&mut v, &digits);
        assert(v@ =~= github_annotation_id(rfd_number, pad_width, comment_id));
        string_of(&v)
    }

    /// Returns true if this annotation was imported from GitHub.
    pub fn is_from_github(&self) -> (r: bool)
        ensures
            r == (self.origin matches Some(o) && starts_with(o@, github_origin_prefix())),
    {
        match &self.origin {
            Some(o) => {
                let t = chars_of(o.as_str());
                let p = chars_of("github:");
                let r = starts_with_at(&t, 0, t.len(), &p);
                assert(t@.subrange(0, t@.len() as int) =~= t@);
                r
            },
            None => false,
        }
    }

    /// Check if this annotation is a reply to another.
    pub fn is_reply(&self) -> (r: bool)
        ensures
            r == (self.target is Reference),
    {
        match &self.target {
            AnnotationTarget::Reference(_) => true,
            _ => false,
        }
    }

    /// Get the annotation's reply target ID, if it's a reply.
    pub fn reply_to(&self) -> (r: Option<&str>)
        ensures
            match reply_target(self.target) {
                Some(id) => r matches Some(s) && s@ == id,
                None => r is None,
            },
    {
        match &self.target {
            AnnotationTarget::Reference(id) => Some(id.as_str()),
            _ => None,
        }
    }
}

/// `http://www.w3.org/ns/anno.jsonld`, the JSON-LD context of annotations.
pub fn default_context() -> (r: String)
    ensures
        r@ == "http://www.w3.org/ns/anno.jsonld"@,
{
    "http://www.w3.org/ns/anno.jsonld".to_owned()
}

/// `Annotation`, the type of an annotation.
pub fn default_annotation_type() -> (r: String)
    ensures
        r@ == "Annotation"@,
{
    "Annotation".to_owned()
}

/// `AnnotationCollection`, the type of a collection.
pub fn default_collection_type() -> (r: String)
    ensures
        r@ == "AnnotationCollection"@,
{
    "AnnotationCollection".to_owned()
}

/// Annotations comment unless they say otherwise.
pub fn default_motivation() -> (r: Motivation)
    ensures
        r == Motivation::Commenting,
{
    Motivation::Commenting
}

/// `TextualBody`, the type of an annotation body.
pub fn default_textual_body() -> (r: String)
    ensures
        r@ == "TextualBody"@,
{
    "TextualBody".to_owned()
}

/// `text/markdown`, the format of annotation bodies.
pub fn default_format() -> (r: String)
    ensures
        r@ == "text/markdown"@,
{
    "text/markdown".to_owned()
}

/// `SpecificResource`, the type of a resource target.
pub fn default_specific_resource() -> (r: String)
    ensures
        r@ == "SpecificResource"@,
{
    "SpecificResource".to_owned()
}

/// `GitState`, the type of the git state of a target.
pub fn default_git_state() -> (r: String)
    ensures
        r@ == "GitState"@,
{
    "GitState".to_owned()
}

/// The generator recorded in collections this tool writes.
pub open spec fn is_openrfd_generator(g: Generator) -> bool {
    &&& g.generator_type@ == "Software"@
    &&& g.name@ == "openrfd"@
    &&& g.homepage matches Some(h) && h@ == "https://github.com/openrfd/openrfd"@
}

/// The generator recorded in collections this tool writes.
pub fn openrfd_generator() -> (r: Generator)
    ensures
        is_openrfd_generator(r),
{
    Generator {
        generator_type: "Software".to_owned(),
        name: "openrfd".to_owned(),
        homepage: Some("https://github.com/openrfd/openrfd".to_owned()),
    }
}

impl AnnotationCollection {
    /// Create a new empty collection.
    pub fn new(label: &str) -> (r: Self)
        ensures
            r.context@ == "http://www.w3.org/ns/anno.jsonld"@,
            r.collection_type@ == "AnnotationCollection"@,
            r.label@ == label@,
            r.generator matches Some(g) && is_openrfd_generator(g),
            r.items@.len() == 0,
    {
        AnnotationCollection {
            context: default_context(),
            collection_type: default_collection_type(),
            label: label.to_owned(),
            generator: Some(openrfd_generator()),
            items: Vec::new(),
        }
    }
}

/// The name `Display` gives a health status.
pub open spec fn health_name(h: AnchorHealth) -> Seq<char> {
    match h {
        AnchorHealth::Live => "live"@,
        AnchorHealth::Approximate => "approximate"@,
        AnchorHealth::Stale => "stale"@,
        AnchorHealth::Orphaned => "orphaned"@,
    }
}

impl AnchorHealth {
    /// The status's name, as `Display` writes it.
    pub fn to_string(&self) -> (r: String)
        ensures
            r@ == health_name(*self),
    {
        match self {
            AnchorHealth::Live => "live".to_owned(),
            AnchorHealth::Approximate => "approximate".to_owned(),
            AnchorHealth::Stale => "stale".to_owned(),
            AnchorHealth::Orphaned => "orphaned".to_owned(),
        }
    }
}

/// Distinct GitHub comments get distinct annotation ids (for one RFD and
/// padding width): the id is stable per comment and never shared.
pub proof fn law_github_id_distinct(n: u32, w: u32, a: u64, b: u64)
    requires
        a != b,
    ensures
        github_annotation_id(n, w, a) != github_annotation_id(n, w, b),
{
    let head = urn_prefix() + zero_pad(decimal(n as nat), w as nat) + ":gh-"@;
    let x = github_annotation_id(n, w, a);
    let y = github_annotation_id(n, w, b);
    if x == y {
        assert(x.skip(head.len() as int) =~= decimal(a as nat));
        assert(y.skip(head.len() as int) =~= decimal(b as nat));
        lemma_decimal_injective(a as nat, b as nat);
    }
}


/// An annotation made here and one imported from GitHub never share an id
/// (for one RFD and padding width): the part after the number starts with
/// a hexadecimal digit in the one and with `gh-` in the other.
pub proof fn law_fresh_id_is_not_imported(n: u32, w: u32, u: Seq<char>, c: u64)
    requires
        is_random_uuid(u),
    ensures
        urn_prefix() + zero_pad(decimal(n as nat), w as nat) + ":"@ + u != github_annotation_id(n, w, c),
{
    reveal_strlit(":");
    reveal_strlit(":gh-");
    let head = urn_prefix() + zero_pad(decimal(n as nat), w as nat);
    let x = head + ":"@ + u;
    let y = github_annotation_id(n, w, c);
    assert(x[head.len() as int + 1] == u[0]);
    assert(y[head.len() as int + 1] == ":gh-"@[1]);
    assert(is_lower_hex(u[0]));
}

} // verus!
