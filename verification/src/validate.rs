//! Checking an RFD document's format and metadata.
use vstd::prelude::*;
use vstd::utf8::encode_utf8;

use crate::diagnostic::ValidationDiagnostic;
use crate::rfd::{title_of_lines, Frontmatter, Rfd};
use crate::selector::find_bytes;
use crate::text::{concat, find, lines, trim, trim_string};

verus! {

/// Validation result for a single RFD.
#[derive(Debug)]
pub struct ValidationResult {
    pub errors: Vec<String>,
    pub warnings: Vec<String>,
    /// Rich diagnostics with source context for pretty rendering.
    pub diagnostics: Vec<ValidationDiagnostic>,
}

impl ValidationResult {
    /// An empty result.
    pub fn new() -> (r: Self)
        ensures
            r.errors@.len() == 0,
            r.warnings@.len() == 0,
            r.diagnostics@.len() == 0,
    {
        ValidationResult { errors: Vec::new(), warnings: Vec::new(), diagnostics: Vec::new() }
    }

    /// The result for a document that could not be read.
    pub fn unreadable(reason: &str) -> (r: Self)
        ensures
            r.errors@.len() == 1,
            r.errors@[0]@ == "cannot read file: "@ + reason@,
            r.warnings@.len() == 0,
            r.diagnostics@.len() == 0,
    {
        let mut r = ValidationResult::new();
        r.errors.push(concat("cannot read file: ", reason));
        r
    }

    /// Whether the document has no error (warnings allowed).
    pub fn is_ok(&self) -> (r: bool)
        ensures
            r == (self.errors@.len() == 0),
    {
        self.errors.len() == 0
    }
}

// ---------------------------------------------------------------------------
// Bytes of the document
// ---------------------------------------------------------------------------

/// The UTF-8 encoding of the byte order mark U+FEFF.
pub open spec fn bom_bytes() -> Seq<u8> {
    seq![0xefu8, 0xbbu8, 0xbfu8]
}

/// `---`.
pub open spec fn fence_bytes() -> Seq<u8> {
    seq![0x2du8, 0x2du8, 0x2du8]
}

/// `\n---`, which closes the front matter.
pub open spec fn closing_fence_bytes() -> Seq<u8> {
    seq![0x0au8, 0x2du8, 0x2du8, 0x2du8]
}

/// `b` without the byte order marks it starts with.
pub open spec fn strip_boms(b: Seq<u8>) -> Seq<u8>
    decreases b.len(),
{
    if b.len() >= 3 && b.subrange(0, 3) == bom_bytes() {
        strip_boms(b.subrange(3, b.len() as int))
    } else {
        b
    }
}

/// `t` starts with `p`.
pub open spec fn bytes_start_with(t: Seq<u8>, p: Seq<u8>) -> bool {
    p.len() <= t.len() && t.subrange(0, p.len() as int) == p
}

/// The byte offset just past the `\n---` that closes the front matter of
/// `t`, or 0 where there is none.
pub open spec fn frontmatter_end(t: Seq<u8>) -> int {
    match find(t, closing_fence_bytes()) {
        Some(i) => i + 4,
        None => 0,
    }
}

/// The bytes of `content` after its byte order marks.
fn stripped_bytes(content: &str) -> (r: Vec<u8>)
    ensures
        r@ == strip_boms(encode_utf8(content@)),
{
    let b = content.as_bytes();
    let mut lo: usize = 0;
    assert(b@.subrange(0, b@.len() as int) =~= b@);
    while b.len() - lo >= 3 && b[lo] == 0xefu8 && b[lo + 1] == 0xbbu8 && b[lo + 2] == 0xbfu8
        invariant
            lo <= b.len(),
            b@ == encode_utf8(content@),
            strip_boms(b@) == strip_boms(b@.subrange(lo as int, b@.len() as int)),
        decreases b.len() - lo,
    {
        let ghost rest = b@.subrange(lo as int, b@.len() as int);
        assert(rest.subrange(0, 3) =~= bom_bytes());
        assert(rest.subrange(3, rest.len() as int) =~= b@.subrange(lo + 3, b@.len() as int));
        lo += 3;
    }
    let ghost rest = b@.subrange(lo as int, b@.len() as int);
    assert(!(rest.len() >= 3 && rest.subrange(0, 3) == bom_bytes())) by {
        if rest.len() >= 3 && rest.subrange(0, 3) == bom_bytes() {
            assert(rest.subrange(0, 3)[0] == b@[lo as int]);
            assert(rest.subrange(0, 3)[1] == b@[lo + 1]);
            assert(rest.subrange(0, 3)[2] == b@[lo + 2]);
        }
    }
    let mut out: Vec<u8> = Vec::new();
    let mut i = lo;
    while i < b.len()
        invariant
            lo <= i <= b.len(),
            out@ == b@.subrange(lo as int, i as int),
        decreases b.len() - i,
    {
        out.push(b[i]);
        i += 1;
        assert(out@ =~= b@.subrange(lo as int, i as int));
    }
    out
}

// ---------------------------------------------------------------------------
// What validation finds
// ---------------------------------------------------------------------------

/// `d` points into the document `filename` with text `content`.
pub open spec fn diagnostic_is(
    d: ValidationDiagnostic,
    message: Seq<char>,
    filename: Seq<char>,
    content: Seq<char>,
    start: int,
    len: int,
    label: Seq<char>,
    advice: Seq<char>,
) -> bool {
    &&& d.message@ == message
    &&& d.src_name@ == filename
    &&& d.src@ == content
    &&& d.span_offset == start
    &&& d.span_len == len
    &&& d.label@ == label
    &&& d.advice matches Some(a) && a@ == advice
}

/// The front matter names at least one author.
pub open spec fn has_authors(fm: Frontmatter) -> bool {
    match fm.authors {
        Some(a) => trim(a@).len() > 0,
        None => false,
    }
}

/// The warning of a document without authors.
pub open spec fn authors_warning() -> Seq<char> {
    "missing 'authors' field"@
}

/// The warning of a document without a title heading.
pub open spec fn title_warning() -> Seq<char> {
    "no title heading found"@
}

/// What validation reports of a document that decoded to `rfd`.
pub open spec fn metadata_findings(
    r: ValidationResult,
    filename: Seq<char>,
    content: Seq<char>,
    rfd: Rfd,
) -> bool {
    let bytes = encode_utf8(content);
    let fm_end = frontmatter_end(strip_boms(bytes));
    let no_authors = !has_authors(rfd.frontmatter);
    let no_title = title_of_lines(lines(rfd.body@)).len() == 0;
    let rest = if bytes.len() > fm_end {
        bytes.len() - fm_end
    } else {
        0
    };
    let body_len = if rest < 80 {
        rest
    } else {
        80
    };
    &&& r.errors@.len() == 0
    &&& r.warnings@.len() == (if no_authors { 1int } else { 0int }) + (if no_title { 1int } else { 0int })
    &&& r.diagnostics@.len() == r.warnings@.len()
    &&& no_authors ==> {
        &&& r.warnings@[0]@ == authors_warning()
        &&& diagnostic_is(
            r.diagnostics@[0],
            authors_warning(),
            filename,
            content,
            0,
            fm_end,
            "no `authors` field in frontmatter"@,
            "add `authors: Your Name` to the frontmatter"@,
        )
    }
    &&& no_title ==> {
        &&& r.warnings@.last()@ == title_warning()
        &&& diagnostic_is(
            r.diagnostics@.last(),
            title_warning(),
            filename,
            content,
            fm_end,
            if body_len > 1 {
                body_len
            } else {
                1
            },
            "expected a markdown heading (e.g. `# RFD 0001 My Title`)"@,
            "add a level-1 heading after the frontmatter:\n\n  # RFD NNNN Your Title"@,
        )
    }
}

/// What validation reports of document `filename` with text `content`,
/// where decoding its front matter gave `parsed`.
pub open spec fn validation_of(
    r: ValidationResult,
    filename: Seq<char>,
    content: Seq<char>,
    parsed: Result<Rfd, String>,
) -> bool {
    let bytes = encode_utf8(content);
    if !bytes_start_with(strip_boms(bytes), fence_bytes()) {
        &&& r.errors@.len() == 1
        &&& r.errors@[0]@ == "missing YAML frontmatter (file must start with ---)"@
        &&& r.warnings@.len() == 0
        &&& r.diagnostics@.len() == 1
        &&& diagnostic_is(
            r.diagnostics@[0],
            "missing YAML frontmatter"@,
            filename,
            content,
            0,
            if bytes.len() < 40 {
                bytes.len() as int
            } else {
                40
            },
            "expected `---` here"@,
            "add frontmatter at the top of the file:\n\n  ---\n  authors: Your Name\n  state: prediscussion\n  ---"@,
        )
    } else {
        match parsed {
            Err(e) => {
                &&& r.errors@.len() == 1
                &&& r.errors@[0]@ == "invalid frontmatter: "@ + e@
                &&& r.warnings@.len() == 0
                &&& r.diagnostics@.len() == 0
            },
            Ok(rfd) => metadata_findings(r, filename, content, rfd),
        }
    }
}

/// Validate an RFD document from its name and text, given what decoding
/// its front matter gave.
pub fn validate_content(filename: &str, content: &str, parsed: &Result<Rfd, String>) -> (r:
    ValidationResult)
    ensures
        validation_of(r, filename@, content@, *parsed),
{
    let mut result = ValidationResult::new();
    let bytes = content.as_bytes();
    let trimmed = stripped_bytes(content);
    let fence: Vec<u8> = vec![0x2du8, 0x2du8, 0x2du8];
    let starts = if trimmed.len() >= 3 {
        crate::selector::occurs_bytes(trimmed.as_slice(), fence.as_slice(), 0)
    } else {
        false
    };
    assert(starts == bytes_start_with(trimmed@, fence_bytes())) by {
        assert(fence@ =~= fence_bytes());
    }
    if !starts {
        result.errors.push("missing YAML frontmatter (file must start with ---)".to_owned());
        let span_len = if bytes.len() < 40 {
            bytes.len()
        } else {
            40
        };
        result.diagnostics.push(
            ValidationDiagnostic {
                message: "missing YAML frontmatter".to_owned(),
                src_name: filename.to_owned(),
                src: content.to_owned(),
                span_offset: 0,
                span_len,
                label: "expected `---` here".to_owned(),
                advice: Some(
                    "add frontmatter at the top of the file:\n\n  ---\n  authors: Your Name\n  state: prediscussion\n  ---".to_owned(),
                ),
            },
        );
        return result;
    }
    let rfd = match parsed {
        Ok(r) => r,
        Err(e) => {
            result.errors.push(concat("invalid frontmatter: ", e.as_str()));
            return result;
        },
    };
    let close: Vec<u8> = vec![0x0au8, 0x2du8, 0x2du8, 0x2du8];
    assert(close@ =~= closing_fence_bytes());
    let fm_end: usize = match find_bytes(trimmed.as_slice(), close.as_slice(), 0) {
        Some(i) => {
            proof {
                crate::text::lemma_find_from_props(trimmed@, closing_fence_bytes(), 0);
            }
            i + 4
        },
        None => 0,
    };
    assert(fm_end == frontmatter_end(trimmed@));
    let authored = match &rfd.frontmatter.authors {
        Some(a) => {
            let t = trim_string(a.as_str());
            !t.as_str().is_empty()
        },
        None => false,
    };
    if !authored {
        result.warnings.push("missing 'authors' field".to_owned());
        result.diagnostics.push(
            ValidationDiagnostic {
                message: "missing 'authors' field".to_owned(),
                src_name: filename.to_owned(),
                src: content.to_owned(),
                span_offset: 0,
                span_len: fm_end,
                label: "no `authors` field in frontmatter".to_owned(),
                advice: Some("add `authors: Your Name` to the frontmatter".to_owned()),
            },
        );
    }
    let title = rfd.title();
    if title.as_str().is_empty() {
        result.warnings.push("no title heading found".to_owned());
        let rest = if bytes.len() > fm_end {
            bytes.len() - fm_end
        } else {
            0
        };
        let body_len = if rest < 80 {
            rest
        } else {
            80
        };
        result.diagnostics.push(
            ValidationDiagnostic {
                message: "no title heading found".to_owned(),
                src_name: filename.to_owned(),
                src: content.to_owned(),
                span_offset: fm_end,
                span_len: if body_len > 1 {
                    body_len
                } else {
                    1
                },
                label: "expected a markdown heading (e.g. `# RFD 0001 My Title`)".to_owned(),
                advice: Some(
                    "add a level-1 heading after the frontmatter:\n\n  # RFD NNNN Your Title".to_owned(),
                ),
            },
        );
    }
    result
}


/// A document validates (no error) exactly when it starts with `---` after
/// its byte order marks and its front matter decodes; warnings (no authors,
/// no title) never make it fail, and a failing document has exactly one
/// error and no warning.
pub proof fn law_valid_iff_decodes(
    r: ValidationResult,
    filename: Seq<char>,
    content: Seq<char>,
    parsed: Result<Rfd, String>,
)
    requires
        validation_of(r, filename, content, parsed),
    ensures
        (r.errors@.len() == 0) == (bytes_start_with(strip_boms(encode_utf8(content)), fence_bytes())
            && parsed is Ok),
        r.errors@.len() != 0 ==> r.errors@.len() == 1 && r.warnings@.len() == 0,
{
}


// ---------------------------------------------------------------------------
// Whole-repository tally
// ---------------------------------------------------------------------------

/// Totals over the numbered RFD directories of a repository.
#[derive(Debug, Clone, Copy, PartialEq, Eq)]
pub struct ValidationSummary {
    /// Directories that hold a document.
    pub count: usize,
    pub errors: usize,
    pub warnings: usize,
}

/// Errors that one directory adds: a missing document counts as one.
pub open spec fn outcome_errors(o: Option<ValidationResult>) -> nat {
    match o {
        None => 1,
        Some(r) => r.errors@.len(),
    }
}

/// Warnings that one directory adds.
pub open spec fn outcome_warnings(o: Option<ValidationResult>) -> nat {
    match o {
        None => 0,
        Some(r) => r.warnings@.len(),
    }
}

/// Whether one directory holds a document that validates.
pub open spec fn outcome_valid(o: Option<ValidationResult>) -> bool {
    o matches Some(r) && r.errors@.len() == 0
}

pub open spec fn total_errors(s: Seq<Option<ValidationResult>>) -> nat
    decreases s.len(),
{
    if s.len() == 0 {
        0
    } else {
        total_errors(s.drop_last()) + outcome_errors(s.last())
    }
}

pub open spec fn total_warnings(s: Seq<Option<ValidationResult>>) -> nat
    decreases s.len(),
{
    if s.len() == 0 {
        0
    } else {
        total_warnings(s.drop_last()) + outcome_warnings(s.last())
    }
}

/// Number of directories that hold a document.
pub open spec fn total_count(s: Seq<Option<ValidationResult>>) -> nat
    decreases s.len(),
{
    if s.len() == 0 {
        0
    } else {
        total_count(s.drop_last()) + if s.last() is Some { 1nat } else { 0nat }
    }
}

proof fn lemma_totals_monotone(s: Seq<Option<ValidationResult>>, i: int)
    requires
        0 <= i <= s.len(),
    ensures
        total_errors(s.take(i)) <= total_errors(s),
        total_warnings(s.take(i)) <= total_warnings(s),
        total_count(s.take(i)) <= total_count(s),
    decreases s.len() - i,
{
    if i < s.len() {
        lemma_totals_monotone(s, i + 1);
        assert(s.take(i + 1).drop_last() =~= s.take(i));
    } else {
        assert(s.take(i) =~= s);
    }
}

proof fn lemma_no_errors_iff_all_valid(s: Seq<Option<ValidationResult>>)
    ensures
        (total_errors(s) == 0) == (forall|i: int| 0 <= i < s.len() ==> outcome_valid(#[trigger] s[i])),
    decreases s.len(),
{
    if s.len() > 0 {
        let t = s.drop_last();
        lemma_no_errors_iff_all_valid(t);
        if total_errors(s) == 0 {
            assert forall|i: int| 0 <= i < s.len() implies outcome_valid(#[trigger] s[i]) by {
                if i < t.len() {
                    assert(t[i] == s[i]);
                }
            }
        } else if outcome_errors(s.last()) == 0 {
            let j = choose|j: int| 0 <= j < t.len() && !outcome_valid(#[trigger] t[j]);
            assert(s[j] == t[j]);
        } else {
            assert(!outcome_valid(s[s.len() - 1]));
        }
    }
}

/// Adds up what validating each numbered directory gave, in order: its
/// result, or `None` where it holds no document. Returns the totals and
/// whether the repository validates.
pub fn summarize_validation(outcomes: &Vec<Option<ValidationResult>>) -> (r: (ValidationSummary, bool))
    requires
        total_errors(outcomes@) <= usize::MAX,
        total_warnings(outcomes@) <= usize::MAX,
    ensures
        r.0.count == total_count(outcomes@),
        r.0.errors == total_errors(outcomes@),
        r.0.warnings == total_warnings(outcomes@),
        r.1 == (r.0.errors == 0),
        r.1 == (forall|i: int| 0 <= i < outcomes@.len() ==> outcome_valid(#[trigger] outcomes@[i])),
{
    let mut count: usize = 0;
    let mut errors: usize = 0;
    let mut warnings: usize = 0;
    let mut i: usize = 0;
    while i < outcomes.len()
        invariant
            i <= outcomes@.len(),
            total_errors(outcomes@) <= usize::MAX,
            total_warnings(outcomes@) <= usize::MAX,
            count == total_count(outcomes@.take(i as int)),
            errors == total_errors(outcomes@.take(i as int)),
            warnings == total_warnings(outcomes@.take(i as int)),
        decreases outcomes@.len() - i,
    {
        proof {
            lemma_totals_monotone(outcomes@, i + 1);
            assert(outcomes@.take(i + 1).drop_last() =~= outcomes@.take(i as int));
            assert(count <= i) by {
                lemma_count_at_most_len(outcomes@.take(i as int));
            }
        }
        match &outcomes[i] {
            None => {
                errors = errors + 1;
            },
            Some(res) => {
                count = count + 1;
                errors = errors + res.errors.len();
                warnings = warnings + res.warnings.len();
            },
        }
        i = i + 1;
    }
    proof {
        assert(outcomes@.take(i as int) =~= outcomes@);
        lemma_no_errors_iff_all_valid(outcomes@);
    }
    (ValidationSummary { count, errors, warnings }, errors == 0)
}

proof fn lemma_count_at_most_len(s: Seq<Option<ValidationResult>>)
    ensures
        total_count(s) <= s.len(),
    decreases s.len(),
{
    if s.len() > 0 {
        lemma_count_at_most_len(s.drop_last());
    }
}

} // verus!
