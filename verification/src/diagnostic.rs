//! Diagnostics: what went wrong in a document, and where.
use vstd::prelude::*;

use crate::state::{all_states, state_name, state_names_joined, join_with, State};
use crate::text::concat;

verus! {

/// Invalid lifecycle state value.
#[derive(Debug, Clone)]
pub struct InvalidState {
    pub value: String,
    pub advice: String,
}

/// The names of all states, separated by `, `.
fn state_names_text() -> (r: String)
    ensures
        r@ == state_names_joined(),
{
    let states = State::all();
    let mut out = String::new();
    let ghost names = all_states().map_values(|s: State| state_name(s));
    let mut i: usize = 0;
    while i < states.len()
        invariant
            i <= states@.len(),
            states@ == all_states(),
            names == all_states().map_values(|s: State| state_name(s)),
            out@ == join_with(names.take(i as int), ", "@),
        decreases states.len() - i,
    {
        let ghost before = out@;
        if i > 0 {
            out.append(", ");
        }
        out.append(states[i].as_str());
        proof {
            assert(names.take(i + 1).drop_last() =~= names.take(i as int));
            if i == 0 {
                assert(join_with(names.take(0), ", "@) =~= Seq::<char>::empty());
                assert(before + state_name(states@[0]) =~= join_with(names.take(1), ", "@));
            } else {
                assert(out@ =~= join_with(names.take(i + 1), ", "@));
            }
        }
        i += 1;
    }
    assert(names.take(6) =~= names);
    out
}

impl InvalidState {
    pub fn new(value: &str) -> (r: Self)
        ensures
            r.value@ == value@,
            r.advice@ == "valid states are: "@ + state_names_joined(),
    {
        let names = state_names_text();
        InvalidState { value: value.to_owned(), advice: concat("valid states are: ", names.as_str()) }
    }

    /// The message of a state that does not parse.
    pub fn message(&self) -> (r: String)
        ensures
            r@ == "invalid state '"@ + self.value@ + "'. Valid states: "@ + state_names_joined(),
    {
        let names = state_names_text();
        let a = concat("invalid state '", self.value.as_str());
        let b = concat(a.as_str(), "'. Valid states: ");
        concat(b.as_str(), names.as_str())
    }
}

/// Invalid visibility value.
#[derive(Debug, Clone)]
pub struct InvalidVisibility {
    pub value: String,
    pub advice: String,
}

impl InvalidVisibility {
    pub fn new(value: &str) -> (r: Self)
        ensures
            r.value@ == value@,
            r.advice@ == "valid visibilities are: public, internal, confidential"@,
    {
        InvalidVisibility {
            value: value.to_owned(),
            advice: "valid visibilities are: public, internal, confidential".to_owned(),
        }
    }

    /// The message of a visibility that does not parse.
    pub fn message(&self) -> (r: String)
        ensures
            r@ == "invalid visibility '"@ + self.value@ + "'"@,
    {
        let a = concat("invalid visibility '", self.value.as_str());
        concat(a.as_str(), "'")
    }
}

/// A problem found in a document, with the text it points into.
#[derive(Debug, Clone)]
pub struct ValidationDiagnostic {
    pub message: String,
    /// The name of the document.
    pub src_name: String,
    /// The document's text.
    pub src: String,
    /// Byte offset of the part pointed at.
    pub span_offset: usize,
    /// Byte length of the part pointed at.
    pub span_len: usize,
    pub label: String,
    pub advice: Option<String>,
}

/// The document has no YAML front matter.
#[derive(Debug, Clone)]
pub struct MissingFrontmatter {
    pub src_name: String,
    pub src: String,
    /// Byte offset of the part pointed at.
    pub span_offset: usize,
    /// Byte length of the part pointed at.
    pub span_len: usize,
}

/// The YAML front matter does not decode.
#[derive(Debug, Clone)]
pub struct InvalidFrontmatter {
    pub src_name: String,
    pub src: String,
    /// Byte offset of the part pointed at.
    pub span_offset: usize,
    /// Byte length of the part pointed at.
    pub span_len: usize,
    pub reason: String,
    pub advice: Option<String>,
}

} // verus!
