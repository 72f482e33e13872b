//! RFD lifecycle states and visibility levels.
use vstd::prelude::*;

use crate::diagnostic::{InvalidState, InvalidVisibility};
use crate::text::{all_ascii, ascii_lowercase, lowercase_of, str_eq, to_lowercase, trim, trim_string};

verus! {

/// RFD lifecycle states.
#[derive(Debug, Clone, Copy, PartialEq, Eq, Structural)]
pub enum State {
    Prediscussion,
    Ideation,
    Discussion,
    Published,
    Committed,
    Abandoned,
}

/// The states, in lifecycle order.
pub open spec fn all_states() -> Seq<State> {
    seq![
        State::Prediscussion,
        State::Ideation,
        State::Discussion,
        State::Published,
        State::Committed,
        State::Abandoned,
    ]
}

/// The lowercase name of a state.
pub open spec fn state_name(s: State) -> Seq<char> {
    match s {
        State::Prediscussion => "prediscussion"@,
        State::Ideation => "ideation"@,
        State::Discussion => "discussion"@,
        State::Published => "published"@,
        State::Committed => "committed"@,
        State::Abandoned => "abandoned"@,
    }
}

/// The state named `name`, if any.
pub open spec fn state_named(name: Seq<char>) -> Option<State> {
    if name == "prediscussion"@ {
        Some(State::Prediscussion)
    } else if name == "ideation"@ {
        Some(State::Ideation)
    } else if name == "discussion"@ {
        Some(State::Discussion)
    } else if name == "published"@ {
        Some(State::Published)
    } else if name == "committed"@ {
        Some(State::Committed)
    } else if name == "abandoned"@ {
        Some(State::Abandoned)
    } else {
        None
    }
}

/// The text a state is parsed from: trimmed, then lowercased.
pub open spec fn normalized(s: Seq<char>) -> Seq<char> {
    lowercase_of(trim(s))
}

/// The parts joined with `sep` between them.
pub open spec fn join_with(parts: Seq<Seq<char>>, sep: Seq<char>) -> Seq<char>
    decreases parts.len(),
{
    if parts.len() == 0 {
        seq![]
    } else if parts.len() == 1 {
        parts[0]
    } else {
        join_with(parts.drop_last(), sep) + sep + parts.last()
    }
}

/// The names of all states, separated by `, `.
pub open spec fn state_names_joined() -> Seq<char> {
    join_with(all_states().map_values(|s: State| state_name(s)), ", "@)
}

impl State {
    /// All states, in lifecycle order.
    pub fn all() -> (r: Vec<State>)
        ensures
            r@ == all_states(),
    {
        let r = vec![
            State::Prediscussion,
            State::Ideation,
            State::Discussion,
            State::Published,
            State::Committed,
            State::Abandoned,
        ];
        assert(r@ =~= all_states());
        r
    }

    pub fn as_str(&self) -> (r: &'static str)
        ensures
            r@ == state_name(*self),
    {
        match self {
            State::Prediscussion => "prediscussion",
            State::Ideation => "ideation",
            State::Discussion => "discussion",
            State::Published => "published",
            State::Committed => "committed",
            State::Abandoned => "abandoned",
        }
    }

    /// The state's name, as `Display` writes it.
    pub fn to_string(&self) -> (r: String)
        ensures
            r@ == state_name(*self),
    {
        self.as_str().to_owned()
    }

    /// Parse a state from its name, ignoring surrounding whitespace and case.
    pub fn from_str(s: &str) -> (r: Result<State, InvalidState>)
        ensures
            parses_state(s@, r),
    {
        let trimmed = trim_string(s);
        let lower = to_lowercase(trimmed.as_str());
        let l = lower.as_str();
        if str_eq(l, "prediscussion") {
            Ok(State::Prediscussion)
        } else if str_eq(l, "ideation") {
            Ok(State::Ideation)
        } else if str_eq(l, "discussion") {
            Ok(State::Discussion)
        } else if str_eq(l, "published") {
            Ok(State::Published)
        } else if str_eq(l, "committed") {
            Ok(State::Committed)
        } else if str_eq(l, "abandoned") {
            Ok(State::Abandoned)
        } else {
            Err(InvalidState::new(l))
        }
    }
}

/// RFD visibility levels.
#[derive(Debug, Clone, Copy, PartialEq, Eq, Structural)]
pub enum Visibility {
    Public,
    Internal,
    Confidential,
}

/// The lowercase name of a visibility level.
pub open spec fn visibility_name(v: Visibility) -> Seq<char> {
    match v {
        Visibility::Public => "public"@,
        Visibility::Internal => "internal"@,
        Visibility::Confidential => "confidential"@,
    }
}

/// The visibility level named `name`, if any.
pub open spec fn visibility_named(name: Seq<char>) -> Option<Visibility> {
    if name == "public"@ {
        Some(Visibility::Public)
    } else if name == "internal"@ {
        Some(Visibility::Internal)
    } else if name == "confidential"@ {
        Some(Visibility::Confidential)
    } else {
        None
    }
}

impl Default for Visibility {
    fn default() -> (r: Self)
        ensures
            r == Visibility::Internal,
    {
        Visibility::Internal
    }
}

impl Visibility {
    pub fn as_str(&self) -> (r: &'static str)
        ensures
            r@ == visibility_name(*self),
    {
        match self {
            Visibility::Public => "public",
            Visibility::Internal => "internal",
            Visibility::Confidential => "confidential",
        }
    }

    /// The level's name, as `Display` writes it.
    pub fn to_string(&self) -> (r: String)
        ensures
            r@ == visibility_name(*self),
    {
        self.as_str().to_owned()
    }

    /// Parse a visibility level from its name, ignoring surrounding
    /// whitespace and case.
    pub fn from_str(s: &str) -> (r: Result<Visibility, InvalidVisibility>)
        ensures
            parses_visibility(s@, r),
    {
        let trimmed = trim_string(s);
        let lower = to_lowercase(trimmed.as_str());
        let l = lower.as_str();
        if str_eq(l, "public") {
            Ok(Visibility::Public)
        } else if str_eq(l, "internal") {
            Ok(Visibility::Internal)
        } else if str_eq(l, "confidential") {
            Ok(Visibility::Confidential)
        } else {
            Err(InvalidVisibility::new(l))
        }
    }
}

/// `r` is what parsing the state text `s` gives: the state named by the
/// text trimmed and lowercased, or the error that names that text. For
/// ASCII text the lowercasing is the ASCII one.
pub open spec fn parses_state(s: Seq<char>, r: Result<State, InvalidState>) -> bool {
    &&& match state_named(normalized(s)) {
        Some(st) => r == Ok::<State, InvalidState>(st),
        None => r matches Err(e) && e.value@ == normalized(s) && e.advice@ == "valid states are: "@
            + state_names_joined(),
    }
    &&& all_ascii(trim(s)) ==> normalized(s) == ascii_lowercase(trim(s))
}

/// `r` is what parsing the visibility text `s` gives (see `parses_state`).
pub open spec fn parses_visibility(s: Seq<char>, r: Result<Visibility, InvalidVisibility>) -> bool {
    &&& match visibility_named(normalized(s)) {
        Some(v) => r == Ok::<Visibility, InvalidVisibility>(v),
        None => r matches Err(e) && e.value@ == normalized(s),
    }
    &&& all_ascii(trim(s)) ==> normalized(s) == ascii_lowercase(trim(s))
}

/// A word of lowercase ASCII letters is its own trimmed, ASCII-lowercased text.
proof fn lemma_lowercase_word(s: Seq<char>)
    requires
        s.len() > 0,
        forall|i: int| 0 <= i < s.len() ==> 'a' <= #[trigger] s[i] <= 'z',
    ensures
        trim(s) == s,
        all_ascii(s),
        ascii_lowercase(s) == s,
{
    assert(s[0] == s[0]);
    assert(s.last() == s[s.len() - 1]);
    assert(ascii_lowercase(s) =~= s);
}

/// A state's name parses back to the state: whatever parsing
/// `State::as_str` of a state gives is that state.
pub proof fn law_state_name_parses_back(st: State, r: Result<State, InvalidState>)
    requires
        parses_state(state_name(st), r),
    ensures
        r == Ok::<State, InvalidState>(st),
{
    reveal_strlit("prediscussion");
    reveal_strlit("ideation");
    reveal_strlit("discussion");
    reveal_strlit("published");
    reveal_strlit("committed");
    reveal_strlit("abandoned");
    lemma_lowercase_word(state_name(st));
}

/// A visibility level's name parses back to the level.
pub proof fn law_visibility_name_parses_back(v: Visibility, r: Result<Visibility, InvalidVisibility>)
    requires
        parses_visibility(visibility_name(v), r),
    ensures
        r == Ok::<Visibility, InvalidVisibility>(v),
{
    reveal_strlit("public");
    reveal_strlit("internal");
    reveal_strlit("confidential");
    lemma_lowercase_word(visibility_name(v));
}

} // verus!
