use openrfd::state::{State, Visibility};
use openrfd::diagnostic::{InvalidState, InvalidVisibility};

#[test]
fn state_names_parse_back() {
    for s in State::all() {
        assert_eq!(State::from_str(s.as_str()).unwrap(), s);
        assert_eq!(s.to_string(), s.as_str());
    }
    for v in [Visibility::Public, Visibility::Internal, Visibility::Confidential] {
        assert_eq!(Visibility::from_str(v.as_str()).unwrap(), v);
    }
}

#[test]
fn parsing_ignores_case_and_surrounding_space() {
    assert_eq!(State::from_str("  Discussion\n").unwrap(), State::Discussion);
    assert_eq!(Visibility::from_str("PUBLIC").unwrap(), Visibility::Public);
}

#[test]
fn unknown_names_are_errors_with_advice() {
    let e = State::from_str(" Draft ").unwrap_err();
    assert_eq!(e.value, "draft");
    assert_eq!(
        e.advice,
        "valid states are: prediscussion, ideation, discussion, published, committed, abandoned"
    );
    let v = Visibility::from_str("secret").unwrap_err();
    assert_eq!(v.value, "secret");
    assert_eq!(v.advice, "valid visibilities are: public, internal, confidential");
    assert_eq!(InvalidState::new("x").value, "x");
    assert_eq!(InvalidVisibility::new("y").value, "y");
}

#[test]
fn visibility_defaults_to_internal() {
    assert_eq!(Visibility::default(), Visibility::Internal);
}

#[test]
fn parse_error_messages() {
    let e = State::from_str("Draft").unwrap_err();
    assert_eq!(
        e.message(),
        "invalid state 'draft'. Valid states: prediscussion, ideation, discussion, published, committed, abandoned"
    );
    let v = Visibility::from_str(" Secret ").unwrap_err();
    assert_eq!(v.message(), "invalid visibility 'secret'");
}
