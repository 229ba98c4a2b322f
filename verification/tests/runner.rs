use hyperon::runner::{checks_types, decide, interpretation_error, Action, Mode};

#[test]
fn sign_switches_to_interpretation() {
    assert_eq!(decide(Mode::Add, true, false, true), (Action::Skip, Mode::Interpret));
    assert_eq!(decide(Mode::Interpret, true, true, false), (Action::Skip, Mode::Interpret));
}

#[test]
fn atoms_are_added_unless_a_sign_stands_before_them() {
    assert_eq!(decide(Mode::Add, false, false, true), (Action::AddToSpace, Mode::Add));
    assert_eq!(decide(Mode::Add, false, false, false), (Action::AddToSpace, Mode::Add));
    assert_eq!(decide(Mode::Interpret, false, false, true), (Action::Interpret, Mode::Add));
    assert_eq!(decide(Mode::Interpret, false, true, true), (Action::Interpret, Mode::Add));
}

#[test]
fn bad_types_are_reported_where_types_are_checked() {
    assert_eq!(decide(Mode::Add, false, true, false), (Action::ReportBadType, Mode::Add));
    assert_eq!(decide(Mode::Interpret, false, true, false), (Action::ReportBadType, Mode::Add));
    assert_eq!(decide(Mode::Add, false, true, true), (Action::AddToSpace, Mode::Add));
}

#[test]
fn types_are_checked_where_the_setting_is_auto() {
    assert!(checks_types(Some(&"auto".to_string())));
    assert!(!checks_types(Some(&"off".to_string())));
    assert!(!checks_types(Some(&"".to_string())));
    assert!(!checks_types(None));
}

#[test]
fn interpreter_failures_are_marked_as_errors() {
    assert_eq!(interpretation_error("no such function"), "Error: no such function");
    assert_eq!(interpretation_error(""), "Error: ");
}
