use mitos::commands::macros::{Macros, Recording, ReplayError};

#[test]
fn keys_are_recorded_up_to_the_one_that_ends_it() {
    let mut macros = Macros::new();
    match macros.record_macro(Some('a')) {
        Recording::Started { status } => assert_eq!(status, "Recording to register [a]"),
        _ => panic!("recording begins"),
    }
    for key in ["x", "C-d", "Q"] {
        macros.press(key.to_string());
    }
    match macros.record_macro(None) {
        Recording::Finished { register, text, status } => {
            assert_eq!(register, 'a');
            assert_eq!(text, "x<C-d>");
            assert_eq!(status, "Recorded to register [a]");
        }
        _ => panic!("recording ends"),
    }
    assert!(macros.recording.is_none());
    macros.press("y".to_string());
    assert!(macros.recording.is_none());
}

#[test]
fn a_macro_is_not_replayed_inside_itself() {
    let mut macros = Macros::new();
    let values = vec!["x".to_string()];
    let parsed = || Ok(vec!["x".to_string()]);
    let keys = macros.replay_macro(None, Some(&values), parsed());
    assert_eq!(keys.ok().unwrap(), ["x"]);
    match macros.replay_macro(Some('@'), Some(&values), parsed()) {
        Err(ReplayError::Replaying(m)) => assert_eq!(
            m,
            "Cannot replay from register [@] because already replaying from same register"
        ),
        _ => panic!("it is being replayed"),
    }
    assert!(macros.replay_macro(Some('b'), Some(&values), parsed()).is_ok());
    macros.replayed();
    macros.replayed();
    assert!(macros.replay_macro(None, Some(&values), parsed()).is_ok());
}

#[test]
fn registers_without_a_macro_are_errors() {
    let mut macros = Macros::new();
    let two = vec!["x".to_string(), "y".to_string()];
    for values in [None, Some(&two)] {
        match macros.replay_macro(Some('q'), values, Ok(Vec::new())) {
            Err(ReplayError::Empty(m)) => assert_eq!(m, "Register [q] empty"),
            _ => panic!("there is no macro"),
        }
    }
    let one = vec!["<".to_string()];
    match macros.replay_macro(Some('q'), Some(&one), Err("unclosed".to_string())) {
        Err(ReplayError::Invalid(m)) => assert_eq!(m, "Invalid macro: unclosed"),
        _ => panic!("the macro is malformed"),
    }
    assert!(macros.replaying.is_empty());
}
