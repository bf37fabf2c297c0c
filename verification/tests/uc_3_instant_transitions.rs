use rs_vulkan::config::{parse_args, Command, RunOptions, TransitionType};

fn parse(args: &[&str]) -> Command {
    let v: Vec<String> = args.iter().map(|a| a.to_string()).collect();
    let numeric: Vec<bool> = v.iter().map(|a| a.parse::<f32>().is_ok()).collect();
    parse_args(&v, &numeric)
}

fn run(args: &[&str]) -> Option<RunOptions> {
    match parse(args) {
        Command::Run(o) => Some(o),
        _ => None,
    }
}

/// `--transition-type instant` is accepted.
#[test]
fn uc_3_instant_transitions_parse_args_transition_type_instant() {
    let config = run(&["program", "/slides", "--transition-type", "instant"]);
    assert!(config.is_some());
    assert_eq!(config.unwrap().transition_type, TransitionType::Instant);
}

/// Another argument vector with "rs-vulkan" as program
/// name also parses correctly.
#[test]
fn parse_args_transition_type_instant2() {
    let config = run(&["rs-vulkan", "/path/to/slides", "--transition-type", "instant"]).unwrap();
    assert_eq!(config.transition_type, TransitionType::Instant);
}

/// An invalid transition type string is rejected.
#[test]
fn uc_3_instant_transitions_parse_args_transition_type_invalid() {
    assert!(run(&["rs-vulkan", "/path/to/slides", "--transition-type", "foo"]).is_none());
    assert!(matches!(
        parse(&["rs-vulkan", "/path/to/slides", "--transition-type", "foo"]),
        Command::InvalidTransitionType
    ));
}

/// The string "bogus" as transition type is rejected.
#[test]
fn parse_args_transition_type_invalid2() {
    assert!(run(&["program", "/slides", "--transition-type", "bogus"]).is_none());
}

/// TransitionType equality and inequality are correct.
#[test]
fn transition_type_eq_ordering() {
    assert_eq!(TransitionType::Smooth, TransitionType::Smooth);
    assert_eq!(TransitionType::Instant, TransitionType::Instant);
    assert_eq!(TransitionType::Slide, TransitionType::Slide);
    assert_ne!(TransitionType::Smooth, TransitionType::Instant);
}

/// When `--transition-type` is given twice, the last value wins.
#[test]
fn parse_args_duplicate_transition_type() {
    let config = run(&[
        "program", "/slides", "--transition-type", "instant", "--transition-type", "slide",
    ]);
    assert!(config.is_some());
    assert_eq!(config.unwrap().transition_type, TransitionType::Slide);
}

/// `--transition-type` without a value is rejected.
#[test]
fn uc_3_instant_transitions_parse_args_missing_value_after_flag() {
    assert!(run(&["program", "/slides", "--transition-type"]).is_none());
    assert!(matches!(
        parse(&["program", "/slides", "--transition-type"]),
        Command::InvalidTransitionType
    ));
}
