use rs_vulkan::config::{parse_args, redraws_while_idle, Command, TransitionType};

fn parse(args: &[&str]) -> Command {
    let v: Vec<String> = args.iter().map(|a| a.to_string()).collect();
    let numeric: Vec<bool> = v.iter().map(|a| a.parse::<f32>().is_ok()).collect();
    parse_args(&v, &numeric)
}

/// `--transition-type fluid` is accepted.
#[test]
fn parse_args_transition_type_fluid_explicit() {
    match parse(&["program", "/slides", "--transition-type", "fluid"]) {
        Command::Run(o) => assert_eq!(o.transition_type, TransitionType::Fluid),
        _ => panic!("expected a deck to show"),
    }
}

/// Fluid transition is distinct from Instant.
#[test]
fn fluid_is_not_instant() {
    assert_ne!(TransitionType::Fluid, TransitionType::Instant);
    assert_eq!(TransitionType::Fluid, TransitionType::Fluid);
}

/// Fluid transition keeps requesting redraws after the transition ends
/// (like Smooth), so the simulation keeps running.
#[test]
fn fluid_keeps_redrawing_after_transition() {
    assert!(redraws_while_idle(TransitionType::Smooth));
    assert!(redraws_while_idle(TransitionType::Fluid));
    assert!(!redraws_while_idle(TransitionType::Instant));
    assert!(!redraws_while_idle(TransitionType::Slide));
}

/// Fluid uses a smooth-style transition (no slide direction).
#[test]
fn fluid_transition_no_slide_direction() {
    match parse(&["program", "/slides", "--transition-type", "fluid"]) {
        Command::Run(o) => assert_eq!(o.transition_type, TransitionType::Fluid),
        _ => panic!("expected a deck to show"),
    }
}

/// Fluid transition is the fourth variant.
#[test]
fn fluid_transition_variant_order() {
    assert_eq!(TransitionType::Fluid as u8, 3);
}
