use fps_camera::controls::HeldInputs;
use fps_camera::input::{classify, Action, Axis, Basis, Movement, Turn};

fn names(list: &[&str]) -> Vec<String> {
    list.iter().map(|s| s.to_string()).collect()
}

#[test]
fn classify_every_name() {
    assert_eq!(classify("Up"), Action::Turn(Turn::PitchUp));
    assert_eq!(classify("Down"), Action::Turn(Turn::PitchDown));
    assert_eq!(classify("Left"), Action::Turn(Turn::YawLeft));
    assert_eq!(classify("Right"), Action::Turn(Turn::YawRight));
    assert_eq!(classify("W"), Action::Move(Movement::Forward));
    assert_eq!(classify("S"), Action::Move(Movement::Backward));
    assert_eq!(classify("A"), Action::Move(Movement::StrafeLeft));
    assert_eq!(classify("D"), Action::Move(Movement::StrafeRight));
    assert_eq!(classify("E"), Action::Move(Movement::Rise));
    assert_eq!(classify("Q"), Action::Move(Movement::Sink));
}

#[test]
fn classify_unknown_names_are_inert() {
    assert_eq!(classify("w"), Action::Other);
    assert_eq!(classify(""), Action::Other);
    assert_eq!(classify("Space"), Action::Other);
    assert_eq!(classify("Upp"), Action::Other);
}

#[test]
fn new_holds_nothing() {
    let held = HeldInputs::new();
    assert_eq!(held.len(), 0);
    assert!(held.movements().is_empty());
}

#[test]
fn pressing_tracks_every_name_once() {
    let mut held = HeldInputs::new();
    let turns = held.set_inputs(&names(&["W", "Space", "W"]), &names(&[]));
    assert!(turns.is_empty());
    assert_eq!(held.len(), 2);
    assert!(held.contains(&"W".to_string()));
    assert!(held.contains(&"Space".to_string()));
    held.set_inputs(&names(&["W"]), &names(&[]));
    assert_eq!(held.len(), 2);
}

#[test]
fn rotations_fire_once_per_press_in_order() {
    let mut held = HeldInputs::new();
    let turns = held.set_inputs(&names(&["Right", "W", "Up", "Right", "Left", "Down"]), &names(&[]));
    assert_eq!(
        turns,
        vec![Turn::YawRight, Turn::PitchUp, Turn::YawRight, Turn::YawLeft, Turn::PitchDown]
    );
    assert_eq!(held.len(), 5);
    let again = held.set_inputs(&names(&[]), &names(&[]));
    assert!(again.is_empty());
}

#[test]
fn press_then_release_clears_name() {
    let mut held = HeldInputs::new();
    held.set_inputs(&names(&["W", "A"]), &names(&[]));
    assert!(held.contains(&"W".to_string()));
    held.set_inputs(&names(&[]), &names(&["W"]));
    assert!(!held.contains(&"W".to_string()));
    assert!(held.contains(&"A".to_string()));
    assert_eq!(held.len(), 1);
}

#[test]
fn press_and_release_in_one_report() {
    let mut held = HeldInputs::new();
    let turns = held.set_inputs(&names(&["Left"]), &names(&["Left"]));
    assert_eq!(turns, vec![Turn::YawLeft]);
    assert_eq!(held.len(), 0);
}

#[test]
fn releasing_unheld_name_is_noop() {
    let mut held = HeldInputs::new();
    held.set_inputs(&names(&["S", "Q"]), &names(&[]));
    held.set_inputs(&names(&[]), &names(&["W", "Nothing", "W"]));
    assert_eq!(held.len(), 2);
    assert_eq!(held.movements(), vec![Movement::Backward, Movement::Sink]);
}

#[test]
fn forward_alone_takes_one_forward_step() {
    let mut held = HeldInputs::new();
    held.set_inputs(&names(&["W", "Up", "Shift"]), &names(&[]));
    assert_eq!(held.movements(), vec![Movement::Forward]);
}

#[test]
fn rise_is_a_single_step_per_frame() {
    let mut held = HeldInputs::new();
    held.set_inputs(&names(&["E", "E"]), &names(&[]));
    assert_eq!(held.movements(), vec![Movement::Rise]);
}

#[test]
fn movements_follow_held_order() {
    let mut held = HeldInputs::new();
    held.set_inputs(&names(&["D", "Right", "W", "S", "A", "E", "Q"]), &names(&[]));
    assert_eq!(
        held.movements(),
        vec![
            Movement::StrafeRight,
            Movement::Forward,
            Movement::Backward,
            Movement::StrafeLeft,
            Movement::Rise,
            Movement::Sink
        ]
    );
    held.set_inputs(&names(&[]), &names(&["W", "A"]));
    assert_eq!(
        held.movements(),
        vec![Movement::StrafeRight, Movement::Backward, Movement::Rise, Movement::Sink]
    );
}

#[test]
fn turn_axes_follow_their_keys() {
    assert_eq!(Turn::PitchUp.axis(), Axis::DirectionCrossUp);
    assert_eq!(Turn::PitchDown.axis(), Axis::UpCrossDirection);
    assert_eq!(Turn::YawLeft.axis(), Axis::NegatedUp);
    assert_eq!(Turn::YawRight.axis(), Axis::Up);
    assert!(Turn::PitchUp.turns_up());
    assert!(Turn::PitchDown.turns_up());
    assert!(!Turn::YawLeft.turns_up());
    assert!(!Turn::YawRight.turns_up());
}

#[test]
fn movement_steps_follow_their_keys() {
    let table = [
        (Movement::Forward, Basis::Direction, false, false),
        (Movement::Backward, Basis::Direction, true, false),
        (Movement::StrafeLeft, Basis::Side, false, false),
        (Movement::StrafeRight, Basis::Side, true, false),
        (Movement::Rise, Basis::Up, false, true),
        (Movement::Sink, Basis::Up, true, false),
    ];
    for (step, basis, reversed, lifts) in table {
        assert_eq!(step.basis(), basis);
        assert_eq!(step.reversed(), reversed);
        assert_eq!(step.lifts(), lifts);
    }
}
