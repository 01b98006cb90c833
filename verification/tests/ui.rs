use plurtfm::ui::{on_click, on_key, steps, ClickAction, CurrentStep, KeyAction};

fn key(s: &str) -> Vec<char> {
    s.chars().collect()
}

#[test]
fn all_steps_in_order() {
    assert_eq!(
        steps().0,
        [CurrentStep::SelectPoly, CurrentStep::AssignVariants(0), CurrentStep::MakePath]
    );
}

#[test]
fn arrows_turn_the_camera_in_every_step() {
    for step in [CurrentStep::SelectPoly, CurrentStep::AssignVariants(2), CurrentStep::MakePath] {
        assert_eq!(on_key(step, &key("ArrowLeft")), (step, KeyAction::RotateLeft));
        assert_eq!(on_key(step, &key("ArrowRight")), (step, KeyAction::RotateRight));
        assert_eq!(on_key(step, &key("ArrowUp")), (step, KeyAction::RotateUp));
        assert_eq!(on_key(step, &key("ArrowDown")), (step, KeyAction::RotateDown));
    }
}

#[test]
fn enter_moves_through_the_steps() {
    let (s1, a1) = on_key(CurrentStep::SelectPoly, &key("Enter"));
    assert_eq!((s1, a1), (CurrentStep::AssignVariants(0), KeyAction::StepChanged));
    let (s2, a2) = on_key(CurrentStep::AssignVariants(3), &key("Enter"));
    assert_eq!((s2, a2), (CurrentStep::MakePath, KeyAction::StepChanged));
    assert_eq!(on_key(CurrentStep::MakePath, &key("Enter")), (CurrentStep::MakePath, KeyAction::CompletePath));
}

#[test]
fn space_and_backspace() {
    assert_eq!(on_key(CurrentStep::SelectPoly, &key(" ")), (CurrentStep::SelectPoly, KeyAction::NextPolyhedron));
    assert_eq!(on_key(CurrentStep::MakePath, &key(" ")), (CurrentStep::MakePath, KeyAction::Nothing));
    assert_eq!(on_key(CurrentStep::SelectPoly, &key("Backspace")), (CurrentStep::SelectPoly, KeyAction::PopPolyhedron));
    assert_eq!(on_key(CurrentStep::MakePath, &key("Backspace")), (CurrentStep::MakePath, KeyAction::PopPath));
    assert_eq!(
        on_key(CurrentStep::AssignVariants(1), &key("Backspace")),
        (CurrentStep::AssignVariants(1), KeyAction::Nothing)
    );
}

#[test]
fn digits_pick_a_variant_or_a_jump() {
    assert_eq!(
        on_key(CurrentStep::AssignVariants(0), &key("3")),
        (CurrentStep::AssignVariants(3), KeyAction::CurrentVariant(3))
    );
    assert_eq!(
        on_key(CurrentStep::AssignVariants(0), &key("45")),
        (CurrentStep::AssignVariants(45), KeyAction::CurrentVariant(45))
    );
    assert_eq!(on_key(CurrentStep::MakePath, &key("2")), (CurrentStep::MakePath, KeyAction::PathJump(2)));
    assert_eq!(
        on_key(CurrentStep::MakePath, &key("0123456789")),
        (CurrentStep::MakePath, KeyAction::PathJump(123456789))
    );
    assert_eq!(on_key(CurrentStep::SelectPoly, &key("7")), (CurrentStep::SelectPoly, KeyAction::Nothing));
    assert_eq!(on_key(CurrentStep::SelectPoly, &key("")), (CurrentStep::SelectPoly, KeyAction::Nothing));
}

#[test]
fn other_keys_do_nothing() {
    assert_eq!(on_key(CurrentStep::MakePath, &key("13")), (CurrentStep::MakePath, KeyAction::Nothing));
    assert_eq!(on_key(CurrentStep::MakePath, &key("a")), (CurrentStep::MakePath, KeyAction::Nothing));
    assert_eq!(on_key(CurrentStep::AssignVariants(2), &key("Escape")), (CurrentStep::AssignVariants(2), KeyAction::Nothing));
}

#[test]
fn clicks_per_step() {
    assert_eq!(on_click(CurrentStep::SelectPoly), ClickAction::Nothing);
    assert_eq!(on_click(CurrentStep::MakePath), ClickAction::AddToPath);
    assert_eq!(on_click(CurrentStep::AssignVariants(6)), ClickAction::SetVariant(6));
}
