use pocket_femtanyl::animation::{Animation, AnimationState};

#[test]
fn starts_idle() {
    let state = AnimationState::new();
    assert_eq!(state.active(), Animation::Idle);
    assert!(state.held().is_empty());
    let state = AnimationState::default();
    assert_eq!(state.active(), Animation::Idle);
}

#[test]
fn names_match_the_atlas() {
    let names: Vec<&str> = Animation::ALL.iter().map(|a| a.name()).collect();
    assert_eq!(names, vec!["idle", "left", "down", "up", "right"]);
}

#[test]
fn latest_press_wins_and_release_falls_back() {
    let mut state = AnimationState::new();
    assert!(state.set_pressed(Animation::Left, true));
    assert_eq!(state.active(), Animation::Left);
    assert!(state.set_pressed(Animation::Up, true));
    assert_eq!(state.active(), Animation::Up);
    assert_eq!(state.held(), &[Animation::Left, Animation::Up]);
    assert!(state.set_pressed(Animation::Up, false));
    assert_eq!(state.active(), Animation::Left);
    assert!(state.set_pressed(Animation::Left, false));
    assert_eq!(state.active(), Animation::Idle);
    assert!(state.held().is_empty());
}

#[test]
fn repeated_press_changes_nothing() {
    let mut state = AnimationState::new();
    state.set_pressed(Animation::Left, true);
    state.set_pressed(Animation::Down, true);
    assert!(!state.set_pressed(Animation::Left, true));
    assert_eq!(state.held(), &[Animation::Left, Animation::Down]);
    assert_eq!(state.active(), Animation::Down);
}

#[test]
fn releasing_an_older_key_keeps_the_active_one() {
    let mut state = AnimationState::new();
    state.set_pressed(Animation::Left, true);
    state.set_pressed(Animation::Right, true);
    assert!(!state.set_pressed(Animation::Left, false));
    assert_eq!(state.active(), Animation::Right);
    assert_eq!(state.held(), &[Animation::Right]);
}

#[test]
fn releasing_an_unheld_key_changes_nothing() {
    let mut state = AnimationState::new();
    assert!(!state.set_pressed(Animation::Down, false));
    assert_eq!(state.active(), Animation::Idle);
    state.set_pressed(Animation::Up, true);
    assert!(!state.set_pressed(Animation::Down, false));
    assert_eq!(state.held(), &[Animation::Up]);
}

#[test]
fn press_then_release_restores() {
    let mut state = AnimationState::new();
    state.set_pressed(Animation::Left, true);
    state.set_pressed(Animation::Down, true);
    let before_active = state.active();
    let before_held = state.held().to_vec();
    state.set_pressed(Animation::Up, true);
    state.set_pressed(Animation::Up, false);
    assert_eq!(state.active(), before_active);
    assert_eq!(state.held(), before_held.as_slice());
}
