use pocket_femtanyl::animation::Animation;
use pocket_femtanyl::input::{animation_for_event, decide_line, parse_event, InputEvent, LineDecision};

#[test]
fn parses_movement_events() {
    assert_eq!(
        parse_event("custom>>femtanyl:up:down"),
        Some((Animation::Up, "down"))
    );
    assert_eq!(
        parse_event("custom>>femtanyl:right:up"),
        Some((Animation::Right, "up"))
    );
    assert_eq!(parse_event("custom>>femtanyl:unknown:down"), None);
}

#[test]
fn directions_name_movement_animations() {
    assert_eq!(animation_for_event("up"), Some(Animation::Up));
    assert_eq!(animation_for_event("left"), Some(Animation::Left));
    assert_eq!(animation_for_event("down"), Some(Animation::Down));
    assert_eq!(animation_for_event("right"), Some(Animation::Right));
    assert_eq!(animation_for_event("idle"), None);
    assert_eq!(animation_for_event("Up"), None);
    assert_eq!(animation_for_event(""), None);
}

#[test]
fn event_lines_need_the_prefix_and_a_colon() {
    assert_eq!(parse_event(""), None);
    assert_eq!(parse_event("custom>>femtanyl:"), None);
    assert_eq!(parse_event("custom>>femtanyl:left"), None);
    assert_eq!(parse_event("custom>>other:left:down"), None);
    assert_eq!(parse_event("workspace>>2"), None);
    assert_eq!(parse_event("xcustom>>femtanyl:left:down"), None);
    assert_eq!(parse_event("custom>>femtanyl:left:"), Some((Animation::Left, "")));
}

#[test]
fn action_keeps_everything_after_the_first_colon() {
    assert_eq!(
        parse_event("custom>>femtanyl:down:a:b"),
        Some((Animation::Down, "a:b"))
    );
    assert_eq!(
        parse_event("custom>>femtanyl:down:héllo"),
        Some((Animation::Down, "héllo"))
    );
}

#[test]
fn lines_become_decisions() {
    assert_eq!(
        decide_line("custom>>femtanyl:left:down"),
        LineDecision::Event(InputEvent { animation: Animation::Left, pressed: true })
    );
    assert_eq!(
        decide_line("custom>>femtanyl:right:up"),
        LineDecision::Event(InputEvent { animation: Animation::Right, pressed: false })
    );
    assert_eq!(
        decide_line("custom>>femtanyl:up:hold"),
        LineDecision::UnknownAction("hold".to_string())
    );
    assert_eq!(decide_line("activewindow>>kitty,kitty"), LineDecision::Ignore);
    assert_eq!(decide_line("custom>>femtanyl:idle:down"), LineDecision::Ignore);
}

#[test]
fn round_trip_of_posted_lines() {
    for animation in [Animation::Left, Animation::Down, Animation::Up, Animation::Right] {
        let line = format!("custom>>femtanyl:{}:down", animation.name());
        assert_eq!(parse_event(&line), Some((animation, "down")));
    }
}
