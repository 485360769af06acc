//! Key events read from the compositor's event socket.
//!
//! The compositor writes one event per line; a key binding posts
//! `custom>>femtanyl:<direction>:<action>`, where the direction names a
//! movement animation and the action is `down` for a press or `up` for a
//! release.

use vstd::prelude::*;

use crate::animation::{animation_name, Animation};
use crate::text::{chars_of, same_text};

verus! {

/// A press or release of the key for an animation.
#[derive(Clone, Copy, Debug, PartialEq, Eq, Structural)]
pub struct InputEvent {
    pub animation: Animation,
    pub pressed: bool,
}

/// The text that starts every key event line.
pub open spec fn event_prefix() -> Seq<char> {
    seq!['c', 'u', 's', 't', 'o', 'm', '>', '>', 'f', 'e', 'm', 't', 'a', 'n', 'y', 'l', ':']
}

/// The movement animation that a direction names; `idle` is no direction.
pub open spec fn direction_animation(direction: Seq<char>) -> Option<Animation> {
    if direction == animation_name(Animation::Up) {
        Some(Animation::Up)
    } else if direction == animation_name(Animation::Left) {
        Some(Animation::Left)
    } else if direction == animation_name(Animation::Down) {
        Some(Animation::Down)
    } else if direction == animation_name(Animation::Right) {
        Some(Animation::Right)
    } else {
        None
    }
}

/// The position of the first `:` in `s`, if there is one.
pub open spec fn first_colon(s: Seq<char>) -> Option<int>
    decreases s.len(),
{
    if s.len() == 0 {
        None
    } else if s[0] == ':' {
        Some(0)
    } else {
        match first_colon(s.drop_first()) {
            Some(k) => Some(k + 1),
            None => None,
        }
    }
}

/// The animation and action that an event line carries: the line starts
/// with the event prefix, the rest splits at its first `:` into a direction
/// that names a movement animation and the action after it.
pub open spec fn line_event(line: Seq<char>) -> Option<(Animation, Seq<char>)> {
    let p = event_prefix().len();
    if line.len() >= p && line.take(p as int) == event_prefix() {
        let rest = line.skip(p as int);
        match first_colon(rest) {
            Some(k) => match direction_animation(rest.take(k)) {
                Some(animation) => Some((animation, rest.skip(k + 1))),
                None => None,
            },
            None => None,
        }
    } else {
        None
    }
}

/// The movement animation that `direction` names, if any.
pub fn animation_for_event(direction: &str) -> (animation: Option<Animation>)
    ensures
        animation == direction_animation(direction@),
{
    let text = chars_of(direction);
    let up = chars_of(Animation::Up.name());
    let left = chars_of(Animation::Left.name());
    let down = chars_of(Animation::Down.name());
    let right = chars_of(Animation::Right.name());
    if same_text(&text, &up) {
        Some(Animation::Up)
    } else if same_text(&text, &left) {
        Some(Animation::Left)
    } else if same_text(&text, &down) {
        Some(Animation::Down)
    } else if same_text(&text, &right) {
        Some(Animation::Right)
    } else {
        None
    }
}

/// Finds the first `:` in `s` at or after `from`.
fn find_colon(s: &Vec<char>, from: usize) -> (found: Option<usize>)
    requires
        from <= s.len(),
    ensures
        match first_colon(s@.skip(from as int)) {
            Some(k) => 0 <= k && from + k < s.len() && found == Some((from + k) as usize),
            None => found is None,
        },
        match found {
            Some(k) => from <= k < s.len() && s@[k as int] == ':',
            None => true,
        },
{
    let mut i: usize = s.len();
    let mut found: Option<usize> = None;
    // scan backwards so that the earliest colon is the one remembered
    while i > from
        invariant
            from <= i <= s.len(),
            match first_colon(s@.skip(i as int)) {
                Some(k) => found == Some((i + k) as usize),
                None => found is None,
            },
        decreases i - from,
    {
        i = i - 1;
        assert(s@.skip(i as int).drop_first() =~= s@.skip(i + 1));
        if s[i] == ':' {
            found = Some(i);
        }
    }
    proof {
        lemma_first_colon(s@.skip(from as int));
    }
    found
}

/// `first_colon` finds a colon, and the first one.
proof fn lemma_first_colon(s: Seq<char>)
    ensures
        match first_colon(s) {
            Some(k) => 0 <= k < s.len() && s[k] == ':' && forall|j: int| 0 <= j < k ==> s[j] != ':',
            None => forall|j: int| 0 <= j < s.len() ==> s[j] != ':',
        },
    decreases s.len(),
{
    if s.len() > 0 {
        lemma_first_colon(s.drop_first());
        if s[0] != ':' {
            assert forall|j: int| 0 < j < s.len() implies s[j] == s.drop_first()[j - 1] by {}
        }
    }
}

/// Splits a compositor event line into the animation it moves and its
/// action; `None` for lines that are not key events for a movement.
pub fn parse_event(line: &str) -> (event: Option<(Animation, &str)>)
    ensures
        match event {
            Some((animation, action)) => line_event(line@) == Some((animation, action@)),
            None => line_event(line@) is None,
        },
{
    let text = chars_of(line);
    proof {
        reveal_strlit("custom>>femtanyl:");
    }
    let prefix = chars_of("custom>>femtanyl:");
    assert(prefix@ =~= event_prefix());
    let p = prefix.len();
    assert(p == event_prefix().len());
    if text.len() < p {
        assert(line@.len() < event_prefix().len());
        return None;
    }
    let mut i: usize = 0;
    while i < p
        invariant
            i <= p,
            p == prefix.len(),
            p <= text.len(),
            prefix@ == event_prefix(),
            text@ == line@,
            forall|j: int| 0 <= j < i ==> text@[j] == prefix@[j],
        decreases p - i,
    {
        if text[i] != prefix[i] {
            assert(text@.take(p as int)[i as int] != event_prefix()[i as int]);
            return None;
        }
        i = i + 1;
    }
    assert(text@.take(p as int) =~= event_prefix());
    let ghost rest = text@.skip(p as int);
    assert(p == event_prefix().len());
    let colon = match find_colon(&text, p) {
        Some(k) => k,
        None => {
            assert(first_colon(rest) is None);
            return None;
        },
    };
    assert(first_colon(rest) == Some(colon - p));
    assert(rest.take(colon - p) =~= text@.subrange(p as int, colon as int));
    assert(rest.skip(colon - p + 1) =~= text@.subrange(colon + 1, text@.len() as int));
    let direction = line.substring_char(p, colon);
    assert(direction@ == rest.take(colon - p));
    match animation_for_event(direction) {
        Some(animation) => {
            let action = line.substring_char(colon + 1, text.len());
            Some((animation, action))
        },
        None => None,
    }
}

/// What the event reader does with one line of the compositor's stream.
#[derive(Debug, PartialEq, Eq)]
pub enum LineDecision {
    /// The line is no key event for a movement.
    Ignore,
    /// A key event whose action is neither `down` nor `up`; it is reported
    /// and skipped.
    UnknownAction(String),
    /// A press or release to hand to the animation state.
    Event(InputEvent),
}

/// The press (`down`) or release (`up`) that an action names.
pub open spec fn action_pressed(action: Seq<char>) -> Option<bool> {
    if action == seq!['d', 'o', 'w', 'n'] {
        Some(true)
    } else if action == seq!['u', 'p'] {
        Some(false)
    } else {
        None
    }
}

/// Decides what to do with one line of the compositor's event stream.
pub fn decide_line(line: &str) -> (decision: LineDecision)
    ensures
        match line_event(line@) {
            None => decision == LineDecision::Ignore,
            Some((animation, action)) => match action_pressed(action) {
                Some(pressed) => decision == LineDecision::Event(
                    InputEvent { animation, pressed },
                ),
                None => decision matches LineDecision::UnknownAction(text) && text@ == action,
            },
        },
{
    match parse_event(line) {
        None => LineDecision::Ignore,
        Some((animation, action)) => {
            let text = chars_of(action);
            proof {
                reveal_strlit("down");
                reveal_strlit("up");
            }
            let down = chars_of("down");
            let up = chars_of("up");
            assert(down@ =~= seq!['d', 'o', 'w', 'n']);
            assert(up@ =~= seq!['u', 'p']);
            if same_text(&text, &down) {
                LineDecision::Event(InputEvent { animation, pressed: true })
            } else if same_text(&text, &up) {
                LineDecision::Event(InputEvent { animation, pressed: false })
            } else {
                LineDecision::UnknownAction(action.to_owned())
            }
        },
    }
}

/// A direction names exactly the movement animation whose name it is; the
/// idle animation is named by no direction.
pub proof fn lemma_direction_names_animation(a: Animation)
    ensures
        a != Animation::Idle ==> direction_animation(animation_name(a)) == Some(a),
        a == Animation::Idle ==> direction_animation(animation_name(a)) is None,
{
    let up = animation_name(Animation::Up);
    let left = animation_name(Animation::Left);
    let down = animation_name(Animation::Down);
    let right = animation_name(Animation::Right);
    let idle = animation_name(Animation::Idle);
    assert(left != up) by { assert(left.len() != up.len()); }
    assert(down != up) by { assert(down.len() != up.len()); }
    assert(down != left) by { assert(down[0] != left[0]); }
    assert(right != up) by { assert(right.len() != up.len()); }
    assert(right != left) by { assert(right.len() != left.len()); }
    assert(right != down) by { assert(right.len() != down.len()); }
    assert(idle != up) by { assert(idle.len() != up.len()); }
    assert(idle != left) by { assert(idle[0] != left[0]); }
    assert(idle != down) by { assert(idle[0] != down[0]); }
    assert(idle != right) by { assert(idle.len() != right.len()); }
}

/// The line that a key binding posts for a movement animation and an
/// action reads back as that animation and action, whatever the action
/// holds.
pub proof fn lemma_event_line_round_trip(a: Animation, action: Seq<char>)
    requires
        a != Animation::Idle,
    ensures
        line_event(event_prefix() + animation_name(a) + seq![':'] + action) == Some((a, action)),
{
    let name = animation_name(a);
    let line = event_prefix() + name + seq![':'] + action;
    let p = event_prefix().len();
    assert(line.take(p as int) =~= event_prefix());
    let rest = line.skip(p as int);
    assert(rest =~= name + seq![':'] + action);
    lemma_first_colon_after_name(name, action);
    assert(rest.take(name.len() as int) =~= name);
    assert(rest.skip(name.len() as int + 1) =~= action);
    lemma_direction_names_animation(a);
}

/// Behind an animation name, which holds no colon, the first colon is the
/// one that follows it.
proof fn lemma_first_colon_after_name(name: Seq<char>, action: Seq<char>)
    requires
        forall|j: int| 0 <= j < name.len() ==> name[j] != ':',
    ensures
        first_colon(name + seq![':'] + action) == Some(name.len() as int),
    decreases name.len(),
{
    let s = name + seq![':'] + action;
    if name.len() == 0 {
        assert(s[0] == ':');
    } else {
        assert(s[0] == name[0]);
        assert(s.drop_first() =~= name.drop_first() + seq![':'] + action);
        lemma_first_colon_after_name(name.drop_first(), action);
    }
}

} // verus!
