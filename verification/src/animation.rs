//! The animations of the sprite and the state that picks the active one.

use vstd::prelude::*;

verus! {

/// One of the sprite's animations.
#[derive(Clone, Copy, Debug, PartialEq, Eq, Structural)]
pub enum Animation {
    Idle,
    Left,
    Down,
    Up,
    Right,
}

/// The name an animation has in the spritesheet atlas.
pub open spec fn animation_name(animation: Animation) -> Seq<char> {
    match animation {
        Animation::Idle => seq!['i', 'd', 'l', 'e'],
        Animation::Left => seq!['l', 'e', 'f', 't'],
        Animation::Down => seq!['d', 'o', 'w', 'n'],
        Animation::Up => seq!['u', 'p'],
        Animation::Right => seq!['r', 'i', 'g', 'h', 't'],
    }
}

impl Animation {
    /// Every animation, in the order in which their frames are prepared.
    pub const ALL: [Animation; 5] = [
        Animation::Idle,
        Animation::Left,
        Animation::Down,
        Animation::Up,
        Animation::Right,
    ];

    /// The animation's name in the spritesheet atlas.
    pub fn name(self) -> (name: &'static str)
        ensures
            name@ == animation_name(self),
    {
        match self {
            Animation::Idle => {
                proof { reveal_strlit("idle"); }
                "idle"
            },
            Animation::Left => {
                proof { reveal_strlit("left"); }
                "left"
            },
            Animation::Down => {
                proof { reveal_strlit("down"); }
                "down"
            },
            Animation::Up => {
                proof { reveal_strlit("up"); }
                "up"
            },
            Animation::Right => {
                proof { reveal_strlit("right"); }
                "right"
            },
        }
    }
}

/// The abstract state of the animation picker: the animation on screen and
/// the keys held down, oldest first.
pub struct AnimationStateView {
    pub active: Animation,
    pub held: Seq<Animation>,
}

/// `s` with every occurrence of `a` taken out, the rest in order.
pub open spec fn without(s: Seq<Animation>, a: Animation) -> Seq<Animation>
    decreases s.len(),
{
    if s.len() == 0 {
        s
    } else if s.last() == a {
        without(s.drop_last(), a)
    } else {
        without(s.drop_last(), a).push(s.last())
    }
}

/// The held keys after `a` is pressed (`pressed`) or released: a press adds a
/// key not yet held at the end, a release takes it out.
pub open spec fn held_after(held: Seq<Animation>, a: Animation, pressed: bool) -> Seq<Animation> {
    if pressed {
        if held.contains(a) {
            held
        } else {
            held.push(a)
        }
    } else {
        without(held, a)
    }
}

/// The animation shown for a list of held keys: the most recently pressed
/// one, or `Idle` when none is held.
pub open spec fn leading(held: Seq<Animation>) -> Animation {
    if held.len() == 0 {
        Animation::Idle
    } else {
        held.last()
    }
}

impl AnimationStateView {
    /// No key is held twice, and the active animation is the one that the
    /// held keys call for.
    pub open spec fn consistent(self) -> bool {
        &&& self.held.no_duplicates()
        &&& self.active == leading(self.held)
    }

    /// The state after a key event for `a`.
    pub open spec fn after_key(self, a: Animation, pressed: bool) -> AnimationStateView {
        let held = held_after(self.held, a, pressed);
        AnimationStateView { active: leading(held), held }
    }
}

/// Which animation plays, from the keys that are held.
pub struct AnimationState {
    active: Animation,
    pressed: Vec<Animation>,
}

impl View for AnimationState {
    type V = AnimationStateView;

    closed spec fn view(&self) -> AnimationStateView {
        AnimationStateView { active: self.active, held: self.pressed@ }
    }
}

impl AnimationState {
    #[verifier::type_invariant]
    spec fn well_formed(self) -> bool {
        self@.consistent()
    }

    /// The idle state, with no key held.
    pub fn new() -> (state: Self)
        ensures
            state@.active == Animation::Idle,
            state@.held == Seq::<Animation>::empty(),
            state@.consistent(),
    {
        AnimationState { active: Animation::Idle, pressed: Vec::new() }
    }

    /// The animation on screen.
    pub fn active(&self) -> (active: Animation)
        ensures
            active == self@.active,
    {
        self.active
    }

    /// The keys held down, oldest first.
    pub fn held(&self) -> (held: &[Animation])
        ensures
            held@ == self@.held,
    {
        self.pressed.as_slice()
    }

    /// Records a press (`pressed`) or release of the key for `animation` and
    /// makes the most recently pressed held key the active animation, or
    /// `Idle` when none is held. Returns whether the active animation
    /// changed, in which case it plays from its first frame.
    pub fn set_pressed(&mut self, animation: Animation, pressed: bool) -> (restarted: bool)
        ensures
            final(self)@ == old(self)@.after_key(animation, pressed),
            final(self)@.consistent(),
            restarted == (final(self)@.active != old(self)@.active),
            !pressed ==> final(self)@.held == old(self)@.held.filter(|x: Animation| x != animation),
    {
        proof {
            use_type_invariant(&*self);
        }
        let mut current = AnimationState::new();
        std::mem::swap(self, &mut current);
        proof {
            use_type_invariant(&current);
        }
        let AnimationState { active, pressed: mut held } = current;
        let ghost before = held@;
        if pressed {
            if !contains(&held, animation) {
                held.push(animation);
                proof {
                    lemma_push_distinct(before, animation);
                }
            }
        } else {
            remove_all(&mut held, animation);
            proof {
                lemma_without_keeps_distinct(before, animation);
                lemma_release_keeps_press_order(before, animation);
            }
        }
        let next = if held.len() == 0 {
            Animation::Idle
        } else {
            held[held.len() - 1]
        };
        *self = AnimationState { active: next, pressed: held };
        next != active
    }
}

impl Default for AnimationState {
    fn default() -> (state: Self)
        ensures
            state@.active == Animation::Idle,
            state@.held == Seq::<Animation>::empty(),
    {
        AnimationState::new()
    }
}

/// Every key event keeps the state consistent: no key is held twice and the
/// active animation is the most recently pressed held key, or `Idle`.
pub proof fn lemma_key_event_keeps_consistent(v: AnimationStateView, a: Animation, pressed: bool)
    requires
        v.consistent(),
    ensures
        v.after_key(a, pressed).consistent(),
{
    if pressed {
        if !v.held.contains(a) {
            lemma_push_distinct(v.held, a);
        }
    } else {
        lemma_without_keeps_distinct(v.held, a);
    }
}

/// Pressing a key that is already held changes nothing.
pub proof fn lemma_press_held_key_changes_nothing(v: AnimationStateView, a: Animation)
    requires
        v.consistent(),
        v.held.contains(a),
    ensures
        v.after_key(a, true) == v,
{
}

/// Releasing a key that is not held changes nothing.
pub proof fn lemma_release_unheld_key_changes_nothing(v: AnimationStateView, a: Animation)
    requires
        v.consistent(),
        !v.held.contains(a),
    ensures
        v.after_key(a, false) == v,
{
    lemma_without_absent(v.held, a);
}

/// Pressing a key that is not held and releasing it again gives back the
/// state from before the press.
pub proof fn lemma_press_then_release_restores(v: AnimationStateView, a: Animation)
    requires
        v.consistent(),
        !v.held.contains(a),
    ensures
        v.after_key(a, true).after_key(a, false) == v,
{
    lemma_without_absent(v.held, a);
    assert(v.held.push(a).drop_last() == v.held);
}

/// A press of a key that is not held makes its animation the active one.
pub proof fn lemma_press_activates(v: AnimationStateView, a: Animation)
    requires
        !v.held.contains(a),
    ensures
        v.after_key(a, true).active == a,
        v.after_key(a, true).held.contains(a),
{
    assert(v.held.push(a)[v.held.len() as int] == a);
}

/// Releasing a key takes out that key alone and keeps the other held keys
/// in the order they were pressed: the held keys are the old ones without
/// the released one.
pub proof fn lemma_release_keeps_press_order(held: Seq<Animation>, a: Animation)
    ensures
        without(held, a) == held.filter(|x: Animation| x != a),
    decreases held.len(),
{
    reveal_with_fuel(Seq::<Animation>::filter, 1);
    if held.len() > 0 {
        lemma_release_keeps_press_order(held.drop_last(), a);
    }
}

/// Releasing a held key that was not the most recently pressed one keeps
/// the active animation and starts nothing anew.
pub proof fn lemma_release_of_older_key_keeps_active(v: AnimationStateView, a: Animation)
    requires
        v.consistent(),
        v.held.len() > 0,
        v.held.last() != a,
    ensures
        v.after_key(a, false).active == v.active,
        v.after_key(a, false).held.len() > 0,
        v.after_key(a, false).held.last() == v.held.last(),
{
    lemma_release_keeps_press_order(v.held, a);
    reveal_with_fuel(Seq::<Animation>::filter, 1);
    let f = |x: Animation| x != a;
    assert(v.held.filter(f) == v.held.drop_last().filter(f).push(v.held.last()));
}

/// After a release the key is no longer held, and its animation stays
/// active only if it is `Idle` with nothing held.
pub proof fn lemma_release_deactivates(v: AnimationStateView, a: Animation)
    ensures
        !v.after_key(a, false).held.contains(a),
        v.after_key(a, false).active == a ==> a == Animation::Idle && v.after_key(a, false).held.len() == 0,
{
    lemma_without_members(v.held, a);
    let h = without(v.held, a);
    if h.len() > 0 {
        assert(h.contains(h.last()));
    }
}

/// Taking out a value that does not occur leaves the list as it was.
proof fn lemma_without_absent(s: Seq<Animation>, a: Animation)
    requires
        !s.contains(a),
    ensures
        without(s, a) == s,
    decreases s.len(),
{
    if s.len() > 0 {
        let d = s.drop_last();
        assert(!d.contains(a)) by {
            if d.contains(a) {
                let k = choose|k: int| 0 <= k < d.len() && d[k] == a;
                assert(s[k] == a);
            }
        }
        assert(s.last() != a) by {
            assert(s[s.len() - 1] == s.last());
        }
        lemma_without_absent(d, a);
        assert(d.push(s.last()) == s);
    }
}

fn contains(held: &Vec<Animation>, a: Animation) -> (found: bool)
    ensures
        found == held@.contains(a),
{
    let mut i: usize = 0;
    while i < held.len()
        invariant
            i <= held.len(),
            forall|j: int| 0 <= j < i ==> held@[j] != a,
        decreases held.len() - i,
    {
        if held[i] == a {
            return true;
        }
        i = i + 1;
    }
    false
}

fn remove_all(held: &mut Vec<Animation>, a: Animation)
    ensures
        final(held)@ == without(old(held)@, a),
{
    let mut kept: Vec<Animation> = Vec::new();
    let mut i: usize = 0;
    while i < held.len()
        invariant
            i <= held.len(),
            kept@ == without(held@.take(i as int), a),
        decreases held.len() - i,
    {
        assert(held@.take(i as int + 1).drop_last() == held@.take(i as int));
        if held[i] != a {
            kept.push(held[i]);
        }
        i = i + 1;
    }
    assert(held@.take(held.len() as int) == held@);
    *held = kept;
}

/// Every element of `without(s, a)` is an element of `s` other than `a`.
proof fn lemma_without_members(s: Seq<Animation>, a: Animation)
    ensures
        forall|x: Animation| #[trigger] without(s, a).contains(x) <==> (s.contains(x) && x != a),
    decreases s.len(),
{
    if s.len() > 0 {
        let d = s.drop_last();
        lemma_without_members(d, a);
        assert(s == d.push(s.last()));
        assert forall|x: Animation| #[trigger] without(s, a).contains(x) <==> (s.contains(x) && x
            != a) by {
            vstd::seq_lib::lemma_seq_contains_after_push(d, s.last(), x);
            vstd::seq_lib::lemma_seq_contains_after_push(without(d, a), s.last(), x);
        }
    }
}

/// `s.push(x)` is free of duplicates when `s` is and does not hold `x`.
proof fn lemma_push_distinct(s: Seq<Animation>, x: Animation)
    requires
        s.no_duplicates(),
        !s.contains(x),
    ensures
        s.push(x).no_duplicates(),
{
    assert forall|i: int, j: int|
        0 <= i < s.push(x).len() && 0 <= j < s.push(x).len() && i != j implies s.push(x)[i]
        != s.push(x)[j] by {
        if i == s.len() {
            assert(s.contains(s[j]));
        } else if j == s.len() {
            assert(s.contains(s[i]));
        }
    }
}

/// Taking a value out keeps a list free of duplicates.
proof fn lemma_without_keeps_distinct(s: Seq<Animation>, a: Animation)
    requires
        s.no_duplicates(),
    ensures
        without(s, a).no_duplicates(),
    decreases s.len(),
{
    if s.len() > 0 {
        let d = s.drop_last();
        assert(d.no_duplicates());
        lemma_without_keeps_distinct(d, a);
        lemma_without_members(d, a);
        if s.last() != a {
            assert(!d.contains(s.last())) by {
                if d.contains(s.last()) {
                    let k = choose|k: int| 0 <= k < d.len() && d[k] == s.last();
                    assert(s[k] == s[s.len() - 1]);
                }
            }
            lemma_push_distinct(without(d, a), s.last());
        }
    }
}

} // verus!
