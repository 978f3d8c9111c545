//! Keyboard input.
use vstd::prelude::*;

verus! {

/// The keys a game can ask about.
///
/// The engine has its own `Key` type instead of re-using the window library's,
/// so games never depend on which window library the engine uses.
#[derive(Debug, Clone, Copy, PartialEq, Eq, Hash, Structural)]
pub enum Key {
    Left,
    Right,
    Up,
    Down,
    A,
    B,
    C,
    D,
    E,
    F,
    G,
    H,
    I,
    J,
    K,
    L,
    M,
    N,
    O,
    P,
    Q,
    R,
    S,
    T,
    U,
    V,
    W,
    X,
    Y,
    Z,
    Digit0,
    Digit1,
    Digit2,
    Digit3,
    Digit4,
    Digit5,
    Digit6,
    Digit7,
    Digit8,
    Digit9,
    Space,
    Enter,
    Escape,
    Tab,
    Backspace,
    LeftShift,
    RightShift,
    LeftCtrl,
    RightCtrl,
    LeftAlt,
    RightAlt,
    F1,
    F2,
    F3,
    F4,
    F5,
    F6,
    F7,
    F8,
    F9,
    F10,
    F11,
    F12,
}

/// What the keyboard looks like to a game: the keys held this frame, and
/// the keys that were held in the frame before.
pub struct KeyState {
    pub held: Set<Key>,
    pub held_last_frame: Set<Key>,
}

/// The key state after a new frame in which exactly `keys_down` are held:
/// this frame's keys become last frame's.
pub open spec fn next_frame(state: KeyState, keys_down: Seq<Key>) -> KeyState {
    KeyState { held: keys_down.to_set(), held_last_frame: state.held }
}

/// Was `key` pressed in this frame: held now, but not in the frame before?
pub open spec fn pressed(state: KeyState, key: Key) -> bool {
    state.held.contains(key) && !state.held_last_frame.contains(key)
}

/// Was `key` let go in this frame: not held now, but held in the frame before?
pub open spec fn released(state: KeyState, key: Key) -> bool {
    !state.held.contains(key) && state.held_last_frame.contains(key)
}

/// Which keys are held down, and which changed since the last frame.
#[derive(Debug)]
pub struct Input {
    down: Vec<Key>,
    down_last_frame: Vec<Key>,
}

impl View for Input {
    type V = KeyState;

    closed spec fn view(&self) -> KeyState {
        KeyState { held: self.down@.to_set(), held_last_frame: self.down_last_frame@.to_set() }
    }
}

/// Is `key` in `keys`?
fn contains_key(keys: &Vec<Key>, key: Key) -> (found: bool)
    ensures
        found == keys@.contains(key),
{
    let mut i: usize = 0;
    while i < keys.len()
        invariant
            i <= keys.len(),
            forall|j: int| 0 <= j < i ==> keys@[j] != key,
        decreases keys.len() - i,
    {
        if keys[i] == key {
            return true;
        }
        i += 1;
    }
    false
}

impl Default for Input {
    fn default() -> (input: Self)
        ensures
            input@.held == Set::<Key>::empty(),
            input@.held_last_frame == Set::<Key>::empty(),
    {
        Input::new()
    }
}

impl Input {
    /// Each key is listed at most once, in either list.
    #[verifier::type_invariant]
    spec fn each_key_once(self) -> bool {
        self.down@.no_duplicates() && self.down_last_frame@.no_duplicates()
    }

    /// No key held, now or before.
    pub fn new() -> (input: Self)
        ensures
            input@.held == Set::<Key>::empty(),
            input@.held_last_frame == Set::<Key>::empty(),
    {
        let input = Input { down: Vec::new(), down_last_frame: Vec::new() };
        assert(input.down@.to_set() =~= Set::<Key>::empty());
        assert(input.down_last_frame@.to_set() =~= Set::<Key>::empty());
        input
    }

    /// Called by the engine once per frame with every key that is currently held.
    pub fn begin_frame(&mut self, keys_down: &[Key])
        ensures
            final(self)@ == next_frame(old(self)@, keys_down@),
    {
        proof {
            use_type_invariant(&*self);
        }
        let mut held: Vec<Key> = Vec::new();
        let mut i: usize = 0;
        while i < keys_down.len()
            invariant
                i <= keys_down.len(),
                held@.no_duplicates(),
                held@.to_set() == keys_down@.subrange(0, i as int).to_set(),
            decreases keys_down.len() - i,
        {
            let key = keys_down[i];
            let ghost before = held@;
            if !contains_key(&held, key) {
                held.push(key);
                proof {
                    before.lemma_push_to_set_commute(key);
                }
            } else {
                assert(before.to_set().insert(key) =~= before.to_set());
            }
            proof {
                let prefix = keys_down@.subrange(0, i as int);
                assert(keys_down@.subrange(0, i + 1) =~= prefix.push(key));
                prefix.lemma_push_to_set_commute(key);
            }
            i += 1;
        }
        assert(keys_down@.subrange(0, keys_down.len() as int) =~= keys_down@);
        // Last frame's "down" becomes this frame's "down_last_frame".
        std::mem::swap(&mut self.down, &mut held);
        self.down_last_frame = held;
    }

    /// Is the key held down right now? True on every frame while it is held.
    /// Good for continuous actions like movement.
    pub fn is_down(&self, key: Key) -> (b: bool)
        ensures
            b == self@.held.contains(key),
    {
        contains_key(&self.down, key)
    }

    /// Was the key pressed *this* frame? True for exactly one frame per press.
    /// Good for one-shot actions like jumping, shooting or opening a menu.
    pub fn was_pressed(&self, key: Key) -> (b: bool)
        ensures
            b == pressed(self@, key),
    {
        contains_key(&self.down, key) && !contains_key(&self.down_last_frame, key)
    }

    /// Was the key let go this frame?
    pub fn was_released(&self, key: Key) -> (b: bool)
        ensures
            b == released(self@, key),
    {
        !contains_key(&self.down, key) && contains_key(&self.down_last_frame, key)
    }
}

/// A key held in two frames in a row counts as pressed only in the first:
/// pressing is true for exactly one frame per press.
pub proof fn law_pressed_for_one_frame_only(state: KeyState, first: Seq<Key>, second: Seq<Key>, key: Key)
    requires
        first.contains(key),
    ensures
        !state.held.contains(key) ==> pressed(next_frame(state, first), key),
        second.contains(key) ==> !pressed(next_frame(next_frame(state, first), second), key),
{
}

/// A key held in one frame and not in the next is released in the next, and
/// only there.
pub proof fn law_released_after_letting_go(state: KeyState, first: Seq<Key>, second: Seq<Key>, third: Seq<Key>, key: Key)
    requires
        first.contains(key),
        !second.contains(key),
        !third.contains(key),
    ensures
        released(next_frame(next_frame(state, first), second), key),
        !released(next_frame(next_frame(next_frame(state, first), second), third), key),
{
}

/// A key is never pressed and released in the same frame, and a pressed key is held.
pub proof fn law_pressed_excludes_released(state: KeyState, key: Key)
    ensures
        !(pressed(state, key) && released(state, key)),
        pressed(state, key) ==> state.held.contains(key),
{
}

} // verus!
