use vstd::prelude::*;

verus! {

/// How many keys the keyboard state follows.
pub const KEY_COUNT: usize = 194;

/// How many mouse buttons the state follows.
pub const MOUSE_COUNT: usize = 5;

/// A mouse button.
#[derive(Debug, Clone, Copy, PartialEq, Eq, Structural)]
pub enum Mouse {
    Left,
    Right,
    Middle,
    Back,
    Forward,
    Other(u16),
}

/// The slot of mouse button `m`; any other button shares the left one's.
pub open spec fn mouse_slot(m: Mouse) -> int {
    match m {
        Mouse::Left => 0,
        Mouse::Right => 1,
        Mouse::Middle => 2,
        Mouse::Back => 3,
        Mouse::Forward => 4,
        Mouse::Other(_) => 0,
    }
}

/// The buttons, keys and window focus, now and at the last reset: mouse, mouse before, keys,
/// keys before, focus, focus before.
pub type InputState = (Seq<bool>, Seq<bool>, Seq<bool>, Seq<bool>, bool, bool);

/// Which mouse buttons and keys are held, and whether the window has focus, now and as of the
/// last frame.
pub struct Input {
    mouse: Vec<bool>,
    mouse_old: Vec<bool>,
    key: Vec<bool>,
    key_old: Vec<bool>,
    focus: bool,
    focus_old: bool,
}

impl View for Input {
    type V = InputState;

    closed spec fn view(&self) -> InputState {
        (self.mouse@, self.mouse_old@, self.key@, self.key_old@, self.focus, self.focus_old)
    }
}

/// `n` times `false`.
pub open spec fn all_up(n: nat) -> Seq<bool> {
    Seq::new(n, |_i: int| false)
}

/// The state is well formed: one flag per mouse button and per key.
pub open spec fn input_wf(s: InputState) -> bool {
    &&& s.0.len() == MOUSE_COUNT
    &&& s.1.len() == MOUSE_COUNT
    &&& s.2.len() == KEY_COUNT
    &&& s.3.len() == KEY_COUNT
}

/// `s` as of a new frame: what was held is what is held.
pub open spec fn input_reset(s: InputState) -> InputState {
    (s.0, s.0, s.2, s.2, s.4, s.4)
}

fn falses(n: usize) -> (v: Vec<bool>)
    ensures
        v@ == all_up(n as nat),
{
    let mut v: Vec<bool> = Vec::new();
    let mut i: usize = 0;
    while i < n
        invariant
            i <= n,
            v@ == all_up(i as nat),
        decreases n - i,
    {
        v.push(false);
        i = i + 1;
        assert(v@ =~= all_up(i as nat));
    }
    v
}

fn copy_flags(v: &Vec<bool>) -> (r: Vec<bool>)
    ensures
        r@ == v@,
{
    let mut r: Vec<bool> = Vec::new();
    let mut i: usize = 0;
    while i < v.len()
        invariant
            i <= v@.len(),
            r@ == v@.subrange(0, i as int),
        decreases v@.len() - i,
    {
        r.push(v[i]);
        i = i + 1;
        assert(r@ =~= v@.subrange(0, i as int));
    }
    assert(r@ =~= v@);
    r
}

impl Input {
    /// Nothing held, the window focused, and not focused before.
    pub fn new() -> (r: Self)
        ensures
            r@ == (all_up(MOUSE_COUNT as nat), all_up(MOUSE_COUNT as nat), all_up(KEY_COUNT as nat), all_up(KEY_COUNT as nat), true, false),
            input_wf(r@),
    {
        Input {
            mouse: falses(MOUSE_COUNT),
            mouse_old: falses(MOUSE_COUNT),
            key: falses(KEY_COUNT),
            key_old: falses(KEY_COUNT),
            focus: true,
            focus_old: false,
        }
    }

    /// The slot of mouse button `m`, as `mouse_slot` says.
    pub fn mouse_idx(m: Mouse) -> (r: usize)
        ensures
            r == mouse_slot(m),
            r < MOUSE_COUNT,
    {
        match m {
            Mouse::Left => 0,
            Mouse::Right => 1,
            Mouse::Middle => 2,
            Mouse::Back => 3,
            Mouse::Forward => 4,
            Mouse::Other(_) => 0,
        }
    }

    /// Starts a new frame: what is held now is what was held before.
    pub fn reset(&mut self)
        requires
            input_wf(old(self)@),
        ensures
            final(self)@ == input_reset(old(self)@),
            input_wf(final(self)@),
    {
        self.mouse_old = copy_flags(&self.mouse);
        self.key_old = copy_flags(&self.key);
        self.focus_old = self.focus;
    }

    /// Mouse button `m` went down (`pressed`) or up.
    pub fn mouse_event(&mut self, m: Mouse, pressed: bool)
        requires
            input_wf(old(self)@),
        ensures
            final(self)@ == (old(self)@.0.update(mouse_slot(m), pressed), old(self)@.1, old(self)@.2, old(self)@.3, old(self)@.4, old(self)@.5),
            input_wf(final(self)@),
    {
        let i = Self::mouse_idx(m);
        self.mouse.set(i, pressed);
    }

    /// Key `k` went down (`pressed`) or up.
    pub fn key_event(&mut self, k: usize, pressed: bool)
        requires
            input_wf(old(self)@),
            k < KEY_COUNT,
        ensures
            final(self)@ == (old(self)@.0, old(self)@.1, old(self)@.2.update(k as int, pressed), old(self)@.3, old(self)@.4, old(self)@.5),
            input_wf(final(self)@),
    {
        self.key.set(k, pressed);
    }

    /// The window gained (`focus`) or lost focus; losing it starts a new frame.
    pub fn focus_event(&mut self, focus: bool)
        requires
            input_wf(old(self)@),
        ensures
            ({
                let s = (old(self)@.0, old(self)@.1, old(self)@.2, old(self)@.3, focus, old(self)@.5);
                final(self)@ == if focus { s } else { input_reset(s) }
            }),
            input_wf(final(self)@),
    {
        self.focus = focus;
        if !focus {
            self.reset();
        }
    }

    /// Whether mouse button `m` went down since the last frame.
    pub fn mouse_pressed(&self, m: Mouse) -> (r: bool)
        requires
            input_wf(self@),
        ensures
            r == (!self@.1[mouse_slot(m)] && self@.0[mouse_slot(m)]),
    {
        let i = Self::mouse_idx(m);
        !self.mouse_old[i] && self.mouse[i]
    }

    /// Whether mouse button `m` went up since the last frame.
    pub fn mouse_released(&self, m: Mouse) -> (r: bool)
        requires
            input_wf(self@),
        ensures
            r == (self@.1[mouse_slot(m)] && !self@.0[mouse_slot(m)]),
    {
        let i = Self::mouse_idx(m);
        self.mouse_old[i] && !self.mouse[i]
    }

    /// Whether mouse button `m` is held.
    pub fn mouse_down(&self, m: Mouse) -> (r: bool)
        requires
            input_wf(self@),
        ensures
            r == self@.0[mouse_slot(m)],
    {
        self.mouse[Self::mouse_idx(m)]
    }

    /// Whether key `k` went down since the last frame.
    pub fn key_pressed(&self, k: usize) -> (r: bool)
        requires
            input_wf(self@),
            k < KEY_COUNT,
        ensures
            r == (!self@.3[k as int] && self@.2[k as int]),
    {
        !self.key_old[k] && self.key[k]
    }

    /// Whether key `k` went up since the last frame.
    pub fn key_released(&self, k: usize) -> (r: bool)
        requires
            input_wf(self@),
            k < KEY_COUNT,
        ensures
            r == (self@.3[k as int] && !self@.2[k as int]),
    {
        self.key_old[k] && !self.key[k]
    }

    /// Whether key `k` is held.
    pub fn key_down(&self, k: usize) -> (r: bool)
        requires
            input_wf(self@),
            k < KEY_COUNT,
        ensures
            r == self@.2[k as int],
    {
        self.key[k]
    }

    /// Whether the window gained focus since the last frame.
    pub fn focused(&self) -> (r: bool)
        ensures
            r == (!self@.5 && self@.4),
    {
        !self.focus_old && self.focus
    }
}

/// Right after a new frame starts, no button or key has just gone down or up, and the focus has
/// not just been gained.
pub proof fn lemma_reset_quiet(s: InputState, b: int, k: int)
    requires
        input_wf(s),
        0 <= b < MOUSE_COUNT,
        0 <= k < KEY_COUNT,
    ensures
        ({
            let t = input_reset(s);
            &&& !(!t.1[b] && t.0[b])
            &&& !(t.1[b] && !t.0[b])
            &&& !(!t.3[k] && t.2[k])
            &&& !(t.3[k] && !t.2[k])
            &&& !(!t.5 && t.4)
        }),
{
}

/// A button that has just gone down is held, one that has just gone up is not, and no button
/// has done both.
pub proof fn lemma_press_release(s: InputState, b: int)
    requires
        input_wf(s),
        0 <= b < MOUSE_COUNT,
    ensures
        (!s.1[b] && s.0[b]) ==> s.0[b],
        (s.1[b] && !s.0[b]) ==> !s.0[b],
        !((!s.1[b] && s.0[b]) && (s.1[b] && !s.0[b])),
{
}

/// A button that goes down after a new frame starts has just gone down, unless it was held.
pub proof fn lemma_press_after_reset(s: InputState, m: Mouse)
    requires
        input_wf(s),
        !s.0[mouse_slot(m)],
    ensures
        ({
            let t = input_reset(s);
            let u = (t.0.update(mouse_slot(m), true), t.1, t.2, t.3, t.4, t.5);
            !u.1[mouse_slot(m)] && u.0[mouse_slot(m)]
        }),
{
}

} // verus!
