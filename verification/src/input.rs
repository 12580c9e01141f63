//! Input actions, their bindings, and the state of the buttons behind them.

use std::collections::{HashMap, HashSet};

use vstd::prelude::*;
use vstd::std_specs::iter::IteratorSpec;

use crate::modding::types::{DefHandle, DefId};

verus! {

broadcast use vstd::std_specs::hash::group_hash_axioms;

/// What an action is bound to: nothing, a key, or a mouse button. Keys and
/// buttons are named by codes that the engine side assigns.
#[derive(Debug, Default, Clone, Copy, PartialEq, Eq, Structural, Hash)]
pub enum InputKind {
    #[default]
    Unbound,
    KeyButton(u32),
    MouseButton(u32),
}

/// A binding: a key or button, and the modifiers that must be held with it.
#[derive(Debug, Default, Clone, Copy, PartialEq, Eq, Structural)]
pub struct PhysicalInput {
    pub kind: InputKind,
    pub shift: bool,
    pub control: bool,
    pub alt: bool,
}

impl PhysicalInput {
    pub fn from_kind(input_type: InputKind) -> (r: PhysicalInput)
        ensures
            r == (PhysicalInput { kind: input_type, shift: false, control: false, alt: false }),
    {
        PhysicalInput { kind: input_type, shift: false, control: false, alt: false }
    }

    pub fn none() -> (r: PhysicalInput)
        ensures
            r == (PhysicalInput { kind: InputKind::Unbound, shift: false, control: false, alt: false }),
    {
        PhysicalInput::from_kind(InputKind::Unbound)
    }

    pub fn key(key_code: u32) -> (r: PhysicalInput)
        ensures
            r == (PhysicalInput {
                kind: InputKind::KeyButton(key_code),
                shift: false,
                control: false,
                alt: false,
            }),
    {
        PhysicalInput::from_kind(InputKind::KeyButton(key_code))
    }

    pub fn mouse(mouse_button: u32) -> (r: PhysicalInput)
        ensures
            r == (PhysicalInput {
                kind: InputKind::MouseButton(mouse_button),
                shift: false,
                control: false,
                alt: false,
            }),
    {
        PhysicalInput::from_kind(InputKind::MouseButton(mouse_button))
    }

    pub fn with_modifiers(self, shift: bool, ctrl: bool, alt: bool) -> (r: PhysicalInput)
        ensures
            r == (PhysicalInput { kind: self.kind, shift, control: ctrl, alt }),
    {
        let mut r = self;
        r.shift = shift;
        r.control = ctrl;
        r.alt = alt;
        r
    }

    pub fn with_shift(self) -> (r: PhysicalInput)
        ensures
            r == (PhysicalInput { shift: true, ..self }),
    {
        let mut r = self;
        r.shift = true;
        r
    }

    pub fn with_ctrl(self) -> (r: PhysicalInput)
        ensures
            r == (PhysicalInput { control: true, ..self }),
    {
        let mut r = self;
        r.control = true;
        r
    }

    pub fn with_alt(self) -> (r: PhysicalInput)
        ensures
            r == (PhysicalInput { alt: true, ..self }),
    {
        let mut r = self;
        r.alt = true;
        r
    }

    /// Whether every modifier the binding asks for is held, given whether
    /// either shift, either control and either alt key is down.
    pub fn modifiers_held(&self, shift_down: bool, control_down: bool, alt_down: bool) -> (r:
        bool)
        ensures
            r == ((!self.shift || shift_down) && (!self.control || control_down) && (!self.alt
                || alt_down)),
    {
        (!self.shift || shift_down) && (!self.control || control_down) && (!self.alt || alt_down)
    }
}

impl From<InputKind> for PhysicalInput {
    fn from(value: InputKind) -> (r: PhysicalInput) {
        PhysicalInput::from_kind(value)
    }
}

impl vstd::std_specs::convert::FromSpecImpl<InputKind> for PhysicalInput {
    open spec fn obeys_from_spec() -> bool {
        true
    }

    open spec fn from_spec(v: InputKind) -> PhysicalInput {
        PhysicalInput { kind: v, shift: false, control: false, alt: false }
    }
}

/// An action that mods define, with its name and default binding.
#[derive(Debug, Default, Clone)]
pub struct InputAction {
    pub name: String,
    pub default: PhysicalInput,
}

impl InputAction {
    pub fn new(name: String, default: PhysicalInput) -> (r: InputAction)
        ensures
            r.name@ == name@,
            r.default == default,
    {
        InputAction { name, default }
    }

    pub fn key(name: String, default: u32) -> (r: InputAction)
        ensures
            r.name@ == name@,
            r.default == (PhysicalInput {
                kind: InputKind::KeyButton(default),
                shift: false,
                control: false,
                alt: false,
            }),
    {
        InputAction::new(name, PhysicalInput::key(default))
    }

    pub fn mouse(name: String, default: u32) -> (r: InputAction)
        ensures
            r.name@ == name@,
            r.default == (PhysicalInput {
                kind: InputKind::MouseButton(default),
                shift: false,
                control: false,
                alt: false,
            }),
    {
        InputAction::new(name, PhysicalInput::mouse(default))
    }

    /// The action read from a mod's file, registered under the id of the mod
    /// joined with the id in the file.
    pub fn from_raw(mod_id: &DefId, id: DefId, name: String, default: PhysicalInput) -> (r: (
        DefId,
        InputAction,
    ))
        ensures
            r.0@ == mod_id@ + seq![':', ':'] + id@,
            r.1.name@ == name@,
            r.1.default == default,
    {
        (mod_id.join(id), InputAction::new(name, default))
    }
}

/// Which actions are held, and which were pressed or released since the
/// last `clear`. Actions are named by their handles.
#[derive(Debug)]
pub struct InputState {
    pressed: HashSet<u32>,
    just_pressed: HashSet<u32>,
    just_released: HashSet<u32>,
}

impl InputState {
    /// The handles of the held actions.
    pub closed spec fn held(&self) -> Set<u32> {
        self.pressed@
    }

    /// The handles of the actions pressed since the last `clear`.
    pub closed spec fn pressed_now(&self) -> Set<u32> {
        self.just_pressed@
    }

    /// The handles of the actions released since the last `clear`.
    pub closed spec fn released_now(&self) -> Set<u32> {
        self.just_released@
    }

    pub fn new() -> (r: InputState)
        ensures
            r.held() == Set::<u32>::empty(),
            r.pressed_now() == Set::<u32>::empty(),
            r.released_now() == Set::<u32>::empty(),
    {
        InputState { pressed: HashSet::new(), just_pressed: HashSet::new(), just_released: HashSet::new() }
    }

    /// Forgets what was pressed and released; what is held stays.
    pub fn clear(&mut self)
        ensures
            final(self).held() == old(self).held(),
            final(self).pressed_now() == Set::<u32>::empty(),
            final(self).released_now() == Set::<u32>::empty(),
    {
        self.just_pressed.clear();
        self.just_released.clear();
    }

    /// Holds the action; it counts as just pressed unless it was held.
    pub fn press(&mut self, handle: DefHandle<InputAction>)
        ensures
            final(self).held() == old(self).held().insert(handle@),
            final(self).pressed_now() == if old(self).held().contains(handle@) {
                old(self).pressed_now()
            } else {
                old(self).pressed_now().insert(handle@)
            },
            final(self).released_now() == old(self).released_now(),
    {
        if self.pressed.insert(handle.get()) {
            self.just_pressed.insert(handle.get());
        }
    }

    /// Lets go of the action; it counts as just released if it was held.
    pub fn release(&mut self, handle: DefHandle<InputAction>)
        ensures
            final(self).held() == old(self).held().remove(handle@),
            final(self).released_now() == if old(self).held().contains(handle@) {
                old(self).released_now().insert(handle@)
            } else {
                old(self).released_now()
            },
            final(self).pressed_now() == old(self).pressed_now(),
    {
        let value = handle.get();
        if self.pressed.remove(&value) {
            self.just_released.insert(value);
        }
    }

    pub fn pressed(&self, handle: DefHandle<InputAction>) -> (r: bool)
        ensures
            r == self.held().contains(handle@),
    {
        self.pressed.contains(&handle.get())
    }

    pub fn just_pressed(&self, handle: DefHandle<InputAction>) -> (r: bool)
        ensures
            r == self.pressed_now().contains(handle@),
    {
        self.just_pressed.contains(&handle.get())
    }

    pub fn just_released(&self, handle: DefHandle<InputAction>) -> (r: bool)
        ensures
            r == self.released_now().contains(handle@),
    {
        self.just_released.contains(&handle.get())
    }

    /// `1` when only the positive action is held, `-1` when only the
    /// negative one is, `0` otherwise.
    pub fn axis(&self, positive: DefHandle<InputAction>, negative: DefHandle<InputAction>) -> (r:
        i8)
        ensures
            r == (if self.held().contains(positive@) {
                1int
            } else {
                0int
            }) - (if self.held().contains(negative@) {
                1int
            } else {
                0int
            }),
    {
        let p: i8 = if self.pressed.contains(&positive.get()) {
            1
        } else {
            0
        };
        let n: i8 = if self.pressed.contains(&negative.get()) {
            1
        } else {
            0
        };
        p - n
    }

    /// The two axes, each as `axis` gives it.
    pub fn vec2(
        &self,
        positive_x: DefHandle<InputAction>,
        negative_x: DefHandle<InputAction>,
        positive_y: DefHandle<InputAction>,
        negative_y: DefHandle<InputAction>,
    ) -> (r: (i8, i8))
        ensures
            r.0 == (if self.held().contains(positive_x@) {
                1int
            } else {
                0int
            }) - (if self.held().contains(negative_x@) {
                1int
            } else {
                0int
            }),
            r.1 == (if self.held().contains(positive_y@) {
                1int
            } else {
                0int
            }) - (if self.held().contains(negative_y@) {
                1int
            } else {
                0int
            }),
    {
        (self.axis(positive_x, negative_x), self.axis(positive_y, negative_y))
    }

    /// One binding's update for a frame: a press of its key or button with
    /// the modifiers held presses the action; otherwise a release of it
    /// releases the action. An unbound action is left as it is.
    pub fn update_binding(
        &mut self,
        handle: DefHandle<InputAction>,
        input: &PhysicalInput,
        just_pressed: bool,
        just_released: bool,
        modifiers_held: bool,
    )
        ensures
            input.kind is Unbound ==> *final(self) == *old(self),
            !(input.kind is Unbound) && just_pressed && modifiers_held ==> {
                &&& final(self).held() == old(self).held().insert(handle@)
                &&& final(self).pressed_now() == if old(self).held().contains(handle@) {
                    old(self).pressed_now()
                } else {
                    old(self).pressed_now().insert(handle@)
                }
                &&& final(self).released_now() == old(self).released_now()
            },
            !(input.kind is Unbound) && !(just_pressed && modifiers_held) && just_released ==> {
                &&& final(self).held() == old(self).held().remove(handle@)
                &&& final(self).released_now() == if old(self).held().contains(handle@) {
                    old(self).released_now().insert(handle@)
                } else {
                    old(self).released_now()
                }
                &&& final(self).pressed_now() == old(self).pressed_now()
            },
            !(input.kind is Unbound) && !(just_pressed && modifiers_held) && !just_released
                ==> *final(self) == *old(self),
    {
        match input.kind {
            InputKind::Unbound => {},
            _ => {
                if just_pressed && modifiers_held {
                    self.press(handle);
                } else if just_released {
                    self.release(handle);
                }
            },
        }
    }
}

impl Default for InputState {
    fn default() -> (r: InputState)
        ensures
            r.held() == Set::<u32>::empty(),
            r.pressed_now() == Set::<u32>::empty(),
            r.released_now() == Set::<u32>::empty(),
    {
        InputState::new()
    }
}

/// The binding of each action, by handle.
#[derive(Debug)]
pub struct InputMap {
    map: HashMap<u32, PhysicalInput>,
}

impl InputMap {
    /// The bindings, by handle.
    pub closed spec fn bindings(&self) -> Map<u32, PhysicalInput> {
        self.map@
    }

    pub fn new() -> (r: InputMap)
        ensures
            r.bindings() == Map::<u32, PhysicalInput>::empty(),
    {
        InputMap { map: HashMap::new() }
    }

    pub fn get(&self, handle: DefHandle<InputAction>) -> (r: Option<&PhysicalInput>)
        ensures
            r == if self.bindings().contains_key(handle@) {
                Some(&self.bindings()[handle@])
            } else {
                None::<&PhysicalInput>
            },
    {
        self.map.get(&handle.get())
    }

    pub fn insert(&mut self, handle: DefHandle<InputAction>, input: PhysicalInput)
        ensures
            final(self).bindings() == old(self).bindings().insert(handle@, input),
    {
        self.map.insert(handle.get(), input);
    }

    /// The bindings as (handle value, binding) pairs, in no particular order:
    /// each binding once, and nothing else.
    pub fn entries(&self) -> (r: Vec<(u32, PhysicalInput)>)
        ensures
            r@.len() == self.bindings().dom().len(),
            forall|k: int|
                0 <= k < r@.len() ==> self.bindings().contains_key(#[trigger] r@[k].0)
                    && self.bindings()[r@[k].0] == r@[k].1,
            forall|h: u32|
                #[trigger] self.bindings().contains_key(h) ==> exists|k: int|
                    0 <= k < r@.len() && r@[k] == (h, self.bindings()[h]),
            forall|i: int, j: int|
                0 <= i < r@.len() && 0 <= j < r@.len() && i != j ==> r@[i].0 != r@[j].0,
    {
        let mut r: Vec<(u32, PhysicalInput)> = Vec::new();
        let entries = self.map.iter();
        let ghost items = entries.remaining();
        for (k, v) in it: entries
            invariant
                it.seq() == items,
                r@ == items.take(it.index() as int).map_values(
                    |p: (&u32, &PhysicalInput)| (*p.0, *p.1),
                ),
        {
            r.push((*k, *v));
            proof {
                assert(items.take(it.index() + 1).map_values(
                    |p: (&u32, &PhysicalInput)| (*p.0, *p.1),
                ) =~= r@);
            }
        }
        proof {
            assert(items.take(items.len() as int) =~= items);
            assert forall|h: u32| #[trigger] self.bindings().contains_key(h) implies exists|k: int|
                0 <= k < r@.len() && r@[k] == (h, self.bindings()[h]) by {
                assert(items.contains((&h, &self.map@[h])));
                let k = choose|k: int| 0 <= k < items.len() && items[k] == (&h, &self.map@[h]);
                assert(r@[k] == (h, self.bindings()[h]));
            }
            assert forall|i: int, j: int|
                0 <= i < r@.len() && 0 <= j < r@.len() && i != j implies r@[i].0 != r@[j].0 by {
                if r@[i].0 == r@[j].0 {
                    assert(self.map@.contains_key(*items[i].0));
                    assert(self.map@.contains_key(*items[j].0));
                    assert(items[i] == items[j]);
                }
            }
        }
        r
    }
}

impl Default for InputMap {
    fn default() -> (r: InputMap)
        ensures
            r.bindings() == Map::<u32, PhysicalInput>::empty(),
    {
        InputMap::new()
    }
}

} // verus!
