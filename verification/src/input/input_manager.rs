//! The set of keys that are held down.

use std::collections::HashSet;
use vstd::prelude::*;

verus! {

/// Keeps the keys that have been pressed and not yet released. A key is named by its
/// code, a number.
pub struct InputManager {
    captured_keys: HashSet<u32>,
}

impl InputManager {
    /// The keys that are held down.
    pub closed spec fn held(&self) -> Set<u32> {
        self.captured_keys@
    }

    /// No key is held down.
    pub fn new() -> (manager: InputManager)
        ensures
            manager.held() == Set::<u32>::empty(),
    {
        InputManager { captured_keys: HashSet::new() }
    }

    /// The key has gone down.
    pub fn register_key_press(&mut self, key_input: u32)
        ensures
            final(self).held() == old(self).held().insert(key_input),
    {
        broadcast use vstd::std_specs::hash::group_hash_axioms;

        self.captured_keys.insert(key_input);
    }

    /// The key has come up.
    pub fn register_key_release(&mut self, key_input: u32)
        ensures
            final(self).held() == old(self).held().remove(key_input),
    {
        broadcast use vstd::std_specs::hash::group_hash_axioms;

        if self.captured_keys.contains(&key_input) {
            self.captured_keys.remove(&key_input);
        } else {
            assert(self.held() == old(self).held().remove(key_input));
        }
    }

    /// Whether the key is held down.
    pub fn poll_key(&mut self, key_input: u32) -> (held: bool)
        ensures
            held == old(self).held().contains(key_input),
            final(self).held() == old(self).held(),
    {
        broadcast use vstd::std_specs::hash::group_hash_axioms;

        self.captured_keys.contains(&key_input)
    }
}

} // verus!
