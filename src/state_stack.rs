use vstd::prelude::*;

verus! {

/// A current state with a stack of saved ones: `save` pushes a copy of the
/// current state, `restore` pops the last saved state back into place.
pub struct StateStack<S> {
    pub state: S,
    pub saved: Vec<S>,
}

/// The current state and the saved states after `save`.
pub open spec fn saved_after_save<S>(state: S, saved: Seq<S>) -> (S, Seq<S>) {
    (state, saved.push(state))
}

/// The current state and the saved states after `restore`; with nothing
/// saved, both stay as they are.
pub open spec fn saved_after_restore<S>(state: S, saved: Seq<S>) -> (S, Seq<S>) {
    if saved.len() > 0 {
        (saved.last(), saved.drop_last())
    } else {
        (state, saved)
    }
}

impl<S: Copy> StateStack<S> {
    /// The saved states, oldest first.
    pub open spec fn saved_states(&self) -> Seq<S> {
        self.saved@
    }

    /// A stack with `state` current and nothing saved.
    pub fn new(state: S) -> (r: Self)
        ensures
            r.state == state,
            r.saved_states() == Seq::<S>::empty(),
    {
        StateStack { state, saved: Vec::new() }
    }

    /// The number of saved states.
    pub fn depth(&self) -> (r: usize)
        ensures
            r == self.saved_states().len(),
    {
        self.saved.len()
    }

    /// Saves a copy of the current state.
    pub fn save(&mut self)
        ensures
            (final(self).state, final(self).saved_states()) == saved_after_save(old(self).state, old(self).saved_states()),
    {
        let s = self.state;
        self.saved.push(s);
    }

    /// Makes the last saved state current again and drops it from the stack;
    /// with nothing saved it does nothing.
    pub fn restore(&mut self)
        ensures
            (final(self).state, final(self).saved_states()) == saved_after_restore(old(self).state, old(self).saved_states()),
    {
        match self.saved.pop() {
            Some(s) => {
                self.state = s;
            },
            None => {},
        }
    }
}

/// Whatever the current state becomes after a `save`, `restore` brings back
/// the state and the stack as they were before the `save`; `restore` with
/// nothing saved changes nothing.
pub proof fn lemma_save_restore<S>(state: S, saved: Seq<S>, changed: S)
    ensures
        saved_after_restore(changed, saved_after_save(state, saved).1) == (state, saved),
        saved_after_restore(changed, Seq::<S>::empty()) == (changed, Seq::<S>::empty()),
{
    assert(saved.push(state).drop_last() =~= saved);
}

} // verus!
