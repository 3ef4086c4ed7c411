//! What a command is run with, and what it leaves for its caller to do.

use vstd::prelude::*;

verus! {

/// How a callback takes the next key.
#[derive(Clone, Copy, Debug, PartialEq, Eq, Structural)]
pub enum OnKeyCallbackKind {
    PseudoPending,
    Fallback,
}

/// What is to happen to the layers of the screen.
pub enum Layer<C> {
    /// Put the component on top.
    Push(C),
    /// Put the component in the place of the layer with this name, or on top.
    ReplaceOrPush(&'static str, C),
}

/// The register and the count typed before a command, the changes to the screen that it asked
/// for, and the callback that is to take the next key.
pub struct Context<C, K> {
    pub register: Option<char>,
    pub count: Option<usize>,
    pub callback: Vec<Layer<C>>,
    pub on_next_key_callback: Option<(K, OnKeyCallbackKind)>,
}

impl<C, K> Context<C, K> {
    /// A count that was typed is not zero.
    pub open spec fn wf(&self) -> bool {
        self.count != Some(0usize)
    }

    /// The register and the count are those of `other`.
    pub open spec fn same_input(&self, other: &Self) -> bool {
        self.register == other.register && self.count == other.count
    }

    /// Asks for a new layer on top of the screen.
    pub fn push_layer(&mut self, component: C)
        ensures
            final(self).callback@ == old(self).callback@.push(Layer::Push(component)),
            final(self).same_input(old(self)),
            final(self).on_next_key_callback == old(self).on_next_key_callback,
    {
        self.callback.push(Layer::Push(component));
    }

    /// Asks for a layer in the place of the one named `id`, or on top when there is none.
    pub fn replace_or_push_layer(&mut self, id: &'static str, component: C)
        ensures
            final(self).callback@ == old(self).callback@.push(Layer::ReplaceOrPush(id, component)),
            final(self).same_input(old(self)),
            final(self).on_next_key_callback == old(self).on_next_key_callback,
    {
        self.callback.push(Layer::ReplaceOrPush(id, component));
    }

    /// Lets `callback` take the next key, which completes a pending command.
    pub fn on_next_key(&mut self, callback: K)
        ensures
            final(self).on_next_key_callback == Some((callback, OnKeyCallbackKind::PseudoPending)),
            final(self).same_input(old(self)),
            final(self).callback@ == old(self).callback@,
    {
        self.on_next_key_callback = Some((callback, OnKeyCallbackKind::PseudoPending));
    }

    /// Lets `callback` take the next key when no binding does.
    pub fn on_next_key_fallback(&mut self, callback: K)
        ensures
            final(self).on_next_key_callback == Some((callback, OnKeyCallbackKind::Fallback)),
            final(self).same_input(old(self)),
            final(self).callback@ == old(self).callback@,
    {
        self.on_next_key_callback = Some((callback, OnKeyCallbackKind::Fallback));
    }

    /// The count that was typed, or 1.
    pub fn count(&self) -> (count: usize)
        ensures
            count == (match self.count {
                Some(n) => n,
                None => 1usize,
            }),
            self.wf() ==> count >= 1,
    {
        match self.count {
            Some(n) => n,
            None => 1,
        }
    }
}

} // verus!
