//! The events that commands dispatch.

use vstd::prelude::*;

verus! {

/// The events of this crate.
#[derive(Clone, Copy, Debug, PartialEq, Eq, Structural)]
pub enum Event {
    OnModeSwitch,
    PostInsertChar,
    PostCommand,
}

/// The events that hooks may attach to, and whether those of this crate were added.
pub struct Registry {
    pub events: Vec<Event>,
    pub done: bool,
}

/// Every event of this crate, in the order in which it is registered.
pub open spec fn all_events() -> Seq<Event> {
    seq![Event::OnModeSwitch, Event::PostInsertChar, Event::PostCommand]
}

impl Registry {
    pub fn new() -> (registry: Registry)
        ensures
            registry.events@ == Seq::<Event>::empty(),
            !registry.done,
    {
        Registry { events: Vec::new(), done: false }
    }

    /// What is registered after one more call of [`register`].
    pub open spec fn after_register(&self) -> Seq<Event> {
        if self.done {
            self.events@
        } else {
            self.events@ + all_events()
        }
    }
}

/// Registers the events of this crate, the first time it is called.
pub fn register(registry: &mut Registry)
    ensures
        final(registry).events@ == old(registry).after_register(),
        final(registry).done,
{
    if !registry.done {
        registry.events.push(Event::OnModeSwitch);
        registry.events.push(Event::PostInsertChar);
        registry.events.push(Event::PostCommand);
        registry.done = true;
        assert(registry.events@ =~= old(registry).events@ + all_events());
    }
}

/// Registering again changes nothing.
pub proof fn registering_is_idempotent(before: Registry, after: Registry)
    requires
        after.events@ == before.after_register(),
        after.done,
    ensures
        after.after_register() == after.events@,
{
}

} // verus!
