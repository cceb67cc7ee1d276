//! Completion-notification primitive of a task, backed by the
//! `event_listener` crate. Observers that find a task not yet `Done` obtain a
//! listener registered before the state lock would be released, so no wakeup
//! between the state check and the subscription can be missed.

use vstd::prelude::*;

verus! {

#[verifier::external_type_specification]
#[verifier::external_body]
pub struct ExEvent(event_listener::Event);

#[verifier::external_type_specification]
#[verifier::external_body]
pub struct ExEventListener(event_listener::EventListener);

/// Relies on `event_listener::Event::new`: creates a fresh notification
/// primitive with no registered listeners.
#[verifier::external_body]
pub(crate) fn new_event() -> event_listener::Event {
    event_listener::Event::new()
}

/// Relies on `event_listener::Event::listen`: registers a listener on the
/// event before returning, so a later notification cannot be missed.
#[verifier::external_body]
pub(crate) fn listen(event: &event_listener::Event) -> event_listener::EventListener {
    event.listen()
}

/// Relies on `event_listener::Event::notify`: wakes all currently registered
/// listeners (the count passed exceeds any possible number of listeners).
#[verifier::external_body]
pub(crate) fn notify_all(event: &event_listener::Event) {
    event.notify(usize::MAX)
}

} // verus!
