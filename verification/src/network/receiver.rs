//! Takes in the messages of other nodes.
use crate::ident::Address;
use vstd::prelude::*;

verus! {

/// Listens at an address.
pub struct Receiver {
    pub address: Address,
}

/// Something that happens on an incoming connection.
#[derive(Clone, Copy, PartialEq, Eq, Structural, Debug)]
pub enum RunnerEvent {
    /// A message came in. The flag tells whether it could be handled.
    Message(bool),
    /// What came in is no message.
    BadFrame,
    /// The peer closed the connection.
    Closed,
}

/// What follows from it.
#[derive(Clone, Copy, PartialEq, Eq, Structural, Debug)]
pub struct RunnerStep {
    /// Whether it counts as a message received.
    pub received: bool,
    /// Whether it counts as a message that failed.
    pub failed: bool,
    /// Whether the peer counts as gone.
    pub peer_left: bool,
    /// Whether the connection is read on.
    pub goes_on: bool,
}

/// What follows from `event`. A connection is read until something fails or the peer closes it; only
/// in the latter case does the peer count as gone.
pub open spec fn runner_step(event: RunnerEvent) -> RunnerStep {
    RunnerStep {
        received: event is Message,
        failed: event == RunnerEvent::Message(false) || event is BadFrame,
        peer_left: event is Closed,
        goes_on: event == RunnerEvent::Message(true),
    }
}

impl Receiver {
    /// What follows from something that happens on an incoming connection.
    pub fn on_event(event: RunnerEvent) -> (step: RunnerStep)
        ensures
            step == runner_step(event),
    {
        match event {
            RunnerEvent::Message(handled) => RunnerStep {
                received: true,
                failed: !handled,
                peer_left: false,
                goes_on: handled,
            },
            RunnerEvent::BadFrame => RunnerStep {
                received: false,
                failed: true,
                peer_left: false,
                goes_on: false,
            },
            RunnerEvent::Closed => RunnerStep {
                received: false,
                failed: false,
                peer_left: true,
                goes_on: false,
            },
        }
    }
}

/// A connection is read on exactly after a message that could be handled. Every message counts as
/// received, what cannot be handled or is no message as failed, and the peer as gone only where it
/// closed the connection.
pub proof fn a_connection_is_read_until_something_fails(event: RunnerEvent)
    ensures
        runner_step(event).goes_on <==> event == RunnerEvent::Message(true),
        runner_step(event).received <==> event == RunnerEvent::Message(true) || event
            == RunnerEvent::Message(false),
        runner_step(event).failed <==> event == RunnerEvent::Message(false) || event
            == RunnerEvent::BadFrame,
        runner_step(event).peer_left <==> event == RunnerEvent::Closed,
{
}

} // verus!
