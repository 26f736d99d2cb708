//! What the dashboard is sent.

use crate::calendar;
use crate::calendar::server_time;
use crate::counters;
use crate::events::AppEvent;
use crate::json;
use crate::json::{field_of_message, write_texts};
use crate::limiter::{EventModel, RateLimitEvent, SlidingLimiter};
use crate::owners::KeyOwners;
use crate::text;
use crate::text::same_text;
use vstd::prelude::*;

verus! {

/// The event with the name of the owner of its API key, where that is known.
pub open spec fn patched(event: EventModel, owners: Map<Seq<char>, Seq<char>>) -> EventModel {
    if owners.contains_key(event.api_key) {
        EventModel { owner: owners[event.api_key], ..event }
    } else {
        event
    }
}

fn patch(event: &mut RateLimitEvent, owners: &KeyOwners)
    ensures
        final(event)@ == patched(old(event)@, owners@),
{
    match owners.get(event.api_key.as_str()) {
        Some(name) => {
            event.owner = name;
        },
        None => {},
    }
}

/// Writes the name of the owner of the API key into the event, where that is known.
pub fn patch_owner(event: RateLimitEvent, owners: &KeyOwners) -> (r: RateLimitEvent)
    ensures
        r@ == patched(event@, owners@),
{
    let mut event: RateLimitEvent = event;
    patch(&mut event, owners);
    event
}

/// Drops what has expired, and reports every counter that is left, with the owner of
/// its API key.
pub fn snapshot_events(limiter: &mut SlidingLimiter, owners: &KeyOwners) -> (events: Vec<
    RateLimitEvent,
>)
    requires
        old(limiter).wf(),
    ensures
        final(limiter).wf(),
        final(limiter).reading() >= old(limiter).reading(),
        counters::all_in_order(final(limiter)@, final(limiter).reading()),
        final(limiter)@ == counters::unexpired(old(limiter)@, final(limiter).reading()),
        final(limiter).order().no_duplicates(),
        final(limiter).order().to_set() == final(limiter)@.dom(),
        events@.len() == final(limiter).order().len(),
        forall|i: int|
            0 <= i < events@.len() ==> (#[trigger] events@[i])@ == patched(
                counters::snapshot_event(
                    final(limiter).order()[i],
                    final(limiter)@[final(limiter).order()[i]],
                    final(limiter).reading(),
                ),
                owners@,
            ),
{
    let mut events: Vec<RateLimitEvent> = limiter.snapshot();
    let ghost plain = events@;
    let mut i: usize = 0;
    while i < events.len()
        invariant
            i <= events@.len(),
            events@.len() == plain.len(),
            forall|j: int| 0 <= j < i ==> (#[trigger] events@[j])@ == patched(plain[j]@, owners@),
            forall|j: int| i <= j < plain.len() ==> #[trigger] events@[j] == plain[j],
        decreases events@.len() - i,
    {
        patch(&mut events[i], owners);
        i += 1;
    }
    events
}

/// The message that tells the dashboard the server's time of day.
pub fn clock_message(secs: i64, offset: i32) -> (message: String)
    requires
        calendar::in_calendar(secs as int),
        calendar::is_offset(offset as int),
    ensures
        message@ == json::object_of_texts(
            "type"@,
            "clock"@,
            "time"@,
            calendar::time_of_day(secs + offset),
        ),
{
    write_texts("type", "clock", "time", server_time(secs, offset).as_str())
}

/// What comes in at the server's end of a WebSocket.
#[derive(Debug, Clone)]
pub enum SocketInput {
    /// An event was broadcast.
    Event,
    /// No more events can be received.
    EventsLost,
    /// The client sent a text.
    Text(String),
    /// The client closed the connection, or it is gone.
    Closed,
    /// The client sent anything else.
    Other,
}

/// What is done about it.
#[derive(Debug, Clone, Copy, PartialEq, Eq, Structural)]
pub enum SocketAction {
    /// Sends the event.
    SendEvent,
    /// Sends one event for each counter.
    SendSnapshot,
    /// Sends the server's time of day.
    SendClock,
    /// Does nothing.
    Ignore,
    /// Ends the conversation.
    Stop,
}

/// What a client's command asks for.
pub open spec fn asked(command: Option<Seq<char>>) -> SocketAction {
    match command {
        Some(name) => if name == "sync"@ {
            SocketAction::SendSnapshot
        } else if name == "clock"@ {
            SocketAction::SendClock
        } else {
            SocketAction::Ignore
        },
        None => SocketAction::Ignore,
    }
}

/// What a client's command asks for, if the message held one.
pub fn command_action(command: &Option<String>) -> (action: SocketAction)
    ensures
        action == asked(text::text_in(*command)),
{
    match command {
        Some(name) => if same_text(name.as_str(), "sync") {
            SocketAction::SendSnapshot
        } else if same_text(name.as_str(), "clock") {
            SocketAction::SendClock
        } else {
            SocketAction::Ignore
        },
        None => SocketAction::Ignore,
    }
}

/// What is done about `input`: events are passed on, commands are carried out, and a
/// closed end stops the conversation.
pub open spec fn action_for(input: SocketInput) -> SocketAction {
    match input {
        SocketInput::Event => SocketAction::SendEvent,
        SocketInput::EventsLost => SocketAction::Stop,
        SocketInput::Text(message) => asked(json::message_field(message@, "cmd"@)),
        SocketInput::Closed => SocketAction::Stop,
        SocketInput::Other => SocketAction::Ignore,
    }
}

/// What is done about `input`.
pub fn socket_action(input: &SocketInput) -> (action: SocketAction)
    ensures
        action == action_for(*input),
{
    match input {
        SocketInput::Event => SocketAction::SendEvent,
        SocketInput::EventsLost => SocketAction::Stop,
        SocketInput::Text(message) => {
            let command: Option<String> = field_of_message(message.as_str(), "cmd");
            command_action(&command)
        },
        SocketInput::Closed => SocketAction::Stop,
        SocketInput::Other => SocketAction::Ignore,
    }
}

/// Whether the conversation goes on after `action`, which was or was not `sent`. An
/// event that cannot be sent ends it; what answers a command may get lost.
pub fn goes_on(action: SocketAction, sent: bool) -> (on: bool)
    ensures
        on == match action {
            SocketAction::SendEvent => sent,
            SocketAction::Stop => false,
            _ => true,
        },
{
    match action {
        SocketAction::SendEvent => sent,
        SocketAction::Stop => false,
        _ => true,
    }
}

/// What the connection graph does about what was received, `None` being that no more
/// events can be: it sends the starts and the ends of requests, and nothing else.
pub fn graph_action(received: &Option<AppEvent>) -> (action: SocketAction)
    ensures
        action == match received {
            Some(AppEvent::Request(_)) => SocketAction::SendEvent,
            Some(AppEvent::RequestEnd(_)) => SocketAction::SendEvent,
            Some(AppEvent::RateLimit(_)) => SocketAction::Ignore,
            Some(AppEvent::Log(_)) => SocketAction::Ignore,
            None => SocketAction::Stop,
        },
{
    match received {
        Some(AppEvent::Request(_)) => SocketAction::SendEvent,
        Some(AppEvent::RequestEnd(_)) => SocketAction::SendEvent,
        Some(AppEvent::RateLimit(_)) => SocketAction::Ignore,
        Some(AppEvent::Log(_)) => SocketAction::Ignore,
        None => SocketAction::Stop,
    }
}

/// Writing the owners in changes nothing of an event but its owner, and a second time
/// changes nothing.
pub proof fn patching_settles(event: EventModel, owners: Map<Seq<char>, Seq<char>>)
    ensures
        patched(event, owners) == (EventModel { owner: patched(event, owners).owner, ..event }),
        patched(patched(event, owners), owners) == patched(event, owners),
{
}

} // verus!
