//! One client of the live stream.

use vstd::prelude::*;

verus! {

/// What a client session has to react to.
#[derive(Debug)]
pub enum SessionInput {
    /// It is time for a snapshot; its text is missing where it could not be encoded.
    Tick(Option<String>),
    /// An alert event; its text is missing where it could not be encoded.
    Event(Option<String>),
    /// The client was too slow for this many events.
    Missed(u64),
    /// No event will come any more.
    EventsClosed,
    /// The client closes the session.
    Close,
    /// The client asks for an answer with the same bytes.
    Ping(Vec<u8>),
    /// The client sends something that needs no answer.
    Other,
    /// Nothing can be read from the client any more.
    Gone,
}

/// What a client session does.
#[derive(Debug)]
pub enum SessionAction {
    /// Send a text, and stop if that fails.
    Send(String),
    /// Answer a ping, and stop if that fails.
    Pong(Vec<u8>),
    /// Go on.
    Wait,
    /// End the session.
    Stop,
}

/// What a client session does about an input.
pub open spec fn reaction(input: SessionInput) -> SessionAction {
    match input {
        SessionInput::Tick(Some(text)) => SessionAction::Send(text),
        SessionInput::Tick(None) => SessionAction::Stop,
        SessionInput::Event(Some(text)) => SessionAction::Send(text),
        SessionInput::Event(None) => SessionAction::Wait,
        SessionInput::Missed(_) => SessionAction::Wait,
        SessionInput::EventsClosed => SessionAction::Stop,
        SessionInput::Close => SessionAction::Stop,
        SessionInput::Ping(bytes) => SessionAction::Pong(bytes),
        SessionInput::Other => SessionAction::Wait,
        SessionInput::Gone => SessionAction::Stop,
    }
}

/// What a client session does about an input.
pub fn react(input: SessionInput) -> (r: SessionAction)
    ensures
        r == reaction(input),
{
    match input {
        SessionInput::Tick(Some(text)) => SessionAction::Send(text),
        SessionInput::Tick(None) => SessionAction::Stop,
        SessionInput::Event(Some(text)) => SessionAction::Send(text),
        SessionInput::Event(None) => SessionAction::Wait,
        SessionInput::Missed(_) => SessionAction::Wait,
        SessionInput::EventsClosed => SessionAction::Stop,
        SessionInput::Close => SessionAction::Stop,
        SessionInput::Ping(bytes) => SessionAction::Pong(bytes),
        SessionInput::Other => SessionAction::Wait,
        SessionInput::Gone => SessionAction::Stop,
    }
}

/// The time between two snapshots in whole milliseconds; a rate of zero counts as one.
pub fn refresh_period_ms(refresh_hz: u32) -> (r: u64)
    ensures
        r as int == 1000int / (if refresh_hz == 0 { 1int } else { refresh_hz as int }),
{
    let rate: u64 = if refresh_hz == 0 {
        1
    } else {
        refresh_hz as u64
    };
    1000 / rate
}

} // verus!
