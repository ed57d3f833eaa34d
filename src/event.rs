use vstd::prelude::*;

use crate::types::{Channel, ChannelV, Message, MessageContent, MessageContentV, MessageV, SourceId};

verus! {

/// Events that sources emit.
#[derive(Debug)]
pub enum Event {
    Connected,
    Disconnected,
    DirectInput(String),
    ReceivedMessage(Message),
    UserOnline(String),
    UserOffline(String, Option<String>),
    NickChange(String, String),
    Timer(String),
    Other(String),
}

/// The mathematical form of an event.
pub enum EventV {
    Connected,
    Disconnected,
    DirectInput(Seq<char>),
    ReceivedMessage(MessageV),
    UserOnline(Seq<char>),
    UserOffline(Seq<char>, Option<Seq<char>>),
    NickChange(Seq<char>, Seq<char>),
    Timer(Seq<char>),
    Other(Seq<char>),
}

/// The view of an optional string.
pub open spec fn opt_view(o: Option<String>) -> Option<Seq<char>> {
    match o {
        Some(s) => Some(s@),
        None => None,
    }
}

impl View for Event {
    type V = EventV;

    open spec fn view(&self) -> EventV {
        match self {
            Event::Connected => EventV::Connected,
            Event::Disconnected => EventV::Disconnected,
            Event::DirectInput(t) => EventV::DirectInput(t@),
            Event::ReceivedMessage(m) => EventV::ReceivedMessage(m@),
            Event::UserOnline(u) => EventV::UserOnline(u@),
            Event::UserOffline(u, r) => EventV::UserOffline(u@, opt_view(*r)),
            Event::NickChange(a, b) => EventV::NickChange(a@, b@),
            Event::Timer(id) => EventV::Timer(id@),
            Event::Other(t) => EventV::Other(t@),
        }
    }
}

fn clone_opt(o: &Option<String>) -> (r: Option<String>)
    ensures
        opt_view(r) == opt_view(*o),
{
    match o {
        Some(s) => Some(s.clone()),
        None => None,
    }
}

impl Clone for Event {
    fn clone(&self) -> (r: Self)
        ensures
            r@ == self@,
    {
        match self {
            Event::Connected => Event::Connected,
            Event::Disconnected => Event::Disconnected,
            Event::DirectInput(t) => Event::DirectInput(t.clone()),
            Event::ReceivedMessage(m) => Event::ReceivedMessage(m.clone()),
            Event::UserOnline(u) => Event::UserOnline(u.clone()),
            Event::UserOffline(u, r) => Event::UserOffline(u.clone(), clone_opt(r)),
            Event::NickChange(a, b) => Event::NickChange(a.clone(), b.clone()),
            Event::Timer(id) => Event::Timer(id.clone()),
            Event::Other(t) => Event::Other(t.clone()),
        }
    }
}

/// Kinds of events, which modules subscribe to.
#[derive(Clone, Copy, Debug, PartialEq, Eq, Hash, Structural)]
pub enum EventType {
    Connection,
    TextMessage,
    MeMessage,
    ImageMessage,
    UserStatus,
    Timer,
    Other,
}

/// The kind of an event.
pub open spec fn type_of(e: EventV) -> EventType {
    match e {
        EventV::Connected | EventV::Disconnected => EventType::Connection,
        EventV::DirectInput(_) => EventType::TextMessage,
        EventV::ReceivedMessage(m) => match m.content {
            MessageContentV::Text(_) => EventType::TextMessage,
            MessageContentV::Me(_) => EventType::MeMessage,
            MessageContentV::Image => EventType::ImageMessage,
        },
        EventV::UserOnline(_) | EventV::UserOffline(_, _) | EventV::NickChange(_, _) => EventType::UserStatus,
        EventV::Timer(_) => EventType::Timer,
        EventV::Other(_) => EventType::Other,
    }
}

impl Event {
    /// The kind of this event.
    pub fn get_type(&self) -> (r: EventType)
        ensures
            r == type_of(self@),
    {
        match self {
            Event::Connected | Event::Disconnected => EventType::Connection,
            Event::DirectInput(_) => EventType::TextMessage,
            Event::ReceivedMessage(msg) => match msg.content {
                MessageContent::Text(_) => EventType::TextMessage,
                MessageContent::Me(_) => EventType::MeMessage,
                MessageContent::Image => EventType::ImageMessage,
            },
            Event::UserOnline(_) | Event::UserOffline(_, _) | Event::NickChange(_, _) => {
                EventType::UserStatus
            },
            Event::Timer(_) => EventType::Timer,
            Event::Other(_) => EventType::Other,
        }
    }
}

/// The kind of an event depends on the event alone: two events with the same
/// view have the same kind, and every event has one.
pub proof fn lemma_type_stable(a: Event, b: Event)
    requires
        a@ == b@,
    ensures
        type_of(a@) == type_of(b@),
        type_of(a@) == EventType::Connection || type_of(a@) == EventType::TextMessage
            || type_of(a@) == EventType::MeMessage || type_of(a@) == EventType::ImageMessage
            || type_of(a@) == EventType::UserStatus || type_of(a@) == EventType::Timer
            || type_of(a@) == EventType::Other,
{
}

/// An event bundled with the identifier of its source.
#[derive(Debug)]
pub struct SourceEvent {
    pub source: SourceId,
    pub event: Event,
}

impl Clone for SourceEvent {
    fn clone(&self) -> (r: Self)
        ensures
            r.source@ == self.source@,
            r.event@ == self.event@,
    {
        SourceEvent { source: self.source.clone(), event: self.event.clone() }
    }
}

impl SourceEvent {
    /// The event that a timer with identifier `id` delivers.
    pub fn timer(id: String) -> (r: SourceEvent)
        ensures
            r.source@ == crate::types::core_id(),
            r.event@ == EventV::Timer(id@),
    {
        SourceEvent { source: SourceId::core_source(), event: Event::Timer(id) }
    }
}

/// Whether later modules may still handle an event.
#[derive(Clone, Copy, Debug, PartialEq, Eq, Structural)]
pub enum ResumeEventHandling {
    Stop,
    Resume,
}

/// Kinds of supported event sources.
#[derive(Clone, Copy, Debug, PartialEq, Eq, Structural)]
pub enum SourceType {
    Stdin,
    Irc,
    Slack,
    Discord,
}

/// Errors of the event sources.
#[derive(Debug)]
pub enum SourceError {
    /// No source has this identifier.
    UnknownSource(SourceId),
    Eof(SourceId),
    Disconnected(SourceId),
    ConnectionError(SourceId, String),
    InvalidChannel(SourceId, Channel),
    InvalidMessage(SourceId, MessageContent),
    ProtocolError(String),
    Other(String),
}

/// A source's capabilities, as the core drives them.
pub trait EventSource {
    /// The bot's nickname on this source.
    fn get_nick(&self) -> &str;

    /// The kind of the source.
    fn get_type(&self) -> SourceType;

    /// Connects to the network.
    fn connect(&mut self) -> Result<(), SourceError>;

    /// Joins a channel.
    fn join(&mut self, channel: &str) -> Result<(), SourceError>;

    /// Sends a message.
    fn send(&mut self, dst: Channel, msg: MessageContent) -> Result<(), SourceError>;

    /// Reconnects to the network.
    fn reconnect(&mut self) -> Result<(), SourceError>;
}

} // verus!
