use vstd::prelude::*;

use crate::event::{opt_view, Event, EventV, SourceError};
use crate::irc::event_views;
use crate::text::is_text;
use crate::types::{Channel, ChannelV, Message, MessageContent, MessageContentV, MessageV, SourceId};

verus! {

/// A user or a channel of the Slack roster snapshot.
#[derive(Debug)]
pub struct SlackEntity {
    pub id: Option<String>,
    pub name: Option<String>,
}

/// The roster snapshot that the login returned.
#[derive(Debug)]
pub struct SlackRoster {
    pub users: Vec<SlackEntity>,
    pub channels: Vec<SlackEntity>,
}

/// The inbound Slack events that the translation tells apart.
#[derive(Debug)]
pub enum SlackEvent {
    ReconnectUrl,
    UserTyping,
    PresenceChange { user: String, presence: String },
    StandardMessage { user: Option<String>, channel: Option<String>, text: Option<String> },
    /// another kind of message, as its debug rendering
    OtherMessage(String),
    /// another event, as its debug rendering
    Other(String),
}

/// Whether field `f` holds `v`.
pub open spec fn holds(f: Option<String>, v: Seq<char>) -> bool {
    match f {
        Some(s) => s@ == v,
        None => false,
    }
}

/// The id of the first entity named `n` (`None` if there is none, or if it has no id).
pub open spec fn id_by_name(l: Seq<SlackEntity>, n: Seq<char>) -> Option<Seq<char>>
    decreases l.len(),
{
    if l.len() == 0 {
        None
    } else if holds(l[0].name, n) {
        opt_view(l[0].id)
    } else {
        id_by_name(l.drop_first(), n)
    }
}

/// The name of the first entity with id `i` (`None` if there is none, or if it has no name).
pub open spec fn name_by_id(l: Seq<SlackEntity>, i: Seq<char>) -> Option<Seq<char>>
    decreases l.len(),
{
    if l.len() == 0 {
        None
    } else if holds(l[0].id, i) {
        opt_view(l[0].name)
    } else {
        name_by_id(l.drop_first(), i)
    }
}

fn field_holds(f: &Option<String>, v: &str) -> (r: bool)
    ensures
        r == holds(*f, v@),
{
    match f {
        Some(s) => is_text(s, v),
        None => false,
    }
}

fn clone_opt(o: &Option<String>) -> (r: Option<String>)
    ensures
        opt_view(r) == opt_view(*o),
{
    match o {
        Some(s) => Some(s.clone()),
        None => None,
    }
}

/// The id of the first entity of `l` named `n`.
pub fn get_id_by_name(l: &Vec<SlackEntity>, n: &str) -> (r: Option<String>)
    ensures
        opt_view(r) == id_by_name(l@, n@),
{
    let mut i: usize = 0;
    proof {
        assert(l@.subrange(0, l.len() as int) =~= l@);
    }
    while i < l.len()
        invariant
            i <= l.len(),
            id_by_name(l@, n@) == id_by_name(l@.subrange(i as int, l.len() as int), n@),
        decreases l.len() - i,
    {
        proof {
            assert(l@.subrange(i as int, l.len() as int).drop_first() =~= l@.subrange(i + 1, l.len() as int));
            assert(l@.subrange(i as int, l.len() as int)[0] == l@[i as int]);
        }
        if field_holds(&l[i].name, n) {
            return clone_opt(&l[i].id);
        }
        i = i + 1;
    }
    None
}

/// The name of the first entity of `l` with id `id`.
pub fn get_name_by_id(l: &Vec<SlackEntity>, id: &str) -> (r: Option<String>)
    ensures
        opt_view(r) == name_by_id(l@, id@),
{
    let mut i: usize = 0;
    proof {
        assert(l@.subrange(0, l.len() as int) =~= l@);
    }
    while i < l.len()
        invariant
            i <= l.len(),
            name_by_id(l@, id@) == name_by_id(l@.subrange(i as int, l.len() as int), id@),
        decreases l.len() - i,
    {
        proof {
            assert(l@.subrange(i as int, l.len() as int).drop_first() =~= l@.subrange(i + 1, l.len() as int));
            assert(l@.subrange(i as int, l.len() as int)[0] == l@[i as int]);
        }
        if field_holds(&l[i].id, id) {
            return clone_opt(&l[i].name);
        }
        i = i + 1;
    }
    None
}

/// `o`'s text, or `d` where there is none.
pub open spec fn or_else(o: Option<Seq<char>>, d: Seq<char>) -> Seq<char> {
    match o {
        Some(s) => s,
        None => d,
    }
}

/// The events that an inbound Slack event stands for: typing notices and
/// reconnect URLs are dropped; a presence change of a known user to `active`
/// or `away` puts the user online or offline; a standard message becomes a
/// received message with the author's and the channel's names looked up in
/// the roster (placeholders where they are unknown); anything else is `Other`.
pub open spec fn slack_events_spec(r: SlackRoster, e: SlackEvent) -> Seq<EventV> {
    match e {
        SlackEvent::ReconnectUrl | SlackEvent::UserTyping => Seq::empty(),
        SlackEvent::PresenceChange { user, presence } => match name_by_id(r.users@, user@) {
            Some(nick) => if presence@ == "active"@ {
                seq![EventV::UserOnline(nick)]
            } else if presence@ == "away"@ {
                seq![EventV::UserOffline(nick, None)]
            } else {
                Seq::empty()
            },
            None => Seq::empty(),
        },
        SlackEvent::StandardMessage { user, channel, text } => match (user, channel, text) {
            (Some(u), Some(c), Some(t)) => seq![
                EventV::ReceivedMessage(
                    MessageV {
                        author: or_else(name_by_id(r.users@, u@), "[no author]"@),
                        channel: ChannelV::Channel(or_else(name_by_id(r.channels@, c@), "[invalid channel]"@)),
                        content: MessageContentV::Text(t@),
                    },
                ),
            ],
            _ => Seq::empty(),
        },
        SlackEvent::OtherMessage(d) | SlackEvent::Other(d) => seq![EventV::Other(d@)],
    }
}

fn unwrap_or_text(o: Option<String>, d: &str) -> (r: String)
    ensures
        r@ == or_else(opt_view(o), d@),
{
    match o {
        Some(s) => s,
        None => d.to_owned(),
    }
}

/// Translates an inbound Slack event into events.
pub fn slack_events(roster: &SlackRoster, e: SlackEvent) -> (r: Vec<Event>)
    ensures
        event_views(r@) == slack_events_spec(*roster, e),
{
    let ghost ev = e;
    let mut r: Vec<Event> = Vec::new();
    proof {
        reveal_strlit("active");
        reveal_strlit("away");
        reveal_strlit("[no author]");
        reveal_strlit("[invalid channel]");
    }
    match e {
        SlackEvent::ReconnectUrl | SlackEvent::UserTyping => {},
        SlackEvent::PresenceChange { user, presence } => {
            if let Some(nick) = get_name_by_id(&roster.users, user.as_str()) {
                if is_text(&presence, "active") {
                    r.push(Event::UserOnline(nick));
                } else if is_text(&presence, "away") {
                    r.push(Event::UserOffline(nick, None));
                }
            }
        },
        SlackEvent::StandardMessage { user, channel, text } => {
            match (user, channel, text) {
                (Some(u), Some(c), Some(t)) => {
                    let author = unwrap_or_text(get_name_by_id(&roster.users, u.as_str()), "[no author]");
                    let chan = unwrap_or_text(get_name_by_id(&roster.channels, c.as_str()), "[invalid channel]");
                    r.push(
                        Event::ReceivedMessage(
                            Message { author, channel: Channel::Channel(chan), content: MessageContent::Text(t) },
                        ),
                    );
                },
                _ => {},
            }
        },
        SlackEvent::OtherMessage(d) => {
            r.push(Event::Other(d));
        },
        SlackEvent::Other(d) => {
            r.push(Event::Other(d));
        },
    }
    proof {
        assert(event_views(r@) =~= slack_events_spec(*roster, ev));
    }
    r
}

/// Checks an outbound Slack message and resolves its destination: a channel
/// by name among the roster's channels, a user by name among its users. On
/// success gives the destination's id, if it resolves, and the text; the
/// errors are those of `prepare_send`.
pub fn prepare_slack_send(
    connected: bool,
    id: &SourceId,
    roster: &SlackRoster,
    dst: Channel,
    content: MessageContent,
) -> (r: Result<(Option<String>, String), SourceError>)
    ensures
        match crate::irc::send_error(connected, dst@, content@) {
            None => r matches Ok((t, x)) && opt_view(t) == (match dst@ {
                ChannelV::Channel(c) => id_by_name(roster.channels@, c),
                ChannelV::User(u) => id_by_name(roster.users@, u),
                _ => None,
            }) && x@ == crate::irc::text_of(content@),
            Some(crate::irc::SendErrorKind::Disconnected) => r matches Err(SourceError::Disconnected(i)) && i@ == id@,
            Some(crate::irc::SendErrorKind::InvalidChannel) => r matches Err(SourceError::InvalidChannel(i, c)) && i@
                == id@ && c@ == dst@,
            Some(crate::irc::SendErrorKind::InvalidMessage) => r matches Err(SourceError::InvalidMessage(i, m)) && i@
                == id@ && m@ == content@,
        },
{
    let is_user = match &dst {
        Channel::User(_) => true,
        _ => false,
    };
    match crate::irc::prepare_send(connected, id, dst, content) {
        Err(e) => Err(e),
        Ok((target, text)) => {
            let dest = if is_user {
                get_id_by_name(&roster.users, target.as_str())
            } else {
                get_id_by_name(&roster.channels, target.as_str())
            };
            Ok((dest, text))
        },
    }
}

} // verus!
