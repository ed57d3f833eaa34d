use vstd::prelude::*;

use crate::event::{Event, EventV};
use crate::irc::event_views;
use crate::types::{Channel, ChannelV, Message, MessageContent, MessageContentV, MessageV};

verus! {

/// A member of a Discord server: user id and display name.
#[derive(Debug)]
pub struct DiscordMember {
    pub user_id: u64,
    pub display_name: String,
}

/// Where a Discord message was posted, as the client's state knows it.
#[derive(Debug)]
pub enum DiscordChannelRef {
    /// a private channel with the named user
    Private { recipient: String },
    /// a channel of a server, with the server's members
    Public { channel_name: String, members: Vec<DiscordMember> },
    /// a group or other kind of channel
    Other,
}

/// The inbound Discord events that the translation tells apart.
#[derive(Debug)]
pub enum DiscordEvent {
    MessageCreate { author_id: u64, author_name: String, content: String, channel: Option<DiscordChannelRef> },
    /// any other event, as its debug rendering
    Other(String),
}

/// The display name of the first member with user id `id`.
pub open spec fn member_name(ms: Seq<DiscordMember>, id: u64) -> Option<Seq<char>>
    decreases ms.len(),
{
    if ms.len() == 0 {
        None
    } else if ms[0].user_id == id {
        Some(ms[0].display_name@)
    } else {
        member_name(ms.drop_first(), id)
    }
}

/// The events that an inbound Discord event stands for: the bot's own
/// messages and messages from unknown or group channels are dropped; a
/// private message comes from the other party, in a user channel; a server
/// message comes from the author's display name on that server where known,
/// else the author's name; anything else is `Other`.
pub open spec fn discord_events_spec(own_id: u64, e: DiscordEvent) -> Seq<EventV> {
    match e {
        DiscordEvent::MessageCreate { author_id, author_name, content, channel } => if author_id == own_id {
            Seq::empty()
        } else {
            match channel {
                Some(DiscordChannelRef::Private { recipient }) => seq![
                    EventV::ReceivedMessage(
                        MessageV {
                            author: recipient@,
                            channel: ChannelV::User(recipient@),
                            content: MessageContentV::Text(content@),
                        },
                    ),
                ],
                Some(DiscordChannelRef::Public { channel_name, members }) => seq![
                    EventV::ReceivedMessage(
                        MessageV {
                            author: match member_name(members@, author_id) {
                                Some(n) => n,
                                None => author_name@,
                            },
                            channel: ChannelV::Channel(channel_name@),
                            content: MessageContentV::Text(content@),
                        },
                    ),
                ],
                _ => Seq::empty(),
            }
        },
        DiscordEvent::Other(d) => seq![EventV::Other(d@)],
    }
}

fn find_member(ms: &Vec<DiscordMember>, id: u64) -> (r: Option<String>)
    ensures
        crate::event::opt_view(r) == member_name(ms@, id),
{
    let mut i: usize = 0;
    proof {
        assert(ms@.subrange(0, ms.len() as int) =~= ms@);
    }
    while i < ms.len()
        invariant
            i <= ms.len(),
            member_name(ms@, id) == member_name(ms@.subrange(i as int, ms.len() as int), id),
        decreases ms.len() - i,
    {
        proof {
            assert(ms@.subrange(i as int, ms.len() as int).drop_first() =~= ms@.subrange(i + 1, ms.len() as int));
            assert(ms@.subrange(i as int, ms.len() as int)[0] == ms@[i as int]);
        }
        if ms[i].user_id == id {
            return Some(ms[i].display_name.clone());
        }
        i = i + 1;
    }
    None
}

/// Translates an inbound Discord event into events, for a bot whose user id is `own_id`.
pub fn discord_events(own_id: u64, e: DiscordEvent) -> (r: Vec<Event>)
    ensures
        event_views(r@) == discord_events_spec(own_id, e),
{
    let ghost ev = e;
    let mut r: Vec<Event> = Vec::new();
    match e {
        DiscordEvent::MessageCreate { author_id, author_name, content, channel } => {
            if author_id != own_id {
                match channel {
                    Some(DiscordChannelRef::Private { recipient }) => {
                        let author = recipient.clone();
                        r.push(
                            Event::ReceivedMessage(
                                Message { author, channel: Channel::User(recipient), content: MessageContent::Text(content) },
                            ),
                        );
                    },
                    Some(DiscordChannelRef::Public { channel_name, members }) => {
                        let author = match find_member(&members, author_id) {
                            Some(n) => n,
                            None => author_name,
                        };
                        r.push(
                            Event::ReceivedMessage(
                                Message {
                                    author,
                                    channel: Channel::Channel(channel_name),
                                    content: MessageContent::Text(content),
                                },
                            ),
                        );
                    },
                    _ => {},
                }
            }
        },
        DiscordEvent::Other(d) => {
            r.push(Event::Other(d));
        },
    }
    proof {
        assert(event_views(r@) =~= discord_events_spec(own_id, ev));
    }
    r
}

} // verus!
