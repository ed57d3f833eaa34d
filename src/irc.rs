use vstd::prelude::*;
use vstd::string::StrSliceExecFns;

use crate::event::{opt_view, Event, EventV, SourceError};
use crate::text::{split_whitespace, views, words_of};
use crate::types::{Channel, ChannelV, Message, MessageContent, MessageContentV, MessageV, SourceId};

verus! {

/// The commands of an inbound IRC message that the translation tells apart.
#[derive(Debug)]
pub enum IrcCommand {
    Ping,
    Pong,
    /// target, text
    Privmsg(String, String),
    /// the new nickname
    Nick(String),
    Join,
    /// the parting comment
    Part(Option<String>),
    /// the quit comment
    Quit(Option<String>),
    /// the list of names that a names reply carries
    NamReply(Option<String>),
    /// any other message, as its debug rendering
    Other(String),
}

/// An inbound IRC message: its raw prefix (`nick!user@host`) and command.
#[derive(Debug)]
pub struct IrcMessage {
    pub prefix: Option<String>,
    pub command: IrcCommand,
}

/// The characters of `s` before the first `c`, or all of `s`.
pub open spec fn take_until(s: Seq<char>, c: char) -> Seq<char>
    decreases s.len(),
{
    if s.len() == 0 {
        s
    } else if s[0] == c {
        Seq::<char>::empty()
    } else {
        seq![s[0]] + take_until(s.drop_first(), c)
    }
}

proof fn lemma_take_until(s: Seq<char>, c: char, i: int)
    requires
        0 <= i <= s.len(),
        forall|j: int| 0 <= j < i ==> s[j] != c,
        i == s.len() || s[i] == c,
    ensures
        take_until(s, c) == s.subrange(0, i),
    decreases s.len(),
{
    if s.len() == 0 {
        assert(s.subrange(0, 0) =~= s);
    } else if i == 0 {
        assert(s.subrange(0, 0) =~= Seq::<char>::empty());
    } else {
        lemma_take_until(s.drop_first(), c, i - 1);
        assert(seq![s[0]] + s.drop_first().subrange(0, i - 1) =~= s.subrange(0, i));
    }
}

/// The nickname in a message prefix: what precedes the first `!`; empty
/// where there is no prefix.
pub open spec fn sender_of(prefix: Option<Seq<char>>) -> Seq<char> {
    match prefix {
        Some(p) => take_until(p, '!'),
        None => Seq::<char>::empty(),
    }
}

/// The nickname in a message prefix.
pub fn sender_nick(prefix: &Option<String>) -> (r: String)
    ensures
        r@ == sender_of(opt_view(*prefix)),
{
    match prefix {
        None => String::new(),
        Some(p) => {
            let n = p.unicode_len();
            let mut i: usize = 0;
            while i < n
                invariant
                    n == p@.len(),
                    i <= n,
                    forall|j: int| 0 <= j < i ==> p@[j] != '!',
                ensures
                    i <= n,
                    forall|j: int| 0 <= j < i ==> p@[j] != '!',
                    i == n || p@[i as int] == '!',
                decreases n - i,
            {
                if p.as_str().get_char(i) == '!' {
                    break;
                }
                i = i + 1;
            }
            proof {
                lemma_take_until(p@, '!', i as int);
            }
            p.as_str().substring_char(0, i).to_owned()
        },
    }
}

/// Whether `s` names an IRC channel, that is begins with `#`.
pub open spec fn is_channel_name(s: Seq<char>) -> bool {
    s.len() > 0 && s[0] == '#'
}

/// The events that an inbound IRC message stands for.
pub open spec fn irc_events(prefix: Option<Seq<char>>, cmd: IrcCommand) -> Seq<EventV> {
    let sender = sender_of(prefix);
    match cmd {
        IrcCommand::Ping | IrcCommand::Pong => Seq::empty(),
        IrcCommand::Privmsg(target, text) => seq![
            EventV::ReceivedMessage(
                MessageV {
                    author: sender,
                    channel: if is_channel_name(target@) {
                        ChannelV::Channel(target@)
                    } else {
                        ChannelV::User(target@)
                    },
                    content: MessageContentV::Text(text@),
                },
            ),
        ],
        IrcCommand::Nick(new_nick) => seq![EventV::NickChange(sender, new_nick@)],
        IrcCommand::Join => seq![EventV::UserOnline(sender)],
        IrcCommand::Part(comment) | IrcCommand::Quit(comment) => seq![
            EventV::UserOffline(sender, opt_view(comment)),
        ],
        IrcCommand::NamReply(body) => match body {
            Some(b) => words_of(b@).map_values(|w: Seq<char>| EventV::UserOnline(w)),
            None => Seq::empty(),
        },
        IrcCommand::Other(text) => seq![EventV::Other(text@)],
    }
}

/// The views of a list of events.
pub open spec fn event_views(v: Seq<Event>) -> Seq<EventV> {
    v.map_values(|e: Event| e@)
}

/// Translates an inbound IRC message into events.
pub fn message_to_events(msg: IrcMessage) -> (r: Vec<Event>)
    ensures
        event_views(r@) == irc_events(opt_view(msg.prefix), msg.command),
{
    let sender = sender_nick(&msg.prefix);
    let ghost prefix = opt_view(msg.prefix);
    let mut r: Vec<Event> = Vec::new();
    match msg.command {
        IrcCommand::Ping | IrcCommand::Pong => {},
        IrcCommand::Privmsg(target, text) => {
            let is_chan = target.unicode_len() > 0 && target.as_str().get_char(0) == '#';
            let channel = if is_chan {
                Channel::Channel(target)
            } else {
                Channel::User(target)
            };
            r.push(
                Event::ReceivedMessage(
                    Message { author: sender, channel, content: MessageContent::Text(text) },
                ),
            );
        },
        IrcCommand::Nick(new_nick) => {
            r.push(Event::NickChange(sender, new_nick));
        },
        IrcCommand::Join => {
            r.push(Event::UserOnline(sender));
        },
        IrcCommand::Part(comment) => {
            r.push(Event::UserOffline(sender, comment));
        },
        IrcCommand::Quit(comment) => {
            r.push(Event::UserOffline(sender, comment));
        },
        IrcCommand::NamReply(body) => {
            match body {
                Some(b) => {
                    let names = split_whitespace(b.as_str());
                    let mut i: usize = 0;
                    while i < names.len()
                        invariant
                            i <= names.len(),
                            views(names@) == words_of(b@),
                            event_views(r@) == views(names@).subrange(0, i as int).map_values(
                                |w: Seq<char>| EventV::UserOnline(w),
                            ),
                        decreases names.len() - i,
                    {
                        let ghost before = r@;
                        r.push(Event::UserOnline(names[i].clone()));
                        proof {
                            assert(event_views(r@) =~= event_views(before).push(EventV::UserOnline(names@[i as int]@)));
                            assert(views(names@).subrange(0, i + 1) =~= views(names@).subrange(0, i as int).push(names@[i as int]@));
                            assert(views(names@).subrange(0, i + 1).map_values(|w: Seq<char>| EventV::UserOnline(w))
                                =~= views(names@).subrange(0, i as int).map_values(|w: Seq<char>| EventV::UserOnline(w)).push(
                                EventV::UserOnline(names@[i as int]@)));
                        }
                        i = i + 1;
                    }
                    proof {
                        assert(views(names@).subrange(0, names.len() as int) =~= views(names@));
                    }
                },
                None => {},
            }
        },
        IrcCommand::Other(text) => {
            r.push(Event::Other(text));
        },
    }
    proof {
        assert(event_views(r@) =~= irc_events(prefix, msg.command));
    }
    r
}

/// Which error, if any, sending `content` to `dst` meets on a source of the
/// IRC kind whose connection state is `connected`.
pub open spec fn send_error(connected: bool, dst: ChannelV, content: MessageContentV) -> Option<
    SendErrorKind,
> {
    if !connected {
        Some(SendErrorKind::Disconnected)
    } else if !(dst is Channel || dst is User) {
        Some(SendErrorKind::InvalidChannel)
    } else if content is Image {
        Some(SendErrorKind::InvalidMessage)
    } else {
        None
    }
}

/// The kinds of error that a send is refused with.
pub enum SendErrorKind {
    Disconnected,
    InvalidChannel,
    InvalidMessage,
}

/// The target name of a channel or user.
pub open spec fn target_of(dst: ChannelV) -> Seq<char> {
    match dst {
        ChannelV::Channel(c) => c,
        ChannelV::User(u) => u,
        _ => Seq::empty(),
    }
}

/// The text of text or action content.
pub open spec fn text_of(c: MessageContentV) -> Seq<char> {
    match c {
        MessageContentV::Text(t) => t,
        MessageContentV::Me(t) => t,
        _ => Seq::empty(),
    }
}

/// Checks an outbound message for a source that accepts only channels and
/// users as destinations and only text as content. On success it gives the
/// target name and the text to send; otherwise the error, in this order of
/// precedence: the source is disconnected, the channel is of an unsupported
/// kind, the content is an image.
pub fn prepare_send(connected: bool, id: &SourceId, dst: Channel, content: MessageContent) -> (r: Result<
    (String, String),
    SourceError,
>)
    ensures
        match send_error(connected, dst@, content@) {
            None => r matches Ok((t, x)) && t@ == target_of(dst@) && x@ == text_of(content@),
            Some(SendErrorKind::Disconnected) => r matches Err(SourceError::Disconnected(i)) && i@ == id@,
            Some(SendErrorKind::InvalidChannel) => r matches Err(SourceError::InvalidChannel(i, c)) && i@
                == id@ && c@ == dst@,
            Some(SendErrorKind::InvalidMessage) => r matches Err(SourceError::InvalidMessage(i, m)) && i@
                == id@ && m@ == content@,
        },
{
    if !connected {
        return Err(SourceError::Disconnected(id.clone()));
    }
    let target = match dst {
        Channel::Channel(c) => c,
        Channel::User(u) => u,
        _ => return Err(SourceError::InvalidChannel(id.clone(), dst)),
    };
    let text = match content {
        MessageContent::Text(t) => t,
        MessageContent::Me(t) => t,
        _ => return Err(SourceError::InvalidMessage(id.clone(), content)),
    };
    Ok((target, text))
}

} // verus!
