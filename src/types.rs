use vstd::prelude::*;

use vstd::string::StrSliceExecFns;
use crate::text::{has_prefix, split_on, split_spec, starts_with, suffix_from, views};

verus! {

/// Identifier of a configured event source.
#[derive(Debug, Hash)]
pub struct SourceId(pub String);

impl Clone for SourceId {
    fn clone(&self) -> (r: Self)
        ensures
            r@ == self@,
    {
        SourceId(self.0.clone())
    }
}

impl View for SourceId {
    type V = Seq<char>;

    open spec fn view(&self) -> Seq<char> {
        self.0@
    }
}

impl PartialEq for SourceId {
    fn eq(&self, o: &SourceId) -> (r: bool) {
        self.0 == o.0
    }
}

impl vstd::std_specs::cmp::PartialEqSpecImpl for SourceId {
    open spec fn obeys_eq_spec() -> bool {
        true
    }

    open spec fn eq_spec(&self, o: &SourceId) -> bool {
        self@ == o@
    }
}

impl Eq for SourceId {

}

/// The identifier that timer and other system events carry.
pub open spec fn core_id() -> Seq<char> {
    seq!['c', 'o', 'r', 'e']
}

impl SourceId {
    /// The reserved identifier of the core itself.
    pub fn core_source() -> (r: SourceId)
        ensures
            r@ == core_id(),
    {
        let s = "core";
        proof {
            reveal_strlit("core");
        }
        SourceId(s.to_owned())
    }

    /// Whether this is the reserved identifier of the core.
    pub fn is_core(&self) -> (r: bool)
        ensures
            r == (self@ == core_id()),
    {
        let c = SourceId::core_source();
        self.0 == c.0
    }
}

/// Different kinds of communication channels.
#[derive(Debug)]
pub enum Channel {
    NoChannel,
    Channel(String),
    User(String),
    Group(Vec<String>),
}

/// The mathematical form of a channel.
pub enum ChannelV {
    NoChannel,
    Channel(Seq<char>),
    User(Seq<char>),
    Group(Seq<Seq<char>>),
}

impl View for Channel {
    type V = ChannelV;

    open spec fn view(&self) -> ChannelV {
        match self {
            Channel::NoChannel => ChannelV::NoChannel,
            Channel::Channel(c) => ChannelV::Channel(c@),
            Channel::User(u) => ChannelV::User(u@),
            Channel::Group(g) => ChannelV::Group(views(g@)),
        }
    }
}

/// Copies a list of names.
fn clone_names(v: &Vec<String>) -> (r: Vec<String>)
    ensures
        views(r@) == views(v@),
{
    let mut r: Vec<String> = Vec::new();
    let mut i: usize = 0;
    while i < v.len()
        invariant
            i <= v.len(),
            views(r@) == views(v@.subrange(0, i as int)),
        decreases v.len() - i,
    {
        let ghost before = r@;
        r.push(v[i].clone());
        proof {
            assert(views(r@) =~= views(before).push(v@[i as int]@));
            assert(views(v@.subrange(0, i + 1)) =~= views(v@.subrange(0, i as int)).push(
                v@[i as int]@,
            ));
        }
        i = i + 1;
    }
    proof {
        assert(v@.subrange(0, v.len() as int) =~= v@);
    }
    r
}

/// Whether two lists of names are equal.
fn same_names(a: &Vec<String>, b: &Vec<String>) -> (r: bool)
    ensures
        r == (views(a@) == views(b@)),
{
    if a.len() != b.len() {
        proof {
            assert(views(a@).len() != views(b@).len());
        }
        return false;
    }
    let mut i: usize = 0;
    while i < a.len()
        invariant
            a.len() == b.len(),
            i <= a.len(),
            forall|j: int| 0 <= j < i ==> a@[j]@ == b@[j]@,
        decreases a.len() - i,
    {
        if a[i] != b[i] {
            proof {
                assert(views(a@)[i as int] != views(b@)[i as int]);
            }
            return false;
        }
        i = i + 1;
    }
    proof {
        assert(views(a@) =~= views(b@));
    }
    true
}

impl Clone for Channel {
    fn clone(&self) -> (r: Self)
        ensures
            r@ == self@,
    {
        match self {
            Channel::NoChannel => Channel::NoChannel,
            Channel::Channel(c) => Channel::Channel(c.clone()),
            Channel::User(u) => Channel::User(u.clone()),
            Channel::Group(g) => Channel::Group(clone_names(g)),
        }
    }
}

impl PartialEq for Channel {
    fn eq(&self, o: &Channel) -> (r: bool) {
        match self {
            Channel::NoChannel => o.is_no_channel(),
            Channel::Channel(a) => match o {
                Channel::Channel(b) => *a == *b,
                _ => false,
            },
            Channel::User(a) => match o {
                Channel::User(b) => *a == *b,
                _ => false,
            },
            Channel::Group(a) => match o {
                Channel::Group(b) => same_names(a, b),
                _ => false,
            },
        }
    }
}

impl Channel {
    /// Whether this is the absence of a channel.
    pub fn is_no_channel(&self) -> (r: bool)
        ensures
            r == (self@ == ChannelV::NoChannel),
    {
        match self {
            Channel::NoChannel => true,
            _ => false,
        }
    }
}

impl vstd::std_specs::cmp::PartialEqSpecImpl for Channel {
    open spec fn obeys_eq_spec() -> bool {
        true
    }

    open spec fn eq_spec(&self, o: &Channel) -> bool {
        self@ == o@
    }
}

/// Content of a message.
#[derive(Debug)]
pub enum MessageContent {
    /// Simple text message
    Text(String),
    /// An image
    Image,
    /// A /me type message
    Me(String),
}

/// The mathematical form of message content.
pub enum MessageContentV {
    Text(Seq<char>),
    Image,
    Me(Seq<char>),
}

impl View for MessageContent {
    type V = MessageContentV;

    open spec fn view(&self) -> MessageContentV {
        match self {
            MessageContent::Text(t) => MessageContentV::Text(t@),
            MessageContent::Image => MessageContentV::Image,
            MessageContent::Me(t) => MessageContentV::Me(t@),
        }
    }
}

impl Clone for MessageContent {
    fn clone(&self) -> (r: Self)
        ensures
            r@ == self@,
    {
        match self {
            MessageContent::Text(t) => MessageContent::Text(t.clone()),
            MessageContent::Image => MessageContent::Image,
            MessageContent::Me(t) => MessageContent::Me(t.clone()),
        }
    }
}

/// The log line of a message sent under `nick`.
pub open spec fn display_spec(c: MessageContentV, nick: Seq<char>) -> Seq<char> {
    match c {
        MessageContentV::Text(t) => seq!['<'] + nick + seq!['>', ' '] + t,
        MessageContentV::Me(t) => seq!['*', ' '] + nick + seq![' '] + t,
        MessageContentV::Image => seq!['<'] + nick + seq!['>', ' ', '[', 'I', 'm', 'a', 'g', 'e', ']'],
    }
}

impl MessageContent {
    /// Renders the content as a log line under `nick`: `<nick> text`,
    /// `* nick text` or `<nick> [Image]`.
    pub fn display_with_nick(&self, nick: &str) -> (r: String)
        ensures
            r@ == display_spec(self@, nick@),
    {
        match self {
            MessageContent::Text(txt) => {
                let open = "<";
                let close = "> ";
                proof {
                    reveal_strlit("<");
                    reveal_strlit("> ");
                }
                let r = crate::text::concat(open, nick);
                let r = crate::text::concat(r.as_str(), close);
                crate::text::concat(r.as_str(), txt.as_str())
            },
            MessageContent::Me(txt) => {
                let star = "* ";
                let space = " ";
                proof {
                    reveal_strlit("* ");
                    reveal_strlit(" ");
                }
                let r = crate::text::concat(star, nick);
                let r = crate::text::concat(r.as_str(), space);
                crate::text::concat(r.as_str(), txt.as_str())
            },
            MessageContent::Image => {
                let open = "<";
                let close = "> [Image]";
                proof {
                    reveal_strlit("<");
                    reveal_strlit("> [Image]");
                }
                let r = crate::text::concat(open, nick);
                crate::text::concat(r.as_str(), close)
            },
        }
    }
}

/// Message content bundled with the author and the channel.
#[derive(Debug)]
pub struct Message {
    pub author: String,
    pub channel: Channel,
    pub content: MessageContent,
}

/// The mathematical form of a message.
pub struct MessageV {
    pub author: Seq<char>,
    pub channel: ChannelV,
    pub content: MessageContentV,
}

impl View for Message {
    type V = MessageV;

    open spec fn view(&self) -> MessageV {
        MessageV { author: self.author@, channel: self.channel@, content: self.content@ }
    }
}

impl Clone for Message {
    fn clone(&self) -> (r: Self)
        ensures
            r@ == self@,
    {
        Message {
            author: self.author.clone(),
            channel: self.channel.clone(),
            content: self.content.clone(),
        }
    }
}

/// A command: a text message that starts with the command prefix.
#[derive(Debug)]
pub struct Command {
    pub sender: String,
    pub channel: Channel,
    pub params: Vec<String>,
}

/// The mathematical form of a command.
pub struct CommandV {
    pub sender: Seq<char>,
    pub channel: ChannelV,
    pub params: Seq<Seq<char>>,
}

impl View for Command {
    type V = CommandV;

    open spec fn view(&self) -> CommandV {
        CommandV { sender: self.sender@, channel: self.channel@, params: views(self.params@) }
    }
}

impl Clone for Command {
    fn clone(&self) -> (r: Self)
        ensures
            r@ == self@,
    {
        Command {
            sender: self.sender.clone(),
            channel: self.channel.clone(),
            params: clone_names(&self.params),
        }
    }
}

/// The command that message `m` carries under command prefix `prefix`.
pub open spec fn command_of(m: MessageV, prefix: Seq<char>) -> Option<CommandV> {
    match m.content {
        MessageContentV::Text(t) => if has_prefix(t, prefix) {
            Some(
                CommandV {
                    sender: m.author,
                    channel: m.channel,
                    params: split_spec(t.subrange(prefix.len() as int, t.len() as int), ' '),
                },
            )
        } else {
            None
        },
        _ => None,
    }
}

impl Message {
    /// Reads the message as a command: a text that begins with `prefix`;
    /// what follows the prefix, split at every space, gives the parameters.
    pub fn parse_command(&self, prefix: &str) -> (r: Option<Command>)
        ensures
            r matches Some(c) ==> command_of(self@, prefix@) == Some(c@),
            r is None ==> command_of(self@, prefix@) is None,
    {
        match &self.content {
            MessageContent::Text(txt) => {
                if !starts_with(txt.as_str(), prefix) {
                    return None;
                }
                let plen = prefix.unicode_len();
                let rest = suffix_from(txt.as_str(), plen);
                let params = split_on(rest.as_str(), ' ');
                Some(
                    Command {
                        sender: self.author.clone(),
                        channel: self.channel.clone(),
                        params,
                    },
                )
            },
            _ => None,
        }
    }
}

} // verus!
