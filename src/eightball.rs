use vstd::prelude::*;

use crate::dispatch::Module;
use crate::event::{Event, ResumeEventHandling, SourceEvent};
use crate::facade::CoreApi;
use crate::random::random_below;
use crate::text::{is_text, replace, replace_all};
use crate::types::{command_of, Channel, Message, MessageContent, MessageV};

verus! {

/// Answers `eightball <question>` commands with one of its responses, in
/// which `%s` stands for the asker.
#[derive(Debug)]
pub struct Eightball {
    pub module_id: String,
    pub enabled: bool,
    pub prefix: String,
    pub responses: Vec<String>,
}

/// The reply to message `m` under command prefix `prefix` when draw `choice`
/// picks the response: only an `eightball` command with a question gets one.
pub open spec fn eightball_reply(responses: Seq<Seq<char>>, prefix: Seq<char>, m: MessageV, choice: int) -> Option<Seq<char>> {
    match command_of(m, prefix) {
        Some(c) => if c.params.len() > 1 && c.params[0] == seq!['e', 'i', 'g', 'h', 't', 'b', 'a', 'l', 'l'] && 0 <= choice
            < responses.len() {
            Some(replace_all(responses[choice], seq!['%', 's'], m.author))
        } else {
            None
        },
        None => None,
    }
}

impl Eightball {
    /// A module with identifier `id` and its responses.
    pub fn create(id: String, prefix: String, responses: Vec<String>) -> (r: Eightball)
        ensures
            r.module_id == id,
            r.enabled,
            r.prefix == prefix,
            r.responses == responses,
    {
        Eightball { module_id: id, enabled: true, prefix, responses }
    }

    /// The reply to `msg` when draw `choice` picks the response.
    pub fn reply_for(&self, msg: &Message, choice: usize) -> (r: Option<String>)
        ensures
            match r {
                Some(s) => eightball_reply(crate::text::views(self.responses@), self.prefix@, msg@, choice as int) == Some(s@),
                None => eightball_reply(crate::text::views(self.responses@), self.prefix@, msg@, choice as int) is None,
            },
    {
        let cmd = match msg.parse_command(self.prefix.as_str()) {
            Some(c) => c,
            None => return None,
        };
        proof {
            assert(cmd@.params.len() == cmd.params.len());
            assert(crate::text::views(self.responses@).len() == self.responses.len());
        }
        if cmd.params.len() <= 1 || choice >= self.responses.len() {
            return None;
        }
        let word = "eightball";
        proof {
            reveal_strlit("eightball");
            assert(word@ =~= seq!['e', 'i', 'g', 'h', 't', 'b', 'a', 'l', 'l']);
        }
        proof {
            assert(cmd@.params[0] == cmd.params@[0]@);
            assert(cmd@.params.len() == cmd.params.len());
            assert(crate::text::views(self.responses@)[choice as int] == self.responses@[choice as int]@);
        }
        if !is_text(&cmd.params[0], word) {
            return None;
        }
        let marker = "%s";
        proof {
            reveal_strlit("%s");
            assert(marker@ =~= seq!['%', 's']);
        }
        Some(replace(self.responses[choice].as_str(), marker, msg.author.as_str()))
    }
}

impl<A: CoreApi> Module<A> for Eightball {
    fn handle_event(&mut self, core: &mut A, event: SourceEvent) -> ResumeEventHandling {
        if !self.enabled || self.responses.len() == 0 {
            return ResumeEventHandling::Resume;
        }
        if let Event::ReceivedMessage(msg) = &event.event {
            let choice = random_below(self.responses.len() as u128) as usize;
            if let Some(reply) = self.reply_for(msg, choice) {
                let out = Message { author: String::new(), channel: msg.channel.clone(), content: MessageContent::Text(reply) };
                let _ = core.send(&event.source, out);
            }
        }
        ResumeEventHandling::Resume
    }
}

} // verus!
