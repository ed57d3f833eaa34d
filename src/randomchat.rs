use vstd::prelude::*;

use crate::dictionary::{is_walk, join, texts, learn_spec, Dictionary, MAX_SENTENCE_TOKENS, Word};
use crate::event::{Event, EventV, ResumeEventHandling, SourceEvent};
use crate::facade::CoreApi;
use crate::random::random_below;
use crate::text::{concat, is_text, views, words_of};
use crate::types::{Channel, Message, MessageContent, MessageContentV, SourceId};

verus! {

/// Chats at random with sentences from a word chain that it learns from
/// what it reads.
pub struct RandomChat {
    pub module_id: String,
    pub dict: Dictionary,
    pub dict_path: String,
    pub enabled: bool,
    pub probability: u8,
    pub timer_initialised: bool,
}

/// What a random-chat command does besides its reply: nothing, or switch
/// the module on or off.
pub enum Switch {
    Keep,
    On,
    Off,
}

/// The reply and switch of a `random` command with parameters `p`.
pub open spec fn random_command(p: Seq<Seq<char>>) -> (Seq<char>, Switch) {
    if p.len() < 2 {
        ("Not enough parameters"@, Switch::Keep)
    } else if p[1] == "enable"@ {
        ("RandomChat enabled."@, Switch::On)
    } else if p[1] == "disable"@ {
        ("RandomChat disabled."@, Switch::Off)
    } else {
        ("Unknown parameter value: "@ + p[1], Switch::Keep)
    }
}

/// Whether `s` is a sentence that the chain of `d` can generate.
pub open spec fn is_sentence(d: crate::dictionary::DictionaryV, s: Seq<char>) -> bool {
    exists|path: Seq<Word>| is_walk(d.entries, path) && path.len() <= MAX_SENTENCE_TOKENS && s == join(#[trigger] texts(d.words, path))
}

/// Whether a module with dictionary `d` can still learn a line `line`.
pub open spec fn can_learn(d: crate::dictionary::DictionaryV, line: Seq<char>) -> bool {
    d.words.len() + line.len() < u32::MAX
}

impl RandomChat {
    /// A module with identifier `id` around a loaded dictionary.
    pub fn create(id: String, dict: Dictionary, dict_path: String, enabled: bool, probability: u8) -> (r: RandomChat)
        ensures
            r.module_id == id,
            r.dict == dict,
            r.dict_path == dict_path,
            r.enabled == enabled,
            r.probability == probability,
            !r.timer_initialised,
    {
        RandomChat { module_id: id, dict, dict_path, enabled, probability, timer_initialised: false }
    }

    /// Handles a command with parameters `params`. `gadaj` replies with a
    /// generated sentence; `random` with too few parameters, `random enable`,
    /// `random disable` and `random <other>` reply with a notice and switch
    /// the module as they say; these stop the event. Other commands are not
    /// for this module: no reply, and the event goes on.
    pub fn handle_command(&mut self, params: &Vec<String>) -> (r: (Option<String>, ResumeEventHandling))
        requires
            old(self).dict.wf(),
        ensures
            final(self).dict == old(self).dict,
            final(self).module_id == old(self).module_id,
            final(self).probability == old(self).probability,
            final(self).timer_initialised == old(self).timer_initialised,
            ({
                let p = views(params@);
                if p.len() >= 1 && p[0] == "gadaj"@ {
                    &&& r.1 == ResumeEventHandling::Stop
                    &&& r.0 matches Some(s) && is_sentence(old(self).dict@, s@)
                    &&& final(self).enabled == old(self).enabled
                } else if p.len() >= 1 && p[0] == "random"@ {
                    let (reply, switch) = random_command(p);
                    &&& r.1 == ResumeEventHandling::Stop
                    &&& r.0 matches Some(s) && s@ == reply
                    &&& final(self).enabled == match switch {
                        Switch::Keep => old(self).enabled,
                        Switch::On => true,
                        Switch::Off => false,
                    }
                } else {
                    &&& r.0 is None
                    &&& r.1 == ResumeEventHandling::Resume
                    &&& final(self).enabled == old(self).enabled
                }
            }),
    {
        let ghost p = views(params@);
        if params.len() == 0 {
            return (None, ResumeEventHandling::Resume);
        }
        proof {
            assert(p[0] == params@[0]@);
            reveal_strlit("gadaj");
            reveal_strlit("random");
            reveal_strlit("enable");
            reveal_strlit("disable");
            reveal_strlit("Not enough parameters");
            reveal_strlit("RandomChat enabled.");
            reveal_strlit("RandomChat disabled.");
            reveal_strlit("Unknown parameter value: ");
        }
        if is_text(&params[0], "gadaj") {
            let s = self.dict.generate_sentence();
            return (Some(s), ResumeEventHandling::Stop);
        }
        if !is_text(&params[0], "random") {
            return (None, ResumeEventHandling::Resume);
        }
        if params.len() < 2 {
            return (Some(String::from_str("Not enough parameters")), ResumeEventHandling::Stop);
        }
        proof {
            assert(p[1] == params@[1]@);
        }
        if is_text(&params[1], "enable") {
            self.enabled = true;
            (Some(String::from_str("RandomChat enabled.")), ResumeEventHandling::Stop)
        } else if is_text(&params[1], "disable") {
            self.enabled = false;
            (Some(String::from_str("RandomChat disabled.")), ResumeEventHandling::Stop)
        } else {
            (Some(concat("Unknown parameter value: ", params[1].as_str())), ResumeEventHandling::Stop)
        }
    }

    /// Handles a message that is not a command, on a source where the bot is
    /// called `own_nick`. A disabled module does nothing. An enabled one
    /// asks for its save timer to be (re)scheduled, learns the text of
    /// messages that others wrote (while its word list has room), and replies
    /// with a generated sentence with a chance of `probability` in a hundred.
    /// Gives whether to schedule the timer, and the reply.
    pub fn handle_message(&mut self, own_nick: &str, msg: &Message) -> (r: (bool, Option<String>))
        requires
            old(self).dict.wf(),
        ensures
            final(self).dict.wf(),
            final(self).enabled == old(self).enabled,
            final(self).module_id == old(self).module_id,
            final(self).probability == old(self).probability,
            !old(self).enabled ==> r == (false, None::<String>) && final(self).dict@ == old(self).dict@,
            old(self).enabled ==> r.0 && final(self).timer_initialised,
            old(self).enabled ==> match msg.content@ {
                MessageContentV::Text(t) => if msg.author@ != own_nick@ && can_learn(old(self).dict@, t) {
                    final(self).dict@ == learn_spec(old(self).dict@, words_of(t))
                } else {
                    final(self).dict@ == old(self).dict@
                },
                _ => final(self).dict@ == old(self).dict@,
            },
            r.1 matches Some(s) ==> is_sentence(final(self).dict@, s@),
            old(self).probability == 0 ==> r.1 is None,
    {
        if !self.enabled {
            return (false, None);
        }
        self.timer_initialised = true;
        if let MessageContent::Text(t) = &msg.content {
            let own = String::from_str(own_nick);
            if msg.author != own && self.dict.word_count() < 0xFFFF_FFFF && t.unicode_len() < 0xFFFF_FFFF - self.dict.word_count() {
                self.dict.learn_from_line(t.as_str());
            }
        }
        let draw = random_below(100);
        if draw < self.probability as u128 {
            let s = self.dict.generate_sentence();
            (true, Some(s))
        } else {
            (true, None)
        }
    }

    /// Whether timer `id` is this module's save timer: then the caller saves
    /// the dictionary, schedules the timer again and stops the event.
    pub fn handle_timer(&self, id: &String) -> (r: bool)
        ensures
            r == (id@ == self.module_id@),
    {
        *id == self.module_id
    }
}

/// How long the save timer waits, in milliseconds.
pub const SAVE_INTERVAL_MS: u64 = 600000;

fn send_reply<A: CoreApi>(core: &mut A, source: &SourceId, channel: Channel, text: String) {
    let msg = Message { author: String::new(), channel, content: MessageContent::Text(text) };
    let _ = core.send(source, msg);
}

impl RandomChat {
    /// Handles one event under command prefix `prefix`: commands go to
    /// `handle_command`, other messages to `handle_message`, and this
    /// module's save timer is scheduled again and stops the event. Replies go
    /// out through `core`. Gives how the event goes on, and whether the
    /// dictionary is due to be saved, which the caller does.
    pub fn handle_event<A: CoreApi>(&mut self, core: &mut A, event: SourceEvent, prefix: &str) -> (r: (
        ResumeEventHandling,
        bool,
    ))
        requires
            old(self).dict.wf(),
        ensures
            final(self).dict.wf(),
            final(self).module_id == old(self).module_id,
            r.1 <==> (event.event@ matches EventV::Timer(id) && id == old(self).module_id@),
            r.1 ==> r.0 == ResumeEventHandling::Stop && final(self).dict == old(self).dict,
    {
        let SourceEvent { source, event } = event;
        match event {
            Event::ReceivedMessage(msg) => {
                match msg.parse_command(prefix) {
                    Some(cmd) => {
                        let (text, handling) = self.handle_command(&cmd.params);
                        if let Some(text) = text {
                            send_reply(core, &source, cmd.channel, text);
                        }
                        (handling, false)
                    },
                    None => {
                        let nick = core.get_nick(&source);
                        let (schedule, text) = self.handle_message(nick.as_str(), &msg);
                        if schedule {
                            core.schedule_timer(self.module_id.clone(), SAVE_INTERVAL_MS);
                        }
                        if let Some(text) = text {
                            send_reply(core, &source, msg.channel, text);
                        }
                        (ResumeEventHandling::Resume, false)
                    },
                }
            },
            Event::Timer(id) => {
                if self.handle_timer(&id) {
                    core.schedule_timer(self.module_id.clone(), SAVE_INTERVAL_MS);
                    (ResumeEventHandling::Stop, true)
                } else {
                    (ResumeEventHandling::Resume, false)
                }
            },
            _ => (ResumeEventHandling::Resume, false),
        }
    }
}

} // verus!
