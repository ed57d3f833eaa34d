use vstd::prelude::*;

use crate::dispatch::Module;
use crate::event::{Event, ResumeEventHandling, SourceEvent};
use crate::facade::CoreApi;
use crate::types::{command_of, Message, MessageContent, MessageContentV, MessageV};

verus! {

#[verifier::external_type_specification]
#[verifier::external_body]
pub struct ExRegex(regex::Regex);

/// Whether regular expression `pattern` matches somewhere in `text`, as
/// `regex::Regex::is_match` decides it.
pub uninterp spec fn pattern_matches(pattern: Seq<char>, text: Seq<char>) -> bool;

/// Relies on `regex::Regex::new`: compiles `source`, or fails on an invalid expression.
#[verifier::external_body]
fn compile_regex(source: &str) -> (r: Option<regex::Regex>) {
    regex::Regex::new(source).ok()
}

/// A regular expression and the response it triggers.
pub struct Pattern {
    source: String,
    regex: regex::Regex,
    response: String,
}

impl View for Pattern {
    /// The source of the expression and the response.
    type V = (Seq<char>, Seq<char>);

    closed spec fn view(&self) -> (Seq<char>, Seq<char>) {
        (self.source@, self.response@)
    }
}

/// Relies on `regex::Regex::is_match`, on the expression that `Pattern::new`
/// compiled from the pattern's source (the private fields are set nowhere else).
#[verifier::external_body]
fn regex_is_match(p: &Pattern, text: &str) -> (r: bool)
    ensures
        r == pattern_matches(p@.0, text@),
{
    p.regex.is_match(text)
}

impl Pattern {
    /// The source of the expression.
    pub fn source(&self) -> (r: &String)
        ensures
            r@ == self@.0,
    {
        &self.source
    }

    /// The response.
    pub fn response(&self) -> (r: &String)
        ensures
            r@ == self@.1,
    {
        &self.response
    }

    /// A pattern from the source of a regular expression; `None` when the
    /// expression does not compile.
    pub fn new(source: String, response: String) -> (r: Option<Pattern>)
        ensures
            r matches Some(p) ==> p@ == (source@, response@),
    {
        match compile_regex(source.as_str()) {
            Some(regex) => Some(Pattern { source, regex, response }),
            None => None,
        }
    }
}

/// Answers text messages that match configured regular expressions.
pub struct Patterns {
    pub module_id: String,
    pub enabled: bool,
    pub prefix: String,
    pub patterns: Vec<Pattern>,
}

/// The responses of the patterns that match `t`, in order.
pub open spec fn matching_responses(ps: Seq<Pattern>, t: Seq<char>) -> Seq<Seq<char>>
    decreases ps.len(),
{
    if ps.len() == 0 {
        Seq::empty()
    } else {
        let prev = matching_responses(ps.drop_last(), t);
        if pattern_matches(ps.last()@.0, t) {
            prev.push(ps.last()@.1)
        } else {
            prev
        }
    }
}

/// The replies to message `m`: none to a command or to what is not text.
pub open spec fn pattern_replies(ps: Seq<Pattern>, prefix: Seq<char>, m: MessageV) -> Seq<Seq<char>> {
    if command_of(m, prefix) is Some {
        Seq::empty()
    } else {
        match m.content {
            MessageContentV::Text(t) => matching_responses(ps, t),
            _ => Seq::empty(),
        }
    }
}

impl Patterns {
    /// A module with identifier `id` and its patterns.
    pub fn create(id: String, prefix: String, patterns: Vec<Pattern>) -> (r: Patterns)
        ensures
            r.module_id == id,
            r.enabled,
            r.prefix == prefix,
            r.patterns == patterns,
    {
        Patterns { module_id: id, enabled: true, prefix, patterns }
    }

    /// The replies to `msg`.
    pub fn replies(&self, msg: &Message) -> (r: Vec<String>)
        ensures
            crate::text::views(r@) == pattern_replies(self.patterns@, self.prefix@, msg@),
    {
        let mut r: Vec<String> = Vec::new();
        if msg.parse_command(self.prefix.as_str()).is_some() {
            proof {
                assert(crate::text::views(r@) =~= Seq::<Seq<char>>::empty());
            }
            return r;
        }
        let txt = match &msg.content {
            MessageContent::Text(t) => t,
            _ => {
                proof {
                    assert(crate::text::views(r@) =~= Seq::<Seq<char>>::empty());
                }
                return r;
            },
        };
        let ps = &self.patterns;
        let mut i: usize = 0;
        proof {
            assert(ps@.subrange(0, 0) =~= Seq::<Pattern>::empty());
            assert(crate::text::views(r@) =~= Seq::<Seq<char>>::empty());
        }
        while i < ps.len()
            invariant
                i <= ps.len(),
                crate::text::views(r@) == matching_responses(ps@.subrange(0, i as int), txt@),
            decreases ps.len() - i,
        {
            proof {
                assert(ps@.subrange(0, i + 1).drop_last() =~= ps@.subrange(0, i as int));
                assert(ps@.subrange(0, i + 1).last() == ps@[i as int]);
            }
            if regex_is_match(&ps[i], txt.as_str()) {
                let ghost before = r@;
                r.push(ps[i].response.clone());
                proof {
                    assert(crate::text::views(r@) =~= crate::text::views(before).push(ps@[i as int]@.1));
                }
            }
            i = i + 1;
        }
        proof {
            assert(ps@.subrange(0, ps.len() as int) =~= ps@);
        }
        r
    }
}

impl<A: CoreApi> Module<A> for Patterns {
    fn handle_event(&mut self, core: &mut A, event: SourceEvent) -> ResumeEventHandling {
        if !self.enabled {
            return ResumeEventHandling::Resume;
        }
        if let Event::ReceivedMessage(msg) = &event.event {
            let replies = self.replies(msg);
            let mut i: usize = 0;
            while i < replies.len()
                invariant
                    i <= replies.len(),
                decreases replies.len() - i,
            {
                let out = Message {
                    author: String::new(),
                    channel: msg.channel.clone(),
                    content: MessageContent::Text(replies[i].clone()),
                };
                let _ = core.send(&event.source, out);
                i = i + 1;
            }
        }
        ResumeEventHandling::Resume
    }
}

} // verus!
