use vstd::prelude::*;

use crate::dispatch::Module;
use crate::event::{Event, ResumeEventHandling, SourceEvent};
use crate::facade::CoreApi;
use crate::text::concat;
use crate::types::{Channel, ChannelV, Message, MessageContent, MessageContentV, MessageV, SourceId};

verus! {

/// One end of a pipe: a channel on a source.
#[derive(Debug)]
pub struct Endpoint {
    pub source: String,
    pub channel: String,
}

/// Forwards text between channels of different sources.
#[derive(Debug)]
pub struct MsgPipe {
    pub endpoints: Vec<Endpoint>,
}

/// Whether endpoint `e` is channel `ch` on source `src`.
pub open spec fn is_endpoint(e: Endpoint, src: Seq<char>, ch: ChannelV) -> bool {
    e.source@ == src && ch == ChannelV::Channel(e.channel@)
}

/// The endpoints other than channel `ch` on source `src`, in order.
pub open spec fn other_endpoints(eps: Seq<Endpoint>, src: Seq<char>, ch: ChannelV) -> Seq<Endpoint>
    decreases eps.len(),
{
    if eps.len() == 0 {
        Seq::empty()
    } else {
        let prev = other_endpoints(eps.drop_last(), src, ch);
        if is_endpoint(eps.last(), src, ch) {
            prev
        } else {
            prev.push(eps.last())
        }
    }
}

/// The text that the pipe forwards: `[author]: text`.
pub open spec fn piped_text(author: Seq<char>, t: Seq<char>) -> Seq<char> {
    seq!['['] + author + seq![']', ':', ' '] + t
}

/// What the pipe sends for message `m` from source `src`: nothing unless `m`
/// is text from one of the endpoints; then the piped text to each other
/// endpoint, with an empty author.
pub open spec fn pipe_spec(eps: Seq<Endpoint>, src: Seq<char>, m: MessageV) -> Seq<(Seq<char>, MessageV)> {
    match m.content {
        MessageContentV::Text(t) => if exists|i: int| 0 <= i < eps.len() && is_endpoint(#[trigger] eps[i], src, m.channel) {
            other_endpoints(eps, src, m.channel).map_values(|e: Endpoint| pipe_out(e, piped_text(m.author, t)))
        } else {
            Seq::empty()
        },
        _ => Seq::empty(),
    }
}

/// The message that the pipe sends to endpoint `e` with text `t`.
pub open spec fn pipe_out(e: Endpoint, t: Seq<char>) -> (Seq<char>, MessageV) {
    (e.source@, MessageV { author: Seq::empty(), channel: ChannelV::Channel(e.channel@), content: MessageContentV::Text(t) })
}

/// The views of outbound messages.
pub open spec fn outbound_views(v: Seq<(SourceId, Message)>) -> Seq<(Seq<char>, MessageV)> {
    v.map_values(|p: (SourceId, Message)| (p.0@, p.1@))
}

impl MsgPipe {
    fn is_endpoint_exec(e: &Endpoint, src: &SourceId, ch: &Channel) -> (r: bool)
        ensures
            r == is_endpoint(*e, src@, ch@),
    {
        if e.source != src.0 {
            return false;
        }
        match ch {
            Channel::Channel(c) => *c == e.channel,
            _ => false,
        }
    }

    /// The messages to send for message `msg` arriving from `source`.
    #[verifier::rlimit(40)]
    pub fn forwards(&self, source: &SourceId, msg: &Message) -> (r: Vec<(SourceId, Message)>)
        ensures
            outbound_views(r@) == pipe_spec(self.endpoints@, source@, msg@),
    {
        let mut r: Vec<(SourceId, Message)> = Vec::new();
        let txt = match &msg.content {
            MessageContent::Text(t) => t,
            _ => {
                proof {
                    assert(outbound_views(r@) =~= Seq::<(Seq<char>, MessageV)>::empty());
                }
                return r;
            },
        };
        let eps = &self.endpoints;
        let mut found = false;
        let mut i: usize = 0;
        while i < eps.len()
            invariant
                i <= eps.len(),
                found == exists|j: int| 0 <= j < i && is_endpoint(#[trigger] eps@[j], source@, msg.channel@),
            decreases eps.len() - i,
        {
            if Self::is_endpoint_exec(&eps[i], source, &msg.channel) {
                found = true;
            }
            i = i + 1;
        }
        if !found {
            proof {
                assert(outbound_views(r@) =~= Seq::<(Seq<char>, MessageV)>::empty());
            }
            return r;
        }
        let open = "[";
        let close = "]: ";
        proof {
            reveal_strlit("[");
            reveal_strlit("]: ");
        }
        let t1 = concat(open, msg.author.as_str());
        let t2 = concat(t1.as_str(), close);
        let text = concat(t2.as_str(), txt.as_str());
        let ghost pt = piped_text(msg.author@, txt@);
        let mut k: usize = 0;
        proof {
            assert(eps@.subrange(0, 0) =~= Seq::<Endpoint>::empty());
            assert(outbound_views(r@) =~= other_endpoints(eps@.subrange(0, 0), source@, msg.channel@).map_values(|e: Endpoint| pipe_out(e, pt)));
        }
        while k < eps.len()
            invariant
                k <= eps.len(),
                pt == piped_text(msg.author@, txt@),
                text@ == pt,
                outbound_views(r@) == other_endpoints(eps@.subrange(0, k as int), source@, msg.channel@).map_values(|e: Endpoint| pipe_out(e, pt)),
            decreases eps.len() - k,
        {
            let e = &eps[k];
            let ghost prev = other_endpoints(eps@.subrange(0, k as int), source@, msg.channel@);
            proof {
                assert(eps@.subrange(0, k + 1).drop_last() =~= eps@.subrange(0, k as int));
                assert(eps@.subrange(0, k + 1).last() == eps@[k as int]);
            }
            if !Self::is_endpoint_exec(e, source, &msg.channel) {
                let empty = String::new();
                let m = Message {
                    author: empty,
                    channel: Channel::Channel(e.channel.clone()),
                    content: MessageContent::Text(text.clone()),
                };
                let sid = SourceId(e.source.clone());
                proof {
                    assert(sid@ == eps@[k as int].source@);
                    assert(m@ == pipe_out(eps@[k as int], pt).1);
                }
                let ghost before = r@;
                r.push((sid, m));
                proof {
                    assert(outbound_views(r@) =~= outbound_views(before).push(pipe_out(eps@[k as int], pt)));
                    assert(prev.push(eps@[k as int]).map_values(|e: Endpoint| pipe_out(e, pt)) =~= prev.map_values(|e: Endpoint| pipe_out(e, pt)).push(pipe_out(eps@[k as int], pt)));
                }
            }
            k = k + 1;
        }
        proof {
            assert(eps@.subrange(0, eps.len() as int) =~= eps@);
        }
        r
    }
}

impl<A: CoreApi> Module<A> for MsgPipe {
    fn handle_event(&mut self, core: &mut A, event: SourceEvent) -> ResumeEventHandling {
        if let Event::ReceivedMessage(msg) = &event.event {
            let out = self.forwards(&event.source, msg);
            let mut i: usize = 0;
            while i < out.len()
                invariant
                    i <= out.len(),
                decreases out.len() - i,
            {
                let _ = core.send(&out[i].0, out[i].1.clone());
                i = i + 1;
            }
        }
        ResumeEventHandling::Resume
    }
}

} // verus!
