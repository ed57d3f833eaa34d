use universal_chat::config::{module_defs, BotConfig, ConfigError, ModuleConfig, SourceConfig};
use universal_chat::dispatch::{dispatch, get_subscribers, is_subscribed, Module, ModuleDef, Subscription};
use universal_chat::event::{Event, EventType, ResumeEventHandling, SourceError, SourceEvent, SourceType};
use universal_chat::facade::CoreApi;
use universal_chat::irc::{message_to_events, prepare_send, sender_nick, IrcCommand, IrcMessage};
use universal_chat::msg_pipe::{Endpoint, MsgPipe};
use universal_chat::timers::TimerRegistry;
use universal_chat::types::{Channel, Message, MessageContent, SourceId};

fn sid(s: &str) -> SourceId {
    SourceId(s.to_string())
}

fn subs(source: &str, types: &[EventType]) -> Subscription {
    Subscription { source: sid(source), types: types.to_vec() }
}

/// A facade that records what modules send.
#[derive(Default)]
struct Recorder {
    sent: Vec<(String, Message)>,
    timers: Vec<(String, u64)>,
}

impl CoreApi for Recorder {
    fn send(&mut self, source: &SourceId, msg: Message) -> Result<(), SourceError> {
        self.sent.push((source.0.clone(), msg));
        Ok(())
    }
    fn get_nick(&self, _source: &SourceId) -> String {
        "bot".to_string()
    }
    fn schedule_timer(&mut self, id: String, after_ms: u64) {
        self.timers.push((id, after_ms));
    }
}

/// A module that notes its calls and answers as configured.
struct Probe {
    name: &'static str,
    answer: ResumeEventHandling,
    calls: u32,
}

impl Module<Vec<&'static str>> for Probe {
    fn handle_event(&mut self, core: &mut Vec<&'static str>, _event: SourceEvent) -> ResumeEventHandling {
        self.calls += 1;
        core.push(self.name);
        self.answer
    }
}

fn probe(name: &'static str, answer: ResumeEventHandling, priority: u8, s: Vec<Subscription>) -> ModuleDef<Probe> {
    ModuleDef { object: Probe { name, answer, calls: 0 }, priority, subscriptions: s }
}

fn text_event(source: &str, author: &str, channel: Channel, text: &str) -> SourceEvent {
    SourceEvent {
        source: sid(source),
        event: Event::ReceivedMessage(Message { author: author.to_string(), channel, content: MessageContent::Text(text.to_string()) }),
    }
}

#[test]
fn subscribers_sorted_by_priority_then_position() {
    let t = [EventType::TextMessage];
    let ms = vec![
        probe("a", ResumeEventHandling::Resume, 20, vec![subs("irc", &t)]),
        probe("b", ResumeEventHandling::Resume, 10, vec![subs("irc", &t)]),
        probe("c", ResumeEventHandling::Resume, 20, vec![subs("irc", &t)]),
        probe("d", ResumeEventHandling::Resume, 0, vec![subs("slack", &t)]),
        probe("e", ResumeEventHandling::Resume, 10, vec![subs("irc", &[EventType::Timer])]),
        probe("f", ResumeEventHandling::Resume, 255, vec![subs("irc", &[EventType::Other, EventType::TextMessage])]),
    ];
    assert_eq!(get_subscribers(&ms, &sid("irc"), EventType::TextMessage), vec![1, 0, 2, 5]);
    assert_eq!(get_subscribers(&ms, &sid("slack"), EventType::TextMessage), vec![3]);
    assert_eq!(get_subscribers(&ms, &sid("irc"), EventType::Timer), vec![4]);
    assert!(get_subscribers(&ms, &sid("irc"), EventType::MeMessage).is_empty());
}

#[test]
fn empty_subscriptions_receive_nothing() {
    let ms = vec![probe("a", ResumeEventHandling::Resume, 1, vec![])];
    for t in [EventType::Connection, EventType::TextMessage, EventType::Timer, EventType::Other] {
        assert!(get_subscribers(&ms, &sid("irc"), t).is_empty());
    }
    assert!(!is_subscribed(&vec![], &sid("irc"), EventType::TextMessage));
}

#[test]
fn missing_source_receives_nothing_from_it() {
    let ms = vec![probe("a", ResumeEventHandling::Resume, 1, vec![subs("irc", &[EventType::TextMessage])])];
    assert!(get_subscribers(&ms, &sid("slack"), EventType::TextMessage).is_empty());
    assert_eq!(get_subscribers(&ms, &sid("irc"), EventType::TextMessage), vec![0]);
}

#[test]
fn priority_short_circuit() {
    let t = [EventType::TextMessage];
    let ev = text_event("console", "u", Channel::NoChannel, "!cmd");
    // A (10) stops: B (20) is not called
    let mut ms = vec![
        probe("A", ResumeEventHandling::Stop, 10, vec![subs("console", &t)]),
        probe("B", ResumeEventHandling::Stop, 20, vec![subs("console", &t)]),
    ];
    let order = get_subscribers(&ms, &ev.source, ev.event.get_type());
    let mut log: Vec<&'static str> = vec![];
    let trace = dispatch(&mut ms, &order, &mut log, &ev);
    assert_eq!(log, vec!["A"]);
    assert_eq!(trace, vec![(0, ResumeEventHandling::Stop)]);
    assert_eq!(ms[1].object.calls, 0);
    // priorities swapped: B runs first and stops A
    ms[0].priority = 20;
    ms[1].priority = 10;
    let order = get_subscribers(&ms, &ev.source, ev.event.get_type());
    let mut log: Vec<&'static str> = vec![];
    let trace = dispatch(&mut ms, &order, &mut log, &ev);
    assert_eq!(log, vec!["B"]);
    assert_eq!(trace, vec![(1, ResumeEventHandling::Stop)]);
    assert_eq!(ms[0].object.calls, 1);
}

#[test]
fn resume_lets_everyone_run() {
    let t = [EventType::TextMessage];
    let ev = text_event("console", "u", Channel::NoChannel, "x");
    let mut ms = vec![
        probe("A", ResumeEventHandling::Resume, 5, vec![subs("console", &t)]),
        probe("B", ResumeEventHandling::Resume, 1, vec![subs("console", &t)]),
        probe("C", ResumeEventHandling::Stop, 9, vec![subs("console", &t)]),
        probe("D", ResumeEventHandling::Resume, 9, vec![subs("console", &t)]),
    ];
    let order = get_subscribers(&ms, &ev.source, ev.event.get_type());
    let mut log: Vec<&'static str> = vec![];
    let trace = dispatch(&mut ms, &order, &mut log, &ev);
    assert_eq!(log, vec!["B", "A", "C"]);
    assert_eq!(trace.len(), 3);
    assert_eq!(ms[3].object.calls, 0);
}

#[test]
fn privmsg_to_channel() {
    let evs = message_to_events(IrcMessage {
        prefix: Some("n!u@h".to_string()),
        command: IrcCommand::Privmsg("#c".to_string(), "hi".to_string()),
    });
    assert_eq!(evs.len(), 1);
    match &evs[0] {
        Event::ReceivedMessage(m) => {
            assert_eq!(m.author, "n");
            assert_eq!(m.channel, Channel::Channel("#c".to_string()));
            assert!(matches!(&m.content, MessageContent::Text(t) if t == "hi"));
        }
        other => panic!("unexpected {:?}", other),
    }
}

#[test]
fn privmsg_to_user() {
    let evs = message_to_events(IrcMessage {
        prefix: Some("n!u@h".to_string()),
        command: IrcCommand::Privmsg("alice".to_string(), "yo".to_string()),
    });
    match &evs[0] {
        Event::ReceivedMessage(m) => {
            assert_eq!(m.author, "n");
            assert_eq!(m.channel, Channel::User("alice".to_string()));
        }
        other => panic!("unexpected {:?}", other),
    }
}

#[test]
fn irc_translation_table() {
    let pre = || Some("bob!b@host".to_string());
    assert!(message_to_events(IrcMessage { prefix: pre(), command: IrcCommand::Ping }).is_empty());
    assert!(message_to_events(IrcMessage { prefix: pre(), command: IrcCommand::Pong }).is_empty());
    let e = message_to_events(IrcMessage { prefix: pre(), command: IrcCommand::Nick("rob".to_string()) });
    assert!(matches!(&e[..], [Event::NickChange(a, b)] if a == "bob" && b == "rob"));
    let e = message_to_events(IrcMessage { prefix: pre(), command: IrcCommand::Join });
    assert!(matches!(&e[..], [Event::UserOnline(a)] if a == "bob"));
    let e = message_to_events(IrcMessage { prefix: pre(), command: IrcCommand::Part(Some("bye".to_string())) });
    assert!(matches!(&e[..], [Event::UserOffline(a, Some(c))] if a == "bob" && c == "bye"));
    let e = message_to_events(IrcMessage { prefix: pre(), command: IrcCommand::Quit(None) });
    assert!(matches!(&e[..], [Event::UserOffline(a, None)] if a == "bob"));
    let e = message_to_events(IrcMessage { prefix: None, command: IrcCommand::NamReply(Some("@op  alice bob".to_string())) });
    let names: Vec<String> = e.iter().map(|x| match x { Event::UserOnline(n) => n.clone(), _ => panic!() }).collect();
    assert_eq!(names, vec!["@op", "alice", "bob"]);
    assert!(message_to_events(IrcMessage { prefix: None, command: IrcCommand::NamReply(None) }).is_empty());
    let e = message_to_events(IrcMessage { prefix: None, command: IrcCommand::Other("Message { .. }".to_string()) });
    assert!(matches!(&e[..], [Event::Other(t)] if t == "Message { .. }"));
}

#[test]
fn sender_nick_forms() {
    assert_eq!(sender_nick(&Some("n!u@h".to_string())), "n");
    assert_eq!(sender_nick(&Some("server.net".to_string())), "server.net");
    assert_eq!(sender_nick(&Some("!x".to_string())), "");
    assert_eq!(sender_nick(&None), "");
}

#[test]
fn send_on_disconnected_source() {
    let r = prepare_send(false, &sid("irc1"), Channel::Channel("#c".to_string()), MessageContent::Text("x".to_string()));
    assert!(matches!(r, Err(SourceError::Disconnected(id)) if id.0 == "irc1"));
}

#[test]
fn send_image_on_irc_is_invalid_message() {
    let r = prepare_send(true, &sid("irc1"), Channel::Channel("#c".to_string()), MessageContent::Image);
    assert!(matches!(r, Err(SourceError::InvalidMessage(id, MessageContent::Image)) if id.0 == "irc1"));
}

#[test]
fn send_to_group_is_invalid_channel() {
    let r = prepare_send(true, &sid("irc1"), Channel::Group(vec!["a".to_string()]), MessageContent::Text("x".to_string()));
    assert!(matches!(r, Err(SourceError::InvalidChannel(_, Channel::Group(_)))));
    let r = prepare_send(true, &sid("irc1"), Channel::NoChannel, MessageContent::Text("x".to_string()));
    assert!(matches!(r, Err(SourceError::InvalidChannel(_, Channel::NoChannel))));
}

#[test]
fn send_text_and_action_targets() {
    let r = prepare_send(true, &sid("irc1"), Channel::User("al".to_string()), MessageContent::Me("waves".to_string())).unwrap();
    assert_eq!(r, ("al".to_string(), "waves".to_string()));
}

struct Echo;

impl<A: CoreApi> Module<A> for Echo {
    fn handle_event(&mut self, core: &mut A, event: SourceEvent) -> ResumeEventHandling {
        if let Event::ReceivedMessage(m) = event.event {
            let _ = core.send(&event.source, Message { author: String::new(), channel: m.channel, content: m.content });
        }
        ResumeEventHandling::Resume
    }
}

#[test]
fn irc_echo() {
    let evs = message_to_events(IrcMessage {
        prefix: Some("bob!b@h".to_string()),
        command: IrcCommand::Privmsg("#room".to_string(), "hi".to_string()),
    });
    let mut ms = vec![ModuleDef { object: Echo, priority: 0, subscriptions: vec![subs("irc1", &[EventType::TextMessage])] }];
    let mut api = Recorder::default();
    for e in evs {
        let ev = SourceEvent { source: sid("irc1"), event: e };
        let order = get_subscribers(&ms, &ev.source, ev.event.get_type());
        dispatch(&mut ms, &order, &mut api, &ev);
    }
    assert_eq!(api.sent.len(), 1);
    let (src, m) = api.sent.pop().unwrap();
    assert_eq!(src, "irc1");
    let out = prepare_send(true, &sid(&src), m.channel, m.content).unwrap();
    assert_eq!(out, ("#room".to_string(), "hi".to_string()));
    assert!(api.timers.is_empty());
}

#[test]
fn pipe_across_sources() {
    let mut pipe = MsgPipe {
        endpoints: vec![
            Endpoint { source: "a".to_string(), channel: "#x".to_string() },
            Endpoint { source: "b".to_string(), channel: "#y".to_string() },
        ],
    };
    let mut api = Recorder::default();
    let ev = text_event("a", "u", Channel::Channel("#x".to_string()), "hello");
    assert_eq!(pipe.handle_event(&mut api, ev), ResumeEventHandling::Resume);
    assert_eq!(api.sent.len(), 1);
    let (src, m) = &api.sent[0];
    assert_eq!(src, "b");
    assert_eq!(m.channel, Channel::Channel("#y".to_string()));
    assert!(matches!(&m.content, MessageContent::Text(t) if t == "[u]: hello"));
    assert_eq!(m.content.display_with_nick(&m.author), "<> [u]: hello");
}

#[test]
fn pipe_ignores_other_channels() {
    let pipe = MsgPipe { endpoints: vec![Endpoint { source: "a".to_string(), channel: "#x".to_string() }, Endpoint { source: "b".to_string(), channel: "#y".to_string() }] };
    let m = Message { author: "u".to_string(), channel: Channel::Channel("#z".to_string()), content: MessageContent::Text("hi".to_string()) };
    assert!(pipe.forwards(&sid("a"), &m).is_empty());
    let m = Message { author: "u".to_string(), channel: Channel::Channel("#x".to_string()), content: MessageContent::Image };
    assert!(pipe.forwards(&sid("a"), &m).is_empty());
}

#[test]
fn timer_round_trip() {
    let mut ms = vec![ModuleDef { object: Echo, priority: 0, subscriptions: vec![subs("core", &[EventType::Timer])] }];
    let ev = SourceEvent::timer("tick".to_string());
    let order = get_subscribers(&ms, &ev.source, ev.event.get_type());
    assert_eq!(order, vec![0]);
    let mut api = Recorder::default();
    let trace = dispatch(&mut ms, &order, &mut api, &ev);
    assert_eq!(trace, vec![(0, ResumeEventHandling::Resume)]);
    assert!(matches!(&ev.event, Event::Timer(id) if id == "tick"));
}

#[test]
fn reschedule_keeps_only_latest() {
    let mut reg: TimerRegistry<u32> = TimerRegistry::new();
    assert_eq!(reg.schedule("X".to_string(), 1), None);
    assert_eq!(reg.schedule("Y".to_string(), 2), None);
    assert_eq!(reg.schedule("X".to_string(), 3), Some(1));
    assert_eq!(reg.schedule("X".to_string(), 4), Some(3));
    assert!(reg.is_pending(&"X".to_string()));
    assert!(!reg.is_pending(&"Z".to_string()));
}

fn config(sources: &[&str], modules: &[(&str, &str)]) -> BotConfig {
    BotConfig {
        command_char: "!".to_string(),
        log_folder: "logs".to_string(),
        sources: sources.iter().map(|s| SourceConfig { id: s.to_string(), source_type: SourceType::Irc }).collect(),
        modules: modules
            .iter()
            .map(|(id, t)| ModuleConfig { id: id.to_string(), module_type: t.to_string(), priority: 0, subscriptions: vec![] })
            .collect(),
    }
}

#[test]
fn reserved_source_rejected() {
    let reg = vec!["MsgPipe".to_string()];
    let c = config(&["irc1", "core"], &[("p", "MsgPipe")]);
    assert!(matches!(c.validate(&reg), Err(ConfigError::ReservedSource)));
}

#[test]
fn unknown_module_type_rejected() {
    let reg = vec!["MsgPipe".to_string(), "Eightball".to_string()];
    let c = config(&["irc1"], &[("p", "MsgPipe"), ("x", "Nope")]);
    match c.validate(&reg) {
        Err(ConfigError::UnknownModuleType(id, t)) => {
            assert_eq!(id, "x");
            assert_eq!(t, "Nope");
        }
        other => panic!("unexpected {:?}", other),
    }
    let ok = config(&["irc1"], &[("p", "MsgPipe"), ("e", "Eightball")]);
    assert!(ok.validate(&reg).is_ok());
}

#[test]
fn module_defs_copy_configuration() {
    let mut c = config(&["irc1"], &[("p", "MsgPipe"), ("q", "MsgPipe")]);
    c.modules[0].priority = 7;
    c.modules[1].subscriptions = vec![subs("irc1", &[EventType::Timer])];
    let defs = module_defs(&c.modules, vec!["first", "second"]);
    assert_eq!(defs.len(), 2);
    assert_eq!(defs[0].object, "first");
    assert_eq!(defs[0].priority, 7);
    assert_eq!(defs[1].object, "second");
    assert_eq!(defs[1].subscriptions[0].types, vec![EventType::Timer]);
}
