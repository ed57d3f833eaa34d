use universal_chat::bytes::{to_4u8, to_u32};
use universal_chat::dictionary::{Dictionary, Word};
use universal_chat::eightball::Eightball;
use universal_chat::event::{Event, ResumeEventHandling, SourceEvent};
use universal_chat::patterns::{Pattern, Patterns};
use universal_chat::randomchat::RandomChat;
use universal_chat::types::{Channel, Message, MessageContent, SourceId};

fn text(author: &str, t: &str) -> Message {
    Message { author: author.to_string(), channel: Channel::Channel("#c".to_string()), content: MessageContent::Text(t.to_string()) }
}

fn strings(v: &[&str]) -> Vec<String> {
    v.iter().map(|s| s.to_string()).collect()
}

#[test]
fn four_byte_numbers() {
    assert_eq!(to_4u8(0x12345678), [0x78, 0x56, 0x34, 0x12]);
    assert_eq!(to_u32(&[0x78, 0x56, 0x34, 0x12]), Some(0x12345678));
    assert_eq!(to_u32(&[1, 2, 3]), None);
    assert_eq!(to_u32(&[0xFF, 0xFF, 0xFF, 0xFF, 9]), Some(u32::MAX));
}

#[test]
fn word_tokens_round_trip() {
    for w in [Word::Start1, Word::Start2, Word::End, Word::Word(0), Word::Word(258), Word::Word(u32::MAX)] {
        let b = w.into_bytes();
        assert_eq!(Word::from_bytes(&b), Some(w));
    }
    assert_eq!(Word::Word(258).into_bytes(), [0, 2, 1, 0, 0]);
    assert_eq!(Word::End.into_bytes(), [0xFF, 0, 0, 0, 0]);
    assert_eq!(Word::from_bytes(&[7, 0, 0, 0, 0]), None);
    assert_eq!(Word::from_bytes(&[1, 0, 0, 0]), None);
}

#[test]
fn one_line_chain_generates_that_line() {
    let mut d = Dictionary::new();
    d.learn_from_line("hello big world");
    assert_eq!(d.word_count(), 3);
    for _ in 0..5 {
        assert_eq!(d.generate_sentence(), "hello big world");
    }
}

#[test]
fn words_are_shared_case_insensitively() {
    let mut d = Dictionary::new();
    d.learn_from_line("Hello there");
    d.learn_from_line("hello THERE friend");
    assert_eq!(d.word_count(), 3);
}

#[test]
fn empty_dictionary_generates_nothing() {
    let d = Dictionary::new();
    assert_eq!(d.generate_sentence(), "");
    assert_eq!(d.choose_next(Word::Start1, Word::Start2, 0), None);
}

#[test]
fn weighted_choice_by_draw() {
    let mut d = Dictionary::new();
    d.learn_from_line("a");
    d.learn_from_line("a");
    d.learn_from_line("b");
    // after the start markers: "a" counted twice, then "b" once
    assert_eq!(d.choose_next(Word::Start1, Word::Start2, 0), Some(Word::Word(0)));
    assert_eq!(d.choose_next(Word::Start1, Word::Start2, 1), Some(Word::Word(0)));
    assert_eq!(d.choose_next(Word::Start1, Word::Start2, 2), Some(Word::Word(1)));
    assert_eq!(d.choose_next(Word::Start1, Word::Start2, 3), None);
}

#[test]
fn dictionary_bytes_round_trip() {
    let mut d = Dictionary::new();
    d.learn_from_line("the cat sat on the mat");
    d.learn_from_line("the dog sat");
    d.learn_from_line("zażółć gęślą jaźń");
    let bytes = d.to_bytes().unwrap();
    let e = Dictionary::from_bytes(&bytes).unwrap();
    assert_eq!(e.to_bytes().unwrap(), bytes);
    assert_eq!(e.word_count(), d.word_count());
    for w1 in [Word::Start1, Word::Start2, Word::Word(0), Word::Word(1), Word::Word(2)] {
        for w2 in [Word::Start2, Word::Word(0), Word::Word(1), Word::Word(2), Word::Word(3)] {
            for draw in 0..4u128 {
                assert_eq!(d.choose_next(w1, w2, draw), e.choose_next(w1, w2, draw));
            }
        }
    }
}

#[test]
fn empty_dictionary_bytes() {
    let d = Dictionary::new();
    let bytes = d.to_bytes().unwrap();
    assert_eq!(bytes, vec![0, 0, 0, 0, 0, 0, 0, 0]);
    assert_eq!(Dictionary::from_bytes(&bytes).unwrap().word_count(), 0);
}

#[test]
fn malformed_dictionary_bytes() {
    assert!(Dictionary::from_bytes(&[]).is_none());
    assert!(Dictionary::from_bytes(&[1, 0, 0, 0]).is_none());
    // one word announced with two bytes that are not UTF-8
    assert!(Dictionary::from_bytes(&[1, 0, 0, 0, 2, 0, 0, 0, 0xC3, 0x28, 0, 0, 0, 0]).is_none());
    // an entry whose successor names a word that does not exist
    let mut b = vec![0, 0, 0, 0, 1, 0, 0, 0];
    b.extend_from_slice(&Word::Start1.into_bytes());
    b.extend_from_slice(&Word::Start2.into_bytes());
    b.extend_from_slice(&[1, 0, 0, 0]);
    b.extend_from_slice(&Word::Word(5).into_bytes());
    b.extend_from_slice(&[1, 0, 0, 0]);
    assert!(Dictionary::from_bytes(&b).is_none());
}

#[test]
fn eightball_replies_with_asker() {
    let e = Eightball::create("8".to_string(), "!".to_string(), strings(&["Yes, %s.", "No"]));
    assert_eq!(e.reply_for(&text("ann", "!eightball will it rain"), 0).unwrap(), "Yes, ann.");
    assert_eq!(e.reply_for(&text("ann", "!eightball will it rain"), 1).unwrap(), "No");
    assert!(e.reply_for(&text("ann", "!eightball"), 0).is_none());
    assert!(e.reply_for(&text("ann", "eightball will it"), 0).is_none());
    assert!(e.reply_for(&text("ann", "!other q"), 0).is_none());
    assert!(e.reply_for(&text("ann", "!eightball q"), 2).is_none());
}

#[test]
fn patterns_reply_to_matches() {
    let ps = vec![
        Pattern::new("^hi".to_string(), "hello!".to_string()).unwrap(),
        Pattern::new("[0-9]+".to_string(), "numbers".to_string()).unwrap(),
    ];
    assert_eq!(ps[0].source(), "^hi");
    assert_eq!(ps[1].response(), "numbers");
    let p = Patterns::create("p".to_string(), "!".to_string(), ps);
    assert_eq!(p.replies(&text("u", "hi 42")), vec!["hello!", "numbers"]);
    assert_eq!(p.replies(&text("u", "say hi")), Vec::<String>::new());
    assert_eq!(p.replies(&text("u", "!hi 42")), Vec::<String>::new());
    assert!(Pattern::new("(".to_string(), "x".to_string()).is_none());
}

fn chat() -> RandomChat {
    let mut d = Dictionary::new();
    d.learn_from_line("only this sentence");
    RandomChat::create("rc".to_string(), d, "dict.dat".to_string(), false, 0)
}

#[test]
fn random_chat_commands() {
    let mut c = chat();
    let (r, h) = c.handle_command(&strings(&["gadaj"]));
    assert_eq!(r.unwrap(), "only this sentence");
    assert_eq!(h, ResumeEventHandling::Stop);
    let (r, h) = c.handle_command(&strings(&["random"]));
    assert_eq!(r.unwrap(), "Not enough parameters");
    assert_eq!(h, ResumeEventHandling::Stop);
    let (r, _) = c.handle_command(&strings(&["random", "enable"]));
    assert_eq!(r.unwrap(), "RandomChat enabled.");
    assert!(c.enabled);
    let (r, _) = c.handle_command(&strings(&["random", "disable"]));
    assert_eq!(r.unwrap(), "RandomChat disabled.");
    assert!(!c.enabled);
    let (r, _) = c.handle_command(&strings(&["random", "maybe"]));
    assert_eq!(r.unwrap(), "Unknown parameter value: maybe");
    let (r, h) = c.handle_command(&strings(&["weather"]));
    assert!(r.is_none());
    assert_eq!(h, ResumeEventHandling::Resume);
}

#[test]
fn random_chat_messages() {
    let mut c = chat();
    assert_eq!(c.handle_message("bot", &text("u", "new words here")), (false, None));
    assert_eq!(c.dict.word_count(), 3);
    c.enabled = true;
    let (schedule, reply) = c.handle_message("bot", &text("u", "new words here"));
    assert!(schedule);
    assert!(reply.is_none());
    assert_eq!(c.dict.word_count(), 6);
    c.handle_message("bot", &text("bot", "ignored own words"));
    assert_eq!(c.dict.word_count(), 6);
    assert!(c.handle_timer(&"rc".to_string()));
    assert!(!c.handle_timer(&"other".to_string()));
}

#[test]
fn random_chat_always_replies_at_full_probability() {
    let mut d = Dictionary::new();
    d.learn_from_line("same");
    let mut c = RandomChat::create("rc".to_string(), d, "d".to_string(), true, 100);
    let (_, reply) = c.handle_message("bot", &text("bot", "x"));
    assert_eq!(reply.unwrap(), "same");
}

#[derive(Default)]
struct Outbox {
    sent: Vec<(String, String)>,
    timers: Vec<(String, u64)>,
}

impl universal_chat::facade::CoreApi for Outbox {
    fn send(&mut self, source: &universal_chat::types::SourceId, msg: Message) -> Result<(), universal_chat::event::SourceError> {
        let text = match msg.content {
            MessageContent::Text(t) => t,
            _ => String::new(),
        };
        self.sent.push((source.0.clone(), text));
        Ok(())
    }
    fn get_nick(&self, _source: &universal_chat::types::SourceId) -> String {
        "bot".to_string()
    }
    fn schedule_timer(&mut self, id: String, after_ms: u64) {
        self.timers.push((id, after_ms));
    }
}

#[test]
fn random_chat_routes_events() {
    let mut c = chat();
    let mut out = Outbox::default();
    let ev = |m: Message| SourceEvent { source: SourceId("irc".to_string()), event: Event::ReceivedMessage(m) };
    let (h, save) = c.handle_event(&mut out, ev(text("u", "!random enable")), "!");
    assert_eq!((h, save), (ResumeEventHandling::Stop, false));
    assert_eq!(out.sent, vec![("irc".to_string(), "RandomChat enabled.".to_string())]);
    let (h, save) = c.handle_event(&mut out, ev(text("u", "fresh words")), "!");
    assert_eq!((h, save), (ResumeEventHandling::Resume, false));
    assert_eq!(out.timers, vec![("rc".to_string(), 600000)]);
    assert_eq!(c.dict.word_count(), 5);
    let timer = SourceEvent { source: SourceId("core".to_string()), event: Event::Timer("rc".to_string()) };
    assert_eq!(c.handle_event(&mut out, timer, "!"), (ResumeEventHandling::Stop, true));
    assert_eq!(out.timers.len(), 2);
    let other = SourceEvent { source: SourceId("core".to_string()), event: Event::Timer("x".to_string()) };
    assert_eq!(c.handle_event(&mut out, other, "!"), (ResumeEventHandling::Resume, false));
}
