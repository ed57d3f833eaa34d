use universal_chat::event::{Event, EventSource, EventType, ResumeEventHandling, SourceError, SourceEvent, SourceType};
use universal_chat::logger::{event_log_text, Clock, LogMode, LogRotation};
use universal_chat::text::{split_on, starts_with};
use universal_chat::types::{Channel, Message, MessageContent, SourceId};

fn text_msg(author: &str, channel: Channel, text: &str) -> Message {
    Message { author: author.to_string(), channel, content: MessageContent::Text(text.to_string()) }
}

#[test]
fn mod_test_object_safety() {
    // EventSource can be used as a trait object
    let _ = |a: &mut dyn EventSource| {
        a.reconnect().unwrap();
    };
}

struct NullSource;

impl EventSource for NullSource {
    fn get_nick(&self) -> &str {
        ""
    }
    fn get_type(&self) -> SourceType {
        SourceType::Stdin
    }
    fn connect(&mut self) -> Result<(), SourceError> {
        Ok(())
    }
    fn join(&mut self, _channel: &str) -> Result<(), SourceError> {
        Ok(())
    }
    fn send(&mut self, _dst: Channel, _msg: MessageContent) -> Result<(), SourceError> {
        Ok(())
    }
    fn reconnect(&mut self) -> Result<(), SourceError> {
        Ok(())
    }
}

#[test]
fn event_source_as_trait_object() {
    let mut s = NullSource;
    let d: &mut dyn EventSource = &mut s;
    assert!(d.connect().is_ok());
    assert_eq!(d.get_nick(), "");
    assert_eq!(d.get_type(), SourceType::Stdin);
}

#[test]
fn display_text_with_nick() {
    let c = MessageContent::Text("hello".to_string());
    assert_eq!(c.display_with_nick("bob"), "<bob> hello");
}

#[test]
fn display_me_with_nick() {
    let c = MessageContent::Me("waves".to_string());
    assert_eq!(c.display_with_nick("bob"), "* bob waves");
}

#[test]
fn display_image_with_nick() {
    let c = MessageContent::Image;
    assert_eq!(c.display_with_nick("bob"), "<bob> [Image]");
}

#[test]
fn parse_command_splits_on_spaces() {
    let m = text_msg("alice", Channel::Channel("#c".to_string()), "!random enable");
    let c = m.parse_command("!").unwrap();
    assert_eq!(c.sender, "alice");
    assert_eq!(c.channel, Channel::Channel("#c".to_string()));
    assert_eq!(c.params, vec!["random".to_string(), "enable".to_string()]);
}

#[test]
fn parse_command_keeps_empty_tokens() {
    let m = text_msg("alice", Channel::User("alice".to_string()), "!!a  b ");
    let c = m.parse_command("!!").unwrap();
    let expected: Vec<String> = "a  b ".split(' ').map(|s| s.to_string()).collect();
    assert_eq!(c.params, expected);
    assert_eq!(c.params, vec!["a", "", "b", ""]);
}

#[test]
fn parse_command_prefix_only_gives_one_empty_token() {
    let m = text_msg("alice", Channel::NoChannel, "!");
    let c = m.parse_command("!").unwrap();
    assert_eq!(c.params, vec![""]);
}

#[test]
fn parse_command_without_prefix_is_none() {
    let m = text_msg("alice", Channel::NoChannel, "hello !there");
    assert!(m.parse_command("!").is_none());
}

#[test]
fn parse_command_on_non_text_is_none() {
    let m = Message { author: "a".to_string(), channel: Channel::NoChannel, content: MessageContent::Me("!x".to_string()) };
    assert!(m.parse_command("!").is_none());
    let m = Message { author: "a".to_string(), channel: Channel::NoChannel, content: MessageContent::Image };
    assert!(m.parse_command("!").is_none());
}

#[test]
fn parse_command_matches_split_for_many_texts() {
    for t in ["", "a", "a b", " x ", "héllo wörld", "many   spaces"] {
        let m = text_msg("u", Channel::NoChannel, &format!("~>{}", t));
        let c = m.parse_command("~>").unwrap();
        let expected: Vec<String> = t.split(' ').map(|s| s.to_string()).collect();
        assert_eq!(c.params, expected);
        let plain = text_msg("u", Channel::NoChannel, t);
        assert!(plain.parse_command("~>").is_none());
    }
}

#[test]
fn split_and_prefix_helpers() {
    assert_eq!(split_on("a,b,,c", ','), vec!["a", "b", "", "c"]);
    assert!(starts_with("héllo", "hé"));
    assert!(!starts_with("hé", "héllo"));
}

#[test]
fn event_types_are_total() {
    let m = |c: MessageContent| Event::ReceivedMessage(Message { author: "a".to_string(), channel: Channel::NoChannel, content: c });
    assert_eq!(Event::Connected.get_type(), EventType::Connection);
    assert_eq!(Event::Disconnected.get_type(), EventType::Connection);
    assert_eq!(Event::DirectInput("x".to_string()).get_type(), EventType::TextMessage);
    assert_eq!(m(MessageContent::Text("t".to_string())).get_type(), EventType::TextMessage);
    assert_eq!(m(MessageContent::Me("t".to_string())).get_type(), EventType::MeMessage);
    assert_eq!(m(MessageContent::Image).get_type(), EventType::ImageMessage);
    assert_eq!(Event::UserOnline("u".to_string()).get_type(), EventType::UserStatus);
    assert_eq!(Event::UserOffline("u".to_string(), None).get_type(), EventType::UserStatus);
    assert_eq!(Event::NickChange("a".to_string(), "b".to_string()).get_type(), EventType::UserStatus);
    assert_eq!(Event::Timer("t".to_string()).get_type(), EventType::Timer);
    assert_eq!(Event::Other("o".to_string()).get_type(), EventType::Other);
}

#[test]
fn event_type_is_stable_across_clones() {
    let e = Event::ReceivedMessage(text_msg("a", Channel::User("b".to_string()), "hi"));
    let f = e.clone();
    assert_eq!(e.get_type(), f.get_type());
    assert_eq!(e.get_type(), e.get_type());
}

#[test]
fn timer_event_comes_from_core() {
    let e = SourceEvent::timer("tick".to_string());
    assert!(e.source.is_core());
    assert_eq!(e.source, SourceId("core".to_string()));
    assert_eq!(e.event.get_type(), EventType::Timer);
    assert!(!SourceId("irc1".to_string()).is_core());
}

#[test]
fn resume_values_differ() {
    assert_ne!(ResumeEventHandling::Stop, ResumeEventHandling::Resume);
}

#[test]
fn channel_equality_is_structural() {
    assert_eq!(Channel::Group(vec!["a".to_string(), "b".to_string()]), Channel::Group(vec!["a".to_string(), "b".to_string()]));
    assert_ne!(Channel::Group(vec!["a".to_string()]), Channel::Group(vec!["b".to_string()]));
    assert_ne!(Channel::Channel("x".to_string()), Channel::User("x".to_string()));
    assert_eq!(Channel::NoChannel, Channel::NoChannel);
}

#[test]
fn log_modes() {
    assert!(LogMode::Both.to_console() && LogMode::Both.to_file());
    assert!(LogMode::File.to_file() && !LogMode::File.to_console());
    assert!(LogMode::Console.to_console() && !LogMode::Console.to_file());
}

#[test]
fn log_rotation_waits_for_morning() {
    let mut r = LogRotation::new(Clock { day: 10, secs: 10 * 86400 + 23 * 3600, hour: 23 });
    // past midnight, one hour later, at 00:00: stays on the old day
    assert_eq!(r.on_write(Clock { day: 11, secs: 11 * 86400, hour: 0 }), 10);
    // 02:00, two hours after the last write: still the old day
    assert_eq!(r.on_write(Clock { day: 11, secs: 11 * 86400 + 2 * 3600, hour: 2 }), 10);
    // 06:00: the new day begins
    assert_eq!(r.on_write(Clock { day: 11, secs: 11 * 86400 + 6 * 3600, hour: 6 }), 11);
}

#[test]
fn log_rotation_after_quiet_hours() {
    let mut r = LogRotation::new(Clock { day: 10, secs: 10 * 86400 + 20 * 3600, hour: 20 });
    // five quiet hours, past midnight, at 01:00: the new day begins
    assert_eq!(r.on_write(Clock { day: 11, secs: 11 * 86400 + 3600, hour: 1 }), 11);
    // same day later: no change
    assert_eq!(r.on_write(Clock { day: 11, secs: 11 * 86400 + 7200, hour: 2 }), 11);
}

#[test]
fn event_log_lines() {
    let e = Event::ReceivedMessage(text_msg("bob", Channel::Channel("#r".to_string()), "hi"));
    assert_eq!(event_log_text(&e, "me").unwrap(), "<bob> hi");
    let e = Event::ReceivedMessage(Message { author: "bob".to_string(), channel: Channel::NoChannel, content: MessageContent::Me("waves".to_string()) });
    assert_eq!(event_log_text(&e, "me").unwrap(), "* me waves");
    let e = Event::ReceivedMessage(Message { author: "bob".to_string(), channel: Channel::NoChannel, content: MessageContent::Image });
    assert_eq!(event_log_text(&e, "me").unwrap(), "[Image]");
    assert_eq!(event_log_text(&Event::Other("raw".to_string()), "me").unwrap(), "raw");
    assert!(event_log_text(&Event::Connected, "me").is_none());
}
