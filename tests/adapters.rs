use universal_chat::discord::{discord_events, DiscordChannelRef, DiscordEvent, DiscordMember};
use universal_chat::event::{Event, SourceError};
use universal_chat::slack::{get_id_by_name, get_name_by_id, prepare_slack_send, slack_events, SlackEntity, SlackEvent, SlackRoster};
use universal_chat::types::{Channel, MessageContent, SourceId};

fn entity(id: Option<&str>, name: Option<&str>) -> SlackEntity {
    SlackEntity { id: id.map(|s| s.to_string()), name: name.map(|s| s.to_string()) }
}

fn roster() -> SlackRoster {
    SlackRoster {
        users: vec![entity(Some("U1"), Some("ann")), entity(None, Some("ghost")), entity(Some("U2"), Some("bob"))],
        channels: vec![entity(Some("C1"), Some("general"))],
    }
}

#[test]
fn slack_roster_lookups() {
    let r = roster();
    assert_eq!(get_id_by_name(&r.users, "bob"), Some("U2".to_string()));
    assert_eq!(get_id_by_name(&r.users, "ghost"), None);
    assert_eq!(get_id_by_name(&r.users, "nobody"), None);
    assert_eq!(get_name_by_id(&r.users, "U1"), Some("ann".to_string()));
    assert_eq!(get_name_by_id(&r.channels, "C1"), Some("general".to_string()));
    assert_eq!(get_name_by_id(&r.channels, "C9"), None);
}

#[test]
fn slack_presence_and_noise() {
    let r = roster();
    assert!(slack_events(&r, SlackEvent::UserTyping).is_empty());
    assert!(slack_events(&r, SlackEvent::ReconnectUrl).is_empty());
    let e = slack_events(&r, SlackEvent::PresenceChange { user: "U1".to_string(), presence: "active".to_string() });
    assert!(matches!(&e[..], [Event::UserOnline(n)] if n == "ann"));
    let e = slack_events(&r, SlackEvent::PresenceChange { user: "U2".to_string(), presence: "away".to_string() });
    assert!(matches!(&e[..], [Event::UserOffline(n, None)] if n == "bob"));
    assert!(slack_events(&r, SlackEvent::PresenceChange { user: "U2".to_string(), presence: "dnd".to_string() }).is_empty());
    assert!(slack_events(&r, SlackEvent::PresenceChange { user: "U7".to_string(), presence: "active".to_string() }).is_empty());
    let e = slack_events(&r, SlackEvent::Other("Hello".to_string()));
    assert!(matches!(&e[..], [Event::Other(t)] if t == "Hello"));
}

#[test]
fn slack_messages() {
    let r = roster();
    let e = slack_events(&r, SlackEvent::StandardMessage { user: Some("U1".to_string()), channel: Some("C1".to_string()), text: Some("hey".to_string()) });
    match &e[..] {
        [Event::ReceivedMessage(m)] => {
            assert_eq!(m.author, "ann");
            assert_eq!(m.channel, Channel::Channel("general".to_string()));
        }
        other => panic!("unexpected {:?}", other),
    }
    let e = slack_events(&r, SlackEvent::StandardMessage { user: Some("U9".to_string()), channel: Some("C9".to_string()), text: Some("x".to_string()) });
    match &e[..] {
        [Event::ReceivedMessage(m)] => {
            assert_eq!(m.author, "[no author]");
            assert_eq!(m.channel, Channel::Channel("[invalid channel]".to_string()));
        }
        other => panic!("unexpected {:?}", other),
    }
    assert!(slack_events(&r, SlackEvent::StandardMessage { user: None, channel: Some("C1".to_string()), text: Some("x".to_string()) }).is_empty());
}

#[test]
fn slack_send_resolution() {
    let r = roster();
    let id = SourceId("slack".to_string());
    let out = prepare_slack_send(true, &id, &r, Channel::Channel("general".to_string()), MessageContent::Text("hi".to_string())).unwrap();
    assert_eq!(out, (Some("C1".to_string()), "hi".to_string()));
    let out = prepare_slack_send(true, &id, &r, Channel::User("bob".to_string()), MessageContent::Me("waves".to_string())).unwrap();
    assert_eq!(out, (Some("U2".to_string()), "waves".to_string()));
    let out = prepare_slack_send(true, &id, &r, Channel::User("zed".to_string()), MessageContent::Text("x".to_string())).unwrap();
    assert_eq!(out.0, None);
    assert!(matches!(prepare_slack_send(false, &id, &r, Channel::User("bob".to_string()), MessageContent::Text("x".to_string())), Err(SourceError::Disconnected(_))));
    assert!(matches!(prepare_slack_send(true, &id, &r, Channel::User("bob".to_string()), MessageContent::Image), Err(SourceError::InvalidMessage(_, _))));
}

#[test]
fn discord_messages() {
    let public = || Some(DiscordChannelRef::Public {
        channel_name: "lobby".to_string(),
        members: vec![DiscordMember { user_id: 5, display_name: "Five".to_string() }],
    });
    let e = discord_events(1, DiscordEvent::MessageCreate { author_id: 5, author_name: "five".to_string(), content: "hi".to_string(), channel: public() });
    match &e[..] {
        [Event::ReceivedMessage(m)] => {
            assert_eq!(m.author, "Five");
            assert_eq!(m.channel, Channel::Channel("lobby".to_string()));
        }
        other => panic!("unexpected {:?}", other),
    }
    let e = discord_events(1, DiscordEvent::MessageCreate { author_id: 6, author_name: "six".to_string(), content: "hi".to_string(), channel: public() });
    assert!(matches!(&e[..], [Event::ReceivedMessage(m)] if m.author == "six"));
    // the bot's own message
    assert!(discord_events(1, DiscordEvent::MessageCreate { author_id: 1, author_name: "me".to_string(), content: "x".to_string(), channel: public() }).is_empty());
    let e = discord_events(1, DiscordEvent::MessageCreate {
        author_id: 2,
        author_name: "two".to_string(),
        content: "psst".to_string(),
        channel: Some(DiscordChannelRef::Private { recipient: "Two".to_string() }),
    });
    match &e[..] {
        [Event::ReceivedMessage(m)] => {
            assert_eq!(m.author, "Two");
            assert_eq!(m.channel, Channel::User("Two".to_string()));
        }
        other => panic!("unexpected {:?}", other),
    }
    assert!(discord_events(1, DiscordEvent::MessageCreate { author_id: 2, author_name: "t".to_string(), content: "x".to_string(), channel: None }).is_empty());
    let e = discord_events(1, DiscordEvent::Other("Ready".to_string()));
    assert!(matches!(&e[..], [Event::Other(t)] if t == "Ready"));
}
