use vstd::prelude::*;

use crate::event::{Event, EventV};
use crate::text::concat;
use crate::types::{MessageContent, MessageContentV};

verus! {

/// Where log lines go.
#[derive(Clone, Copy, Debug, PartialEq, Eq, Structural)]
pub enum LogMode {
    File,
    Console,
    Both,
}

impl LogMode {
    /// Whether lines go to the console.
    pub fn to_console(self) -> (r: bool)
        ensures
            r == (self == LogMode::Console || self == LogMode::Both),
    {
        self == LogMode::Console || self == LogMode::Both
    }

    /// Whether lines go to the day file.
    pub fn to_file(self) -> (r: bool)
        ensures
            r == (self == LogMode::File || self == LogMode::Both),
    {
        self == LogMode::File || self == LogMode::Both
    }
}

/// A moment as the logger reads it: the local day (a day number), the
/// time in seconds, and the local hour of the day.
#[derive(Clone, Copy, Debug, PartialEq, Eq, Structural)]
pub struct Clock {
    pub day: i64,
    pub secs: i64,
    pub hour: u32,
}

/// Seconds without a write after which a new day's file may begin at any hour.
pub const QUIET_SECS: i64 = 14400;

/// The hour from which a new day's file may begin.
pub const MORNING_HOUR: u32 = 6;

/// Which day's file log lines go to. A new day's file begins once the clock
/// has passed midnight since the last write, and either four hours have
/// passed since the last write or it is six o'clock or later.
#[derive(Clone, Copy, Debug)]
pub struct LogRotation {
    pub cur_day: i64,
    pub last_day: i64,
    pub last_secs: i64,
    pub day_passed: bool,
}

/// Whether a write at `now` begins a new day's file.
pub open spec fn rotates(s: LogRotation, now: Clock) -> bool {
    (s.day_passed || now.day > s.last_day) && (now.secs - s.last_secs > QUIET_SECS || now.hour >= MORNING_HOUR)
}

impl LogRotation {
    /// The state at start-up: writing to the day of `now`.
    pub fn new(now: Clock) -> (r: LogRotation)
        ensures
            r.cur_day == now.day,
            r.last_day == now.day,
            r.last_secs == now.secs,
            !r.day_passed,
    {
        LogRotation { cur_day: now.day, last_day: now.day, last_secs: now.secs, day_passed: false }
    }

    /// Records a write at `now` and gives the day whose file it goes to.
    pub fn on_write(&mut self, now: Clock) -> (day: i64)
        ensures
            day == (if rotates(*old(self), now) {
                now.day
            } else {
                old(self).cur_day
            }),
            final(self).cur_day == day,
            final(self).day_passed == ((old(self).day_passed || now.day > old(self).last_day) && !rotates(
                *old(self),
                now,
            )),
            final(self).last_day == now.day,
            final(self).last_secs == now.secs,
    {
        if now.day > self.last_day {
            self.day_passed = true;
        }
        let quiet = (now.secs as i128) - (self.last_secs as i128) > QUIET_SECS as i128;
        if self.day_passed && (quiet || now.hour >= MORNING_HOUR) {
            self.cur_day = now.day;
            self.day_passed = false;
        }
        self.last_day = now.day;
        self.last_secs = now.secs;
        self.cur_day
    }
}

/// The log line of an event, where it has one of its own: `<author> text`
/// for a text message, `* nick text` for an action (with the source's nick),
/// `[Image]` for an image, the text of `Other`. Other events are logged in
/// their debug form, which the caller renders.
pub open spec fn event_log_spec(e: EventV, nick: Seq<char>) -> Option<Seq<char>> {
    match e {
        EventV::ReceivedMessage(m) => match m.content {
            MessageContentV::Text(t) => Some(seq!['<'] + m.author + seq!['>', ' '] + t),
            MessageContentV::Me(t) => Some(seq!['*', ' '] + nick + seq![' '] + t),
            MessageContentV::Image => Some(seq!['[', 'I', 'm', 'a', 'g', 'e', ']']),
        },
        EventV::Other(t) => Some(t),
        _ => None,
    }
}

/// The log line of an event; see `event_log_spec`.
pub fn event_log_text(e: &Event, nick: &str) -> (r: Option<String>)
    ensures
        match r {
            Some(s) => event_log_spec(e@, nick@) == Some(s@),
            None => event_log_spec(e@, nick@) is None,
        },
{
    match e {
        Event::ReceivedMessage(m) => match &m.content {
            MessageContent::Text(t) => Some(m.content.display_with_nick(m.author.as_str())),
            MessageContent::Me(t) => Some(m.content.display_with_nick(nick)),
            MessageContent::Image => {
                let s = "[Image]";
                let empty = "";
                proof {
                    reveal_strlit("[Image]");
                    reveal_strlit("");
                }
                let r = concat(s, empty);
                proof {
                    assert(r@ =~= seq!['[', 'I', 'm', 'a', 'g', 'e', ']']);
                }
                Some(r)
            },
        },
        Event::Other(t) => Some(t.clone()),
        _ => None,
    }
}

} // verus!
