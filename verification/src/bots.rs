//! The scripts of the bots that chat for a test of the server, and the
//! count of what a bot has sent and got.
use vstd::prelude::*;
use crate::random::{is_chatter, random_english_msg, random_rust_msg};
use crate::words::{ENGLISH, ENGLISH_EMOJIS, RUST, RUST_EMOJIS};

verus! {

/// What a bot, or all bots together, have sent and got.
#[derive(Debug)]
pub struct Stats {
    pub sent_bytes: usize,
    pub got_bytes: usize,
    pub sent_msgs: usize,
    pub got_msgs: usize,
}

impl Default for Stats {
    fn default() -> (stats: Self)
        ensures
            stats.sent_bytes == 0,
            stats.got_bytes == 0,
            stats.sent_msgs == 0,
            stats.got_msgs == 0,
    {
        Stats { sent_bytes: 0, got_bytes: 0, sent_msgs: 0, got_msgs: 0 }
    }
}

impl Stats {
    /// Whether the sums of `self` and `rhs` fit.
    pub open spec fn fits(&self, rhs: &Stats) -> bool {
        &&& self.sent_bytes + rhs.sent_bytes <= usize::MAX
        &&& self.got_bytes + rhs.got_bytes <= usize::MAX
        &&& self.sent_msgs + rhs.sent_msgs <= usize::MAX
        &&& self.got_msgs + rhs.got_msgs <= usize::MAX
    }

    /// Whether `rhs` can be added.
    pub fn can_add(&self, rhs: &Stats) -> (ok: bool)
        ensures
            ok == self.fits(rhs),
    {
        rhs.sent_bytes <= usize::MAX - self.sent_bytes && rhs.got_bytes <= usize::MAX
            - self.got_bytes && rhs.sent_msgs <= usize::MAX - self.sent_msgs && rhs.got_msgs
            <= usize::MAX - self.got_msgs
    }

    /// Adds the counts of `rhs`.
    pub fn add_assign(&mut self, rhs: Stats)
        requires
            old(self).fits(&rhs),
        ensures
            final(self).sent_bytes == old(self).sent_bytes + rhs.sent_bytes,
            final(self).got_bytes == old(self).got_bytes + rhs.got_bytes,
            final(self).sent_msgs == old(self).sent_msgs + rhs.sent_msgs,
            final(self).got_msgs == old(self).got_msgs + rhs.got_msgs,
    {
        self.sent_bytes += rhs.sent_bytes;
        self.sent_msgs += rhs.sent_msgs;
        self.got_bytes += rhs.got_bytes;
        self.got_msgs += rhs.got_msgs;
    }

    /// Counts a line of `len` bytes that was sent, with the line feed that
    /// ends it.
    pub fn record_sent(&mut self, len: usize)
        requires
            old(self).sent_bytes + len + 1 <= usize::MAX,
            old(self).sent_msgs < usize::MAX,
        ensures
            *final(self) == (Stats {
                sent_bytes: (old(self).sent_bytes + len + 1) as usize,
                sent_msgs: (old(self).sent_msgs + 1) as usize,
                ..*old(self)
            }),
    {
        self.sent_bytes += len + 1;
        self.sent_msgs += 1;
    }

    /// Counts a line of `len` bytes that has come, with the line feed that
    /// ends it.
    pub fn record_got(&mut self, len: usize)
        requires
            old(self).got_bytes + len + 1 <= usize::MAX,
            old(self).got_msgs < usize::MAX,
        ensures
            *final(self) == (Stats {
                got_bytes: (old(self).got_bytes + len + 1) as usize,
                got_msgs: (old(self).got_msgs + 1) as usize,
                ..*old(self)
            }),
    {
        self.got_bytes += len + 1;
        self.got_msgs += 1;
    }
}

/// A bot that makes small talk in the first room and then quits.
pub struct Simple {
    send_msgs: usize,
    msgs_sent: usize,
}

/// A bot that joins the room `rust`, talks shop there and then quits.
pub struct Rusty {
    send_msgs: usize,
    msgs_sent: usize,
}

/// A bot that joins the room `stress-test`, makes a great deal of small
/// talk there and then quits.
pub struct StressTest {
    send_msgs: usize,
    msgs_sent: usize,
}

impl Simple {
    /// How many lines the bot sends in all.
    pub closed spec fn total(&self) -> nat {
        self.send_msgs as nat
    }

    /// How many lines the bot has sent.
    pub closed spec fn sent(&self) -> nat {
        self.msgs_sent as nat
    }

    /// A bot that sends 100 lines.
    pub fn new() -> (bot: Self)
        ensures
            bot.total() == 100,
            bot.sent() == 0,
    {
        Self { send_msgs: 100, msgs_sent: 0 }
    }

    /// The next line of the script: small talk, and `/quit` as the last
    /// line. Nothing once all lines are sent.
    pub fn next(&mut self) -> (msg: Option<String>)
        ensures
            final(self).total() == old(self).total(),
            old(self).sent() >= old(self).total() ==> msg is None && final(self).sent() == old(
                self,
            ).sent(),
            old(self).sent() < old(self).total() ==> msg is Some && final(self).sent() == old(
                self,
            ).sent() + 1,
            msg is Some && old(self).sent() == old(self).total() - 1 ==> msg.unwrap()@ == "/quit"@,
            msg is Some && old(self).sent() != old(self).total() - 1 ==> is_chatter(
                msg.unwrap()@,
                ENGLISH@,
                ENGLISH_EMOJIS@,
                10,
            ),
    {
        if self.msgs_sent >= self.send_msgs {
            return None;
        }
        let msg = if self.msgs_sent == self.send_msgs - 1 {
            String::from_str("/quit")
        } else {
            random_english_msg()
        };
        self.msgs_sent += 1;
        Some(msg)
    }
}

impl Rusty {
    /// How many lines the bot sends in all.
    pub closed spec fn total(&self) -> nat {
        self.send_msgs as nat
    }

    /// How many lines the bot has sent.
    pub closed spec fn sent(&self) -> nat {
        self.msgs_sent as nat
    }

    /// A bot that sends 100 lines.
    pub fn new() -> (bot: Self)
        ensures
            bot.total() == 100,
            bot.sent() == 0,
    {
        Self { send_msgs: 100, msgs_sent: 0 }
    }

    /// The next line of the script: `/join rust` as the first line, then
    /// shop talk, and `/quit` as the last line. Nothing once all lines are
    /// sent.
    pub fn next(&mut self) -> (msg: Option<String>)
        ensures
            final(self).total() == old(self).total(),
            old(self).sent() >= old(self).total() ==> msg is None && final(self).sent() == old(
                self,
            ).sent(),
            old(self).sent() < old(self).total() ==> msg is Some && final(self).sent() == old(
                self,
            ).sent() + 1,
            msg is Some && old(self).sent() == 0 ==> msg.unwrap()@ == "/join rust"@,
            msg is Some && old(self).sent() != 0 && old(self).sent() == old(self).total() - 1
                ==> msg.unwrap()@ == "/quit"@,
            msg is Some && old(self).sent() != 0 && old(self).sent() != old(self).total() - 1
                ==> is_chatter(msg.unwrap()@, RUST@, RUST_EMOJIS@, 8),
    {
        if self.msgs_sent >= self.send_msgs {
            return None;
        }
        let msg = if self.msgs_sent == 0 {
            String::from_str("/join rust")
        } else if self.msgs_sent == self.send_msgs - 1 {
            String::from_str("/quit")
        } else {
            random_rust_msg()
        };
        self.msgs_sent += 1;
        Some(msg)
    }
}

impl StressTest {
    /// How many lines the bot sends in all.
    pub closed spec fn total(&self) -> nat {
        self.send_msgs as nat
    }

    /// How many lines the bot has sent.
    pub closed spec fn sent(&self) -> nat {
        self.msgs_sent as nat
    }

    /// A bot that sends 100000 lines.
    pub fn new() -> (bot: Self)
        ensures
            bot.total() == 100000,
            bot.sent() == 0,
    {
        Self { send_msgs: 100000, msgs_sent: 0 }
    }

    /// The next line of the script: `/join stress-test` as the first line,
    /// then small talk, and `/quit` as the last line. Nothing once all
    /// lines are sent.
    pub fn next(&mut self) -> (msg: Option<String>)
        ensures
            final(self).total() == old(self).total(),
            old(self).sent() >= old(self).total() ==> msg is None && final(self).sent() == old(
                self,
            ).sent(),
            old(self).sent() < old(self).total() ==> msg is Some && final(self).sent() == old(
                self,
            ).sent() + 1,
            msg is Some && old(self).sent() == 0 ==> msg.unwrap()@ == "/join stress-test"@,
            msg is Some && old(self).sent() != 0 && old(self).sent() == old(self).total() - 1
                ==> msg.unwrap()@ == "/quit"@,
            msg is Some && old(self).sent() != 0 && old(self).sent() != old(self).total() - 1
                ==> is_chatter(msg.unwrap()@, ENGLISH@, ENGLISH_EMOJIS@, 10),
    {
        if self.msgs_sent >= self.send_msgs {
            return None;
        }
        let msg = if self.msgs_sent == 0 {
            String::from_str("/join stress-test")
        } else if self.msgs_sent == self.send_msgs - 1 {
            String::from_str("/quit")
        } else {
            random_english_msg()
        };
        self.msgs_sent += 1;
        Some(msg)
    }
}

} // verus!
