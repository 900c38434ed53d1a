use chat_server::bots::{Rusty, Simple, Stats, StressTest};
use chat_server::client::{connection_refused, DEFAULT_IP, DEFAULT_PORT};

#[test]
fn simple_bot_talks_and_quits() {
    let mut bot = Simple::new();
    let mut lines = Vec::new();
    while let Some(line) = bot.next() {
        lines.push(line);
    }
    assert_eq!(lines.len(), 100);
    assert_eq!(lines[99], "/quit");
    assert!(lines[..99].iter().all(|line| !line.starts_with('/')));
    assert!(bot.next().is_none());
}

#[test]
fn rusty_bot_joins_talks_and_quits() {
    let mut bot = Rusty::new();
    let mut lines = Vec::new();
    while let Some(line) = bot.next() {
        lines.push(line);
    }
    assert_eq!(lines.len(), 100);
    assert_eq!(lines[0], "/join rust");
    assert_eq!(lines[99], "/quit");
    assert!(lines[1..99].iter().all(|line| !line.starts_with('/')));
}

#[test]
fn stress_test_bot_joins_talks_and_quits() {
    let mut bot = StressTest::new();
    let mut count = 0;
    let mut last = String::new();
    while let Some(line) = bot.next() {
        if count == 0 {
            assert_eq!(line, "/join stress-test");
        }
        count += 1;
        last = line;
    }
    assert_eq!(count, 100000);
    assert_eq!(last, "/quit");
}

#[test]
fn stats_add_up() {
    let mut total = Stats::default();
    assert_eq!(total.sent_bytes + total.got_bytes + total.sent_msgs + total.got_msgs, 0);
    let mut one = Stats::default();
    one.record_sent(5);
    one.record_sent(0);
    one.record_got(10);
    assert_eq!((one.sent_bytes, one.sent_msgs, one.got_bytes, one.got_msgs), (7, 2, 11, 1));
    let two = Stats { sent_bytes: 1, got_bytes: 2, sent_msgs: 3, got_msgs: 4 };
    assert!(total.can_add(&one));
    total.add_assign(one);
    total.add_assign(two);
    assert_eq!((total.sent_bytes, total.got_bytes, total.sent_msgs, total.got_msgs), (8, 13, 5, 5));
    let big = Stats { sent_bytes: usize::MAX, got_bytes: 0, sent_msgs: 0, got_msgs: 0 };
    assert!(!total.can_add(&big));
    assert!(Stats::default().can_add(&big));
}

#[test]
fn refused_connection_tells_how_to_start_the_server() {
    let start = "Try running: cargo run --release --bin chat-server";
    assert_eq!(DEFAULT_IP, "127.0.0.1");
    assert_eq!(DEFAULT_PORT, 42069);
    assert_eq!(
        connection_refused("127.0.0.1:42069", "127.0.0.1", 42069),
        format!("No server listening on 127.0.0.1:42069\n{}", start)
    );
    assert_eq!(
        connection_refused("127.0.0.1:8080", "127.0.0.1", 8080),
        format!("No server listening on 127.0.0.1:8080\n{} -- -p 8080", start)
    );
    assert_eq!(
        connection_refused("10.0.0.1:42069", "10.0.0.1", 42069),
        format!("No server listening on 10.0.0.1:42069\n{} -- -i 10.0.0.1", start)
    );
    assert_eq!(
        connection_refused("[::1]:1", "::1", 1),
        format!("No server listening on [::1]:1\n{} -- -i ::1 -p 1", start)
    );
}
