use chat_server::listing::{sort_listing, sort_names};
use chat_server::rooms::{RoomEvent, Rooms, ROOM_CHANNEL_CAPACITY};
use tokio::sync::broadcast::error::TryRecvError;

fn entry(name: &str, count: usize) -> (String, usize) {
    (name.to_string(), count)
}

#[test]
fn join_makes_the_room_and_lists_the_user() {
    let mut rooms = Rooms::new();
    assert_eq!(rooms.len(), 0);
    let _tx = rooms.join("main", "alpha");
    assert!(rooms.contains("main"));
    assert_eq!(rooms.len(), 1);
    assert_eq!(rooms.list_users("main"), Some(vec!["alpha".to_string()]));
    let _tx = rooms.join("main", "alpha");
    assert_eq!(rooms.list_users("main"), Some(vec!["alpha".to_string()]));
}

#[test]
fn senders_of_one_room_share_one_channel() {
    let mut rooms = Rooms::new();
    let alpha = rooms.join("main", "alpha");
    let beta = rooms.join("main", "beta");
    let other = rooms.join("rust", "gamma");
    assert!(alpha.same_channel(&beta));
    assert!(!alpha.same_channel(&other));
    let mut rx = alpha.subscribe();
    assert_eq!(rooms.subscribers("main"), 1);
    beta.send(RoomEvent::Msg("beta: hi".to_string())).unwrap();
    match rx.try_recv() {
        Ok(RoomEvent::Msg(line)) => assert_eq!(line, "beta: hi"),
        _ => panic!("the event of the room is missing"),
    }
}

#[test]
fn new_room_has_no_receiver() {
    let mut rooms = Rooms::new();
    let tx = rooms.join("main", "alpha");
    assert_eq!(rooms.subscribers("main"), 0);
    assert_eq!(rooms.subscribers("nowhere"), 0);
    let _rx = tx.subscribe();
    let _more = tx.subscribe();
    assert_eq!(rooms.subscribers("main"), 2);
}

#[test]
fn channel_keeps_the_last_1024_events() {
    assert_eq!(ROOM_CHANNEL_CAPACITY, 1024);
    let mut rooms = Rooms::new();
    let tx = rooms.join("main", "alpha");
    let mut rx = tx.subscribe();
    for i in 0..1024 {
        tx.send(RoomEvent::Msg(format!("{}", i))).unwrap();
    }
    match rx.try_recv() {
        Ok(RoomEvent::Msg(line)) => assert_eq!(line, "0"),
        _ => panic!("the first event is missing"),
    }
    for i in 1024..2050 {
        tx.send(RoomEvent::Msg(format!("{}", i))).unwrap();
    }
    match rx.try_recv() {
        Err(TryRecvError::Lagged(missed)) => assert_eq!(missed, 1025),
        _ => panic!("the lag is not reported"),
    }
    match rx.try_recv() {
        Ok(RoomEvent::Msg(line)) => assert_eq!(line, "1026"),
        _ => panic!("the next event is missing"),
    }
}

#[test]
fn leave_removes_the_room_with_its_last_receiver() {
    let mut rooms = Rooms::new();
    let tx = rooms.join("main", "alpha");
    let _rx = tx.subscribe();
    rooms.leave("main", "alpha");
    assert!(!rooms.contains("main"));
    assert_eq!(rooms.list_users("main"), None);
}

#[test]
fn leave_keeps_the_room_of_others() {
    let mut rooms = Rooms::new();
    let tx = rooms.join("main", "alpha");
    let _alpha = tx.subscribe();
    let _beta = rooms.join("main", "beta").subscribe();
    rooms.leave("main", "alpha");
    assert_eq!(rooms.list_users("main"), Some(vec!["beta".to_string()]));
    rooms.leave("main", "beta");
    assert!(rooms.contains("main"));
    assert_eq!(rooms.list_users("main"), Some(Vec::new()));
}

#[test]
fn leave_of_a_missing_room_changes_nothing() {
    let mut rooms = Rooms::new();
    let _tx = rooms.join("main", "alpha");
    rooms.leave("nowhere", "alpha");
    rooms.leave_counted("nowhere", "alpha", 0);
    assert_eq!(rooms.len(), 1);
    assert_eq!(rooms.list_users("main"), Some(vec!["alpha".to_string()]));
}

#[test]
fn leave_counted_goes_by_the_count() {
    let mut rooms = Rooms::new();
    let _tx = rooms.join("main", "alpha");
    let _tx = rooms.join("main", "beta");
    rooms.leave_counted("main", "alpha", 2);
    assert_eq!(rooms.list_users("main"), Some(vec!["beta".to_string()]));
    rooms.leave_counted("main", "gamma", 5);
    assert_eq!(rooms.list_users("main"), Some(vec!["beta".to_string()]));
    rooms.leave_counted("main", "beta", 1);
    assert!(!rooms.contains("main"));
    let _tx = rooms.join("rust", "alpha");
    rooms.leave_counted("rust", "alpha", 0);
    assert!(!rooms.contains("rust"));
}

#[test]
fn change_moves_the_user() {
    let mut rooms = Rooms::new();
    let main = rooms.join("main", "alpha");
    let _rx = main.subscribe();
    let _other = rooms.join("main", "beta").subscribe();
    let rust = rooms.change("main", "rust", "alpha");
    assert!(!rust.same_channel(&main));
    assert_eq!(rooms.list_users("main"), Some(vec!["beta".to_string()]));
    assert_eq!(rooms.list_users("rust"), Some(vec!["alpha".to_string()]));
    let _tx = rooms.change_counted("rust", "main", "alpha", 1);
    assert!(!rooms.contains("rust"));
    assert_eq!(
        rooms.list_users("main"),
        Some(vec!["alpha".to_string(), "beta".to_string()])
    );
}

#[test]
fn change_name_replaces_the_handle_in_the_room() {
    let mut rooms = Rooms::new();
    let _tx = rooms.join("main", "alpha");
    let _tx = rooms.join("main", "beta");
    let _tx = rooms.join("rust", "alpha2");
    rooms.change_name("main", "alpha", "zed");
    assert_eq!(
        rooms.list_users("main"),
        Some(vec!["beta".to_string(), "zed".to_string()])
    );
    assert_eq!(rooms.list_users("rust"), Some(vec!["alpha2".to_string()]));
    rooms.change_name("nowhere", "beta", "bob");
    assert_eq!(rooms.len(), 2);
}

#[test]
fn list_is_sorted_by_count_then_name() {
    let mut rooms = Rooms::new();
    let mut receivers = Vec::new();
    for (room, count) in [("delta", 1), ("alpha", 3), ("charlie", 1), ("bravo", 3), ("echo", 0)] {
        let tx = rooms.join(room, "someone");
        for _ in 0..count {
            receivers.push(tx.subscribe());
        }
    }
    assert_eq!(rooms.list(), vec![
        entry("alpha", 3),
        entry("bravo", 3),
        entry("charlie", 1),
        entry("delta", 1),
        entry("echo", 0),
    ]);
    receivers.clear();
    assert_eq!(rooms.list(), vec![
        entry("alpha", 0),
        entry("bravo", 0),
        entry("charlie", 0),
        entry("delta", 0),
        entry("echo", 0),
    ]);
}

#[test]
fn list_users_is_sorted_ascending() {
    let mut rooms = Rooms::new();
    for user in ["mike", "Zulu", "alpha", "al", "alpha-2", "_x", "9lives"] {
        let _tx = rooms.join("main", user);
    }
    let users = rooms.list_users("main").unwrap();
    let mut expected = users.clone();
    expected.sort();
    assert_eq!(users, expected);
    assert_eq!(users, vec!["9lives", "Zulu", "_x", "al", "alpha", "alpha-2", "mike"]);
}

#[test]
fn sort_listing_orders_by_count_then_name() {
    let sorted = sort_listing(vec![
        entry("b", 1),
        entry("a", 1),
        entry("z", 9),
        entry("c", 0),
        entry("a", 9),
    ]);
    assert_eq!(sorted, vec![
        entry("a", 9),
        entry("z", 9),
        entry("a", 1),
        entry("b", 1),
        entry("c", 0),
    ]);
    assert_eq!(sort_listing(Vec::new()), Vec::new());
}

#[test]
fn sort_names_orders_like_the_standard_order_of_strings() {
    let names = vec!["b", "ab", "a", "B", "\u{e9}", "z", "abc", ""];
    let sorted = sort_names(names.iter().map(|s| s.to_string()).collect());
    let mut expected: Vec<String> = names.iter().map(|s| s.to_string()).collect();
    expected.sort();
    assert_eq!(sorted, expected);
}
